//! What each script becomes: a message, or a file with its path and the command that runs it.
use vstd::prelude::*;
use vstd::string::*;
use std::collections::HashMap;
use crate::config::{Config, ConfigDefaults};
use crate::text::{
    chars_eq, chars_of, clone_strings, decimal, is_digit, join, join_chars, join_strings,
    lemma_split_last, lemma_split_none, numeral_value, occurs_at, occurs_at_exec, parse_numeral,
    push_decimal, replace_all, replace_exec, split, split_chars, string_of,
};

verus! {

/// A line of text for the standard output or error stream.
#[derive(Debug, PartialEq, Eq)]
pub enum OutputText {
    Stdout(String),
    Stderr(String),
}

/// Where a script is saved: directory, stem and extension.
#[derive(Debug, PartialEq, Eq)]
pub struct OutputFilePath {
    pub dir: String,
    pub stem: String,
    pub ext: String,
}

impl OutputFilePath {
    /// The path as one string: `dir/stem.ext`.
    pub open spec fn render(&self) -> Seq<char> {
        self.dir@ + "/"@ + self.stem@ + "."@ + self.ext@
    }

    /// The path as one string.
    pub fn get(&self) -> (r: String)
        ensures
            r@ == self.render(),
    {
        let mut r = self.dir.clone();
        r.append("/");
        r.append(self.stem.as_str());
        r.append(".");
        r.append(self.ext.as_str());
        r
    }
}

/// The `/`-parts of a path token, a leading directory placeholder replaced by the directory name.
pub open spec fn path_parts(token: Seq<char>, dir_name: Seq<char>, plc_dir: Seq<char>) -> Seq<Seq<char>> {
    let parts = split(token, '/');
    if parts[0] == plc_dir {
        parts.update(0, dir_name)
    } else {
        parts
    }
}

/// The `.`-parts of the file name of a path token.
pub open spec fn name_parts(token: Seq<char>, dir_name: Seq<char>, plc_dir: Seq<char>) -> Seq<Seq<char>> {
    split(path_parts(token, dir_name, plc_dir).last(), '.')
}

/// The directory: the parts before the file name, or the directory name where there are none.
pub open spec fn resolve_dir(token: Seq<char>, dir_name: Seq<char>, plc_dir: Seq<char>) -> Seq<char> {
    let parts = path_parts(token, dir_name, plc_dir);
    if parts.len() > 1 {
        join(parts.drop_last(), "/"@)
    } else {
        dir_name
    }
}

/// The stem: the file name but its last `.`-part, or the source's stem where the name has no `.`.
pub open spec fn resolve_stem(token: Seq<char>, dir_name: Seq<char>, plc_dir: Seq<char>, src: Seq<char>) -> Seq<char> {
    let names = name_parts(token, dir_name, plc_dir);
    if names.len() > 1 {
        join(names.drop_last(), "."@)
    } else {
        source_stem(src)
    }
}

/// The stem of the source path: the path without its last `.`-part (its extension), or the
/// whole path where it holds no `.`.
pub open spec fn source_stem(src: Seq<char>) -> Seq<char> {
    let parts = split(src, '.');
    if parts.len() > 1 {
        join(parts.drop_last(), "."@)
    } else {
        src
    }
}

/// The extension: the last `.`-part of the file name.
pub open spec fn resolve_ext(token: Seq<char>, dir_name: Seq<char>, plc_dir: Seq<char>) -> Seq<char> {
    name_parts(token, dir_name, plc_dir).last()
}

/// Resolves a path token to its directory, stem and extension.
pub fn resolve_path(token: &str, dir_name: &str, plc_dir: &str, src: &str) -> (r: OutputFilePath)
    ensures
        r.dir@ == resolve_dir(token@, dir_name@, plc_dir@),
        r.stem@ == resolve_stem(token@, dir_name@, plc_dir@, src@),
        r.ext@ == resolve_ext(token@, dir_name@, plc_dir@),
{
    let mut parts = split_chars(&chars_of(token), '/');
    let plc = chars_of(plc_dir);
    let name = chars_of(dir_name);
    let ghost whole = split(token@, '/');
    assert(parts[0].deep_view() =~= parts[0]@);
    if chars_eq(&parts[0], &plc) {
        let nm = chars_of(dir_name);
        assert(nm.deep_view() =~= nm@);
        parts.set(0, nm);
        assert(parts.deep_view() =~= whole.update(0, dir_name@));
    }
    assert(parts.deep_view() == path_parts(token@, dir_name@, plc_dir@));
    let ghost all = parts.deep_view();
    let last = parts.pop().unwrap();
    assert(last.deep_view() =~= last@);
    assert(last@ == all.last());
    assert(parts.deep_view() =~= path_parts(token@, dir_name@, plc_dir@).drop_last());
    let names = split_chars(&last, '.');
    let dir = if parts.len() > 0 {
        let d = join_chars(&parts, 0, parts.len(), "/");
        assert(parts.deep_view().subrange(0, parts@.len() as int) =~= parts.deep_view());
        d
    } else {
        string_of(&name, 0, name.len())
    };
    assert(name@.subrange(0, name@.len() as int) =~= name@);
    let stem = if names.len() > 1 {
        let s = join_chars(&names, 0, names.len() - 1, ".");
        assert(names.deep_view().subrange(0, names@.len() - 1) =~= names.deep_view().drop_last());
        s
    } else {
        let parts = split_chars(&chars_of(src), '.');
        if parts.len() > 1 {
            let s = join_chars(&parts, 0, parts.len() - 1, ".");
            assert(parts.deep_view().subrange(0, parts@.len() - 1) =~= parts.deep_view().drop_last());
            s
        } else {
            String::from_str(src)
        }
    };
    let k = names.len() - 1;
    assert(names[k as int].deep_view() =~= names[k as int]@);
    let ext = string_of(&names[k], 0, names[k].len());
    assert(names[k as int]@.subrange(0, names[k as int]@.len() as int) =~= names[k as int]@);
    OutputFilePath { dir, stem, ext }
}

/// How the command of a script is run.
#[derive(Debug, PartialEq, Eq)]
pub struct OutputFileInitCode {
    /// The program.
    pub prog: String,
    /// Its arguments; for a composite command, the flag and the command text.
    pub args: Vec<String>,
    /// Each path placeholder in the command: the number of the script whose path replaces it
    /// (0 for this script's own), and the placeholder's text.
    pub plcs: Vec<(usize, String)>,
}

/// What follows the save of a script: a message, or a command to run.
#[derive(Debug, PartialEq, Eq)]
pub enum OutputFileInit {
    Text(OutputText),
    Code(OutputFileInitCode),
}

/// A script to save and run.
#[derive(Debug, PartialEq, Eq)]
pub struct OutputFile {
    /// The items of the tag line.
    pub data: Vec<String>,
    /// The script body.
    pub code: String,
    pub path: OutputFilePath,
    pub init: OutputFileInit,
    /// The script's number.
    pub n: usize,
}

/// The outcome for one script.
#[derive(Debug, PartialEq, Eq)]
pub enum Output {
    Text(OutputText),
    File(OutputFile),
}

/// The end of the run of digits in `item` that starts at `k`.
pub open spec fn digits_end(item: Seq<char>, k: int) -> int
    decreases item.len() - k,
{
    if 0 <= k < item.len() && is_digit(item[k]) {
        digits_end(item, k + 1)
    } else {
        k
    }
}

/// The placeholder that starts at `i` in `item`, as the number of the script it names and the
/// position where it ends: `head` then `tail` names this script (0); `head`, a decimal
/// script number and `tail` name that script.
pub open spec fn placeholder_at(item: Seq<char>, head: Seq<char>, tail: Seq<char>, i: int) -> Option<(usize, int)> {
    let k = i + head.len();
    let j = digits_end(item, k);
    if !occurs_at(item, head, i) {
        None
    } else if occurs_at(item, tail, k) {
        Some((0usize, k + tail.len()))
    } else if j > k && occurs_at(item, tail, j) && numeral_value(item.subrange(k, j)) <= usize::MAX {
        Some((numeral_value(item.subrange(k, j)) as usize, j + tail.len()))
    } else {
        None
    }
}

/// The placeholders of `item` from position `i` on, scanning left to right: each match is
/// recorded with its text, and the scan goes on after it.
pub open spec fn item_placeholders(item: Seq<char>, head: Seq<char>, tail: Seq<char>, i: int) -> Seq<(usize, Seq<char>)>
    decreases item.len() - i,
{
    if i < 0 || i >= item.len() {
        seq![]
    } else {
        match placeholder_at(item, head, tail, i) {
            Some((t, e)) => if e > i {
                seq![(t, item.subrange(i, e))] + item_placeholders(item, head, tail, e)
            } else {
                seq![(t, item.subrange(i, e))] + item_placeholders(item, head, tail, i + 1)
            },
            None => item_placeholders(item, head, tail, i + 1),
        }
    }
}

/// The placeholders of the command items, in order.
pub open spec fn placeholders(items: Seq<Seq<char>>, head: Seq<char>, tail: Seq<char>) -> Seq<(usize, Seq<char>)>
    decreases items.len(),
{
    if items.len() == 0 {
        seq![]
    } else {
        placeholders(items.drop_last(), head, tail) + item_placeholders(items.last(), head, tail, 0)
    }
}

/// The view of a run of placeholder records.
pub open spec fn plc_views(s: Seq<(usize, String)>) -> Seq<(usize, Seq<char>)> {
    s.map_values(|p: (usize, String)| (p.0, p.1@))
}

/// The end of the run of digits in `item` that starts at `k`.
fn digits_end_exec(item: &Vec<char>, k: usize) -> (r: usize)
    requires
        k <= item@.len(),
    ensures
        r == digits_end(item@, k as int),
        k <= r <= item@.len(),
{
    let mut j = k;
    while j < item.len() && item[j] as u32 >= 48 && item[j] as u32 <= 57
        invariant
            k <= j <= item@.len(),
            digits_end(item@, j as int) == digits_end(item@, k as int),
        decreases item@.len() - j,
    {
        j = j + 1;
    }
    j
}

/// The placeholder that starts at `i` in `item`.
fn placeholder_exec(item: &Vec<char>, head: &Vec<char>, tail: &Vec<char>, i: usize) -> (r: Option<(usize, usize)>)
    ensures
        r matches Some(p) ==> placeholder_at(item@, head@, tail@, i as int) == Some((p.0, p.1 as int))
            && p.1 <= item@.len(),
        r is None ==> placeholder_at(item@, head@, tail@, i as int) is None,
{
    if !occurs_at_exec(item, head, i) {
        return None;
    }
    let n = item.len();
    let k = i + head.len();
    if occurs_at_exec(item, tail, k) {
        return Some((0, k + tail.len()));
    }
    let j = digits_end_exec(item, k);
    if j > k && occurs_at_exec(item, tail, j) {
        match parse_numeral(item, k, j) {
            Some(v) => {
                return Some((v, j + tail.len()));
            },
            None => {
                proof {
                    assert forall|q: int| 0 <= q < j - k implies is_digit(#[trigger] item@.subrange(k as int, j as int)[q]) by {
                        lemma_digits_run(item@, k as int, k + q);
                    }
                }
                return None;
            },
        }
    }
    None
}

/// Every position between `k` and the end of its digit run holds a digit.
proof fn lemma_digits_run(item: Seq<char>, k: int, q: int)
    requires
        0 <= k <= q < digits_end(item, k),
    ensures
        is_digit(item[q]),
    decreases item.len() - k,
{
    if k < q {
        lemma_digits_run(item, k + 1, q);
    }
}

/// The placeholders of `items[from..]`.
pub fn scan_placeholders(items: &Vec<String>, from: usize, head: &Vec<char>, tail: &Vec<char>) -> (r: Vec<(usize, String)>)
    requires
        from <= items@.len(),
    ensures
        plc_views(r@) == placeholders(items.deep_view().skip(from as int), head@, tail@),
{
    let mut r: Vec<(usize, String)> = Vec::new();
    let mut i: usize = from;
    while i < items.len()
        invariant
            from <= i <= items@.len(),
            plc_views(r@) == placeholders(items.deep_view().subrange(from as int, i as int), head@, tail@),
        decreases items@.len() - i,
    {
        let ghost prev = items.deep_view().subrange(from as int, i as int);
        let ghost next = items.deep_view().subrange(from as int, i + 1);
        assert(next.drop_last() =~= prev);
        let item = chars_of(items[i].as_str());
        assert(items[i as int].deep_view() == item@);
        let ghost base = plc_views(r@);
        let mut p: usize = 0;
        assert(item_placeholders(item@, head@, tail@, 0) == item_placeholders(item@, head@, tail@, p as int));
        while p < item.len()
            invariant
                p <= item@.len(),
                plc_views(r@) + item_placeholders(item@, head@, tail@, p as int) == base + item_placeholders(
                    item@,
                    head@,
                    tail@,
                    0,
                ),
            decreases item@.len() - p,
        {
            match placeholder_exec(&item, head, tail, p) {
                Some((t, e)) => {
                    let ghost before = r@;
                    let raw = string_of(&item, p, e);
                    r.push((t, raw));
                    assert(plc_views(r@) =~= plc_views(before).push((t, item@.subrange(p as int, e as int))));
                    if e > p {
                        assert(plc_views(r@) + item_placeholders(item@, head@, tail@, e as int) =~= plc_views(before)
                            + (seq![(t, item@.subrange(p as int, e as int))] + item_placeholders(
                            item@,
                            head@,
                            tail@,
                            e as int,
                        )));
                        p = e;
                    } else {
                        assert(plc_views(r@) + item_placeholders(item@, head@, tail@, p + 1) =~= plc_views(before) + (
                        seq![(t, item@.subrange(p as int, e as int))] + item_placeholders(
                            item@,
                            head@,
                            tail@,
                            p + 1,
                        )));
                        p = p + 1;
                    }
                },
                None => {
                    p = p + 1;
                },
            }
        }
        assert(item_placeholders(item@, head@, tail@, p as int) =~= Seq::empty());
        assert(plc_views(r@) =~= base + item_placeholders(item@, head@, tail@, 0));
        i = i + 1;
    }
    assert(items.deep_view().subrange(from as int, items@.len() as int) =~= items.deep_view().skip(from as int));
    r
}

/// The notice that a script is saved but not run, for the reason that `reason` gives.
pub open spec fn not_running(n: usize, reason: Seq<char>) -> Seq<char> {
    "Not running file no. "@ + decimal(n as nat) + reason
}

fn not_running_text(n: usize, reason: &str) -> (r: String)
    ensures
        r@ == not_running(n, reason@),
{
    let mut r = String::from_str("Not running file no. ");
    push_decimal(&mut r, n);
    r.append(reason);
    r
}

/// `f` is the script with tag items `data`, body `code` and number `n` under `config`.
pub open spec fn file_is(f: OutputFile, data: Seq<Seq<char>>, code: String, n: usize, config: Config) -> bool {
    &&& f.data.deep_view() == data
    &&& f.code == code
    &&& f.n == n
    &&& f.path.dir@ == resolve_dir(data[0], config.dir_name(), config.defaults.plc_path_dir@)
    &&& f.path.stem@ == resolve_stem(data[0], config.dir_name(), config.defaults.plc_path_dir@, config.src_path())
    &&& f.path.ext@ == resolve_ext(data[0], config.dir_name(), config.defaults.plc_path_dir@)
    &&& init_is(f.init, data, n, f.path.render(), config.defaults)
}

/// What follows the save of a script with tag items `data`, number `n` and rendered path `path`:
/// a notice where nothing follows the path token or the stop signal does; else a command,
/// composite where an item holds a path placeholder, direct otherwise.
pub open spec fn init_is(init: OutputFileInit, data: Seq<Seq<char>>, n: usize, path: Seq<char>, d: ConfigDefaults) -> bool {
    if data.len() == 1 {
        init matches OutputFileInit::Text(OutputText::Stderr(m)) && m@ == not_running(n, " (no values)"@)
    } else if data[1] == d.sig_stop@ {
        init matches OutputFileInit::Text(OutputText::Stderr(m))
            && m@ == not_running(n, " ("@ + d.sig_stop@ + " applied)"@)
    } else {
        let plcs = placeholders(data.skip(1), d.plc_head(), d.plc_tail());
        match init {
            OutputFileInit::Code(c) => {
                &&& plc_views(c.plcs@) == plcs
                &&& if plcs.len() > 0 {
                    &&& c.prog@ == d.cmd_prog@
                    &&& c.args.deep_view() == seq![d.cmd_flag@, join(data.skip(1), " "@)]
                } else {
                    &&& c.prog@ == data[1]
                    &&& c.args.deep_view() == data.skip(2).push(path)
                }
            },
            _ => false,
        }
    }
}

impl OutputFile {
    /// The script with tag items `data`, body `code` and number `n`: its path resolved from
    /// the first item, and what follows its save decided from the rest.
    pub fn new(data: Vec<String>, code: String, n: usize, config: &Config) -> (r: OutputFile)
        requires
            data@.len() > 0,
            config.defaults.wf(),
        ensures
            r.data@ == data@,
            file_is(r, data.deep_view(), code, n, *config),
    {
        let dir_name = config.get("dest", "path_dir");
        let src = config.get("path_src", "path_src");
        let path = resolve_path(data[0].as_str(), dir_name.as_str(), config.defaults.plc_path_dir.as_str(), src.as_str());
        let ghost dv = data.deep_view();
        let init = if data.len() == 1 {
            OutputFileInit::Text(OutputText::Stderr(not_running_text(n, " (no values)")))
        } else if data[1] == config.defaults.sig_stop {
            let mut reason = String::from_str(" (");
            reason.append(config.defaults.sig_stop.as_str());
            reason.append(" applied)");
            OutputFileInit::Text(OutputText::Stderr(not_running_text(n, reason.as_str())))
        } else {
            let (head, tail) = config.defaults.plc_marks();
            let plcs = scan_placeholders(&data, 1, &head, &tail);
            if plcs.len() > 0 {
                let cmd = join_strings(&data, 1, data.len(), " ");
                assert(dv.subrange(1, dv.len() as int) =~= dv.skip(1));
                let args = vec![config.defaults.cmd_flag.clone(), cmd];
                assert(args.deep_view() =~= seq![config.defaults.cmd_flag@, join(dv.skip(1), " "@)]);
                OutputFileInit::Code(OutputFileInitCode { prog: config.defaults.cmd_prog.clone(), args, plcs })
            } else {
                let mut args: Vec<String> = Vec::new();
                let mut i: usize = 2;
                while i < data.len()
                    invariant
                        2 <= i <= data@.len(),
                        dv == data.deep_view(),
                        args.deep_view() == dv.subrange(2, i as int),
                    decreases data@.len() - i,
                {
                    let ghost before = args.deep_view();
                    let c = data[i].clone();
                    assert(c@ == dv[i as int]);
                    args.push(c);
                    assert(args.deep_view() =~= before.push(c@));
                    assert(args.deep_view() =~= dv.subrange(2, i + 1));
                    i = i + 1;
                }
                args.push(path.get());
                assert(args.deep_view() =~= dv.skip(2).push(path.render()));
                OutputFileInit::Code(OutputFileInitCode { prog: data[1].clone(), args, plcs })
            }
        };
        OutputFile { data, code, path, init, n }
    }
}

/// The number of the script whose path the placeholder `p` of script `n` stands for.
pub open spec fn target(p: (usize, Seq<char>), n: usize) -> usize {
    if p.0 == 0 {
        n
    } else {
        p.0
    }
}

/// Every placeholder of script `n` names a script that has a path in `ctx`.
pub open spec fn all_resolvable(plcs: Seq<(usize, Seq<char>)>, n: usize, ctx: Map<usize, String>) -> bool {
    forall|i: int| 0 <= i < plcs.len() ==> ctx.contains_key(#[trigger] target(plcs[i], n))
}

/// `cmd` with the placeholders replaced in turn, each by the path of the script it names.
pub open spec fn substituted(cmd: Seq<char>, plcs: Seq<(usize, Seq<char>)>, n: usize, ctx: Map<usize, String>) -> Seq<char>
    decreases plcs.len(),
{
    if plcs.len() == 0 {
        cmd
    } else {
        replace_all(
            substituted(cmd, plcs.drop_last(), n, ctx),
            plcs.last().1,
            ctx[target(plcs.last(), n)]@,
        )
    }
}

impl OutputFileInitCode {
    /// The arguments to run the program with, for script `n` under the path map `context`:
    /// the arguments as they are where there is no placeholder; else the flag and the command
    /// with each placeholder replaced by its path; or the number of a script with no path.
    pub fn args_resolved(&self, n: usize, context: &HashMap<usize, String>) -> (r: Result<Vec<String>, usize>)
        requires
            self.plcs@.len() > 0 ==> self.args@.len() >= 2,
            forall|i: int| 0 <= i < self.plcs@.len() ==> (#[trigger] self.plcs@[i]).1@.len() > 0,
        ensures
            self.plcs@.len() == 0 ==> (r matches Ok(a) && a@ == self.args@),
            self.plcs@.len() > 0 ==> (r is Ok <==> all_resolvable(plc_views(self.plcs@), n, context@)),
            self.plcs@.len() > 0 ==> (r matches Ok(a) ==> a.deep_view() == seq![
                self.args@[0]@,
                substituted(self.args@[1]@, plc_views(self.plcs@), n, context@),
            ]),
            r matches Err(k) ==> !context@.contains_key(k) && exists|i: int|
                0 <= i < self.plcs@.len() && #[trigger] target(plc_views(self.plcs@)[i], n) == k,
    {
        broadcast use vstd::std_specs::hash::group_hash_axioms;

        if self.plcs.len() == 0 {
            return Ok(clone_strings(&self.args));
        }
        let ghost pv = plc_views(self.plcs@);
        let mut cmd = chars_of(self.args[1].as_str());
        let mut i: usize = 0;
        while i < self.plcs.len()
            invariant
                i <= self.plcs@.len(),
                pv == plc_views(self.plcs@),
                forall|j: int| 0 <= j < self.plcs@.len() ==> (#[trigger] self.plcs@[j]).1@.len() > 0,
                self.args@.len() >= 2,
                cmd@ == substituted(self.args@[1]@, pv.take(i as int), n, context@),
                all_resolvable(pv.take(i as int), n, context@),
            decreases self.plcs@.len() - i,
        {
            let t = if self.plcs[i].0 == 0 {
                n
            } else {
                self.plcs[i].0
            };
            assert(t == target(pv[i as int], n));
            assert(pv.take(i + 1).drop_last() =~= pv.take(i as int));
            match context.get(&t) {
                Some(path) => {
                    let raw = chars_of(self.plcs[i].1.as_str());
                    let with = chars_of(path.as_str());
                    assert(self.plcs@[i as int].1@.len() > 0);
                    cmd = replace_exec(&cmd, &raw, &with);
                    assert forall|j: int| 0 <= j < i + 1 implies context@.contains_key(
                        #[trigger] target(pv.take(i + 1)[j], n),
                    ) by {
                        if j < i {
                            assert(pv.take(i + 1)[j] == pv.take(i as int)[j]);
                        }
                    }
                },
                None => {
                    return Err(t);
                },
            }
            i = i + 1;
        }
        assert(pv.take(pv.len() as int) =~= pv);
        let mut args: Vec<String> = Vec::new();
        args.push(self.args[0].clone());
        args.push(string_of(&cmd, 0, cmd.len()));
        assert(cmd@.subrange(0, cmd@.len() as int) =~= cmd@);
        assert(args.deep_view() =~= seq![
            self.args@[0]@,
            substituted(self.args@[1]@, pv, n, context@),
        ]);
        Ok(args)
    }
}

/// A bare extension (no `/`, no `.`) keeps the directory name and the source's stem.
pub proof fn lemma_bare_extension(ext: Seq<char>, dir_name: Seq<char>, plc_dir: Seq<char>, src: Seq<char>)
    requires
        !ext.contains('/'),
        !ext.contains('.'),
        ext != plc_dir,
    ensures
        resolve_dir(ext, dir_name, plc_dir) == dir_name,
        resolve_stem(ext, dir_name, plc_dir, src) == source_stem(src),
        resolve_ext(ext, dir_name, plc_dir) == ext,
{
    lemma_split_none(ext, '/');
    lemma_split_none(ext, '.');
}

/// A file name `stem.ext` (neither part holding `/` or `.`, the stem not the directory
/// placeholder) keeps the directory name and splits at its dot.
pub proof fn lemma_two_part_name(
    stem: Seq<char>,
    ext: Seq<char>,
    dir_name: Seq<char>,
    plc_dir: Seq<char>,
    src: Seq<char>,
)
    requires
        !stem.contains('/'),
        !stem.contains('.'),
        !ext.contains('/'),
        !ext.contains('.'),
        stem.push('.') + ext != plc_dir,
    ensures
        resolve_dir(stem.push('.') + ext, dir_name, plc_dir) == dir_name,
        resolve_stem(stem.push('.') + ext, dir_name, plc_dir, src) == stem,
        resolve_ext(stem.push('.') + ext, dir_name, plc_dir) == ext,
{
    let name = stem.push('.') + ext;
    assert(!name.contains('/')) by {
        if name.contains('/') {
            let i = choose|i: int| 0 <= i < name.len() && name[i] == '/';
            if i < stem.len() {
                assert(stem[i] == '/');
            } else if i > stem.len() {
                assert(ext[i - stem.len() - 1] == '/');
            }
        }
    }
    lemma_split_none(name, '/');
    lemma_split_last(stem, '.', ext);
    lemma_split_none(stem, '.');
    assert(split(name, '.') =~= seq![stem, ext]);
    assert(seq![stem, ext].drop_last() =~= seq![stem]);
}

} // verus!
