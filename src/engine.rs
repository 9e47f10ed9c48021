//! The fragment engine: a source document split into numbered scripts, each tag line
//! parsed into a label and items, and each script turned into its output.
use vstd::prelude::*;
use vstd::string::*;
use std::collections::HashMap;
use crate::config::{message_lookup, Config, ConfigReceiptVal};
use crate::output::{file_is, not_running, target, Output, OutputFile, OutputFileInit, OutputText};
use crate::text::{
    all_white, chars_eq, chars_of, decimal, find, find_exec, is_numeral, is_white, join, join_chars,
    lemma_find_first, lemma_find_none, lemma_none_found, lemma_trim_ignore_padding, numeral_value,
    occurs_at, parse_numeral, push_decimal, split, split_chars, split_str, split_str_exec,
    string_of, sub_chars, trim, trim_bounds, words, words_of,
};

verus! {

/// A numbered script of the source: its tag line (without the tag head) and its body.
#[derive(Debug, PartialEq, Eq)]
pub struct Script {
    pub n: usize,
    pub line: String,
    pub body: String,
}

/// `l` without one trailing carriage return.
pub open spec fn strip_cr(l: Seq<char>) -> Seq<char> {
    if l.len() > 0 && l.last() == '\r' {
        l.drop_last()
    } else {
        l
    }
}

/// The lines of `s`, as `str::lines` gives them: cut at each line feed, a carriage return
/// before a line feed dropped with it, and a final empty piece dropped.
pub open spec fn lines(s: Seq<char>) -> Seq<Seq<char>> {
    let parts = split(s, '\n');
    let ended = parts.drop_last().map_values(|l: Seq<char>| strip_cr(l));
    if parts.last().len() == 0 {
        ended
    } else {
        ended.push(parts.last())
    }
}

/// The lines of `v`.
pub fn lines_of(v: &Vec<char>) -> (r: Vec<Vec<char>>)
    ensures
        r.deep_view() == lines(v@),
{
    let parts = split_chars(v, '\n');
    let ghost all = parts.deep_view();
    let k = parts.len() - 1;
    let mut ls: Vec<Vec<char>> = Vec::new();
    let mut i: usize = 0;
    while i < k
        invariant
            k + 1 == parts@.len(),
            i <= k,
            all == parts.deep_view(),
            ls.deep_view() == all.take(i as int).map_values(|l: Seq<char>| strip_cr(l)),
        decreases k - i,
    {
        let m = parts[i].len();
        assert(parts[i as int].deep_view() =~= parts[i as int]@);
        let l = if m > 0 && parts[i][m - 1] == '\r' {
            sub_chars(&parts[i], 0, m - 1)
        } else {
            sub_chars(&parts[i], 0, m)
        };
        assert(l@ =~= strip_cr(all[i as int]));
        let ghost before = ls.deep_view();
        assert(l.deep_view() =~= l@);
        ls.push(l);
        assert(ls.deep_view() =~= before.push(l@));
        assert(all.take(i + 1).map_values(|l: Seq<char>| strip_cr(l)) =~= all.take(i as int).map_values(
            |l: Seq<char>| strip_cr(l),
        ).push(strip_cr(all[i as int])));
        i = i + 1;
    }
    assert(all.take(k as int) =~= all.drop_last());
    assert(parts[k as int].deep_view() =~= parts[k as int]@);
    if parts[k].len() > 0 {
        let last = sub_chars(&parts[k], 0, parts[k].len());
        assert(last@ =~= all.last());
        let ghost before = ls.deep_view();
        assert(last.deep_view() =~= last@);
        ls.push(last);
        assert(ls.deep_view() =~= before.push(last@));
    }
    ls
}

/// `sc` is the script numbered `n` whose text is `text`.
pub open spec fn script_is(sc: Script, n: usize, text: Seq<char>) -> bool {
    &&& sc.n == n
    &&& lines(text).len() > 0 ==> sc.line@ == lines(text)[0]
    &&& lines(text).len() > 0 ==> sc.body@ == join(lines(text).skip(1), "\n"@)
    &&& lines(text).len() == 0 ==> sc.line@.len() == 0 && sc.body@.len() == 0
}

impl Script {
    /// The script numbered `n` whose text is `text`: its first line is the tag line,
    /// the other lines joined with line feeds the body.
    pub fn new(n: usize, text: String) -> (r: Script)
        ensures
            script_is(r, n, text@),
    {
        let ls = lines_of(&chars_of(text.as_str()));
        assert(ls.deep_view() == lines(text@));
        if ls.len() == 0 {
            return Script { n, line: String::new(), body: String::new() };
        }
        assert(ls[0].deep_view() =~= ls[0]@);
        let line = string_of(&ls[0], 0, ls[0].len());
        assert(ls[0]@.subrange(0, ls[0]@.len() as int) =~= ls[0]@);
        let body = join_chars(&ls, 1, ls.len(), "\n");
        assert(ls.deep_view().subrange(1, ls@.len() as int) =~= ls.deep_view().skip(1));
        Script { n, line, body }
    }
}

/// The label of a tag line: what precedes the first tag tail, untrimmed; empty where there is none.
pub open spec fn tag_label(line: Seq<char>, tail: Seq<char>) -> Seq<char> {
    match find(line, tail) {
        Some(i) => line.take(i),
        None => seq![],
    }
}

/// The data of a tag line: what follows the first tag tail (or the whole line where there is
/// none), trimmed.
pub open spec fn tag_data(line: Seq<char>, tail: Seq<char>) -> Seq<char> {
    match find(line, tail) {
        Some(i) => trim(line.skip(i + tail.len())),
        None => trim(line),
    }
}

/// The line that list mode prints for script `n`: `{n}:{label:} {data}`.
pub open spec fn list_line(n: usize, label: Seq<char>, data: Seq<char>) -> Seq<char> {
    decimal(n as nat) + ":"@ + (if label.len() > 0 {
        label + ":"@
    } else {
        seq![]
    }) + " "@ + data
}

/// The notice for a script whose tag line holds no data.
pub open spec fn no_data_text(n: usize) -> Seq<char> {
    "No tag data found for script no. "@ + decimal(n as nat)
}

/// The notice for a script whose first tag item is the stop signal.
pub open spec fn bypass_text(n: usize, sig_stop: Seq<char>) -> Seq<char> {
    "Bypassing script no. "@ + decimal(n as nat) + " ("@ + sig_stop + " applied)"@
}

/// The output for the script numbered `n` with tag line `line` and body `body`.
pub open spec fn output_is(r: Output, n: usize, line: Seq<char>, body: String, config: Config) -> bool {
    let label = tag_label(line, config.defaults.tag_tail@);
    let data = tag_data(line, config.defaults.tag_tail@);
    let items = words(data);
    if config.receipts.lookup("list"@) is Some {
        r matches Output::Text(OutputText::Stdout(m)) && m@ == list_line(n, label, data)
    } else if items.len() == 0 {
        r matches Output::Text(OutputText::Stderr(m)) && m@ == no_data_text(n)
    } else if items[0] == config.defaults.sig_stop@ {
        r matches Output::Text(OutputText::Stderr(m)) && m@ == bypass_text(n, config.defaults.sig_stop@)
    } else {
        r matches Output::File(f) && file_is(f, items, body, n, config)
    }
}

/// Splits a tag line at its first tag tail: the bounds of the label and of the trimmed data.
fn tag_split(line: &Vec<char>, tail: &Vec<char>) -> (r: (usize, usize, usize))
    ensures
        r.0 <= line@.len(),
        r.1 <= r.2 <= line@.len(),
        line@.take(r.0 as int) == tag_label(line@, tail@),
        line@.subrange(r.1 as int, r.2 as int) == tag_data(line@, tail@),
{
    match find_exec(line, tail) {
        Some(i) => {
            proof {
                lemma_find_first(line@, tail@, 0);
            }
            assert(occurs_at(line@, tail@, i as int));
            let len = line.len();
            assert(i + tail@.len() <= len);
            let rest = sub_chars(line, i + tail.len(), line.len());
            assert(rest@ =~= line@.skip(i + tail@.len()));
            let (a, b) = trim_bounds(&rest);
            let off = i + tail.len();
            assert(line@.subrange(off + a, off + b) =~= rest@.subrange(a as int, b as int));
            (i, off + a, off + b)
        },
        None => {
            let (a, b) = trim_bounds(line);
            assert(line@.take(0) =~= Seq::<char>::empty());
            (0, a, b)
        },
    }
}

/// The output for one script: in list mode its number, label and data; else a notice where
/// its tag line holds no data or begins with the stop signal; else the file to save and run.
pub fn inputs_parse(script: &Script, config: &Config) -> (r: Output)
    requires
        config.defaults.wf(),
    ensures
        output_is(r, script.n, script.line@, script.body, *config),
{
    let n = script.n;
    let line = chars_of(script.line.as_str());
    let tail = chars_of(config.defaults.tag_tail.as_str());
    let (l, a, b) = tag_split(&line, &tail);
    let ghost label = line@.take(l as int);
    let ghost data = line@.subrange(a as int, b as int);
    if config.receipts.contains_key("list") {
        let mut text = String::new();
        push_decimal(&mut text, n);
        text.append(":");
        if l > 0 {
            let label_text = string_of(&line, 0, l);
            text.append(label_text.as_str());
            text.append(":");
        }
        text.append(" ");
        let data_text = string_of(&line, a, b);
        text.append(data_text.as_str());
        assert(text@ =~= list_line(n, label, data));
        return Output::Text(OutputText::Stdout(text));
    }
    let data_chars = sub_chars(&line, a, b);
    let items = words_of(&data_chars);
    if items.len() == 0 {
        let mut text = String::from_str("No tag data found for script no. ");
        push_decimal(&mut text, n);
        return Output::Text(OutputText::Stderr(text));
    }
    if items[0] == config.defaults.sig_stop {
        let mut text = String::from_str("Bypassing script no. ");
        push_decimal(&mut text, n);
        text.append(" (");
        text.append(config.defaults.sig_stop.as_str());
        text.append(" applied)");
        return Output::Text(OutputText::Stderr(text));
    }
    Output::File(OutputFile::new(items, script.body.clone(), n, config))
}

/// The path of each script saved among `outputs`, by number; a later script under a number wins.
pub open spec fn context_of(outputs: Seq<Output>) -> Map<usize, Seq<char>>
    decreases outputs.len(),
{
    if outputs.len() == 0 {
        Map::empty()
    } else {
        let m = context_of(outputs.drop_last());
        match outputs.last() {
            Output::File(f) => m.insert(f.n, f.path.render()),
            _ => m,
        }
    }
}

/// The map from script number to rendered output path, over every saved script of `outputs`.
pub fn context_get(outputs: &Vec<Output>) -> (r: HashMap<usize, String>)
    ensures
        r@.dom() == context_of(outputs@).dom(),
        forall|k: usize| #[trigger] r@.contains_key(k) ==> r@[k]@ == context_of(outputs@)[k],
{
    broadcast use vstd::std_specs::hash::group_hash_axioms;

    let mut r: HashMap<usize, String> = HashMap::new();
    let mut i: usize = 0;
    while i < outputs.len()
        invariant
            i <= outputs@.len(),
            r@.dom() == context_of(outputs@.take(i as int)).dom(),
            forall|k: usize| #[trigger] r@.contains_key(k) ==> r@[k]@ == context_of(outputs@.take(i as int))[k],
        decreases outputs@.len() - i,
    {
        assert(outputs@.take(i + 1).drop_last() =~= outputs@.take(i as int));
        match &outputs[i] {
            Output::File(f) => {
                r.insert(f.n, f.path.get());
                assert(r@.dom() =~= context_of(outputs@.take(i + 1)).dom());
            },
            _ => {},
        }
        i = i + 1;
    }
    assert(outputs@.take(outputs@.len() as int) =~= outputs@);
    r
}

/// A source document: the text before the first tag head, and the scripts that follow.
#[derive(Debug, PartialEq, Eq)]
pub struct Source {
    pub preface: String,
    pub scripts: Vec<Script>,
}

/// Whether script `n` is among those selected: all, unless a subset was delivered.
pub open spec fn selected(n: usize, config: Config) -> bool {
    match config.receipts.lookup("only"@) {
        None => true,
        Some(ConfigReceiptVal::Ints(ns)) => ns@.contains(n),
        Some(_) => false,
    }
}

/// The selected scripts of `s`, in order.
pub open spec fn selected_scripts(s: Seq<Script>, config: Config) -> Seq<Script>
    decreases s.len(),
{
    if s.len() == 0 {
        seq![]
    } else {
        let r = selected_scripts(s.drop_last(), config);
        if selected(s.last().n, config) {
            r.push(s.last())
        } else {
            r
        }
    }
}

/// Whether `n` is among `ns`.
fn contains_number(ns: &Vec<usize>, n: usize) -> (r: bool)
    ensures
        r == ns@.contains(n),
{
    let mut i: usize = 0;
    while i < ns.len()
        invariant
            i <= ns@.len(),
            forall|j: int| 0 <= j < i ==> ns@[j] != n,
        decreases ns@.len() - i,
    {
        if ns[i] == n {
            assert(ns@[i as int] == n);
            return true;
        }
        i = i + 1;
    }
    false
}

/// The output of each selected script of `source`, in order.
pub fn outputs_get(source: Source, config: &Config) -> (r: Vec<Output>)
    requires
        config.defaults.wf(),
    ensures
        r@.len() == selected_scripts(source.scripts@, *config).len(),
        forall|i: int|
            0 <= i < r@.len() ==> {
                let s = #[trigger] selected_scripts(source.scripts@, *config)[i];
                output_is(r@[i], s.n, s.line@, s.body, *config)
            },
{
    let only = config.receipts.get("only");
    let mut r: Vec<Output> = Vec::new();
    let mut i: usize = 0;
    while i < source.scripts.len()
        invariant
            config.defaults.wf(),
            i <= source.scripts@.len(),
            only matches Some(v) ==> config.receipts.lookup("only"@) == Some(*v),
            only is None ==> config.receipts.lookup("only"@) is None,
            r@.len() == selected_scripts(source.scripts@.take(i as int), *config).len(),
            forall|j: int|
                0 <= j < r@.len() ==> {
                    let s = #[trigger] selected_scripts(source.scripts@.take(i as int), *config)[j];
                    output_is(r@[j], s.n, s.line@, s.body, *config)
                },
        decreases source.scripts@.len() - i,
    {
        let script = &source.scripts[i];
        assert(source.scripts@.take(i + 1).drop_last() =~= source.scripts@.take(i as int));
        let keep = match only {
            None => true,
            Some(ConfigReceiptVal::Ints(ns)) => contains_number(ns, script.n),
            Some(_) => false,
        };
        assert(keep == selected(script.n, *config));
        if keep {
            let o = inputs_parse(script, config);
            r.push(o);
        }
        i = i + 1;
    }
    assert(source.scripts@.take(source.scripts@.len() as int) =~= source.scripts@);
    r
}

/// A document line as the split sees it: a line equal to the `file` or `line` note, which hold
/// the tag head, is set aside under a placeholder.
pub open spec fn line_guarded(l: Seq<char>, file_msg: Seq<char>, line_msg: Seq<char>) -> Seq<char> {
    let a = if l == file_msg {
        "plc_doc_line_file"@
    } else {
        l
    };
    if a == line_msg {
        "plc_doc_line_line"@
    } else {
        a
    }
}

/// The document's lines, guarded, joined with line feeds.
pub open spec fn guarded_text(text: Seq<char>, file_msg: Seq<char>, line_msg: Seq<char>) -> Seq<char> {
    join(lines(text).map_values(|l: Seq<char>| line_guarded(l, file_msg, line_msg)), "\n"@)
}

/// `part` without a first line that begins with `#!`.
pub open spec fn shebang_removed(part: Seq<char>) -> Seq<char> {
    if part.len() >= 2 && part.take(2) == "#!"@ {
        match find(part, seq!['\n']) {
            Some(i) => part.skip(i + 1),
            None => part,
        }
    } else {
        part
    }
}

/// The `file` note of `config`.
pub open spec fn file_note(config: Config) -> Seq<char> {
    message_lookup(config.messages.repository@, "file"@)->0
}

/// The `line` note of `config`.
pub open spec fn line_note(config: Config) -> Seq<char> {
    message_lookup(config.messages.repository@, "line"@)->0
}

/// The sections of a document: the guarded text cut at every tag head.
pub open spec fn sections(text: Seq<char>, config: Config) -> Seq<Seq<char>> {
    split_str(guarded_text(text, file_note(config), line_note(config)), config.defaults.tag_head@)
}

/// The preface of a document: its first section without a shebang line, the notes restored.
pub open spec fn preface_of(text: Seq<char>, config: Config) -> Seq<char> {
    shebang_removed(restore_lines(sections(text, config)[0], lines(text), guarded_lines(text, config)))
}

/// The document's lines, guarded.
pub open spec fn guarded_lines(text: Seq<char>, config: Config) -> Seq<Seq<char>> {
    lines(text).map_values(|l: Seq<char>| line_guarded(l, file_note(config), line_note(config)))
}

/// A leading part of the guarded text with each of its guarded lines given back as it stood
/// in the document: every line but the last of `part` is a whole guarded line, and the last
/// is one where it equals the guarded line at its place.
pub open spec fn restore_lines(part: Seq<char>, orig: Seq<Seq<char>>, guarded: Seq<Seq<char>>) -> Seq<char> {
    let q = split(part, '\n');
    join(Seq::new(q.len(), |k: int| restored_line(q, orig, guarded, k)), "\n"@)
}

/// Line `k` of a leading part `q` of the guarded text, given back as it stood in the document.
pub open spec fn restored_line(q: Seq<Seq<char>>, orig: Seq<Seq<char>>, guarded: Seq<Seq<char>>, k: int) -> Seq<char> {
    if k < orig.len() && k < guarded.len() && (k < q.len() - 1 || q[k] == guarded[k]) {
        orig[k]
    } else {
        q[k]
    }
}

/// Splits a document into its preface and its scripts, numbered from 1 in document order.
pub fn source_parse(text: &str, config: &Config) -> (r: Source)
    requires
        config.defaults.tag_head@.len() > 0,
        message_lookup(config.messages.repository@, "file"@) is Some,
        message_lookup(config.messages.repository@, "line"@) is Some,
    ensures
        r.preface@ == preface_of(text@, *config),
        r.scripts@.len() + 1 == sections(text@, *config).len(),
        forall|i: int|
            0 <= i < r.scripts@.len() ==> script_is(
                #[trigger] r.scripts@[i],
                (i + 1) as usize,
                sections(text@, *config)[i + 1],
            ),
{
    let file_msg = match config.messages.get("file") {
        Some(m) => chars_of(m.as_str()),
        None => Vec::new(),
    };
    let line_msg = match config.messages.get("line") {
        Some(m) => chars_of(m.as_str()),
        None => Vec::new(),
    };
    let plc_file = chars_of("plc_doc_line_file");
    let plc_line = chars_of("plc_doc_line_line");
    let ls = lines_of(&chars_of(text));
    let ghost src_lines = lines(text@);
    let mut guarded: Vec<Vec<char>> = Vec::new();
    let mut i: usize = 0;
    while i < ls.len()
        invariant
            i <= ls@.len(),
            ls.deep_view() == src_lines,
            plc_file@ == "plc_doc_line_file"@,
            plc_line@ == "plc_doc_line_line"@,
            file_msg@ == file_note(*config),
            line_msg@ == line_note(*config),
            guarded.deep_view() == src_lines.take(i as int).map_values(
                |l: Seq<char>| line_guarded(l, file_note(*config), line_note(*config)),
            ),
        decreases ls@.len() - i,
    {
        assert(ls[i as int].deep_view() =~= ls[i as int]@);
        let a = if chars_eq(&ls[i], &file_msg) {
            sub_chars(&plc_file, 0, plc_file.len())
        } else {
            sub_chars(&ls[i], 0, ls[i].len())
        };
        assert(plc_file@.subrange(0, plc_file@.len() as int) =~= plc_file@);
        assert(ls[i as int]@.subrange(0, ls[i as int]@.len() as int) =~= ls[i as int]@);
        let g = if chars_eq(&a, &line_msg) {
            sub_chars(&plc_line, 0, plc_line.len())
        } else {
            a
        };
        assert(plc_line@.subrange(0, plc_line@.len() as int) =~= plc_line@);
        assert(g@ == line_guarded(src_lines[i as int], file_note(*config), line_note(*config)));
        let ghost before = guarded.deep_view();
        assert(g.deep_view() =~= g@);
        guarded.push(g);
        assert(guarded.deep_view() =~= before.push(g@));
        assert(src_lines.take(i + 1).map_values(
            |l: Seq<char>| line_guarded(l, file_note(*config), line_note(*config)),
        ) =~= src_lines.take(i as int).map_values(
            |l: Seq<char>| line_guarded(l, file_note(*config), line_note(*config)),
        ).push(line_guarded(src_lines[i as int], file_note(*config), line_note(*config))));
        i = i + 1;
    }
    assert(src_lines.take(src_lines.len() as int) =~= src_lines);
    let joined = join_chars(&guarded, 0, guarded.len(), "\n");
    assert(guarded.deep_view().subrange(0, guarded@.len() as int) =~= guarded.deep_view());
    let head = chars_of(config.defaults.tag_head.as_str());
    let secs = split_str_exec(&chars_of(joined.as_str()), &head);
    assert(secs.deep_view() == sections(text@, *config));
    assert(secs[0].deep_view() =~= secs[0]@);
    let ghost gl = guarded.deep_view();
    assert(gl == guarded_lines(text@, *config));
    let pieces = split_chars(&secs[0], '\n');
    let ghost q = pieces.deep_view();
    let m = pieces.len() - 1;
    let mut back: Vec<Vec<char>> = Vec::new();
    let mut k: usize = 0;
    while k < pieces.len()
        invariant
            k <= pieces@.len(),
            m + 1 == pieces@.len(),
            q == pieces.deep_view(),
            ls.deep_view() == src_lines,
            guarded.deep_view() == gl,
            back.deep_view() == Seq::new(k as nat, |j: int| restored_line(q, src_lines, gl, j)),
        decreases pieces@.len() - k,
    {
        assert(pieces[k as int].deep_view() =~= pieces[k as int]@);
        let own = k < ls.len() && k < guarded.len() && (k < m || {
            assert(guarded[k as int].deep_view() =~= guarded[k as int]@);
            chars_eq(&pieces[k], &guarded[k])
        });
        let l = if own {
            assert(ls[k as int].deep_view() =~= ls[k as int]@);
            sub_chars(&ls[k], 0, ls[k].len())
        } else {
            sub_chars(&pieces[k], 0, pieces[k].len())
        };
        assert(l@ =~= restored_line(q, src_lines, gl, k as int));
        let ghost before = back.deep_view();
        assert(l.deep_view() =~= l@);
        back.push(l);
        assert(back.deep_view() =~= before.push(l@));
        assert(back.deep_view() =~= Seq::new((k + 1) as nat, |j: int| restored_line(q, src_lines, gl, j)));
        k = k + 1;
    }
    let rejoined = join_chars(&back, 0, back.len(), "\n");
    assert(back.deep_view().subrange(0, back@.len() as int) =~= back.deep_view());
    let first = &chars_of(rejoined.as_str());
    assert(first@ == restore_lines(sections(text@, *config)[0], src_lines, gl));
    proof {
        reveal_strlit("#!");
    }
    let cut = if first.len() >= 2 && first[0] == '#' && first[1] == '!' {
        assert(first@.take(2) =~= "#!"@);
        let nl = vec!['\n'];
        assert(nl@ =~= seq!['\n']);
        match find_exec(first, &nl) {
            Some(k) => {
                proof {
                    lemma_find_first(first@, nl@, 0);
                }
                let len = first.len();
                assert(k + 1 <= len);
                let c = sub_chars(first, k + 1, len);
                assert(c@ =~= first@.skip(k + 1));
                c
            },
            None => sub_chars(first, 0, first.len()),
        }
    } else {
        proof {
            if first@.len() >= 2 && first@.take(2) == "#!"@ {
                assert(first@.take(2)[0] == '#');
                assert(first@.take(2)[1] == '!');
            }
        }
        sub_chars(first, 0, first.len())
    };
    assert(first@.subrange(0, first@.len() as int) =~= first@);
    assert(cut@ == shebang_removed(first@));
    let preface = string_of(&cut, 0, cut.len());
    assert(cut@.subrange(0, cut@.len() as int) =~= cut@);
    let mut scripts: Vec<Script> = Vec::new();
    let mut k: usize = 1;
    while k < secs.len()
        invariant
            1 <= k <= secs@.len(),
            secs.deep_view() == sections(text@, *config),
            scripts@.len() + 1 == k,
            forall|j: int|
                0 <= j < scripts@.len() ==> script_is(
                    #[trigger] scripts@[j],
                    (j + 1) as usize,
                    sections(text@, *config)[j + 1],
                ),
        decreases secs@.len() - k,
    {
        assert(secs[k as int].deep_view() =~= secs[k as int]@);
        let t = string_of(&secs[k], 0, secs[k].len());
        assert(secs[k as int]@.subrange(0, secs[k as int]@.len() as int) =~= secs[k as int]@);
        let sc = Script::new(k, t);
        scripts.push(sc);
        k = k + 1;
    }
    Source { preface, scripts }
}

/// Whether `s` begins with `p`.
pub open spec fn starts_with(s: Seq<char>, p: Seq<char>) -> bool {
    s.len() >= p.len() && s.take(p.len() as int) == p
}

/// A tag line with its tag head: `line` as it is where it begins with the head, else the head,
/// a space and `line` trimmed.
pub open spec fn tagged(line: Seq<char>, head: Seq<char>) -> Seq<char> {
    if starts_with(line, head) {
        line
    } else {
        head + " "@ + trim(line)
    }
}

/// `line` with the tag head added where it has none.
pub fn tag_head_add(line: &str, config: &Config) -> (r: String)
    ensures
        r@ == tagged(line@, config.defaults.tag_head@),
{
    let l = chars_of(line);
    let head = chars_of(config.defaults.tag_head.as_str());
    if l.len() >= head.len() {
        let start = sub_chars(&l, 0, head.len());
        assert(start@ =~= l@.take(head@.len() as int));
        if chars_eq(&start, &head) {
            return String::from_str(line);
        }
    }
    let (a, b) = trim_bounds(&l);
    let mut r = config.defaults.tag_head.clone();
    r.append(" ");
    r.append(string_of(&l, a, b).as_str());
    r
}

/// The text that appends a script to a source: a blank line, the tag line with its head,
/// another blank line, then the script.
pub open spec fn push_text_of(line: Seq<char>, script: Seq<char>, head: Seq<char>) -> Seq<char> {
    "\n"@ + tagged(line, head) + "\n\n"@ + script
}

/// The text that appends `script` under the tag line `line` to a source.
pub fn push_text(line: &str, script: &str, config: &Config) -> (r: String)
    ensures
        r@ == push_text_of(line@, script@, config.defaults.tag_head@),
{
    let mut r = String::from_str("\n");
    r.append(tag_head_add(line, config).as_str());
    r.append("\n\n");
    r.append(script);
    r
}

/// The text of one script in a rewritten source: its tag line, a line feed, its body and a line feed.
pub open spec fn script_text(sc: Script, n: usize, line: Seq<char>, head: Seq<char>) -> Seq<char> {
    (if sc.n == n {
        tagged(line, head)
    } else {
        tagged(sc.line@, head)
    }) + "\n"@ + sc.body@ + "\n"@
}

/// The texts of the scripts, one after another.
pub open spec fn scripts_text(s: Seq<Script>, n: usize, line: Seq<char>, head: Seq<char>) -> Seq<char>
    decreases s.len(),
{
    if s.len() == 0 {
        seq![]
    } else {
        scripts_text(s.drop_last(), n, line, head) + script_text(s.last(), n, line, head)
    }
}

/// The source rewritten with the tag line of script `n` set to `line`: the preface, then each
/// script with its tag line (the head added where missing), body and line feeds.
pub fn source_with_line(source: &Source, n: usize, line: &str, config: &Config) -> (r: String)
    ensures
        r@ == source.preface@ + scripts_text(source.scripts@, n, line@, config.defaults.tag_head@),
{
    let new_line = tag_head_add(line, config);
    let mut r = source.preface.clone();
    let mut i: usize = 0;
    while i < source.scripts.len()
        invariant
            i <= source.scripts@.len(),
            new_line@ == tagged(line@, config.defaults.tag_head@),
            r@ == source.preface@ + scripts_text(source.scripts@.take(i as int), n, line@, config.defaults.tag_head@),
        decreases source.scripts@.len() - i,
    {
        let sc = &source.scripts[i];
        assert(source.scripts@.take(i + 1).drop_last() =~= source.scripts@.take(i as int));
        if sc.n == n {
            r.append(new_line.as_str());
        } else {
            r.append(tag_head_add(sc.line.as_str(), config).as_str());
        }
        r.append("\n");
        r.append(sc.body.as_str());
        r.append("\n");
        assert(r@ =~= source.preface@ + scripts_text(source.scripts@.take(i + 1), n, line@, config.defaults.tag_head@));
        i = i + 1;
    }
    assert(source.scripts@.take(source.scripts@.len() as int) =~= source.scripts@);
    r
}

/// The script number in `s`, where `s` is a decimal numeral that fits in `usize`.
pub fn parse_number(s: &str) -> (r: Option<usize>)
    ensures
        r is Some <==> is_numeral(s@) && numeral_value(s@) <= usize::MAX,
        r matches Some(x) ==> x == numeral_value(s@),
{
    let v = chars_of(s);
    assert(v@.subrange(0, v@.len() as int) =~= v@);
    parse_numeral(&v, 0, v.len())
}

/// The items of the tag line of script `line` under `config`.
pub open spec fn tag_items(line: Seq<char>, config: Config) -> Seq<Seq<char>> {
    words(tag_data(line, config.defaults.tag_tail@))
}

/// In list mode a script yields only its listing line on standard output, whatever its tag
/// line holds: nothing is saved or run.
pub proof fn lemma_list_mode(r: Output, n: usize, line: Seq<char>, body: String, config: Config)
    requires
        output_is(r, n, line, body, config),
        config.receipts.lookup("list"@) is Some,
    ensures
        r matches Output::Text(OutputText::Stdout(m)) && m@ == list_line(
            n,
            tag_label(line, config.defaults.tag_tail@),
            tag_data(line, config.defaults.tag_tail@),
        ),
{
}

/// A tag line with a path token alone yields a file that is saved but not run, with the
/// notice that no values follow, and no command at all.
pub proof fn lemma_path_only_skips(r: Output, n: usize, line: Seq<char>, body: String, config: Config)
    requires
        output_is(r, n, line, body, config),
        config.receipts.lookup("list"@) is None,
        tag_items(line, config).len() == 1,
        tag_items(line, config)[0] != config.defaults.sig_stop@,
    ensures
        r matches Output::File(f) && f.init matches OutputFileInit::Text(OutputText::Stderr(m)) && m@
            == not_running(n, " (no values)"@),
{
}

/// A stop signal as second tag item yields a file that is saved but not run, whatever
/// placeholders the later items hold.
pub proof fn lemma_stop_signal_bypasses_run(r: Output, n: usize, line: Seq<char>, body: String, config: Config)
    requires
        output_is(r, n, line, body, config),
        config.receipts.lookup("list"@) is None,
        tag_items(line, config).len() >= 2,
        tag_items(line, config)[0] != config.defaults.sig_stop@,
        tag_items(line, config)[1] == config.defaults.sig_stop@,
    ensures
        r matches Output::File(f) && f.init matches OutputFileInit::Text(OutputText::Stderr(m)) && m@
            == not_running(n, " ("@ + config.defaults.sig_stop@ + " applied)"@),
{
}

/// The path map holds the number of every saved script, with a path for it.
pub proof fn lemma_context_complete(outputs: Seq<Output>)
    ensures
        forall|i: int|
            0 <= i < outputs.len() && (#[trigger] outputs[i]) is File ==> context_of(outputs).contains_key(
                outputs[i]->File_0.n,
            ),
    decreases outputs.len(),
{
    if outputs.len() > 0 {
        lemma_context_complete(outputs.drop_last());
        assert forall|i: int|
            0 <= i < outputs.len() && (#[trigger] outputs[i]) is File implies context_of(outputs).contains_key(
            outputs[i]->File_0.n,
        ) by {
            if i < outputs.len() - 1 {
                assert(outputs.drop_last()[i] == outputs[i]);
            }
        }
    }
}

/// Placeholders that each name a saved script of `outputs` (or the script itself, when it is
/// saved) all find a path in the path map.
pub proof fn lemma_placeholders_resolve(outputs: Seq<Output>, plcs: Seq<(usize, Seq<char>)>, n: usize)
    requires
        forall|i: int|
            0 <= i < plcs.len() ==> exists|j: int|
                0 <= j < outputs.len() && (#[trigger] outputs[j]) is File && outputs[j]->File_0.n == target(
                    #[trigger] plcs[i],
                    n,
                ),
    ensures
        forall|i: int| 0 <= i < plcs.len() ==> context_of(outputs).contains_key(#[trigger] target(plcs[i], n)),
{
    lemma_context_complete(outputs);
    assert forall|i: int| 0 <= i < plcs.len() implies context_of(outputs).contains_key(
        #[trigger] target(plcs[i], n),
    ) by {
        let p = plcs[i];
        let j = choose|j: int|
            0 <= j < outputs.len() && (#[trigger] outputs[j]) is File && outputs[j]->File_0.n == target(p, n);
    }
}

/// Whitespace around a tag line that holds no tag tail changes neither its label nor its data,
/// so the script yields the same output; the tag tail is taken to hold no whitespace.
pub proof fn lemma_padding_ignored(pre: Seq<char>, s: Seq<char>, post: Seq<char>, n: usize, body: String, config: Config)
    requires
        all_white(pre),
        all_white(post),
        config.defaults.tag_tail@.len() > 0,
        forall|k: int| 0 <= k < config.defaults.tag_tail@.len() ==> !is_white(#[trigger] config.defaults.tag_tail@[k]),
        find(s, config.defaults.tag_tail@) is None,
    ensures
        tag_label(pre + s + post, config.defaults.tag_tail@) == tag_label(s, config.defaults.tag_tail@),
        tag_data(pre + s + post, config.defaults.tag_tail@) == tag_data(s, config.defaults.tag_tail@),
        forall|r: Output| output_is(r, n, pre + s + post, body, config) == output_is(r, n, s, body, config),
{
    let tail = config.defaults.tag_tail@;
    let line = pre + s + post;
    assert forall|j: int| 0 <= j implies !occurs_at(line, tail, j) by {
        if occurs_at(line, tail, j) {
            let sub = line.subrange(j, j + tail.len());
            assert(sub[0] == tail[0]);
            assert(sub[tail.len() - 1] == tail[tail.len() - 1]);
            if j < pre.len() {
                assert(line[j] == pre[j]);
                assert(!is_white(tail[0]));
            } else if j + tail.len() > pre.len() + s.len() {
                let e = j + tail.len() - 1;
                assert(line[e] == post[e - pre.len() - s.len()]);
                assert(!is_white(tail[tail.len() - 1]));
            } else {
                let k = j - pre.len();
                assert(s.subrange(k, k + tail.len()) =~= sub);
                lemma_find_none(s, tail, 0, k);
            }
        }
    }
    lemma_none_found(line, tail, 0);
    lemma_trim_ignore_padding(pre, s, post);
}

} // verus!
