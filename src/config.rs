//! The resolved configuration: defaults, the settings that flags select, the values
//! that flags and positional arguments deliver, and the note messages.
use vstd::prelude::*;
use vstd::string::*;
use crate::settings::{setting_only_apply, subset_values};
use crate::text::{
    chars_eq, chars_of, find, find_exec, lemma_find_first, occurs_at, strings_range, sub_chars,
};

verus! {

/// Whether two strings hold the same characters.
pub fn str_eq(a: &str, b: &str) -> (r: bool)
    ensures
        r == (a@ == b@),
{
    chars_eq(&chars_of(a), &chars_of(b))
}

/// The built-in default values, one field per key.
#[derive(Debug, PartialEq, Eq)]
pub struct ConfigDefaults {
    /// Source file path, whose stem is the default output stem.
    pub path_src: String,
    /// Output directory name.
    pub path_dir: String,
    /// Directory holding a backup of the source while it is rewritten.
    pub path_tmp_dir: String,
    /// Delimiter that opens each tag line.
    pub tag_head: String,
    /// Delimiter that closes the label of a tag line.
    pub tag_tail: String,
    /// Signal that stops saving or running.
    pub sig_stop: String,
    /// Placeholder for the output directory in a path.
    pub plc_path_dir: String,
    /// Placeholder for an output path in a command; `{}` marks where a script number may stand.
    pub plc_path_all: String,
    /// Program that runs a composite command.
    pub cmd_prog: String,
    /// Flag that hands the composite command to that program.
    pub cmd_flag: String,
}

/// The mark inside the all-path placeholder where a script number may stand.
pub open spec fn slot_mark() -> Seq<char> {
    seq!['{', '}']
}

impl ConfigDefaults {
    /// The value under `key`, for each of the ten key names.
    pub open spec fn named(&self, key: Seq<char>) -> Option<Seq<char>> {
        if key == "path_src"@ {
            Some(self.path_src@)
        } else if key == "path_dir"@ {
            Some(self.path_dir@)
        } else if key == "path_tmp_dir"@ {
            Some(self.path_tmp_dir@)
        } else if key == "tag_head"@ {
            Some(self.tag_head@)
        } else if key == "tag_tail"@ {
            Some(self.tag_tail@)
        } else if key == "sig_stop"@ {
            Some(self.sig_stop@)
        } else if key == "plc_path_dir"@ {
            Some(self.plc_path_dir@)
        } else if key == "plc_path_all"@ {
            Some(self.plc_path_all@)
        } else if key == "cmd_prog"@ {
            Some(self.cmd_prog@)
        } else if key == "cmd_flag"@ {
            Some(self.cmd_flag@)
        } else {
            None
        }
    }

    /// The value under `key`, if `key` names a default.
    pub fn get(&self, key: &str) -> (r: Option<&String>)
        ensures
            r matches Some(v) ==> self.named(key@) == Some(v@),
            r is None ==> self.named(key@) is None,
    {
        if str_eq(key, "path_src") {
            Some(&self.path_src)
        } else if str_eq(key, "path_dir") {
            Some(&self.path_dir)
        } else if str_eq(key, "path_tmp_dir") {
            Some(&self.path_tmp_dir)
        } else if str_eq(key, "tag_head") {
            Some(&self.tag_head)
        } else if str_eq(key, "tag_tail") {
            Some(&self.tag_tail)
        } else if str_eq(key, "sig_stop") {
            Some(&self.sig_stop)
        } else if str_eq(key, "plc_path_dir") {
            Some(&self.plc_path_dir)
        } else if str_eq(key, "plc_path_all") {
            Some(&self.plc_path_all)
        } else if str_eq(key, "cmd_prog") {
            Some(&self.cmd_prog)
        } else if str_eq(key, "cmd_flag") {
            Some(&self.cmd_flag)
        } else {
            None
        }
    }

    /// The part of the all-path placeholder before the number slot.
    pub open spec fn plc_head(&self) -> Seq<char> {
        self.plc_path_all@.take(find(self.plc_path_all@, slot_mark())->0)
    }

    /// The part of the all-path placeholder after the number slot, up to any further slot.
    pub open spec fn plc_tail(&self) -> Seq<char> {
        split_str_first(self.plc_path_all@.skip(find(self.plc_path_all@, slot_mark())->0 + 2))
    }

    /// The parts of the all-path placeholder before and after its number slot.
    pub fn plc_marks(&self) -> (r: (Vec<char>, Vec<char>))
        requires
            self.wf(),
        ensures
            r.0@ == self.plc_head(),
            r.1@ == self.plc_tail(),
    {
        let plc = chars_of(self.plc_path_all.as_str());
        let slot = vec!['{', '}'];
        assert(slot@ =~= slot_mark());
        let i = match find_exec(&plc, &slot) {
            Some(i) => i,
            None => 0,
        };
        proof {
            lemma_find_first(plc@, slot@, 0);
        }
        assert(occurs_at(plc@, slot@, i as int));
        let len = plc.len();
        assert(slot@.len() == 2);
        assert(i + 2 <= len);
        let head = sub_chars(&plc, 0, i);
        let rest = sub_chars(&plc, i + 2, plc.len());
        assert(head@ =~= plc@.take(i as int));
        assert(rest@ =~= plc@.skip(i + 2));
        let tail = match find_exec(&rest, &slot) {
            Some(j) => {
                proof {
                    lemma_find_first(rest@, slot@, 0);
                }
                let t = sub_chars(&rest, 0, j);
                assert(t@ =~= rest@.take(j as int));
                t
            },
            None => rest,
        };
        (head, tail)
    }

    /// The all-path placeholder holds a number slot, and is more than that slot.
    pub open spec fn wf(&self) -> bool {
        &&& find(self.plc_path_all@, slot_mark()) is Some
        &&& self.plc_head().len() + self.plc_tail().len() > 0
    }
}

/// `s` up to the first number slot, or the whole of `s` where none is.
pub open spec fn split_str_first(s: Seq<char>) -> Seq<char> {
    match find(s, slot_mark()) {
        Some(i) => s.take(i),
        None => s,
    }
}

/// A value that a flag or a positional argument delivered.
#[derive(Debug, PartialEq, Eq)]
pub enum ConfigReceiptVal {
    Bool,
    Ints(Vec<usize>),
    Strs(Vec<String>),
}

/// The delivered values, keyed by setting word; a later entry under a key hides earlier ones.
#[derive(Debug, PartialEq, Eq)]
pub struct ConfigReceipts {
    entries: Vec<(String, ConfigReceiptVal)>,
}

/// The value of the last entry under `key`.
pub open spec fn receipt_lookup(entries: Seq<(String, ConfigReceiptVal)>, key: Seq<char>) -> Option<ConfigReceiptVal>
    decreases entries.len(),
{
    if entries.len() == 0 {
        None
    } else if entries.last().0@ == key {
        Some(entries.last().1)
    } else {
        receipt_lookup(entries.drop_last(), key)
    }
}

impl ConfigReceipts {
    /// The value under `key`.
    pub closed spec fn lookup(&self, key: Seq<char>) -> Option<ConfigReceiptVal> {
        receipt_lookup(self.entries@, key)
    }

    /// No values delivered yet.
    pub fn new() -> (r: ConfigReceipts)
        ensures
            forall|k: Seq<char>| r.lookup(k) is None,
    {
        ConfigReceipts { entries: Vec::new() }
    }

    /// Sets the value under `key`.
    pub fn insert(&mut self, key: String, val: ConfigReceiptVal)
        ensures
            forall|k: Seq<char>|
                #[trigger] final(self).lookup(k) == if k == key@ {
                    Some(val)
                } else {
                    old(self).lookup(k)
                },
    {
        let ghost prev = self.entries@;
        let ghost kv = key@;
        self.entries.push((key, val));
        assert(self.entries@.drop_last() =~= prev);
        assert forall|k: Seq<char>|
            #[trigger] receipt_lookup(self.entries@, k) == if k == kv {
                Some(val)
            } else {
                receipt_lookup(prev, k)
            } by {}
    }

    /// Sets each value of `other`, in its order.
    pub fn extend(&mut self, other: ConfigReceipts)
        ensures
            forall|k: Seq<char>|
                #[trigger] final(self).lookup(k) == match other.lookup(k) {
                    Some(v) => Some(v),
                    None => old(self).lookup(k),
                },
    {
        let ghost prev = self.entries@;
        let ghost more = other.entries@;
        let mut other = other;
        self.entries.append(&mut other.entries);
        assert forall|k: Seq<char>|
            #[trigger] receipt_lookup(prev + more, k) == match receipt_lookup(more, k) {
                Some(v) => Some(v),
                None => receipt_lookup(prev, k),
            } by {
            lemma_lookup_concat(prev, more, k);
        }
    }

    /// Whether a value stands under `key`.
    pub fn contains_key(&self, key: &str) -> (r: bool)
        ensures
            r == self.lookup(key@) is Some,
    {
        self.get(key).is_some()
    }

    /// The value under `key`.
    pub fn get(&self, key: &str) -> (r: Option<&ConfigReceiptVal>)
        ensures
            r matches Some(v) ==> self.lookup(key@) == Some(*v),
            r is None ==> self.lookup(key@) is None,
    {
        let mut i: usize = self.entries.len();
        assert(self.entries@.take(i as int) =~= self.entries@);
        while i > 0
            invariant
                i <= self.entries@.len(),
                receipt_lookup(self.entries@.take(i as int), key@) == self.lookup(key@),
            decreases i,
        {
            assert(self.entries@.take(i as int).drop_last() =~= self.entries@.take(i - 1));
            if str_eq(self.entries[i - 1].0.as_str(), key) {
                return Some(&self.entries[i - 1].1);
            }
            i = i - 1;
        }
        None
    }
}

/// Looking up in two runs of entries finds the later run's value first.
pub proof fn lemma_lookup_concat(
    a: Seq<(String, ConfigReceiptVal)>,
    b: Seq<(String, ConfigReceiptVal)>,
    k: Seq<char>,
)
    ensures
        receipt_lookup(a + b, k) == match receipt_lookup(b, k) {
            Some(v) => Some(v),
            None => receipt_lookup(a, k),
        },
    decreases b.len(),
{
    if b.len() == 0 {
        assert(a + b =~= a);
    } else {
        assert((a + b).drop_last() =~= a + b.drop_last());
        lemma_lookup_concat(a, b.drop_last(), k);
    }
}

/// The message of the last entry under `key`.
pub open spec fn message_lookup(entries: Seq<(String, String)>, key: Seq<char>) -> Option<Seq<char>>
    decreases entries.len(),
{
    if entries.len() == 0 {
        None
    } else if entries.last().0@ == key {
        Some(entries.last().1@)
    } else {
        message_lookup(entries.drop_last(), key)
    }
}

/// Messages of the usage notes, keyed by name, and the names of the notes in their order.
#[derive(Debug, PartialEq, Eq)]
pub struct ConfigMessages {
    pub repository: Vec<(String, String)>,
    pub keys_notes: Vec<String>,
}

impl ConfigMessages {
    /// Every note name has a message.
    pub open spec fn wf(&self) -> bool {
        forall|i: int|
            0 <= i < self.keys_notes@.len() ==> (#[trigger] message_lookup(
                self.repository@,
                self.keys_notes@[i]@,
            )) is Some
    }

    /// The message under `key`.
    pub fn get(&self, key: &str) -> (r: Option<&String>)
        ensures
            r matches Some(v) ==> message_lookup(self.repository@, key@) == Some(v@),
            r is None ==> message_lookup(self.repository@, key@) is None,
    {
        let mut i: usize = self.repository.len();
        assert(self.repository@.take(i as int) =~= self.repository@);
        while i > 0
            invariant
                i <= self.repository@.len(),
                message_lookup(self.repository@.take(i as int), key@) == message_lookup(
                    self.repository@,
                    key@,
                ),
            decreases i,
        {
            assert(self.repository@.take(i as int).drop_last() =~= self.repository@.take(i - 1));
            if str_eq(self.repository[i - 1].0.as_str(), key) {
                return Some(&self.repository[i - 1].1);
            }
            i = i - 1;
        }
        None
    }

    /// The note messages, in the order of their names.
    pub fn compose_notes(&self) -> (r: Vec<String>)
        requires
            self.wf(),
        ensures
            r@.len() == self.keys_notes@.len(),
            forall|i: int|
                0 <= i < r@.len() ==> Some(#[trigger] r@[i]@) == message_lookup(
                    self.repository@,
                    self.keys_notes@[i]@,
                ),
    {
        let mut r: Vec<String> = Vec::new();
        let mut i: usize = 0;
        while i < self.keys_notes.len()
            invariant
                self.wf(),
                i <= self.keys_notes@.len(),
                r@.len() == i,
                forall|j: int|
                    0 <= j < i ==> Some(#[trigger] r@[j]@) == message_lookup(
                        self.repository@,
                        self.keys_notes@[j]@,
                    ),
            decreases self.keys_notes@.len() - i,
        {
            let ghost k = self.keys_notes@[i as int]@;
            assert(message_lookup(self.repository@, k) is Some);
            match self.get(self.keys_notes[i].as_str()) {
                Some(m) => {
                    r.push(m.clone());
                },
                None => {},
            }
            i = i + 1;
        }
        r
    }
}

/// What a setting does once its flag is found.
#[derive(Clone, Copy, Debug, PartialEq, Eq)]
pub enum ConfigSettingCall {
    /// List the scripts without saving or running.
    List,
    /// Keep only a subset of the scripts.
    Only,
    /// Override the output directory name.
    Dest,
    /// Create a template source file.
    Init,
    /// Append a script to the source.
    Push,
    /// Rewrite the tag line of one script.
    Edit,
    /// Show name and version.
    Version,
    /// Show usage.
    Help,
}

/// A command-line setting: its long and short flag, the names of the values it takes,
/// its description and what it does.
#[derive(Debug, PartialEq, Eq)]
pub struct ConfigSetting {
    pub word: String,
    pub char: String,
    pub strs: Vec<String>,
    pub desc: String,
    pub call: ConfigSettingCall,
}

/// The views of a run of string slices.
pub open spec fn str_views(s: Seq<&str>) -> Seq<Seq<char>> {
    s.map_values(|x: &str| x@)
}

impl ConfigSetting {
    /// The setting with these flags, value names, description and call.
    pub fn new(word: &str, char: &str, val_strs: &[&str], desc: &str, call: ConfigSettingCall) -> (r: ConfigSetting)
        ensures
            r.word@ == word@,
            r.char@ == char@,
            r.strs.deep_view() == str_views(val_strs@),
            r.strs@.len() == val_strs@.len(),
            r.desc@ == desc@,
            r.call == call,
    {
        let mut strs: Vec<String> = Vec::new();
        let mut i: usize = 0;
        while i < val_strs.len()
            invariant
                i <= val_strs@.len(),
                strs.deep_view() == str_views(val_strs@.take(i as int)),
            decreases val_strs@.len() - i,
        {
            strs.push(String::from_str(val_strs[i]));
            assert(str_views(val_strs@.take(i + 1)) =~= str_views(val_strs@.take(i as int)).push(val_strs@[i as int]@));
            assert(strs.deep_view() =~= str_views(val_strs@.take(i + 1)));
            i = i + 1;
        }
        assert(val_strs@.take(val_strs@.len() as int) =~= val_strs@);
        ConfigSetting {
            word: String::from_str(word),
            char: String::from_str(char),
            strs,
            desc: String::from_str(desc),
            call,
        }
    }

    /// The setting that shows name and version.
    pub fn new_version() -> (r: ConfigSetting)
        ensures
            r.word@ == "version"@,
            r.char@ == "v"@,
            r.strs@.len() == 0,
            r.desc@ == "show name and version number then exit"@,
            r.call == ConfigSettingCall::Version,
    {
        ConfigSetting::new("version", "v", &[], "show name and version number then exit", ConfigSettingCall::Version)
    }

    /// The setting that shows usage.
    pub fn new_help() -> (r: ConfigSetting)
        ensures
            r.word@ == "help"@,
            r.char@ == "h"@,
            r.strs@.len() == 0,
            r.desc@ == "show usage, flags available and notes then exit"@,
            r.call == ConfigSettingCall::Help,
    {
        ConfigSetting::new("help", "h", &[], "show usage, flags available and notes then exit", ConfigSettingCall::Help)
    }
}

/// The whole configuration.
#[derive(Debug, PartialEq, Eq)]
pub struct Config {
    pub defaults: ConfigDefaults,
    pub settings: Vec<ConfigSetting>,
    pub receipts: ConfigReceipts,
    pub messages: ConfigMessages,
}

impl Config {
    /// The first string delivered under `key_receipt`; otherwise the default under
    /// `key_default`; otherwise the empty string.
    pub open spec fn get_spec(&self, key_receipt: Seq<char>, key_default: Seq<char>) -> Seq<char> {
        match self.receipts.lookup(key_receipt) {
            Some(ConfigReceiptVal::Strs(v)) if v@.len() > 0 => v@[0]@,
            _ => match self.defaults.named(key_default) {
                Some(d) => d,
                None => seq![],
            },
        }
    }

    /// The output directory name in force.
    pub open spec fn dir_name(&self) -> Seq<char> {
        self.get_spec("dest"@, "path_dir"@)
    }

    /// The source path in force.
    pub open spec fn src_path(&self) -> Seq<char> {
        self.get_spec("path_src"@, "path_src"@)
    }

    /// The first string delivered under `key_receipt`; otherwise the default under
    /// `key_default`; otherwise the empty string.
    pub fn get(&self, key_receipt: &str, key_default: &str) -> (r: String)
        ensures
            r@ == self.get_spec(key_receipt@, key_default@),
    {
        match self.receipts.get(key_receipt) {
            Some(ConfigReceiptVal::Strs(v)) => {
                if v.len() > 0 {
                    return v[0].clone();
                }
            },
            _ => {},
        }
        match self.defaults.get(key_default) {
            Some(d) => d.clone(),
            None => String::new(),
        }
    }
}

/// A delivered value as plain values: a kind (0 a flag alone, 1 numbers, 2 strings),
/// the numbers and the strings.
pub open spec fn val_model(v: ConfigReceiptVal) -> (nat, Seq<usize>, Seq<Seq<char>>) {
    match v {
        ConfigReceiptVal::Bool => (0, seq![], seq![]),
        ConfigReceiptVal::Ints(ns) => (1, ns@, seq![]),
        ConfigReceiptVal::Strs(ss) => (2, seq![], ss.deep_view()),
    }
}

/// The value under `k`, as plain values.
pub open spec fn lookup_model(rc: ConfigReceipts, k: Seq<char>) -> Option<(nat, Seq<usize>, Seq<Seq<char>>)> {
    match rc.lookup(k) {
        Some(v) => Some(val_model(v)),
        None => None,
    }
}

/// The value of the last entry under `k`.
pub open spec fn model_lookup(
    entries: Seq<(Seq<char>, (nat, Seq<usize>, Seq<Seq<char>>))>,
    k: Seq<char>,
) -> Option<(nat, Seq<usize>, Seq<Seq<char>>)>
    decreases entries.len(),
{
    if entries.len() == 0 {
        None
    } else if entries.last().0 == k {
        Some(entries.last().1)
    } else {
        model_lookup(entries.drop_last(), k)
    }
}

/// How the arguments left after the flags are taken.
#[derive(Clone, Copy, Debug, PartialEq, Eq)]
pub enum ArgHandler {
    /// From the command line: the first names the source file.
    Cli,
    /// From the source preface: none is taken.
    Src,
}

/// Why a round of arguments was refused.
#[derive(Debug, PartialEq, Eq)]
pub enum ConfigError {
    /// The flag of this setting is not followed by all of its values.
    ValuesMissing(String),
    /// The flags and their values reach past the end of the arguments.
    ArgsOverlap,
    /// This subset is not a list of numbers and ranges.
    SubsetInvalid(String),
}

/// Whether `a` is the long (`--word`) or short (`-c`) flag of `s`.
pub open spec fn is_flag(s: ConfigSetting, a: Seq<char>) -> bool {
    a == "--"@ + s.word@ || a == "-"@ + s.char@
}

/// The positions before `upto` that hold a flag of `s`, in order.
pub open spec fn flag_positions(s: ConfigSetting, args: Seq<Seq<char>>, upto: int) -> Seq<usize>
    decreases upto,
{
    if upto <= 0 {
        seq![]
    } else {
        let r = flag_positions(s, args, upto - 1);
        if is_flag(s, args[upto - 1]) {
            r.push((upto - 1) as usize)
        } else {
            r
        }
    }
}

/// The flags found, as (setting index, position): by setting, then by position.
pub open spec fn flag_queue(settings: Seq<ConfigSetting>, args: Seq<Seq<char>>, upto: int) -> Seq<(usize, usize)>
    decreases upto,
{
    if upto <= 0 {
        seq![]
    } else {
        flag_queue(settings, args, upto - 1) + flag_positions(settings[upto - 1], args, args.len() as int).map_values(
            |j: usize| ((upto - 1) as usize, j),
        )
    }
}

/// How many arguments the queued flags take, with their values.
pub open spec fn queue_span(settings: Seq<ConfigSetting>, q: Seq<(usize, usize)>) -> int
    decreases q.len(),
{
    if q.len() == 0 {
        0
    } else {
        queue_span(settings, q.drop_last()) + 1 + settings[q.last().0 as int].strs@.len()
    }
}

/// Every queued flag is followed by all of its values.
pub open spec fn values_present(settings: Seq<ConfigSetting>, args: Seq<Seq<char>>, q: Seq<(usize, usize)>) -> bool {
    forall|i: int|
        0 <= i < q.len() ==> #[trigger] q[i].1 + 1 + settings[q[i].0 as int].strs@.len() <= args.len()
}

/// The values that follow the flag of a queued entry.
pub open spec fn flag_values(settings: Seq<ConfigSetting>, args: Seq<Seq<char>>, e: (usize, usize)) -> Seq<Seq<char>> {
    args.subrange(e.1 + 1, e.1 + 1 + settings[e.0 as int].strs@.len())
}

/// What a setting delivers for its values, as plain values; none where a subset is malformed.
pub open spec fn applied(call: ConfigSettingCall, vals: Seq<Seq<char>>) -> Option<(nat, Seq<usize>, Seq<Seq<char>>)> {
    match call {
        ConfigSettingCall::Only => if vals.len() > 0 && subset_values(vals[0]) is Some {
            Some((1nat, subset_values(vals[0])->0, seq![]))
        } else {
            None
        },
        ConfigSettingCall::Dest | ConfigSettingCall::Edit | ConfigSettingCall::Push => Some((2nat, seq![], vals)),
        _ => Some((0nat, seq![], seq![])),
    }
}

/// Every queued setting delivers a value.
pub open spec fn all_applied(settings: Seq<ConfigSetting>, args: Seq<Seq<char>>, q: Seq<(usize, usize)>) -> bool {
    forall|i: int|
        0 <= i < q.len() ==> (#[trigger] applied(
            settings[q[i].0 as int].call,
            flag_values(settings, args, q[i]),
        )) is Some
}

/// The entries that the queued settings deliver, in order.
pub open spec fn queued_entries(
    settings: Seq<ConfigSetting>,
    args: Seq<Seq<char>>,
    q: Seq<(usize, usize)>,
) -> Seq<(Seq<char>, (nat, Seq<usize>, Seq<Seq<char>>))> {
    q.map_values(
        |e: (usize, usize)|
            (settings[e.0 as int].word@, applied(settings[e.0 as int].call, flag_values(settings, args, e))->0),
    )
}

/// The entries that the arguments left after the flags deliver.
pub open spec fn handler_entries(h: ArgHandler, rest: Seq<Seq<char>>) -> Seq<(Seq<char>, (nat, Seq<usize>, Seq<Seq<char>>))> {
    match h {
        ArgHandler::Cli => if rest.len() > 0 {
            seq![("path_src"@, (2nat, Seq::<usize>::empty(), seq![rest[0]]))]
        } else {
            seq![]
        },
        ArgHandler::Src => seq![],
    }
}

/// The receipts for the arguments left after the flags on the command line: the first, if any,
/// is the source path.
pub fn args_remaining_cli_apply(args_remaining: &Vec<String>) -> (r: ConfigReceipts)
    ensures
        forall|k: Seq<char>|
            #[trigger] lookup_model(r, k) == model_lookup(handler_entries(ArgHandler::Cli, args_remaining.deep_view()), k),
{
    let mut r = ConfigReceipts::new();
    if args_remaining.len() > 0 {
        let strs = vec![args_remaining[0].clone()];
        assert(strs.deep_view() =~= seq![args_remaining.deep_view()[0]]);
        r.insert(String::from_str("path_src"), ConfigReceiptVal::Strs(strs));
        let ghost e = handler_entries(ArgHandler::Cli, args_remaining.deep_view());
        assert(e.drop_last() =~= Seq::empty());
        assert forall|k: Seq<char>| #[trigger] lookup_model(r, k) == model_lookup(e, k) by {
            if k != "path_src"@ {
                assert(model_lookup(e, k) == model_lookup(e.drop_last(), k));
            }
        }
    }
    r
}

/// The receipts for the arguments left after the flags in the source preface: none.
pub fn args_remaining_src_apply(args_remaining: &Vec<String>) -> (r: ConfigReceipts)
    ensures
        forall|k: Seq<char>|
            #[trigger] lookup_model(r, k) == model_lookup(handler_entries(ArgHandler::Src, args_remaining.deep_view()), k),
{
    ConfigReceipts::new()
}

/// Queue entries name settings that exist.
pub proof fn lemma_queue_bounds(settings: Seq<ConfigSetting>, args: Seq<Seq<char>>, upto: int)
    requires
        upto <= settings.len(),
    ensures
        forall|i: int|
            0 <= i < flag_queue(settings, args, upto).len() ==> (#[trigger] flag_queue(settings, args, upto)[i]).0
                < upto,
    decreases upto,
{
    if upto > 0 {
        lemma_queue_bounds(settings, args, upto - 1);
        let a = flag_queue(settings, args, upto - 1);
        let b = flag_positions(settings[upto - 1], args, args.len() as int).map_values(
            |j: usize| ((upto - 1) as usize, j),
        );
        assert forall|i: int| 0 <= i < (a + b).len() implies (#[trigger] (a + b)[i]).0 < upto by {
            if i >= a.len() {
                assert((a + b)[i] == b[i - a.len()]);
            }
        }
    }
}

/// The flags found among `args`, by setting, then by position.
fn flags_find(settings: &Vec<ConfigSetting>, args: &Vec<String>) -> (q: Vec<(usize, usize)>)
    ensures
        q@ == flag_queue(settings@, args.deep_view(), settings@.len() as int),
{
    let ghost av = args.deep_view();
    let mut q: Vec<(usize, usize)> = Vec::new();
    let mut i: usize = 0;
    while i < settings.len()
        invariant
            i <= settings@.len(),
            av == args.deep_view(),
            q@ == flag_queue(settings@, av, i as int),
        decreases settings@.len() - i,
    {
        let mut long = String::from_str("--");
        long.append(settings[i].word.as_str());
        let mut short = String::from_str("-");
        short.append(settings[i].char.as_str());
        let ghost base = q@;
        let ghost s = settings@[i as int];
        let mut j: usize = 0;
        while j < args.len()
            invariant
                j <= args@.len(),
                av == args.deep_view(),
                long@ == "--"@ + s.word@,
                short@ == "-"@ + s.char@,
                q@ == base + flag_positions(s, av, j as int).map_values(|p: usize| (i, p)),
            decreases args@.len() - j,
        {
            let ghost prev = flag_positions(s, av, j as int);
            if args[j] == long || args[j] == short {
                q.push((i, j));
                assert(flag_positions(s, av, j + 1) == prev.push(j));
                assert(prev.push(j).map_values(|p: usize| (i, p)) =~= prev.map_values(|p: usize| (i, p)).push((i, j)));
            } else {
                assert(flag_positions(s, av, j + 1) == prev);
            }
            j = j + 1;
        }
        assert(flag_positions(s, av, av.len() as int).map_values(|p: usize| (i, p)) =~= flag_positions(
            settings@[i as int],
            av,
            av.len() as int,
        ).map_values(|p: usize| ((i + 1 - 1) as usize, p)));
        i = i + 1;
    }
    q
}

/// The values under each key once `entries` are set over `base`.
pub open spec fn receipts_over(
    entries: Seq<(Seq<char>, (nat, Seq<usize>, Seq<Seq<char>>))>,
    base: ConfigReceipts,
    k: Seq<char>,
) -> Option<(nat, Seq<usize>, Seq<Seq<char>>)> {
    match model_lookup(entries, k) {
        Some(m) => Some(m),
        None => lookup_model(base, k),
    }
}

/// The flags found among `args` for the settings of `config`.
pub open spec fn arg_queue(config: Config, args: Vec<String>) -> Seq<(usize, usize)> {
    flag_queue(config.settings@, args.deep_view(), config.settings@.len() as int)
}

/// The entries that a round of arguments delivers: those of the arguments past the flags,
/// then those of the flags.
pub open spec fn arg_entries(config: Config, h: ArgHandler, args: Vec<String>) -> Seq<(Seq<char>, (nat, Seq<usize>, Seq<Seq<char>>))> {
    let q = arg_queue(config, args);
    handler_entries(h, args.deep_view().skip(queue_span(config.settings@, q)))
        + queued_entries(config.settings@, args.deep_view(), q)
}

impl Config {
    /// Takes a round of arguments: each flag of a setting with the values after it, setting by
    /// setting; then the arguments past all flags and values; then what each flag delivers,
    /// in the same order. The flags are taken to come first.
    pub fn receive(config: Config, handle_remaining: ArgHandler, args: Vec<String>) -> (r: Result<Config, ConfigError>)
        ensures
            (r matches Err(ConfigError::ValuesMissing(_))) <==> !values_present(
                config.settings@,
                args.deep_view(),
                arg_queue(config, args),
            ),
            (r matches Err(ConfigError::ArgsOverlap)) <==> values_present(
                config.settings@,
                args.deep_view(),
                arg_queue(config, args),
            ) && queue_span(config.settings@, arg_queue(config, args)) > args@.len(),
            (r matches Err(ConfigError::SubsetInvalid(_))) <==> values_present(
                config.settings@,
                args.deep_view(),
                arg_queue(config, args),
            ) && queue_span(config.settings@, arg_queue(config, args)) <= args@.len() && !all_applied(
                config.settings@,
                args.deep_view(),
                arg_queue(config, args),
            ),
            r matches Ok(c) ==> c.defaults == config.defaults && c.settings == config.settings
                && c.messages == config.messages,
            r matches Ok(c) ==> forall|k: Seq<char>|
                #[trigger] lookup_model(c.receipts, k) == receipts_over(
                    arg_entries(config, handle_remaining, args),
                    config.receipts,
                    k,
                ),
    {
        let ghost av = args.deep_view();
        let ghost st = config.settings@;
        let q = flags_find(&config.settings, &args);
        proof {
            lemma_queue_bounds(st, av, st.len() as int);
        }
        let n = args.len();
        let mut span: usize = 0;
        let mut over = false;
        let mut i: usize = 0;
        while i < q.len()
            invariant
                i <= q@.len(),
                n == av.len(),
                av == args.deep_view(),
                st == config.settings@,
                q@ == flag_queue(st, av, st.len() as int),
                forall|m: int| 0 <= m < q@.len() ==> (#[trigger] q@[m]).0 < st.len(),
                values_present(st, av, q@.take(i as int)),
                over == (queue_span(st, q@.take(i as int)) > n),
                !over ==> span == queue_span(st, q@.take(i as int)),
            decreases q@.len() - i,
        {
            let (si, j) = q[i];
            let need = config.settings[si].strs.len();
            assert(q@.take(i + 1).drop_last() =~= q@.take(i as int));
            if j >= n || need > n - j - 1 {
                assert(!(q@[i as int].1 + 1 + st[q@[i as int].0 as int].strs@.len() <= av.len()));
                return Err(ConfigError::ValuesMissing(config.settings[si].word.clone()));
            }
            assert forall|m: int| 0 <= m < i + 1 implies #[trigger] q@.take(i + 1)[m].1 + 1
                + st[q@.take(i + 1)[m].0 as int].strs@.len() <= av.len() by {
                if m < i {
                    assert(q@.take(i + 1)[m] == q@.take(i as int)[m]);
                }
            }
            proof {
                lemma_span_nonneg(st, q@.take(i as int));
            }
            if !over {
                if span > n - need - 1 {
                    over = true;
                } else {
                    span = span + 1 + need;
                }
            }
            i = i + 1;
        }
        assert(q@.take(q@.len() as int) =~= q@);
        proof {
            lemma_span_nonneg(st, q@);
        }
        if over {
            return Err(ConfigError::ArgsOverlap);
        }
        let rest = strings_range(&args, span, n);
        assert(av.subrange(span as int, n as int) =~= av.skip(span as int));
        let mut cfg = config;
        let ghost base = cfg.receipts;
        let ghost he = handler_entries(handle_remaining, av.skip(span as int));
        let ghost qe = queued_entries(st, av, q@);
        let more = match handle_remaining {
            ArgHandler::Cli => args_remaining_cli_apply(&rest),
            ArgHandler::Src => args_remaining_src_apply(&rest),
        };
        let ghost more_view = more;
        cfg.receipts.extend(more);
        assert(he + qe.take(0) =~= he);
        assert forall|k: Seq<char>|
            #[trigger] lookup_model(cfg.receipts, k) == receipts_over(he + qe.take(0), base, k) by {
            assert(lookup_model(more_view, k) == model_lookup(he, k));
        }
        let mut i: usize = 0;
        while i < q.len()
            invariant
                i <= q@.len(),
                n == av.len(),
                av == args.deep_view(),
                st == cfg.settings@,
                st == config.settings@,
                cfg.defaults == config.defaults,
                cfg.settings == config.settings,
                cfg.messages == config.messages,
                base == config.receipts,
                av == args.deep_view(),
                q@ == flag_queue(st, av, st.len() as int),
                forall|m: int| 0 <= m < q@.len() ==> (#[trigger] q@[m]).0 < st.len(),
                values_present(st, av, q@),
                queue_span(st, q@) <= n,
                qe == queued_entries(st, av, q@),
                all_applied(st, av, q@.take(i as int)),
                forall|k: Seq<char>|
                    #[trigger] lookup_model(cfg.receipts, k) == receipts_over(he + qe.take(i as int), base, k),
            decreases q@.len() - i,
        {
            let (si, j) = q[i];
            let need = cfg.settings[si].strs.len();
            assert(q@[i as int].1 + 1 + st[q@[i as int].0 as int].strs@.len() <= av.len());
            let vals = strings_range(&args, j + 1, j + 1 + need);
            let ghost fv = flag_values(st, av, q@[i as int]);
            assert(vals.deep_view() == fv);
            let value = match cfg.settings[si].call {
                ConfigSettingCall::Only => {
                    if vals.len() == 0 {
                        assert(applied(st[q@[i as int].0 as int].call, flag_values(st, av, q@[i as int])) is None);
                        return Err(ConfigError::SubsetInvalid(String::new()));
                    }
                    match setting_only_apply(&vals) {
                        Some(v) => v,
                        None => {
                            assert(applied(st[q@[i as int].0 as int].call, flag_values(st, av, q@[i as int])) is None);
                            return Err(ConfigError::SubsetInvalid(vals[0].clone()));
                        },
                    }
                },
                ConfigSettingCall::Dest | ConfigSettingCall::Edit | ConfigSettingCall::Push => ConfigReceiptVal::Strs(vals),
                _ => ConfigReceiptVal::Bool,
            };
            assert(applied(st[si as int].call, fv) == Some(val_model(value)));
            let word = cfg.settings[si].word.clone();
            let ghost entries_before = he + qe.take(i as int);
            assert(he + qe.take(i + 1) =~= entries_before.push((word@, val_model(value))));
            let ghost m = val_model(value);
            let ghost w = word@;
            let ghost rc_before = cfg.receipts;
            cfg.receipts.insert(word, value);
            assert(entries_before.push((w, m)).drop_last() =~= entries_before);
            assert forall|k: Seq<char>|
                #[trigger] lookup_model(cfg.receipts, k) == receipts_over(he + qe.take(i + 1), base, k) by {
                assert(lookup_model(rc_before, k) == receipts_over(entries_before, base, k));
                if k != w {
                    assert(model_lookup(entries_before.push((w, m)), k) == model_lookup(entries_before, k));
                }
            }
            assert forall|m: int| 0 <= m < i + 1 implies (#[trigger] applied(
                st[q@.take(i + 1)[m].0 as int].call,
                flag_values(st, av, q@.take(i + 1)[m]),
            )) is Some by {
                if m < i {
                    assert(q@.take(i + 1)[m] == q@.take(i as int)[m]);
                }
            }
            i = i + 1;
        }
        assert(q@.take(q@.len() as int) =~= q@);
        assert(qe.take(qe.len() as int) =~= qe);
        Ok(cfg)
    }
}

/// A span is never negative.
proof fn lemma_span_nonneg(settings: Seq<ConfigSetting>, q: Seq<(usize, usize)>)
    ensures
        queue_span(settings, q) >= 0,
    decreases q.len(),
{
    if q.len() > 0 {
        lemma_span_nonneg(settings, q.drop_last());
    }
}

} // verus!
