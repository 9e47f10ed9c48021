//! The built-in defaults, the usage notes and the table of settings.
use vstd::prelude::*;
use vstd::string::*;
use crate::config::{
    message_lookup, slot_mark, ConfigDefaults, ConfigMessages, ConfigReceiptVal, ConfigSetting, ConfigSettingCall,
    str_views,
};
use crate::text::{
    chars_of, is_numeral, numeral_value, parse_numeral, replace_all, replace_exec, split,
    split_chars, string_of, sub_chars, trim, trim_bounds,
};

verus! {

impl ConfigDefaults {
    /// The built-in defaults.
    pub fn new() -> (r: ConfigDefaults)
        ensures
            r.path_src@ == "src.txt"@,
            r.path_dir@ == "scripts"@,
            r.path_tmp_dir@ == ".aliesce_tmp"@,
            r.tag_head@ == "###"@,
            r.tag_tail@ == "#"@,
            r.sig_stop@ == "!"@,
            r.plc_path_dir@ == ">"@,
            r.plc_path_all@ == ">{}<"@,
            r.cmd_prog@ == "bash"@,
            r.cmd_flag@ == "-c"@,
            r.wf(),
    {
        let r = ConfigDefaults {
            path_src: String::from_str("src.txt"),
            path_dir: String::from_str("scripts"),
            path_tmp_dir: String::from_str(".aliesce_tmp"),
            tag_head: String::from_str("###"),
            tag_tail: String::from_str("#"),
            sig_stop: String::from_str("!"),
            plc_path_dir: String::from_str(">"),
            plc_path_all: String::from_str(">{}<"),
            cmd_prog: String::from_str("bash"),
            cmd_flag: String::from_str("-c"),
        };
        proof {
            reveal_strlit(">{}<");
            let p = r.plc_path_all@;
            assert(p =~= seq!['>', '{', '}', '<']);
            lemma_slot_at(p);
            assert(r.plc_head() =~= seq!['>']);
            assert(p.skip(3) =~= seq!['<']);
            lemma_no_slot(seq!['<']);
        }
        r
    }
}

/// The number slot stands at position 1 of `>{}<`.
proof fn lemma_slot_at(p: Seq<char>)
    requires
        p == seq!['>', '{', '}', '<'],
    ensures
        crate::text::find(p, slot_mark()) == Some(1int),
{
    assert(p.subrange(0, 2)[0] == '>');
    assert(!crate::text::occurs_at(p, slot_mark(), 0));
    assert(p.subrange(1, 3) =~= slot_mark());
    assert(crate::text::find_from(p, slot_mark(), 1) == Some(1int));
}

/// A single character holds no number slot.
proof fn lemma_no_slot(p: Seq<char>)
    requires
        p.len() == 1,
    ensures
        crate::text::find(p, slot_mark()) is None,
{
}

/// The note on the source file and its tag lines.
pub open spec fn note_file(d: ConfigDefaults) -> Seq<char> {
    "The default source path is '"@ + d.path_src@
        + "'. Each script in the file is preceded by a tag line begun with the tag head ('"@
        + d.tag_head@ + "') and an optional label and tail ('"@ + d.tag_tail@ + "'):"@
}

/// The note giving the shape of a tag line.
pub open spec fn note_line(d: ConfigDefaults) -> Seq<char> {
    d.tag_head@ + "[ label "@ + d.tag_tail@
        + "] <OUTPUT EXTENSION / PATH: [[[.../]dirname/]stem.]ext> <COMMAND>"@
}

/// The note on saving and running.
pub open spec fn note_main(d: ConfigDefaults) -> Seq<char> {
    "Each script is saved with the default output directory ('"@ + d.path_dir@
        + "'), source file stem and OUTPUT EXTENSION, or a PATH overriding stem and/or directory, then the COMMAND is run with the save path appended. The '"@
        + replace_all(d.plc_path_all@, slot_mark(), seq![])
        + "' placeholder can be used in the COMMAND to override path position and have the COMMAND passed to '"@
        + d.cmd_prog@ + " "@ + d.cmd_flag@ + "'; where a script no. is included ('"@
        + replace_all(d.plc_path_all@, slot_mark(), seq!['n'])
        + "') the save path of that script is applied."@
}

/// The note on the stop signal and the directory placeholder.
pub open spec fn note_plus(d: ConfigDefaults) -> Seq<char> {
    "The '"@ + d.sig_stop@
        + "' signal can be used before the EXTENSION etc. to avoid both the save and run stages, or before the COMMAND to avoid run only. The '"@
        + d.plc_path_dir@
        + "' placeholder can be used in a full PATH to denote the default or overridden output directory name."@
}

/// The note on appending scripts through standard input.
pub open spec fn note_pipe(d: ConfigDefaults) -> Seq<char> {
    "One or more file paths can be piped to aliesce to append the content at each to the source as a script, auto-preceded by a tag line with a base '"@
        + d.sig_stop@ + "', then exit."@
}

/// The usage notes, built from the defaults: `file`, `line`, `main`, `plus` and `pipe`, in that order.
pub fn messages_new(defaults: &ConfigDefaults) -> (r: ConfigMessages)
    ensures
        r.keys_notes.deep_view() == seq!["file"@, "line"@, "main"@, "plus"@, "pipe"@],
        r.repository.len() == 5,
        r.repository@[0].0@ == "file"@ && r.repository@[0].1@ == note_file(*defaults),
        r.repository@[1].0@ == "line"@ && r.repository@[1].1@ == note_line(*defaults),
        r.repository@[2].0@ == "main"@ && r.repository@[2].1@ == note_main(*defaults),
        r.repository@[3].0@ == "plus"@ && r.repository@[3].1@ == note_plus(*defaults),
        r.repository@[4].0@ == "pipe"@ && r.repository@[4].1@ == note_pipe(*defaults),
{
    let d = defaults;
    let mut file = String::from_str("The default source path is '");
    file.append(d.path_src.as_str());
    file.append("'. Each script in the file is preceded by a tag line begun with the tag head ('");
    file.append(d.tag_head.as_str());
    file.append("') and an optional label and tail ('");
    file.append(d.tag_tail.as_str());
    file.append("'):");
    assert(file@ =~= note_file(*d));

    let mut line = d.tag_head.clone();
    line.append("[ label ");
    line.append(d.tag_tail.as_str());
    line.append("] <OUTPUT EXTENSION / PATH: [[[.../]dirname/]stem.]ext> <COMMAND>");
    assert(line@ =~= note_line(*d));

    let plc = chars_of(d.plc_path_all.as_str());
    let slot = vec!['{', '}'];
    assert(slot@ =~= slot_mark());
    let none: Vec<char> = Vec::new();
    let bare = replace_exec(&plc, &slot, &none);
    assert(none@ =~= Seq::<char>::empty());
    let en = vec!['n'];
    assert(en@ =~= seq!['n']);
    let numbered = replace_exec(&plc, &slot, &en);
    let mut main = String::from_str("Each script is saved with the default output directory ('");
    main.append(d.path_dir.as_str());
    main.append("'), source file stem and OUTPUT EXTENSION, or a PATH overriding stem and/or directory, then the COMMAND is run with the save path appended. The '");
    main.append(string_of(&bare, 0, bare.len()).as_str());
    main.append("' placeholder can be used in the COMMAND to override path position and have the COMMAND passed to '");
    main.append(d.cmd_prog.as_str());
    main.append(" ");
    main.append(d.cmd_flag.as_str());
    main.append("'; where a script no. is included ('");
    main.append(string_of(&numbered, 0, numbered.len()).as_str());
    main.append("') the save path of that script is applied.");
    assert(bare@.subrange(0, bare@.len() as int) =~= bare@);
    assert(numbered@.subrange(0, numbered@.len() as int) =~= numbered@);
    assert(main@ =~= note_main(*d));

    let mut plus = String::from_str("The '");
    plus.append(d.sig_stop.as_str());
    plus.append("' signal can be used before the EXTENSION etc. to avoid both the save and run stages, or before the COMMAND to avoid run only. The '");
    plus.append(d.plc_path_dir.as_str());
    plus.append("' placeholder can be used in a full PATH to denote the default or overridden output directory name.");
    assert(plus@ =~= note_plus(*d));

    let mut pipe = String::from_str("One or more file paths can be piped to aliesce to append the content at each to the source as a script, auto-preceded by a tag line with a base '");
    pipe.append(d.sig_stop.as_str());
    pipe.append("', then exit.");
    assert(pipe@ =~= note_pipe(*d));

    let repository = vec![
        (String::from_str("file"), file),
        (String::from_str("line"), line),
        (String::from_str("main"), main),
        (String::from_str("plus"), plus),
        (String::from_str("pipe"), pipe),
    ];
    let keys_notes = vec![
        String::from_str("file"),
        String::from_str("line"),
        String::from_str("main"),
        String::from_str("plus"),
        String::from_str("pipe"),
    ];
    assert(keys_notes.deep_view() =~= seq!["file"@, "line"@, "main"@, "plus"@, "pipe"@]);
    ConfigMessages { repository, keys_notes }
}

/// `s` is the setting with these parts.
pub open spec fn setting_is(
    s: ConfigSetting,
    word: Seq<char>,
    char: Seq<char>,
    strs: Seq<Seq<char>>,
    desc: Seq<char>,
    call: ConfigSettingCall,
) -> bool {
    &&& s.word@ == word
    &&& s.char@ == char
    &&& s.strs.deep_view() == strs
    &&& s.desc@ == desc
    &&& s.call == call
}

/// The description of the `list` setting.
pub open spec fn desc_list(d: ConfigDefaults) -> Seq<char> {
    "print for each script in SOURCE (def. '"@ + d.path_src@
        + "') its number and tag line content, without saving or running"@
}

/// The description of the `dest` setting.
pub open spec fn desc_dest(d: ConfigDefaults) -> Seq<char> {
    "set the default output dirname ('"@ + d.path_dir@ + "') to DIRNAME"@
}

/// The description of the `init` setting.
pub open spec fn desc_init(d: ConfigDefaults) -> Seq<char> {
    "create the source file SOURCE (def. '"@ + d.path_src@ + "') then exit"@
}

/// The description of the `push` setting.
pub open spec fn desc_push(d: ConfigDefaults) -> Seq<char> {
    "append to SOURCE (def. '"@ + d.path_src@
        + "') LINE, adding the tag head if none, followed by the content at PATH then exit"@
}

/// The settings, in the order that usage shows them.
pub fn settings_new(defaults: &ConfigDefaults) -> (r: Vec<ConfigSetting>)
    ensures
        r@.len() == 8,
        setting_is(r@[0], "list"@, "l"@, seq![], desc_list(*defaults), ConfigSettingCall::List),
        setting_is(
            r@[1],
            "only"@,
            "o"@,
            seq!["SUBSET"@],
            "include only the scripts the numbers of which appear in SUBSET, comma-separated and/or as ranges, e.g. -o 1,3-5"@,
            ConfigSettingCall::Only,
        ),
        setting_is(r@[2], "dest"@, "d"@, seq!["DIRNAME"@], desc_dest(*defaults), ConfigSettingCall::Dest),
        setting_is(r@[3], "init"@, "i"@, seq![], desc_init(*defaults), ConfigSettingCall::Init),
        setting_is(r@[4], "push"@, "p"@, seq!["LINE"@, "PATH"@], desc_push(*defaults), ConfigSettingCall::Push),
        setting_is(
            r@[5],
            "edit"@,
            "e"@,
            seq!["N"@, "LINE"@],
            "update the tag line for script number N to LINE, adding the tag head if none, then exit"@,
            ConfigSettingCall::Edit,
        ),
        setting_is(
            r@[6],
            "version"@,
            "v"@,
            seq![],
            "show name and version number then exit"@,
            ConfigSettingCall::Version,
        ),
        setting_is(
            r@[7],
            "help"@,
            "h"@,
            seq![],
            "show usage, flags available and notes then exit"@,
            ConfigSettingCall::Help,
        ),
{
    let d = defaults;
    let none: [&str; 0] = [];
    let subset: [&str; 1] = ["SUBSET"];
    let dirname: [&str; 1] = ["DIRNAME"];
    let line_path: [&str; 2] = ["LINE", "PATH"];
    let n_line: [&str; 2] = ["N", "LINE"];
    assert(str_views(none@) =~= seq![]);
    assert(str_views(subset@) =~= seq!["SUBSET"@]);
    assert(str_views(dirname@) =~= seq!["DIRNAME"@]);
    assert(str_views(line_path@) =~= seq!["LINE"@, "PATH"@]);
    assert(str_views(n_line@) =~= seq!["N"@, "LINE"@]);

    let mut list_desc = String::from_str("print for each script in SOURCE (def. '");
    list_desc.append(d.path_src.as_str());
    list_desc.append("') its number and tag line content, without saving or running");
    assert(list_desc@ =~= desc_list(*d));
    let mut dest_desc = String::from_str("set the default output dirname ('");
    dest_desc.append(d.path_dir.as_str());
    dest_desc.append("') to DIRNAME");
    assert(dest_desc@ =~= desc_dest(*d));
    let mut init_desc = String::from_str("create the source file SOURCE (def. '");
    init_desc.append(d.path_src.as_str());
    init_desc.append("') then exit");
    assert(init_desc@ =~= desc_init(*d));
    let mut push_desc = String::from_str("append to SOURCE (def. '");
    push_desc.append(d.path_src.as_str());
    push_desc.append("') LINE, adding the tag head if none, followed by the content at PATH then exit");
    assert(push_desc@ =~= desc_push(*d));

    let mut r: Vec<ConfigSetting> = Vec::new();
    r.push(ConfigSetting::new("list", "l", &none, list_desc.as_str(), ConfigSettingCall::List));
    r.push(ConfigSetting::new(
        "only",
        "o",
        &subset,
        "include only the scripts the numbers of which appear in SUBSET, comma-separated and/or as ranges, e.g. -o 1,3-5",
        ConfigSettingCall::Only,
    ));
    r.push(ConfigSetting::new("dest", "d", &dirname, dest_desc.as_str(), ConfigSettingCall::Dest));
    r.push(ConfigSetting::new("init", "i", &none, init_desc.as_str(), ConfigSettingCall::Init));
    r.push(ConfigSetting::new("push", "p", &line_path, push_desc.as_str(), ConfigSettingCall::Push));
    r.push(ConfigSetting::new(
        "edit",
        "e",
        &n_line,
        "update the tag line for script number N to LINE, adding the tag head if none, then exit",
        ConfigSettingCall::Edit,
    ));
    r.push(ConfigSetting::new_version());
    r.push(ConfigSetting::new_help());
    proof {
        assert(r@[6].strs.deep_view() =~= seq![]);
        assert(r@[7].strs.deep_view() =~= seq![]);
    }
    r
}

/// The numbers from `lo` to `hi`, both included.
pub open spec fn range_values(lo: nat, hi: nat) -> Seq<usize> {
    Seq::new(if hi >= lo { (hi - lo + 1) as nat } else { 0 }, |i: int| (lo + i) as usize)
}

/// Whether each of `items` is a numeral that fits in `usize`.
pub open spec fn all_numerals(items: Seq<Seq<char>>) -> bool {
    forall|i: int|
        0 <= i < items.len() ==> is_numeral(#[trigger] items[i]) && numeral_value(items[i]) <= usize::MAX
}

/// The numbers of one comma-separated piece of a subset: a number, or a range `a-b`
/// (what follows a second `-` is checked but unused).
pub open spec fn piece_values(piece: Seq<char>) -> Option<Seq<usize>> {
    let items = split(trim(piece), '-');
    if all_numerals(items) {
        if items.len() > 1 {
            if numeral_value(items[1]) < usize::MAX {
                Some(range_values(numeral_value(items[0]), numeral_value(items[1])))
            } else {
                None
            }
        } else {
            Some(seq![numeral_value(items[0]) as usize])
        }
    } else {
        None
    }
}

/// The numbers of the pieces, in order, where each piece is well formed.
pub open spec fn pieces_values(pieces: Seq<Seq<char>>) -> Option<Seq<usize>>
    decreases pieces.len(),
{
    if pieces.len() == 0 {
        Some(seq![])
    } else {
        match (pieces_values(pieces.drop_last()), piece_values(pieces.last())) {
            (Some(a), Some(b)) => Some(a + b),
            _ => None,
        }
    }
}

/// The numbers of a subset such as `1,3-5`.
pub open spec fn subset_values(s: Seq<char>) -> Option<Seq<usize>> {
    pieces_values(split(trim(s), ','))
}

fn piece_parse(piece: &Vec<char>) -> (r: Option<Vec<usize>>)
    ensures
        r matches Some(v) ==> piece_values(piece@) == Some(v@),
        r is None ==> piece_values(piece@) is None,
{
    let (a, b) = trim_bounds(piece);
    let t = sub_chars(piece, a, b);
    let items = split_chars(&t, '-');
    let ghost iv = items.deep_view();
    let mut vals: Vec<usize> = Vec::new();
    let mut i: usize = 0;
    while i < items.len()
        invariant
            i <= items@.len(),
            iv == items.deep_view(),
            iv == split(trim(piece@), '-'),
            vals@.len() == i,
            all_numerals(iv.take(i as int)),
            forall|j: int| 0 <= j < i ==> vals@[j] == numeral_value(#[trigger] iv[j]),
        decreases items@.len() - i,
    {
        assert(items[i as int].deep_view() =~= items[i as int]@);
        assert(items[i as int]@.subrange(0, items[i as int]@.len() as int) =~= items[i as int]@);
        match parse_numeral(&items[i], 0, items[i].len()) {
            Some(v) => {
                vals.push(v);
                assert forall|j: int| 0 <= j < i + 1 implies is_numeral(#[trigger] iv.take(i + 1)[j])
                    && numeral_value(iv.take(i + 1)[j]) <= usize::MAX by {
                    if j < i {
                        assert(iv.take(i + 1)[j] == iv.take(i as int)[j]);
                    }
                }
            },
            None => {
                assert(!(is_numeral(iv[i as int]) && numeral_value(iv[i as int]) <= usize::MAX));
                return None;
            },
        }
        i = i + 1;
    }
    assert(iv.take(iv.len() as int) =~= iv);
    if vals.len() > 1 {
        let lo = vals[0];
        let hi = vals[1];
        if hi == usize::MAX {
            return None;
        }
        let mut out: Vec<usize> = Vec::new();
        let mut k: usize = lo;
        while k <= hi
            invariant
                lo <= k || (lo > hi),
                k >= lo,
                hi < usize::MAX,
                k <= hi + 1 || lo > hi,
                lo > hi ==> k == lo,
                out@ =~= Seq::new((k - lo) as nat, |j: int| (lo + j) as usize),
            decreases hi + 1 - k,
        {
            let ghost before = out@;
            out.push(k);
            assert(out@ =~= Seq::new((k + 1 - lo) as nat, |j: int| (lo + j) as usize));
            k = k + 1;
        }
        assert(lo <= hi ==> k == hi + 1);
        assert(out@.len() == range_values(lo as nat, hi as nat).len());
        assert(out@ =~= range_values(lo as nat, hi as nat));
        Some(out)
    } else {
        let mut out: Vec<usize> = Vec::new();
        out.push(vals[0]);
        assert(out@ =~= seq![numeral_value(iv[0]) as usize]);
        Some(out)
    }
}

/// The numbers of the subset `strs[0]`, such as `1,3-5`; none where it is malformed.
pub fn setting_only_apply(strs: &Vec<String>) -> (r: Option<ConfigReceiptVal>)
    requires
        strs@.len() >= 1,
    ensures
        r is Some <==> subset_values(strs@[0]@) is Some,
        r matches Some(v) ==> (v matches ConfigReceiptVal::Ints(ns) && ns@ == subset_values(strs@[0]@)->0),
{
    let text = chars_of(strs[0].as_str());
    let (a, b) = trim_bounds(&text);
    let t = sub_chars(&text, a, b);
    let pieces = split_chars(&t, ',');
    let ghost pv = pieces.deep_view();
    let mut vals: Vec<usize> = Vec::new();
    let mut i: usize = 0;
    while i < pieces.len()
        invariant
            i <= pieces@.len(),
            pv == pieces.deep_view(),
            pv == split(trim(strs@[0]@), ','),
            pieces_values(pv.take(i as int)) == Some(vals@),
        decreases pieces@.len() - i,
    {
        assert(pv.take(i + 1).drop_last() =~= pv.take(i as int));
        assert(pieces[i as int].deep_view() =~= pieces[i as int]@);
        match piece_parse(&pieces[i]) {
            Some(more) => {
                let mut more = more;
                vals.append(&mut more);
            },
            None => {
                proof {
                    lemma_pieces_none(pv, i as int);
                }
                return None;
            },
        }
        i = i + 1;
    }
    assert(pv.take(pv.len() as int) =~= pv);
    Some(ConfigReceiptVal::Ints(vals))
}

/// One malformed piece makes the whole subset malformed.
proof fn lemma_pieces_none(pieces: Seq<Seq<char>>, i: int)
    requires
        0 <= i < pieces.len(),
        piece_values(pieces[i]) is None,
    ensures
        pieces_values(pieces) is None,
    decreases pieces.len(),
{
    if i < pieces.len() - 1 {
        lemma_pieces_none(pieces.drop_last(), i);
    }
}

/// The template of a new source file, laid out around the notes `file`, `main`, `plus`,
/// `pipe` and `line`.
pub open spec fn template_of(file: Seq<char>, main: Seq<char>, plus: Seq<char>, pipe: Seq<char>, line: Seq<char>) -> Seq<char> {
    "<any arguments to aliesce (run 'aliesce --help' for options)>\n\nNotes on source file format:\n\n"@ + file
        + "\n\n"@ + main + "\n\n"@ + plus + "\n\nAppending scripts via stdin:\n\n"@ + pipe
        + "\n\nTag line and script section:\n\n"@ + line + "\n\n<script>\n"@
}

/// The template of a new source file, where every note it lays out has a message.
pub fn init_template(messages: &ConfigMessages) -> (r: Option<String>)
    ensures
        r is Some <==> {
            &&& message_lookup(messages.repository@, "file"@) is Some
            &&& message_lookup(messages.repository@, "main"@) is Some
            &&& message_lookup(messages.repository@, "plus"@) is Some
            &&& message_lookup(messages.repository@, "pipe"@) is Some
            &&& message_lookup(messages.repository@, "line"@) is Some
        },
        r matches Some(t) ==> t@ == template_of(
            message_lookup(messages.repository@, "file"@)->0,
            message_lookup(messages.repository@, "main"@)->0,
            message_lookup(messages.repository@, "plus"@)->0,
            message_lookup(messages.repository@, "pipe"@)->0,
            message_lookup(messages.repository@, "line"@)->0,
        ),
{
    let file = messages.get("file");
    let main = messages.get("main");
    let plus = messages.get("plus");
    let pipe = messages.get("pipe");
    let line = messages.get("line");
    match (file, main, plus, pipe, line) {
        (Some(file), Some(main), Some(plus), Some(pipe), Some(line)) => {
            let mut t = String::from_str(
                "<any arguments to aliesce (run 'aliesce --help' for options)>\n\nNotes on source file format:\n\n",
            );
            t.append(file.as_str());
            t.append("\n\n");
            t.append(main.as_str());
            t.append("\n\n");
            t.append(plus.as_str());
            t.append("\n\nAppending scripts via stdin:\n\n");
            t.append(pipe.as_str());
            t.append("\n\nTag line and script section:\n\n");
            t.append(line.as_str());
            t.append("\n\n<script>\n");
            Some(t)
        },
        _ => None,
    }
}

} // verus!
