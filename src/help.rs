//! Layout of the usage text: centred titles and word-wrapped, indented paragraphs.
use vstd::prelude::*;
use vstd::string::*;
use crate::config::{message_lookup, Config, ConfigMessages, ConfigSetting};
use crate::text::{
    join, join_chars, join_strings, split, split_chars, sub_chars,
};

verus! {

/// `s` repeated `k` times.
pub open spec fn repeat(s: Seq<char>, k: nat) -> Seq<char>
    decreases k,
{
    if k == 0 {
        seq![]
    } else {
        repeat(s, (k - 1) as nat) + s
    }
}

/// `s` repeated `k` times.
pub fn repeat_str(s: &str, k: usize) -> (r: String)
    ensures
        r@ == repeat(s@, k as nat),
{
    let mut r = String::new();
    let mut i: usize = 0;
    while i < k
        invariant
            i <= k,
            r@ == repeat(s@, i as nat),
        decreases k - i,
    {
        r.append(s);
        i = i + 1;
    }
    r
}

/// `line` centred in `length` characters: a space either side, then `fill` repeated on both
/// sides, and once more at the end where `line` has an odd length.
pub open spec fn centered(line: Seq<char>, length: nat, fill: Seq<char>) -> Seq<char> {
    let half = repeat(fill, ((length - line.len() - 2) / 2) as nat);
    half + " "@ + line + " "@ + half + (if line.len() % 2 == 0 {
        seq![]
    } else {
        fill
    })
}

/// `line` centred in `length` characters with `fill`.
pub fn line_center_with_fill(line: &str, length: usize, fill: &str) -> (r: String)
    requires
        line@.len() + 2 <= length,
    ensures
        r@ == centered(line@, length as nat, fill@),
{
    let n = line.unicode_len();
    let half = repeat_str(fill, (length - n - 2) / 2);
    let mut r = half.clone();
    r.append(" ");
    r.append(line);
    r.append(" ");
    r.append(half.as_str());
    if n % 2 != 0 {
        r.append(fill);
    }
    r
}

/// The words gathered into lines: a word opens a new line where the current line's length
/// and its own reach `width`, else joins the current line after a space.
pub open spec fn wrap(words: Seq<Seq<char>>, width: int) -> Seq<Seq<char>>
    decreases words.len(),
{
    if words.len() == 0 {
        seq![]
    } else {
        let acc = wrap(words.drop_last(), width);
        let w = words.last();
        if acc.len() == 0 {
            seq![w]
        } else if acc.last().len() + w.len() >= width {
            acc.push(w)
        } else {
            acc.update(acc.len() - 1, acc.last() + " "@ + w)
        }
    }
}

/// `line` wrapped to `length` less `indent` characters, each following line indented by
/// `indent` spaces, and the first too where `indent_first` holds.
pub open spec fn broken(line: Seq<char>, indent: nat, length: nat, indent_first: bool) -> Seq<char> {
    let part = repeat(" "@, indent);
    let body = join(wrap(split(line, ' '), length - indent), "\n"@ + part);
    if indent_first {
        part + body
    } else {
        body
    }
}

/// `line` wrapped to `length` characters with hanging indent `indent`.
pub fn line_break_and_indent(line: &str, indent: usize, length: usize, indent_first: bool) -> (r: String)
    requires
        indent <= length,
    ensures
        r@ == broken(line@, indent as nat, length as nat, indent_first),
{
    let part = repeat_str(" ", indent);
    let mut full = String::from_str("\n");
    full.append(part.as_str());
    let width = length - indent;
    let words = split_chars(&crate::text::chars_of(line), ' ');
    let ghost wv = words.deep_view();
    let mut acc: Vec<Vec<char>> = Vec::new();
    let mut i: usize = 0;
    while i < words.len()
        invariant
            i <= words@.len(),
            wv == words.deep_view(),
            acc.deep_view() == wrap(wv.take(i as int), width as int),
        decreases words@.len() - i,
    {
        assert(wv.take(i + 1).drop_last() =~= wv.take(i as int));
        let w = sub_chars(&words[i], 0, words[i].len());
        assert(words[i as int].deep_view() =~= words[i as int]@);
        assert(words[i as int]@.subrange(0, words[i as int]@.len() as int) =~= w@);
        let ghost before = acc.deep_view();
        assert(w@ == wv[i as int]);
        assert(wv.take(i + 1).last() == wv[i as int]);
        if acc.len() == 0 {
            assert(w.deep_view() =~= w@);
            acc.push(w);
            assert(acc.deep_view() =~= seq![w@]);
        } else {
            let k = acc.len() - 1;
            assert(acc[k as int].deep_view() =~= acc[k as int]@);
            if acc[k].len() >= width || w.len() >= width - acc[k].len() {
                assert(w.deep_view() =~= w@);
                acc.push(w);
                assert(acc.deep_view() =~= before.push(w@));
            } else {
                let mut cur = sub_chars(&acc[k], 0, acc[k].len());
                cur.push(' ');
                let mut rest = w;
                cur.append(&mut rest);
                assert(cur@ =~= before.last() + " "@ + wv[i as int]) by {
                    reveal_strlit(" ");
                }
                assert(cur.deep_view() =~= cur@);
                acc.set(k, cur);
                assert(acc.deep_view() =~= before.update(k as int, before.last() + " "@ + wv[i as int]));
            }
        }
        i = i + 1;
    }
    assert(wv.take(wv.len() as int) =~= wv);
    let body = join_chars(&acc, 0, acc.len(), full.as_str());
    assert(acc.deep_view().subrange(0, acc@.len() as int) =~= acc.deep_view());
    if indent_first {
        let mut r = part;
        r.append(body.as_str());
        r
    } else {
        body
    }
}

/// The width of the usage text.
pub const LINE_LENGTH_MAX: usize = 80;

/// The value names of a setting, joined with spaces.
pub open spec fn strs_text(s: ConfigSetting) -> Seq<char> {
    join(s.strs.deep_view(), " "@)
}

/// The flags of a setting: `-c, --word`.
pub open spec fn flag_text(s: ConfigSetting) -> Seq<char> {
    "-"@ + s.char@ + ", --"@ + s.word@
}

/// The greatest length among `xs`.
pub open spec fn max_len(xs: Seq<Seq<char>>) -> nat
    decreases xs.len(),
{
    if xs.len() == 0 {
        0
    } else {
        let m = max_len(xs.drop_last());
        if xs.last().len() > m {
            xs.last().len()
        } else {
            m
        }
    }
}

/// The value names of each setting.
pub open spec fn all_strs(st: Seq<ConfigSetting>) -> Seq<Seq<char>> {
    Seq::new(st.len(), |i: int| strs_text(st[i]))
}

/// The flags of each setting.
pub open spec fn all_flags(st: Seq<ConfigSetting>) -> Seq<Seq<char>> {
    Seq::new(st.len(), |i: int| flag_text(st[i]))
}

/// `s` padded with spaces on the right to `w` characters.
pub open spec fn pad(s: Seq<char>, w: int) -> Seq<char> {
    if s.len() >= w {
        s
    } else {
        s + repeat(" "@, (w - s.len()) as nat)
    }
}

/// The settings that the head of the usage line shows: all but `version` and `help`.
pub open spec fn kept(st: Seq<ConfigSetting>) -> Seq<ConfigSetting>
    decreases st.len(),
{
    if st.len() == 0 {
        seq![]
    } else {
        let r = kept(st.drop_last());
        if st.last().word@ != "version"@ && st.last().word@ != "help"@ {
            r.push(st.last())
        } else {
            r
        }
    }
}

/// One setting in the usage line: `[--word/-c VALUES]`, with the value names given.
pub open spec fn usage_item(o: ConfigSetting, values: Seq<char>) -> Seq<char> {
    "[--"@ + o.word@ + "/-"@ + o.char@ + (if values.len() == 0 {
        seq![]
    } else {
        " "@ + values
    }) + "]"@
}

/// The settings of the usage line, each with its value names.
pub open spec fn usage_part(st: Seq<ConfigSetting>) -> Seq<char> {
    join(Seq::new(kept(st).len(), |k: int| usage_item(kept(st)[k], strs_text(kept(st)[k]))), " "@)
}

/// One line of the flags list.
pub open spec fn flag_line(o: ConfigSetting, fmax: nat, smax: nat) -> Seq<char> {
    " "@ + flag_text(o) + "  "@ + pad(strs_text(o), fmax - o.word@.len()) + "  "@ + broken(
        o.desc@,
        fmax + smax + 2,
        LINE_LENGTH_MAX as nat,
        false,
    )
}

/// The notes of `m`, in order.
pub open spec fn notes_of(m: ConfigMessages) -> Seq<Seq<char>> {
    Seq::new(m.keys_notes@.len(), |i: int| message_lookup(m.repository@, m.keys_notes@[i]@)->0)
}

/// The widths fit the line: the title with its two spaces, and the indent of descriptions.
pub open spec fn help_fits(config: Config, title: Seq<char>) -> bool {
    &&& title.len() + 2 <= LINE_LENGTH_MAX
    &&& max_len(all_flags(config.settings@)) + max_len(all_strs(config.settings@)) + 2 <= LINE_LENGTH_MAX
}

/// The usage text: the title centred among dashes, the usage line, the flags with their value
/// names and descriptions, and the notes, each part wrapped to the line width.
pub open spec fn help_of(config: Config, title: Seq<char>) -> Seq<char> {
    let st = config.settings@;
    let fmax = max_len(all_flags(st));
    let smax = max_len(all_strs(st));
    centered(title, LINE_LENGTH_MAX as nat, "-"@) + "\n\n"@ + "Usage: aliesce "@ + broken(
        usage_part(st) + " [SOURCE]"@,
        15,
        LINE_LENGTH_MAX as nat,
        false,
    ) + "\n"@ + broken("/ --version/-v / --help/-h"@, 15, LINE_LENGTH_MAX as nat, true) + "\n"@ + "Flags:\n"@
        + join(Seq::new(st.len(), |i: int| flag_line(st[i], fmax, smax)), "\n"@) + "\n\n"@ + "Notes:\n"@ + join(
        notes_of(config.messages).map_values(|l: Seq<char>| broken(l, 1, LINE_LENGTH_MAX as nat, true)),
        "\n\n"@,
    )
}

/// The greatest length among `xs`.
fn max_len_exec(xs: &Vec<String>) -> (r: usize)
    ensures
        r == max_len(xs.deep_view()),
{
    let mut m: usize = 0;
    let mut i: usize = 0;
    while i < xs.len()
        invariant
            i <= xs@.len(),
            m == max_len(xs.deep_view().take(i as int)),
        decreases xs@.len() - i,
    {
        assert(xs.deep_view().take(i + 1).drop_last() =~= xs.deep_view().take(i as int));
        let n = xs[i].as_str().unicode_len();
        if n > m {
            m = n;
        }
        i = i + 1;
    }
    assert(xs.deep_view().take(xs@.len() as int) =~= xs.deep_view());
    m
}

/// A flag text is at least as long as the setting's word.
proof fn lemma_word_within_flags(st: Seq<ConfigSetting>, i: int)
    requires
        0 <= i < st.len(),
    ensures
        st[i].word@.len() <= max_len(all_flags(st)),
{
    lemma_max_len_bound(all_flags(st), i);
}

/// No length among `xs` exceeds their greatest.
proof fn lemma_max_len_bound(xs: Seq<Seq<char>>, i: int)
    requires
        0 <= i < xs.len(),
    ensures
        xs[i].len() <= max_len(xs),
    decreases xs.len(),
{
    if i < xs.len() - 1 {
        lemma_max_len_bound(xs.drop_last(), i);
    }
}

/// The usage text for `config` under the title `title`, where the widths fit the line and every
/// note has a message.
pub fn help_text(config: &Config, title: &str) -> (r: Option<String>)
    ensures
        r is Some <==> help_fits(*config, title@) && config.messages.wf(),
        r matches Some(t) ==> t@ == help_of(*config, title@),
{
    let st = &config.settings;
    let ghost sv = st@;
    let mut strs_strs: Vec<String> = Vec::new();
    let mut flag_strs: Vec<String> = Vec::new();
    let mut i: usize = 0;
    while i < st.len()
        invariant
            i <= st@.len(),
            sv == st@,
            strs_strs.deep_view() == all_strs(sv).take(i as int),
            flag_strs.deep_view() == all_flags(sv).take(i as int),
        decreases st@.len() - i,
    {
        let sj = join_strings(&st[i].strs, 0, st[i].strs.len(), " ");
        assert(st[i as int].strs.deep_view().subrange(0, st[i as int].strs@.len() as int) =~= st[i as int].strs.deep_view());
        let mut fl = String::from_str("-");
        fl.append(st[i].char.as_str());
        fl.append(", --");
        fl.append(st[i].word.as_str());
        let ghost b1 = strs_strs.deep_view();
        let ghost b2 = flag_strs.deep_view();
        strs_strs.push(sj);
        flag_strs.push(fl);
        assert(sj@ == strs_text(sv[i as int]));
        assert(fl@ =~= flag_text(sv[i as int]));
        assert(strs_strs.deep_view() =~= b1.push(sj@));
        assert(flag_strs.deep_view() =~= b2.push(fl@));
        assert(all_strs(sv).take(i + 1) =~= all_strs(sv).take(i as int).push(strs_text(sv[i as int])));
        assert(all_flags(sv).take(i + 1) =~= all_flags(sv).take(i as int).push(flag_text(sv[i as int])));
        assert(strs_strs.deep_view() =~= all_strs(sv).take(i + 1));
        assert(flag_strs.deep_view() =~= all_flags(sv).take(i + 1));
        i = i + 1;
    }
    assert(all_strs(sv).take(sv.len() as int) =~= all_strs(sv));
    assert(all_flags(sv).take(sv.len() as int) =~= all_flags(sv));
    let smax = max_len_exec(&strs_strs);
    let fmax = max_len_exec(&flag_strs);
    let tlen = title.unicode_len();
    if tlen > LINE_LENGTH_MAX - 2 || fmax > LINE_LENGTH_MAX - 2 || smax > LINE_LENGTH_MAX - 2 - fmax {
        return None;
    }
    let mut notes: Vec<String> = Vec::new();
    let mut k: usize = 0;
    while k < config.messages.keys_notes.len()
        invariant
            k <= config.messages.keys_notes@.len(),
            notes.deep_view() == notes_of(config.messages).take(k as int),
            forall|j: int|
                0 <= j < k ==> (#[trigger] message_lookup(
                    config.messages.repository@,
                    config.messages.keys_notes@[j]@,
                )) is Some,
        decreases config.messages.keys_notes@.len() - k,
    {
        match config.messages.get(config.messages.keys_notes[k].as_str()) {
            Some(m) => {
                let ghost before = notes.deep_view();
                let c = m.clone();
                notes.push(c);
                assert(notes.deep_view() =~= before.push(c@));
                assert(notes_of(config.messages).take(k + 1) =~= notes_of(config.messages).take(k as int).push(c@));
                assert(notes.deep_view() =~= notes_of(config.messages).take(k + 1));
            },
            None => {
                return None;
            },
        }
        k = k + 1;
    }
    assert(notes_of(config.messages).take(notes_of(config.messages).len() as int) =~= notes_of(config.messages));

    let title_line = line_center_with_fill(title, LINE_LENGTH_MAX, "-");

    let mut items: Vec<String> = Vec::new();
    let mut i: usize = 0;
    while i < st.len()
        invariant
            i <= st@.len(),
            sv == st@,
            strs_strs.deep_view() == all_strs(sv),
            strs_strs@.len() == sv.len(),
            items.deep_view() == Seq::new(
                kept(sv.take(i as int)).len(),
                |q: int| usage_item(kept(sv.take(i as int))[q], strs_text(kept(sv.take(i as int))[q])),
            ),
        decreases st@.len() - i,
    {
        assert(sv.take(i + 1).drop_last() =~= sv.take(i as int));
        let o = &st[i];
        if !(o.word == String::from_str("version")) && !(o.word == String::from_str("help")) {
            let mut it = String::from_str("[--");
            it.append(o.word.as_str());
            it.append("/-");
            it.append(o.char.as_str());
            if strs_strs[i].as_str().unicode_len() > 0 {
                it.append(" ");
                it.append(strs_strs[i].as_str());
            }
            it.append("]");
            assert(strs_strs.deep_view()[i as int] == strs_strs@[i as int]@);
            assert(all_strs(sv)[i as int] == strs_text(sv[i as int]));
            assert(it@ =~= usage_item(sv[i as int], strs_text(sv[i as int])));
            assert(sv.take(i + 1).last() == sv[i as int]);
            assert(kept(sv.take(i + 1)) == kept(sv.take(i as int)).push(sv[i as int]));
            let ghost before = items.deep_view();
            items.push(it);
            assert(items.deep_view() =~= before.push(it@));
            assert(items.deep_view() =~= Seq::new(
                kept(sv.take(i + 1)).len(),
                |q: int| usage_item(kept(sv.take(i + 1))[q], strs_text(kept(sv.take(i + 1))[q])),
            ));
        } else {
            assert(sv.take(i + 1).last() == sv[i as int]);
            assert(kept(sv.take(i + 1)) == kept(sv.take(i as int)));
            assert(items.deep_view() =~= Seq::new(
                kept(sv.take(i + 1)).len(),
                |q: int| usage_item(kept(sv.take(i + 1))[q], strs_text(kept(sv.take(i + 1))[q])),
            ));
        }
        i = i + 1;
    }
    assert(sv.take(sv.len() as int) =~= sv);
    let mut usage_line = join_strings(&items, 0, items.len(), " ");
    assert(items.deep_view().subrange(0, items@.len() as int) =~= items.deep_view());
    usage_line.append(" [SOURCE]");
    let head = line_break_and_indent(usage_line.as_str(), 15, LINE_LENGTH_MAX, false);
    let tail = line_break_and_indent("/ --version/-v / --help/-h", 15, LINE_LENGTH_MAX, true);

    let mut lines: Vec<String> = Vec::new();
    let mut i: usize = 0;
    while i < st.len()
        invariant
            i <= st@.len(),
            sv == st@,
            strs_strs.deep_view() == all_strs(sv),
            flag_strs.deep_view() == all_flags(sv),
            strs_strs@.len() == sv.len(),
            flag_strs@.len() == sv.len(),
            fmax == max_len(all_flags(sv)),
            smax == max_len(all_strs(sv)),
            fmax + smax + 2 <= LINE_LENGTH_MAX,
            lines.deep_view() == Seq::new(i as nat, |q: int| flag_line(sv[q], fmax as nat, smax as nat)),
        decreases st@.len() - i,
    {
        proof {
            lemma_word_within_flags(sv, i as int);
        }
        assert(flag_strs.deep_view()[i as int] == flag_strs@[i as int]@);
        assert(strs_strs.deep_view()[i as int] == strs_strs@[i as int]@);
        assert(flag_strs@[i as int]@ == flag_text(sv[i as int]));
        assert(strs_strs@[i as int]@ == strs_text(sv[i as int]));
        let desc = line_break_and_indent(st[i].desc.as_str(), fmax + smax + 2, LINE_LENGTH_MAX, false);
        let w = fmax - st[i].word.as_str().unicode_len();
        let mut l = String::from_str(" ");
        l.append(flag_strs[i].as_str());
        l.append("  ");
        l.append(strs_strs[i].as_str());
        let n = strs_strs[i].as_str().unicode_len();
        if n < w {
            l.append(repeat_str(" ", w - n).as_str());
        }
        l.append("  ");
        l.append(desc.as_str());
        assert(l@ =~= flag_line(sv[i as int], fmax as nat, smax as nat));
        let ghost before = lines.deep_view();
        lines.push(l);
        assert(lines.deep_view() =~= before.push(l@));
        assert(lines.deep_view() =~= Seq::new((i + 1) as nat, |q: int| flag_line(sv[q], fmax as nat, smax as nat)));
        i = i + 1;
    }
    let flags_list = join_strings(&lines, 0, lines.len(), "\n");
    assert(lines.deep_view().subrange(0, lines@.len() as int) =~= lines.deep_view());
    assert(lines.deep_view() =~= Seq::new(sv.len(), |q: int| flag_line(sv[q], fmax as nat, smax as nat)));

    let mut wrapped: Vec<String> = Vec::new();
    let mut k: usize = 0;
    while k < notes.len()
        invariant
            k <= notes@.len(),
            wrapped.deep_view() == notes.deep_view().take(k as int).map_values(
                |l: Seq<char>| broken(l, 1, LINE_LENGTH_MAX as nat, true),
            ),
        decreases notes@.len() - k,
    {
        let b = line_break_and_indent(notes[k].as_str(), 1, LINE_LENGTH_MAX, true);
        let ghost before = wrapped.deep_view();
        wrapped.push(b);
        assert(wrapped.deep_view() =~= before.push(b@));
        assert(notes.deep_view().take(k + 1) =~= notes.deep_view().take(k as int).push(notes@[k as int]@));
        assert(wrapped.deep_view() =~= notes.deep_view().take(k + 1).map_values(
            |l: Seq<char>| broken(l, 1, LINE_LENGTH_MAX as nat, true),
        ));
        k = k + 1;
    }
    assert(notes.deep_view().take(notes@.len() as int) =~= notes.deep_view());
    let notes_body = join_strings(&wrapped, 0, wrapped.len(), "\n\n");
    assert(wrapped.deep_view().subrange(0, wrapped@.len() as int) =~= wrapped.deep_view());

    let mut r = title_line;
    r.append("\n\n");
    r.append("Usage: aliesce ");
    r.append(head.as_str());
    r.append("\n");
    r.append(tail.as_str());
    r.append("\n");
    r.append("Flags:\n");
    r.append(flags_list.as_str());
    r.append("\n\n");
    r.append("Notes:\n");
    r.append(notes_body.as_str());
    assert(r@ =~= help_of(*config, title@));
    Some(r)
}

} // verus!
