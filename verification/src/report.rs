//! The text layout of the report: ANSI-aware widths and the two-column
//! grid of banner and information lines.

use vstd::prelude::*;
use crate::text::{blank, chars_of, is_blank, lines, push_char, replace_all, replace_of, split_lines, string_of, trim, trimmed, utf8_len, utf8_len_of};

verus! {

/// Whether `c` ends a CSI escape sequence (a byte in `0x40..=0x7E`).
pub open spec fn is_csi_final(c: char) -> bool {
    0x40 <= (c as u32) && (c as u32) <= 0x7E
}

/// The position after a CSI sequence whose parameters start at `k`: just
/// after its final byte, or the end of `s`.
pub open spec fn csi_end(s: Seq<char>, k: int) -> int
    decreases s.len() - k,
{
    if 0 <= k < s.len() {
        if is_csi_final(s[k]) {
            k + 1
        } else {
            csi_end(s, k + 1)
        }
    } else {
        k
    }
}

/// The position after an OSC sequence whose text starts at `k`: just after
/// `ESC \` or `BEL`, or the end of `s`.
pub open spec fn osc_end(s: Seq<char>, k: int) -> int
    decreases s.len() - k,
{
    if 0 <= k < s.len() {
        if s[k] == '\x1b' && k + 1 < s.len() && s[k + 1] == '\\' {
            k + 2
        } else if s[k] == '\x07' {
            k + 1
        } else {
            osc_end(s, k + 1)
        }
    } else {
        k
    }
}

pub proof fn lemma_csi_end(s: Seq<char>, k: int)
    requires
        0 <= k <= s.len(),
    ensures
        k <= csi_end(s, k) <= s.len(),
    decreases s.len() - k,
{
    if k < s.len() && !is_csi_final(s[k]) {
        lemma_csi_end(s, k + 1);
    }
}

pub proof fn lemma_osc_end(s: Seq<char>, k: int)
    requires
        0 <= k <= s.len(),
    ensures
        k <= osc_end(s, k) <= s.len(),
    decreases s.len() - k,
{
    if k < s.len() && !(s[k] == '\x1b' && k + 1 < s.len() && s[k + 1] == '\\') && s[k] != '\x07' {
        lemma_osc_end(s, k + 1);
    }
}

/// The visible characters of `s` from position `i` on: escape sequences
/// removed (CSI `ESC [ ... final`, OSC `ESC ] ... ESC \` or `... BEL`, and
/// two-character `ESC x`; an `ESC` at the very end is dropped).
pub open spec fn strip_from(s: Seq<char>, i: int) -> Seq<char>
    decreases s.len() - i,
{
    if 0 <= i < s.len() {
        if s[i] != '\x1b' {
            seq![s[i]] + strip_from(s, i + 1)
        } else if i + 1 >= s.len() {
            Seq::empty()
        } else if s[i + 1] == '[' {
            proof {
                lemma_csi_end(s, i + 2);
            }
            strip_from(s, csi_end(s, i + 2))
        } else if s[i + 1] == ']' {
            proof {
                lemma_osc_end(s, i + 2);
            }
            strip_from(s, osc_end(s, i + 2))
        } else {
            strip_from(s, i + 2)
        }
    } else {
        Seq::empty()
    }
}

/// `s` without its ANSI escape sequences.
pub open spec fn strip_ansi(s: Seq<char>) -> Seq<char> {
    strip_from(s, 0)
}

/// Removes ANSI escape sequences from `s`, as `strip_ansi` says.
pub fn strip_ansi_codes(s: &str) -> (r: String)
    ensures
        r@ == strip_ansi(s@),
{
    let cs = chars_of(s);
    let mut out: Vec<char> = Vec::new();
    let mut i: usize = 0;
    while i < cs.len()
        invariant
            i <= cs.len(),
            cs@ == s@,
            out@ + strip_from(cs@, i as int) == strip_ansi(s@),
        decreases cs.len() - i,
    {
        let ghost i0 = i as int;
        let ghost out0 = out@;
        let c = cs[i];
        if c != '\x1b' {
            out.push(c);
            i = i + 1;
            assert(out0 + strip_from(cs@, i0) =~= out@ + strip_from(cs@, i as int));
        } else if i + 1 >= cs.len() {
            i = i + 1;
        } else if cs[i + 1] == '[' {
            i = i + 2;
            while i < cs.len() && !(0x40 <= cs[i] as u32 && cs[i] as u32 <= 0x7E)
                invariant
                    i0 + 2 <= i <= cs.len(),
                    csi_end(cs@, i as int) == csi_end(cs@, i0 + 2),
                decreases cs.len() - i,
            {
                i = i + 1;
            }
            if i < cs.len() {
                i = i + 1;
            }
        } else if cs[i + 1] == ']' {
            i = i + 2;
            while i < cs.len()
                invariant_except_break
                    osc_end(cs@, i as int) == osc_end(cs@, i0 + 2),
                invariant
                    i0 + 2 <= i <= cs.len(),
                ensures
                    i == osc_end(cs@, i0 + 2),
                decreases cs.len() - i,
            {
                if cs[i] == '\x1b' && i + 1 < cs.len() && cs[i + 1] == '\\' {
                    i = i + 2;
                    break;
                } else if cs[i] == '\x07' {
                    i = i + 1;
                    break;
                } else {
                    i = i + 1;
                }
            }
        } else {
            i = i + 2;
        }
    }
    string_of(out.as_slice())
}

/// `n` spaces.
pub open spec fn spaces(n: nat) -> Seq<char> {
    Seq::new(n, |i: int| ' ')
}

/// The number of visible characters of `s`.
pub open spec fn visible_width(s: Seq<char>) -> nat {
    strip_ansi(s).len()
}

/// `s` followed by spaces up to `w` visible characters.
pub open spec fn padded_visible(s: Seq<char>, w: nat) -> Seq<char> {
    if visible_width(s) < w {
        s + spaces((w - visible_width(s)) as nat)
    } else {
        s
    }
}

/// The number of visible characters of `s` (characters that are not part of
/// an ANSI escape sequence).
pub fn visible_len(s: &str) -> (n: usize)
    ensures
        n == visible_width(s@),
{
    let stripped = strip_ansi_codes(s);
    let cs = chars_of(stripped.as_str());
    cs.len()
}

/// Appends `n` spaces to `s`.
pub fn push_spaces(s: &mut String, n: usize)
    ensures
        final(s)@ == old(s)@ + spaces(n as nat),
{
    let mut i: usize = 0;
    while i < n
        invariant
            i <= n,
            s@ =~= old(s)@ + spaces(i as nat),
        decreases n - i,
    {
        push_char(s, ' ');
        i = i + 1;
        assert(s@ =~= old(s)@ + spaces(i as nat));
    }
}

/// `s` followed by spaces up to `target_width` visible characters; escape
/// sequences in `s` are kept and not counted.
pub fn pad_right_visible(s: &str, target_width: usize) -> (r: String)
    ensures
        r@ == padded_visible(s@, target_width as nat),
{
    let current_len = visible_len(s);
    let padding_needed = if target_width > current_len { target_width - current_len } else { 0 };
    let mut result = String::from_str(s);
    push_spaces(&mut result, padding_needed);
    proof {
        if !(current_len < target_width) {
            assert(result@ =~= s@);
        }
    }
    result
}

/// The separator between a label and its content.
pub open spec fn separator() -> Seq<char> {
    seq![' ', ' ', '=', '=', '>', ' ', ' ']
}

/// The largest visible width among `ls` (0 for none).
pub open spec fn max_visible(ls: Seq<Seq<char>>) -> nat
    decreases ls.len(),
{
    if ls.len() == 0 {
        0
    } else {
        let m = max_visible(ls.drop_last());
        let w = visible_width(ls.last());
        if w > m { w } else { m }
    }
}

/// The largest UTF-8 length among `ls` (0 for none).
pub open spec fn max_utf8(ls: Seq<Seq<char>>) -> nat
    decreases ls.len(),
{
    if ls.len() == 0 {
        0
    } else {
        let m = max_utf8(ls.drop_last());
        let w = utf8_len(ls.last());
        if w > m { w } else { m }
    }
}

/// The width of the label column: the longest label in bytes, or 6 when
/// there are no labels.
pub open spec fn label_width(labels: Seq<Seq<char>>) -> nat {
    if labels.len() == 0 { 6 } else { max_utf8(labels) }
}

/// The width of the content column: the widest content in visible
/// characters, or 20 when there are none.
pub open spec fn content_width(contents: Seq<Seq<char>>) -> nat {
    if contents.len() == 0 { 20 } else { max_visible(contents) }
}

/// The width of the information box.
pub open spec fn info_box_width(labels: Seq<Seq<char>>, contents: Seq<Seq<char>>) -> nat {
    label_width(labels) + 7 + content_width(contents)
}

/// `l` followed by spaces up to `w` characters.
pub open spec fn padded_chars(l: Seq<char>, w: nat) -> Seq<char> {
    if l.len() < w { l + spaces((w - l.len()) as nat) } else { l }
}

/// An information line: the padded label, the separator and the padded
/// content.
pub open spec fn info_row(label: Seq<char>, content: Seq<char>, lw: nat, cw: nat) -> Seq<char> {
    padded_chars(label, lw) + separator() + padded_visible(content, cw)
}

/// The number of grid rows.
pub open spec fn total_rows(nb: nat, ni: nat) -> nat {
    if ni > nb { ni } else { nb }
}

/// The number of blank rows above the banner, which centres it beside the
/// information lines.
pub open spec fn banner_offset(nb: nat, ni: nat) -> nat {
    if total_rows(nb, ni) > nb { ((total_rows(nb, ni) - nb) / 2) as nat } else { 0 }
}

/// Row `i` of the grid: the banner column padded to its width (or blank),
/// a gap of five spaces, and the information line if there is one.
pub open spec fn grid_row(
    banner: Seq<Seq<char>>,
    labels: Seq<Seq<char>>,
    contents: Seq<Seq<char>>,
    i: int,
) -> Seq<char> {
    let bw = max_visible(banner);
    let off = banner_offset(banner.len(), labels.len());
    let left = if off <= i && i - off < banner.len() {
        padded_visible(banner[i - off], bw)
    } else {
        spaces(bw)
    };
    let right = if i < labels.len() {
        info_row(labels[i], contents[i], label_width(labels), content_width(contents))
    } else {
        Seq::empty()
    };
    left + spaces(5) + right
}

/// The header and the rail under it, centred over the information box.
pub open spec fn header_rows(header: Seq<char>, info_start: nat, ibw: nat) -> Seq<Seq<char>> {
    let hw = visible_width(header);
    let hpad: nat = if ibw > hw { ((ibw - hw) / 2) as nat } else { 0 };
    let rw: nat = if hw > 12 { if ibw < hw { ibw } else { hw } } else { if ibw < 12 { ibw } else { 12 } };
    let rpad: nat = if ibw > rw { ((ibw - rw) / 2) as nat } else { 0 };
    seq![
        spaces(info_start + hpad) + header,
        spaces(info_start + rpad) + Seq::new(rw, |i: int| '\u{2500}'),
    ]
}

/// The lines of the report: a blank line, the header and its rail (when
/// there is a header), a blank line, the grid rows, and a blank line.
pub open spec fn report_lines(
    banner: Seq<Seq<char>>,
    labels: Seq<Seq<char>>,
    contents: Seq<Seq<char>>,
    header: Option<Seq<char>>,
) -> Seq<Seq<char>> {
    let info_start = max_visible(banner) + 5;
    let ibw = info_box_width(labels, contents);
    let top = match header {
        Some(h) => header_rows(h, info_start, ibw),
        None => Seq::empty(),
    };
    seq![Seq::empty()] + top + seq![Seq::empty()] + Seq::new(
        total_rows(banner.len(), labels.len()),
        |i: int| grid_row(banner, labels, contents, i),
    ) + seq![Seq::empty()]
}

/// Whether every column width of the report fits in a `usize`.
pub open spec fn report_fits(banner: Seq<Seq<char>>, labels: Seq<Seq<char>>, contents: Seq<Seq<char>>) -> bool {
    max_visible(banner) + 5 + info_box_width(labels, contents) <= usize::MAX
}

/// The texts of a sequence of strings.
pub open spec fn texts(v: Seq<String>) -> Seq<Seq<char>> {
    v.map_values(|s: String| s@)
}

/// The labels of the information lines.
pub open spec fn labels_of(info: Seq<(String, String)>) -> Seq<Seq<char>> {
    info.map_values(|p: (String, String)| p.0@)
}

/// The contents of the information lines.
pub open spec fn contents_of(info: Seq<(String, String)>) -> Seq<Seq<char>> {
    info.map_values(|p: (String, String)| p.1@)
}

fn max_visible_of(ls: &Vec<String>) -> (m: usize)
    requires
        max_visible(texts(ls@)) <= usize::MAX,
    ensures
        m == max_visible(texts(ls@)),
{
    let mut m: usize = 0;
    let mut i: usize = 0;
    while i < ls.len()
        invariant
            i <= ls.len(),
            m == max_visible(texts(ls@).take(i as int)),
            max_visible(texts(ls@)) <= usize::MAX,
        decreases ls.len() - i,
    {
        assert(texts(ls@).take(i + 1).drop_last() =~= texts(ls@).take(i as int));
        let w = visible_len(ls[i].as_str());
        if w > m {
            m = w;
        }
        i = i + 1;
    }
    assert(texts(ls@).take(ls.len() as int) =~= texts(ls@));
    m
}

proof fn lemma_max_visible_prefix(ls: Seq<Seq<char>>, k: int)
    requires
        0 <= k <= ls.len(),
    ensures
        max_visible(ls.take(k)) <= max_visible(ls),
    decreases ls.len() - k,
{
    if k < ls.len() {
        lemma_max_visible_prefix(ls, k + 1);
        assert(ls.take(k + 1).drop_last() =~= ls.take(k));
    } else {
        assert(ls.take(k) =~= ls);
    }
}

proof fn lemma_max_utf8_prefix(ls: Seq<Seq<char>>, k: int)
    requires
        0 <= k <= ls.len(),
    ensures
        max_utf8(ls.take(k)) <= max_utf8(ls),
    decreases ls.len() - k,
{
    if k < ls.len() {
        lemma_max_utf8_prefix(ls, k + 1);
        assert(ls.take(k + 1).drop_last() =~= ls.take(k));
    } else {
        assert(ls.take(k) =~= ls);
    }
}

fn label_width_of(info: &Vec<(String, String)>) -> (w: usize)
    requires
        label_width(labels_of(info@)) <= usize::MAX,
    ensures
        w == label_width(labels_of(info@)),
{
    if info.len() == 0 {
        return 6;
    }
    let ghost ls = labels_of(info@);
    let mut m: usize = 0;
    let mut i: usize = 0;
    while i < info.len()
        invariant
            i <= info.len(),
            ls == labels_of(info@),
            m == max_utf8(ls.take(i as int)),
            max_utf8(ls) <= usize::MAX,
        decreases info.len() - i,
    {
        assert(ls.take(i + 1).drop_last() =~= ls.take(i as int));
        proof {
            lemma_max_utf8_prefix(ls, i + 1);
        }
        let cs = chars_of(info[i].0.as_str());
        let w = utf8_len_of(cs.as_slice());
        if w > m as u128 {
            m = w as usize;
        }
        i = i + 1;
    }
    assert(ls.take(info.len() as int) =~= ls);
    m
}

fn content_width_of(info: &Vec<(String, String)>) -> (w: usize)
    requires
        content_width(contents_of(info@)) <= usize::MAX,
    ensures
        w == content_width(contents_of(info@)),
{
    if info.len() == 0 {
        return 20;
    }
    let ghost cs = contents_of(info@);
    let mut m: usize = 0;
    let mut i: usize = 0;
    while i < info.len()
        invariant
            i <= info.len(),
            cs == contents_of(info@),
            m == max_visible(cs.take(i as int)),
            max_visible(cs) <= usize::MAX,
        decreases info.len() - i,
    {
        assert(cs.take(i + 1).drop_last() =~= cs.take(i as int));
        let w = visible_len(info[i].1.as_str());
        if w > m {
            m = w;
        }
        i = i + 1;
    }
    assert(cs.take(info.len() as int) =~= cs);
    m
}

/// The lines of the report (each printed on a line of its own), as
/// `report_lines` says.
pub fn render_report(
    banner_lines: &Vec<String>,
    info_lines: &Vec<(String, String)>,
    user_host: &Option<String>,
) -> (r: Vec<String>)
    requires
        report_fits(texts(banner_lines@), labels_of(info_lines@), contents_of(info_lines@)),
    ensures
        texts(r@) == report_lines(
            texts(banner_lines@),
            labels_of(info_lines@),
            contents_of(info_lines@),
            match user_host {
                Some(h) => Some(h@),
                None => None,
            },
        ),
{
    let ghost banner = texts(banner_lines@);
    let ghost labels = labels_of(info_lines@);
    let ghost contents = contents_of(info_lines@);
    let banner_box_width = max_visible_of(banner_lines);
    let lw = label_width_of(info_lines);
    let cw = content_width_of(info_lines);
    let ibw = lw + 7 + cw;
    let info_start = banner_box_width + 5;
    let mut out: Vec<String> = Vec::new();
    out.push(String::new());
    let ghost top: Seq<Seq<char>> = match user_host {
        Some(h) => header_rows(h@, info_start as nat, ibw as nat),
        None => Seq::empty(),
    };
    match user_host {
        Some(h) => {
            let hw = visible_len(h.as_str());
            let hpad = if ibw > hw { (ibw - hw) / 2 } else { 0 };
            let mut header = String::new();
            push_spaces(&mut header, info_start + hpad);
            header.append(h.as_str());
            let big = if hw > 12 { hw } else { 12 };
            let rw = if ibw < big { ibw } else { big };
            let rpad = if ibw > rw { (ibw - rw) / 2 } else { 0 };
            let mut rail = String::new();
            push_spaces(&mut rail, info_start + rpad);
            let mut k: usize = 0;
            let ghost rail0 = rail@;
            while k < rw
                invariant
                    k <= rw,
                    rail@ =~= rail0 + Seq::new(k as nat, |i: int| '\u{2500}'),
                decreases rw - k,
            {
                push_char(&mut rail, '\u{2500}');
                k = k + 1;
                assert(rail@ =~= rail0 + Seq::new(k as nat, |i: int| '\u{2500}'));
            }
            out.push(header);
            out.push(rail);
        },
        None => {},
    }
    assert(texts(out@) =~= seq![Seq::<char>::empty()] + top);
    out.push(String::new());
    let nb = banner_lines.len();
    let ni = info_lines.len();
    let total = if ni > nb { ni } else { nb };
    let off = if total > nb { (total - nb) / 2 } else { 0 };
    let ghost prefix = seq![Seq::<char>::empty()] + top + seq![Seq::<char>::empty()];
    assert(texts(out@) =~= prefix);
    let mut i: usize = 0;
    while i < total
        invariant
            i <= total,
            total == total_rows(nb as nat, ni as nat),
            off == banner_offset(nb as nat, ni as nat),
            nb == banner_lines.len(),
            ni == info_lines.len(),
            banner == texts(banner_lines@),
            labels == labels_of(info_lines@),
            contents == contents_of(info_lines@),
            banner_box_width == max_visible(banner),
            lw == label_width(labels),
            cw == content_width(contents),
            texts(out@) =~= prefix + Seq::new(i as nat, |j: int| grid_row(banner, labels, contents, j)),
        decreases total - i,
    {
        let mut row = if i >= off && i - off < nb {
            pad_right_visible(banner_lines[i - off].as_str(), banner_box_width)
        } else {
            let mut sp = String::new();
            push_spaces(&mut sp, banner_box_width);
            sp
        };
        push_spaces(&mut row, 5);
        if i < ni {
            let mut label = info_lines[i].0.clone();
            let lc = chars_of(label.as_str());
            if lc.len() < lw {
                push_spaces(&mut label, lw - lc.len());
            }
            row.append(label.as_str());
            proof {
                reveal_strlit("  ==>  ");
                assert("  ==>  "@ =~= separator());
            }
            row.append("  ==>  ");
            let content = pad_right_visible(info_lines[i].1.as_str(), cw);
            row.append(content.as_str());
        }
        assert(row@ =~= grid_row(banner, labels, contents, i as int));
        let ghost before = texts(out@);
        out.push(row);
        assert(texts(out@) =~= before.push(row@));
        i = i + 1;
    }
    out.push(String::new());
    out
}

/// The name that the banner is drawn for: the operating system's name
/// without `Linux`, trimmed.
pub open spec fn banner_name(os: Seq<char>) -> Seq<char> {
    trim(replace_all(os, "Linux"@, Seq::empty()))
}

/// The name that the banner is drawn for, as `banner_name` says.
pub fn banner_os_name(os: &str) -> (r: String)
    ensures
        r@ == banner_name(os@),
{
    let cs = chars_of(os);
    let pat = chars_of("Linux");
    let empty: Vec<char> = Vec::new();
    let replaced = replace_of(cs.as_slice(), pat.as_slice(), empty.as_slice());
    let t = trimmed(replaced.as_slice());
    string_of(t.as_slice())
}

/// The lines of the banner that show something once escape sequences are
/// removed, from line `i` on.
pub open spec fn visible_lines(ls: Seq<Seq<char>>) -> Seq<Seq<char>>
    decreases ls.len(),
{
    if ls.len() == 0 {
        Seq::empty()
    } else {
        visible_lines(ls.drop_last()) + if is_blank(strip_ansi(ls.last())) {
            Seq::empty()
        } else {
            seq![ls.last()]
        }
    }
}

/// The lines of `banner` that are not blank once escape sequences are
/// removed, as `visible_lines` says.
pub fn banner_lines(banner: &str) -> (r: Vec<String>)
    ensures
        texts(r@) == visible_lines(lines(banner@)),
{
    let cs = chars_of(banner);
    let ls = split_lines(cs.as_slice());
    let ghost lm = ls@.map_values(|w: Vec<char>| w@);
    let mut r: Vec<String> = Vec::new();
    let mut i: usize = 0;
    while i < ls.len()
        invariant
            i <= ls.len(),
            lm == ls@.map_values(|w: Vec<char>| w@),
            lm == lines(banner@),
            texts(r@) =~= visible_lines(lm.take(i as int)),
        decreases ls.len() - i,
    {
        assert(lm.take(i + 1).drop_last() =~= lm.take(i as int));
        assert(lm.take(i + 1).last() == ls@[i as int]@);
        let line = string_of(ls[i].as_slice());
        let stripped = strip_ansi_codes(line.as_str());
        let sc = chars_of(stripped.as_str());
        if !blank(sc.as_slice()) {
            let ghost before = texts(r@);
            r.push(line);
            assert(texts(r@) =~= before.push(ls@[i as int]@));
        }
        i = i + 1;
    }
    assert(lm.take(ls.len() as int) =~= lm);
    r
}

/// Whether `s` holds no escape character.
pub open spec fn no_escape(s: Seq<char>) -> bool {
    forall|i: int| 0 <= i < s.len() ==> #[trigger] s[i] != '\x1b'
}

/// A stretch without escape characters is kept as it is.
proof fn lemma_strip_plain_run(s: Seq<char>, i: int, j: int)
    requires
        0 <= i <= j <= s.len(),
        forall|k: int| i <= k < j ==> #[trigger] s[k] != '\x1b',
    ensures
        strip_from(s, i) == s.subrange(i, j) + strip_from(s, j),
    decreases j - i,
{
    if i < j {
        lemma_strip_plain_run(s, i + 1, j);
        assert(s.subrange(i, j) =~= seq![s[i]] + s.subrange(i + 1, j));
    } else {
        assert(s.subrange(i, j) =~= Seq::<char>::empty());
    }
}

/// A CSI sequence whose parameters `s[k..j]` hold no final byte and whose
/// final byte is at `j` ends just after `j`.
proof fn lemma_csi_run(s: Seq<char>, k: int, j: int)
    requires
        0 <= k <= j < s.len(),
        forall|m: int| k <= m < j ==> !is_csi_final(#[trigger] s[m]),
        is_csi_final(s[j]),
    ensures
        csi_end(s, k) == j + 1,
    decreases j - k,
{
    if k < j {
        lemma_csi_run(s, k + 1, j);
    }
}

/// Text without escape characters is its own visible text.
pub proof fn law_plain_text_is_visible(s: Seq<char>)
    requires
        no_escape(s),
    ensures
        strip_ansi(s) == s,
        visible_width(s) == s.len(),
{
    lemma_strip_plain_run(s, 0, s.len() as int);
    assert(s.subrange(0, s.len() as int) =~= s);
    assert(strip_from(s, s.len() as int) =~= Seq::<char>::empty());
    assert(s.subrange(0, s.len() as int) + Seq::<char>::empty() =~= s);
}

proof fn lemma_strip_from_clean(s: Seq<char>, i: int)
    ensures
        no_escape(strip_from(s, i)),
    decreases s.len() - i,
{
    if 0 <= i < s.len() {
        if s[i] != '\x1b' {
            lemma_strip_from_clean(s, i + 1);
            assert(no_escape(seq![s[i]] + strip_from(s, i + 1))) by {
                let r = seq![s[i]] + strip_from(s, i + 1);
                assert forall|k: int| 0 <= k < r.len() implies #[trigger] r[k] != '\x1b' by {
                    if k > 0 {
                        assert(r[k] == strip_from(s, i + 1)[k - 1]);
                    }
                }
            }
        } else if i + 1 < s.len() {
            if s[i + 1] == '[' {
                lemma_csi_end(s, i + 2);
                lemma_strip_from_clean(s, csi_end(s, i + 2));
            } else if s[i + 1] == ']' {
                lemma_osc_end(s, i + 2);
                lemma_strip_from_clean(s, osc_end(s, i + 2));
            } else {
                lemma_strip_from_clean(s, i + 2);
            }
        }
    }
}

/// Removing escape sequences leaves no escape character, so removing them
/// again changes nothing.
pub proof fn law_strip_is_idempotent(s: Seq<char>)
    ensures
        no_escape(strip_ansi(s)),
        strip_ansi(strip_ansi(s)) == strip_ansi(s),
{
    lemma_strip_from_clean(s, 0);
    law_plain_text_is_visible(strip_ansi(s));
}

proof fn lemma_csi_end_shift(pre: Seq<char>, t: Seq<char>, k: int)
    requires
        0 <= k <= t.len(),
    ensures
        csi_end(pre + t, pre.len() + k) == pre.len() + csi_end(t, k),
    decreases t.len() - k,
{
    if k < t.len() {
        assert((pre + t)[pre.len() + k] == t[k]);
        if !is_csi_final(t[k]) {
            lemma_csi_end_shift(pre, t, k + 1);
        }
    }
}

proof fn lemma_osc_end_shift(pre: Seq<char>, t: Seq<char>, k: int)
    requires
        0 <= k <= t.len(),
    ensures
        osc_end(pre + t, pre.len() + k) == pre.len() + osc_end(t, k),
    decreases t.len() - k,
{
    if k < t.len() {
        assert((pre + t)[pre.len() + k] == t[k]);
        if k + 1 < t.len() {
            assert((pre + t)[pre.len() + k + 1] == t[k + 1]);
        }
        if !(t[k] == '\x1b' && k + 1 < t.len() && t[k + 1] == '\\') && t[k] != '\x07' {
            lemma_osc_end_shift(pre, t, k + 1);
        }
    }
}

/// What is stripped from a position on depends only on what follows it.
proof fn lemma_strip_from_shift(pre: Seq<char>, t: Seq<char>, i: int)
    requires
        0 <= i <= t.len(),
    ensures
        strip_from(pre + t, pre.len() + i) == strip_from(t, i),
    decreases t.len() - i,
{
    let s = pre + t;
    let p = pre.len() + i;
    if i < t.len() {
        assert(s[p] == t[i]);
        if i + 1 < t.len() {
            assert(s[p + 1] == t[i + 1]);
        }
        if t[i] != '\x1b' {
            lemma_strip_from_shift(pre, t, i + 1);
        } else if i + 1 >= t.len() {
        } else if t[i + 1] == '[' {
            lemma_csi_end(t, i + 2);
            lemma_csi_end_shift(pre, t, i + 2);
            lemma_strip_from_shift(pre, t, csi_end(t, i + 2));
        } else if t[i + 1] == ']' {
            lemma_osc_end(t, i + 2);
            lemma_osc_end_shift(pre, t, i + 2);
            lemma_strip_from_shift(pre, t, osc_end(t, i + 2));
        } else {
            lemma_strip_from_shift(pre, t, i + 2);
        }
    }
}

/// A CSI escape sequence, `ESC [`, parameter bytes (`0x30` to `0x3F`) and a
/// final byte (any of `0x40` to `0x7E`, not only the `m` of colours, such
/// as the `K` of erase-line), is removed whole, and the text after it is
/// kept as it would be alone.
pub proof fn law_csi_sequence_is_removed(params: Seq<char>, f: char, t: Seq<char>)
    requires
        forall|i: int| 0 <= i < params.len() ==> 0x30 <= (#[trigger] params[i] as u32) <= 0x3F,
        0x40 <= (f as u32) <= 0x7E,
    ensures
        strip_ansi(seq!['\x1b', '['] + params + seq![f] + t) == strip_ansi(t),
{
    let pre = seq!['\x1b', '['] + params + seq![f];
    let s = pre + t;
    let n = params.len() as int;
    assert(s =~= seq!['\x1b', '['] + params + seq![f] + t);
    assert forall|m: int| 2 <= m < 2 + n implies !is_csi_final(#[trigger] s[m]) by {
        assert(s[m] == params[m - 2]);
    }
    assert(s[2 + n] == f);
    lemma_csi_run(s, 2, 2 + n);
    assert(strip_from(s, 0) == strip_from(s, 3 + n));
    assert(pre.len() == 3 + n);
    lemma_strip_from_shift(pre, t, 0);
}

/// Whether `f` picks the characters of `t` out of `s`, in order, at
/// positions from `lo` on.
pub open spec fn picks(s: Seq<char>, t: Seq<char>, f: spec_fn(int) -> int, lo: int) -> bool {
    &&& forall|k: int| 0 <= k < t.len() ==> lo <= #[trigger] f(k) < s.len() && s[f(k)] == t[k]
    &&& forall|k: int, l: int| 0 <= k < l < t.len() ==> #[trigger] f(k) < #[trigger] f(l)
}

/// Whether `t` is a subsequence of `s`: its characters occur in `s` in the
/// same order.
pub open spec fn is_subsequence(t: Seq<char>, s: Seq<char>) -> bool {
    exists|f: spec_fn(int) -> int| #[trigger] picks(s, t, f, 0)
}

proof fn lemma_strip_from_picks(s: Seq<char>, i: int)
    requires
        0 <= i,
    ensures
        exists|f: spec_fn(int) -> int| #[trigger] picks(s, strip_from(s, i), f, i),
    decreases s.len() - i,
{
    let r = strip_from(s, i);
    if 0 <= i < s.len() {
        if s[i] != '\x1b' {
            lemma_strip_from_picks(s, i + 1);
            let rest = strip_from(s, i + 1);
            let f1 = choose|f: spec_fn(int) -> int| #[trigger] picks(s, rest, f, i + 1);
            let g = |k: int| if k == 0 { i } else { f1(k - 1) };
            assert(r == seq![s[i]] + rest);
            assert forall|k: int| 0 <= k < r.len() implies i <= #[trigger] g(k) < s.len() && s[g(k)] == r[k] by {
                if k > 0 {
                    assert(r[k] == rest[k - 1]);
                    assert(i + 1 <= f1(k - 1));
                }
            }
            assert forall|k: int, l: int| 0 <= k < l < r.len() implies #[trigger] g(k) < #[trigger] g(l) by {
                assert(i + 1 <= f1(l - 1));
                if k > 0 {
                    assert(f1(k - 1) < f1(l - 1));
                }
            }
            assert(picks(s, r, g, i));
        } else if i + 1 >= s.len() {
            assert(picks(s, r, |k: int| 0int, i));
        } else if s[i + 1] == '[' {
            lemma_csi_end(s, i + 2);
            lemma_strip_from_picks(s, csi_end(s, i + 2));
            let f1 = choose|f: spec_fn(int) -> int| #[trigger] picks(s, r, f, csi_end(s, i + 2));
            assert(picks(s, r, f1, i));
        } else if s[i + 1] == ']' {
            lemma_osc_end(s, i + 2);
            lemma_strip_from_picks(s, osc_end(s, i + 2));
            let f1 = choose|f: spec_fn(int) -> int| #[trigger] picks(s, r, f, osc_end(s, i + 2));
            assert(picks(s, r, f1, i));
        } else {
            lemma_strip_from_picks(s, i + 2);
            let f1 = choose|f: spec_fn(int) -> int| #[trigger] picks(s, r, f, i + 2);
            assert(picks(s, r, f1, i));
        }
    } else {
        assert(picks(s, r, |k: int| 0int, i));
    }
}

/// Removing escape sequences only drops characters: what is left is a
/// subsequence of the input, its characters in their order.
pub proof fn law_strip_keeps_order(s: Seq<char>)
    ensures
        is_subsequence(strip_ansi(s), s),
{
    lemma_strip_from_picks(s, 0);
}

/// Colouring text without escape characters in one of the eight named
/// colours adds no visible character.
pub proof fn law_paint_keeps_visible_width(d: char, t: Seq<char>)
    requires
        '0' <= d <= '7',
        no_escape(t),
    ensures
        strip_ansi(crate::ansi::painted(crate::ansi::fg_code(d), t)) == t,
        visible_width(crate::ansi::painted(crate::ansi::fg_code(d), t)) == t.len(),
{
    let code = crate::ansi::fg_code(d);
    lemma_painted_then(d, t, Seq::empty());
    assert(crate::ansi::painted(code, t) + Seq::<char>::empty() =~= crate::ansi::painted(code, t));
    assert(t + Seq::<char>::empty() =~= t);
}

/// Padding text without escape characters gives it exactly the visible
/// width asked for, or leaves it as it is when it is already wider.
pub proof fn law_pad_reaches_width(s: Seq<char>, w: nat)
    requires
        no_escape(s),
    ensures
        visible_width(padded_visible(s, w)) == if s.len() < w { w } else { s.len() },
{
    law_plain_text_is_visible(s);
    let p = padded_visible(s, w);
    if s.len() < w {
        assert(no_escape(p)) by {
            assert forall|i: int| 0 <= i < p.len() implies #[trigger] p[i] != '\x1b' by {
                if i >= s.len() {
                    assert(p[i] == ' ');
                }
            }
        }
    }
    law_plain_text_is_visible(p);
}

proof fn lemma_decimal_digits(n: nat)
    ensures
        forall|i: int| 0 <= i < crate::ansi::decimal(n).len() ==> '0' <= #[trigger] crate::ansi::decimal(n)[i] <= '9',
        crate::ansi::decimal(n).len() >= 1,
    decreases n,
{
    if n >= 10 {
        lemma_decimal_digits(n / 10);
    }
}

/// Colouring text without escape characters in a 24-bit colour adds no
/// visible character.
pub proof fn law_rgb_keeps_visible_width(r: u8, g: u8, b: u8, t: Seq<char>)
    requires
        no_escape(t),
    ensures
        strip_ansi(crate::ansi::painted_rgb(r, g, b, t)) == t,
        visible_width(crate::ansi::painted_rgb(r, g, b, t)) == t.len(),
{
    lemma_rgb_then(r, g, b, t, Seq::empty());
    assert(crate::ansi::painted_rgb(r, g, b, t) + Seq::<char>::empty() =~= crate::ansi::painted_rgb(r, g, b, t));
    assert(t + Seq::<char>::empty() =~= t);
}

/// Whatever colour name a line is given, colouring text without escape
/// characters leaves its visible width as it was: this is what lets the
/// report align coloured lines by their visible width.
pub proof fn law_colour_keeps_visible_width(name: Seq<char>, t: Seq<char>, colored: Seq<char>)
    requires
        no_escape(t),
        crate::ansi::named_color_digit(name) matches Some(d) ==> colored == crate::ansi::painted(crate::ansi::fg_code(d), t),
        crate::ansi::is_random_name(name) ==> exists|seed: u64| colored == #[trigger] crate::ansi::painted_random(seed, t),
        !crate::ansi::is_defined_color(name) ==> colored == t,
    ensures
        visible_width(colored) == t.len(),
{
    match crate::ansi::named_color_digit(name) {
        Some(d) => {
            law_paint_keeps_visible_width(d, t);
        },
        None => {
            if crate::ansi::is_random_name(name) {
                let seed = choose|seed: u64| colored == #[trigger] crate::ansi::painted_random(seed, t);
                let c = crate::ansi::random_codes_from(seed);
                law_rgb_keeps_visible_width(c.0, c.1, c.2, t);
            } else {
                law_plain_text_is_visible(t);
            }
        },
    }
}

/// Text coloured with one of the eight named colours and followed by text
/// without escape characters shows both texts and nothing else.
proof fn lemma_painted_then(d: char, t: Seq<char>, u: Seq<char>)
    requires
        '0' <= d <= '7',
        no_escape(t),
        no_escape(u),
    ensures
        strip_ansi(crate::ansi::painted(crate::ansi::fg_code(d), t) + u) == t + u,
{
    let code = crate::ansi::fg_code(d);
    let s = code + t + crate::ansi::reset_code() + u;
    assert(crate::ansi::painted(code, t) + u == s);
    let n = t.len() as int;
    let m = u.len() as int;
    assert(s[0] == '\x1b');
    assert(s[1] == '[');
    assert(s[2] == '3');
    assert(s[3] == d);
    assert(s[4] == 'm');
    lemma_csi_run(s, 2, 4);
    assert forall|k: int| 5 <= k < 5 + n implies #[trigger] s[k] != '\x1b' by {
        assert(s[k] == t[k - 5]);
    }
    lemma_strip_plain_run(s, 5, 5 + n);
    assert(s.subrange(5, 5 + n) =~= t);
    assert(s[5 + n] == '\x1b');
    assert(s[6 + n] == '[');
    assert(s[7 + n] == '0');
    assert(s[8 + n] == 'm');
    lemma_csi_run(s, 7 + n, 8 + n);
    assert forall|k: int| 9 + n <= k < 9 + n + m implies #[trigger] s[k] != '\x1b' by {
        assert(s[k] == u[k - 9 - n]);
    }
    lemma_strip_plain_run(s, 9 + n, 9 + n + m);
    assert(s.subrange(9 + n, 9 + n + m) =~= u);
    assert(strip_from(s, 9 + n + m) =~= Seq::<char>::empty());
    assert(strip_from(s, 5 + n) == strip_from(s, 9 + n));
    assert(strip_from(s, 0) == strip_from(s, 5));
    assert(u + Seq::<char>::empty() =~= u);
}

/// Text coloured with a 24-bit colour and followed by text without escape
/// characters shows both texts and nothing else.
proof fn lemma_rgb_then(r: u8, g: u8, b: u8, t: Seq<char>, u: Seq<char>)
    requires
        no_escape(t),
        no_escape(u),
    ensures
        strip_ansi(crate::ansi::painted_rgb(r, g, b, t) + u) == t + u,
{
    let dr = crate::ansi::decimal(r as nat);
    let dg = crate::ansi::decimal(g as nat);
    let db = crate::ansi::decimal(b as nat);
    lemma_decimal_digits(r as nat);
    lemma_decimal_digits(g as nat);
    lemma_decimal_digits(b as nat);
    let params = seq!['3', '8', ';', '2', ';'] + dr + seq![';'] + dg + seq![';'] + db;
    let s = crate::ansi::painted_rgb(r, g, b, t) + u;
    assert(s =~= seq!['\x1b', '['] + params + seq!['m'] + t + crate::ansi::reset_code() + u);
    let j: int = 2 + params.len() as int;
    assert forall|q0: int| 2 <= q0 < j implies !is_csi_final(#[trigger] s[q0]) by {
        assert(s[q0] == params[q0 - 2]);
        let q = q0 - 2;
        if 5 <= q < 5 + dr.len() {
            assert(params[q] == dr[q - 5]);
        } else if 6 + dr.len() <= q < 6 + dr.len() + dg.len() {
            assert(params[q] == dg[q - 6 - dr.len()]);
        } else if 7 + dr.len() + dg.len() <= q {
            assert(params[q] == db[q - 7 - dr.len() - dg.len()]);
        }
    }
    assert(s[j] == 'm');
    lemma_csi_run(s, 2, j);
    let n = t.len() as int;
    let m = u.len() as int;
    assert forall|k: int| j + 1 <= k < j + 1 + n implies #[trigger] s[k] != '\x1b' by {
        assert(s[k] == t[k - j - 1]);
    }
    lemma_strip_plain_run(s, j + 1, j + 1 + n);
    assert(s.subrange(j + 1, j + 1 + n) =~= t);
    let e = j + 1 + n;
    assert(s[e] == '\x1b');
    assert(s[e + 1] == '[');
    assert(s[e + 2] == '0');
    assert(s[e + 3] == 'm');
    lemma_csi_run(s, e + 2, e + 3);
    assert forall|k: int| e + 4 <= k < e + 4 + m implies #[trigger] s[k] != '\x1b' by {
        assert(s[k] == u[k - e - 4]);
    }
    lemma_strip_plain_run(s, e + 4, e + 4 + m);
    assert(s.subrange(e + 4, e + 4 + m) =~= u);
    assert(strip_from(s, e + 4 + m) =~= Seq::<char>::empty());
    assert(strip_from(s, e) == strip_from(s, e + 4));
    assert(strip_from(s, 0) == strip_from(s, j + 1));
    assert(u + Seq::<char>::empty() =~= u);
}

proof fn lemma_spaces_plain(k: nat)
    ensures
        no_escape(spaces(k)),
{
    assert forall|i: int| 0 <= i < spaces(k).len() implies #[trigger] spaces(k)[i] != '\x1b' by {
        assert(spaces(k)[i] == ' ');
    }
}

/// Padding a coloured line counts only what it shows: whatever colour name
/// the line is given, it is padded to exactly the visible width asked for,
/// or left as it is when its text is already wider. This is what keeps
/// coloured lines aligned whatever the length of their escape sequences.
pub proof fn law_coloured_pad_reaches_width(name: Seq<char>, t: Seq<char>, colored: Seq<char>, w: nat)
    requires
        no_escape(t),
        crate::ansi::named_color_digit(name) matches Some(d) ==> colored == crate::ansi::painted(crate::ansi::fg_code(d), t),
        crate::ansi::is_random_name(name) ==> exists|seed: u64| colored == #[trigger] crate::ansi::painted_random(seed, t),
        !crate::ansi::is_defined_color(name) ==> colored == t,
    ensures
        visible_width(padded_visible(colored, w)) == if t.len() < w { w } else { t.len() },
{
    law_colour_keeps_visible_width(name, t, colored);
    if t.len() < w {
        let k = (w - t.len()) as nat;
        lemma_spaces_plain(k);
        assert(padded_visible(colored, w) == colored + spaces(k));
        match crate::ansi::named_color_digit(name) {
            Some(d) => {
                lemma_painted_then(d, t, spaces(k));
            },
            None => {
                if crate::ansi::is_random_name(name) {
                    let seed = choose|seed: u64| colored == #[trigger] crate::ansi::painted_random(seed, t);
                    let c = crate::ansi::random_codes_from(seed);
                    lemma_rgb_then(c.0, c.1, c.2, t, spaces(k));
                } else {
                    law_pad_reaches_width(t, w);
                }
            },
        }
    }
}

/// No line of `ls` is wider than `max_visible(ls)`.
proof fn lemma_max_visible_bound(ls: Seq<Seq<char>>, j: int)
    requires
        0 <= j < ls.len(),
    ensures
        visible_width(ls[j]) <= max_visible(ls),
    decreases ls.len(),
{
    if j < ls.len() - 1 {
        lemma_max_visible_bound(ls.drop_last(), j);
        assert(ls.drop_last()[j] == ls[j]);
    }
}

/// In every row of the report's grid the information column starts at the
/// same visible column, just after the banner column and the gap: the
/// banner column is always as wide as the widest banner line, whether the
/// row shows a banner line or the vertical padding above and below it.
pub proof fn law_info_column_is_aligned(
    banner: Seq<Seq<char>>,
    labels: Seq<Seq<char>>,
    contents: Seq<Seq<char>>,
    i: int,
)
    requires
        forall|k: int| 0 <= k < banner.len() ==> no_escape(#[trigger] banner[k]),
        0 <= i < total_rows(banner.len(), labels.len()),
    ensures
        exists|left: Seq<char>|
            no_escape(left) && visible_width(left) == max_visible(banner) + 5 && #[trigger] grid_row(
                banner,
                labels,
                contents,
                i,
            ) == left + if i < labels.len() {
                info_row(labels[i], contents[i], label_width(labels), content_width(contents))
            } else {
                Seq::empty()
            },
{
    let bw = max_visible(banner);
    let off = banner_offset(banner.len(), labels.len());
    let col = if off <= i && i - off < banner.len() {
        padded_visible(banner[i - off], bw)
    } else {
        spaces(bw)
    };
    if off <= i && i - off < banner.len() {
        let l = banner[i - off];
        lemma_max_visible_bound(banner, i - off);
        law_plain_text_is_visible(l);
        law_pad_reaches_width(l, bw);
        assert(no_escape(col)) by {
            assert forall|k: int| 0 <= k < col.len() implies #[trigger] col[k] != '\x1b' by {
                if k >= l.len() {
                    assert(col[k] == ' ');
                }
            }
        }
        law_plain_text_is_visible(col);
        assert(col.len() == bw);
    }
    let left = col + spaces(5);
    assert(no_escape(left)) by {
        assert forall|k: int| 0 <= k < left.len() implies #[trigger] left[k] != '\x1b' by {
            if k < col.len() {
                assert(left[k] == col[k]);
            }
        }
    }
    law_plain_text_is_visible(left);
    let right = if i < labels.len() {
        info_row(labels[i], contents[i], label_width(labels), content_width(contents))
    } else {
        Seq::<char>::empty()
    };
    assert(grid_row(banner, labels, contents, i) == left + right);
}

/// The banner is centred beside the information lines: the blank rows
/// above it and those below it differ by at most one (the extra one below),
/// and it fits in the grid.
pub proof fn law_banner_is_centred(nb: nat, ni: nat)
    ensures
        ({
            let off = banner_offset(nb, ni);
            let below = total_rows(nb, ni) - nb - off;
            &&& off + nb <= total_rows(nb, ni)
            &&& off <= below <= off + 1
        }),
{
}

} // verus!
