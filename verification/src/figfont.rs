//! FIGlet fonts (`.flf`): reading a font and rendering text with it.

use std::collections::HashMap;
use vstd::prelude::*;
use crate::text::{
    all_digits, blank, char_at, char_from_u32, chars_of, digits_end, has_prefix, is_ascii_digit,
    is_blank, is_scalar_value, is_white_space, is_whitespace, lemma_digits_end, lines, lines_from,
    find_from, lemma_find_from, split_from, split_on, parse_i32, parse_i32_of, push_char, split_lines, split_whitespace, starts_with, string_of,
    trim, trimmed, utf8_len, utf8_len_of, words,
};

verus! {

broadcast use vstd::std_specs::hash::group_hash_axioms;

/// `l` without its end marker: a trailing `@@`, or else a trailing `@`.
pub open spec fn strip_end_marker(l: Seq<char>) -> Seq<char> {
    if l.len() >= 2 && l[l.len() - 2] == '@' && l[l.len() - 1] == '@' {
        l.take(l.len() - 2)
    } else if l.len() >= 1 && l[l.len() - 1] == '@' {
        l.take(l.len() - 1)
    } else {
        l
    }
}

/// `l` with every hardblank `$` turned into a space.
pub open spec fn hardblanks_to_spaces(l: Seq<char>) -> Seq<char> {
    l.map_values(|c: char| if c == '$' { ' ' } else { c })
}

/// One line of a glyph as the font file gives it, made ready to print.
pub open spec fn process_line(l: Seq<char>) -> Seq<char> {
    hardblanks_to_spaces(strip_end_marker(l))
}

/// A processed glyph line holds no hardblank: every `$` has become a space.
pub proof fn law_no_hardblank_left(l: Seq<char>)
    ensures
        forall|i: int| 0 <= i < process_line(l).len() ==> #[trigger] process_line(l)[i] != '$',
{
}

/// The largest UTF-8 length among `ls` (0 for no lines).
pub open spec fn max_width(ls: Seq<Seq<char>>) -> nat
    decreases ls.len(),
{
    if ls.len() == 0 {
        0
    } else {
        let m = max_width(ls.drop_last());
        let w = utf8_len(ls.last());
        if w > m {
            w
        } else {
            m
        }
    }
}

/// `l` followed by spaces until its UTF-8 length reaches `m`.
pub open spec fn pad_to(l: Seq<char>, m: nat) -> Seq<char> {
    if utf8_len(l) < m {
        l + Seq::new((m - utf8_len(l)) as nat, |i: int| ' ')
    } else {
        l
    }
}

/// A glyph read from the lines `raw` of a font file: each line made ready
/// and padded with spaces to the UTF-8 length of the longest.
pub open spec fn glyph_of(raw: Seq<Seq<char>>) -> Seq<Seq<char>> {
    let ls = raw.map_values(|l: Seq<char>| process_line(l));
    ls.map_values(|l: Seq<char>| pad_to(l, max_width(ls)))
}

/// Whether `l` labels the glyph that follows it (as in `160  NO-BREAK
/// SPACE`): once trimmed, it starts with ASCII digits followed by white
/// space.
pub open spec fn is_label_line(l: Seq<char>) -> bool {
    let t = trim(l);
    let k = digits_end(t, 0);
    0 < k < t.len() && is_white_space(t[k])
}

/// The first line at or after `i` that is not blank.
pub open spec fn skip_blank(ls: Seq<Seq<char>>, i: int) -> int
    decreases ls.len() - i,
{
    if 0 <= i < ls.len() && is_blank(ls[i]) {
        skip_blank(ls, i + 1)
    } else {
        i
    }
}

pub proof fn lemma_skip_blank(ls: Seq<Seq<char>>, i: int)
    ensures
        i <= skip_blank(ls, i),
        i <= ls.len() ==> skip_blank(ls, i) <= ls.len(),
    decreases ls.len() - i,
{
    if 0 <= i < ls.len() && is_blank(ls[i]) {
        lemma_skip_blank(ls, i + 1);
    }
}

/// The key under which the glyph of character code `code` is kept: the code
/// taken modulo 2^32.
pub open spec fn glyph_key(code: int) -> u32 {
    (code % 0x1_0000_0000) as u32
}

/// The glyphs read from line `idx` on, for glyphs of `h` lines, the next
/// one for character code `code`, with `acc` read so far. A glyph whose
/// code is not a scalar value is read and dropped.
pub open spec fn glyphs_from(
    ls: Seq<Seq<char>>,
    idx: int,
    h: int,
    code: int,
    acc: Map<u32, Seq<Seq<char>>>,
) -> Map<u32, Seq<Seq<char>>>
    decreases ls.len() - idx,
{
    if h >= 1 && 0 <= idx && idx + h <= ls.len() {
        let i1 = if code > 127 && is_label_line(ls[idx]) { idx + 1 } else { idx };
        if i1 + h > ls.len() {
            acc
        } else {
            let g = glyph_of(ls.subrange(i1, i1 + h));
            let acc2 = if is_scalar_value(glyph_key(code)) {
                acc.insert(glyph_key(code), g)
            } else {
                acc
            };
            proof {
                lemma_skip_blank(ls, i1 + h);
            }
            glyphs_from(ls, skip_blank(ls, i1 + h), h, code + 1, acc2)
        }
    } else {
        acc
    }
}

/// Whether `g` has `h` lines, all of the same UTF-8 length.
pub open spec fn glyph_shaped(g: Seq<Seq<char>>, h: int) -> bool {
    &&& g.len() == h
    &&& forall|i: int, j: int| 0 <= i < h && 0 <= j < h ==> utf8_len(#[trigger] g[i]) == utf8_len(#[trigger] g[j])
}

proof fn lemma_max_width_bound(ls: Seq<Seq<char>>, i: int)
    requires
        0 <= i < ls.len(),
    ensures
        utf8_len(ls[i]) <= max_width(ls),
    decreases ls.len(),
{
    if i < ls.len() - 1 {
        lemma_max_width_bound(ls.drop_last(), i);
    }
}

proof fn lemma_utf8_len_spaces(l: Seq<char>, k: nat)
    ensures
        utf8_len(l + Seq::new(k, |i: int| ' ')) == utf8_len(l) + k,
    decreases k,
{
    if k > 0 {
        lemma_utf8_len_spaces(l, (k - 1) as nat);
        assert((l + Seq::new(k, |i: int| ' ')).drop_last() =~= l + Seq::new((k - 1) as nat, |i: int| ' '));
    } else {
        assert(l + Seq::new(k, |i: int| ' ') =~= l);
    }
}

proof fn lemma_glyph_of_shaped(raw: Seq<Seq<char>>)
    ensures
        glyph_shaped(glyph_of(raw), raw.len() as int),
{
    let ls = raw.map_values(|l: Seq<char>| process_line(l));
    let m = max_width(ls);
    let g = glyph_of(raw);
    assert forall|i: int| 0 <= i < raw.len() implies utf8_len(#[trigger] g[i]) == m by {
        lemma_max_width_bound(ls, i);
        let l = ls[i];
        if utf8_len(l) < m {
            lemma_utf8_len_spaces(l, (m - utf8_len(l)) as nat);
        }
    }
}

proof fn lemma_glyphs_from_shaped(
    ls: Seq<Seq<char>>,
    idx: int,
    h: int,
    code: int,
    acc: Map<u32, Seq<Seq<char>>>,
)
    requires
        forall|k: u32| #[trigger] acc.contains_key(k) ==> glyph_shaped(acc[k], h),
    ensures
        forall|k: u32| #[trigger] glyphs_from(ls, idx, h, code, acc).contains_key(k)
            ==> glyph_shaped(glyphs_from(ls, idx, h, code, acc)[k], h),
    decreases ls.len() - idx,
{
    if h >= 1 && 0 <= idx && idx + h <= ls.len() {
        let i1 = if code > 127 && is_label_line(ls[idx]) { idx + 1 } else { idx };
        if i1 + h <= ls.len() {
            let raw = ls.subrange(i1, i1 + h);
            lemma_glyph_of_shaped(raw);
            let g = glyph_of(raw);
            let acc2 = if is_scalar_value(glyph_key(code)) {
                acc.insert(glyph_key(code), g)
            } else {
                acc
            };
            lemma_skip_blank(ls, i1 + h);
            assert(glyphs_from(ls, idx, h, code, acc) == glyphs_from(ls, skip_blank(ls, i1 + h), h, code + 1, acc2));
            lemma_glyphs_from_shaped(ls, skip_blank(ls, i1 + h), h, code + 1, acc2);
        }
    }
}

/// Every glyph of a font read from a file has as many lines as the font is
/// high, and all its lines have the same length in bytes: the parser pads
/// them.
pub proof fn law_parsed_glyphs_are_rectangular(content: Seq<char>)
    ensures
        parse_font(content) matches Ok((glyphs, h)) ==> forall|k: u32| #[trigger] glyphs.contains_key(k)
            ==> glyph_shaped(glyphs[k], h),
{
    if let Ok((glyphs, h)) = parse_font(content) {
        let ls = lines(content);
        let c = header_values(content)[4];
        if c >= 0 {
            lemma_glyphs_from_shaped(ls, skip_blank(ls, 1 + c), h, 32, Map::empty());
        }
    }
}

/// Whether no line of `g` holds a hardblank `$`.
pub open spec fn glyph_clean(g: Seq<Seq<char>>) -> bool {
    forall|i: int, j: int| 0 <= i < g.len() && 0 <= j < g[i].len() ==> #[trigger] g[i][j] != '$'
}

proof fn lemma_glyph_of_clean(raw: Seq<Seq<char>>)
    ensures
        glyph_clean(glyph_of(raw)),
{
    let ls = raw.map_values(|l: Seq<char>| process_line(l));
    let m = max_width(ls);
    let g = glyph_of(raw);
    assert forall|i: int, j: int| 0 <= i < g.len() && 0 <= j < g[i].len() implies #[trigger] g[i][j] != '$' by {
        let l = ls[i];
        law_no_hardblank_left(raw[i]);
        if j < l.len() {
            assert(g[i][j] == l[j]);
        } else {
            assert(g[i][j] == ' ');
        }
    }
}

proof fn lemma_glyphs_from_clean(
    ls: Seq<Seq<char>>,
    idx: int,
    h: int,
    code: int,
    acc: Map<u32, Seq<Seq<char>>>,
)
    requires
        forall|k: u32| #[trigger] acc.contains_key(k) ==> glyph_clean(acc[k]),
    ensures
        forall|k: u32| #[trigger] glyphs_from(ls, idx, h, code, acc).contains_key(k)
            ==> glyph_clean(glyphs_from(ls, idx, h, code, acc)[k]),
    decreases ls.len() - idx,
{
    if h >= 1 && 0 <= idx && idx + h <= ls.len() {
        let i1 = if code > 127 && is_label_line(ls[idx]) { idx + 1 } else { idx };
        if i1 + h <= ls.len() {
            let raw = ls.subrange(i1, i1 + h);
            lemma_glyph_of_clean(raw);
            let g = glyph_of(raw);
            let acc2 = if is_scalar_value(glyph_key(code)) {
                acc.insert(glyph_key(code), g)
            } else {
                acc
            };
            lemma_skip_blank(ls, i1 + h);
            assert(glyphs_from(ls, idx, h, code, acc) == glyphs_from(ls, skip_blank(ls, i1 + h), h, code + 1, acc2));
            lemma_glyphs_from_clean(ls, skip_blank(ls, i1 + h), h, code + 1, acc2);
        }
    }
}

/// No glyph line of a font read from a file holds a hardblank: every `$`
/// has become a space.
pub proof fn law_parsed_glyphs_hold_no_hardblank(content: Seq<char>)
    ensures
        parse_font(content) matches Ok((glyphs, h)) ==> forall|k: u32| #[trigger] glyphs.contains_key(k)
            ==> glyph_clean(glyphs[k]),
{
    if let Ok((glyphs, h)) = parse_font(content) {
        let ls = lines(content);
        let c = header_values(content)[4];
        if c >= 0 {
            lemma_glyphs_from_clean(ls, skip_blank(ls, 1 + c), h, 32, Map::empty());
        }
    }
}

/// Whether the keys of `m` are exactly the Unicode scalar values from the
/// space (32) up to, not including, `end`.
pub open spec fn keys_from_space(m: Map<u32, Seq<Seq<char>>>, end: int) -> bool {
    &&& forall|k: u32| #[trigger] m.contains_key(k) ==> 32 <= k < end && is_scalar_value(k)
    &&& forall|k: u32| 32 <= k < end && is_scalar_value(k) ==> #[trigger] m.contains_key(k)
}

/// The number of glyph blocks read from line `idx` on, for glyphs of `h`
/// lines, the next one for character code `code` (as `glyphs_from` reads
/// them).
pub open spec fn blocks_from(ls: Seq<Seq<char>>, idx: int, h: int, code: int) -> nat
    decreases ls.len() - idx,
{
    if h >= 1 && 0 <= idx && idx + h <= ls.len() {
        let i1 = if code > 127 && is_label_line(ls[idx]) { idx + 1 } else { idx };
        if i1 + h > ls.len() {
            0
        } else {
            proof {
                lemma_skip_blank(ls, i1 + h);
            }
            1 + blocks_from(ls, skip_blank(ls, i1 + h), h, code + 1)
        }
    } else {
        0
    }
}

/// The number of glyph blocks that the parser reads from a font file.
pub open spec fn glyph_blocks(content: Seq<char>) -> nat {
    let ls = lines(content);
    let h = header_values(content)[0];
    let c = header_values(content)[4];
    if header_ok(content) && h != 0 && c >= 0 {
        blocks_from(ls, skip_blank(ls, 1 + c), h, 32)
    } else {
        0
    }
}

proof fn lemma_glyphs_from_keys(
    ls: Seq<Seq<char>>,
    idx: int,
    h: int,
    code: int,
    acc: Map<u32, Seq<Seq<char>>>,
)
    requires
        0 <= idx,
        32 <= code,
        code + blocks_from(ls, idx, h, code) <= 0x1_0000_0000,
        keys_from_space(acc, code),
    ensures
        exists|end: int| code <= end && #[trigger] keys_from_space(glyphs_from(ls, idx, h, code, acc), end),
    decreases ls.len() - idx,
{
    if h >= 1 && idx + h <= ls.len() {
        let i1 = if code > 127 && is_label_line(ls[idx]) { idx + 1 } else { idx };
        if i1 + h <= ls.len() {
            let raw = ls.subrange(i1, i1 + h);
            let g = glyph_of(raw);
            assert(glyph_key(code) == code);
            let acc2 = if is_scalar_value(glyph_key(code)) {
                acc.insert(glyph_key(code), g)
            } else {
                acc
            };
            assert(keys_from_space(acc2, code + 1)) by {
                assert forall|k: u32| 32 <= k < code + 1 && is_scalar_value(k) implies #[trigger] acc2.contains_key(k) by {
                    if k < code {
                        assert(acc.contains_key(k));
                    }
                }
            }
            lemma_skip_blank(ls, i1 + h);
            assert(glyphs_from(ls, idx, h, code, acc) == glyphs_from(ls, skip_blank(ls, i1 + h), h, code + 1, acc2));
            lemma_glyphs_from_keys(ls, skip_blank(ls, i1 + h), h, code + 1, acc2);
        } else {
            assert(keys_from_space(glyphs_from(ls, idx, h, code, acc), code));
        }
    } else {
        assert(keys_from_space(glyphs_from(ls, idx, h, code, acc), code));
    }
}

/// The glyphs of a font read from a file are kept under consecutive
/// character codes from the space on, one per glyph block in file order,
/// the surrogate codes (which are no characters) left out: the keys are
/// exactly the scalar values from 32 up to some code. (Stated for fonts of
/// at most 2^32 - 32 glyph blocks, past which the character codes wrap.)
pub proof fn law_glyph_keys_run_from_space(content: Seq<char>)
    requires
        32 + glyph_blocks(content) <= 0x1_0000_0000,
    ensures
        parse_font(content) matches Ok((glyphs, h)) ==> exists|end: int| 32 <= end && #[trigger] keys_from_space(glyphs, end),
{
    if let Ok((glyphs, h)) = parse_font(content) {
        let ls = lines(content);
        let c = header_values(content)[4];
        if c >= 0 {
            lemma_skip_blank(ls, 1 + c);
            assert(keys_from_space(Map::<u32, Seq<Seq<char>>>::empty(), 32));
            lemma_glyphs_from_keys(ls, skip_blank(ls, 1 + c), h, 32, Map::empty());
        } else {
            assert(keys_from_space(glyphs, 32));
        }
    }
}

/// What a font read from a file is like, on every header the parser
/// accepts: its height is the header's first number and at least 1; every
/// glyph has as many rows as the font is high, all of one length in bytes,
/// none holding a hardblank `$`; and the glyphs are kept under the scalar
/// values from the space (32) on, one per glyph block in file order, up to
/// some code (for fonts of at most 2^32 - 32 glyph blocks, past which the
/// character codes wrap).
pub proof fn law_parsed_font_is_well_formed(content: Seq<char>)
    requires
        font_header_in_range(content),
    ensures
        parse_font(content) matches Ok((glyphs, h)) ==> {
            &&& h >= 1
            &&& h == header_values(content)[0]
            &&& forall|k: u32| #[trigger] glyphs.contains_key(k) ==> glyph_shaped(glyphs[k], h) && glyph_clean(glyphs[k])
            &&& 32 + glyph_blocks(content) <= 0x1_0000_0000 ==> exists|end: int| 32 <= end && #[trigger] keys_from_space(glyphs, end)
        },
{
    law_parsed_glyphs_are_rectangular(content);
    law_parsed_glyphs_hold_no_hardblank(content);
    if 32 + glyph_blocks(content) <= 0x1_0000_0000 {
        law_glyph_keys_run_from_space(content);
    }
}

/// The numbers among `ws`, in order (the words that read as an `i32`).
pub open spec fn parsed_ints(ws: Seq<Seq<char>>) -> Seq<int>
    decreases ws.len(),
{
    if ws.len() == 0 {
        Seq::empty()
    } else {
        parsed_ints(ws.drop_last()) + match parse_i32(ws.last()) {
            Some(v) => seq![v],
            None => Seq::empty(),
        }
    }
}

/// The numbers of the header line of a font.
pub open spec fn header_values(content: Seq<char>) -> Seq<int> {
    parsed_ints(words(lines(content)[0]))
}

/// Whether the header of a font is well formed: a first word that starts
/// with `flf2`, and at least six numbers.
pub open spec fn header_ok(content: Seq<char>) -> bool {
    let ls = lines(content);
    &&& ls.len() > 0
    &&& words(ls[0]).len() > 0
    &&& starts_with(words(ls[0])[0], seq!['f', 'l', 'f', '2'])
    &&& header_values(content).len() >= 6
}

/// Whether the height and the comment count of a well-formed header can be
/// used as counts: the height is 0 (which is refused before any count is
/// used), or it is not negative and a negative comment count is small
/// enough that the first glyph line, one past the comments, and the end of
/// the first glyph do not pass the largest index.
pub open spec fn font_header_in_range(content: Seq<char>) -> bool {
    header_ok(content) ==> {
        let h = header_values(content)[0];
        let c = header_values(content)[4];
        ||| h == 0
        ||| (h >= 0 && (c < 0 ==> h + c + 1 < 0))
    }
}

/// A font read from `content`: its glyphs by character code and its height,
/// or the error message.
pub open spec fn parse_font(content: Seq<char>) -> Result<(Map<u32, Seq<Seq<char>>>, int), Seq<char>> {
    let ls = lines(content);
    if ls.len() == 0 {
        Err("Empty font file"@)
    } else if words(ls[0]).len() == 0 || !starts_with(words(ls[0])[0], seq!['f', 'l', 'f', '2']) {
        Err("Invalid FIGfont header"@)
    } else if header_values(content).len() < 6 {
        Err("Invalid FIGfont header values"@)
    } else if header_values(content)[0] == 0 {
        Err("Invalid font height"@)
    } else {
        let h = header_values(content)[0];
        let c = header_values(content)[4];
        if c < 0 {
            Ok((Map::empty(), h))
        } else {
            Ok((glyphs_from(ls, skip_blank(ls, 1 + c), h, 32, Map::empty()), h))
        }
    }
}

/// The texts of a sequence of strings.
pub open spec fn strings_model(v: Seq<String>) -> Seq<Seq<char>> {
    v.map_values(|s: String| s@)
}

/// The texts of a sequence of character vectors.
pub open spec fn rows_model(v: Seq<Vec<char>>) -> Seq<Seq<char>> {
    v.map_values(|w: Vec<char>| w@)
}

/// Removes the end marker of a glyph line and turns hardblanks into spaces.
pub fn process_char_line(line: &str) -> (r: String)
    ensures
        r@ == process_line(line@),
{
    let v = chars_of(line);
    let p = process_chars(v.as_slice());
    string_of(p.as_slice())
}

fn process_chars(line: &[char]) -> (r: Vec<char>)
    ensures
        r@ == process_line(line@),
{
    let n = line.len();
    let end: usize = if n >= 2 && line[n - 2] == '@' && line[n - 1] == '@' {
        n - 2
    } else if n >= 1 && line[n - 1] == '@' {
        n - 1
    } else {
        n
    };
    let ghost stripped = strip_end_marker(line@);
    assert(stripped =~= line@.take(end as int));
    let mut r: Vec<char> = Vec::new();
    let mut i: usize = 0;
    while i < end
        invariant
            i <= end <= n == line.len(),
            r@ =~= hardblanks_to_spaces(line@.take(i as int)),
        decreases end - i,
    {
        let c = line[i];
        if c == '$' {
            r.push(' ');
        } else {
            r.push(c);
        }
        i = i + 1;
        assert(r@ =~= hardblanks_to_spaces(line@.take(i as int)));
    }
    r
}

/// Whether `line` is a label line, as `is_label_line` says.
fn is_label(line: &[char]) -> (r: bool)
    ensures
        r == is_label_line(line@),
{
    let t = trimmed(line);
    if t.len() == 0 {
        return false;
    }
    let mut k: usize = 0;
    proof {
        lemma_digits_end(t@, 0);
    }
    while k < t.len() && is_ascii_digit(t[k])
        invariant
            k <= t.len(),
            digits_end(t@, k as int) == digits_end(t@, 0),
        decreases t.len() - k,
    {
        k = k + 1;
    }
    k > 0 && k < t.len() && is_whitespace(t[k])
}

proof fn lemma_max_width_step(ls: Seq<Seq<char>>, i: int)
    requires
        0 <= i < ls.len(),
    ensures
        max_width(ls.take(i + 1)) == if utf8_len(ls[i]) > max_width(ls.take(i)) {
            utf8_len(ls[i])
        } else {
            max_width(ls.take(i))
        },
{
    assert(ls.take(i + 1).drop_last() =~= ls.take(i));
}

/// Appends spaces to `l` until its UTF-8 length reaches `m`.
fn pad_chars(l: &mut Vec<char>, m: u128)
    ensures
        final(l)@ == pad_to(old(l)@, m as nat),
{
    let mut n = utf8_len_of(l.as_slice());
    let ghost l0 = l@;
    let ghost w0 = n;
    while n < m
        invariant
            w0 == utf8_len(l0),
            n == utf8_len(l@),
            w0 <= n,
            n <= m || n == w0,
            l@ =~= l0 + Seq::new((n - w0) as nat, |i: int| ' '),
        decreases m - n,
    {
        let ghost before = l@;
        l.push(' ');
        assert(l@.drop_last() =~= before);
        n = n + 1;
        assert(l@ =~= l0 + Seq::new((n - w0) as nat, |i: int| ' '));
    }
    proof {
        if !(w0 < m) {
            assert(l@ =~= l0);
        }
    }
}

/// The glyph whose lines in the font file are `ls[start..start + h]`.
fn read_glyph(ls: &Vec<Vec<char>>, start: usize, h: usize) -> (g: Vec<String>)
    requires
        start + h <= ls.len(),
    ensures
        strings_model(g@) == glyph_of(rows_model(ls@).subrange(start as int, start + h)),
        g.len() == h,
{
    let ghost raw = rows_model(ls@).subrange(start as int, start + h);
    let ghost processed_model = raw.map_values(|l: Seq<char>| process_line(l));
    let mut processed: Vec<Vec<char>> = Vec::new();
    let mut m: u128 = 0;
    let mut i: usize = 0;
    while i < h
        invariant
            start + h <= ls.len(),
            i <= h,
            raw == rows_model(ls@).subrange(start as int, start + h),
            processed_model == raw.map_values(|l: Seq<char>| process_line(l)),
            rows_model(processed@) =~= processed_model.take(i as int),
            m == max_width(processed_model.take(i as int)),
        decreases h - i,
    {
        let p = process_chars(ls[start + i].as_slice());
        let w = utf8_len_of(p.as_slice());
        proof {
            lemma_max_width_step(processed_model, i as int);
        }
        if w > m {
            m = w;
        }
        processed.push(p);
        i = i + 1;
    }
    assert(processed_model.take(h as int) =~= processed_model);
    let mut g: Vec<String> = Vec::new();
    let mut j: usize = 0;
    while j < h
        invariant
            j <= h == processed.len(),
            rows_model(processed@) == processed_model,
            m == max_width(processed_model),
            processed_model.len() == h,
            strings_model(g@) =~= processed_model.map_values(|l: Seq<char>| pad_to(l, m as nat)).take(j as int),
        decreases h - j,
    {
        let mut p = processed[j].clone();
        assert(p@ == processed_model[j as int]);
        pad_chars(&mut p, m);
        let ghost before = strings_model(g@);
        g.push(string_of(p.as_slice()));
        assert(strings_model(g@) =~= before.push(pad_to(processed_model[j as int], m as nat)));
        j = j + 1;
    }
    assert(processed_model.map_values(|l: Seq<char>| pad_to(l, m as nat)).take(h as int) =~= processed_model.map_values(|l: Seq<char>| pad_to(l, m as nat)));
    g
}

/// The numbers among `ws`, as `parsed_ints` says.
fn ints_of(ws: &Vec<Vec<char>>) -> (r: Vec<i32>)
    ensures
        r@.map_values(|v: i32| v as int) == parsed_ints(rows_model(ws@)),
{
    let mut r: Vec<i32> = Vec::new();
    let mut i: usize = 0;
    while i < ws.len()
        invariant
            i <= ws.len(),
            r@.map_values(|v: i32| v as int) =~= parsed_ints(rows_model(ws@).take(i as int)),
        decreases ws.len() - i,
    {
        let ghost before = r@.map_values(|v: i32| v as int);
        assert(rows_model(ws@).take(i + 1).drop_last() =~= rows_model(ws@).take(i as int));
        match parse_i32_of(ws[i].as_slice()) {
            Some(v) => {
                r.push(v);
                assert(r@.map_values(|v: i32| v as int) =~= before.push(v as int));
            },
            None => {},
        }
        i = i + 1;
    }
    assert(rows_model(ws@).take(ws.len() as int) =~= rows_model(ws@));
    r
}

/// The header of a font: its numbers when it is well formed.
fn read_header(ls: &Vec<Vec<char>>) -> (r: Option<Vec<i32>>)
    requires
        ls.len() > 0,
    ensures
        ({
            let content_lines = rows_model(ls@);
            let ws = words(content_lines[0]);
            match r {
                Some(vals) => ws.len() > 0 && starts_with(ws[0], seq!['f', 'l', 'f', '2'])
                    && vals@.map_values(|v: i32| v as int) == parsed_ints(ws),
                None => ws.len() == 0 || !starts_with(ws[0], seq!['f', 'l', 'f', '2']),
            }
        }),
{
    let parts = split_whitespace(ls[0].as_slice());
    assert(rows_model(parts@) =~= parts@.map_values(|w: Vec<char>| w@));
    if parts.len() == 0 {
        return None;
    }
    let flf2 = vec!['f', 'l', 'f', '2'];
    assert(flf2@ =~= seq!['f', 'l', 'f', '2']);
    if !has_prefix(parts[0].as_slice(), flf2.as_slice()) {
        return None;
    }
    Some(ints_of(&parts))
}

/// The glyph that renders `c`: its own, else the space's, else none.
pub open spec fn glyph_for(glyphs: Map<u32, Seq<Seq<char>>>, c: char) -> Option<Seq<Seq<char>>> {
    if glyphs.contains_key(c as u32) {
        Some(glyphs[c as u32])
    } else if glyphs.contains_key(32) {
        Some(glyphs[32])
    } else {
        None
    }
}

/// Row `i` of `text` rendered with `glyphs`: row `i` of each character's
/// glyph, side by side.
pub open spec fn rendered_row(glyphs: Map<u32, Seq<Seq<char>>>, text: Seq<char>, i: int) -> Seq<char>
    decreases text.len(),
{
    if text.len() == 0 {
        Seq::empty()
    } else {
        rendered_row(glyphs, text.drop_last(), i) + match glyph_for(glyphs, text.last()) {
            Some(g) => g[i],
            None => Seq::empty(),
        }
    }
}

/// The lines `ls` joined with `\n` between them.
pub open spec fn join_lines(ls: Seq<Seq<char>>) -> Seq<char>
    decreases ls.len(),
{
    if ls.len() == 0 {
        Seq::empty()
    } else if ls.len() == 1 {
        ls[0]
    } else {
        join_lines(ls.drop_last()) + seq!['\n'] + ls.last()
    }
}

/// `text` rendered with a font of height `h` whose glyphs are `glyphs`:
/// its `h` rows joined with `\n`.
pub open spec fn rendered(glyphs: Map<u32, Seq<Seq<char>>>, h: nat, text: Seq<char>) -> Seq<char> {
    join_lines(Seq::new(h, |i: int| rendered_row(glyphs, text, i)))
}

/// Row `i` of a concatenation is row `i` of each part, side by side.
pub proof fn lemma_rendered_row_concat(glyphs: Map<u32, Seq<Seq<char>>>, a: Seq<char>, b: Seq<char>, i: int)
    ensures
        rendered_row(glyphs, a + b, i) == rendered_row(glyphs, a, i) + rendered_row(glyphs, b, i),
    decreases b.len(),
{
    if b.len() == 0 {
        assert(a + b =~= a);
        assert(rendered_row(glyphs, a, i) + Seq::<char>::empty() =~= rendered_row(glyphs, a, i));
    } else {
        assert((a + b).drop_last() =~= a + b.drop_last());
        assert((a + b).last() == b.last());
        lemma_rendered_row_concat(glyphs, a, b.drop_last(), i);
        let tail = match glyph_for(glyphs, b.last()) {
            Some(g) => g[i],
            None => Seq::<char>::empty(),
        };
        assert(rendered_row(glyphs, a, i) + rendered_row(glyphs, b.drop_last(), i) + tail
            =~= rendered_row(glyphs, a, i) + (rendered_row(glyphs, b.drop_last(), i) + tail));
    }
}

/// Rendering is done character by character: each row of a rendered
/// concatenation is that row of the first part followed by that row of the
/// second, and the empty text renders as `h` empty rows.
pub proof fn law_rendering_concatenates_rows(glyphs: Map<u32, Seq<Seq<char>>>, h: nat, a: Seq<char>, b: Seq<char>)
    ensures
        rendered(glyphs, h, a + b) == join_lines(
            Seq::new(h, |i: int| rendered_row(glyphs, a, i) + rendered_row(glyphs, b, i)),
        ),
        rendered(glyphs, h, Seq::empty()) == join_lines(Seq::new(h, |i: int| Seq::<char>::empty())),
{
    assert forall|i: int| 0 <= i < h implies #[trigger] rendered_row(glyphs, a + b, i)
        == rendered_row(glyphs, a, i) + rendered_row(glyphs, b, i) by {
        lemma_rendered_row_concat(glyphs, a, b, i);
    }
    assert(Seq::new(h, |i: int| rendered_row(glyphs, a + b, i)) =~= Seq::new(
        h,
        |i: int| rendered_row(glyphs, a, i) + rendered_row(glyphs, b, i),
    ));
    assert(Seq::new(h, |i: int| rendered_row(glyphs, Seq::<char>::empty(), i)) =~= Seq::new(
        h,
        |i: int| Seq::<char>::empty(),
    ));
}

/// `find_from` is the first position from `p` on that holds `c`, or the end.
proof fn lemma_find_from_is(s: Seq<char>, c: char, p: int, k: int)
    requires
        0 <= p <= k <= s.len(),
        forall|i: int| p <= i < k ==> #[trigger] s[i] != c,
        k < s.len() ==> s[k] == c,
    ensures
        find_from(s, c, p) == k,
{
    lemma_find_from(s, c, p);
    let f = find_from(s, c, p);
    if f < k {
        assert(s[f] != c);
    } else if f > k {
        assert(s[k] != c);
    }
}

/// Splitting after a prefix is splitting what follows it.
proof fn lemma_split_shift(pre: Seq<char>, y: Seq<char>, c: char, q: int)
    requires
        0 <= q <= y.len(),
    ensures
        split_from(pre + y, c, pre.len() + q) == split_from(y, c, q),
    decreases y.len() - q,
{
    let s = pre + y;
    let p = pre.len() + q;
    lemma_find_from(y, c, q);
    let j = find_from(y, c, q);
    assert forall|i: int| p <= i < pre.len() + j implies #[trigger] s[i] != c by {
        assert(s[i] == y[i - pre.len()]);
    }
    if j < y.len() {
        assert(s[pre.len() + j] == y[j]);
    }
    lemma_find_from_is(s, c, p, pre.len() + j);
    if j < y.len() {
        assert(s.subrange(p, pre.len() + j) =~= y.subrange(q, j));
        lemma_split_shift(pre, y, c, j + 1);
    } else {
        assert(s.subrange(p, s.len() as int) =~= y.subrange(q, y.len() as int));
    }
}

/// Joined lines, read from the front: the first line, a line break, and the
/// others joined.
proof fn lemma_join_lines_front(ls: Seq<Seq<char>>)
    requires
        ls.len() >= 2,
    ensures
        join_lines(ls) == ls[0] + seq!['\n'] + join_lines(ls.drop_first()),
    decreases ls.len(),
{
    if ls.len() == 2 {
        assert(ls.drop_last() =~= seq![ls[0]]);
        assert(ls.drop_first() =~= seq![ls[1]]);
        assert(join_lines(ls.drop_last()) == ls[0]);
        assert(join_lines(ls.drop_first()) == ls[1]);
        assert(ls.last() == ls[1]);
    } else {
        lemma_join_lines_front(ls.drop_last());
        let mid = ls.drop_first().drop_last();
        assert(ls.drop_last().drop_first() =~= mid);
        assert(ls.drop_first().last() == ls.last());
        assert(ls.drop_last()[0] == ls[0]);
        assert(join_lines(ls) == join_lines(ls.drop_last()) + seq!['\n'] + ls.last());
        assert(join_lines(ls.drop_last()) == ls[0] + seq!['\n'] + join_lines(mid));
        assert(join_lines(ls.drop_first()) == join_lines(mid) + seq!['\n'] + ls.last());
        assert(ls[0] + seq!['\n'] + join_lines(mid) + seq!['\n'] + ls.last()
            =~= ls[0] + seq!['\n'] + (join_lines(mid) + seq!['\n'] + ls.last()));
    }
}

/// Lines without line breaks, joined with `\n`, split at `\n` give back
/// the lines.
proof fn lemma_split_join(ls: Seq<Seq<char>>)
    requires
        ls.len() >= 1,
        forall|i: int| 0 <= i < ls.len() ==> no_newline(#[trigger] ls[i]),
    ensures
        split_on(join_lines(ls), '\n') == ls,
    decreases ls.len(),
{
    let s = join_lines(ls);
    let l0 = ls[0];
    assert(no_newline(l0));
    if ls.len() == 1 {
        lemma_find_from_is(s, '\n', 0, l0.len() as int);
        assert(s.subrange(0, s.len() as int) =~= l0);
        assert(split_on(s, '\n') =~= ls);
    } else {
        lemma_join_lines_front(ls);
        let rest = join_lines(ls.drop_first());
        let pre = l0 + seq!['\n'];
        assert(s == pre + rest);
        assert forall|i: int| 0 <= i < l0.len() implies #[trigger] s[i] != '\n' by {
            assert(s[i] == l0[i]);
        }
        assert(s[l0.len() as int] == '\n');
        lemma_find_from_is(s, '\n', 0, l0.len() as int);
        assert(s.subrange(0, l0.len() as int) =~= l0);
        lemma_split_shift(pre, rest, '\n', 0);
        assert(pre.len() + 0 == l0.len() + 1);
        assert forall|i: int| 0 <= i < ls.drop_first().len() implies no_newline(#[trigger] ls.drop_first()[i]) by {
            assert(ls.drop_first()[i] == ls[i + 1]);
        }
        lemma_split_join(ls.drop_first());
        assert(split_on(s, '\n') =~= seq![l0] + ls.drop_first());
        assert(seq![l0] + ls.drop_first() =~= ls);
    }
}

/// The rows of `text` rendered with a font read from a file hold no line
/// break.
proof fn lemma_parsed_rows_no_newline(content: Seq<char>, text: Seq<char>, i: int)
    requires
        parse_font(content) matches Ok((glyphs, h)) && h > 0 && 0 <= i < h,
    ensures
        parse_font(content) matches Ok((glyphs, h)) && no_newline(rendered_row(glyphs, text, i)),
{
    if let Ok((glyphs, h)) = parse_font(content) {
        let ls = lines(content);
        lemma_lines_from_no_newline(content, 0);
        law_parsed_glyphs_are_rectangular(content);
        let c = header_values(content)[4];
        if c >= 0 {
            lemma_glyphs_from_no_newline(ls, skip_blank(ls, 1 + c), h, 32, Map::empty());
        }
        assert forall|k: u32| #[trigger] glyphs.contains_key(k) implies i < glyphs[k].len() by {
            assert(glyph_shaped(glyphs[k], h));
        }
        lemma_row_no_newline(glyphs, text, i);
    }
}

/// Text rendered with a font read from a file, split at its line breaks,
/// gives the font's `h` rows; rendering a concatenation gives, row by row,
/// the rows of its parts side by side; and the empty text gives `h` empty
/// rows.
pub proof fn law_converted_rows_concatenate(content: Seq<char>, a: Seq<char>, b: Seq<char>)
    ensures
        parse_font(content) matches Ok((glyphs, h)) ==> h > 0 ==> {
            &&& split_on(rendered(glyphs, h as nat, a + b), '\n').len() == h
            &&& forall|i: int| 0 <= i < h ==> #[trigger] split_on(rendered(glyphs, h as nat, a + b), '\n')[i]
                == split_on(rendered(glyphs, h as nat, a), '\n')[i] + split_on(rendered(glyphs, h as nat, b), '\n')[i]
            &&& split_on(rendered(glyphs, h as nat, Seq::empty()), '\n') == Seq::new(h as nat, |i: int| Seq::<char>::empty())
        },
{
    if let Ok((glyphs, h)) = parse_font(content) {
        if h > 0 {
            let hn = h as nat;
            assert forall|t: Seq<char>| true implies #[trigger] split_on(rendered(glyphs, hn, t), '\n')
                == Seq::new(hn, |i: int| rendered_row(glyphs, t, i)) by {
                let rows = Seq::new(hn, |i: int| rendered_row(glyphs, t, i));
                assert forall|i: int| 0 <= i < rows.len() implies no_newline(#[trigger] rows[i]) by {
                    lemma_parsed_rows_no_newline(content, t, i);
                }
                lemma_split_join(rows);
            }
            assert forall|i: int| 0 <= i < h implies #[trigger] split_on(rendered(glyphs, hn, a + b), '\n')[i]
                == split_on(rendered(glyphs, hn, a), '\n')[i] + split_on(rendered(glyphs, hn, b), '\n')[i] by {
                assert(split_on(rendered(glyphs, hn, a + b), '\n') == Seq::new(hn, |j: int| rendered_row(glyphs, a + b, j)));
                assert(split_on(rendered(glyphs, hn, a), '\n') == Seq::new(hn, |j: int| rendered_row(glyphs, a, j)));
                assert(split_on(rendered(glyphs, hn, b), '\n') == Seq::new(hn, |j: int| rendered_row(glyphs, b, j)));
                lemma_rendered_row_concat(glyphs, a, b, i);
            }
            assert(split_on(rendered(glyphs, hn, a + b), '\n') == Seq::new(hn, |j: int| rendered_row(glyphs, a + b, j)));
            assert(split_on(rendered(glyphs, hn, Seq::empty()), '\n') == Seq::new(hn, |j: int| rendered_row(glyphs, Seq::<char>::empty(), j)));
            assert(Seq::new(hn, |j: int| rendered_row(glyphs, Seq::<char>::empty(), j)) =~= Seq::new(hn, |i: int| Seq::<char>::empty()));
        }
    }
}

/// Whether `l` holds no line break.
pub open spec fn no_newline(l: Seq<char>) -> bool {
    forall|i: int| 0 <= i < l.len() ==> #[trigger] l[i] != '\n'
}

/// The number of line breaks in `s`.
pub open spec fn newline_count(s: Seq<char>) -> nat
    decreases s.len(),
{
    if s.len() == 0 {
        0
    } else {
        newline_count(s.drop_last()) + if s.last() == '\n' { 1nat } else { 0nat }
    }
}

proof fn lemma_newline_count_concat(a: Seq<char>, b: Seq<char>)
    ensures
        newline_count(a + b) == newline_count(a) + newline_count(b),
    decreases b.len(),
{
    if b.len() > 0 {
        lemma_newline_count_concat(a, b.drop_last());
        assert((a + b).drop_last() =~= a + b.drop_last());
    } else {
        assert(a + b =~= a);
    }
}

proof fn lemma_no_newline_count(a: Seq<char>)
    requires
        no_newline(a),
    ensures
        newline_count(a) == 0,
    decreases a.len(),
{
    if a.len() > 0 {
        lemma_no_newline_count(a.drop_last());
    }
}

proof fn lemma_join_lines_count(ls: Seq<Seq<char>>)
    requires
        ls.len() > 0,
        forall|i: int| 0 <= i < ls.len() ==> no_newline(#[trigger] ls[i]),
    ensures
        newline_count(join_lines(ls)) == ls.len() - 1,
    decreases ls.len(),
{
    if ls.len() == 1 {
        lemma_no_newline_count(ls[0]);
    } else {
        lemma_join_lines_count(ls.drop_last());
        let j = join_lines(ls.drop_last());
        lemma_newline_count_concat(j, seq!['\n']);
        lemma_newline_count_concat(j + seq!['\n'], ls.last());
        lemma_no_newline_count(ls.last());
        assert(newline_count(seq!['\n']) == 1) by {
            let nl = seq!['\n'];
            assert(nl.drop_last() =~= Seq::<char>::empty());
            assert(newline_count(Seq::<char>::empty()) == 0);
            assert(nl.last() == '\n');
            assert(nl.len() == 1);
        }
    }
}

proof fn lemma_lines_from_no_newline(s: Seq<char>, p: int)
    ensures
        forall|i: int| 0 <= i < lines_from(s, p).len() ==> no_newline(#[trigger] lines_from(s, p)[i]),
    decreases s.len() - p,
{
    if 0 <= p < s.len() {
        crate::text::lemma_find_from(s, '\n', p);
        let j = crate::text::find_from(s, '\n', p);
        let raw = s.subrange(p, j);
        assert(no_newline(raw));
        if j < s.len() {
            lemma_lines_from_no_newline(s, j + 1);
            let l = crate::text::strip_cr(raw);
            assert(no_newline(l));
            let all = seq![l] + lines_from(s, j + 1);
            assert forall|i: int| 0 <= i < all.len() implies no_newline(#[trigger] all[i]) by {
                if i > 0 {
                    assert(all[i] == lines_from(s, j + 1)[i - 1]);
                }
            }
        }
    }
}

proof fn lemma_glyph_of_no_newline(raw: Seq<Seq<char>>)
    requires
        forall|i: int| 0 <= i < raw.len() ==> no_newline(#[trigger] raw[i]),
    ensures
        forall|i: int| 0 <= i < glyph_of(raw).len() ==> no_newline(#[trigger] glyph_of(raw)[i]),
{
    let ls = raw.map_values(|l: Seq<char>| process_line(l));
    let m = max_width(ls);
    assert forall|i: int| 0 <= i < glyph_of(raw).len() implies no_newline(#[trigger] glyph_of(raw)[i]) by {
        let l = raw[i];
        assert(no_newline(l));
        let p = process_line(l);
        assert forall|k: int| 0 <= k < p.len() implies #[trigger] p[k] != '\n' by {
            assert(p[k] == (if strip_end_marker(l)[k] == '$' { ' ' } else { strip_end_marker(l)[k] }));
            assert(strip_end_marker(l)[k] == l[k]);
        }
        let g = pad_to(p, m);
        assert forall|k: int| 0 <= k < g.len() implies #[trigger] g[k] != '\n' by {
            if k >= p.len() {
                assert(g[k] == ' ');
            }
        }
    }
}

proof fn lemma_glyphs_from_no_newline(
    ls: Seq<Seq<char>>,
    idx: int,
    h: int,
    code: int,
    acc: Map<u32, Seq<Seq<char>>>,
)
    requires
        forall|i: int| 0 <= i < ls.len() ==> no_newline(#[trigger] ls[i]),
        forall|k: u32, i: int| #[trigger] acc.contains_key(k) && 0 <= i < acc[k].len() ==> no_newline(#[trigger] acc[k][i]),
    ensures
        forall|k: u32, i: int| #[trigger] glyphs_from(ls, idx, h, code, acc).contains_key(k) && 0 <= i < glyphs_from(ls, idx, h, code, acc)[k].len()
            ==> no_newline(#[trigger] glyphs_from(ls, idx, h, code, acc)[k][i]),
    decreases ls.len() - idx,
{
    if h >= 1 && 0 <= idx && idx + h <= ls.len() {
        let i1 = if code > 127 && is_label_line(ls[idx]) { idx + 1 } else { idx };
        if i1 + h <= ls.len() {
            let raw = ls.subrange(i1, i1 + h);
            assert forall|i: int| 0 <= i < raw.len() implies no_newline(#[trigger] raw[i]) by {
                assert(raw[i] == ls[i1 + i]);
            }
            lemma_glyph_of_no_newline(raw);
            let g = glyph_of(raw);
            let acc2 = if is_scalar_value(glyph_key(code)) {
                acc.insert(glyph_key(code), g)
            } else {
                acc
            };
            lemma_skip_blank(ls, i1 + h);
            assert(glyphs_from(ls, idx, h, code, acc) == glyphs_from(ls, skip_blank(ls, i1 + h), h, code + 1, acc2));
            lemma_glyphs_from_no_newline(ls, skip_blank(ls, i1 + h), h, code + 1, acc2);
        }
    }
}

proof fn lemma_row_no_newline(glyphs: Map<u32, Seq<Seq<char>>>, text: Seq<char>, i: int)
    requires
        forall|k: u32, m: int| #[trigger] glyphs.contains_key(k) && 0 <= m < glyphs[k].len() ==> no_newline(#[trigger] glyphs[k][m]),
        forall|k: u32| #[trigger] glyphs.contains_key(k) ==> i < glyphs[k].len(),
        0 <= i,
    ensures
        no_newline(rendered_row(glyphs, text, i)),
    decreases text.len(),
{
    if text.len() > 0 {
        lemma_row_no_newline(glyphs, text.drop_last(), i);
        let a = rendered_row(glyphs, text.drop_last(), i);
        let b = match glyph_for(glyphs, text.last()) {
            Some(g) => g[i],
            None => Seq::empty(),
        };
        match glyph_for(glyphs, text.last()) {
            Some(g) => {
                if glyphs.contains_key(text.last() as u32) {
                    assert(no_newline(glyphs[text.last() as u32][i]));
                } else {
                    assert(no_newline(glyphs[32u32][i]));
                }
            },
            None => {},
        }
        assert forall|k: int| 0 <= k < (a + b).len() implies #[trigger] (a + b)[k] != '\n' by {
            if k >= a.len() {
                assert((a + b)[k] == b[k - a.len()]);
            }
        }
    }
}

/// Text rendered with a font read from a file has exactly as many lines as
/// the font is high: the glyph lines hold no line break, so the rows are
/// joined by `height - 1` of them.
pub proof fn law_rendering_has_font_height(content: Seq<char>, text: Seq<char>)
    ensures
        parse_font(content) matches Ok((glyphs, h)) ==> h > 0 ==> newline_count(
            rendered(glyphs, h as nat, text),
        ) == h - 1,
{
    if let Ok((glyphs, h)) = parse_font(content) {
        if h > 0 {
            let ls = lines(content);
            lemma_lines_from_no_newline(content, 0);
            law_parsed_glyphs_are_rectangular(content);
            let c = header_values(content)[4];
            if c >= 0 {
                lemma_glyphs_from_no_newline(ls, skip_blank(ls, 1 + c), h, 32, Map::empty());
            }
            let rows = Seq::new(h as nat, |i: int| rendered_row(glyphs, text, i));
            assert forall|i: int| 0 <= i < rows.len() implies no_newline(#[trigger] rows[i]) by {
                assert forall|k: u32| #[trigger] glyphs.contains_key(k) implies i < glyphs[k].len() by {
                    assert(glyph_shaped(glyphs[k], h));
                }
                lemma_row_no_newline(glyphs, text, i);
            }
            lemma_join_lines_count(rows);
        }
    }
}

/// The lines `v` joined with `\n` between them.
fn join_with_newlines(v: &Vec<String>) -> (r: String)
    ensures
        r@ == join_lines(strings_model(v@)),
{
    let mut r = String::new();
    let mut i: usize = 0;
    while i < v.len()
        invariant
            i <= v.len(),
            r@ == join_lines(strings_model(v@).take(i as int)),
        decreases v.len() - i,
    {
        assert(strings_model(v@).take(i + 1).drop_last() =~= strings_model(v@).take(i as int));
        if i > 0 {
            push_char(&mut r, '\n');
        } else {
            assert(strings_model(v@).take(1) =~= seq![v@[0]@]);
        }
        r.append(v[i].as_str());
        i = i + 1;
    }
    assert(strings_model(v@).take(v.len() as int) =~= strings_model(v@));
    r
}

/// A FIGlet font: the glyph of each character and the common height.
pub struct FIGfont {
    chars: HashMap<u32, Vec<String>>,
    height: usize,
}

impl View for FIGfont {
    /// The lines of the glyph of each character code, and the height.
    type V = (Map<u32, Seq<Seq<char>>>, nat);

    closed spec fn view(&self) -> (Map<u32, Seq<Seq<char>>>, nat) {
        (self.chars@.map_values(|g: Vec<String>| strings_model(g@)), self.height as nat)
    }
}

impl FIGfont {
    /// Every glyph has exactly `height` lines.
    #[verifier::type_invariant]
    closed spec fn glyphs_fit(self) -> bool {
        forall|k: u32| #[trigger] self.chars@.contains_key(k) ==> self.chars@[k].len() == self.height
    }

    /// Renders `text`: for each character its glyph (or the space's glyph
    /// when it has none), rows side by side, rows joined with `\n`.
    pub fn convert(&self, text: &str) -> (r: Option<String>)
        ensures
            self@.1 == 0 ==> r is None,
            self@.1 > 0 ==> (r matches Some(s) && s@ == rendered(self@.0, self@.1, text@)),
    {
        proof {
            use_type_invariant(self);
        }
        if self.height == 0 {
            return None;
        }
        let h = self.height;
        let ghost glyphs = self@.0;
        let mut out: Vec<String> = Vec::new();
        let mut k: usize = 0;
        while k < h
            invariant
                k <= h,
                out.len() == k,
                forall|i: int| 0 <= i < k ==> #[trigger] out@[i]@ == Seq::<char>::empty(),
            decreases h - k,
        {
            out.push(String::new());
            k = k + 1;
        }
        let cs = chars_of(text);
        let mut j: usize = 0;
        while j < cs.len()
            invariant
                j <= cs.len(),
                cs@ == text@,
                out.len() == h,
                h == self.height,
                glyphs == self@.0,
                forall|i: int| 0 <= i < h ==> #[trigger] out@[i]@ == rendered_row(glyphs, cs@.take(j as int), i),
                forall|k: u32| #[trigger] self.chars@.contains_key(k) ==> self.chars@[k].len() == self.height,
            decreases cs.len() - j,
        {
            assert(cs@.take(j + 1).drop_last() =~= cs@.take(j as int));
            let key = cs[j] as u32;
            let g = match self.chars.get(&key) {
                Some(g) => Some(g),
                None => self.chars.get(&32u32),
            };
            match g {
                Some(g) => {
                    let mut i: usize = 0;
                    while i < h
                        invariant
                            i <= h,
                            j < cs.len(),
                            out.len() == h,
                            h == self.height,
                            g.len() == h,
                            glyph_for(glyphs, cs@[j as int]) == Some(strings_model(g@)),
                            forall|m: int| 0 <= m < i ==> #[trigger] out@[m]@ == rendered_row(glyphs, cs@.take(j + 1), m),
                            forall|m: int| i <= m < h ==> #[trigger] out@[m]@ == rendered_row(glyphs, cs@.take(j as int), m),
                        decreases h - i,
                    {
                        let mut s = out[i].clone();
                        s.append(g[i].as_str());
                        proof {
                            assert(cs@.take(j + 1).drop_last() =~= cs@.take(j as int));
                            assert(cs@.take(j + 1).last() == cs@[j as int]);
                            assert(strings_model(g@)[i as int] == g@[i as int]@);
                            assert(s@ == rendered_row(glyphs, cs@.take(j + 1), i as int));
                        }
                        out.set(i, s);
                        i = i + 1;
                    }
                },
                None => {
                    assert forall|m: int| 0 <= m < h implies #[trigger] out@[m]@ == rendered_row(glyphs, cs@.take(j + 1), m) by {
                        assert(glyph_for(glyphs, cs@[j as int]) is None);
                    }
                },
            }
            j = j + 1;
        }
        assert(cs@.take(cs.len() as int) =~= cs@);
        assert(strings_model(out@) =~= Seq::new(h as nat, |i: int| rendered_row(glyphs, text@, i)));
        Some(join_with_newlines(&out))
    }

    /// The number of lines of every glyph.
    pub fn height(&self) -> (h: usize)
        ensures
            h == self@.1,
    {
        self.height
    }

    /// Whether the font has a glyph for `c`.
    pub fn has_char(&self, c: char) -> (r: bool)
        ensures
            r == self@.0.contains_key(c as u32),
    {
        let key = c as u32;
        self.chars.get(&key).is_some()
    }

    /// Whether `content` meets what `parse` needs of its header, as
    /// `font_header_in_range` says.
    pub fn header_in_range(content: &str) -> (r: bool)
        ensures
            r == font_header_in_range(content@),
    {
        let chars = chars_of(content);
        let ls = split_lines(chars.as_slice());
        assert(rows_model(ls@) == lines(content@));
        if ls.len() == 0 {
            return true;
        }
        match read_header(&ls) {
            Some(vals) => {
                if vals.len() < 6 {
                    true
                } else {
                    let h = vals[0] as i64;
                    let c = vals[4] as i64;
                    assert(header_values(content@)[0] == h);
                    assert(header_values(content@)[4] == c);
                    h == 0 || (h >= 0 && (c >= 0 || h + c + 1 < 0))
                }
            },
            None => true,
        }
    }

    /// Reads a font from the text of a `.flf` file.
    pub fn parse(content: &str) -> (r: Result<Self, String>)
        requires
            font_header_in_range(content@),
        ensures
            match r {
                Ok(font) => parse_font(content@) == Ok::<(Map<u32, Seq<Seq<char>>>, int), Seq<char>>((font@.0, font@.1 as int)),
                Err(e) => parse_font(content@) == Err::<(Map<u32, Seq<Seq<char>>>, int), Seq<char>>(e@),
            },
    {
        let chars = chars_of(content);
        let ls = split_lines(chars.as_slice());
        let ghost lsm = rows_model(ls@);
        assert(lsm == lines(content@));
        if ls.len() == 0 {
            return Err(String::from_str("Empty font file"));
        }
        let vals = match read_header(&ls) {
            Some(v) => v,
            None => {
                return Err(String::from_str("Invalid FIGfont header"));
            },
        };
        if vals.len() < 6 {
            return Err(String::from_str("Invalid FIGfont header values"));
        }
        if vals[0] == 0 {
            return Err(String::from_str("Invalid font height"));
        }
        let ghost hv = header_values(content@);
        assert(hv[0] == vals[0] as int);
        assert(hv[4] == vals[4] as int);
        let height: usize = vals[0] as usize;
        let comment_lines: i32 = vals[4];
        let mut glyphs: HashMap<u32, Vec<String>> = HashMap::new();
        if comment_lines < 0 {
            let font = FIGfont { chars: glyphs, height };
            assert(font@.0 =~= Map::<u32, Seq<Seq<char>>>::empty());
            return Ok(font);
        }
        let mut line_idx: usize = 1 + comment_lines as usize;
        while line_idx < ls.len() && blank(ls[line_idx].as_slice())
            invariant
                lsm == rows_model(ls@),
                1 + comment_lines <= line_idx,
                skip_blank(lsm, line_idx as int) == skip_blank(lsm, 1 + comment_lines),
            decreases ls.len() - line_idx,
        {
            line_idx = line_idx + 1;
        }
        let mut char_code: u128 = 32;
        assert(glyphs@.map_values(|g: Vec<String>| strings_model(g@)) =~= Map::<u32, Seq<Seq<char>>>::empty());
        while line_idx <= ls.len() && height <= ls.len() - line_idx
            invariant
                lsm == rows_model(ls@),
                hv.len() >= 6,
                height >= 1,
                height as int == hv[0],
                char_code >= 32,
                char_code <= 32 + line_idx,
                glyphs_from(lsm, line_idx as int, height as int, char_code as int,
                    glyphs@.map_values(|g: Vec<String>| strings_model(g@)))
                    == glyphs_from(lsm, skip_blank(lsm, 1 + comment_lines), height as int, 32, Map::empty()),
                forall|k: u32| #[trigger] glyphs@.contains_key(k) ==> glyphs@[k].len() == height,
            ensures
                glyphs_from(lsm, line_idx as int, height as int, char_code as int,
                    glyphs@.map_values(|g: Vec<String>| strings_model(g@)))
                    == glyphs@.map_values(|g: Vec<String>| strings_model(g@)),
            decreases ls.len() - line_idx,
        {
            let ghost before = glyphs@.map_values(|g: Vec<String>| strings_model(g@));
            let mut start = line_idx;
            if char_code > 127 && line_idx < ls.len() {
                if is_label(ls[line_idx].as_slice()) {
                    start = line_idx + 1;
                }
            }
            if !(start <= ls.len() && height <= ls.len() - start) {
                break;
            }
            let g = read_glyph(&ls, start, height);
            let key: u32 = (char_code % 0x1_0000_0000) as u32;
            assert(key == glyph_key(char_code as int));
            match char_from_u32(key) {
                Some(_) => {
                    let ghost gm = strings_model(g@);
                    glyphs.insert(key, g);
                    assert(glyphs@.map_values(|g: Vec<String>| strings_model(g@)) =~= before.insert(key, gm));
                },
                None => {},
            }
            proof {
                lemma_skip_blank(lsm, start + height);
            }
            char_code = char_code + 1;
            line_idx = start + height;
            let ghost next = line_idx as int;
            while line_idx < ls.len() && blank(ls[line_idx].as_slice())
                invariant
                    lsm == rows_model(ls@),
                    next <= line_idx,
                    skip_blank(lsm, line_idx as int) == skip_blank(lsm, next),
                decreases ls.len() - line_idx,
            {
                line_idx = line_idx + 1;
            }
        }
        let font = FIGfont { chars: glyphs, height };
        Ok(font)
    }
}

} // verus!
