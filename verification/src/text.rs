//! Character-level helpers shared by the parsers.

use vstd::prelude::*;

verus! {

/// The characters of `s`, in order.
pub fn chars_of(s: &str) -> (v: Vec<char>)
    ensures
        v@ == s@,
{
    let mut v: Vec<char> = Vec::new();
    for c in it: s.chars()
        invariant
            v@ == it.seq().take(it.index() as int),
    {
        v.push(c);
    }
    v
}

/// Appends one character to a `String`.
#[verifier::external_body]
pub(crate) fn push_char(s: &mut String, c: char)
    ensures
        final(s)@ == old(s)@.push(c),
{
    s.push(c);
}

/// A `String` holding the characters of `v`.
pub fn string_of(v: &[char]) -> (s: String)
    ensures
        s@ == v@,
{
    let mut s = String::new();
    let mut i: usize = 0;
    while i < v.len()
        invariant
            i <= v.len(),
            s@ == v@.take(i as int),
        decreases v.len() - i,
    {
        push_char(&mut s, v[i]);
        i = i + 1;
        assert(s@ =~= v@.take(i as int));
    }
    assert(v@.take(v.len() as int) =~= v@);
    s
}

/// Whether `a` and `b` hold the same characters.
pub fn chars_eq(a: &[char], b: &[char]) -> (r: bool)
    ensures
        r == (a@ == b@),
{
    if a.len() != b.len() {
        return false;
    }
    let mut i: usize = 0;
    while i < a.len()
        invariant
            i <= a.len(),
            a.len() == b.len(),
            forall|j: int| 0 <= j < i ==> a@[j] == b@[j],
        decreases a.len() - i,
    {
        if a[i] != b[i] {
            return false;
        }
        i = i + 1;
    }
    assert(a@ =~= b@);
    true
}

/// Whether `a` and `b` hold the same characters.
pub fn str_eq(a: &str, b: &str) -> (r: bool)
    ensures
        r == (a@ == b@),
{
    let va = chars_of(a);
    let vb = chars_of(b);
    chars_eq(va.as_slice(), vb.as_slice())
}

/// Whether `c` has the Unicode `White_Space` property (what
/// `char::is_whitespace` tests).
pub open spec fn is_white_space(c: char) -> bool {
    let n = c as u32;
    ||| 9 <= n <= 13
    ||| n == 32
    ||| n == 0x85
    ||| n == 0xA0
    ||| n == 0x1680
    ||| 0x2000 <= n <= 0x200A
    ||| n == 0x2028
    ||| n == 0x2029
    ||| n == 0x202F
    ||| n == 0x205F
    ||| n == 0x3000
}

/// Whether `c` is white space, as `is_white_space` says.
pub fn is_whitespace(c: char) -> (r: bool)
    ensures
        r == is_white_space(c),
{
    let n = c as u32;
    (9 <= n && n <= 13) || n == 32 || n == 0x85 || n == 0xA0 || n == 0x1680 || (0x2000 <= n && n
        <= 0x200A) || n == 0x2028 || n == 0x2029 || n == 0x202F || n == 0x205F || n == 0x3000
}

/// Whether `c` is one of the ASCII digits `0` to `9`.
pub open spec fn is_digit(c: char) -> bool {
    '0' <= c <= '9'
}

/// Whether `c` is an ASCII digit.
pub fn is_ascii_digit(c: char) -> (r: bool)
    ensures
        r == is_digit(c),
{
    '0' <= c && c <= '9'
}

/// Whether `code` is a Unicode scalar value (a code point that is not a
/// surrogate).
pub open spec fn is_scalar_value(code: u32) -> bool {
    code < 0xD800 || (0xE000 <= code && code <= 0x10FFFF)
}

/// `char::from_u32`: the character whose scalar value is `code`, or `None`
/// when `code` is a surrogate or above `0x10FFFF`, as the standard library
/// documents.
#[verifier::external_body]
pub(crate) fn char_from_u32(code: u32) -> (r: Option<char>)
    ensures
        r is Some <==> is_scalar_value(code),
        r matches Some(c) ==> c as u32 == code,
{
    char::from_u32(code)
}

/// The character at `p`, if `p` is inside `s`.
pub open spec fn char_at(s: Seq<char>, p: int) -> Option<char> {
    if 0 <= p < s.len() {
        Some(s[p])
    } else {
        None
    }
}

/// The first position at or after `p` that does not hold white space.
pub open spec fn skip_ws(s: Seq<char>, p: int) -> int
    decreases s.len() - p,
{
    if 0 <= p < s.len() && is_white_space(s[p]) {
        skip_ws(s, p + 1)
    } else {
        p
    }
}

pub proof fn lemma_skip_ws(s: Seq<char>, p: int)
    ensures
        p <= skip_ws(s, p),
        p <= s.len() ==> skip_ws(s, p) <= s.len(),
        char_at(s, skip_ws(s, p)) matches Some(c) ==> !is_white_space(c),
        p < 0 ==> skip_ws(s, p) == p,
    decreases s.len() - p,
{
    if 0 <= p < s.len() && is_white_space(s[p]) {
        lemma_skip_ws(s, p + 1);
    }
}

/// The position after the run of non-white-space characters that starts
/// at `p`.
pub open spec fn word_end(s: Seq<char>, p: int) -> int
    decreases s.len() - p,
{
    if 0 <= p < s.len() && !is_white_space(s[p]) {
        word_end(s, p + 1)
    } else {
        p
    }
}

pub proof fn lemma_word_end(s: Seq<char>, p: int)
    ensures
        p <= word_end(s, p),
        p <= s.len() ==> word_end(s, p) <= s.len(),
        0 <= p ==> forall|i: int| p <= i < word_end(s, p) ==> !is_white_space(#[trigger] s[i]),
        char_at(s, word_end(s, p)) matches Some(c) ==> is_white_space(c),
    decreases s.len() - p,
{
    if 0 <= p < s.len() && !is_white_space(s[p]) {
        lemma_word_end(s, p + 1);
    }
}

/// The white-space-separated words of `s` from position `p` on (what
/// `str::split_whitespace` yields).
pub open spec fn words_from(s: Seq<char>, p: int) -> Seq<Seq<char>>
    decreases s.len() - p,
{
    let a = skip_ws(s, p);
    if 0 <= p && a < s.len() {
        let b = word_end(s, a);
        proof {
            lemma_skip_ws(s, p);
            lemma_word_end(s, a);
        }
        seq![s.subrange(a, b)] + words_from(s, b)
    } else {
        Seq::empty()
    }
}

/// The white-space-separated words of `s`.
pub open spec fn words(s: Seq<char>) -> Seq<Seq<char>> {
    words_from(s, 0)
}

/// The words of `s`, as `words` says (`str::split_whitespace`).
pub fn split_whitespace(s: &[char]) -> (r: Vec<Vec<char>>)
    ensures
        r@.map_values(|w: Vec<char>| w@) == words(s@),
{
    let mut r: Vec<Vec<char>> = Vec::new();
    let mut p: usize = 0;
    while p < s.len()
        invariant
            p <= s.len(),
            r@.map_values(|w: Vec<char>| w@) + words_from(s@, p as int) == words(s@),
        decreases s.len() - p,
    {
        let ghost p0 = p as int;
        while p < s.len() && is_whitespace(s[p])
            invariant
                p0 <= p <= s.len(),
                skip_ws(s@, p as int) == skip_ws(s@, p0),
            decreases s.len() - p,
        {
            p = p + 1;
        }
        if p < s.len() {
            let a = p;
            let mut w: Vec<char> = Vec::new();
            while p < s.len() && !is_whitespace(s[p])
                invariant
                    a <= p <= s.len(),
                    word_end(s@, p as int) == word_end(s@, a as int),
                    w@ == s@.subrange(a as int, p as int),
                decreases s.len() - p,
            {
                w.push(s[p]);
                p = p + 1;
                assert(w@ =~= s@.subrange(a as int, p as int));
            }
            let ghost before = r@.map_values(|w: Vec<char>| w@);
            r.push(w);
            assert(r@.map_values(|w: Vec<char>| w@) =~= before.push(s@.subrange(a as int, p as int)));
            assert(words_from(s@, p0) == seq![s@.subrange(a as int, p as int)] + words_from(s@, p as int));
            assert(before + words_from(s@, p0) =~= r@.map_values(|w: Vec<char>| w@) + words_from(s@, p as int));
        } else {
            assert(words_from(s@, p0) =~= Seq::<Seq<char>>::empty());
            assert(r@.map_values(|w: Vec<char>| w@) + words_from(s@, p as int) =~= r@.map_values(|w: Vec<char>| w@) + words_from(s@, p0));
        }
    }
    assert(words_from(s@, p as int) =~= Seq::<Seq<char>>::empty());
    assert(r@.map_values(|w: Vec<char>| w@) =~= r@.map_values(|w: Vec<char>| w@) + words_from(s@, p as int));
    r
}


/// The position of the first `c` at or after `p`, or the end of `s`.
pub open spec fn find_from(s: Seq<char>, c: char, p: int) -> int
    decreases s.len() - p,
{
    if 0 <= p < s.len() && s[p] != c {
        find_from(s, c, p + 1)
    } else {
        p
    }
}

pub proof fn lemma_find_from(s: Seq<char>, c: char, p: int)
    ensures
        p <= find_from(s, c, p),
        p <= s.len() ==> find_from(s, c, p) <= s.len(),
        0 <= p ==> forall|i: int| p <= i < find_from(s, c, p) ==> #[trigger] s[i] != c,
        0 <= p && find_from(s, c, p) < s.len() ==> s[find_from(s, c, p)] == c,
    decreases s.len() - p,
{
    if 0 <= p < s.len() && s[p] != c {
        lemma_find_from(s, c, p + 1);
    }
}

/// `line` without one trailing carriage return, if it has one.
pub open spec fn strip_cr(line: Seq<char>) -> Seq<char> {
    if line.len() > 0 && line.last() == '\r' {
        line.drop_last()
    } else {
        line
    }
}

/// The lines of `s` from position `p` on, as `str::lines` yields them: split
/// at each `\n`, a `\r` just before a `\n` removed, and no empty line after
/// a final `\n`.
pub open spec fn lines_from(s: Seq<char>, p: int) -> Seq<Seq<char>>
    decreases s.len() - p,
{
    if 0 <= p < s.len() {
        let j = find_from(s, '\n', p);
        proof {
            lemma_find_from(s, '\n', p);
        }
        let raw = s.subrange(p, j);
        if j < s.len() {
            seq![strip_cr(raw)] + lines_from(s, j + 1)
        } else {
            seq![raw]
        }
    } else {
        Seq::empty()
    }
}

/// The lines of `s` (`str::lines`).
pub open spec fn lines(s: Seq<char>) -> Seq<Seq<char>> {
    lines_from(s, 0)
}

/// The lines of `s`, as `lines` says.
pub fn split_lines(s: &[char]) -> (r: Vec<Vec<char>>)
    ensures
        r@.map_values(|w: Vec<char>| w@) == lines(s@),
{
    let mut r: Vec<Vec<char>> = Vec::new();
    let mut p: usize = 0;
    while p < s.len()
        invariant
            p <= s.len(),
            r@.map_values(|w: Vec<char>| w@) + lines_from(s@, p as int) == lines(s@),
        decreases s.len() - p,
    {
        let a = p;
        let mut w: Vec<char> = Vec::new();
        proof {
            lemma_find_from(s@, '\n', a as int);
        }
        while p < s.len() && s[p] != '\n'
            invariant
                a <= p <= s.len(),
                find_from(s@, '\n', p as int) == find_from(s@, '\n', a as int),
                w@ == s@.subrange(a as int, p as int),
            decreases s.len() - p,
        {
            w.push(s[p]);
            p = p + 1;
            assert(w@ =~= s@.subrange(a as int, p as int));
        }
        if p < s.len() {
            let n = w.len();
            if n > 0 && w[n - 1] == '\r' {
                w.pop();
            }
        }
        let ghost before = r@.map_values(|w: Vec<char>| w@);
        let ghost line = w@;
        r.push(w);
        assert(r@.map_values(|w: Vec<char>| w@) =~= before.push(line));
        if p < s.len() {
            assert(lines_from(s@, a as int) == seq![line] + lines_from(s@, p + 1));
            p = p + 1;
        } else {
            assert(lines_from(s@, a as int) == seq![line]);
            assert(lines_from(s@, p as int) =~= Seq::<Seq<char>>::empty());
        }
        assert(before + lines_from(s@, a as int) =~= r@.map_values(|w: Vec<char>| w@) + lines_from(s@, p as int));
    }
    assert(lines_from(s@, p as int) =~= Seq::<Seq<char>>::empty());
    assert(r@.map_values(|w: Vec<char>| w@) =~= r@.map_values(|w: Vec<char>| w@) + lines_from(s@, p as int));
    r
}

/// Whether every character of `s` is white space (so that trimming leaves
/// nothing).
pub open spec fn is_blank(s: Seq<char>) -> bool {
    forall|i: int| 0 <= i < s.len() ==> is_white_space(#[trigger] s[i])
}

pub fn blank(s: &[char]) -> (r: bool)
    ensures
        r == is_blank(s@),
{
    let mut i: usize = 0;
    while i < s.len()
        invariant
            i <= s.len(),
            forall|j: int| 0 <= j < i ==> is_white_space(#[trigger] s@[j]),
        decreases s.len() - i,
    {
        if !is_whitespace(s[i]) {
            return false;
        }
        i = i + 1;
    }
    true
}

/// The number of white-space characters at the start of `s`.
pub open spec fn lead_ws(s: Seq<char>) -> int {
    skip_ws(s, 0)
}

/// The position after the last character of `s` that is not white space
/// (0 when there is none).
pub open spec fn trail_end(s: Seq<char>, e: int) -> int
    decreases e,
{
    if 0 < e <= s.len() && is_white_space(s[e - 1]) {
        trail_end(s, e - 1)
    } else {
        e
    }
}

pub proof fn lemma_trail_end(s: Seq<char>, e: int)
    requires
        0 <= e <= s.len(),
    ensures
        0 <= trail_end(s, e) <= e,
        forall|i: int| trail_end(s, e) <= i < e ==> is_white_space(#[trigger] s[i]),
        trail_end(s, e) > 0 ==> !is_white_space(s[trail_end(s, e) - 1]),
    decreases e,
{
    if 0 < e && is_white_space(s[e - 1]) {
        lemma_trail_end(s, e - 1);
    }
}

/// `s` without white space at either end (`str::trim`).
pub open spec fn trim(s: Seq<char>) -> Seq<char> {
    let a = lead_ws(s);
    let b = trail_end(s, s.len() as int);
    if a < b {
        s.subrange(a, b)
    } else {
        Seq::empty()
    }
}

/// `s` without white space at either end, as `trim` says.
pub fn trimmed(s: &[char]) -> (r: Vec<char>)
    ensures
        r@ == trim(s@),
{
    let mut a: usize = 0;
    while a < s.len() && is_whitespace(s[a])
        invariant
            a <= s.len(),
            skip_ws(s@, a as int) == skip_ws(s@, 0),
        decreases s.len() - a,
    {
        a = a + 1;
    }
    let mut b: usize = s.len();
    while b > 0 && is_whitespace(s[b - 1])
        invariant
            b <= s.len(),
            trail_end(s@, b as int) == trail_end(s@, s.len() as int),
        decreases b,
    {
        b = b - 1;
    }
    let mut r: Vec<char> = Vec::new();
    if a < b {
        let mut i: usize = a;
        while i < b
            invariant
                a <= i <= b <= s.len(),
                r@ == s@.subrange(a as int, i as int),
            decreases b - i,
        {
            r.push(s[i]);
            i = i + 1;
            assert(r@ =~= s@.subrange(a as int, i as int));
        }
    }
    proof {
        if !(a < b) {
            assert(r@ =~= Seq::<char>::empty());
        }
    }
    r
}

/// Whether `s` begins with `prefix`.
pub open spec fn starts_with(s: Seq<char>, prefix: Seq<char>) -> bool {
    prefix.len() <= s.len() && s.subrange(0, prefix.len() as int) == prefix
}

pub fn has_prefix(s: &[char], prefix: &[char]) -> (r: bool)
    ensures
        r == starts_with(s@, prefix@),
{
    if prefix.len() > s.len() {
        return false;
    }
    let mut i: usize = 0;
    while i < prefix.len()
        invariant
            i <= prefix.len() <= s.len(),
            forall|j: int| 0 <= j < i ==> s@[j] == prefix@[j],
        decreases prefix.len() - i,
    {
        if s[i] != prefix[i] {
            assert(s@.subrange(0, prefix.len() as int)[i as int] != prefix@[i as int]);
            return false;
        }
        i = i + 1;
    }
    assert(s@.subrange(0, prefix.len() as int) =~= prefix@);
    true
}


/// Whether every character of `d` is an ASCII digit.
pub open spec fn all_digits(d: Seq<char>) -> bool {
    forall|i: int| 0 <= i < d.len() ==> is_digit(#[trigger] d[i])
}

/// The number that the decimal digits `d` spell.
pub open spec fn digits_value(d: Seq<char>) -> nat
    decreases d.len(),
{
    if d.len() == 0 {
        0
    } else {
        digits_value(d.drop_last()) * 10 + (d.last() as nat - 48) as nat
    }
}

proof fn lemma_digits_value_grows(d: Seq<char>, k: int)
    requires
        0 <= k <= d.len(),
        all_digits(d),
    ensures
        digits_value(d.take(k)) <= digits_value(d),
    decreases d.len() - k,
{
    if k < d.len() {
        lemma_digits_value_grows(d, k + 1);
        assert(d.take(k + 1).drop_last() =~= d.take(k));
    } else {
        assert(d.take(k) =~= d);
    }
}

/// What `str::parse::<i32>` gives: an optional `+` or `-` followed by at
/// least one ASCII digit, with a value in the range of `i32`.
pub open spec fn parse_i32(t: Seq<char>) -> Option<int> {
    let signed = t.len() > 0 && (t[0] == '-' || t[0] == '+');
    let d = if signed { t.drop_first() } else { t };
    let v: int = if t.len() > 0 && t[0] == '-' { -digits_value(d) } else { digits_value(d) as int };
    if d.len() > 0 && all_digits(d) && i32::MIN <= v <= i32::MAX {
        Some(v)
    } else {
        None
    }
}

/// `t` read as an `i32`, as `parse_i32` says.
pub fn parse_i32_of(t: &[char]) -> (r: Option<i32>)
    ensures
        match parse_i32(t@) {
            Some(v) => r == Some(v as i32),
            None => r is None,
        },
{
    if t.len() == 0 {
        return None;
    }
    let neg = t[0] == '-';
    let start: usize = if t[0] == '-' || t[0] == '+' { 1 } else { 0 };
    if start == t.len() {
        return None;
    }
    let ghost d = if start == 1 { t@.drop_first() } else { t@ };
    assert(d =~= t@.subrange(start as int, t.len() as int));
    let mut v: i64 = 0;
    let mut i: usize = start;
    while i < t.len()
        invariant
            start <= i <= t.len(),
            start < t.len(),
            d == t@.subrange(start as int, t.len() as int),
            d == (if t@[0] == '-' || t@[0] == '+' { t@.drop_first() } else { t@ }),
            neg == (t@[0] == '-'),
            all_digits(t@.subrange(start as int, i as int)),
            v as int == digits_value(t@.subrange(start as int, i as int)),
            v <= 0x8000_0000,
        decreases t.len() - i,
    {
        assert(t@.subrange(start as int, i + 1).drop_last() =~= t@.subrange(start as int, i as int));
        if !is_ascii_digit(t[i]) {
            assert(!is_digit(d[i - start]));
            return None;
        }
        v = v * 10 + (t[i] as u32 - 48) as i64;
        assert(all_digits(t@.subrange(start as int, i + 1)));
        if v > 0x8000_0000 {
            proof {
                let k = i + 1 - start;
                assert(d.take(k) =~= t@.subrange(start as int, i + 1));
                if all_digits(d) {
                    lemma_digits_value_grows(d, k);
                }
            }
            return None;
        }
        i = i + 1;
    }
    assert(t@.subrange(start as int, t.len() as int) == d);
    if neg {
        Some((-v) as i32)
    } else if v <= 0x7fff_ffff {
        Some(v as i32)
    } else {
        None
    }
}

/// The number of bytes of `c` in UTF-8.
pub open spec fn char_utf8_len(c: char) -> nat {
    if (c as u32) < 0x80 {
        1
    } else if (c as u32) < 0x800 {
        2
    } else if (c as u32) < 0x10000 {
        3
    } else {
        4
    }
}

/// The number of bytes of `s` in UTF-8 (what `str::len` gives).
pub open spec fn utf8_len(s: Seq<char>) -> nat
    decreases s.len(),
{
    if s.len() == 0 {
        0
    } else {
        utf8_len(s.drop_last()) + char_utf8_len(s.last())
    }
}

pub proof fn lemma_utf8_len_bound(s: Seq<char>)
    ensures
        utf8_len(s) <= 4 * s.len(),
    decreases s.len(),
{
    if s.len() > 0 {
        lemma_utf8_len_bound(s.drop_last());
    }
}

/// The number of bytes of `s` in UTF-8.
pub fn utf8_len_of(s: &[char]) -> (n: u128)
    ensures
        n == utf8_len(s@),
{
    let mut n: u128 = 0;
    let mut i: usize = 0;
    while i < s.len()
        invariant
            i <= s.len(),
            n == utf8_len(s@.take(i as int)),
        decreases s.len() - i,
    {
        proof {
            lemma_utf8_len_bound(s@.take(i as int));
            assert(s@.take(i + 1).drop_last() =~= s@.take(i as int));
        }
        let c = s[i] as u32;
        let w: u128 = if c < 0x80 {
            1
        } else if c < 0x800 {
            2
        } else if c < 0x10000 {
            3
        } else {
            4
        };
        n = n + w;
        i = i + 1;
    }
    assert(s@.take(s.len() as int) =~= s@);
    n
}

/// The first position at or after `p` that does not hold an ASCII digit.
pub open spec fn digits_end(s: Seq<char>, p: int) -> int
    decreases s.len() - p,
{
    if 0 <= p < s.len() && is_digit(s[p]) {
        digits_end(s, p + 1)
    } else {
        p
    }
}

pub proof fn lemma_digits_end(s: Seq<char>, p: int)
    ensures
        p <= digits_end(s, p),
        p <= s.len() ==> digits_end(s, p) <= s.len(),
        forall|i: int| p <= i < digits_end(s, p) ==> is_digit(#[trigger] s[i]),
    decreases s.len() - p,
{
    if 0 <= p < s.len() && is_digit(s[p]) {
        lemma_digits_end(s, p + 1);
    }
}


/// Whether `pat` occurs in `s` at position `i`.
pub open spec fn occurs_at(s: Seq<char>, pat: Seq<char>, i: int) -> bool {
    0 <= i && i + pat.len() <= s.len() && s.subrange(i, i + pat.len()) == pat
}

/// The first position at or after `i` where `pat` occurs in `s`.
pub open spec fn find_from_pos(s: Seq<char>, pat: Seq<char>, i: int) -> Option<int>
    decreases s.len() + 1 - i,
{
    if i < 0 || i > s.len() {
        None
    } else if occurs_at(s, pat, i) {
        Some(i)
    } else {
        find_from_pos(s, pat, i + 1)
    }
}

/// The first position of `pat` in `s` (`str::find`).
pub open spec fn find(s: Seq<char>, pat: Seq<char>) -> Option<int> {
    find_from_pos(s, pat, 0)
}

/// Whether `pat` occurs in `s` (`str::contains`).
pub open spec fn contains(s: Seq<char>, pat: Seq<char>) -> bool {
    find(s, pat) is Some
}

pub proof fn lemma_find_from_pos(s: Seq<char>, pat: Seq<char>, i: int)
    requires
        0 <= i,
    ensures
        find_from_pos(s, pat, i) matches Some(k) ==> i <= k && occurs_at(s, pat, k)
            && forall|j: int| i <= j < k ==> !#[trigger] occurs_at(s, pat, j),
        find_from_pos(s, pat, i) is None ==> forall|j: int| i <= j ==> !#[trigger] occurs_at(s, pat, j),
    decreases s.len() + 1 - i,
{
    if i <= s.len() && !occurs_at(s, pat, i) {
        lemma_find_from_pos(s, pat, i + 1);
    }
}

fn matches_at(s: &[char], pat: &[char], i: usize) -> (r: bool)
    ensures
        r == occurs_at(s@, pat@, i as int),
{
    if i > s.len() || pat.len() > s.len() - i {
        return false;
    }
    let mut k: usize = 0;
    while k < pat.len()
        invariant
            k <= pat.len(),
            i + pat.len() <= s.len(),
            forall|j: int| 0 <= j < k ==> s@[i + j] == pat@[j],
        decreases pat.len() - k,
    {
        if s[i + k] != pat[k] {
            assert(s@.subrange(i as int, i + pat.len())[k as int] != pat@[k as int]);
            return false;
        }
        k = k + 1;
    }
    assert(s@.subrange(i as int, i + pat.len()) =~= pat@);
    true
}

/// The first position of `pat` in `s`, as `find` says.
pub fn find_of(s: &[char], pat: &[char]) -> (r: Option<usize>)
    ensures
        match r {
            Some(k) => find(s@, pat@) == Some(k as int),
            None => find(s@, pat@) is None,
        },
{
    let mut i: usize = 0;
    while i <= s.len()
        invariant
            find_from_pos(s@, pat@, i as int) == find(s@, pat@),
        decreases s.len() + 1 - i,
    {
        if matches_at(s, pat, i) {
            return Some(i);
        }
        if i == s.len() {
            assert(find_from_pos(s@, pat@, s.len() + 1) is None);
            return None;
        }
        i = i + 1;
    }
    None
}

/// Whether `pat` occurs in `s`.
pub fn contains_of(s: &[char], pat: &[char]) -> (r: bool)
    ensures
        r == contains(s@, pat@),
{
    find_of(s, pat).is_some()
}

/// Whether the text `s` contains the text `pat`.
pub fn str_contains(s: &str, pat: &str) -> (r: bool)
    ensures
        r == contains(s@, pat@),
{
    let a = chars_of(s);
    let b = chars_of(pat);
    contains_of(a.as_slice(), b.as_slice())
}

/// `s` with every occurrence of `pat` (taken left to right, without
/// overlaps) replaced by `rep` (`str::replace`, for a non-empty pattern).
pub open spec fn replace_all(s: Seq<char>, pat: Seq<char>, rep: Seq<char>) -> Seq<char>
    decreases s.len(),
{
    if s.len() == 0 || pat.len() == 0 {
        s
    } else if starts_with(s, pat) {
        rep + replace_all(s.skip(pat.len() as int), pat, rep)
    } else {
        seq![s[0]] + replace_all(s.drop_first(), pat, rep)
    }
}

/// `s` with every occurrence of `pat` replaced by `rep`, as `replace_all`
/// says.
pub fn replace_of(s: &[char], pat: &[char], rep: &[char]) -> (r: Vec<char>)
    ensures
        r@ == replace_all(s@, pat@, rep@),
{
    let mut r: Vec<char> = Vec::new();
    if pat.len() == 0 {
        let mut k: usize = 0;
        while k < s.len()
            invariant
                k <= s.len(),
                r@ == s@.take(k as int),
            decreases s.len() - k,
        {
            r.push(s[k]);
            k = k + 1;
            assert(r@ =~= s@.take(k as int));
        }
        assert(s@.take(s.len() as int) =~= s@);
        return r;
    }
    let mut i: usize = 0;
    assert(s@.skip(0) =~= s@);
    assert(r@ + replace_all(s@, pat@, rep@) =~= replace_all(s@, pat@, rep@));
    while i < s.len()
        invariant
            i <= s.len(),
            pat.len() > 0,
            r@ + replace_all(s@.skip(i as int), pat@, rep@) == replace_all(s@, pat@, rep@),
        decreases s.len() - i,
    {
        let ghost rest = s@.skip(i as int);
        let ghost r0 = r@;
        if matches_at(s, pat, i) {
            assert(starts_with(rest, pat@)) by {
                assert(rest.subrange(0, pat@.len() as int) =~= s@.subrange(i as int, i + pat.len()));
            }
            assert(rest.skip(pat.len() as int) =~= s@.skip(i + pat.len()));
            let mut k: usize = 0;
            while k < rep.len()
                invariant
                    k <= rep.len(),
                    r@ == r0 + rep@.take(k as int),
                decreases rep.len() - k,
            {
                r.push(rep[k]);
                k = k + 1;
                assert(r@ =~= r0 + rep@.take(k as int));
            }
            assert(rep@.take(rep.len() as int) =~= rep@);
            assert(r0 + replace_all(rest, pat@, rep@) =~= r@ + replace_all(s@.skip(i + pat.len()), pat@, rep@));
            i = i + pat.len();
        } else {
            assert(!starts_with(rest, pat@)) by {
                if starts_with(rest, pat@) {
                    assert(rest.subrange(0, pat@.len() as int) =~= s@.subrange(i as int, i + pat.len()));
                }
            }
            assert(rest.drop_first() =~= s@.skip(i + 1));
            r.push(s[i]);
            assert(r0 + replace_all(rest, pat@, rep@) =~= r@ + replace_all(s@.skip(i + 1), pat@, rep@));
            i = i + 1;
        }
    }
    assert(s@.skip(i as int) =~= Seq::<char>::empty());
    assert(r@ + replace_all(s@.skip(i as int), pat@, rep@) =~= r@);
    r
}


/// The pieces of `s` from position `p` on, split at each `c` (`str::split`
/// with a character): a final empty piece after a final `c`, and one empty
/// piece for an empty text.
pub open spec fn split_from(s: Seq<char>, c: char, p: int) -> Seq<Seq<char>>
    decreases s.len() - p,
{
    let j = find_from(s, c, p);
    if 0 <= p <= s.len() {
        proof {
            lemma_find_from(s, c, p);
        }
        if j < s.len() {
            seq![s.subrange(p, j)] + split_from(s, c, j + 1)
        } else {
            seq![s.subrange(p, s.len() as int)]
        }
    } else {
        Seq::empty()
    }
}

/// The pieces of `s` split at each `c`.
pub open spec fn split_on(s: Seq<char>, c: char) -> Seq<Seq<char>> {
    split_from(s, c, 0)
}

/// The pieces of `s` split at each `c`, as `split_on` says.
pub fn split_char(s: &[char], c: char) -> (r: Vec<Vec<char>>)
    ensures
        r@.map_values(|w: Vec<char>| w@) == split_on(s@, c),
{
    let mut r: Vec<Vec<char>> = Vec::new();
    let mut p: usize = 0;
    loop
        invariant
            p <= s.len(),
            r@.map_values(|w: Vec<char>| w@) + split_from(s@, c, p as int) == split_on(s@, c),
        decreases s.len() - p,
    {
        let a = p;
        let mut w: Vec<char> = Vec::new();
        proof {
            lemma_find_from(s@, c, a as int);
        }
        while p < s.len() && s[p] != c
            invariant
                a <= p <= s.len(),
                find_from(s@, c, p as int) == find_from(s@, c, a as int),
                w@ == s@.subrange(a as int, p as int),
            decreases s.len() - p,
        {
            w.push(s[p]);
            p = p + 1;
            assert(w@ =~= s@.subrange(a as int, p as int));
        }
        let ghost before = r@.map_values(|w: Vec<char>| w@);
        let ghost piece = w@;
        r.push(w);
        assert(r@.map_values(|w: Vec<char>| w@) =~= before.push(piece));
        if p < s.len() {
            assert(split_from(s@, c, a as int) == seq![piece] + split_from(s@, c, p + 1));
            assert(before + split_from(s@, c, a as int) =~= r@.map_values(|w: Vec<char>| w@) + split_from(s@, c, p + 1));
            p = p + 1;
        } else {
            assert(split_from(s@, c, a as int) == seq![piece]);
            assert(r@.map_values(|w: Vec<char>| w@) =~= split_on(s@, c));
            return r;
        }
    }
}

/// The characters of `s` before the first `c` (all of `s` when there is
/// none): the first piece of `split_on(s, c)`.
pub open spec fn before_char(s: Seq<char>, c: char) -> Seq<char> {
    s.take(find_from(s, c, 0))
}

/// The characters of `s` before the first `c`.
pub fn prefix_before(s: &[char], c: char) -> (r: Vec<char>)
    ensures
        r@ == before_char(s@, c),
        r@ == split_on(s@, c)[0],
{
    let mut r: Vec<char> = Vec::new();
    let mut i: usize = 0;
    proof {
        lemma_find_from(s@, c, 0);
    }
    while i < s.len() && s[i] != c
        invariant
            i <= s.len(),
            find_from(s@, c, i as int) == find_from(s@, c, 0),
            r@ == s@.take(i as int),
        decreases s.len() - i,
    {
        r.push(s[i]);
        i = i + 1;
        assert(r@ =~= s@.take(i as int));
    }
    assert(s@.take(i as int) =~= s@.subrange(0, i as int));
    r
}

/// `s` without any `c` at either end (`str::trim_matches` with a
/// character).
pub open spec fn trim_char(s: Seq<char>, c: char) -> Seq<char>
    decreases s.len(),
{
    if s.len() > 0 && s[0] == c {
        trim_char(s.drop_first(), c)
    } else if s.len() > 0 && s.last() == c {
        trim_char(s.drop_last(), c)
    } else {
        s
    }
}

/// `s` without any `c` at either end, as `trim_char` says.
pub fn trim_matches_char(s: &[char], c: char) -> (r: Vec<char>)
    ensures
        r@ == trim_char(s@, c),
{
    let mut a: usize = 0;
    let mut b: usize = s.len();
    assert(s@.subrange(0, s.len() as int) =~= s@);
    while a < b && (s[a] == c || s[b - 1] == c)
        invariant
            a <= b <= s.len(),
            trim_char(s@.subrange(a as int, b as int), c) == trim_char(s@, c),
        decreases b - a,
    {
        let ghost cur = s@.subrange(a as int, b as int);
        if s[a] == c {
            assert(cur.drop_first() =~= s@.subrange(a + 1, b as int));
            a = a + 1;
        } else {
            assert(cur.drop_last() =~= s@.subrange(a as int, b - 1));
            b = b - 1;
        }
    }
    assert(s@.subrange(0, s.len() as int) =~= s@);
    let mut r: Vec<char> = Vec::new();
    let mut i: usize = a;
    while i < b
        invariant
            a <= i <= b <= s.len(),
            r@ == s@.subrange(a as int, i as int),
        decreases b - i,
    {
        r.push(s[i]);
        i = i + 1;
        assert(r@ =~= s@.subrange(a as int, i as int));
    }
    r
}

/// `s` with `pat` removed from its start as many times as it occurs there
/// (`str::trim_start_matches`, for a non-empty pattern).
pub open spec fn trim_start_seq(s: Seq<char>, pat: Seq<char>) -> Seq<char>
    decreases s.len(),
{
    if pat.len() > 0 && starts_with(s, pat) {
        trim_start_seq(s.skip(pat.len() as int), pat)
    } else {
        s
    }
}

/// `s` with `pat` removed from its start repeatedly, as `trim_start_seq`
/// says.
pub fn trim_start_matches(s: &[char], pat: &[char]) -> (r: Vec<char>)
    ensures
        r@ == trim_start_seq(s@, pat@),
{
    let mut a: usize = 0;
    assert(s@.skip(0) =~= s@);
    while pat.len() > 0 && matches_at(s, pat, a)
        invariant
            a <= s.len(),
            trim_start_seq(s@.skip(a as int), pat@) == trim_start_seq(s@, pat@),
        decreases s.len() - a,
    {
        assert(s@.skip(a as int).subrange(0, pat@.len() as int) =~= s@.subrange(a as int, a + pat.len()));
        assert(s@.skip(a as int).skip(pat@.len() as int) =~= s@.skip(a + pat.len()));
        a = a + pat.len();
    }
    proof {
        if pat.len() > 0 && starts_with(s@.skip(a as int), pat@) {
            assert(s@.skip(a as int).subrange(0, pat@.len() as int) =~= s@.subrange(a as int, a + pat.len()));
        }
    }
    let mut r: Vec<char> = Vec::new();
    let mut i: usize = a;
    while i < s.len()
        invariant
            a <= i <= s.len(),
            r@ == s@.subrange(a as int, i as int),
        decreases s.len() - i,
    {
        r.push(s[i]);
        i = i + 1;
        assert(r@ =~= s@.subrange(a as int, i as int));
    }
    assert(r@ =~= s@.skip(a as int));
    r
}


/// What `str::parse::<u32>` gives: an optional `+` followed by at least one
/// ASCII digit, with a value that fits in `u32`.
pub open spec fn parse_u32(t: Seq<char>) -> Option<nat> {
    let d = if t.len() > 0 && t[0] == '+' { t.drop_first() } else { t };
    if d.len() > 0 && all_digits(d) && digits_value(d) <= u32::MAX {
        Some(digits_value(d))
    } else {
        None
    }
}

/// `t` read as a `u32`, as `parse_u32` says.
pub fn parse_u32_of(t: &[char]) -> (r: Option<u32>)
    ensures
        match parse_u32(t@) {
            Some(v) => r == Some(v as u32),
            None => r is None,
        },
{
    let start: usize = if t.len() > 0 && t[0] == '+' { 1 } else { 0 };
    if start == t.len() {
        return None;
    }
    let ghost d = if start == 1 { t@.drop_first() } else { t@ };
    assert(d =~= t@.subrange(start as int, t.len() as int));
    let mut v: u64 = 0;
    let mut i: usize = start;
    while i < t.len()
        invariant
            start <= i <= t.len(),
            start < t.len(),
            d == t@.subrange(start as int, t.len() as int),
            d == (if t@[0] == '+' { t@.drop_first() } else { t@ }),
            all_digits(t@.subrange(start as int, i as int)),
            v as int == digits_value(t@.subrange(start as int, i as int)),
            v <= u32::MAX,
        decreases t.len() - i,
    {
        assert(t@.subrange(start as int, i + 1).drop_last() =~= t@.subrange(start as int, i as int));
        if !is_ascii_digit(t[i]) {
            assert(!is_digit(d[i - start]));
            return None;
        }
        v = v * 10 + (t[i] as u32 - 48) as u64;
        assert(all_digits(t@.subrange(start as int, i + 1)));
        if v > 0xffff_ffff {
            proof {
                let k = i + 1 - start;
                assert(d.take(k) =~= t@.subrange(start as int, i + 1));
                if all_digits(d) {
                    lemma_digits_value_grows(d, k);
                }
            }
            return None;
        }
        i = i + 1;
    }
    assert(t@.subrange(start as int, t.len() as int) == d);
    Some(v as u32)
}

/// Whether `c` is numeric as `char::is_numeric` says (a character of a
/// Unicode number category). Only its value on ASCII characters is stated.
pub uninterp spec fn char_is_numeric(c: char) -> bool;

/// `char::is_numeric`. Its result is named `char_is_numeric`; beyond that,
/// the contract states only that on ASCII it holds exactly of the digits
/// `0` to `9` (the standard library checks `'0'..='9'` and, above
/// `0x7F`, the Unicode number categories, which are not written out here).
#[verifier::external_body]
pub(crate) fn is_numeric(c: char) -> (r: bool)
    ensures
        r == char_is_numeric(c),
        (c as u32) <= 0x7F ==> (r <==> is_digit(c)),
{
    c.is_numeric()
}

/// The digits of `n` in decimal.
pub fn push_decimal_u64(s: &mut String, n: u64)
    ensures
        final(s)@ == old(s)@ + crate::ansi::decimal(n as nat),
    decreases n,
{
    if n >= 10 {
        push_decimal_u64(s, n / 10);
    }
    push_char(s, ((n % 10) as u8 + 48) as char);
    proof {
        if n < 10 {
            assert(crate::ansi::decimal(n as nat) == seq![crate::ansi::digit_char(n as nat)]);
        }
    }
}

/// The digits of `n` in decimal.
pub fn push_decimal_u32(s: &mut String, n: u32)
    ensures
        final(s)@ == old(s)@ + crate::ansi::decimal(n as nat),
    decreases n,
{
    if n >= 10 {
        push_decimal_u32(s, n / 10);
    }
    push_char(s, ((n % 10) as u8 + 48) as char);
    proof {
        if n < 10 {
            assert(crate::ansi::decimal(n as nat) == seq![crate::ansi::digit_char(n as nat)]);
        }
    }
}

} // verus!

