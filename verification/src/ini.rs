//! Reading values out of INI files such as GTK's `settings.ini` and an icon
//! theme's `index.theme`.

use vstd::prelude::*;
use crate::text::{chars_eq, chars_of, find, find_of, lines, split_lines, string_of, trim, trimmed};

verus! {

/// Whether a trimmed line carries nothing: it is empty or a comment.
pub open spec fn is_ignored(l: Seq<char>) -> bool {
    l.len() == 0 || l[0] == '#' || l[0] == ';'
}

/// Whether a trimmed line opens a section: `[name]`.
pub open spec fn is_header(l: Seq<char>) -> bool {
    l.len() >= 2 && l[0] == '[' && l[l.len() - 1] == ']'
}

/// The name of the section that a header line opens, trimmed.
pub open spec fn header_name(l: Seq<char>) -> Seq<char> {
    trim(l.subrange(1, l.len() - 1))
}

/// The value that the lines `ls` leave for `key` in `section`, where the
/// lines start inside the section `cur` and `found` is the value so far.
/// A `key = value` line (split at its first `=`, both sides trimmed) inside
/// the section replaces the value; lines before any header belong to no
/// section; lines without `=` are skipped.
pub open spec fn value_from(
    ls: Seq<Seq<char>>,
    cur: Option<Seq<char>>,
    section: Seq<char>,
    key: Seq<char>,
    found: Option<Seq<char>>,
) -> Option<Seq<char>>
    decreases ls.len(),
{
    if ls.len() == 0 {
        found
    } else {
        let l = trim(ls[0]);
        let rest = ls.drop_first();
        if is_ignored(l) {
            value_from(rest, cur, section, key, found)
        } else if is_header(l) {
            value_from(rest, Some(header_name(l)), section, key, found)
        } else {
            match find(l, seq!['=']) {
                Some(k) => if cur == Some(section) && trim(l.take(k)) == key {
                    value_from(rest, cur, section, key, Some(trim(l.skip(k + 1))))
                } else {
                    value_from(rest, cur, section, key, found)
                },
                None => value_from(rest, cur, section, key, found),
            }
        }
    }
}

/// The value of `key` in `section` of the INI text `content`: that of its
/// last assignment.
pub open spec fn ini_value(content: Seq<char>, section: Seq<char>, key: Seq<char>) -> Option<Seq<char>> {
    value_from(lines(content), None, section, key, None)
}

fn sub_chars(s: &[char], a: usize, b: usize) -> (r: Vec<char>)
    requires
        a <= b <= s.len(),
    ensures
        r@ == s@.subrange(a as int, b as int),
{
    let mut r: Vec<char> = Vec::new();
    let mut i: usize = a;
    while i < b
        invariant
            a <= i <= b <= s.len(),
            r@ == s@.subrange(a as int, i as int),
        decreases b - i,
    {
        r.push(s[i]);
        i = i + 1;
        assert(r@ =~= s@.subrange(a as int, i as int));
    }
    r
}

/// The characters of an optional character vector.
pub open spec fn opt_chars(o: Option<Vec<char>>) -> Option<Seq<char>> {
    match o {
        Some(v) => Some(v@),
        None => None,
    }
}

/// The value of `key` in `section` of `content`, as `ini_value` says.
pub fn ini_value_of(content: &str, section: &str, key: &str) -> (r: Option<String>)
    ensures
        match ini_value(content@, section@, key@) {
            Some(v) => r matches Some(s) && s@ == v,
            None => r is None,
        },
{
    let cs = chars_of(content);
    let sc = chars_of(section);
    let kc = chars_of(key);
    let ls = split_lines(cs.as_slice());
    let ghost lm = ls@.map_values(|w: Vec<char>| w@);
    let eq = vec!['='];
    assert(eq@ =~= seq!['=']);
    let mut cur: Option<Vec<char>> = None;
    let mut found: Option<Vec<char>> = None;
    let mut i: usize = 0;
    assert(lm.skip(0) =~= lm);
    while i < ls.len()
        invariant
            i <= ls.len(),
            lm == ls@.map_values(|w: Vec<char>| w@),
            lm == lines(content@),
            sc@ == section@,
            kc@ == key@,
            eq@ == seq!['='],
            value_from(lm.skip(i as int), opt_chars(cur), section@, key@, opt_chars(found))
                == ini_value(content@, section@, key@),
        decreases ls.len() - i,
    {
        assert(lm.skip(i as int).drop_first() =~= lm.skip(i + 1));
        assert(lm.skip(i as int)[0] == ls@[i as int]@);
        let l = trimmed(ls[i].as_slice());
        let n = l.len();
        if n == 0 || l[0] == '#' || l[0] == ';' {
        } else if n >= 2 && l[0] == '[' && l[n - 1] == ']' {
            let inner = sub_chars(l.as_slice(), 1, n - 1);
            cur = Some(trimmed(inner.as_slice()));
        } else {
            match find_of(l.as_slice(), eq.as_slice()) {
                Some(k) => {
                    proof {
                        crate::text::lemma_find_from_pos(l@, eq@, 0);
                        assert(crate::text::occurs_at(l@, eq@, k as int));
                    }
                    let in_section = match &cur {
                        Some(c) => chars_eq(c.as_slice(), sc.as_slice()),
                        None => false,
                    };
                    let name = trimmed(sub_chars(l.as_slice(), 0, k).as_slice());
                    assert(l@.take(k as int) =~= l@.subrange(0, k as int));
                    if in_section && chars_eq(name.as_slice(), kc.as_slice()) {
                        let v = sub_chars(l.as_slice(), k + 1, n);
                        assert(l@.skip(k + 1) =~= l@.subrange(k + 1, n as int));
                        found = Some(trimmed(v.as_slice()));
                    }
                },
                None => {},
            }
        }
        i = i + 1;
    }
    assert(lm.skip(i as int) =~= Seq::<Seq<char>>::empty());
    match found {
        Some(v) => Some(string_of(v.as_slice())),
        None => None,
    }
}

} // verus!
