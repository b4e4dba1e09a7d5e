//! A minimal JSON reader for the configuration file.

use vstd::prelude::*;
use crate::text::{digits_end, lemma_digits_end, char_at, skip_ws, lemma_skip_ws, str_eq, char_from_u32, is_ascii_digit, is_digit, is_white_space, is_whitespace, push_char, string_of};

verus! {

/// The value of a JSON document as text: strings, arrays and objects.
pub enum JsonModel {
    Null,
    Str(Seq<char>),
    Array(Seq<JsonModel>),
    Object(Seq<(Seq<char>, JsonModel)>),
}

/// A JSON value; numbers and literals are kept as their text.
#[derive(Debug)]
pub enum JsonValue {
    Null,
    String(String),
    Array(Vec<JsonValue>),
    Object(Vec<(String, JsonValue)>),
}

impl JsonValue {
    pub open spec fn model(self) -> JsonModel
        decreases self,
    {
        match self {
            JsonValue::Null => JsonModel::Null,
            JsonValue::String(s) => JsonModel::Str(s@),
            JsonValue::Array(items) => JsonModel::Array(
                Seq::new(items@.len(), |i: int| if 0 <= i < items@.len() { items@[i].model() } else { JsonModel::Null }),
            ),
            JsonValue::Object(pairs) => JsonModel::Object(
                Seq::new(pairs@.len(), |i: int| if 0 <= i < pairs@.len() { (pairs@[i].0@, pairs@[i].1.model()) } else { (Seq::empty(), JsonModel::Null) }),
            ),
        }
    }
}

/// Whether `i` is the first position in `pairs` whose key is `key`.
pub open spec fn first_key_at(pairs: Seq<(String, JsonValue)>, key: Seq<char>, i: int) -> bool {
    &&& 0 <= i < pairs.len()
    &&& pairs[i].0@ == key
    &&& forall|j: int| 0 <= j < i ==> #[trigger] pairs[j].0@ != key
}

/// The position of the first pair whose key is `key`.
fn find_key(pairs: &Vec<(String, JsonValue)>, key: &str) -> (r: Option<usize>)
    ensures
        r matches Some(i) ==> first_key_at(pairs@, key@, i as int),
        r is None ==> forall|i: int| 0 <= i < pairs@.len() ==> #[trigger] pairs@[i].0@ != key@,
{
    let mut i: usize = 0;
    while i < pairs.len()
        invariant
            i <= pairs.len(),
            forall|j: int| 0 <= j < i ==> #[trigger] pairs@[j].0@ != key@,
        decreases pairs.len() - i,
    {
        if str_eq(pairs[i].0.as_str(), key) {
            return Some(i);
        }
        i = i + 1;
    }
    None
}

impl JsonValue {
    /// The value of the first member named `key`, for an object.
    pub fn get(&self, key: &str) -> (r: Option<&JsonValue>)
        ensures
            match self {
                JsonValue::Object(pairs) => match r {
                    Some(v) => exists|i: int| #[trigger] first_key_at(pairs@, key@, i) && *v == pairs@[i].1,
                    None => forall|i: int| 0 <= i < pairs@.len() ==> #[trigger] pairs@[i].0@ != key@,
                },
                _ => r is None,
            },
    {
        match self {
            JsonValue::Object(pairs) => {
                match find_key(pairs, key) {
                    Some(i) => Some(&pairs[i].1),
                    None => None,
                }
            },
            _ => None,
        }
    }

    /// The items, for an array.
    pub fn as_array(&self) -> (r: Option<&Vec<JsonValue>>)
        ensures
            match self {
                JsonValue::Array(items) => r == Some(items),
                _ => r is None,
            },
    {
        match self {
            JsonValue::Array(arr) => Some(arr),
            _ => None,
        }
    }

    /// The text, for a string.
    pub fn as_str(&self) -> (r: Option<&str>)
        ensures
            match self {
                JsonValue::String(s) => r matches Some(t) && t@ == s@,
                _ => r is None,
            },
    {
        match self {
            JsonValue::String(s) => Some(s.as_str()),
            _ => None,
        }
    }

    /// The text of a string; the empty text for any other value.
    pub fn print(&self) -> (r: String)
        ensures
            r@ == match self {
                JsonValue::String(s) => s@,
                _ => Seq::empty(),
            },
    {
        match self {
            JsonValue::String(s) => s.clone(),
            _ => String::new(),
        }
    }
}

/// The models of a sequence of values.
pub open spec fn items_model(items: Seq<JsonValue>) -> Seq<JsonModel> {
    Seq::new(items.len(), |i: int| items[i].model())
}

/// The models of a sequence of key/value pairs.
pub open spec fn pairs_model(pairs: Seq<(String, JsonValue)>) -> Seq<(Seq<char>, JsonModel)> {
    Seq::new(pairs.len(), |i: int| (pairs[i].0@, pairs[i].1.model()))
}

/// The characters that an escape `\e` stands for (for `e` other than `u`):
/// the usual JSON escapes, and the backslash and `e` themselves otherwise.
pub open spec fn escaped(e: char) -> Seq<char> {
    if e == '"' {
        seq!['"']
    } else if e == '\\' {
        seq!['\\']
    } else if e == '/' {
        seq!['/']
    } else if e == 'n' {
        seq!['\n']
    } else if e == 'r' {
        seq!['\r']
    } else if e == 't' {
        seq!['\t']
    } else if e == 'b' {
        seq!['\x08']
    } else if e == 'f' {
        seq!['\x0C']
    } else {
        seq!['\\', e]
    }
}

/// The value of a hexadecimal digit, if `c` is one.
pub open spec fn hex_digit(c: char) -> Option<nat> {
    if '0' <= c <= '9' {
        Some((c as nat - 48) as nat)
    } else if 'a' <= c <= 'f' {
        Some((c as nat - 87) as nat)
    } else if 'A' <= c <= 'F' {
        Some((c as nat - 55) as nat)
    } else {
        None
    }
}

/// The value of a string of hexadecimal digits, if all its characters are
/// hexadecimal digits (the empty string has value 0).
pub open spec fn hex_digits_value(h: Seq<char>) -> Option<nat>
    decreases h.len(),
{
    if h.len() == 0 {
        Some(0)
    } else {
        match (hex_digits_value(h.drop_last()), hex_digit(h.last())) {
            (Some(v), Some(d)) => Some(v * 16 + d),
            _ => None,
        }
    }
}

/// What `u32::from_str_radix(h, 16)` gives for a string of at most four
/// characters: an optional `+` followed by at least one hexadecimal digit.
pub open spec fn hex_value(h: Seq<char>) -> Option<nat> {
    if h.len() == 0 {
        None
    } else if h[0] == '+' {
        if h.len() == 1 {
            None
        } else {
            hex_digits_value(h.drop_first())
        }
    } else {
        hex_digits_value(h)
    }
}

/// The characters that a `\u` escape with the (up to four) characters `h`
/// adds: the character of that code point, or nothing when `h` is not a
/// hexadecimal number or the number is not a scalar value.
pub open spec fn unicode_escaped(h: Seq<char>) -> Seq<char> {
    match hex_value(h) {
        Some(v) => if v < 0xD800 || (0xE000 <= v <= 0x10FFFF) {
            seq![(v as u32) as char]
        } else {
            Seq::empty()
        },
        None => Seq::empty(),
    }
}

/// The rest of a string literal from position `q`, with `acc` read so far:
/// the text and the position after the closing quote, or an error.
pub open spec fn string_body(s: Seq<char>, q: int, acc: Seq<char>) -> Result<(Seq<char>, int), Seq<char>>
    decreases s.len() - q,
{
    if !(0 <= q < s.len()) {
        Err("Unterminated string"@)
    } else if s[q] == '"' {
        Ok((acc, q + 1))
    } else if s[q] == '\\' {
        if q + 1 >= s.len() {
            Err("Unexpected end of string in escape sequence"@)
        } else if s[q + 1] == 'u' {
            let end = if q + 6 <= s.len() { q + 6 } else { s.len() as int };
            string_body(s, end, acc + unicode_escaped(s.subrange(q + 2, end)))
        } else {
            string_body(s, q + 2, acc + escaped(s[q + 1]))
        }
    } else {
        string_body(s, q + 1, acc.push(s[q]))
    }
}

/// A string literal whose opening quote is the character at `p` (that
/// character is taken as the quote whatever it is).
pub open spec fn parse_string(s: Seq<char>, p: int) -> Result<(Seq<char>, int), Seq<char>> {
    string_body(s, p + 1, Seq::empty())
}

pub proof fn lemma_string_body(s: Seq<char>, q: int, acc: Seq<char>)
    requires
        0 <= q,
    ensures
        string_body(s, q, acc) matches Ok((t, e)) ==> q < e <= s.len(),
    decreases s.len() - q,
{
    if 0 <= q < s.len() && s[q] != '"' {
        if s[q] == '\\' {
            if q + 1 < s.len() {
                if s[q + 1] == 'u' {
                    let end = if q + 6 <= s.len() { q + 6 } else { s.len() as int };
                    lemma_string_body(s, end, acc + unicode_escaped(s.subrange(q + 2, end)));
                } else {
                    lemma_string_body(s, q + 2, acc + escaped(s[q + 1]));
                }
            }
        } else {
            lemma_string_body(s, q + 1, acc.push(s[q]));
        }
    }
}

/// Where a number that starts at `p` ends: an optional `-`, digits, an
/// optional `.` and digits, and an optional `e` or `E` with an optional
/// sign and digits. Gives the positions after the sign, after the integer
/// digits, after the fraction, after the exponent's sign, and the end.
pub open spec fn number_shape(s: Seq<char>, p: int) -> (int, int, int, int, int) {
    let a = if char_at(s, p) == Some('-') { p + 1 } else { p };
    let b = digits_end(s, a);
    let c = if char_at(s, b) == Some('.') { digits_end(s, b + 1) } else { b };
    let has_exp = char_at(s, c) == Some('e') || char_at(s, c) == Some('E');
    let x = if has_exp {
        if char_at(s, c + 1) == Some('+') || char_at(s, c + 1) == Some('-') { c + 2 } else { c + 1 }
    } else {
        c
    };
    let d = if has_exp { digits_end(s, x) } else { c };
    (a, b, c, x, d)
}

/// Whether the number text that `number_shape` finds at `p` is one that
/// Rust's `f64` parser accepts: at least one digit before the exponent, and
/// at least one exponent digit when there is an exponent.
pub open spec fn number_ok(s: Seq<char>, p: int) -> bool {
    let (a, b, c, x, d) = number_shape(s, p);
    &&& (b > a || c > b + 1)
    &&& (c < d ==> x < d)
}

pub proof fn lemma_number_shape(s: Seq<char>, p: int)
    requires
        0 <= p <= s.len(),
    ensures
        ({
            let (a, b, c, x, d) = number_shape(s, p);
            &&& p <= a <= b <= c <= x <= d <= s.len()
            &&& (char_at(s, p) matches Some(ch) && (ch == '-' || is_digit(ch)) ==> p < d)
        }),
{
    let (a, b, c, x, d) = number_shape(s, p);
    lemma_digits_end(s, a);
    if char_at(s, b) == Some('.') {
        lemma_digits_end(s, b + 1);
    }
    if c < s.len() && (s[c] == 'e' || s[c] == 'E') {
        lemma_digits_end(s, x);
    }
    if p < s.len() && is_digit(s[p]) {
        lemma_digits_end(s, p + 1);
    }
}

/// A number that starts at `p`: its text and the position after it.
pub open spec fn parse_number(s: Seq<char>, p: int) -> Result<(Seq<char>, int), Seq<char>> {
    let (a, b, c, x, d) = number_shape(s, p);
    if number_ok(s, p) {
        Ok((s.subrange(p, d), d))
    } else {
        Err("Invalid number"@)
    }
}

/// `true` or `false` at `p` (where the character is `t` or `f`).
pub open spec fn parse_bool(s: Seq<char>, p: int) -> Result<(Seq<char>, int), Seq<char>> {
    if char_at(s, p) == Some('t') {
        if p + 4 <= s.len() && s.subrange(p, p + 4) == seq!['t', 'r', 'u', 'e'] {
            Ok((seq!['t', 'r', 'u', 'e'], p + 4))
        } else {
            Err("Invalid boolean"@)
        }
    } else {
        if p + 5 <= s.len() && s.subrange(p, p + 5) == seq!['f', 'a', 'l', 's', 'e'] {
            Ok((seq!['f', 'a', 'l', 's', 'e'], p + 5))
        } else {
            Err("Invalid boolean"@)
        }
    }
}

/// `null` at `p`.
pub open spec fn parse_null(s: Seq<char>, p: int) -> Result<(Seq<char>, int), Seq<char>> {
    if p + 4 <= s.len() && s.subrange(p, p + 4) == seq!['n', 'u', 'l', 'l'] {
        Ok((seq!['n', 'u', 'l', 'l'], p + 4))
    } else {
        Err("Invalid null"@)
    }
}

/// A text result as a string value.
pub open spec fn as_str_value(r: Result<(Seq<char>, int), Seq<char>>) -> Result<(JsonModel, int), Seq<char>> {
    match r {
        Ok((t, e)) => Ok((JsonModel::Str(t), e)),
        Err(m) => Err(m),
    }
}

/// A value other than an object or an array at `q`, read by its first
/// character: a string, `true` or `false`, `null`, or a number; any other
/// character is an error.
pub open spec fn parse_scalar(s: Seq<char>, q: int) -> Result<(JsonModel, int), Seq<char>>
    recommends
        0 <= q < s.len(),
{
    let c = s[q];
    if c == '"' {
        as_str_value(parse_string(s, q))
    } else if c == 't' || c == 'f' {
        as_str_value(parse_bool(s, q))
    } else if c == 'n' {
        as_str_value(parse_null(s, q))
    } else if c == '-' || is_digit(c) {
        as_str_value(parse_number(s, q))
    } else {
        Err("Unexpected character: "@.push(c))
    }
}

/// A value that starts at `p`, after any white space: the value and the
/// position after it, or the error message. Literals `true`, `false` and
/// `null`, and numbers, are read as strings of their text.
pub open spec fn parse_value(s: Seq<char>, p: int) -> Result<(JsonModel, int), Seq<char>>
    decreases s.len() - p, 0int,
{
    let q = skip_ws(s, p);
    if 0 <= p && 0 <= q < s.len() {
        proof {
            lemma_skip_ws(s, p);
        }
        if s[q] == '{' {
            parse_object(s, q + 1)
        } else if s[q] == '[' {
            parse_array(s, q + 1)
        } else {
            parse_scalar(s, q)
        }
    } else {
        Err("Unexpected end of input"@)
    }
}

/// An object whose `{` ends just before `p`.
pub open spec fn parse_object(s: Seq<char>, p: int) -> Result<(JsonModel, int), Seq<char>>
    decreases s.len() - p, 2int,
{
    let q = skip_ws(s, p);
    if 0 <= p <= s.len() {
        proof {
            lemma_skip_ws(s, p);
        }
        if char_at(s, q) == Some('}') {
            Ok((JsonModel::Object(Seq::empty()), q + 1))
        } else {
            parse_members(s, q, Seq::empty())
        }
    } else {
        Err("Unexpected end of input"@)
    }
}

/// The members of an object from `p` on, with `acc` read so far.
pub open spec fn parse_members(s: Seq<char>, p: int, acc: Seq<(Seq<char>, JsonModel)>) -> Result<(JsonModel, int), Seq<char>>
    decreases s.len() - p, 1int,
{
    let k0 = skip_ws(s, p);
    if 0 <= p <= s.len() {
        proof {
            lemma_skip_ws(s, p);
            lemma_string_body(s, k0 + 1, Seq::empty());
        }
        match parse_string(s, k0) {
            Err(m) => Err(m),
            Ok((key, k1)) => {
                let k2 = skip_ws(s, k1);
                proof {
                    lemma_skip_ws(s, k1);
                }
                if char_at(s, k2) != Some(':') {
                    Err("Expected ':' after object key"@)
                } else {
                    match parse_value(s, k2 + 1) {
                        Err(m) => Err(m),
                        Ok((v, e)) => {
                            let acc2 = acc.push((key, v));
                            let r = skip_ws(s, e);
                            if char_at(s, r) == Some(',') && p < e {
                                proof {
                                    lemma_skip_ws(s, e);
                                }
                                parse_members(s, r + 1, acc2)
                            } else if char_at(s, r) == Some('}') {
                                Ok((JsonModel::Object(acc2), r + 1))
                            } else {
                                Err("Expected ',' or '}' in object"@)
                            }
                        },
                    }
                }
            },
        }
    } else {
        Err("Unexpected end of input"@)
    }
}

/// An array whose `[` ends just before `p`.
pub open spec fn parse_array(s: Seq<char>, p: int) -> Result<(JsonModel, int), Seq<char>>
    decreases s.len() - p, 2int,
{
    let q = skip_ws(s, p);
    if 0 <= p <= s.len() {
        proof {
            lemma_skip_ws(s, p);
        }
        if char_at(s, q) == Some(']') {
            Ok((JsonModel::Array(Seq::empty()), q + 1))
        } else {
            parse_elements(s, q, Seq::empty())
        }
    } else {
        Err("Unexpected end of input"@)
    }
}

/// The elements of an array from `p` on, with `acc` read so far.
pub open spec fn parse_elements(s: Seq<char>, p: int, acc: Seq<JsonModel>) -> Result<(JsonModel, int), Seq<char>>
    decreases s.len() - p, 1int,
{
    if 0 <= p <= s.len() {
        match parse_value(s, p) {
            Err(m) => Err(m),
            Ok((v, e)) => {
                let acc2 = acc.push(v);
                let r = skip_ws(s, e);
                if char_at(s, r) == Some(',') && p < e {
                    proof {
                        lemma_skip_ws(s, e);
                    }
                    parse_elements(s, r + 1, acc2)
                } else if char_at(s, r) == Some(']') {
                    Ok((JsonModel::Array(acc2), r + 1))
                } else {
                    Err("Expected ',' or ']' in array"@)
                }
            },
        }
    } else {
        Err("Unexpected end of input"@)
    }
}

proof fn lemma_scalar_advances(s: Seq<char>, q: int)
    requires
        0 <= q < s.len(),
    ensures
        parse_scalar(s, q) matches Ok((v, e)) ==> q < e <= s.len(),
{
    lemma_string_body(s, q + 1, Seq::empty());
    lemma_number_shape(s, q);
}

/// A value that is read ends after where it starts and within the text (so
/// the reader always moves on, and a member or element list never stops
/// for want of progress).
pub proof fn law_value_advances(s: Seq<char>, p: int)
    ensures
        parse_value(s, p) matches Ok((v, e)) ==> p < e <= s.len(),
    decreases s.len() - p, 0int,
{
    let q = skip_ws(s, p);
    if 0 <= p && 0 <= q < s.len() {
        lemma_skip_ws(s, p);
        if s[q] == '{' {
            lemma_object_advances(s, q + 1);
        } else if s[q] == '[' {
            lemma_array_advances(s, q + 1);
        } else {
            lemma_scalar_advances(s, q);
        }
    }
}

proof fn lemma_object_advances(s: Seq<char>, p: int)
    ensures
        parse_object(s, p) matches Ok((v, e)) ==> p < e <= s.len(),
    decreases s.len() - p, 2int,
{
    if 0 <= p <= s.len() {
        lemma_skip_ws(s, p);
        let q = skip_ws(s, p);
        if char_at(s, q) != Some('}') {
            lemma_members_advances(s, q, Seq::empty());
        }
    }
}

proof fn lemma_members_advances(s: Seq<char>, p: int, acc: Seq<(Seq<char>, JsonModel)>)
    ensures
        parse_members(s, p, acc) matches Ok((v, e)) ==> p < e <= s.len(),
    decreases s.len() - p, 1int,
{
    if 0 <= p <= s.len() {
        lemma_skip_ws(s, p);
        let k0 = skip_ws(s, p);
        lemma_string_body(s, k0 + 1, Seq::empty());
        if let Ok((key, k1)) = parse_string(s, k0) {
            lemma_skip_ws(s, k1);
            let k2 = skip_ws(s, k1);
            if char_at(s, k2) == Some(':') {
                law_value_advances(s, k2 + 1);
                if let Ok((v, e)) = parse_value(s, k2 + 1) {
                    lemma_skip_ws(s, e);
                    let r = skip_ws(s, e);
                    if char_at(s, r) == Some(',') && p < e {
                        lemma_members_advances(s, r + 1, acc.push((key, v)));
                    }
                }
            }
        }
    }
}

proof fn lemma_array_advances(s: Seq<char>, p: int)
    ensures
        parse_array(s, p) matches Ok((v, e)) ==> p < e <= s.len(),
    decreases s.len() - p, 2int,
{
    if 0 <= p <= s.len() {
        lemma_skip_ws(s, p);
        let q = skip_ws(s, p);
        if char_at(s, q) != Some(']') {
            lemma_elements_advances(s, q, Seq::empty());
        }
    }
}

proof fn lemma_elements_advances(s: Seq<char>, p: int, acc: Seq<JsonModel>)
    ensures
        parse_elements(s, p, acc) matches Ok((v, e)) ==> p < e <= s.len(),
    decreases s.len() - p, 1int,
{
    if 0 <= p <= s.len() {
        law_value_advances(s, p);
        if let Ok((v, e)) = parse_value(s, p) {
            lemma_skip_ws(s, e);
            let r = skip_ws(s, e);
            if char_at(s, r) == Some(',') && p < e {
                lemma_elements_advances(s, r + 1, acc.push(v));
            }
        }
    }
}

/// The characters of `bytes`, each byte read as the character with that
/// code (Latin-1).
pub open spec fn latin1(bytes: Seq<u8>) -> Seq<char> {
    bytes.map_values(|b: u8| b as char)
}

/// The value at the start of a document (after any white space); what
/// follows it is not read.
pub open spec fn parse_document(bytes: Seq<u8>) -> Result<JsonModel, Seq<char>> {
    match parse_value(latin1(bytes), 0) {
        Ok((v, e)) => Ok(v),
        Err(m) => Err(m),
    }
}

/// What a parse of a value gives, seen as the specification's result: the
/// value's model and the position where the parser stopped, or the message.
pub open spec fn value_outcome(r: Result<JsonValue, String>, pos: int) -> Result<(JsonModel, int), Seq<char>> {
    match r {
        Ok(v) => Ok((v.model(), pos)),
        Err(m) => Err(m@),
    }
}

/// What a parse of a piece of text gives, seen as the specification's result.
pub open spec fn text_outcome(r: Result<String, String>, pos: int) -> Result<(Seq<char>, int), Seq<char>> {
    match r {
        Ok(t) => Ok((t@, pos)),
        Err(m) => Err(m@),
    }
}

/// Appends what the escape `\e` stands for (for `e` other than `u`).
fn push_escaped(result: &mut String, e: char)
    ensures
        final(result)@ == old(result)@ + escaped(e),
{
    if e == '"' {
        push_char(result, '"');
    } else if e == '\\' {
        push_char(result, '\\');
    } else if e == '/' {
        push_char(result, '/');
    } else if e == 'n' {
        push_char(result, '\n');
    } else if e == 'r' {
        push_char(result, '\r');
    } else if e == 't' {
        push_char(result, '\t');
    } else if e == 'b' {
        push_char(result, '\x08');
    } else if e == 'f' {
        push_char(result, '\x0C');
    } else {
        push_char(result, '\\');
        push_char(result, e);
    }
    assert(final(result)@ =~= old(result)@ + escaped(e));
}

fn hex_digit_of(c: char) -> (r: Option<u32>)
    ensures
        r matches Some(v) ==> hex_digit(c) == Some(v as nat) && v < 16,
        r is None ==> hex_digit(c) is None,
{
    if '0' <= c && c <= '9' {
        Some(c as u32 - 48)
    } else if 'a' <= c && c <= 'f' {
        Some(c as u32 - 87)
    } else if 'A' <= c && c <= 'F' {
        Some(c as u32 - 55)
    } else {
        None
    }
}

/// What `u32::from_str_radix(h, 16)` gives, for at most four characters.
fn hex_value_of(h: &[char]) -> (r: Option<u32>)
    requires
        h.len() <= 4,
    ensures
        r matches Some(v) ==> hex_value(h@) == Some(v as nat),
        r is None ==> hex_value(h@) is None,
{
    if h.len() == 0 {
        return None;
    }
    let mut start: usize = 0;
    if h[0] == '+' {
        if h.len() == 1 {
            return None;
        }
        start = 1;
    }
    let ghost digits = if start == 1 { h@.drop_first() } else { h@ };
    assert(digits =~= h@.subrange(start as int, h.len() as int));
    let mut v: u32 = 0;
    let mut i: usize = start;
    proof {
        vstd::arithmetic::power::lemma_pow0(16);
        assert(h@.subrange(start as int, start as int) =~= Seq::<char>::empty());
    }
    while i < h.len()
        invariant
            start <= i <= h.len() <= 4,
            digits == h@.subrange(start as int, h.len() as int),
            hex_digits_value(h@.subrange(start as int, i as int)) == Some(v as nat),
            hex_value(h@) == hex_digits_value(digits),
            v < vstd::arithmetic::power::pow(16, (i - start) as nat),
        decreases h.len() - i,
    {
        let ghost prefix = h@.subrange(start as int, i as int);
        assert(h@.subrange(start as int, i + 1).drop_last() =~= prefix);
        match hex_digit_of(h[i]) {
            Some(d) => {
                proof {
                    vstd::arithmetic::power::lemma_pow_adds(16, (i - start) as nat, 1);
                    vstd::arithmetic::power::lemma_pow1(16);
                    vstd::arithmetic::power::lemma_pow_increases(16, (i - start) as nat, 3);
                    vstd::arithmetic::power::lemma_pow_positive(16, (i - start) as nat);
                    assert(vstd::arithmetic::power::pow(16, 3) == 4096) by {
                        vstd::arithmetic::power::lemma_pow_adds(16, 1, 2);
                        vstd::arithmetic::power::lemma_pow_adds(16, 1, 1);
                        vstd::arithmetic::power::lemma_pow1(16);
                    }
                    assert(v * 16 + d < 16 * vstd::arithmetic::power::pow(16, (i - start) as nat)) by (nonlinear_arith)
                        requires v < vstd::arithmetic::power::pow(16, (i - start) as nat), d < 16;
                    assert(v * 16 + d <= 0xffff) by (nonlinear_arith)
                        requires v < vstd::arithmetic::power::pow(16, (i - start) as nat), d < 16,
                            vstd::arithmetic::power::pow(16, (i - start) as nat) <= 4096;
                }
                v = v * 16 + d;
            },
            None => {
                proof {
                    assert(h@.subrange(start as int, i + 1).last() == h@[i as int]);
                    lemma_hex_digits_prefix_none(digits, (i + 1 - start) as int);
                    assert(digits.take((i + 1 - start) as int) =~= h@.subrange(start as int, i + 1));
                }
                return None;
            },
        }
        i = i + 1;
    }
    assert(h@.subrange(start as int, h.len() as int) == digits);
    Some(v)
}

/// A string of digits that has a non-digit in its first `n` characters has
/// no value.
proof fn lemma_hex_digits_prefix_none(d: Seq<char>, n: int)
    requires
        0 <= n <= d.len(),
        hex_digits_value(d.take(n)) is None,
    ensures
        hex_digits_value(d) is None,
    decreases d.len() - n,
{
    if n < d.len() {
        assert(d.take(n + 1).drop_last() =~= d.take(n));
        lemma_hex_digits_prefix_none(d, n + 1);
    } else {
        assert(d.take(n) =~= d);
    }
}

pub proof fn lemma_object_model(pairs: Vec<(String, JsonValue)>)
    ensures
        JsonValue::Object(pairs).model() == JsonModel::Object(pairs_model(pairs@)),
{
    assert(JsonValue::Object(pairs).model()->Object_0 =~= pairs_model(pairs@));
}

pub proof fn lemma_array_model(items: Vec<JsonValue>)
    ensures
        JsonValue::Array(items).model() == JsonModel::Array(items_model(items@)),
{
    assert(JsonValue::Array(items).model()->Array_0 =~= items_model(items@));
}

/// A parse result with its end position moved by `d`.
pub open spec fn shifted(r: Result<(JsonModel, int), Seq<char>>, d: int) -> Result<(JsonModel, int), Seq<char>> {
    match r {
        Ok((v, e)) => Ok((v, e + d)),
        Err(m) => Err(m),
    }
}

/// A text result with its end position moved by `d`.
pub open spec fn shifted_text(r: Result<(Seq<char>, int), Seq<char>>, d: int) -> Result<(Seq<char>, int), Seq<char>> {
    match r {
        Ok((v, e)) => Ok((v, e + d)),
        Err(m) => Err(m),
    }
}

proof fn lemma_char_at_shift(pre: Seq<char>, t: Seq<char>, i: int)
    requires
        0 <= i,
    ensures
        char_at(pre + t, pre.len() + i) == char_at(t, i),
{
    if i < t.len() {
        assert((pre + t)[pre.len() + i] == t[i]);
    }
}

proof fn lemma_skip_ws_shift(pre: Seq<char>, t: Seq<char>, i: int)
    requires
        0 <= i,
    ensures
        skip_ws(pre + t, pre.len() + i) == pre.len() + skip_ws(t, i),
    decreases t.len() - i,
{
    if i < t.len() {
        assert((pre + t)[pre.len() + i] == t[i]);
        if is_white_space(t[i]) {
            lemma_skip_ws_shift(pre, t, i + 1);
        }
    }
}

proof fn lemma_digits_end_shift(pre: Seq<char>, t: Seq<char>, i: int)
    requires
        0 <= i,
    ensures
        digits_end(pre + t, pre.len() + i) == pre.len() + digits_end(t, i),
    decreases t.len() - i,
{
    if i < t.len() {
        assert((pre + t)[pre.len() + i] == t[i]);
        if is_digit(t[i]) {
            lemma_digits_end_shift(pre, t, i + 1);
        }
    }
}

proof fn lemma_number_shift(pre: Seq<char>, t: Seq<char>, p: int)
    requires
        0 <= p <= t.len(),
    ensures
        parse_number(pre + t, pre.len() + p) == shifted_text(parse_number(t, p), pre.len() as int),
{
    let s = pre + t;
    let d = pre.len() as int;
    lemma_number_shape(t, p);
    let (a, b, c, x, e) = number_shape(t, p);
    lemma_char_at_shift(pre, t, p);
    lemma_digits_end_shift(pre, t, a);
    lemma_char_at_shift(pre, t, b);
    lemma_digits_end_shift(pre, t, b + 1);
    lemma_char_at_shift(pre, t, c);
    lemma_char_at_shift(pre, t, c + 1);
    lemma_digits_end_shift(pre, t, x);
    assert(number_shape(s, d + p) == (d + a, d + b, d + c, d + x, d + e));
    assert(s.subrange(d + p, d + e) =~= t.subrange(p, e));
}

proof fn lemma_string_body_shift(pre: Seq<char>, t: Seq<char>, q: int, acc: Seq<char>)
    requires
        0 <= q,
    ensures
        string_body(pre + t, pre.len() + q, acc) == shifted_text(string_body(t, q, acc), pre.len() as int),
    decreases t.len() - q,
{
    let s = pre + t;
    let d = pre.len() as int;
    if q < t.len() {
        assert(s[d + q] == t[q]);
        if t[q] == '"' {
        } else if t[q] == '\\' {
            if q + 1 < t.len() {
                assert(s[d + q + 1] == t[q + 1]);
                if t[q + 1] == 'u' {
                    let end = if q + 6 <= t.len() { q + 6 } else { t.len() as int };
                    assert(s.subrange(d + q + 2, d + end) =~= t.subrange(q + 2, end));
                    lemma_string_body_shift(pre, t, end, acc + unicode_escaped(t.subrange(q + 2, end)));
                } else {
                    lemma_string_body_shift(pre, t, q + 2, acc + escaped(t[q + 1]));
                }
            }
        } else {
            lemma_string_body_shift(pre, t, q + 1, acc.push(t[q]));
        }
    }
}

proof fn lemma_scalar_shift(pre: Seq<char>, t: Seq<char>, q: int)
    requires
        0 <= q < t.len(),
    ensures
        parse_scalar(pre + t, pre.len() + q) == shifted(parse_scalar(t, q), pre.len() as int),
{
    let s = pre + t;
    let d = pre.len() as int;
    assert(s[d + q] == t[q]);
    lemma_string_body_shift(pre, t, q + 1, Seq::empty());
    lemma_char_at_shift(pre, t, q);
    if q + 4 <= t.len() {
        assert(s.subrange(d + q, d + q + 4) =~= t.subrange(q, q + 4));
    }
    if q + 5 <= t.len() {
        assert(s.subrange(d + q, d + q + 5) =~= t.subrange(q, q + 5));
    }
    lemma_number_shift(pre, t, q);
}

/// A value read from a position depends only on the text from there on.
proof fn lemma_value_shift(pre: Seq<char>, t: Seq<char>, p: int)
    requires
        0 <= p,
    ensures
        parse_value(pre + t, pre.len() + p) == shifted(parse_value(t, p), pre.len() as int),
    decreases t.len() - p, 0int,
{
    let s = pre + t;
    let d = pre.len() as int;
    lemma_skip_ws_shift(pre, t, p);
    lemma_skip_ws(t, p);
    let q = skip_ws(t, p);
    if q < t.len() {
        assert(s[d + q] == t[q]);
        if t[q] == '{' {
            lemma_object_shift(pre, t, q + 1);
        } else if t[q] == '[' {
            lemma_array_shift(pre, t, q + 1);
        } else {
            lemma_scalar_shift(pre, t, q);
        }
    }
}

proof fn lemma_object_shift(pre: Seq<char>, t: Seq<char>, p: int)
    requires
        0 <= p,
    ensures
        parse_object(pre + t, pre.len() + p) == shifted(parse_object(t, p), pre.len() as int),
    decreases t.len() - p, 2int,
{
    if p <= t.len() {
        lemma_skip_ws_shift(pre, t, p);
        lemma_skip_ws(t, p);
        let q = skip_ws(t, p);
        lemma_char_at_shift(pre, t, q);
        if char_at(t, q) != Some('}') {
            lemma_members_shift(pre, t, q, Seq::empty());
        }
    }
}

proof fn lemma_members_shift(pre: Seq<char>, t: Seq<char>, p: int, acc: Seq<(Seq<char>, JsonModel)>)
    requires
        0 <= p,
    ensures
        parse_members(pre + t, pre.len() + p, acc) == shifted(parse_members(t, p, acc), pre.len() as int),
    decreases t.len() - p, 1int,
{
    let d = pre.len() as int;
    if p <= t.len() {
        lemma_skip_ws_shift(pre, t, p);
        lemma_skip_ws(t, p);
        let k0 = skip_ws(t, p);
        lemma_string_body(t, k0 + 1, Seq::empty());
        lemma_string_body_shift(pre, t, k0 + 1, Seq::empty());
        match parse_string(t, k0) {
            Err(m) => {},
            Ok((key, k1)) => {
                lemma_skip_ws_shift(pre, t, k1);
                lemma_skip_ws(t, k1);
                let k2 = skip_ws(t, k1);
                lemma_char_at_shift(pre, t, k2);
                if char_at(t, k2) == Some(':') {
                    lemma_value_shift(pre, t, k2 + 1);
                    match parse_value(t, k2 + 1) {
                        Err(m) => {},
                        Ok((v, e)) => {
                            law_value_advances(t, k2 + 1);
                            let acc2 = acc.push((key, v));
                            lemma_skip_ws_shift(pre, t, e);
                            lemma_skip_ws(t, e);
                            let r = skip_ws(t, e);
                            lemma_char_at_shift(pre, t, r);
                            if char_at(t, r) == Some(',') && p < e {
                                lemma_members_shift(pre, t, r + 1, acc2);
                            }
                        },
                    }
                }
            },
        }
    }
}

proof fn lemma_array_shift(pre: Seq<char>, t: Seq<char>, p: int)
    requires
        0 <= p,
    ensures
        parse_array(pre + t, pre.len() + p) == shifted(parse_array(t, p), pre.len() as int),
    decreases t.len() - p, 2int,
{
    if p <= t.len() {
        lemma_skip_ws_shift(pre, t, p);
        lemma_skip_ws(t, p);
        let q = skip_ws(t, p);
        lemma_char_at_shift(pre, t, q);
        if char_at(t, q) != Some(']') {
            lemma_elements_shift(pre, t, q, Seq::empty());
        }
    }
}

proof fn lemma_elements_shift(pre: Seq<char>, t: Seq<char>, p: int, acc: Seq<JsonModel>)
    requires
        0 <= p,
    ensures
        parse_elements(pre + t, pre.len() + p, acc) == shifted(parse_elements(t, p, acc), pre.len() as int),
    decreases t.len() - p, 1int,
{
    if p <= t.len() {
        lemma_value_shift(pre, t, p);
        match parse_value(t, p) {
            Err(m) => {},
            Ok((v, e)) => {
                law_value_advances(t, p);
                let acc2 = acc.push(v);
                lemma_skip_ws_shift(pre, t, e);
                lemma_skip_ws(t, e);
                let r = skip_ws(t, e);
                lemma_char_at_shift(pre, t, r);
                if char_at(t, r) == Some(',') && p < e {
                    lemma_elements_shift(pre, t, r + 1, acc2);
                }
            },
        }
    }
}

proof fn lemma_plain_string(s: Seq<char>, q: int, k: Seq<char>, j: int)
    requires
        0 <= q,
        0 <= j <= k.len(),
        q + 1 + k.len() < s.len(),
        forall|i: int| 0 <= i < k.len() ==> s[q + 1 + i] == k[i] && k[i] != '"' && k[i] != '\\',
        s[q + 1 + k.len()] == '"',
    ensures
        string_body(s, q + 1 + j, k.take(j)) == Ok::<(Seq<char>, int), Seq<char>>((k, q + 2 + k.len())),
    decreases k.len() - j,
{
    if j < k.len() {
        assert(s[q + 1 + j] == k[j]);
        assert(k.take(j).push(k[j]) =~= k.take(j + 1));
        lemma_plain_string(s, q, k, j + 1);
    } else {
        assert(k.take(j) =~= k);
    }
}

proof fn lemma_skip_ws_run(s: Seq<char>, i: int, j: int)
    requires
        0 <= i <= j <= s.len(),
        forall|m: int| i <= m < j ==> is_white_space(#[trigger] s[m]),
    ensures
        skip_ws(s, i) == skip_ws(s, j),
    decreases j - i,
{
    if i < j {
        lemma_skip_ws_run(s, i + 1, j);
    }
}

/// What a member list gives once its key and colon are read, the value
/// starting the text `t`.
spec fn members_rest(t: Seq<char>, key: Seq<char>, acc: Seq<(Seq<char>, JsonModel)>) -> Result<(JsonModel, int), Seq<char>> {
    match parse_value(t, 0) {
        Err(m) => Err(m),
        Ok((v, e)) => {
            let acc2 = acc.push((key, v));
            let r = skip_ws(t, e);
            if char_at(t, r) == Some(',') {
                parse_members(t, r + 1, acc2)
            } else if char_at(t, r) == Some('}') {
                Ok((JsonModel::Object(acc2), r + 1))
            } else {
                Err("Expected ',' or '}' in object"@)
            }
        },
    }
}

#[verifier::rlimit(40)]
proof fn lemma_members_after_colon(
    a: Seq<char>,
    t: Seq<char>,
    q: int,
    acc: Seq<(Seq<char>, JsonModel)>,
    key: Seq<char>,
    k1: int,
)
    requires
        0 <= q < a.len(),
        a[a.len() - 1] == ':',
        parse_string(a + t, skip_ws(a + t, q)) == Ok::<(Seq<char>, int), Seq<char>>((key, k1)),
        skip_ws(a + t, k1) == a.len() - 1,
    ensures
        parse_members(a + t, q, acc) == shifted(members_rest(t, key, acc), a.len() as int),
{
    let s = a + t;
    let d = a.len() as int;
    assert(s[d - 1] == ':');
    lemma_skip_ws(s, q);
    lemma_value_shift(a, t, 0);
    assert(parse_value(s, d) == shifted(parse_value(t, 0), d));
    match parse_value(t, 0) {
        Err(m) => {},
        Ok((v, e)) => {
            law_value_advances(t, 0);
            let acc2 = acc.push((key, v));
            lemma_skip_ws_shift(a, t, e);
            lemma_skip_ws(t, e);
            let r = skip_ws(t, e);
            lemma_char_at_shift(a, t, r);
            lemma_members_shift(a, t, r + 1, acc2);
            assert(q < d + e);
        },
    }
}

/// White space between an object key and its colon changes nothing: a
/// member list that reads a key (here one without quotes or backslashes),
/// white space and a colon gives the same result as the one without that
/// white space, only ending that much later. So `{"k" : "v"}` reads as
/// `{"k":"v"}`.
pub proof fn law_space_before_colon_is_ignored(
    pre: Seq<char>,
    k: Seq<char>,
    w: Seq<char>,
    t: Seq<char>,
    acc: Seq<(Seq<char>, JsonModel)>,
)
    requires
        forall|i: int| 0 <= i < k.len() ==> k[i] != '"' && k[i] != '\\',
        forall|i: int| 0 <= i < w.len() ==> is_white_space(#[trigger] w[i]),
    ensures
        parse_members(pre + seq!['"'] + k + seq!['"'] + w + seq![':'] + t, pre.len() as int, acc)
            == shifted(parse_members(pre + seq!['"'] + k + seq!['"', ':'] + t, pre.len() as int, acc), w.len() as int),
{
    let q = pre.len() as int;
    let n = k.len() as int;
    let a1 = pre + seq!['"'] + k + seq!['"', ':'];
    let a2 = pre + seq!['"'] + k + seq!['"'] + w + seq![':'];
    let s1 = a1 + t;
    let s2 = a2 + t;
    assert(s1 =~= pre + seq!['"'] + k + seq!['"', ':'] + t);
    assert(s2 =~= pre + seq!['"'] + k + seq!['"'] + w + seq![':'] + t);
    let k1 = q + n + 2;
    assert(s1[q] == '"');
    assert(s2[q] == '"');
    assert forall|i: int| 0 <= i < n implies s1[q + 1 + i] == k[i] && k[i] != '"' && k[i] != '\\' by {
        assert(s1[q + 1 + i] == k[i]);
    }
    assert forall|i: int| 0 <= i < n implies s2[q + 1 + i] == k[i] && k[i] != '"' && k[i] != '\\' by {
        assert(s2[q + 1 + i] == k[i]);
    }
    assert(s1[q + 1 + n] == '"');
    assert(s2[q + 1 + n] == '"');
    lemma_plain_string(s1, q, k, 0);
    lemma_plain_string(s2, q, k, 0);
    assert(k.take(0) =~= Seq::<char>::empty());
    assert(skip_ws(s1, q) == q);
    assert(skip_ws(s2, q) == q);
    assert(s1[k1] == ':');
    assert(skip_ws(s1, k1) == k1);
    assert forall|m: int| k1 <= m < k1 + w.len() implies is_white_space(#[trigger] s2[m]) by {
        assert(s2[m] == w[m - k1]);
    }
    lemma_skip_ws_run(s2, k1, k1 + w.len());
    assert(s2[k1 + w.len()] == ':');
    assert(skip_ws(s2, k1 + w.len()) == k1 + w.len());
    assert(a1.len() == k1 + 1);
    assert(a2.len() == k1 + w.len() + 1);
    assert(a1[a1.len() - 1] == ':');
    assert(a2[a2.len() - 1] == ':');
    lemma_members_after_colon(a1, t, q, acc, k, k1);
    lemma_members_after_colon(a2, t, q, acc, k, k1);
}

/// In particular a document that is an object whose first key is followed
/// by white space before its colon reads as the one without that white
/// space: `{"k" : "v"}` gives the same value as `{"k":"v"}`.
pub proof fn law_document_space_before_colon_is_ignored(k: Seq<char>, w: Seq<char>, t: Seq<char>)
    requires
        forall|i: int| 0 <= i < k.len() ==> k[i] != '"' && k[i] != '\\',
        forall|i: int| 0 <= i < w.len() ==> is_white_space(#[trigger] w[i]),
    ensures
        parse_value(seq!['{', '"'] + k + seq!['"'] + w + seq![':'] + t, 0)
            == shifted(parse_value(seq!['{', '"'] + k + seq!['"', ':'] + t, 0), w.len() as int),
{
    let pre = seq!['{'];
    let s1 = seq!['{', '"'] + k + seq!['"', ':'] + t;
    let s2 = seq!['{', '"'] + k + seq!['"'] + w + seq![':'] + t;
    assert(s1 =~= pre + seq!['"'] + k + seq!['"', ':'] + t);
    assert(s2 =~= pre + seq!['"'] + k + seq!['"'] + w + seq![':'] + t);
    law_space_before_colon_is_ignored(pre, k, w, t, Seq::empty());
    assert(s1[0] == '{' && s2[0] == '{');
    assert(s1[1] == '"' && s2[1] == '"');
    assert(skip_ws(s1, 0) == 0);
    assert(skip_ws(s2, 0) == 0);
    assert(skip_ws(s1, 1) == 1);
    assert(skip_ws(s2, 1) == 1);
}

/// Reads the JSON value at the start of `input` (after any white space),
/// each byte taken as one character; what follows the value is not read.
pub struct Json;

impl Json {
    pub fn parse(input: &[u8]) -> (r: Result<JsonValue, String>)
        ensures
            parse_document(input@) == match r {
                Ok(v) => Ok(v.model()),
                Err(m) => Err(m@),
            },
    {
        let mut parser = JsonParser::new(input);
        parser.parse()
    }
}

/// A reader over the characters of a document.
pub struct JsonParser {
    chars: Vec<char>,
    pos: usize,
}

impl JsonParser {
    /// Whether the position lies inside the document or just after it.
    pub closed spec fn wf(&self) -> bool {
        self.pos <= self.chars.len()
    }

    fn new(input: &[u8]) -> (p: Self)
        ensures
            p.chars@ == latin1(input@),
            p.pos == 0,
    {
        let mut chars: Vec<char> = Vec::new();
        let mut i: usize = 0;
        while i < input.len()
            invariant
                i <= input.len(),
                chars@ =~= latin1(input@).take(i as int),
            decreases input.len() - i,
        {
            chars.push(input[i] as char);
            i = i + 1;
            assert(chars@ =~= latin1(input@).take(i as int));
        }
        assert(latin1(input@).take(input.len() as int) =~= latin1(input@));
        JsonParser { chars, pos: 0 }
    }

    fn peek(&self) -> (c: Option<char>)
        ensures
            c == char_at(self.chars@, self.pos as int),
    {
        if self.pos < self.chars.len() {
            Some(self.chars[self.pos])
        } else {
            None
        }
    }

    /// Takes the current character; the position stays at the end once it
    /// is there.
    fn advance(&mut self) -> (c: Option<char>)
        requires
            old(self).wf(),
        ensures
            c == char_at(old(self).chars@, old(self).pos as int),
            final(self).chars == old(self).chars,
            final(self).pos == if old(self).pos < old(self).chars.len() {
                old(self).pos + 1
            } else {
                old(self).pos as int
            },
            final(self).wf(),
    {
        let ch = self.peek();
        if self.pos < self.chars.len() {
            self.pos = self.pos + 1;
        }
        ch
    }

    fn skip_whitespace(&mut self)
        requires
            old(self).wf(),
        ensures
            final(self).chars == old(self).chars,
            final(self).pos == skip_ws(old(self).chars@, old(self).pos as int),
            final(self).wf(),
    {
        while self.pos < self.chars.len() && is_whitespace(self.chars[self.pos])
            invariant
                self.wf(),
                self.chars == old(self).chars,
                skip_ws(self.chars@, self.pos as int) == skip_ws(old(self).chars@, old(self).pos as int),
            decreases self.chars.len() - self.pos,
        {
            self.pos = self.pos + 1;
        }
    }
    fn peek_is(&self, c: char) -> (r: bool)
        ensures
            r == (char_at(self.chars@, self.pos as int) == Some(c)),
    {
        match self.peek() {
            Some(x) => x == c,
            None => false,
        }
    }

    /// Takes the current character and tells whether it is `c`.
    fn advance_is(&mut self, c: char) -> (r: bool)
        requires
            old(self).wf(),
        ensures
            r == (char_at(old(self).chars@, old(self).pos as int) == Some(c)),
            final(self).chars == old(self).chars,
            final(self).pos == if old(self).pos < old(self).chars.len() {
                old(self).pos + 1
            } else {
                old(self).pos as int
            },
            final(self).wf(),
    {
        match self.advance() {
            Some(x) => x == c,
            None => false,
        }
    }

    /// Takes the characters of `word` one by one while they match; tells
    /// whether the whole word was there.
    fn expect_word(&mut self, word: &[char]) -> (r: bool)
        requires
            old(self).wf(),
        ensures
            final(self).chars == old(self).chars,
            final(self).wf(),
            r == (old(self).pos + word@.len() <= old(self).chars.len() && old(self).chars@.subrange(
                old(self).pos as int,
                old(self).pos + word@.len(),
            ) == word@),
            r ==> final(self).pos == old(self).pos + word@.len(),
    {
        let ghost s = self.chars@;
        let ghost p0 = self.pos as int;
        let mut i: usize = 0;
        while i < word.len()
            invariant
                self.wf(),
                self.chars == old(self).chars,
                s == old(self).chars@,
                p0 == old(self).pos,
                i <= word.len(),
                self.pos == p0 + i,
                p0 + i <= s.len(),
                s.subrange(p0, p0 + i) == word@.take(i as int),
            decreases word.len() - i,
        {
            if !self.advance_is(word[i]) {
                proof {
                    if p0 + word@.len() <= s.len() && s.subrange(p0, p0 + word@.len()) == word@ {
                        assert(s[p0 + i] == s.subrange(p0, p0 + word@.len())[i as int]);
                    }
                }
                return false;
            }
            i = i + 1;
            assert(s.subrange(p0, p0 + i) =~= word@.take(i as int));
        }
        assert(word@.take(word.len() as int) =~= word@);
        true
    }

    /// Takes ASCII digits while there are any, appending them to `num`.
    fn take_digits(&mut self, num: &mut Vec<char>)
        requires
            old(self).wf(),
        ensures
            final(self).chars == old(self).chars,
            final(self).wf(),
            final(self).pos == digits_end(old(self).chars@, old(self).pos as int),
            final(num)@ == old(num)@ + old(self).chars@.subrange(
                old(self).pos as int,
                final(self).pos as int,
            ),
    {
        let ghost s = self.chars@;
        let ghost p0 = self.pos as int;
        let ghost n0 = num@;
        while self.pos < self.chars.len() && is_ascii_digit(self.chars[self.pos as usize])
            invariant
                self.wf(),
                self.chars == old(self).chars,
                s == old(self).chars@,
                p0 == old(self).pos,
                n0 == old(num)@,
                p0 <= self.pos,
                digits_end(s, self.pos as int) == digits_end(s, p0),
                num@ == n0 + s.subrange(p0, self.pos as int),
            decreases self.chars.len() - self.pos,
        {
            num.push(self.chars[self.pos]);
            self.pos = self.pos + 1;
            assert(num@ =~= n0 + s.subrange(p0, self.pos as int));
        }
    }

    #[verifier::rlimit(40)]
    fn parse_number(&mut self) -> (r: Result<String, String>)
        requires
            old(self).wf(),
        ensures
            final(self).chars == old(self).chars,
            final(self).wf(),
            text_outcome(r, final(self).pos as int) == parse_number(old(self).chars@, old(self).pos as int),
            final(self).pos == number_shape(old(self).chars@, old(self).pos as int).4,
    {
        let ghost s = self.chars@;
        let ghost p0 = self.pos as int;
        let mut num: Vec<char> = Vec::new();
        if self.peek_is('-') {
            self.advance();
            num.push('-');
        }
        assert(num@ =~= s.subrange(p0, self.pos as int));
        let a = self.pos;
        proof {
            lemma_digits_end(s, a as int);
        }
        self.take_digits(&mut num);
        let b = self.pos;
        assert(num@ =~= s.subrange(p0, self.pos as int));
        if self.peek_is('.') {
            self.advance();
            num.push('.');
            assert(num@ =~= s.subrange(p0, self.pos as int));
            proof {
                lemma_digits_end(s, self.pos as int);
            }
            self.take_digits(&mut num);
        }
        let c = self.pos;
        assert(num@ =~= s.subrange(p0, self.pos as int));
        let mut x = c;
        match self.peek() {
            Some(e) => {
                if e == 'e' || e == 'E' {
                    self.advance();
                    num.push(e);
                    match self.peek() {
                        Some(sign) => {
                            if sign == '+' || sign == '-' {
                                self.advance();
                                num.push(sign);
                            }
                        },
                        None => {},
                    }
                    x = self.pos;
                    assert(num@ =~= s.subrange(p0, self.pos as int));
                    proof {
                        lemma_digits_end(s, x as int);
                    }
                    self.take_digits(&mut num);
                }
            },
            None => {},
        }
        let d = self.pos;
        assert(num@ =~= s.subrange(p0, d as int));
        assert(number_shape(s, p0) == (a as int, b as int, c as int, x as int, d as int));
        if (b > a || (c > b && c - b > 1)) && (c >= d || x < d) {
            Ok(string_of(num.as_slice()))
        } else {
            Err(String::from_str("Invalid number"))
        }
    }

    fn parse_bool(&mut self) -> (r: Result<bool, String>)
        requires
            old(self).wf(),
        ensures
            final(self).chars == old(self).chars,
            final(self).wf(),
            parse_bool(old(self).chars@, old(self).pos as int) == match r {
                Ok(b) => Ok((
                    if b { seq!['t', 'r', 'u', 'e'] } else { seq!['f', 'a', 'l', 's', 'e'] },
                    final(self).pos as int,
                )),
                Err(m) => Err(m@),
            },
    {
        let ghost s = self.chars@;
        if self.peek_is('t') {
            let w = vec!['t', 'r', 'u', 'e'];
            assert(w@ =~= seq!['t', 'r', 'u', 'e']);
            if self.expect_word(w.as_slice()) {
                Ok(true)
            } else {
                Err(String::from_str("Invalid boolean"))
            }
        } else {
            let w = vec!['f', 'a', 'l', 's', 'e'];
            assert(w@ =~= seq!['f', 'a', 'l', 's', 'e']);
            if self.expect_word(w.as_slice()) {
                Ok(false)
            } else {
                Err(String::from_str("Invalid boolean"))
            }
        }
    }

    fn parse_null(&mut self) -> (r: Result<(), String>)
        requires
            old(self).wf(),
        ensures
            final(self).chars == old(self).chars,
            final(self).wf(),
            parse_null(old(self).chars@, old(self).pos as int) == match r {
                Ok(_) => Ok((seq!['n', 'u', 'l', 'l'], final(self).pos as int)),
                Err(m) => Err(m@),
            },
    {
        let w = vec!['n', 'u', 'l', 'l'];
        assert(w@ =~= seq!['n', 'u', 'l', 'l']);
        if self.expect_word(w.as_slice()) {
            Ok(())
        } else {
            Err(String::from_str("Invalid null"))
        }
    }
    fn parse_string(&mut self) -> (r: Result<String, String>)
        requires
            old(self).wf(),
        ensures
            final(self).chars == old(self).chars,
            final(self).wf(),
            text_outcome(r, final(self).pos as int) == parse_string(old(self).chars@, old(self).pos as int),
    {
        let ghost s = self.chars@;
        let ghost p0 = self.pos as int;
        self.advance();
        let mut result = String::new();
        assert(string_body(s, self.pos as int, result@) == parse_string(s, p0));
        loop
            invariant
                self.wf(),
                self.chars == old(self).chars,
                s == old(self).chars@,
                p0 == old(self).pos,
                string_body(s, self.pos as int, result@) == parse_string(s, p0),
            decreases self.chars.len() - self.pos,
        {
            let ghost q = self.pos as int;
            match self.advance() {
                None => {
                    return Err(String::from_str("Unterminated string"));
                },
                Some(ch) => {
                    if ch == '"' {
                        return Ok(result);
                    } else if ch == '\\' {
                        match self.advance() {
                            None => {
                                return Err(String::from_str("Unexpected end of string in escape sequence"));
                            },
                            Some(e) => {
                                if e == 'u' {
                                    let mut hex: Vec<char> = Vec::new();
                                    let mut k: usize = 0;
                                    while k < 4
                                        invariant
                                            self.wf(),
                                            self.chars == old(self).chars,
                                            s == old(self).chars@,
                                            0 <= q,
                                            q + 2 <= s.len(),
                                            k <= 4,
                                            hex.len() <= k,
                                            self.pos == if q + 2 + k <= s.len() { q + 2 + k } else { s.len() as int },
                                            hex@ == s.subrange(q + 2, self.pos as int),
                                        decreases 4 - k,
                                    {
                                        match self.advance() {
                                            Some(h) => {
                                                hex.push(h);
                                            },
                                            None => {},
                                        }
                                        k = k + 1;
                                        assert(hex@ =~= s.subrange(q + 2, self.pos as int));
                                    }
                                    let ghost before = result@;
                                    match hex_value_of(hex.as_slice()) {
                                        Some(code) => {
                                            match char_from_u32(code) {
                                                Some(u) => {
                                                    proof {
                                                        vstd::utf8::char_u32_cast(u, code);
                                                    }
                                                    push_char(&mut result, u);
                                                },
                                                None => {},
                                            }
                                        },
                                        None => {},
                                    }
                                    assert(result@ =~= before + unicode_escaped(hex@));
                                } else {
                                    push_escaped(&mut result, e);
                                }
                            },
                        }
                    } else {
                        push_char(&mut result, ch);
                    }
                },
            }
        }
    }
    fn parse(&mut self) -> (r: Result<JsonValue, String>)
        requires
            old(self).wf(),
        ensures
            final(self).chars == old(self).chars,
            final(self).wf(),
            value_outcome(r, final(self).pos as int) == parse_value(old(self).chars@, old(self).pos as int),
            r is Ok ==> final(self).pos > old(self).pos,
        decreases old(self).chars@.len() - old(self).pos, 1int,
    {
        let ghost s = self.chars@;
        let ghost p0 = self.pos as int;
        self.skip_whitespace();
        proof {
            lemma_skip_ws(s, p0);
        }
        match self.peek() {
            Some(c) => {
                if c == '{' {
                    self.parse_object()
                } else if c == '[' {
                    self.parse_array()
                } else {
                    self.parse_scalar(c)
                }
            },
            None => Err(String::from_str("Unexpected end of input")),
        }
    }

    fn parse_object(&mut self) -> (r: Result<JsonValue, String>)
        requires
            old(self).wf(),
            old(self).pos < old(self).chars.len(),
        ensures
            final(self).chars == old(self).chars,
            final(self).wf(),
            value_outcome(r, final(self).pos as int) == parse_object(old(self).chars@, old(self).pos + 1),
            r is Ok ==> final(self).pos > old(self).pos,
        decreases old(self).chars@.len() - old(self).pos, 0int,
    {
        let ghost s = self.chars@;
        let ghost p0 = self.pos as int;
        self.advance();
        proof {
            lemma_skip_ws(s, p0 + 1);
        }
        self.skip_whitespace();
        let mut pairs: Vec<(String, JsonValue)> = Vec::new();
        assert(pairs_model(pairs@) =~= Seq::empty());
        if self.peek_is('}') {
            self.advance();
            proof {
                lemma_object_model(pairs);
            }
            return Ok(JsonValue::Object(pairs));
        }
        assert(pairs_model(pairs@) =~= Seq::empty());
        loop
            invariant
                self.wf(),
                self.chars == old(self).chars,
                s == old(self).chars@,
                p0 == old(self).pos,
                p0 < self.pos,
                parse_members(s, self.pos as int, pairs_model(pairs@)) == parse_object(s, p0 + 1),
            decreases self.chars.len() - self.pos,
        {
            let ghost p = self.pos as int;
            proof {
                lemma_skip_ws(s, p);
            }
            self.skip_whitespace();
            let ghost k0 = self.pos as int;
            proof {
                lemma_string_body(s, k0 + 1, Seq::empty());
            }
            let key = match self.parse_string() {
                Ok(k) => k,
                Err(m) => {
                    return Err(m);
                },
            };
            proof {
                lemma_skip_ws(s, self.pos as int);
            }
            self.skip_whitespace();
            if !self.advance_is(':') {
                return Err(String::from_str("Expected ':' after object key"));
            }
            let value = match self.parse() {
                Ok(v) => v,
                Err(m) => {
                    return Err(m);
                },
            };
            let ghost before = pairs@;
            pairs.push((key, value));
            assert(pairs_model(pairs@) =~= pairs_model(before).push((key@, value.model())));
            proof {
                lemma_skip_ws(s, self.pos as int);
            }
            self.skip_whitespace();
            if self.peek_is(',') {
                self.advance();
            } else if self.peek_is('}') {
                self.advance();
                proof {
                    lemma_object_model(pairs);
                }
                return Ok(JsonValue::Object(pairs));
            } else {
                return Err(String::from_str("Expected ',' or '}' in object"));
            }
        }
    }

    fn parse_array(&mut self) -> (r: Result<JsonValue, String>)
        requires
            old(self).wf(),
            old(self).pos < old(self).chars.len(),
        ensures
            final(self).chars == old(self).chars,
            final(self).wf(),
            value_outcome(r, final(self).pos as int) == parse_array(old(self).chars@, old(self).pos + 1),
            r is Ok ==> final(self).pos > old(self).pos,
        decreases old(self).chars@.len() - old(self).pos, 0int,
    {
        let ghost s = self.chars@;
        let ghost p0 = self.pos as int;
        self.advance();
        proof {
            lemma_skip_ws(s, p0 + 1);
        }
        self.skip_whitespace();
        let mut items: Vec<JsonValue> = Vec::new();
        assert(items_model(items@) =~= Seq::empty());
        if self.peek_is(']') {
            self.advance();
            proof {
                lemma_array_model(items);
            }
            return Ok(JsonValue::Array(items));
        }
        assert(items_model(items@) =~= Seq::empty());
        loop
            invariant
                self.wf(),
                self.chars == old(self).chars,
                s == old(self).chars@,
                p0 == old(self).pos,
                p0 < self.pos,
                parse_elements(s, self.pos as int, items_model(items@)) == parse_array(s, p0 + 1),
            decreases self.chars.len() - self.pos,
        {
            let ghost p = self.pos as int;
            let value = match self.parse() {
                Ok(v) => v,
                Err(m) => {
                    return Err(m);
                },
            };
            let ghost before = items@;
            items.push(value);
            assert(items_model(items@) =~= items_model(before).push(value.model()));
            proof {
                lemma_skip_ws(s, self.pos as int);
            }
            self.skip_whitespace();
            if self.peek_is(',') {
                self.advance();
            } else if self.peek_is(']') {
                self.advance();
                proof {
                    lemma_array_model(items);
                }
                return Ok(JsonValue::Array(items));
            } else {
                return Err(String::from_str("Expected ',' or ']' in array"));
            }
        }
    }
    /// Reads a value other than an object or an array; `c` is the current
    /// character.
    fn parse_scalar(&mut self, c: char) -> (r: Result<JsonValue, String>)
        requires
            old(self).wf(),
            char_at(old(self).chars@, old(self).pos as int) == Some(c),
        ensures
            final(self).chars == old(self).chars,
            final(self).wf(),
            value_outcome(r, final(self).pos as int) == parse_scalar(old(self).chars@, old(self).pos as int),
            r is Ok ==> final(self).pos > old(self).pos,
    {
        let ghost s = self.chars@;
        let ghost p0 = self.pos as int;
        if c == '"' {
            proof {
                lemma_string_body(s, p0 + 1, Seq::empty());
            }
            match self.parse_string() {
                Ok(t) => {
                    Ok(JsonValue::String(t))
                },
                Err(m) => Err(m),
            }
        } else if c == 't' || c == 'f' {
            match self.parse_bool() {
                Ok(b) => {
                    if b {
                        proof {
                            reveal_strlit("true");
                        }
                        assert("true"@ =~= seq!['t', 'r', 'u', 'e']);
                        Ok(JsonValue::String(String::from_str("true")))
                    } else {
                        proof {
                            reveal_strlit("false");
                        }
                        assert("false"@ =~= seq!['f', 'a', 'l', 's', 'e']);
                        Ok(JsonValue::String(String::from_str("false")))
                    }
                },
                Err(m) => Err(m),
            }
        } else if c == 'n' {
            match self.parse_null() {
                Ok(_) => {
                    proof {
                        reveal_strlit("null");
                    }
                    assert("null"@ =~= seq!['n', 'u', 'l', 'l']);
                    Ok(JsonValue::String(String::from_str("null")))
                },
                Err(m) => Err(m),
            }
        } else if c == '-' || is_ascii_digit(c) {
            proof {
                lemma_number_shape(s, p0);
            }
            match self.parse_number() {
                Ok(t) => Ok(JsonValue::String(t)),
                Err(m) => Err(m),
            }
        } else {
            let mut m = String::from_str("Unexpected character: ");
            push_char(&mut m, c);
            Err(m)
        }
    }
}

} // verus!
