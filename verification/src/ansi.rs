//! ANSI colour escape sequences and a linear congruential generator.

use vstd::prelude::*;
use crate::text::{push_char, str_eq};

verus! {

/// The escape sequence that selects foreground colour `3<digit>`.
pub open spec fn fg_code(digit: char) -> Seq<char> {
    seq!['\x1b', '[', '3', digit, 'm']
}

/// The escape sequence that resets all attributes.
pub open spec fn reset_code() -> Seq<char> {
    seq!['\x1b', '[', '0', 'm']
}

/// A foreground colour, held as the escape sequence that selects it.
pub struct Color {
    code: &'static str,
}

impl View for Color {
    type V = Seq<char>;

    closed spec fn view(&self) -> Seq<char> {
        self.code@
    }
}

impl Color {
    /// Foreground colour `30`.
    pub fn black() -> (c: Self)
        ensures
            c@ == fg_code('0'),
    {
        proof {
            reveal_strlit("\x1b[30m");
        }
        Color { code: "\x1b[30m" }
    }

    /// Foreground colour `31`.
    pub fn red() -> (c: Self)
        ensures
            c@ == fg_code('1'),
    {
        proof {
            reveal_strlit("\x1b[31m");
        }
        Color { code: "\x1b[31m" }
    }

    /// Foreground colour `32`.
    pub fn green() -> (c: Self)
        ensures
            c@ == fg_code('2'),
    {
        proof {
            reveal_strlit("\x1b[32m");
        }
        Color { code: "\x1b[32m" }
    }

    /// Foreground colour `33`.
    pub fn yellow() -> (c: Self)
        ensures
            c@ == fg_code('3'),
    {
        proof {
            reveal_strlit("\x1b[33m");
        }
        Color { code: "\x1b[33m" }
    }

    /// Foreground colour `34`.
    pub fn blue() -> (c: Self)
        ensures
            c@ == fg_code('4'),
    {
        proof {
            reveal_strlit("\x1b[34m");
        }
        Color { code: "\x1b[34m" }
    }

    /// Foreground colour `35`.
    pub fn purple() -> (c: Self)
        ensures
            c@ == fg_code('5'),
    {
        proof {
            reveal_strlit("\x1b[35m");
        }
        Color { code: "\x1b[35m" }
    }

    /// Foreground colour `36`.
    pub fn cyan() -> (c: Self)
        ensures
            c@ == fg_code('6'),
    {
        proof {
            reveal_strlit("\x1b[36m");
        }
        Color { code: "\x1b[36m" }
    }

    /// Foreground colour `37`.
    pub fn white() -> (c: Self)
        ensures
            c@ == fg_code('7'),
    {
        proof {
            reveal_strlit("\x1b[37m");
        }
        Color { code: "\x1b[37m" }
    }

    pub fn reset() -> (r: &'static str)
        ensures
            r@ == reset_code(),
    {
        proof {
            reveal_strlit("\x1b[0m");
        }
        "\x1b[0m"
    }
    /// Wraps `text` in this colour's escape sequence and the reset sequence;
    /// a colour with an empty escape sequence leaves `text` as it is.
    pub fn paint(&self, text: &str) -> (s: String)
        ensures
            s@ == painted(self@, text@),
    {
        if self.code.is_empty() {
            String::from_str(text)
        } else {
            let mut s = String::from_str(self.code);
            s.append(text);
            s.append(Self::reset());
            s
        }
    }
}

/// `text` wrapped in `code` and the reset sequence, or `text` alone when
/// `code` is empty.
pub open spec fn painted(code: Seq<char>, text: Seq<char>) -> Seq<char> {
    if code.len() == 0 {
        text
    } else {
        code + text + reset_code()
    }
}

/// The decimal digit character of `d` (for `d < 10`).
pub open spec fn digit_char(d: nat) -> char {
    (48 + d) as char
}

/// The decimal representation of `n`, without leading zeros.
pub open spec fn decimal(n: nat) -> Seq<char>
    decreases n,
{
    if n < 10 {
        seq![digit_char(n)]
    } else {
        decimal(n / 10).push(digit_char(n % 10))
    }
}

/// Appends the decimal representation of `n` to `s`.
pub fn push_decimal_u8(s: &mut String, n: u8)
    ensures
        final(s)@ == old(s)@ + decimal(n as nat),
{
    if n >= 100 {
        push_char(s, ((n / 100) + 48) as char);
        push_char(s, (((n / 10) % 10) + 48) as char);
        push_char(s, ((n % 10) + 48) as char);
        assert(decimal(n as nat) =~= seq![digit_char((n / 100) as nat), digit_char(((n / 10) % 10) as nat), digit_char((n % 10) as nat)]) by {
            assert(decimal((n / 100) as nat) == seq![digit_char((n / 100) as nat)]);
            assert((n as nat / 10) / 10 == n as nat / 100);
            assert(decimal((n / 10) as nat) == decimal((n / 100) as nat).push(digit_char(((n / 10) % 10) as nat)));
        }
    } else if n >= 10 {
        push_char(s, ((n / 10) + 48) as char);
        push_char(s, ((n % 10) + 48) as char);
        assert(decimal(n as nat) =~= seq![digit_char((n / 10) as nat), digit_char((n % 10) as nat)]) by {
            assert(decimal((n / 10) as nat) == seq![digit_char((n / 10) as nat)]);
        }
    } else {
        push_char(s, (n + 48) as char);
    }
}

/// `text` in the 24-bit colour `(r, g, b)`, followed by the reset sequence.
pub open spec fn painted_rgb(r: u8, g: u8, b: u8, text: Seq<char>) -> Seq<char> {
    seq!['\x1b', '[', '3', '8', ';', '2', ';'] + decimal(r as nat) + seq![';'] + decimal(g as nat)
        + seq![';'] + decimal(b as nat) + seq!['m'] + text + reset_code()
}

/// Wraps `text` in the 24-bit true-colour escape sequence for `(r, g, b)`.
pub fn apply_color_rgb(r: u8, g: u8, b: u8, text: &str) -> (s: String)
    ensures
        s@ == painted_rgb(r, g, b, text@),
{
    proof {
        reveal_strlit("\x1b[38;2;");
    }
    let mut s = String::from_str("\x1b[38;2;");
    push_decimal_u8(&mut s, r);
    push_char(&mut s, ';');
    push_decimal_u8(&mut s, g);
    push_char(&mut s, ';');
    push_decimal_u8(&mut s, b);
    push_char(&mut s, 'm');
    s.append(text);
    s.append(Color::reset());
    s
}

/// The digit of the foreground colour that a configuration names, for the
/// eight named colours.
pub open spec fn named_color_digit(name: Seq<char>) -> Option<char> {
    if name == "black"@ {
        Some('0')
    } else if name == "red"@ {
        Some('1')
    } else if name == "green"@ {
        Some('2')
    } else if name == "yellow"@ {
        Some('3')
    } else if name == "blue"@ {
        Some('4')
    } else if name == "purple"@ {
        Some('5')
    } else if name == "cyan"@ {
        Some('6')
    } else if name == "white"@ {
        Some('7')
    } else {
        None
    }
}

/// Whether a configuration asks for a random colour.
pub open spec fn is_random_name(name: Seq<char>) -> bool {
    name == "rand"@ || name == "random"@
}

/// Whether a colour name is one that `apply_color` knows.
pub open spec fn is_defined_color(name: Seq<char>) -> bool {
    named_color_digit(name) is Some || is_random_name(name)
}

/// The colour names, spelled out.
proof fn lemma_color_names()
    ensures
        "black"@ == seq!['b', 'l', 'a', 'c', 'k'],
        "red"@ == seq!['r', 'e', 'd'],
        "green"@ == seq!['g', 'r', 'e', 'e', 'n'],
        "yellow"@ == seq!['y', 'e', 'l', 'l', 'o', 'w'],
        "blue"@ == seq!['b', 'l', 'u', 'e'],
        "purple"@ == seq!['p', 'u', 'r', 'p', 'l', 'e'],
        "cyan"@ == seq!['c', 'y', 'a', 'n'],
        "white"@ == seq!['w', 'h', 'i', 't', 'e'],
        "rand"@ == seq!['r', 'a', 'n', 'd'],
        "random"@ == seq!['r', 'a', 'n', 'd', 'o', 'm'],
{
    reveal_strlit("black");
    assert("black"@ =~= seq!['b', 'l', 'a', 'c', 'k']);
    reveal_strlit("red");
    assert("red"@ =~= seq!['r', 'e', 'd']);
    reveal_strlit("green");
    assert("green"@ =~= seq!['g', 'r', 'e', 'e', 'n']);
    reveal_strlit("yellow");
    assert("yellow"@ =~= seq!['y', 'e', 'l', 'l', 'o', 'w']);
    reveal_strlit("blue");
    assert("blue"@ =~= seq!['b', 'l', 'u', 'e']);
    reveal_strlit("purple");
    assert("purple"@ =~= seq!['p', 'u', 'r', 'p', 'l', 'e']);
    reveal_strlit("cyan");
    assert("cyan"@ =~= seq!['c', 'y', 'a', 'n']);
    reveal_strlit("white");
    assert("white"@ =~= seq!['w', 'h', 'i', 't', 'e']);
    reveal_strlit("rand");
    assert("rand"@ =~= seq!['r', 'a', 'n', 'd']);
    reveal_strlit("random");
    assert("random"@ =~= seq!['r', 'a', 'n', 'd', 'o', 'm']);
}

/// Each of the eight colour names selects its own ANSI foreground colour,
/// `black` to `white` being SGR codes 30 to 37 in that order: text coloured
/// by a name is the text between `ESC [ 3 d m` (`d` the colour's place in
/// that order) and the reset `ESC [ 0 m`.
pub proof fn law_named_colours_are_sgr_30_to_37(t: Seq<char>)
    ensures
        named_color_digit(seq!['b', 'l', 'a', 'c', 'k']) matches Some(d) && painted(fg_code(d), t)
            == seq!['\x1b', '[', '3', '0', 'm'] + t + seq!['\x1b', '[', '0', 'm'],
        named_color_digit(seq!['r', 'e', 'd']) matches Some(d) && painted(fg_code(d), t)
            == seq!['\x1b', '[', '3', '1', 'm'] + t + seq!['\x1b', '[', '0', 'm'],
        named_color_digit(seq!['g', 'r', 'e', 'e', 'n']) matches Some(d) && painted(fg_code(d), t)
            == seq!['\x1b', '[', '3', '2', 'm'] + t + seq!['\x1b', '[', '0', 'm'],
        named_color_digit(seq!['y', 'e', 'l', 'l', 'o', 'w']) matches Some(d) && painted(fg_code(d), t)
            == seq!['\x1b', '[', '3', '3', 'm'] + t + seq!['\x1b', '[', '0', 'm'],
        named_color_digit(seq!['b', 'l', 'u', 'e']) matches Some(d) && painted(fg_code(d), t)
            == seq!['\x1b', '[', '3', '4', 'm'] + t + seq!['\x1b', '[', '0', 'm'],
        named_color_digit(seq!['p', 'u', 'r', 'p', 'l', 'e']) matches Some(d) && painted(fg_code(d), t)
            == seq!['\x1b', '[', '3', '5', 'm'] + t + seq!['\x1b', '[', '0', 'm'],
        named_color_digit(seq!['c', 'y', 'a', 'n']) matches Some(d) && painted(fg_code(d), t)
            == seq!['\x1b', '[', '3', '6', 'm'] + t + seq!['\x1b', '[', '0', 'm'],
        named_color_digit(seq!['w', 'h', 'i', 't', 'e']) matches Some(d) && painted(fg_code(d), t)
            == seq!['\x1b', '[', '3', '7', 'm'] + t + seq!['\x1b', '[', '0', 'm'],
{
    lemma_color_names();
}

/// Colours `text` as the colour name `color` says: one of the eight named
/// colours, a random 24-bit colour for `rand` or `random`, and no colour for
/// any other name.
pub fn apply_color(color: &str, text: &str) -> (s: String)
    ensures
        named_color_digit(color@) matches Some(d) ==> s@ == painted(fg_code(d), text@),
        is_random_name(color@) ==> exists|seed: u64| s@ == #[trigger] painted_random(seed, text@),
        !is_defined_color(color@) ==> s@ == text@,
{
    proof {
        lemma_color_names();
    }
    if str_eq(color, "black") {
        Color::black().paint(text)
    } else if str_eq(color, "red") {
        Color::red().paint(text)
    } else if str_eq(color, "green") {
        Color::green().paint(text)
    } else if str_eq(color, "yellow") {
        Color::yellow().paint(text)
    } else if str_eq(color, "blue") {
        Color::blue().paint(text)
    } else if str_eq(color, "purple") {
        Color::purple().paint(text)
    } else if str_eq(color, "cyan") {
        Color::cyan().paint(text)
    } else if str_eq(color, "white") {
        Color::white().paint(text)
    } else if str_eq(color, "rand") || str_eq(color, "random") {
        let (r, g, b) = random_color_codes();
        let s = apply_color_rgb(r, g, b, text);
        proof {
            let seed = choose|seed: u64| #[trigger] random_codes_from(seed) == (r, g, b);
            assert(s@ == painted_random(seed, text@));
        }
        s
    } else {
        String::from_str(text)
    }
}

/// Whether `is_defined_color` holds of `color`; a caller that reports
/// undefined colour names asks this first.
pub fn color_is_defined(color: &str) -> (r: bool)
    ensures
        r == is_defined_color(color@),
{
    str_eq(color, "black") || str_eq(color, "red") || str_eq(color, "green")
        || str_eq(color, "yellow") || str_eq(color, "blue") || str_eq(color, "purple")
        || str_eq(color, "cyan") || str_eq(color, "white") || str_eq(color, "rand")
        || str_eq(color, "random")
}

/// The yellow warning for a colour name that `apply_color` does not know.
pub open spec fn undefined_color_warning_text(color: Seq<char>) -> Seq<char> {
    fg_code('3') + "Warning: Color \""@ + color + "\" isn't defined, so it's default color."@
        + reset_code()
}

/// The warning text that is reported for an undefined colour name.
pub fn undefined_color_warning(color: &str) -> (s: String)
    ensures
        s@ == undefined_color_warning_text(color@),
{
    let mut s = String::from_str(Color::yellow().code);
    s.append("Warning: Color \"");
    s.append(color);
    s.append("\" isn't defined, so it's default color.");
    s.append(Color::reset());
    s
}

/// One step of the generator: multiply by 6364136223846793005 and add
/// 1442695040888963407, modulo 2^64.
pub open spec fn lcg_step(state: u64) -> u64 {
    ((state as int * 6364136223846793005 + 1442695040888963407) % 0x1_0000_0000_0000_0000) as u64
}

/// The highest byte of `x`.
pub open spec fn top_byte(x: u64) -> u8 {
    (x as int / 0x100_0000_0000_0000) as u8
}

/// The three colour components drawn from a generator seeded with `seed`.
pub open spec fn random_codes_from(seed: u64) -> (u8, u8, u8) {
    (
        top_byte(lcg_step(seed)),
        top_byte(lcg_step(lcg_step(seed))),
        top_byte(lcg_step(lcg_step(lcg_step(seed)))),
    )
}

/// `text` in the 24-bit colour drawn from a generator seeded with `seed`.
pub open spec fn painted_random(seed: u64, text: Seq<char>) -> Seq<char> {
    painted_rgb(random_codes_from(seed).0, random_codes_from(seed).1, random_codes_from(seed).2, text)
}

/// A linear congruential generator (constants of Numerical Recipes).
pub struct SimpleRng {
    state: u64,
}

impl View for SimpleRng {
    type V = u64;

    closed spec fn view(&self) -> u64 {
        self.state
    }
}

impl SimpleRng {
    pub fn new(seed: u64) -> (r: Self)
        ensures
            r@ == seed,
    {
        SimpleRng { state: seed }
    }

    /// Advances the state by one step and returns the new state.
    pub fn next_u64(&mut self) -> (x: u64)
        ensures
            final(self)@ == lcg_step(old(self)@),
            x == final(self)@,
    {
        let m = self.state.wrapping_mul(6364136223846793005);
        let n = m.wrapping_add(1442695040888963407);
        proof {
            let s = self.state as int;
            let p: int = 0x1_0000_0000_0000_0000;
            assert(m as int == (s * 6364136223846793005) % p);
            vstd::arithmetic::div_mod::lemma_add_mod_noop(s * 6364136223846793005, 1442695040888963407, p);
            vstd::arithmetic::div_mod::lemma_small_mod(1442695040888963407nat, p as nat);
            let t = m as int + 1442695040888963407;
            if t < p {
                vstd::arithmetic::div_mod::lemma_small_mod(t as nat, p as nat);
            } else {
                vstd::arithmetic::div_mod::lemma_small_mod((t - p) as nat, p as nat);
                vstd::arithmetic::div_mod::lemma_mod_add_multiples_vanish(t - p, p);
            }
        }
        self.state = n;
        self.state
    }

    /// Advances the state by one step and returns the highest byte of the
    /// new state.
    pub fn next_u8(&mut self) -> (x: u8)
        ensures
            final(self)@ == lcg_step(old(self)@),
            x == top_byte(final(self)@),
    {
        let v = self.next_u64();
        assert((v >> 56u64) as int == v as int / 0x100_0000_0000_0000) by (bit_vector);
        (v >> 56) as u8
    }
}

/// Nanoseconds since the Unix epoch, truncated to 64 bits (0 when the
/// clock reads earlier than the epoch).
///
/// This reads the system clock (`std::time::SystemTime::now`, then
/// `duration_since(UNIX_EPOCH)` and `as_nanos`); nothing is stated of the
/// value, which depends on the time of the call.
#[verifier::external_body]
fn get_system_seed() -> u64 {
    match std::time::SystemTime::now().duration_since(std::time::UNIX_EPOCH) {
        Ok(d) => d.as_nanos() as u64,
        Err(_) => 0,
    }
}

/// A generator seeded from the system clock.
pub fn thread_rand() -> (r: SimpleRng) {
    SimpleRng::new(get_system_seed())
}

/// Three colour components drawn from `rng`: the highest bytes of its next
/// three states, which it is left at.
pub fn color_codes_from(rng: &mut SimpleRng) -> (c: (u8, u8, u8))
    ensures
        c == random_codes_from(old(rng)@),
        final(rng)@ == lcg_step(lcg_step(lcg_step(old(rng)@))),
{
    let r = rng.next_u8();
    let g = rng.next_u8();
    let b = rng.next_u8();
    (r, g, b)
}

/// Three colour components drawn from a generator seeded from the clock:
/// for some seed, the highest bytes of its first three states (as
/// `color_codes_from` draws them).
pub fn random_color_codes() -> (c: (u8, u8, u8))
    ensures
        exists|seed: u64| #[trigger] random_codes_from(seed) == c,
{
    let mut rand = thread_rand();
    color_codes_from(&mut rand)
}

/// The generator never gives the same value twice in a row: a state is
/// never its own successor (the multiplier minus one is even and the
/// increment is odd, so the difference is odd).
pub proof fn law_generator_never_repeats(x: u64)
    ensures
        lcg_step(x) != x,
{
    let v: int = x as int * 6364136223846793005 + 1442695040888963407;
    let p: int = 0x1_0000_0000_0000_0000;
    vstd::arithmetic::div_mod::lemma_fundamental_div_mod(v, p);
    let q = v / p;
    if v % p == x as int {
        assert(v - x as int == p * q);
        assert(v - x as int == 2 * (x as int * 3182068111923396502) + 2 * 721347520444481703 + 1);
        assert(p * q == 2 * (0x8000_0000_0000_0000 * q)) by (nonlinear_arith)
            requires
                p == 0x1_0000_0000_0000_0000,
        ;
        assert(false);
    }
}

/// Two generators with the same state give the same next value and the
/// same next state.
pub proof fn law_generator_is_deterministic(a: SimpleRng, b: SimpleRng)
    requires
        a@ == b@,
    ensures
        lcg_step(a@) == lcg_step(b@),
        top_byte(lcg_step(a@)) == top_byte(lcg_step(b@)),
{
}

} // verus!
