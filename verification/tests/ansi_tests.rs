use fetrust::ansi::{
    apply_color, apply_color_rgb, color_is_defined, random_color_codes, thread_rand,
    undefined_color_warning, Color, SimpleRng,
};
use fetrust::report::visible_len;

#[test]
fn named_colours_wrap_text_in_their_codes() {
    assert_eq!(Color::black().paint("x"), "\x1b[30mx\x1b[0m");
    assert_eq!(Color::red().paint("x"), "\x1b[31mx\x1b[0m");
    assert_eq!(Color::green().paint("x"), "\x1b[32mx\x1b[0m");
    assert_eq!(Color::yellow().paint("x"), "\x1b[33mx\x1b[0m");
    assert_eq!(Color::blue().paint("x"), "\x1b[34mx\x1b[0m");
    assert_eq!(Color::purple().paint("x"), "\x1b[35mx\x1b[0m");
    assert_eq!(Color::cyan().paint("x"), "\x1b[36mx\x1b[0m");
    assert_eq!(Color::white().paint(""), "\x1b[37m\x1b[0m");
    assert_eq!(Color::reset(), "\x1b[0m");
}

#[test]
fn rgb_colour_writes_decimal_components() {
    assert_eq!(apply_color_rgb(1, 22, 255, "hi"), "\x1b[38;2;1;22;255mhi\x1b[0m");
    assert_eq!(apply_color_rgb(0, 100, 9, ""), "\x1b[38;2;0;100;9m\x1b[0m");
}

#[test]
fn apply_color_follows_the_name() {
    assert_eq!(apply_color("cyan", "t"), Color::cyan().paint("t"));
    assert_eq!(apply_color("black", "t"), Color::black().paint("t"));
    assert_eq!(apply_color("white", "t"), "\x1b[37mt\x1b[0m");
    assert_eq!(apply_color("magenta", "t"), "t");
    assert_eq!(apply_color("", "t"), "t");
    assert!(color_is_defined("purple"));
    assert!(color_is_defined("rand"));
    assert!(color_is_defined("random"));
    assert!(!color_is_defined("magenta"));
    assert!(!color_is_defined("Red"));
}

#[test]
fn random_colour_is_a_true_colour_sequence() {
    for name in ["rand", "random"] {
        let s = apply_color(name, "text");
        assert!(s.starts_with("\x1b[38;2;"));
        assert!(s.ends_with("mtext\x1b[0m"));
        assert_eq!(visible_len(&s), 4);
    }
    let _ = random_color_codes();
    let mut r = thread_rand();
    let _ = r.next_u8();
}

#[test]
fn undefined_colour_warning_text() {
    assert_eq!(
        undefined_color_warning("magenta"),
        "\x1b[33mWarning: Color \"magenta\" isn't defined, so it's default color.\x1b[0m"
    );
}

#[test]
fn generator_steps_are_the_lcg() {
    let mut rng = SimpleRng::new(0);
    assert_eq!(rng.next_u64(), 1442695040888963407);
    let expected = 1442695040888963407u64
        .wrapping_mul(6364136223846793005)
        .wrapping_add(1442695040888963407);
    assert_eq!(rng.next_u64(), expected);
    let mut other = SimpleRng::new(0);
    other.next_u64();
    assert_eq!(other.next_u8(), (expected >> 56) as u8);
}

#[test]
fn generator_never_repeats_and_is_deterministic() {
    for seed in [0u64, 1, 42, u64::MAX, 0x8000_0000_0000_0000] {
        let mut a = SimpleRng::new(seed);
        let mut b = SimpleRng::new(seed);
        let mut prev = seed;
        for _ in 0..100 {
            let x = a.next_u64();
            assert_ne!(x, prev);
            assert_eq!(x, b.next_u64());
            prev = x;
        }
    }
}

#[test]
fn color_codes_from_a_seeded_generator() {
    let mut rng = fetrust::ansi::SimpleRng::new(42);
    let c = fetrust::ansi::color_codes_from(&mut rng);
    assert_eq!(c, (145, 57, 105));
    let mut again = fetrust::ansi::SimpleRng::new(42);
    again.next_u64();
    again.next_u64();
    again.next_u64();
    assert_eq!(rng.next_u64(), again.next_u64());
}
