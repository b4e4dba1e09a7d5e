use fetrust::figfont::{process_char_line, FIGfont};

fn parse_err(content: &str) -> String {
    match FIGfont::parse(content) {
        Ok(_) => panic!("expected an error"),
        Err(e) => e,
    }
}

#[test]
fn each_font_error() {
    assert_eq!(parse_err(""), "Empty font file");
    assert_eq!(parse_err("\n"), "Invalid FIGfont header");
    assert_eq!(parse_err("abc 1 2 3 4 5 6"), "Invalid FIGfont header");
    assert_eq!(parse_err("flf2a 1 2 x 3"), "Invalid FIGfont header values");
    assert_eq!(parse_err("flf2a$ 0 0 0 0 0 0"), "Invalid font height");
    assert!(FIGfont::header_in_range("flf2a$ 0 0 0 0 -1 0"));
    assert_eq!(parse_err("flf2a$ 0 0 0 0 -1 0"), "Invalid font height");
}

#[test]
fn header_range_check() {
    assert!(FIGfont::header_in_range("flf2a$ 3 3 10 10 0 0"));
    assert!(!FIGfont::header_in_range("flf2a$ -3 3 10 10 0 0"));
    assert!(!FIGfont::header_in_range("flf2a$ 1 1 1 1 -1 0"));
    assert!(FIGfont::header_in_range("flf2a$ 1 1 1 1 -5 0"));
    assert!(FIGfont::header_in_range("not a font"));
}

#[test]
fn glyph_lines_lose_end_marks_and_hardblanks() {
    assert_eq!(process_char_line("a$b@@"), "a b");
    assert_eq!(process_char_line("x@"), "x");
    assert_eq!(process_char_line("@@@"), "@");
    assert_eq!(process_char_line(""), "");
    assert_eq!(process_char_line("$$"), "  ");
}

#[test]
fn render_with_space_fallback() {
    let font = FIGfont::parse("flf2a$ 2 2 5 0 1 0\ncomment\n $@\n $@@\n!@\n.@@\n").unwrap();
    assert_eq!(font.height(), 2);
    assert!(font.has_char(' '));
    assert!(font.has_char('!'));
    assert!(!font.has_char('?'));
    assert_eq!(font.convert("! ?").unwrap(), "!    \n.    ");
    assert_eq!(font.convert("").unwrap(), "\n");
}

#[test]
fn glyph_lines_are_padded_and_blank_lines_skipped() {
    let font = FIGfont::parse("flf2a$ 2 2 5 0 0 0\n\n  \nab@\nc@@\n\n\nd@\ne@@\n").unwrap();
    assert_eq!(font.convert(" ").unwrap(), "ab\nc ");
    assert_eq!(font.convert("!").unwrap(), "d\ne");
    assert_eq!(font.convert(" !").unwrap(), "abd\nc e");
}

#[test]
fn labelled_extended_glyphs() {
    let mut content = String::from("flf2a$ 1 1 5 0 0 0\n");
    for _ in 32..128 {
        content.push_str("x@@\n");
    }
    content.push_str("128  EXTRA\n");
    content.push_str("y@@\n");
    let font = FIGfont::parse(&content).unwrap();
    assert!(font.has_char('\u{7f}'));
    assert!(font.has_char('\u{80}'));
    assert_eq!(font.convert("\u{80}").unwrap(), "y");
    assert_eq!(font.convert("A").unwrap(), "x");
}

#[test]
fn negative_comment_count_reads_no_glyph() {
    let font = FIGfont::parse("flf2a$ 1 1 1 1 -5 0\nx@\n").unwrap();
    assert_eq!(font.height(), 1);
    assert!(!font.has_char(' '));
    assert_eq!(font.convert("abc").unwrap(), "");
}

#[test]
fn rendering_has_as_many_lines_as_the_font_is_high() {
    let font = FIGfont::parse("flf2a$ 3 3 10 10 0 0\n   $@\n  $ @\n $  @@\n").unwrap();
    for text in ["", " ", "hello", "\u{1F600}"] {
        let out = font.convert(text).unwrap();
        assert_eq!(out.matches('\n').count(), 2);
    }
}
