use fetrust::ansi::{apply_color_rgb, Color};
use fetrust::report::{
    banner_lines, banner_os_name, pad_right_visible, render_report, strip_ansi_codes, visible_len,
};

#[test]
fn escape_sequences_are_removed() {
    assert_eq!(strip_ansi_codes("plain"), "plain");
    assert_eq!(strip_ansi_codes("\x1b[1;31mred\x1b[0m"), "red");
    assert_eq!(strip_ansi_codes("a\x1b]0;title\x07b"), "ab");
    assert_eq!(strip_ansi_codes("a\x1b]0;title\x1b\\b"), "ab");
    assert_eq!(strip_ansi_codes("a\x1b7b"), "ab");
    assert_eq!(strip_ansi_codes("ab\x1b"), "ab");
    assert_eq!(strip_ansi_codes("a\x1b[12"), "a");
    assert_eq!(strip_ansi_codes("\x1b]x\x1by\x07z"), "z");
}

#[test]
fn visible_length_ignores_colour() {
    assert_eq!(visible_len(&Color::green().paint("héllo")), 5);
    assert_eq!(visible_len(&apply_color_rgb(10, 200, 3, "abc")), 3);
    let once = strip_ansi_codes("\x1b[31mx\x1b[0m y");
    assert_eq!(strip_ansi_codes(&once), once);
}

#[test]
fn padding_counts_visible_characters() {
    let painted = Color::red().paint("ab");
    let padded = pad_right_visible(&painted, 5);
    assert_eq!(padded, format!("{}   ", painted));
    assert_eq!(visible_len(&padded), 5);
    assert_eq!(pad_right_visible("abcdef", 3), "abcdef");
    assert_eq!(pad_right_visible("", 2), "  ");
    let rgb = apply_color_rgb(255, 0, 7, "xy");
    assert_eq!(visible_len(&pad_right_visible(&rgb, 6)), 6);
    assert_eq!(pad_right_visible(&rgb, 1), rgb);
}

#[test]
fn report_layout() {
    let banner = vec!["AB".to_string(), "C".to_string()];
    let info = vec![
        ("OS".to_string(), "x".to_string()),
        ("Kernel".to_string(), "yy".to_string()),
        ("Shell".to_string(), "z".to_string()),
    ];
    let lines = render_report(&banner, &info, &Some("u@h".to_string()));
    let rail: String = std::iter::repeat('\u{2500}').take(12).collect();
    let expected = vec![
        "".to_string(),
        format!("{}u@h", " ".repeat(13)),
        format!("{}{}", " ".repeat(8), rail),
        "".to_string(),
        "AB     OS      ==>  x ".to_string(),
        "C      Kernel  ==>  yy".to_string(),
        "       Shell   ==>  z ".to_string(),
        "".to_string(),
    ];
    assert_eq!(lines, expected);
}

#[test]
fn report_without_info_or_header() {
    let banner = vec!["A".to_string(), "BB".to_string(), "C".to_string()];
    let lines = render_report(&banner, &Vec::new(), &None);
    assert_eq!(lines, vec!["", "", "A      ", "BB     ", "C      ", ""]);
    let info = vec![
        ("a".to_string(), "1".to_string()),
        ("b".to_string(), "2".to_string()),
        ("c".to_string(), "3".to_string()),
        ("d".to_string(), "4".to_string()),
    ];
    let lines = render_report(&vec!["X".to_string()], &info, &None);
    assert_eq!(lines[2], "      a  ==>  1");
    assert_eq!(lines[3], "X     b  ==>  2");
    assert_eq!(lines[4], "      c  ==>  3");
}

#[test]
fn banner_helpers() {
    assert_eq!(banner_os_name("Arch Linux"), "Arch");
    assert_eq!(banner_os_name(" LinuxLinux Mint "), "Mint");
    assert_eq!(banner_os_name("Linux"), "");
    let b = banner_lines("  \n _ \n\x1b[31m\x1b[0m\n|_|\r\n");
    assert_eq!(b, vec![" _ ".to_string(), "|_|".to_string()]);
}
