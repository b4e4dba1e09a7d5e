use fetrust::ansi::{Color, SimpleRng};
use fetrust::figfont::FIGfont;
use fetrust::json::{Json, JsonValue};

#[test]
fn test_color_paint() {
    let red = Color::red();
    let painted = red.paint("test");
    assert!(painted.contains("test"));
    assert!(painted.contains("\x1b[30m") || painted.contains("\x1b[31m"));
}

#[test]
fn test_rng() {
    let mut rng = SimpleRng::new(42);
    let val1 = rng.next_u64();
    let val2 = rng.next_u64();
    assert_ne!(val1, val2);
}

#[test]
fn test_parse_simple() {
    let font_content = "flf2a$ 3 3 10 10 0 0
   $@
  $ @
 $  @@
";
    let font = FIGfont::parse(font_content).unwrap();
    assert_eq!(font.height(), 3);
    assert!(font.has_char(' '));
}

#[test]
fn test_parse_object() {
    let json = br#"{"key": "value", "num": 42}"#;
    let result = Json::parse(json).unwrap();
    if let JsonValue::Object(pairs) = result {
        assert_eq!(pairs.len(), 2);
    } else {
        panic!("Expected object");
    }
}

#[test]
fn test_parse_array() {
    let json = br#"[1, 2, 3]"#;
    let result = Json::parse(json).unwrap();
    if let JsonValue::Array(arr) = result {
        assert_eq!(arr.len(), 3);
    } else {
        panic!("Expected array");
    }
}
