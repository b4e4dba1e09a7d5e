use fetrust::json::{Json, JsonValue};

fn text(v: &JsonValue) -> String {
    match v {
        JsonValue::String(s) => s.clone(),
        _ => panic!("not a string"),
    }
}

fn err(input: &[u8]) -> String {
    match Json::parse(input) {
        Ok(_) => panic!("expected an error"),
        Err(e) => e,
    }
}

#[test]
fn strings_and_escapes() {
    let v = Json::parse(br#""a\nb\u0041\\\"\/\t""#).unwrap();
    assert_eq!(text(&v), "a\nbA\\\"/\t");
    let v = Json::parse(br#""\b\f\r""#).unwrap();
    assert_eq!(text(&v), "\x08\x0C\r");
    let v = Json::parse(br#""\q""#).unwrap();
    assert_eq!(text(&v), "\\q");
    let v = Json::parse(br#""x\ud800y""#).unwrap();
    assert_eq!(text(&v), "xy");
    let v = Json::parse(br#""\uzzzz!""#).unwrap();
    assert_eq!(text(&v), "!");
    let v = Json::parse(br#""\u+041!""#).unwrap();
    assert_eq!(text(&v), "A!");
    let v = Json::parse(&[0x22, 0xE9, 0x22]).unwrap();
    assert_eq!(text(&v), "\u{e9}");
}

#[test]
fn literals_and_numbers_are_text() {
    assert_eq!(text(&Json::parse(b" true").unwrap()), "true");
    assert_eq!(text(&Json::parse(b"false").unwrap()), "false");
    assert_eq!(text(&Json::parse(b"null").unwrap()), "null");
    assert_eq!(text(&Json::parse(b"-12.5e+3,").unwrap()), "-12.5e+3");
    assert_eq!(text(&Json::parse(b"1.").unwrap()), "1.");
    assert_eq!(text(&Json::parse(b"0012").unwrap()), "0012");
    assert_eq!(text(&Json::parse(b"7E2").unwrap()), "7E2");
}

#[test]
fn each_error_message() {
    assert_eq!(err(b""), "Unexpected end of input");
    assert_eq!(err(b"   "), "Unexpected end of input");
    assert_eq!(err(b"@"), "Unexpected character: @");
    assert_eq!(err(b".5"), "Unexpected character: .");
    assert_eq!(err(b"-"), "Invalid number");
    assert_eq!(err(b"1e"), "Invalid number");
    assert_eq!(err(b"tru"), "Invalid boolean");
    assert_eq!(err(b"fals"), "Invalid boolean");
    assert_eq!(err(b"nul"), "Invalid null");
    assert_eq!(err(br#""abc"#), "Unterminated string");
    assert_eq!(err(br#""ab\"#), "Unexpected end of string in escape sequence");
    assert_eq!(err(br#"{"a" 1}"#), "Expected ':' after object key");
    assert_eq!(err(br#"{"a":1 x"#), "Expected ',' or '}' in object");
    assert_eq!(err(b"[1 2]"), "Expected ',' or ']' in array");
    assert_eq!(err(b"[1,"), "Unexpected end of input");
}

#[test]
fn objects_arrays_and_lookup() {
    let v = Json::parse(br#" {"a": "1", "b": [true, null, {}], "a": "2"} trailing"#).unwrap();
    assert_eq!(v.get("a").unwrap().as_str(), Some("1"));
    assert!(v.get("c").is_none());
    let b = v.get("b").unwrap().as_array().unwrap();
    assert_eq!(b.len(), 3);
    assert_eq!(b[0].print(), "true");
    assert_eq!(b[1].print(), "null");
    assert_eq!(b[2].print(), "");
    assert!(b[2].as_array().is_none());
    assert!(b[0].get("x").is_none());
    let e = Json::parse(b"[]").unwrap();
    assert_eq!(e.as_array().unwrap().len(), 0);
    assert!(e.as_str().is_none());
    let k = Json::parse(br#"{x": "v"}"#).unwrap();
    assert_eq!(k.get("").unwrap().as_str(), Some("v"));
}
