use fetrust::config::{config_header, config_info_lines, config_line, get_member, lookup_field, lookup_header_field};
use fetrust::json::{Json, JsonValue};
use fetrust::sysinfo::SystemInfos;

fn infos() -> SystemInfos {
    SystemInfos {
        os: "Arch Linux".to_string(),
        os_release: "rolling".to_string(),
        username: "me".to_string(),
        hostname: "box".to_string(),
        kernel_name: "Linux".to_string(),
        kernel: "6.9".to_string(),
        shell: "zsh".to_string(),
        family: "unix".to_string(),
        uptime: "1h".to_string(),
        resolution: "1920x1080".to_string(),
        cpu_type: "x86_64".to_string(),
        memory: "1/2 GB".to_string(),
        theme_name: "Adwaita".to_string(),
        icon_theme: "Papirus".to_string(),
        font_name: "Sans".to_string(),
        cursor_theme: "Breeze".to_string(),
        desktop: "GNOME".to_string(),
        host_model: "LENOVO 82RJ".to_string(),
        terminal: "foot".to_string(),
        gpu: "Intel UHD".to_string(),
    }
}

#[test]
fn field_lookups() {
    let i = infos();
    assert_eq!(lookup_field(&i, "theme"), "Adwaita");
    assert_eq!(lookup_field(&i, "kernel"), "6.9");
    assert_eq!(lookup_field(&i, " on "), " on ");
    assert_eq!(lookup_field(&i, "host_model"), "LENOVO 82RJ");
    assert_eq!(lookup_field(&i, "terminal"), "foot");
    assert_eq!(lookup_field(&i, "gpu"), "Intel UHD");
    assert_eq!(lookup_header_field(&i, "hostname"), "box");
    assert_eq!(lookup_header_field(&i, "os"), "os");
}

#[test]
fn header_and_lines() {
    let cfg = Json::parse(
        br#"{"user_a_host_name": [["username", "@", "hostname"], "red"],
            "memory": [["memory"], "blue"],
            "gpu": [["gpu"]],
            "host_model": [["host_model"], "cyan"],
            "os": [["os", " ", "os_release"], null],
            "shell": "not a line",
            "kernel": [["kernel_name", " ", "kernel"], "null"],
            "os": [["ignored"]]}"#,
    )
    .unwrap();
    let i = infos();
    assert_eq!(config_header(&cfg, &i), Some(("me@box".to_string(), "red".to_string())));
    let lines = config_info_lines(&cfg, &i);
    assert_eq!(
        lines,
        vec![
            ("Host".to_string(), "LENOVO 82RJ".to_string(), "cyan".to_string()),
            ("OS".to_string(), "Arch Linux rolling".to_string(), "white".to_string()),
            ("Kernel".to_string(), "Linux 6.9".to_string(), "white".to_string()),
            ("Memory".to_string(), "1/2 GB".to_string(), "blue".to_string()),
            ("GPU".to_string(), "Intel UHD".to_string(), "white".to_string()),
        ]
    );
    assert!(get_member(&cfg, "missing").is_none());
    assert!(matches!(get_member(&cfg, "shell"), Some(JsonValue::String(_))));
}

#[test]
fn entries_of_other_shapes() {
    let i = infos();
    let no_inner = Json::parse(br#"["os", "red"]"#).unwrap();
    assert_eq!(config_line(&no_inner, &i, false), None);
    let empty = Json::parse(br#"[]"#).unwrap();
    assert_eq!(config_line(&empty, &i, false), None);
    let plain = Json::parse(br#"[["username"]]"#).unwrap();
    assert_eq!(config_line(&plain, &i, true), Some(("me".to_string(), "white".to_string())));
    let not_obj = Json::parse(br#"[1]"#);
    assert!(not_obj.is_err() || config_header(&not_obj.unwrap(), &i).is_none());
    assert_eq!(config_header(&JsonValue::Null, &i), None);
}
