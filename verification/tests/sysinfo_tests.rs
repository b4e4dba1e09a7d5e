use fetrust::sysinfo::{
    char_in, cpu_model_name, uptime_text, json_number_with, numeric_chars_of, resolution_from_hyprctl_with, resolution_from_xdpyinfo_with,
    extract_json_number, get_gpu, get_res, hostname_from_command, hostname_without_command, get_host_model, get_kernel, get_os, get_release, get_terminal,
    get_unix_distro, gsettings_value, is_hyprland, name_from_comm, parent_pid_from_stat,
    resolution_from_hyprctl, resolution_from_xdpyinfo, resolution_from_xrandr, terminal_from_term,
    themes_from_settings, themes_or_na, trim_text,
};

#[test]
fn release_sources_in_order() {
    assert_eq!(get_release(Some("  22.04\n"), Some("VERSION_ID=9\n")), "22.04");
    assert_eq!(get_release(Some("  \n"), Some("NAME=x\nVERSION_ID=\"12\"\n")), "12");
    assert_eq!(get_release(None, Some("VERSION_ID='3.18'\n")), "3.18");
    assert_eq!(get_release(None, Some("NAME=x\n")), "unknown");
    assert_eq!(get_release(None, None), "unknown");
}

#[test]
fn distro_from_os_release() {
    let content = "NAME=\"Arch Linux\"\nPRETTY_NAME=\"Arch Linux\"\nID=arch\n";
    assert_eq!(get_unix_distro(content, "BSD"), "Arch Linux");
    assert_eq!(get_unix_distro("ID=x\n", "BSD"), "BSD");
    assert_eq!(get_os(content), "Arch Linux");
    assert_eq!(get_os(""), "GNU/Linux");
}

#[test]
fn kernel_first_line() {
    assert_eq!(get_kernel(Some("6.1.0-13-amd64\nrest\n")), "6.1.0-13-amd64");
    assert_eq!(get_kernel(None), "Unknown");
}

#[test]
fn host_model_parts() {
    assert_eq!(get_host_model("LENOVO", "20XW", "ThinkPad X1"), "LENOVO 20XW ThinkPad X1");
    assert_eq!(get_host_model("To be filled by O.E.M.", "", "Default String"), "N/A");
    assert_eq!(get_host_model("", "B", ""), "B");
    assert_eq!(get_host_model("A", "Default String", "C"), "A C");
    assert_eq!(get_host_model("LENOVO\n", "82RJ\n", "IdeaPad 3 14IAU7\n"), "LENOVO 82RJ IdeaPad 3 14IAU7");
    assert_eq!(get_host_model(" Default String \n", "\n", "To be filled by O.E.M.\n"), "N/A");
}

#[test]
fn gpu_from_lspci() {
    let out = "00:1f.3 Audio device: Intel\n00:02.0 VGA compatible controller: Intel Corporation UHD Graphics 620 (rev 07)\n";
    assert_eq!(get_gpu(false, Some(out)), "Unknown");
    assert_eq!(get_gpu(true, Some(out)), "Intel Corporation UHD Graphics 620 (rev 07)");
    assert_eq!(get_gpu(true, Some("00:1f.3 Audio device: Intel\n")), "N/A");
    assert_eq!(get_gpu(true, Some("01:00.0 3D controller:   \n")), "N/A");
    assert_eq!(get_gpu(true, None), "N/A");
}

#[test]
fn terminal_sources_in_order() {
    assert_eq!(terminal_from_term("xterm-256color"), Some("xterm".to_string()));
    assert_eq!(terminal_from_term("unknown"), None);
    assert_eq!(terminal_from_term("-x"), None);
    assert_eq!(name_from_comm("bash\n"), Some("bash".to_string()));
    assert_eq!(name_from_comm("  "), None);
    assert_eq!(parent_pid_from_stat("1234 (my prog) S 987 1234 1"), Some("987".to_string()));
    assert_eq!(parent_pid_from_stat("1234 (x) S"), None);
    assert_eq!(parent_pid_from_stat("no paren"), None);
    assert_eq!(get_terminal(Some("iTerm.app"), Some("xterm"), None, None), "iTerm.app");
    assert_eq!(get_terminal(None, Some("xterm-kitty"), Some("zsh\n"), None), "xterm");
    assert_eq!(get_terminal(None, Some("unknown"), Some("alacritty\n"), None), "alacritty");
    assert_eq!(get_terminal(None, None, Some(""), Some("foot\n")), "foot");
    assert_eq!(get_terminal(None, None, None, None), "N/A");
}

#[test]
fn themes_and_gsettings() {
    let t = themes_or_na("Adwaita", "", "Cantarell 11", "");
    assert_eq!(t.name, "Adwaita");
    assert_eq!(t.icon, "N/A");
    assert_eq!(t.font, "Cantarell 11");
    assert_eq!(t.cursor, "N/A");
    assert!(themes_from_settings("", "", "f", "c").is_none());
    let s = themes_from_settings("", "Papirus", "", "").unwrap();
    assert_eq!(s.name, "N/A");
    assert_eq!(s.icon, "Papirus");
    assert_eq!(gsettings_value("'Adwaita-dark'\n"), "Adwaita-dark");
    assert_eq!(gsettings_value("  plain  "), "plain");
    assert_eq!(trim_text("  a b \n"), "a b");
}

#[test]
fn json_numbers() {
    assert_eq!(extract_json_number("{\"width\": 1920, \"height\":1080}", "width"), Some(1920));
    assert_eq!(extract_json_number("{\"width\": 1920, \"height\":1080}", "height"), Some(1080));
    assert_eq!(extract_json_number("{\"width\": x}", "width"), None);
    assert_eq!(extract_json_number("{\"depth\": 3}", "width"), None);
    assert_eq!(extract_json_number("{\"width\": 99999999999}", "width"), None);
    assert_eq!(extract_json_number("{\"width\": \u{663}}", "width"), None);
}

#[test]
fn hyprland_monitors() {
    let both = "[{\"id\": 0,\"width\": 2560,\"height\": 1440,\"focused\": false},{\"id\":1,\"width\": 1920,\"height\": 1080,\"focused\": true}]";
    assert_eq!(resolution_from_hyprctl(both), Some("1920x1080".to_string()));
    let none_focused = "[{\"width\": 2560,\"height\": 1440},{\"width\": 1920,\"height\": 1080}]";
    assert_eq!(resolution_from_hyprctl(none_focused), Some("2560x1440".to_string()));
    assert_eq!(resolution_from_hyprctl("[]"), None);
    assert!(is_hyprland("Hyprland", ""));
    assert!(!is_hyprland("GNOME", ""));
    assert!(is_hyprland("GNOME", "abc"));
}

#[test]
fn xrandr_and_xdpyinfo() {
    let connected = "Screen 0: minimum 320 x 200, current 1920 x 1080\nHDMI-1 connected primary 1920x1080+0+0 (normal) 527mm x 296mm\n   1920x1080     60.00*+\n";
    assert_eq!(resolution_from_xrandr(connected), Some("1920x1080".to_string()));
    let mode_only = "eDP-1 connected (normal left inverted)\n   1366x768      60.00*+\n";
    assert_eq!(resolution_from_xrandr(mode_only), Some("1366x768".to_string()));
    assert_eq!(resolution_from_xrandr("nothing here\n"), None);
    let dpy = "screen #0:\n  dimensions:    1920x1080 pixels (508x285 millimeters)\n";
    assert_eq!(resolution_from_xdpyinfo(dpy), Some("1920x1080".to_string()));
    assert_eq!(resolution_from_xdpyinfo("dimensions: unknown\n"), None);
}

#[test]
fn resolution_sources_in_order() {
    let hypr = "[{\"width\": 2560,\"height\": 1440,\"focused\": true}]";
    let xr = "HDMI-1 connected 1920x1080+0+0\n";
    let dpy = "  dimensions:    1280x1024 pixels\n";
    assert_eq!(get_res(false, "Hyprland", "", Some(hypr), Some(xr), Some(dpy)), "Unknown");
    assert_eq!(get_res(true, "Hyprland", "", Some(hypr), Some(xr), Some(dpy)), "2560x1440");
    assert_eq!(get_res(true, "GNOME", "", Some(hypr), Some(xr), Some(dpy)), "1920x1080");
    assert_eq!(get_res(true, "GNOME", "sig", Some("[]"), Some(xr), Some(dpy)), "1920x1080");
    assert_eq!(get_res(true, "GNOME", "", None, Some("nothing\n"), Some(dpy)), "1280x1024");
    assert_eq!(get_res(true, "GNOME", "", None, None, None), "N/A");
}

#[test]
fn hostname_sources_in_order() {
    assert_eq!(hostname_without_command(Some(" box \n"), Some("other")), Some("box".to_string()));
    assert_eq!(hostname_without_command(None, Some("other")), Some("other".to_string()));
    assert_eq!(hostname_without_command(None, Some("unknown hostname")), None);
    assert_eq!(hostname_without_command(None, None), None);
    assert_eq!(hostname_from_command("my\nhost\n"), "myhost");
}

#[test]
fn readers_with_given_numeric_characters() {
    let digits: Vec<char> = "0123456789".chars().collect();
    assert_eq!(json_number_with("{\"width\": 1920}", "width", &digits), Some(1920));
    assert_eq!(json_number_with("{\"width\": 1920}", "width", &['1', '9']), Some(19));
    assert_eq!(json_number_with("{\"width\": 1920}", "width", &[]), None);
    let hypr = "[{\"width\": 2560,\"height\": 1440}]";
    assert_eq!(resolution_from_hyprctl_with(hypr, &digits), Some("2560x1440".to_string()));
    assert_eq!(resolution_from_hyprctl_with(hypr, &['2', '5', '6']), None);
    let dpy = "  dimensions:    1920x1080 pixels (508x285 millimeters)\n";
    assert_eq!(resolution_from_xdpyinfo_with(dpy, &digits), Some("1920x1080".to_string()));
    assert_eq!(resolution_from_xdpyinfo_with(dpy, &[]), None);
    assert_eq!(resolution_from_xdpyinfo_with(dpy, &['5']), Some("(508x285".to_string()));
    let found = numeric_chars_of("a1b22\u{663}");
    assert_eq!(found.len(), 3);
    assert!(char_in('1', &found) && char_in('2', &found) && char_in('\u{663}', &found));
    assert!(!char_in('a', &found));
}

#[test]
fn cpuinfo_values() {
    assert_eq!(cpu_model_name("model name\t: Intel(R) Core(TM) i3-1215U"), Some("Intel(R) Core(TM) i3-1215U".to_string()));
    assert_eq!(cpu_model_name("a:b:c"), Some("b".to_string()));
    assert_eq!(cpu_model_name("model name"), None);
}

#[test]
fn uptime_in_words() {
    assert_eq!(uptime_text(0), "0 seconds");
    assert_eq!(uptime_text(1), "1 second");
    assert_eq!(uptime_text(3 * 86400 + 10 * 3600 + 42 * 60 + 46), "3 days, 10 hours, 42 minutes, 46 seconds");
    assert_eq!(uptime_text(86400 + 60), "1 day, 1 minute");
    assert_eq!(uptime_text(7200), "2 hours");
}

#[test]
fn ascii_digits_are_the_numeric_characters() {
    let found = numeric_chars_of("w1920 h0");
    for c in ['1', '9', '2', '0'] {
        assert!(char_in(c, &found));
    }
    assert!(!char_in('3', &found));
    assert!(!char_in('w', &found));
}
