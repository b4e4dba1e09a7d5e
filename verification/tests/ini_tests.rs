use fetrust::ini::ini_value_of;
use fetrust::sysinfo::{get_themes, gtk_themes_of};

const SETTINGS: &str = "# comment\n[Settings]\ngtk-theme-name = Adwaita-dark\ngtk-icon-theme-name=Papirus\n; other\ngtk-font-name = Cantarell 11 \n[Other]\ngtk-theme-name=Wrong\n";

#[test]
fn ini_values_by_section() {
    assert_eq!(ini_value_of(SETTINGS, "Settings", "gtk-theme-name"), Some("Adwaita-dark".to_string()));
    assert_eq!(ini_value_of(SETTINGS, "Settings", "gtk-font-name"), Some("Cantarell 11".to_string()));
    assert_eq!(ini_value_of(SETTINGS, "Other", "gtk-theme-name"), Some("Wrong".to_string()));
    assert_eq!(ini_value_of(SETTINGS, "Settings", "gtk-cursor-theme-name"), None);
    assert_eq!(ini_value_of(SETTINGS, "Missing", "gtk-theme-name"), None);
    assert_eq!(ini_value_of("key=before\n[S]\n", "S", "key"), None);
    assert_eq!(ini_value_of("[S]\nk=1\n[T]\n[ S ]\nk = 2\n", "S", "k"), Some("2".to_string()));
    assert_eq!(ini_value_of("[S]\nk=a=b\n", "S", "k"), Some("a=b".to_string()));
}

#[test]
fn themes_from_gtk_files() {
    let t = gtk_themes_of(Some(SETTINGS)).unwrap();
    assert_eq!(t.name, "Adwaita-dark");
    assert_eq!(t.icon, "Papirus");
    assert_eq!(t.font, "Cantarell 11");
    assert_eq!(t.cursor, "N/A");
    assert!(gtk_themes_of(Some("[Settings]\ngtk-font-name=x\n")).is_none());
    assert!(gtk_themes_of(None).is_none());
}

#[test]
fn themes_in_order_of_sources() {
    let gtk4 = "[Settings]\ngtk-theme-name=Four\n";
    let t = get_themes(Some(SETTINGS), Some(gtk4), true, None, None, None, None, None);
    assert_eq!(t.name, "Adwaita-dark");
    let t = get_themes(Some("[Settings]\n"), Some(gtk4), false, None, None, None, None, None);
    assert_eq!(t.name, "Four");
    assert_eq!(t.icon, "N/A");
    let t = get_themes(None, None, false, Some("'x'"), None, None, None, None);
    assert_eq!((t.name, t.icon, t.font, t.cursor), ("N/A".to_string(), "N/A".to_string(), "N/A".to_string(), "N/A".to_string()));
    let index = "[Icon Theme]\nInherits=Bibata\n";
    let t = get_themes(None, None, true, Some("'Adwaita'\n"), Some("''\n"), None, Some("\n"), Some(index));
    assert_eq!(t.name, "Adwaita");
    assert_eq!(t.icon, "N/A");
    assert_eq!(t.font, "N/A");
    assert_eq!(t.cursor, "Bibata");
    let t = get_themes(None, None, true, None, None, None, Some("'Breeze'"), Some(index));
    assert_eq!(t.cursor, "Breeze");
}
