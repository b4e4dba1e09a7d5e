//! The configuration of the report: which lines it shows, what goes on
//! them, and in which colour.

use vstd::prelude::*;
use crate::json::{JsonValue, first_key_at};
use crate::sysinfo::SystemInfos;
use crate::text::str_eq;

verus! {

/// The text that a field name of the configuration stands for: the named
/// system information, or the name itself (a literal piece of text).
pub open spec fn field_value(infos: SystemInfos, name: Seq<char>) -> Seq<char> {
    if name == "os"@ {
        infos.os@
    } else if name == "os_release"@ {
        infos.os_release@
    } else if name == "username"@ {
        infos.username@
    } else if name == "hostname"@ {
        infos.hostname@
    } else if name == "kernel_name"@ {
        infos.kernel_name@
    } else if name == "kernel"@ {
        infos.kernel@
    } else if name == "shell"@ {
        infos.shell@
    } else if name == "family"@ {
        infos.family@
    } else if name == "uptime"@ {
        infos.uptime@
    } else if name == "resolution"@ {
        infos.resolution@
    } else if name == "cpu_type"@ {
        infos.cpu_type@
    } else if name == "memory"@ {
        infos.memory@
    } else if name == "theme"@ {
        infos.theme_name@
    } else if name == "icon"@ {
        infos.icon_theme@
    } else if name == "font"@ {
        infos.font_name@
    } else if name == "cursor"@ {
        infos.cursor_theme@
    } else if name == "desktop"@ {
        infos.desktop@
    } else if name == "host_model"@ {
        infos.host_model@
    } else if name == "terminal"@ {
        infos.terminal@
    } else if name == "gpu"@ {
        infos.gpu@
    } else {
        name
    }
}

/// The text that a field name stands for in the header line, where only
/// `username` and `hostname` are fields.
pub open spec fn header_field_value(infos: SystemInfos, name: Seq<char>) -> Seq<char> {
    if name == "username"@ {
        infos.username@
    } else if name == "hostname"@ {
        infos.hostname@
    } else {
        name
    }
}

/// Whether `name` is one of the field names of the report.
pub open spec fn is_field_name(name: Seq<char>) -> bool {
    name == "os"@ || name == "os_release"@ || name == "username"@ || name == "hostname"@
        || name == "kernel_name"@ || name == "kernel"@ || name == "shell"@ || name == "family"@
        || name == "uptime"@ || name == "resolution"@ || name == "cpu_type"@ || name == "memory"@
        || name == "theme"@ || name == "icon"@ || name == "font"@ || name == "cursor"@
        || name == "desktop"@ || name == "host_model"@ || name == "terminal"@ || name == "gpu"@
}

/// A piece of a line that is not a field name is printed as it is, in the
/// header line as in the others.
pub proof fn law_literal_text_prints_as_is(infos: SystemInfos, name: Seq<char>)
    requires
        !is_field_name(name),
    ensures
        field_value(infos, name) == name,
        header_field_value(infos, name) == name,
{
}

/// Each field name of a configuration line stands for its own piece of
/// system information: `os` for the OS name, `theme` for the GTK theme,
/// `icon` for the icon theme, `cursor` for the cursor theme, and so on for
/// every field the README lists; in the header, `username` and `hostname`
/// stand for the user and host names.
pub proof fn law_field_names_pick_their_fields(infos: SystemInfos)
    ensures
        field_value(infos, seq!['o', 's']) == infos.os@,
        field_value(infos, seq!['o', 's', '_', 'r', 'e', 'l', 'e', 'a', 's', 'e']) == infos.os_release@,
        field_value(infos, seq!['u', 's', 'e', 'r', 'n', 'a', 'm', 'e']) == infos.username@,
        field_value(infos, seq!['h', 'o', 's', 't', 'n', 'a', 'm', 'e']) == infos.hostname@,
        field_value(infos, seq!['k', 'e', 'r', 'n', 'e', 'l', '_', 'n', 'a', 'm', 'e']) == infos.kernel_name@,
        field_value(infos, seq!['k', 'e', 'r', 'n', 'e', 'l']) == infos.kernel@,
        field_value(infos, seq!['s', 'h', 'e', 'l', 'l']) == infos.shell@,
        field_value(infos, seq!['f', 'a', 'm', 'i', 'l', 'y']) == infos.family@,
        field_value(infos, seq!['u', 'p', 't', 'i', 'm', 'e']) == infos.uptime@,
        field_value(infos, seq!['r', 'e', 's', 'o', 'l', 'u', 't', 'i', 'o', 'n']) == infos.resolution@,
        field_value(infos, seq!['c', 'p', 'u', '_', 't', 'y', 'p', 'e']) == infos.cpu_type@,
        field_value(infos, seq!['m', 'e', 'm', 'o', 'r', 'y']) == infos.memory@,
        field_value(infos, seq!['t', 'h', 'e', 'm', 'e']) == infos.theme_name@,
        field_value(infos, seq!['i', 'c', 'o', 'n']) == infos.icon_theme@,
        field_value(infos, seq!['f', 'o', 'n', 't']) == infos.font_name@,
        field_value(infos, seq!['c', 'u', 'r', 's', 'o', 'r']) == infos.cursor_theme@,
        field_value(infos, seq!['d', 'e', 's', 'k', 't', 'o', 'p']) == infos.desktop@,
        field_value(infos, seq!['h', 'o', 's', 't', '_', 'm', 'o', 'd', 'e', 'l']) == infos.host_model@,
        field_value(infos, seq!['t', 'e', 'r', 'm', 'i', 'n', 'a', 'l']) == infos.terminal@,
        field_value(infos, seq!['g', 'p', 'u']) == infos.gpu@,
        header_field_value(infos, seq!['u', 's', 'e', 'r', 'n', 'a', 'm', 'e']) == infos.username@,
        header_field_value(infos, seq!['h', 'o', 's', 't', 'n', 'a', 'm', 'e']) == infos.hostname@,
{
    reveal_strlit("os");
    assert("os"@ =~= seq!['o', 's']);
    reveal_strlit("os_release");
    assert("os_release"@ =~= seq!['o', 's', '_', 'r', 'e', 'l', 'e', 'a', 's', 'e']);
    reveal_strlit("username");
    assert("username"@ =~= seq!['u', 's', 'e', 'r', 'n', 'a', 'm', 'e']);
    reveal_strlit("hostname");
    assert("hostname"@ =~= seq!['h', 'o', 's', 't', 'n', 'a', 'm', 'e']);
    reveal_strlit("kernel_name");
    assert("kernel_name"@ =~= seq!['k', 'e', 'r', 'n', 'e', 'l', '_', 'n', 'a', 'm', 'e']);
    reveal_strlit("kernel");
    assert("kernel"@ =~= seq!['k', 'e', 'r', 'n', 'e', 'l']);
    reveal_strlit("shell");
    assert("shell"@ =~= seq!['s', 'h', 'e', 'l', 'l']);
    reveal_strlit("family");
    assert("family"@ =~= seq!['f', 'a', 'm', 'i', 'l', 'y']);
    reveal_strlit("uptime");
    assert("uptime"@ =~= seq!['u', 'p', 't', 'i', 'm', 'e']);
    reveal_strlit("resolution");
    assert("resolution"@ =~= seq!['r', 'e', 's', 'o', 'l', 'u', 't', 'i', 'o', 'n']);
    reveal_strlit("cpu_type");
    assert("cpu_type"@ =~= seq!['c', 'p', 'u', '_', 't', 'y', 'p', 'e']);
    reveal_strlit("memory");
    assert("memory"@ =~= seq!['m', 'e', 'm', 'o', 'r', 'y']);
    reveal_strlit("theme");
    assert("theme"@ =~= seq!['t', 'h', 'e', 'm', 'e']);
    reveal_strlit("icon");
    assert("icon"@ =~= seq!['i', 'c', 'o', 'n']);
    reveal_strlit("font");
    assert("font"@ =~= seq!['f', 'o', 'n', 't']);
    reveal_strlit("cursor");
    assert("cursor"@ =~= seq!['c', 'u', 'r', 's', 'o', 'r']);
    reveal_strlit("desktop");
    assert("desktop"@ =~= seq!['d', 'e', 's', 'k', 't', 'o', 'p']);
    reveal_strlit("host_model");
    assert("host_model"@ =~= seq!['h', 'o', 's', 't', '_', 'm', 'o', 'd', 'e', 'l']);
    reveal_strlit("terminal");
    assert("terminal"@ =~= seq!['t', 'e', 'r', 'm', 'i', 'n', 'a', 'l']);
    reveal_strlit("gpu");
    assert("gpu"@ =~= seq!['g', 'p', 'u']);
}

/// The text that `name` stands for, as `field_value` says.
pub fn lookup_field(infos: &SystemInfos, name: &str) -> (r: String)
    ensures
        r@ == field_value(*infos, name@),
{
    if str_eq(name, "os") {
        infos.os.clone()
    } else if str_eq(name, "os_release") {
        infos.os_release.clone()
    } else if str_eq(name, "username") {
        infos.username.clone()
    } else if str_eq(name, "hostname") {
        infos.hostname.clone()
    } else if str_eq(name, "kernel_name") {
        infos.kernel_name.clone()
    } else if str_eq(name, "kernel") {
        infos.kernel.clone()
    } else if str_eq(name, "shell") {
        infos.shell.clone()
    } else if str_eq(name, "family") {
        infos.family.clone()
    } else if str_eq(name, "uptime") {
        infos.uptime.clone()
    } else if str_eq(name, "resolution") {
        infos.resolution.clone()
    } else if str_eq(name, "cpu_type") {
        infos.cpu_type.clone()
    } else if str_eq(name, "memory") {
        infos.memory.clone()
    } else if str_eq(name, "theme") {
        infos.theme_name.clone()
    } else if str_eq(name, "icon") {
        infos.icon_theme.clone()
    } else if str_eq(name, "font") {
        infos.font_name.clone()
    } else if str_eq(name, "cursor") {
        infos.cursor_theme.clone()
    } else if str_eq(name, "desktop") {
        infos.desktop.clone()
    } else if str_eq(name, "host_model") {
        infos.host_model.clone()
    } else if str_eq(name, "terminal") {
        infos.terminal.clone()
    } else if str_eq(name, "gpu") {
        infos.gpu.clone()
    } else {
        String::from_str(name)
    }
}

/// The text that `name` stands for in the header, as `header_field_value`
/// says.
pub fn lookup_header_field(infos: &SystemInfos, name: &str) -> (r: String)
    ensures
        r@ == header_field_value(*infos, name@),
{
    if str_eq(name, "username") {
        infos.username.clone()
    } else if str_eq(name, "hostname") {
        infos.hostname.clone()
    } else {
        String::from_str(name)
    }
}

/// The keys of the configuration that give information lines, in the order
/// of the report, each with the label of its line.
pub open spec fn info_keys() -> Seq<(Seq<char>, Seq<char>)> {
    seq![
        ("host_model"@, "Host"@),
        ("os"@, "OS"@),
        ("kernel"@, "Kernel"@),
        ("shell"@, "Shell"@),
        ("family"@, "Family"@),
        ("uptime"@, "Uptime"@),
        ("resolution"@, "Resolution"@),
        ("cpu_type"@, "CPU"@),
        ("memory"@, "Memory"@),
        ("gpu"@, "GPU"@),
        ("terminal"@, "Terminal"@),
        ("desktop"@, "DE"@),
        ("theme"@, "Theme"@),
        ("icon"@, "Icons"@),
        ("font"@, "Font"@),
        ("cursor"@, "Cursor"@),
    ]
}

/// The value of the first member named `key` of an object.
pub open spec fn member(v: JsonValue, key: Seq<char>) -> Option<JsonValue> {
    match v {
        JsonValue::Object(pairs) => if exists|i: int| first_key_at(pairs@, key, i) {
            Some(pairs@[choose|i: int| first_key_at(pairs@, key, i)].1)
        } else {
            None
        },
        _ => None,
    }
}

pub proof fn lemma_first_key_unique(pairs: Seq<(String, JsonValue)>, key: Seq<char>, i: int, j: int)
    requires
        first_key_at(pairs, key, i),
        first_key_at(pairs, key, j),
    ensures
        i == j,
{
    if i < j {
        assert(pairs[i].0@ != key);
    } else if j < i {
        assert(pairs[j].0@ != key);
    }
}

/// The value of the member `key` of `v`, as `member` says.
pub fn get_member<'a>(v: &'a JsonValue, key: &str) -> (r: Option<&'a JsonValue>)
    ensures
        match r {
            Some(x) => member(*v, key@) == Some(*x),
            None => member(*v, key@) is None,
        },
{
    let r = v.get(key);
    proof {
        match v {
            JsonValue::Object(pairs) => {
                match r {
                    Some(x) => {
                        let i = choose|i: int| #[trigger] first_key_at(pairs@, key@, i) && *x == pairs@[i].1;
                        let j = choose|j: int| first_key_at(pairs@, key@, j);
                        lemma_first_key_unique(pairs@, key@, i, j);
                    },
                    None => {
                        assert forall|i: int| !first_key_at(pairs@, key@, i) by {
                            if 0 <= i < pairs@.len() {
                                assert(pairs@[i].0@ != key@);
                            }
                        }
                    },
                }
            },
            _ => {},
        }
    }
    r
}

/// The text of a value that is a string; nothing for any other value.
pub open spec fn printed(v: JsonValue) -> Seq<char> {
    match v {
        JsonValue::String(s) => s@,
        _ => Seq::empty(),
    }
}

/// The text of a line whose fields are `items`: the text of each field, one
/// after the other.
pub open spec fn fields_text(items: Seq<JsonValue>, infos: SystemInfos, header: bool) -> Seq<char>
    decreases items.len(),
{
    if items.len() == 0 {
        Seq::empty()
    } else {
        let name = printed(items.last());
        fields_text(items.drop_last(), infos, header) + if header {
            header_field_value(infos, name)
        } else {
            field_value(infos, name)
        }
    }
}

/// The colour name of a line `[fields, colour]`: the colour when it is a
/// string other than `null`, and `white` otherwise.
pub open spec fn line_color(arr: Seq<JsonValue>) -> Seq<char> {
    let c = if arr.len() > 1 {
        match arr[1] {
            JsonValue::String(s) => s@,
            _ => "white"@,
        }
    } else {
        "white"@
    };
    if c == "null"@ {
        "white"@
    } else {
        c
    }
}

/// What a configuration entry `[[field, ...], colour]` gives: the text of
/// its line and the name of its colour; nothing for an entry of another
/// shape.
pub open spec fn entry_line(entry: JsonValue, infos: SystemInfos, header: bool) -> Option<(Seq<char>, Seq<char>)> {
    match entry {
        JsonValue::Array(arr) => if arr@.len() > 0 {
            match arr@[0] {
                JsonValue::Array(inner) => Some((fields_text(inner@, infos, header), line_color(arr@))),
                _ => None,
            }
        } else {
            None
        },
        _ => None,
    }
}

/// The text and colour name of the line that `entry` configures, as
/// `entry_line` says.
pub fn config_line(entry: &JsonValue, infos: &SystemInfos, header: bool) -> (r: Option<(String, String)>)
    ensures
        match entry_line(*entry, *infos, header) {
            Some((t, c)) => r matches Some(p) && p.0@ == t && p.1@ == c,
            None => r is None,
        },
{
    let arr = match entry.as_array() {
        Some(a) => a,
        None => {
            return None;
        },
    };
    if arr.len() == 0 {
        return None;
    }
    let inner = match arr[0].as_array() {
        Some(i) => i,
        None => {
            return None;
        },
    };
    let mut content = String::new();
    let mut k: usize = 0;
    while k < inner.len()
        invariant
            k <= inner.len(),
            content@ == fields_text(inner@.take(k as int), *infos, header),
        decreases inner.len() - k,
    {
        assert(inner@.take(k + 1).drop_last() =~= inner@.take(k as int));
        let name = inner[k].print();
        let value = if header {
            lookup_header_field(infos, name.as_str())
        } else {
            lookup_field(infos, name.as_str())
        };
        content.append(value.as_str());
        k = k + 1;
    }
    assert(inner@.take(inner.len() as int) =~= inner@);
    let color: &str = if arr.len() > 1 {
        match arr[1].as_str() {
            Some(c) => c,
            None => "white",
        }
    } else {
        "white"
    };
    let color_val = if str_eq(color, "null") { "white" } else { color };
    Some((content, String::from_str(color_val)))
}

/// What the configuration gives for the header line (the `user_a_host_name`
/// entry): its text and colour name.
pub open spec fn header_line(config: JsonValue, infos: SystemInfos) -> Option<(Seq<char>, Seq<char>)> {
    match member(config, "user_a_host_name"@) {
        Some(entry) => entry_line(entry, infos, true),
        None => None,
    }
}

/// The text and colour name of the header line, as `header_line` says.
pub fn config_header(config: &JsonValue, infos: &SystemInfos) -> (r: Option<(String, String)>)
    ensures
        match header_line(*config, *infos) {
            Some((t, c)) => r matches Some(p) && p.0@ == t && p.1@ == c,
            None => r is None,
        },
{
    match get_member(config, "user_a_host_name") {
        Some(entry) => config_line(entry, infos, true),
        None => None,
    }
}

/// The information lines that the configuration gives for the keys `keys`:
/// for each key with an entry of the right shape, its label, text and
/// colour name.
pub open spec fn info_lines_for(
    config: JsonValue,
    infos: SystemInfos,
    keys: Seq<(Seq<char>, Seq<char>)>,
) -> Seq<(Seq<char>, Seq<char>, Seq<char>)>
    decreases keys.len(),
{
    if keys.len() == 0 {
        Seq::empty()
    } else {
        info_lines_for(config, infos, keys.drop_last()) + match member(config, keys.last().0) {
            Some(entry) => match entry_line(entry, infos, false) {
                Some((t, c)) => seq![(keys.last().1, t, c)],
                None => Seq::empty(),
            },
            None => Seq::empty(),
        }
    }
}

/// The label, text and colour name of each information line that the
/// configuration gives, in the order of `info_keys`.
pub fn config_info_lines(config: &JsonValue, infos: &SystemInfos) -> (r: Vec<(String, String, String)>)
    ensures
        r@.map_values(|t: (String, String, String)| (t.0@, t.1@, t.2@)) == info_lines_for(*config, *infos, info_keys()),
{
    let keys: Vec<(&str, &str)> = vec![
        ("host_model", "Host"),
        ("os", "OS"),
        ("kernel", "Kernel"),
        ("shell", "Shell"),
        ("family", "Family"),
        ("uptime", "Uptime"),
        ("resolution", "Resolution"),
        ("cpu_type", "CPU"),
        ("memory", "Memory"),
        ("gpu", "GPU"),
        ("terminal", "Terminal"),
        ("desktop", "DE"),
        ("theme", "Theme"),
        ("icon", "Icons"),
        ("font", "Font"),
        ("cursor", "Cursor"),
    ];
    assert(keys@.map_values(|k: (&str, &str)| (k.0@, k.1@)) =~= info_keys());
    let ghost km = keys@.map_values(|k: (&str, &str)| (k.0@, k.1@));
    let mut r: Vec<(String, String, String)> = Vec::new();
    let mut i: usize = 0;
    while i < keys.len()
        invariant
            i <= keys.len(),
            km == keys@.map_values(|k: (&str, &str)| (k.0@, k.1@)),
            r@.map_values(|t: (String, String, String)| (t.0@, t.1@, t.2@)) =~= info_lines_for(*config, *infos, km.take(i as int)),
        decreases keys.len() - i,
    {
        assert(km.take(i + 1).drop_last() =~= km.take(i as int));
        let (key, label) = keys[i];
        let ghost before = r@.map_values(|t: (String, String, String)| (t.0@, t.1@, t.2@));
        match get_member(config, key) {
            Some(entry) => {
                match config_line(entry, infos, false) {
                    Some((t, c)) => {
                        r.push((String::from_str(label), t, c));
                        assert(r@.map_values(|t: (String, String, String)| (t.0@, t.1@, t.2@)) =~= before.push((label@, t@, c@)));
                    },
                    None => {},
                }
            },
            None => {},
        }
        i = i + 1;
    }
    assert(km.take(keys.len() as int) =~= km);
    r
}

} // verus!
