//! The system information that the report shows, and the parsing of what
//! the system files and commands print.

use vstd::prelude::*;
use crate::text::{
    before_char, chars_of, contains, contains_of, find, find_of, find_from_pos, occurs_at, lines, prefix_before,
    replace_all, replace_of, split_char, split_lines, split_on, split_whitespace, starts_with,
    has_prefix, string_of, str_eq, trim, trim_char, trim_matches_char, trim_start_matches,
    trim_start_seq, trimmed, words, skip_ws, char_is_numeric, is_numeric, parse_u32, parse_u32_of,
    push_char, push_decimal_u32, push_decimal_u64, is_whitespace, lemma_skip_ws, is_digit,
};
use crate::ansi::decimal;
use crate::ini::{ini_value, ini_value_of};

verus! {

/// The fields of the report.
pub struct SystemInfos {
    pub os: String,
    pub os_release: String,
    pub username: String,
    pub hostname: String,
    pub kernel_name: String,
    pub kernel: String,
    pub shell: String,
    pub family: String,
    pub uptime: String,
    pub resolution: String,
    pub cpu_type: String,
    pub memory: String,
    pub theme_name: String,
    pub icon_theme: String,
    pub font_name: String,
    pub cursor_theme: String,
    pub desktop: String,
    pub host_model: String,
    pub terminal: String,
    pub gpu: String,
}

/// The GTK theme, icon theme, font and cursor theme.
pub struct Themes {
    pub name: String,
    pub icon: String,
    pub font: String,
    pub cursor: String,
}

/// `s` without white space at either end (`str::trim`).
pub fn trim_text(s: &str) -> (r: String)
    ensures
        r@ == trim(s@),
{
    let cs = chars_of(s);
    let t = trimmed(cs.as_slice());
    string_of(t.as_slice())
}

/// The value of a `VERSION_ID=` line of `os-release`: the prefix removed
/// (as often as it repeats), then double and single quotes at either end.
pub open spec fn version_id_value(line: Seq<char>) -> Seq<char> {
    trim_char(trim_char(trim_start_seq(line, "VERSION_ID="@), '"'), '\'')
}

/// The value of the first `VERSION_ID=` line among `ls`.
pub open spec fn first_version_id(ls: Seq<Seq<char>>) -> Option<Seq<char>>
    decreases ls.len(),
{
    if ls.len() == 0 {
        None
    } else if starts_with(ls[0], "VERSION_ID="@) {
        Some(version_id_value(ls[0]))
    } else {
        first_version_id(ls.drop_first())
    }
}

/// The release of the system: what `lsb_release -sr` printed (`lsb_release`,
/// when it was asked), trimmed, if that is not empty; else the `VERSION_ID`
/// of `os-release` (`os_release`, when it could be read); else `unknown`.
pub open spec fn release_text(lsb_release: Option<Seq<char>>, os_release: Option<Seq<char>>) -> Seq<char> {
    let from_lsb = match lsb_release {
        Some(o) => if trim(o).len() > 0 { Some(trim(o)) } else { None },
        None => None,
    };
    match from_lsb {
        Some(v) => v,
        None => match os_release {
            Some(c) => match first_version_id(lines(c)) {
                Some(v) => v,
                None => "unknown"@,
            },
            None => "unknown"@,
        },
    }
}

/// The text of an optional string.
pub open spec fn opt_text(o: Option<&str>) -> Option<Seq<char>> {
    match o {
        Some(s) => Some(s@),
        None => None,
    }
}

/// The release of the system, as `release_text` says.
pub fn get_release(lsb_release: Option<&str>, os_release: Option<&str>) -> (r: String)
    ensures
        r@ == release_text(opt_text(lsb_release), opt_text(os_release)),
{
    match lsb_release {
        Some(o) => {
            let v = trim_text(o);
            let vc = chars_of(v.as_str());
            if vc.len() > 0 {
                return v;
            }
        },
        None => {},
    }
    match os_release {
        Some(content) => {
            let cs = chars_of(content);
            let ls = split_lines(cs.as_slice());
            let ghost lm = ls@.map_values(|w: Vec<char>| w@);
            let key = chars_of("VERSION_ID=");
            let mut i: usize = 0;
            assert(lm.skip(0) =~= lm);
            assert(release_text(opt_text(lsb_release), opt_text(os_release)) == match first_version_id(lines(content@)) {
                Some(v) => v,
                None => "unknown"@,
            });
            while i < ls.len()
                invariant
                    release_text(opt_text(lsb_release), opt_text(os_release)) == match first_version_id(lines(content@)) {
                        Some(v) => v,
                        None => "unknown"@,
                    },
                    i <= ls.len(),
                    lm == ls@.map_values(|w: Vec<char>| w@),
                    lm == lines(content@),
                    key@ == "VERSION_ID="@,
                    first_version_id(lm.skip(i as int)) == first_version_id(lm),
                decreases ls.len() - i,
            {
                assert(lm.skip(i as int).drop_first() =~= lm.skip(i + 1));
                assert(lm.skip(i as int)[0] == ls@[i as int]@);
                if has_prefix(ls[i].as_slice(), key.as_slice()) {
                    let a = trim_start_matches(ls[i].as_slice(), key.as_slice());
                    let b = trim_matches_char(a.as_slice(), '"');
                    let c = trim_matches_char(b.as_slice(), '\'');
                    return string_of(c.as_slice());
                }
                i = i + 1;
            }
            assert(lm.skip(i as int) =~= Seq::<Seq<char>>::empty());
            String::from_str("unknown")
        },
        None => String::from_str("unknown"),
    }
}

/// The distribution name of a `PRETTY_NAME="..."` line: every
/// `PRETTY_NAME=` and every double quote removed.
pub open spec fn pretty_name_value(line: Seq<char>) -> Seq<char> {
    replace_all(replace_all(line, "PRETTY_NAME="@, Seq::empty()), "\""@, Seq::empty())
}

/// The distribution name of the first `PRETTY_NAME="` line among `ls`.
pub open spec fn first_pretty_name(ls: Seq<Seq<char>>) -> Option<Seq<char>>
    decreases ls.len(),
{
    if ls.len() == 0 {
        None
    } else if starts_with(ls[0], "PRETTY_NAME=\""@) {
        Some(pretty_name_value(ls[0]))
    } else {
        first_pretty_name(ls.drop_first())
    }
}

/// The distribution named by `os-release` (its lines split at `\n`), or
/// `fallback` when no line names it.
pub fn get_unix_distro(os_release: &str, fallback: &str) -> (r: String)
    ensures
        r@ == match first_pretty_name(split_on(os_release@, '\n')) {
            Some(v) => v,
            None => fallback@,
        },
{
    let cs = chars_of(os_release);
    let ls = split_char(cs.as_slice(), '\n');
    let ghost lm = ls@.map_values(|w: Vec<char>| w@);
    let key = chars_of("PRETTY_NAME=\"");
    let pat = chars_of("PRETTY_NAME=");
    let quote = chars_of("\"");
    let empty: Vec<char> = Vec::new();
    let mut i: usize = 0;
    assert(lm.skip(0) =~= lm);
    while i < ls.len()
        invariant
            i <= ls.len(),
            lm == ls@.map_values(|w: Vec<char>| w@),
            lm == split_on(os_release@, '\n'),
            key@ == "PRETTY_NAME=\""@,
            pat@ == "PRETTY_NAME="@,
            quote@ == "\""@,
            empty@ == Seq::<char>::empty(),
            first_pretty_name(lm.skip(i as int)) == first_pretty_name(lm),
        decreases ls.len() - i,
    {
        assert(lm.skip(i as int).drop_first() =~= lm.skip(i + 1));
        assert(lm.skip(i as int)[0] == ls@[i as int]@);
        if has_prefix(ls[i].as_slice(), key.as_slice()) {
            let a = replace_of(ls[i].as_slice(), pat.as_slice(), empty.as_slice());
            let b = replace_of(a.as_slice(), quote.as_slice(), empty.as_slice());
            return string_of(b.as_slice());
        }
        i = i + 1;
    }
    assert(lm.skip(i as int) =~= Seq::<Seq<char>>::empty());
    String::from_str(fallback)
}

/// The operating system of a Linux system: the distribution that
/// `os-release` names, or `GNU/Linux`.
pub fn get_os(os_release: &str) -> (r: String)
    ensures
        r@ == match first_pretty_name(split_on(os_release@, '\n')) {
            Some(v) => v,
            None => "GNU/Linux"@,
        },
{
    get_unix_distro(os_release, "GNU/Linux")
}

/// The kernel release: the first line of what `uname -r` printed, or
/// `Unknown` when it could not be run.
pub fn get_kernel(uname_output: Option<&str>) -> (r: String)
    ensures
        r@ == match uname_output {
            Some(o) => before_char(o@, '\n'),
            None => "Unknown"@,
        },
{
    match uname_output {
        Some(o) => {
            let cs = chars_of(o);
            let first = prefix_before(cs.as_slice(), '\n');
            string_of(first.as_slice())
        },
        None => String::from_str("Unknown"),
    }
}

/// The host name known without running a command: the trimmed text of
/// `/etc/hostname` when it could be read; else `HOST`, when it is set to
/// something other than `unknown hostname`; else nothing, and the
/// `hostname` command is asked.
pub open spec fn known_hostname(etc_hostname: Option<Seq<char>>, host: Option<Seq<char>>) -> Option<Seq<char>> {
    match etc_hostname {
        Some(f) => Some(trim(f)),
        None => match host {
            Some(h) => if h == "unknown hostname"@ {
                None
            } else {
                Some(h)
            },
            None => None,
        },
    }
}

/// The host name known without running a command, as `known_hostname`
/// says.
pub fn hostname_without_command(etc_hostname: Option<&str>, host: Option<&str>) -> (r: Option<String>)
    ensures
        match known_hostname(opt_text(etc_hostname), opt_text(host)) {
            Some(h) => r matches Some(s) && s@ == h,
            None => r is None,
        },
{
    match etc_hostname {
        Some(f) => Some(trim_text(f)),
        None => match host {
            Some(h) => if str_eq(h, "unknown hostname") {
                None
            } else {
                Some(String::from_str(h))
            },
            None => None,
        },
    }
}

/// The host name that the `hostname` command printed: its text without
/// line breaks.
pub fn hostname_from_command(output: &str) -> (r: String)
    ensures
        r@ == replace_all(output@, "\n"@, Seq::empty()),
{
    let cs = chars_of(output);
    let nl = chars_of("\n");
    let empty: Vec<char> = Vec::new();
    let r = replace_of(cs.as_slice(), nl.as_slice(), empty.as_slice());
    assert(empty@ =~= Seq::<char>::empty());
    string_of(r.as_slice())
}

/// Whether a DMI field holds a real value: not empty, and not one of the
/// vendors' placeholders.
pub open spec fn dmi_value_ok(v: Seq<char>) -> bool {
    v.len() > 0 && v != "Default String"@ && v != "To be filled by O.E.M."@
}

/// `ws` joined with `sep` between them.
pub open spec fn join_with(ws: Seq<Seq<char>>, sep: Seq<char>) -> Seq<char>
    decreases ws.len(),
{
    if ws.len() == 0 {
        Seq::empty()
    } else if ws.len() == 1 {
        ws[0]
    } else {
        join_with(ws.drop_last(), sep) + sep + ws.last()
    }
}

/// The DMI fields that hold real values, in order.
pub open spec fn dmi_parts(vendor: Seq<char>, product: Seq<char>, version: Seq<char>) -> Seq<Seq<char>> {
    (if dmi_value_ok(vendor) { seq![vendor] } else { Seq::empty() })
        + (if dmi_value_ok(product) { seq![product] } else { Seq::empty() })
        + (if dmi_value_ok(version) { seq![version] } else { Seq::empty() })
}

fn dmi_ok(v: &str) -> (r: bool)
    ensures
        r == dmi_value_ok(v@),
{
    let cs = chars_of(v);
    cs.len() > 0 && !str_eq(v, "Default String") && !str_eq(v, "To be filled by O.E.M.")
}

/// The host model: vendor, product name and product version (each what its
/// DMI file holds, empty when it could not be read), each trimmed, those
/// that hold real values joined with spaces, or `N/A` when none does.
pub fn get_host_model(vendor: &str, product_name: &str, product_version: &str) -> (r: String)
    ensures
        r@ == if dmi_parts(trim(vendor@), trim(product_name@), trim(product_version@)).len() == 0 {
            "N/A"@
        } else {
            join_with(dmi_parts(trim(vendor@), trim(product_name@), trim(product_version@)), seq![' '])
        },
{
    let vendor_t = trim_text(vendor);
    let product_t = trim_text(product_name);
    let version_t = trim_text(product_version);
    let vendor = vendor_t.as_str();
    let product_name = product_t.as_str();
    let product_version = version_t.as_str();
    let mut parts: Vec<&str> = Vec::new();
    if dmi_ok(vendor) {
        parts.push(vendor);
    }
    if dmi_ok(product_name) {
        parts.push(product_name);
    }
    if dmi_ok(product_version) {
        parts.push(product_version);
    }
    let ghost pm = dmi_parts(vendor@, product_name@, product_version@);
    assert(parts@.map_values(|p: &str| p@) =~= pm);
    if parts.len() == 0 {
        return String::from_str("N/A");
    }
    let mut r = String::new();
    let mut i: usize = 0;
    while i < parts.len()
        invariant
            i <= parts.len(),
            pm == parts@.map_values(|p: &str| p@),
            r@ == join_with(pm.take(i as int), seq![' ']),
        decreases parts.len() - i,
    {
        assert(pm.take(i + 1).drop_last() =~= pm.take(i as int));
        if i > 0 {
            crate::text::push_char(&mut r, ' ');
        } else {
            assert(pm.take(1) =~= seq![pm[0]]);
        }
        r.append(parts[i]);
        i = i + 1;
    }
    assert(pm.take(parts.len() as int) =~= pm);
    r
}

/// The name of the graphics card on an `lspci` line that describes one:
/// what follows the second colon, trimmed, if that is not empty.
pub open spec fn gpu_on_line(l: Seq<char>) -> Option<Seq<char>> {
    if contains(l, "VGA compatible controller"@) || contains(l, "3D controller"@) || contains(
        l,
        "Display controller"@,
    ) {
        match find(l, seq![':']) {
            Some(k) => {
                let after = l.skip(k + 1);
                match find(after, seq![':']) {
                    Some(k2) => if trim(after.skip(k2 + 1)).len() > 0 {
                        Some(trim(after.skip(k2 + 1)))
                    } else {
                        None
                    },
                    None => None,
                }
            },
            None => None,
        }
    } else {
        None
    }
}

/// The first `c` of `s` is at `k`.
proof fn lemma_find_char(s: Seq<char>, c: char, k: int, i: int)
    requires
        0 <= i <= k < s.len(),
        s[k] == c,
        forall|j: int| 0 <= j < k ==> s[j] != c,
    ensures
        find_from_pos(s, seq![c], i) == Some(k),
    decreases k - i,
{
    if i < k {
        assert(s.subrange(i, i + 1)[0] == s[i]);
        assert(!occurs_at(s, seq![c], i));
        lemma_find_char(s, c, k, i + 1);
    } else {
        assert(s.subrange(k, k + 1) =~= seq![c]);
    }
}

/// An `lspci` line that describes a graphics card of any of the three kinds
/// (`VGA compatible controller`, `3D controller`, `Display controller`)
/// names the card after its second colon: for a line `a:b:c` (`a` and `b`
/// without colons), the card is `c` trimmed, when that is not empty.
pub proof fn law_gpu_name_after_second_colon(a: Seq<char>, b: Seq<char>, c: Seq<char>)
    requires
        forall|i: int| 0 <= i < a.len() ==> a[i] != ':',
        forall|i: int| 0 <= i < b.len() ==> b[i] != ':',
        trim(c).len() > 0,
        contains(a + seq![':'] + b + seq![':'] + c, "VGA compatible controller"@)
            || contains(a + seq![':'] + b + seq![':'] + c, "3D controller"@)
            || contains(a + seq![':'] + b + seq![':'] + c, "Display controller"@),
    ensures
        gpu_on_line(a + seq![':'] + b + seq![':'] + c) == Some(trim(c)),
{
    let l = a + seq![':'] + b + seq![':'] + c;
    lemma_find_char(l, ':', a.len() as int, 0);
    let after = l.skip(a.len() as int + 1);
    assert(after =~= b + seq![':'] + c);
    lemma_find_char(after, ':', b.len() as int, 0);
    assert(after.skip(b.len() as int + 1) =~= c);
}

/// The first graphics card named among the lines `ls`.
pub open spec fn first_gpu(ls: Seq<Seq<char>>) -> Option<Seq<char>>
    decreases ls.len(),
{
    if ls.len() == 0 {
        None
    } else {
        match gpu_on_line(ls[0]) {
            Some(g) => Some(g),
            None => first_gpu(ls.drop_first()),
        }
    }
}

fn gpu_line(l: &[char]) -> (r: Option<Vec<char>>)
    ensures
        match gpu_on_line(l@) {
            Some(g) => r matches Some(v) && v@ == g,
            None => r is None,
        },
{
    let a = chars_of("VGA compatible controller");
    let b = chars_of("3D controller");
    let c = chars_of("Display controller");
    if !(contains_of(l, a.as_slice()) || contains_of(l, b.as_slice()) || contains_of(l, c.as_slice())) {
        return None;
    }
    let colon = vec![':'];
    assert(colon@ =~= seq![':']);
    match find_of(l, colon.as_slice()) {
        Some(k) => {
            proof {
                crate::text::lemma_find_from_pos(l@, colon@, 0);
                assert(crate::text::occurs_at(l@, colon@, k as int));
                assert(colon@.len() == 1);
                assert(k + 1 <= l@.len());
                assert(k < l.len());
            }
            let mut after: Vec<char> = Vec::new();
            let mut i: usize = k + 1;
            while i < l.len()
                invariant
                    k + 1 <= i <= l.len(),
                    after@ == l@.subrange(k + 1, i as int),
                decreases l.len() - i,
            {
                after.push(l[i]);
                i = i + 1;
                assert(after@ =~= l@.subrange(k + 1, i as int));
            }
            assert(after@ =~= l@.skip(k + 1));
            match find_of(after.as_slice(), colon.as_slice()) {
                Some(k2) => {
                    proof {
                        crate::text::lemma_find_from_pos(after@, colon@, 0);
                        assert(crate::text::occurs_at(after@, colon@, k2 as int));
                    }
                    let mut rest: Vec<char> = Vec::new();
                    let mut j: usize = k2 + 1;
                    while j < after.len()
                        invariant
                            k2 + 1 <= j <= after.len(),
                            rest@ == after@.subrange(k2 + 1, j as int),
                        decreases after.len() - j,
                    {
                        rest.push(after[j]);
                        j = j + 1;
                        assert(rest@ =~= after@.subrange(k2 + 1, j as int));
                    }
                    assert(rest@ =~= after@.skip(k2 + 1));
                    let name = trimmed(rest.as_slice());
                    if name.len() > 0 {
                        Some(name)
                    } else {
                        None
                    }
                },
                None => None,
            }
        },
        None => None,
    }
}

/// The graphics card: `Unknown` when not probing; else the first card that
/// `lspci` (its output `lspci`, when it could be run) names, or `N/A`.
pub open spec fn gpu_text(probe: bool, lspci: Option<Seq<char>>) -> Seq<char> {
    if !probe {
        "Unknown"@
    } else {
        match lspci {
            Some(out) => match first_gpu(lines(out)) {
                Some(g) => g,
                None => "N/A"@,
            },
            None => "N/A"@,
        }
    }
}

/// The graphics card, as `gpu_text` says.
pub fn get_gpu(probe: bool, lspci: Option<&str>) -> (r: String)
    ensures
        r@ == gpu_text(probe, opt_text(lspci)),
{
    if !probe {
        return String::from_str("Unknown");
    }
    match lspci {
        Some(out) => {
            let cs = chars_of(out);
            let ls = split_lines(cs.as_slice());
            let ghost lm = ls@.map_values(|w: Vec<char>| w@);
            let mut i: usize = 0;
            assert(lm.skip(0) =~= lm);
            while i < ls.len()
                invariant
                    i <= ls.len(),
                    lm == ls@.map_values(|w: Vec<char>| w@),
                    lm == lines(out@),
                    probe,
                    lspci == Some(out),
                    first_gpu(lm.skip(i as int)) == first_gpu(lm),
                decreases ls.len() - i,
            {
                assert(lm.skip(i as int).drop_first() =~= lm.skip(i + 1));
                assert(lm.skip(i as int)[0] == ls@[i as int]@);
                match gpu_line(ls[i].as_slice()) {
                    Some(g) => {
                        return string_of(g.as_slice());
                    },
                    None => {},
                }
                i = i + 1;
            }
            assert(lm.skip(i as int) =~= Seq::<Seq<char>>::empty());
            String::from_str("N/A")
        },
        None => String::from_str("N/A"),
    }
}

/// What `TERM` says of the terminal: the part before the first `-`, unless
/// that is empty or `unknown`.
pub open spec fn term_name(term: Seq<char>) -> Option<Seq<char>> {
    let t = before_char(term, '-');
    if t.len() > 0 && t != "unknown"@ {
        Some(t)
    } else {
        None
    }
}

/// What `TERM` says of the terminal, as `term_name` says.
pub fn terminal_from_term(term: &str) -> (r: Option<String>)
    ensures
        match term_name(term@) {
            Some(t) => r matches Some(s) && s@ == t,
            None => r is None,
        },
{
    let cs = chars_of(term);
    let t = prefix_before(cs.as_slice(), '-');
    let s = string_of(t.as_slice());
    if t.len() > 0 && !str_eq(s.as_str(), "unknown") {
        Some(s)
    } else {
        None
    }
}

/// The name a `comm` file holds: its text trimmed, unless that is empty.
pub open spec fn comm_name(content: Seq<char>) -> Option<Seq<char>> {
    if trim(content).len() > 0 {
        Some(trim(content))
    } else {
        None
    }
}

/// The name a `comm` file holds, as `comm_name` says.
pub fn name_from_comm(content: &str) -> (r: Option<String>)
    ensures
        match comm_name(content@) {
            Some(t) => r matches Some(s) && s@ == t,
            None => r is None,
        },
{
    let t = trim_text(content);
    let cs = chars_of(t.as_str());
    if cs.len() > 0 {
        Some(t)
    } else {
        None
    }
}

/// The parent's process id in a `/proc/<pid>/stat` text: the second word
/// after the first `)`.
pub open spec fn stat_parent_pid(stat: Seq<char>) -> Option<Seq<char>> {
    match find(stat, seq![')']) {
        Some(k) => if words(stat.skip(k + 1)).len() > 1 {
            Some(words(stat.skip(k + 1))[1])
        } else {
            None
        },
        None => None,
    }
}

/// The parent's process id in a `stat` text, as `stat_parent_pid` says.
pub fn parent_pid_from_stat(stat: &str) -> (r: Option<String>)
    ensures
        match stat_parent_pid(stat@) {
            Some(t) => r matches Some(s) && s@ == t,
            None => r is None,
        },
{
    let cs = chars_of(stat);
    let paren = vec![')'];
    assert(paren@ =~= seq![')']);
    match find_of(cs.as_slice(), paren.as_slice()) {
        Some(k) => {
            proof {
                crate::text::lemma_find_from_pos(cs@, paren@, 0);
                assert(crate::text::occurs_at(cs@, paren@, k as int));
                assert(k < cs.len());
            }
            let mut after: Vec<char> = Vec::new();
            let mut i: usize = k + 1;
            while i < cs.len()
                invariant
                    k + 1 <= i <= cs.len(),
                    after@ == cs@.subrange(k + 1, i as int),
                decreases cs.len() - i,
            {
                after.push(cs[i]);
                i = i + 1;
                assert(after@ =~= cs@.subrange(k + 1, i as int));
            }
            assert(after@ =~= cs@.skip(k + 1));
            let parts = split_whitespace(after.as_slice());
            assert(parts@.map_values(|w: Vec<char>| w@).len() == parts.len());
            if parts.len() > 1 {
                assert(parts@.map_values(|w: Vec<char>| w@)[1] == parts@[1]@);
                Some(string_of(parts[1].as_slice()))
            } else {
                None
            }
        },
        None => None,
    }
}

/// The terminal: `TERM_PROGRAM` when set; else what `TERM` says; else the
/// name of the parent process; else that of its parent; else `N/A`. Each
/// argument is `None` when the variable is unset or the file unreadable.
pub open spec fn terminal_text(
    term_program: Option<Seq<char>>,
    term: Option<Seq<char>>,
    parent_comm: Option<Seq<char>>,
    grandparent_comm: Option<Seq<char>>,
) -> Seq<char> {
    match term_program {
        Some(p) => p,
        None => match (match term { Some(t) => term_name(t), None => None }) {
            Some(t) => t,
            None => match (match parent_comm { Some(c) => comm_name(c), None => None }) {
                Some(n) => n,
                None => match (match grandparent_comm { Some(c) => comm_name(c), None => None }) {
                    Some(n) => n,
                    None => "N/A"@,
                },
            },
        },
    }
}

/// The terminal, as `terminal_text` says.
pub fn get_terminal(
    term_program: Option<&str>,
    term: Option<&str>,
    parent_comm: Option<&str>,
    grandparent_comm: Option<&str>,
) -> (r: String)
    ensures
        r@ == terminal_text(opt_text(term_program), opt_text(term), opt_text(parent_comm), opt_text(grandparent_comm)),
{
    if let Some(p) = term_program {
        return String::from_str(p);
    }
    if let Some(t) = term {
        if let Some(n) = terminal_from_term(t) {
            return n;
        }
    }
    if let Some(c) = parent_comm {
        if let Some(n) = name_from_comm(c) {
            return n;
        }
    }
    if let Some(c) = grandparent_comm {
        if let Some(n) = name_from_comm(c) {
            return n;
        }
    }
    String::from_str("N/A")
}

/// `v`, or `N/A` when it is empty.
pub open spec fn or_na(v: Seq<char>) -> Seq<char> {
    if v.len() == 0 { "N/A"@ } else { v }
}

fn or_na_of(v: &str) -> (r: String)
    ensures
        r@ == or_na(v@),
{
    let cs = chars_of(v);
    if cs.len() == 0 {
        String::from_str("N/A")
    } else {
        String::from_str(v)
    }
}

/// The themes with `N/A` for each empty value.
pub fn themes_or_na(name: &str, icon: &str, font: &str, cursor: &str) -> (t: Themes)
    ensures
        t.name@ == or_na(name@),
        t.icon@ == or_na(icon@),
        t.font@ == or_na(font@),
        t.cursor@ == or_na(cursor@),
{
    Themes { name: or_na_of(name), icon: or_na_of(icon), font: or_na_of(font), cursor: or_na_of(cursor) }
}

/// The themes that a GTK `settings.ini` gives (the values of its
/// `gtk-theme-name`, `gtk-icon-theme-name`, `gtk-font-name` and
/// `gtk-cursor-theme-name`, empty when missing): used only when the theme or
/// the icon theme is set, with `N/A` for each empty value.
pub fn themes_from_settings(name: &str, icon: &str, font: &str, cursor: &str) -> (r: Option<Themes>)
    ensures
        (name@.len() > 0 || icon@.len() > 0) ==> (r matches Some(t) && t.name@ == or_na(name@)
            && t.icon@ == or_na(icon@) && t.font@ == or_na(font@) && t.cursor@ == or_na(cursor@)),
        !(name@.len() > 0 || icon@.len() > 0) ==> r is None,
{
    let n = chars_of(name);
    let i = chars_of(icon);
    if n.len() > 0 || i.len() > 0 {
        Some(themes_or_na(name, icon, font, cursor))
    } else {
        None
    }
}

/// A value printed by `gsettings get`: trimmed, then without single quotes
/// at either end.
pub fn gsettings_value(output: &str) -> (r: String)
    ensures
        r@ == trim_char(trim(output@), '\''),
{
    let cs = chars_of(output);
    let t = trimmed(cs.as_slice());
    let v = trim_matches_char(t.as_slice(), '\'');
    string_of(v.as_slice())
}

/// The value of `key` in the `Settings` section of a GTK settings file, or
/// nothing (empty) when it is not set.
pub open spec fn gtk_setting(content: Seq<char>, key: Seq<char>) -> Seq<char> {
    match ini_value(content, "Settings"@, key) {
        Some(v) => v,
        None => Seq::empty(),
    }
}

/// The themes that a GTK settings file (when it could be read) gives: its
/// theme, icon theme, font and cursor theme with `N/A` for each empty value,
/// when the theme or the icon theme is set.
pub open spec fn gtk_themes(content: Option<Seq<char>>) -> Option<(Seq<char>, Seq<char>, Seq<char>, Seq<char>)> {
    match content {
        Some(c) => {
            let name = gtk_setting(c, "gtk-theme-name"@);
            let icon = gtk_setting(c, "gtk-icon-theme-name"@);
            if name.len() > 0 || icon.len() > 0 {
                Some((
                    or_na(name),
                    or_na(icon),
                    or_na(gtk_setting(c, "gtk-font-name"@)),
                    or_na(gtk_setting(c, "gtk-cursor-theme-name"@)),
                ))
            } else {
                None
            }
        },
        None => None,
    }
}

/// What a `gsettings get` gave (when it could be run): its value, else
/// nothing.
pub open spec fn gsettings_text(out: Option<Seq<char>>) -> Seq<char> {
    match out {
        Some(o) => trim_char(trim(o), '\''),
        None => Seq::empty(),
    }
}

/// The cursor theme that an icon theme's `index.theme` (when it could be
/// read) inherits, else nothing.
pub open spec fn inherited_cursor(index_theme: Option<Seq<char>>) -> Seq<char> {
    match index_theme {
        Some(c) => match ini_value(c, "Icon Theme"@, "Inherits"@) {
            Some(v) => v,
            None => Seq::empty(),
        },
        None => Seq::empty(),
    }
}

/// The themes of the report: those of the GTK 3 settings, else those of the
/// GTK 4 settings; else, when not probing, `N/A` for all four; else what
/// `gsettings` gives for each, the cursor theme falling back to the one that
/// the default icon theme inherits, with `N/A` for each empty value.
pub open spec fn chosen_themes(
    gtk3: Option<Seq<char>>,
    gtk4: Option<Seq<char>>,
    probe: bool,
    gs_theme: Option<Seq<char>>,
    gs_icon: Option<Seq<char>>,
    gs_font: Option<Seq<char>>,
    gs_cursor: Option<Seq<char>>,
    index_theme: Option<Seq<char>>,
) -> (Seq<char>, Seq<char>, Seq<char>, Seq<char>) {
    match gtk_themes(gtk3) {
        Some(t) => t,
        None => match gtk_themes(gtk4) {
            Some(t) => t,
            None => if !probe {
                ("N/A"@, "N/A"@, "N/A"@, "N/A"@)
            } else {
                let cursor = if gsettings_text(gs_cursor).len() == 0 {
                    inherited_cursor(index_theme)
                } else {
                    gsettings_text(gs_cursor)
                };
                (
                    or_na(gsettings_text(gs_theme)),
                    or_na(gsettings_text(gs_icon)),
                    or_na(gsettings_text(gs_font)),
                    or_na(cursor),
                )
            },
        },
    }
}

/// The four texts of `t`.
pub open spec fn themes_text(t: Themes) -> (Seq<char>, Seq<char>, Seq<char>, Seq<char>) {
    (t.name@, t.icon@, t.font@, t.cursor@)
}

fn setting_or_empty(content: &str, key: &str) -> (r: String)
    ensures
        r@ == gtk_setting(content@, key@),
{
    match ini_value_of(content, "Settings", key) {
        Some(v) => v,
        None => String::new(),
    }
}

/// The themes of a GTK settings file, as `gtk_themes` says.
pub fn gtk_themes_of(content: Option<&str>) -> (r: Option<Themes>)
    ensures
        match gtk_themes(opt_text(content)) {
            Some(t) => r matches Some(x) && themes_text(x) == t,
            None => r is None,
        },
{
    match content {
        Some(c) => {
            let name = setting_or_empty(c, "gtk-theme-name");
            let icon = setting_or_empty(c, "gtk-icon-theme-name");
            let font = setting_or_empty(c, "gtk-font-name");
            let cursor = setting_or_empty(c, "gtk-cursor-theme-name");
            themes_from_settings(name.as_str(), icon.as_str(), font.as_str(), cursor.as_str())
        },
        None => None,
    }
}

fn gsettings_or_empty(out: Option<&str>) -> (r: String)
    ensures
        r@ == gsettings_text(opt_text(out)),
{
    match out {
        Some(o) => gsettings_value(o),
        None => String::new(),
    }
}

/// The themes of the report, as `chosen_themes` says. Each argument is
/// `None` when its file could not be read or its command not be run.
pub fn get_themes(
    gtk3: Option<&str>,
    gtk4: Option<&str>,
    probe: bool,
    gs_theme: Option<&str>,
    gs_icon: Option<&str>,
    gs_font: Option<&str>,
    gs_cursor: Option<&str>,
    index_theme: Option<&str>,
) -> (t: Themes)
    ensures
        themes_text(t) == chosen_themes(
            opt_text(gtk3),
            opt_text(gtk4),
            probe,
            opt_text(gs_theme),
            opt_text(gs_icon),
            opt_text(gs_font),
            opt_text(gs_cursor),
            opt_text(index_theme),
        ),
{
    if let Some(t) = gtk_themes_of(gtk3) {
        return t;
    }
    if let Some(t) = gtk_themes_of(gtk4) {
        return t;
    }
    if !probe {
        proof {
            reveal_strlit("");
        }
        return themes_or_na("", "", "", "");
    }
    let name = gsettings_or_empty(gs_theme);
    let icon = gsettings_or_empty(gs_icon);
    let font = gsettings_or_empty(gs_font);
    let mut cursor = gsettings_or_empty(gs_cursor);
    let gc = chars_of(cursor.as_str());
    if gc.len() == 0 {
        cursor = match index_theme {
            Some(c) => match ini_value_of(c, "Icon Theme", "Inherits") {
                Some(v) => v,
                None => String::new(),
            },
            None => String::new(),
        };
    }
    themes_or_na(name.as_str(), icon.as_str(), font.as_str(), cursor.as_str())
}

/// Which characters count as numeric when reading the text `text`: those
/// of its characters that `char::is_numeric` accepts.
pub open spec fn numeric_in_text(text: Seq<char>) -> spec_fn(char) -> bool {
    |c: char| text.contains(c) && char_is_numeric(c)
}

/// The characters listed in `list`, as a test.
pub open spec fn listed(list: Seq<char>) -> spec_fn(char) -> bool {
    |c: char| list.contains(c)
}

/// The numeric characters of `s` (each once): what the readers below take
/// as their list of numeric characters.
pub fn numeric_chars_of(s: &str) -> (r: Vec<char>)
    ensures
        listed(r@) == numeric_in_text(s@),
        forall|c: char| (c as u32) <= 0x7F ==> (#[trigger] r@.contains(c) <==> (s@.contains(c) && is_digit(c))),
{
    let cs = chars_of(s);
    let mut r: Vec<char> = Vec::new();
    let mut i: usize = 0;
    while i < cs.len()
        invariant
            i <= cs.len(),
            cs@ == s@,
            forall|c: char| #[trigger] r@.contains(c) <==> (cs@.take(i as int).contains(c) && char_is_numeric(c)),
            forall|j: int| 0 <= j < i ==> ((cs@[j] as u32) <= 0x7F ==> (char_is_numeric(#[trigger] cs@[j]) <==> is_digit(cs@[j]))),
        decreases cs.len() - i,
    {
        let c = cs[i];
        let ghost before = r@;
        if is_numeric(c) && !char_in(c, r.as_slice()) {
            r.push(c);
        }
        proof {
            assert(cs@.take(i + 1) =~= cs@.take(i as int).push(c));
            assert forall|d: char| #[trigger] r@.contains(d) <==> (cs@.take(i + 1).contains(d) && char_is_numeric(d)) by {
                lemma_push_contains(cs@.take(i as int), c, d);
                lemma_push_contains(before, c, d);
                assert(before.contains(d) <==> (cs@.take(i as int).contains(d) && char_is_numeric(d)));
                assert(before.contains(c) <==> (cs@.take(i as int).contains(c) && char_is_numeric(c)));
            }
        }
        i = i + 1;
    }
    assert(cs@.take(cs.len() as int) =~= cs@);
    assert forall|c: char| #[trigger] listed(r@)(c) == numeric_in_text(s@)(c) by {
        assert(r@.contains(c) <==> (cs@.take(cs.len() as int).contains(c) && char_is_numeric(c)));
    }
    assert(listed(r@) =~= numeric_in_text(s@));
    assert forall|c: char| (c as u32) <= 0x7F implies (#[trigger] r@.contains(c) <==> (s@.contains(c) && is_digit(c))) by {
        assert(r@.contains(c) <==> (cs@.take(cs.len() as int).contains(c) && char_is_numeric(c)));
        if s@.contains(c) {
            let j = choose|j: int| 0 <= j < cs@.len() && #[trigger] cs@[j] == c;
            assert((cs@[j] as u32) <= 0x7F ==> (char_is_numeric(cs@[j]) <==> is_digit(cs@[j])));
        }
    }
    r
}

/// Whether every character of `s` is ASCII.
pub open spec fn all_ascii(s: Seq<char>) -> bool {
    forall|i: int| 0 <= i < s.len() ==> (#[trigger] s[i] as u32) <= 0x7F
}

/// The ASCII digits of `text`, as a test.
pub open spec fn digits_in(text: Seq<char>) -> spec_fn(char) -> bool {
    |c: char| text.contains(c) && is_digit(c)
}

/// On ASCII text the numeric characters are exactly its digits.
proof fn lemma_ascii_numeric(text: Seq<char>, r: Seq<char>)
    requires
        listed(r) == numeric_in_text(text),
        forall|c: char| (c as u32) <= 0x7F ==> (#[trigger] r.contains(c) <==> (text.contains(c) && is_digit(c))),
        all_ascii(text),
    ensures
        numeric_in_text(text) == digits_in(text),
{
    assert forall|c: char| #[trigger] numeric_in_text(text)(c) == digits_in(text)(c) by {
        if text.contains(c) {
            let j = choose|j: int| 0 <= j < text.len() && #[trigger] text[j] == c;
            assert((text[j] as u32) <= 0x7F);
            assert(listed(r)(c) == numeric_in_text(text)(c));
        }
    }
    assert(numeric_in_text(text) =~= digits_in(text));
}

proof fn lemma_push_contains(s: Seq<char>, x: char, d: char)
    ensures
        s.push(x).contains(d) <==> (s.contains(d) || d == x),
{
    if s.contains(d) {
        let j = choose|j: int| 0 <= j < s.len() && #[trigger] s[j] == d;
        assert(s.push(x)[j] == d);
    }
    if d == x {
        assert(s.push(x)[s.len() as int] == d);
    }
    if s.push(x).contains(d) && d != x {
        let t = s.push(x);
        let j = choose|j: int| 0 <= j < t.len() && #[trigger] t[j] == d;
        assert(s[j] == d);
    }
}

/// Whether `c` is listed in `list`.
pub fn char_in(c: char, list: &[char]) -> (r: bool)
    ensures
        r == list@.contains(c),
{
    let mut i: usize = 0;
    while i < list.len()
        invariant
            i <= list.len(),
            forall|j: int| 0 <= j < i ==> list@[j] != c,
        decreases list.len() - i,
    {
        if list[i] == c {
            return true;
        }
        i = i + 1;
    }
    false
}

/// The end of the run of numeric characters (as `num` says) that starts at
/// `p`.
pub open spec fn numeric_end(s: Seq<char>, p: int, num: spec_fn(char) -> bool) -> int
    decreases s.len() - p,
{
    if 0 <= p < s.len() && num(s[p]) {
        numeric_end(s, p + 1, num)
    } else {
        p
    }
}

/// The number after `"key":` in JSON-like text: the run of numeric
/// characters (as `num` says) after the first occurrence and any white
/// space, read as a `u32`.
pub open spec fn json_number_by(text: Seq<char>, key: Seq<char>, num: spec_fn(char) -> bool) -> Option<nat> {
    let pat = seq!['"'] + key + seq!['"', ':'];
    match find(text, pat) {
        Some(k) => {
            let a = skip_ws(text, k + pat.len());
            let b = numeric_end(text, a, num);
            if b == a {
                None
            } else {
                parse_u32(text.subrange(a, b))
            }
        },
        None => None,
    }
}

/// The number after `"key":` in JSON-like text, the numeric characters
/// being those that `char::is_numeric` accepts.
pub open spec fn json_number(text: Seq<char>, key: Seq<char>) -> Option<nat> {
    json_number_by(text, key, numeric_in_text(text))
}

/// The number after `"key":` in `text`, as `json_number` says.
pub fn extract_json_number(text: &str, key: &str) -> (r: Option<u32>)
    ensures
        match json_number(text@, key@) {
            Some(v) => r == Some(v as u32),
            None => r is None,
        },
        all_ascii(text@) ==> match json_number_by(text@, key@, digits_in(text@)) {
            Some(v) => r == Some(v as u32),
            None => r is None,
        },
{
    let numeric = numeric_chars_of(text);
    proof {
        if all_ascii(text@) {
            lemma_ascii_numeric(text@, numeric@);
        }
    }
    json_number_with(text, key, numeric.as_slice())
}

/// The number after `"key":` in `text`, the numeric characters being those
/// listed in `numeric`, as `json_number_by` says.
pub fn json_number_with(text: &str, key: &str, numeric: &[char]) -> (r: Option<u32>)
    ensures
        match json_number_by(text@, key@, listed(numeric@)) {
            Some(v) => r == Some(v as u32),
            None => r is None,
        },
{
    let ghost nf = listed(numeric@);
    let cs = chars_of(text);
    let mut pat: Vec<char> = Vec::new();
    pat.push('"');
    let kc = chars_of(key);
    let mut i: usize = 0;
    while i < kc.len()
        invariant
            i <= kc.len(),
            pat@ == seq!['"'] + kc@.take(i as int),
        decreases kc.len() - i,
    {
        pat.push(kc[i]);
        i = i + 1;
        assert(pat@ =~= seq!['"'] + kc@.take(i as int));
    }
    pat.push('"');
    pat.push(':');
    assert(pat@ =~= seq!['"'] + key@ + seq!['"', ':']);
    match find_of(cs.as_slice(), pat.as_slice()) {
        Some(k) => {
            proof {
                crate::text::lemma_find_from_pos(cs@, pat@, 0);
                assert(crate::text::occurs_at(cs@, pat@, k as int));
                assert(k + pat@.len() <= cs@.len());
                assert(k + pat.len() <= cs.len());
            }
            let mut a: usize = k + pat.len();
            proof {
                lemma_skip_ws(cs@, a as int);
            }
            while a < cs.len() && is_whitespace(cs[a])
                invariant
                    k + pat.len() <= a <= cs.len(),
                    skip_ws(cs@, a as int) == skip_ws(cs@, k + pat@.len()),
                decreases cs.len() - a,
            {
                a = a + 1;
            }
            let mut b: usize = a;
            let mut num: Vec<char> = Vec::new();
            while b < cs.len() && char_in(cs[b], numeric)
                invariant
                    a <= b <= cs.len(),
                    nf == listed(numeric@),
                    numeric_end(cs@, b as int, nf) == numeric_end(cs@, a as int, nf),
                    num@ == cs@.subrange(a as int, b as int),
                decreases cs.len() - b,
            {
                num.push(cs[b]);
                b = b + 1;
                assert(num@ =~= cs@.subrange(a as int, b as int));
            }
            if b == a {
                None
            } else {
                parse_u32_of(num.as_slice())
            }
        },
        None => None,
    }
}

/// `w x h` written as `<w>x<h>`.
pub open spec fn res_text(w: nat, h: nat) -> Seq<char> {
    decimal(w) + seq!['x'] + decimal(h)
}

fn res_string(w: u32, h: u32) -> (r: String)
    ensures
        r@ == res_text(w as nat, h as nat),
{
    let mut r = String::new();
    push_decimal_u32(&mut r, w);
    push_char(&mut r, 'x');
    push_decimal_u32(&mut r, h);
    r
}

/// Whether a monitor described by `hyprctl monitors -j` is the focused one.
pub open spec fn is_focused(m: Seq<char>) -> bool {
    contains(m, "\"focused\":true"@) || contains(m, "\"focused\": true"@)
}

/// The resolution among the monitor pieces `ms` (with `best` found so far),
/// numbers read with the numeric characters that `num` accepts: that of the
/// first focused monitor with a width and a height, else that of the first
/// monitor with both.
pub open spec fn hypr_pick(ms: Seq<Seq<char>>, best: Option<Seq<char>>, num: spec_fn(char) -> bool) -> Option<Seq<char>>
    decreases ms.len(),
{
    if ms.len() == 0 {
        best
    } else {
        let m = ms[0];
        let rest = ms.drop_first();
        if m.len() == 0 {
            hypr_pick(rest, best, num)
        } else {
            match (json_number_by(m, "width"@, num), json_number_by(m, "height"@, num)) {
                (Some(w), Some(h)) => if is_focused(m) {
                    Some(res_text(w, h))
                } else {
                    hypr_pick(rest, if best is None { Some(res_text(w, h)) } else { best }, num)
                },
                _ => hypr_pick(rest, best, num),
            }
        }
    }
}

/// The resolution that `hyprctl monitors -j` reports (its output split at
/// each `{`), as `hypr_pick` says, with the numeric characters that
/// `char::is_numeric` accepts.
pub fn resolution_from_hyprctl(json: &str) -> (r: Option<String>)
    ensures
        match hypr_pick(split_on(json@, '{'), None, numeric_in_text(json@)) {
            Some(t) => r matches Some(s) && s@ == t,
            None => r is None,
        },
        all_ascii(json@) ==> match hypr_pick(split_on(json@, '{'), None, digits_in(json@)) {
            Some(t) => r matches Some(s) && s@ == t,
            None => r is None,
        },
{
    let numeric = numeric_chars_of(json);
    proof {
        if all_ascii(json@) {
            lemma_ascii_numeric(json@, numeric@);
        }
    }
    resolution_from_hyprctl_with(json, numeric.as_slice())
}

/// The resolution that `hyprctl monitors -j` reports, the numeric
/// characters being those listed in `numeric`, as `hypr_pick` says.
pub fn resolution_from_hyprctl_with(json: &str, numeric: &[char]) -> (r: Option<String>)
    ensures
        match hypr_pick(split_on(json@, '{'), None, listed(numeric@)) {
            Some(t) => r matches Some(s) && s@ == t,
            None => r is None,
        },
{
    let ghost nf = listed(numeric@);
    let cs = chars_of(json);
    let ms = split_char(cs.as_slice(), '{');
    let ghost mm = ms@.map_values(|w: Vec<char>| w@);
    let mut best: Option<String> = None;
    let mut i: usize = 0;
    assert(mm.skip(0) =~= mm);
    while i < ms.len()
        invariant
            i <= ms.len(),
            mm == ms@.map_values(|w: Vec<char>| w@),
            mm == split_on(json@, '{'),
            nf == listed(numeric@),
            hypr_pick(mm.skip(i as int), match best { Some(b) => Some(b@), None => None }, nf) == hypr_pick(mm, None, nf),
        decreases ms.len() - i,
    {
        assert(mm.skip(i as int).drop_first() =~= mm.skip(i + 1));
        assert(mm.skip(i as int)[0] == ms@[i as int]@);
        let m = string_of(ms[i].as_slice());
        if ms[i].len() > 0 {
            let focused = str_contains_both(m.as_str());
            let w = json_number_with(m.as_str(), "width", numeric);
            let h = json_number_with(m.as_str(), "height", numeric);
            match (w, h) {
                (Some(w), Some(h)) => {
                    let res = res_string(w, h);
                    if focused {
                        return Some(res);
                    }
                    if best.is_none() {
                        best = Some(res);
                    }
                },
                _ => {},
            }
        }
        i = i + 1;
    }
    assert(mm.skip(i as int) =~= Seq::<Seq<char>>::empty());
    best
}

fn str_contains_both(m: &str) -> (r: bool)
    ensures
        r == is_focused(m@),
{
    crate::text::str_contains(m, "\"focused\":true") || crate::text::str_contains(m, "\"focused\": true")
}

/// Whether the desktop is Hyprland: `XDG_CURRENT_DESKTOP` mentions it, or
/// `HYPRLAND_INSTANCE_SIGNATURE` is set to something.
pub fn is_hyprland(desktop: &str, signature: &str) -> (r: bool)
    ensures
        r == (contains(desktop@, "Hyprland"@) || signature@.len() > 0),
{
    let sc = chars_of(signature);
    crate::text::str_contains(desktop, "Hyprland") || sc.len() > 0
}

/// The first of `ws` that contains an `x`.
pub open spec fn first_with_x(ws: Seq<Seq<char>>) -> Option<Seq<char>>
    decreases ws.len(),
{
    if ws.len() == 0 {
        None
    } else if contains(ws[0], seq!['x']) {
        Some(ws[0])
    } else {
        first_with_x(ws.drop_first())
    }
}

/// The resolution on an `xrandr` line of a connected output: the first word
/// that contains an `x`, up to its first `+`, if that still contains an `x`.
pub open spec fn connected_res(l: Seq<char>) -> Option<Seq<char>> {
    if contains(l, " connected"@) {
        match first_with_x(words(l)) {
            Some(part) => if contains(before_char(part, '+'), seq!['x']) {
                Some(before_char(part, '+'))
            } else {
                None
            },
            None => None,
        }
    } else {
        None
    }
}

/// The resolution on an `xrandr` line that marks the current mode: its
/// first word, if that contains an `x`.
pub open spec fn current_mode_res(l: Seq<char>) -> Option<Seq<char>> {
    if contains(l, seq!['*']) && words(l).len() > 0 && contains(words(l)[0], seq!['x']) {
        Some(words(l)[0])
    } else {
        None
    }
}

/// The first line among `ls` for which `f` finds something.
pub open spec fn first_found(ls: Seq<Seq<char>>, f: spec_fn(Seq<char>) -> Option<Seq<char>>) -> Option<Seq<char>>
    decreases ls.len(),
{
    if ls.len() == 0 {
        None
    } else {
        match f(ls[0]) {
            Some(r) => Some(r),
            None => first_found(ls.drop_first(), f),
        }
    }
}

/// The resolution that `xrandr` reports: from the first connected output
/// that gives one, else from the first current-mode line that gives one.
pub open spec fn xrandr_res(out: Seq<char>) -> Option<Seq<char>> {
    match first_found(lines(out), |l: Seq<char>| connected_res(l)) {
        Some(r) => Some(r),
        None => first_found(lines(out), |l: Seq<char>| current_mode_res(l)),
    }
}

fn first_with_x_of(ws: &Vec<Vec<char>>) -> (r: Option<usize>)
    ensures
        match first_with_x(ws@.map_values(|w: Vec<char>| w@)) {
            Some(p) => r matches Some(i) && i < ws.len() && ws@[i as int]@ == p,
            None => r is None,
        },
{
    let ghost wm = ws@.map_values(|w: Vec<char>| w@);
    let x = vec!['x'];
    assert(x@ =~= seq!['x']);
    let mut i: usize = 0;
    assert(wm.skip(0) =~= wm);
    while i < ws.len()
        invariant
            i <= ws.len(),
            wm == ws@.map_values(|w: Vec<char>| w@),
            x@ == seq!['x'],
            first_with_x(wm.skip(i as int)) == first_with_x(wm),
        decreases ws.len() - i,
    {
        assert(wm.skip(i as int).drop_first() =~= wm.skip(i + 1));
        assert(wm.skip(i as int)[0] == ws@[i as int]@);
        if contains_of(ws[i].as_slice(), x.as_slice()) {
            return Some(i);
        }
        i = i + 1;
    }
    assert(wm.skip(i as int) =~= Seq::<Seq<char>>::empty());
    None
}

fn connected_res_of(l: &[char]) -> (r: Option<Vec<char>>)
    ensures
        match connected_res(l@) {
            Some(p) => r matches Some(v) && v@ == p,
            None => r is None,
        },
{
    let pat = chars_of(" connected");
    if !contains_of(l, pat.as_slice()) {
        return None;
    }
    let ws = split_whitespace(l);
    match first_with_x_of(&ws) {
        Some(i) => {
            let res = prefix_before(ws[i].as_slice(), '+');
            let x = vec!['x'];
            assert(x@ =~= seq!['x']);
            if contains_of(res.as_slice(), x.as_slice()) {
                Some(res)
            } else {
                None
            }
        },
        None => None,
    }
}

fn current_mode_res_of(l: &[char]) -> (r: Option<Vec<char>>)
    ensures
        match current_mode_res(l@) {
            Some(p) => r matches Some(v) && v@ == p,
            None => r is None,
        },
{
    let star = vec!['*'];
    assert(star@ =~= seq!['*']);
    let x = vec!['x'];
    assert(x@ =~= seq!['x']);
    if !contains_of(l, star.as_slice()) {
        return None;
    }
    let ws = split_whitespace(l);
    assert(ws@.map_values(|w: Vec<char>| w@).len() == ws.len());
    if ws.len() > 0 {
        assert(ws@.map_values(|w: Vec<char>| w@)[0] == ws@[0]@);
        if contains_of(ws[0].as_slice(), x.as_slice()) {
            return Some(ws[0].clone());
        }
    }
    None
}

/// The resolution that `xrandr` reports, as `xrandr_res` says.
pub fn resolution_from_xrandr(out: &str) -> (r: Option<String>)
    ensures
        match xrandr_res(out@) {
            Some(t) => r matches Some(s) && s@ == t,
            None => r is None,
        },
{
    let cs = chars_of(out);
    let ls = split_lines(cs.as_slice());
    let ghost lm = ls@.map_values(|w: Vec<char>| w@);
    let ghost f1 = |l: Seq<char>| connected_res(l);
    let ghost f2 = |l: Seq<char>| current_mode_res(l);
    let mut i: usize = 0;
    assert(lm.skip(0) =~= lm);
    while i < ls.len()
        invariant
            i <= ls.len(),
            lm == ls@.map_values(|w: Vec<char>| w@),
            lm == lines(out@),
            f1 == (|l: Seq<char>| connected_res(l)),
            first_found(lm.skip(i as int), f1) == first_found(lm, f1),
        decreases ls.len() - i,
    {
        assert(lm.skip(i as int).drop_first() =~= lm.skip(i + 1));
        assert(lm.skip(i as int)[0] == ls@[i as int]@);
        match connected_res_of(ls[i].as_slice()) {
            Some(v) => {
                return Some(string_of(v.as_slice()));
            },
            None => {},
        }
        i = i + 1;
    }
    assert(lm.skip(i as int) =~= Seq::<Seq<char>>::empty());
    let mut j: usize = 0;
    while j < ls.len()
        invariant
            j <= ls.len(),
            lm == ls@.map_values(|w: Vec<char>| w@),
            lm == lines(out@),
            f1 == (|l: Seq<char>| connected_res(l)),
            f2 == (|l: Seq<char>| current_mode_res(l)),
            first_found(lm, f1) is None,
            first_found(lm.skip(j as int), f2) == first_found(lm, f2),
        decreases ls.len() - j,
    {
        assert(lm.skip(j as int).drop_first() =~= lm.skip(j + 1));
        assert(lm.skip(j as int)[0] == ls@[j as int]@);
        match current_mode_res_of(ls[j].as_slice()) {
            Some(v) => {
                return Some(string_of(v.as_slice()));
            },
            None => {},
        }
        j = j + 1;
    }
    assert(lm.skip(j as int) =~= Seq::<Seq<char>>::empty());
    None
}

/// Whether `p` holds a numeric character (as `num` says).
pub open spec fn has_numeric(p: Seq<char>, num: spec_fn(char) -> bool) -> bool {
    exists|i: int| 0 <= i < p.len() && num(#[trigger] p[i])
}

fn has_numeric_of(p: &[char], numeric: &[char]) -> (r: bool)
    ensures
        r == has_numeric(p@, listed(numeric@)),
{
    let ghost nf = listed(numeric@);
    let mut i: usize = 0;
    while i < p.len()
        invariant
            i <= p.len(),
            nf == listed(numeric@),
            forall|j: int| 0 <= j < i ==> !nf(#[trigger] p@[j]),
        decreases p.len() - i,
    {
        if char_in(p[i], numeric) {
            return true;
        }
        i = i + 1;
    }
    false
}

/// The first of `ws` that contains an `x` and a numeric character (as
/// `num` says).
pub open spec fn first_dimension(ws: Seq<Seq<char>>, num: spec_fn(char) -> bool) -> Option<Seq<char>>
    decreases ws.len(),
{
    if ws.len() == 0 {
        None
    } else if contains(ws[0], seq!['x']) && has_numeric(ws[0], num) {
        Some(ws[0])
    } else {
        first_dimension(ws.drop_first(), num)
    }
}

/// The screen size on a `dimensions:` line of `xdpyinfo`.
pub open spec fn dimensions_res(l: Seq<char>, num: spec_fn(char) -> bool) -> Option<Seq<char>> {
    if contains(l, "dimensions:"@) {
        first_dimension(words(l), num)
    } else {
        None
    }
}

fn dimensions_res_of(l: &[char], numeric: &[char]) -> (r: Option<Vec<char>>)
    ensures
        match dimensions_res(l@, listed(numeric@)) {
            Some(p) => r matches Some(v) && v@ == p,
            None => r is None,
        },
{
    let pat = chars_of("dimensions:");
    if !contains_of(l, pat.as_slice()) {
        return None;
    }
    let ws = split_whitespace(l);
    let ghost wm = ws@.map_values(|w: Vec<char>| w@);
    let x = vec!['x'];
    assert(x@ =~= seq!['x']);
    let mut i: usize = 0;
    assert(wm.skip(0) =~= wm);
    while i < ws.len()
        invariant
            i <= ws.len(),
            wm == ws@.map_values(|w: Vec<char>| w@),
            wm == words(l@),
            x@ == seq!['x'],
            dimensions_res(l@, listed(numeric@)) == first_dimension(wm, listed(numeric@)),
            first_dimension(wm.skip(i as int), listed(numeric@)) == first_dimension(wm, listed(numeric@)),
        decreases ws.len() - i,
    {
        assert(wm.skip(i as int).drop_first() =~= wm.skip(i + 1));
        assert(wm.skip(i as int)[0] == ws@[i as int]@);
        if contains_of(ws[i].as_slice(), x.as_slice()) && has_numeric_of(ws[i].as_slice(), numeric) {
            return Some(ws[i].clone());
        }
        i = i + 1;
    }
    assert(wm.skip(i as int) =~= Seq::<Seq<char>>::empty());
    None
}

/// The screen size that `xdpyinfo` reports: from the first `dimensions:`
/// line that gives one, with the numeric characters that
/// `char::is_numeric` accepts.
pub fn resolution_from_xdpyinfo(out: &str) -> (r: Option<String>)
    ensures
        match first_found(lines(out@), |l: Seq<char>| dimensions_res(l, numeric_in_text(out@))) {
            Some(t) => r matches Some(s) && s@ == t,
            None => r is None,
        },
        all_ascii(out@) ==> match first_found(lines(out@), |l: Seq<char>| dimensions_res(l, digits_in(out@))) {
            Some(t) => r matches Some(s) && s@ == t,
            None => r is None,
        },
{
    let numeric = numeric_chars_of(out);
    proof {
        if all_ascii(out@) {
            lemma_ascii_numeric(out@, numeric@);
        }
    }
    resolution_from_xdpyinfo_with(out, numeric.as_slice())
}

/// The screen size that `xdpyinfo` reports, the numeric characters being
/// those listed in `numeric`: from the first `dimensions:` line that gives
/// one.
pub fn resolution_from_xdpyinfo_with(out: &str, numeric: &[char]) -> (r: Option<String>)
    ensures
        match first_found(lines(out@), |l: Seq<char>| dimensions_res(l, listed(numeric@))) {
            Some(t) => r matches Some(s) && s@ == t,
            None => r is None,
        },
{
    let cs = chars_of(out);
    let ls = split_lines(cs.as_slice());
    let ghost lm = ls@.map_values(|w: Vec<char>| w@);
    let ghost f = |l: Seq<char>| dimensions_res(l, listed(numeric@));
    let mut i: usize = 0;
    assert(lm.skip(0) =~= lm);
    while i < ls.len()
        invariant
            i <= ls.len(),
            lm == ls@.map_values(|w: Vec<char>| w@),
            lm == lines(out@),
            f == (|l: Seq<char>| dimensions_res(l, listed(numeric@))),
            first_found(lm.skip(i as int), f) == first_found(lm, f),
        decreases ls.len() - i,
    {
        assert(lm.skip(i as int).drop_first() =~= lm.skip(i + 1));
        assert(lm.skip(i as int)[0] == ls@[i as int]@);
        match dimensions_res_of(ls[i].as_slice(), numeric) {
            Some(v) => {
                return Some(string_of(v.as_slice()));
            },
            None => {},
        }
        i = i + 1;
    }
    assert(lm.skip(i as int) =~= Seq::<Seq<char>>::empty());
    None
}

/// The resolution of the screen: `Unknown` when not probing; else, on
/// Hyprland (as `XDG_CURRENT_DESKTOP` and `HYPRLAND_INSTANCE_SIGNATURE`
/// tell), what `hyprctl monitors -j` reports; else what `xrandr` reports;
/// else what `xdpyinfo` reports; else `N/A`. Each output is `None` when its
/// command could not be run (or, for `hyprctl`, printed no UTF-8).
pub open spec fn resolution_text(
    probe: bool,
    desktop: Seq<char>,
    signature: Seq<char>,
    hyprctl: Option<Seq<char>>,
    xrandr: Option<Seq<char>>,
    xdpyinfo: Option<Seq<char>>,
) -> Seq<char> {
    if !probe {
        "Unknown"@
    } else {
        let from_hyprctl = if contains(desktop, "Hyprland"@) || signature.len() > 0 {
            match hyprctl {
                Some(j) => hypr_pick(split_on(j, '{'), None, numeric_in_text(j)),
                None => None,
            }
        } else {
            None
        };
        let from_xrandr = match xrandr {
            Some(o) => xrandr_res(o),
            None => None,
        };
        let from_xdpyinfo = match xdpyinfo {
            Some(o) => first_found(lines(o), |l: Seq<char>| dimensions_res(l, numeric_in_text(o))),
            None => None,
        };
        match from_hyprctl {
            Some(r) => r,
            None => match from_xrandr {
                Some(r) => r,
                None => match from_xdpyinfo {
                    Some(r) => r,
                    None => "N/A"@,
                },
            },
        }
    }
}

/// The resolution of the screen, as `resolution_text` says.
pub fn get_res(
    probe: bool,
    desktop: &str,
    signature: &str,
    hyprctl: Option<&str>,
    xrandr: Option<&str>,
    xdpyinfo: Option<&str>,
) -> (r: String)
    ensures
        r@ == resolution_text(probe, desktop@, signature@, opt_text(hyprctl), opt_text(xrandr), opt_text(xdpyinfo)),
{
    if !probe {
        return String::from_str("Unknown");
    }
    if is_hyprland(desktop, signature) {
        if let Some(j) = hyprctl {
            if let Some(res) = resolution_from_hyprctl(j) {
                return res;
            }
        }
    }
    if let Some(o) = xrandr {
        if let Some(res) = resolution_from_xrandr(o) {
            return res;
        }
    }
    if let Some(o) = xdpyinfo {
        if let Some(res) = resolution_from_xdpyinfo(o) {
            return res;
        }
    }
    String::from_str("N/A")
}

/// Without probing, nothing that an external command prints changes the
/// report: the resolution and the graphics card are `Unknown` whatever the
/// commands gave, and the themes come from the GTK settings files alone.
pub proof fn law_fast_mode_ignores_commands(
    desktop: Seq<char>,
    signature: Seq<char>,
    hyprctl: Option<Seq<char>>,
    xrandr: Option<Seq<char>>,
    xdpyinfo: Option<Seq<char>>,
    lspci: Option<Seq<char>>,
    gtk3: Option<Seq<char>>,
    gtk4: Option<Seq<char>>,
    gs_theme: Option<Seq<char>>,
    gs_icon: Option<Seq<char>>,
    gs_font: Option<Seq<char>>,
    gs_cursor: Option<Seq<char>>,
    index_theme: Option<Seq<char>>,
)
    ensures
        resolution_text(false, desktop, signature, hyprctl, xrandr, xdpyinfo) == "Unknown"@,
        gpu_text(false, lspci) == "Unknown"@,
        chosen_themes(gtk3, gtk4, false, gs_theme, gs_icon, gs_font, gs_cursor, index_theme)
            == chosen_themes(gtk3, gtk4, false, None, None, None, None, None),
{
}

/// The text after the first `:` of a `/proc/cpuinfo` line (up to a second
/// `:`, if any), trimmed; nothing when the line holds no `:`.
pub open spec fn cpuinfo_value(line: Seq<char>) -> Option<Seq<char>> {
    if split_on(line, ':').len() > 1 {
        Some(trim(split_on(line, ':')[1]))
    } else {
        None
    }
}

/// The value of a `/proc/cpuinfo` line (such as its `model name` line), as
/// `cpuinfo_value` says.
pub fn cpu_model_name(line: &str) -> (r: Option<String>)
    ensures
        match cpuinfo_value(line@) {
            Some(v) => r matches Some(s) && s@ == v,
            None => r is None,
        },
{
    let cs = chars_of(line);
    let parts = split_char(cs.as_slice(), ':');
    assert(parts@.map_values(|w: Vec<char>| w@).len() == parts.len());
    if parts.len() > 1 {
        assert(parts@.map_values(|w: Vec<char>| w@)[1] == parts@[1]@);
        let v = trimmed(parts[1].as_slice());
        Some(string_of(v.as_slice()))
    } else {
        None
    }
}

/// `n` of `unit`: the number, a space and the unit, with an `s` unless `n`
/// is 1.
pub open spec fn unit_text(n: nat, unit: Seq<char>) -> Seq<char> {
    decimal(n) + seq![' '] + unit + if n == 1 { Seq::empty() } else { seq!['s'] }
}

/// The days, hours, minutes and seconds of `total` seconds that are not 0,
/// in that order.
pub open spec fn uptime_parts(total: nat) -> Seq<Seq<char>> {
    let d = total / 86400;
    let h = (total % 86400) / 3600;
    let m = (total % 3600) / 60;
    let sec = total % 60;
    (if d > 0 { seq![unit_text(d, "day"@)] } else { Seq::empty() })
        + (if h > 0 { seq![unit_text(h, "hour"@)] } else { Seq::empty() })
        + (if m > 0 { seq![unit_text(m, "minute"@)] } else { Seq::empty() })
        + (if sec > 0 { seq![unit_text(sec, "second"@)] } else { Seq::empty() })
}

/// An uptime of `total` seconds in words: its parts joined with `, `, or
/// `0 seconds`.
pub open spec fn uptime_phrase(total: nat) -> Seq<char> {
    if uptime_parts(total).len() == 0 {
        "0 seconds"@
    } else {
        join_with(uptime_parts(total), ", "@)
    }
}

fn unit_string(n: u64, unit: &str) -> (r: String)
    ensures
        r@ == unit_text(n as nat, unit@),
{
    let mut r = String::new();
    push_decimal_u64(&mut r, n);
    push_char(&mut r, ' ');
    r.append(unit);
    if n != 1 {
        push_char(&mut r, 's');
    }
    proof {
        assert(Seq::<char>::empty() + decimal(n as nat) + seq![' '] + unit@ + (if n == 1 { Seq::<char>::empty() } else { seq!['s'] })
            =~= unit_text(n as nat, unit@));
    }
    r
}

/// An uptime of `total` seconds in words, as `uptime_phrase` says.
pub fn uptime_text(total: u64) -> (r: String)
    ensures
        r@ == uptime_phrase(total as nat),
{
    let d = total / 86400;
    let h = (total % 86400) / 3600;
    let m = (total % 3600) / 60;
    let sec = total % 60;
    let mut parts: Vec<String> = Vec::new();
    if d > 0 {
        parts.push(unit_string(d, "day"));
    }
    if h > 0 {
        parts.push(unit_string(h, "hour"));
    }
    if m > 0 {
        parts.push(unit_string(m, "minute"));
    }
    if sec > 0 {
        parts.push(unit_string(sec, "second"));
    }
    let ghost pm = uptime_parts(total as nat);
    assert(parts@.map_values(|p: String| p@) =~= pm);
    if parts.len() == 0 {
        return String::from_str("0 seconds");
    }
    let mut r = String::new();
    let mut i: usize = 0;
    while i < parts.len()
        invariant
            i <= parts.len(),
            pm == parts@.map_values(|p: String| p@),
            r@ == join_with(pm.take(i as int), ", "@),
        decreases parts.len() - i,
    {
        assert(pm.take(i + 1).drop_last() =~= pm.take(i as int));
        if i > 0 {
            r.append(", ");
        } else {
            assert(pm.take(1) =~= seq![pm[0]]);
        }
        r.append(parts[i].as_str());
        i = i + 1;
    }
    assert(pm.take(parts.len() as int) =~= pm);
    r
}

} // verus!
