//! What a target holds, what it should hold, and the difference.

use crate::compile::generator::list_type_of;
use crate::compile::packages::probe_program;
use crate::compile::plan::entry_type;
use crate::config::models::{
    bodies, config_entries, list_configs, list_options, list_sections, option_entries,
    section_entries, Body, Options, PkgBackend, Section, Sections, Settings, Shape, Value,
};
use crate::config::uci_key::{
    anonymous_section, anonymous_section_key, named_section, named_section_key,
};
use crate::target::values::{desired_form, desired_value, shown_form, shown_value};
use crate::utils::split::{join, joined, lines, split_lines};
use crate::utils::text::{split_at_char, split_once, texts, trim, trimmed};
use crate::utils::text_map::TextMap;
use indexmap::IndexMap;
use vstd::prelude::*;

verus! {

/// Stands between the settings and the services in what the discovery command prints.
pub const SERVICE_SEPARATOR: &'static str = "===NUCI_SERVICES===";

/// Stands between the parts of what the state command prints.
pub const STATE_SEPARATOR: &'static str = "===NUCI_STATE===";

// ---- commands ----

/// What a list of string slices holds.
pub open spec fn slices(v: Seq<&str>) -> Seq<Seq<char>> {
    Seq::new(v.len(), |i: int| v[i]@)
}

/// The command that prints the settings of configuration files, and behind the separator how to
/// reload the service of each.
pub open spec fn discovery_command(managed: Seq<Seq<char>>) -> Seq<char> {
    let configs = join(managed, " "@);
    "for c in "@ + configs + "; do uci -q show \"$c\" 2>/dev/null; done; echo '"@
        + SERVICE_SEPARATOR@ + "'; for c in "@ + configs
        + "; do if [ -x /etc/init.d/\"$c\" ]; then echo \"$c:/etc/init.d/$c reload\"; elif [ \"$c\" = wireless ]; then if [ -x /sbin/wifi ]; then echo \"wireless:/sbin/wifi reload\"; elif [ -x /etc/init.d/network ]; then echo \"wireless:/etc/init.d/network restart\"; else echo \"wireless:none\"; fi; else m=$(grep -lE \"config_load .?$c.?\" /etc/init.d/* 2>/dev/null | head -n 1); if [ -n \"$m\" ]; then echo \"$c:$m reload\"; else echo \"$c:none\"; fi; fi; done"@
}

fn join_slices(parts: &[&str], sep: &str) -> (r: String)
    ensures
        r@ == join(slices(parts@), sep@),
{
    let mut list: Vec<String> = Vec::new();
    let mut i: usize = 0;
    while i < parts.len()
        invariant
            i <= parts@.len(),
            list@.len() == i,
            forall|j: int| 0 <= j < i ==> (#[trigger] list@[j])@ == parts@[j]@,
        decreases parts@.len() - i,
    {
        list.push(parts[i].to_owned());
        i += 1;
    }
    assert(texts(list@) =~= slices(parts@));
    joined(&list, sep)
}

/// One command that fetches the settings and finds out the services.
pub fn build_discovery_command(managed: &[&str]) -> (r: String)
    ensures
        r@ == discovery_command(slices(managed@)),
{
    let configs = join_slices(managed, " ");
    let mut s = "for c in ".to_owned();
    s.append(configs.as_str());
    s.append("; do uci -q show \"$c\" 2>/dev/null; done; echo '");
    s.append(SERVICE_SEPARATOR);
    s.append("'; for c in ");
    s.append(configs.as_str());
    s.append(
        "; do if [ -x /etc/init.d/\"$c\" ]; then echo \"$c:/etc/init.d/$c reload\"; elif [ \"$c\" = wireless ]; then if [ -x /sbin/wifi ]; then echo \"wireless:/sbin/wifi reload\"; elif [ -x /etc/init.d/network ]; then echo \"wireless:/etc/init.d/network restart\"; else echo \"wireless:none\"; fi; else m=$(grep -lE \"config_load .?$c.?\" /etc/init.d/* 2>/dev/null | head -n 1); if [ -n \"$m\" ]; then echo \"$c:$m reload\"; else echo \"$c:none\"; fi; fi; done",
    );
    s
}

/// The command that tells of each package whether it is installed, then prints the keys that
/// may log in and the hash of the root password, with the separator between them.
pub open spec fn state_command(packages: Seq<Seq<char>>, b: PkgBackend) -> Seq<char> {
    let head = if packages.len() == 0 {
        Seq::empty()
    } else {
        "for p in "@ + join(packages, " "@) + "; do "@ + probe_program(b)
            + " \"$p\" >/dev/null 2>&1 && echo \"$p:yes\" || echo \"$p:no\"; done; "@
    };
    head + "echo '"@ + STATE_SEPARATOR@
        + "'; cat /etc/dropbear/authorized_keys 2>/dev/null; echo '"@ + STATE_SEPARATOR@
        + "'; grep '^root:' /etc/shadow 2>/dev/null | cut -d: -f2"@
}

fn copy_texts(list: &[String]) -> (r: Vec<String>)
    ensures
        texts(r@) == texts(list@),
{
    let mut out: Vec<String> = Vec::new();
    let mut i: usize = 0;
    while i < list.len()
        invariant
            i <= list@.len(),
            out@.len() == i,
            forall|j: int| 0 <= j < i ==> (#[trigger] out@[j])@ == list@[j]@,
        decreases list@.len() - i,
    {
        out.push(list[i].clone());
        i += 1;
    }
    assert(texts(out@) =~= texts(list@));
    out
}

/// One command that probes packages, keys and the password.
pub fn build_state_command(packages: &[String], backend: PkgBackend) -> (r: String)
    ensures
        r@ == state_command(texts(packages@), backend),
{
    let mut s = String::new();
    if packages.len() > 0 {
        let mut head = "for p in ".to_owned();
        head.append(joined(&copy_texts(packages), " ").as_str());
        head.append("; do ");
        head.append(backend.installed_probe());
        head.append(" \"$p\" >/dev/null 2>&1 && echo \"$p:yes\" || echo \"$p:no\"; done; ");
        s = head;
    }
    proof {
        if packages@.len() == 0 {
            assert(s@ =~= Seq::empty());
        }
    }
    s.append("echo '");
    s.append(STATE_SEPARATOR);
    s.append("'; cat /etc/dropbear/authorized_keys 2>/dev/null; echo '");
    s.append(STATE_SEPARATOR);
    s.append("'; grep '^root:' /etc/shadow 2>/dev/null | cut -d: -f2");
    s
}

// ---- reading what a target prints ----

/// The package and its state that a line tells.
pub open spec fn package_line(line: Seq<char>) -> Option<(Seq<char>, bool)> {
    match split_once(trim(line), ':') {
        Some((pkg, st)) => if st == "yes"@ || st == "no"@ {
            Some((pkg, st == "yes"@))
        } else {
            None
        },
        None => None,
    }
}

/// The states that the first `n` lines tell; the last word on a package counts.
pub open spec fn package_states(l: Seq<Seq<char>>, n: nat) -> Map<Seq<char>, bool>
    decreases n,
{
    if n == 0 || n > l.len() {
        Map::empty()
    } else {
        let before = package_states(l, (n - 1) as nat);
        match package_line(l[n - 1]) {
            Some((pkg, st)) => before.insert(pkg, st),
            None => before,
        }
    }
}

/// Reads which packages are installed.
pub fn parse_package_state(output: &str) -> (r: TextMap<bool>)
    ensures
        r@ == package_states(lines(output@), lines(output@).len()),
{
    let list = split_lines(output);
    let ghost l = lines(output@);
    let mut map: TextMap<bool> = TextMap::new();
    let mut i: usize = 0;
    while i < list.len()
        invariant
            i <= list@.len() == l.len(),
            l == texts(list@),
            map@ == package_states(l, i as nat),
        decreases list@.len() - i,
    {
        let t = trimmed(list[i].as_str());
        if let Some((pkg, st)) = split_at_char(t.as_str(), ':') {
            if st.as_str().eq("yes") {
                map.insert(pkg, true);
            } else if st.as_str().eq("no") {
                proof {
                    reveal_strlit("yes");
                    reveal_strlit("no");
                    assert("yes"@.len() != "no"@.len());
                }
                map.insert(pkg, false);
            }
        }
        i += 1;
    }
    map
}

/// The configuration file and its reload command that a line tells.
pub open spec fn service_line(line: Seq<char>) -> Option<(Seq<char>, Seq<char>)> {
    match split_once(trim(line), ':') {
        Some((config, cmd)) => if cmd != "none"@ && config.len() > 0 {
            Some((config, cmd))
        } else {
            None
        },
        None => None,
    }
}

pub open spec fn services(l: Seq<Seq<char>>, n: nat) -> Map<Seq<char>, Seq<char>>
    decreases n,
{
    if n == 0 || n > l.len() {
        Map::empty()
    } else {
        let before = services(l, (n - 1) as nat);
        match service_line(l[n - 1]) {
            Some((config, cmd)) => before.insert(config, cmd),
            None => before,
        }
    }
}

/// Reads how the services of configuration files are reloaded.
pub fn parse_services(output: &str) -> (r: TextMap<String>)
    ensures
        r@ == services(lines(output@), lines(output@).len()),
{
    let list = split_lines(output);
    let ghost l = lines(output@);
    let mut map: TextMap<String> = TextMap::new();
    let mut i: usize = 0;
    while i < list.len()
        invariant
            i <= list@.len() == l.len(),
            l == texts(list@),
            map@ == services(l, i as nat),
        decreases list@.len() - i,
    {
        let t = trimmed(list[i].as_str());
        if let Some((config, cmd)) = split_at_char(t.as_str(), ':') {
            if !cmd.as_str().eq("none") && !config.as_str().is_empty() {
                map.insert(config, cmd);
            }
        }
        i += 1;
    }
    map
}

/// The key and the value, in the form in which it is compared, that a line of `uci show` tells.
pub open spec fn setting_line(line: Seq<char>) -> Option<(Seq<char>, Seq<char>)> {
    let t = trim(line);
    if t.len() == 0 || t[0] == '#' {
        None
    } else {
        match split_once(t, '=') {
            Some((k, v)) => Some((trim(k), shown_form(v))),
            None => None,
        }
    }
}

pub open spec fn settings_shown(l: Seq<Seq<char>>, n: nat) -> Map<Seq<char>, Seq<char>>
    decreases n,
{
    if n == 0 || n > l.len() {
        Map::empty()
    } else {
        let before = settings_shown(l, (n - 1) as nat);
        match setting_line(l[n - 1]) {
            Some((k, v)) => before.insert(k, v),
            None => before,
        }
    }
}

/// Reads what `uci show` prints.
pub fn parse_uci_show(output: &str) -> (r: TextMap<String>)
    ensures
        r@ == settings_shown(lines(output@), lines(output@).len()),
{
    let list = split_lines(output);
    let ghost l = lines(output@);
    let mut map: TextMap<String> = TextMap::new();
    let mut i: usize = 0;
    while i < list.len()
        invariant
            i <= list@.len() == l.len(),
            l == texts(list@),
            map@ == settings_shown(l, i as nat),
        decreases list@.len() - i,
    {
        let t = trimmed(list[i].as_str());
        if !t.as_str().is_empty() && t.as_str().get_char(0) != '#' {
            if let Some((k, v)) = split_at_char(t.as_str(), '=') {
                let key = trimmed(k.as_str());
                let value = shown_value(v.as_str());
                map.insert(key, value);
            }
        }
        i += 1;
    }
    map
}

// ---- what is desired ----

/// Keys and values in the form in which they are compared.
pub type Flat = Map<Seq<char>, Seq<char>>;

/// The first `n` options of the section at `section`.
pub open spec fn flat_options(m: Flat, section: Seq<char>, o: Options, n: nat) -> Flat
    decreases n,
{
    if n == 0 || n > o.len() {
        m
    } else {
        let before = flat_options(m, section, o, (n - 1) as nat);
        match desired_form(o[n - 1].1) {
            Some(t) => before.insert(section + "."@ + o[n - 1].0, t),
            None => before,
        }
    }
}

/// A section: its key tells its type, and its options follow.
pub open spec fn flat_section(m: Flat, key: Seq<char>, ty: Seq<char>, o: Options) -> Flat {
    flat_options(m.insert(key, ty), key, o, o.len())
}

/// The first `n` entries of a list.
pub open spec fn flat_list(m: Flat, config: Seq<char>, list: Seq<char>, b: Seq<Body>, n: nat) -> Flat
    decreases n,
{
    if n == 0 || n > b.len() {
        m
    } else {
        let before = flat_list(m, config, list, b, (n - 1) as nat);
        let ty = entry_type(b[n - 1], list);
        flat_section(
            before,
            anonymous_section(config, ty, (n - 1) as nat),
            ty,
            b[n - 1].options,
        )
    }
}

pub open spec fn flat_declaration(m: Flat, config: Seq<char>, s: (Seq<char>, Shape)) -> Flat {
    match s.1 {
        Shape::Named(b) => flat_section(m, named_section(config, s.0), b.ty, b.options),
        Shape::List(b) => flat_list(m, config, s.0, b, b.len()),
    }
}

/// The first `n` declarations of a configuration file.
pub open spec fn flat_config(m: Flat, config: Seq<char>, s: Sections, n: nat) -> Flat
    decreases n,
{
    if n == 0 || n > s.len() {
        m
    } else {
        flat_declaration(flat_config(m, config, s, (n - 1) as nat), config, s[n - 1])
    }
}

/// The first `n` configuration files.
pub open spec fn flat_settings(s: Settings, n: nat) -> Flat
    decreases n,
{
    if n == 0 || n > s.len() {
        Map::empty()
    } else {
        flat_config(
            flat_settings(s, (n - 1) as nat),
            s[n - 1].0,
            s[n - 1].1,
            s[n - 1].1.len(),
        )
    }
}

fn insert_options(map: &mut TextMap<String>, section: &str, options: &IndexMap<String, Value>)
    ensures
        final(map)@ == flat_options(
            old(map)@,
            section@,
            option_entries(*options),
            option_entries(*options).len(),
        ),
{
    let list = list_options(options);
    let ghost o = option_entries(*options);
    let ghost m = map@;
    let mut i: usize = 0;
    while i < list.len()
        invariant
            i <= list@.len() == o.len(),
            forall|k: int|
                0 <= k < list@.len() ==> (#[trigger] list@[k]).0@ == o[k].0 && list@[k].1@
                    == o[k].1,
            map@ == flat_options(m, section@, o, i as nat),
        decreases list@.len() - i,
    {
        let (name, value) = list[i];
        assert(o[i as int] == (name@, value@));
        if let Some(t) = desired_value(value) {
            let mut key = section.to_owned();
            key.append(".");
            key.append(name.as_str());
            map.insert(key, t);
        }
        i += 1;
    }
}

fn insert_declaration(map: &mut TextMap<String>, config: &str, name: &str, section: &Section)
    ensures
        final(map)@ == flat_declaration(old(map)@, config@, (name@, section@)),
{
    match section {
        Section::Named(data) => {
            let key = named_section_key(config, name);
            map.insert(key.clone(), data.section_type.clone());
            insert_options(map, key.as_str(), &data.options);
        },
        Section::List(items) => {
            let ghost b = bodies(items@);
            let ghost m = map@;
            let mut i: usize = 0;
            while i < items.len()
                invariant
                    i <= items@.len() == b.len(),
                    b == bodies(items@),
                    map@ == flat_list(m, config@, name@, b, i as nat),
                decreases items@.len() - i,
            {
                let ty = list_type_of(&items[i], name);
                let key = anonymous_section_key(config, ty, i);
                map.insert(key.clone(), ty.to_owned());
                insert_options(map, key.as_str(), &items[i].options);
                i += 1;
            }
        },
    }
}

fn insert_config(map: &mut TextMap<String>, config: &str, sections: &IndexMap<String, Section>)
    ensures
        final(map)@ == flat_config(
            old(map)@,
            config@,
            section_entries(*sections),
            section_entries(*sections).len(),
        ),
{
    let list = list_sections(sections);
    let ghost s = section_entries(*sections);
    let ghost m = map@;
    let mut i: usize = 0;
    while i < list.len()
        invariant
            i <= list@.len() == s.len(),
            forall|k: int|
                0 <= k < list@.len() ==> (#[trigger] list@[k]).0@ == s[k].0 && list@[k].1@
                    == s[k].1,
            map@ == flat_config(m, config@, s, i as nat),
        decreases list@.len() - i,
    {
        let (name, section) = list[i];
        assert(s[i as int] == (name@, section@));
        insert_declaration(map, config, name.as_str(), section);
        i += 1;
    }
}

/// Flattens settings into keys and values, in the form in which they are compared.
pub fn extract_desired_map(configs: &IndexMap<String, IndexMap<String, Section>>) -> (r: TextMap<
    String,
>)
    ensures
        r@ == flat_settings(config_entries(*configs), config_entries(*configs).len()),
{
    let list = list_configs(configs);
    let ghost s = config_entries(*configs);
    let mut map: TextMap<String> = TextMap::new();
    let mut i: usize = 0;
    while i < list.len()
        invariant
            i <= list@.len() == s.len(),
            forall|k: int|
                0 <= k < list@.len() ==> (#[trigger] list@[k]).0@ == s[k].0 && section_entries(
                    *list@[k].1,
                ) == s[k].1,
            map@ == flat_settings(s, i as nat),
        decreases list@.len() - i,
    {
        let (name, sections) = list[i];
        assert(s[i as int] == (name@, section_entries(*sections)));
        insert_config(&mut map, name.as_str(), sections);
        i += 1;
    }
    map
}

} // verus!
