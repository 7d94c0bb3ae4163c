use nuci::compile::generator::serialize_option_val;
use nuci::compile::packages::serialize_package_management;
use nuci::diff::{
    build_discovery_command, build_state_command, extract_desired_map, parse_package_state,
    parse_services, parse_uci_show, SERVICE_SEPARATOR, STATE_SEPARATOR,
};
use indexmap::IndexMap;
use nuci::models::{
    File, FileContent, PackageSources, PkgBackend, Root, Section, SectionData, Value,
};
use nuci::pipeline::{compile_config, CompiledConfig};
use nuci::target::report::{diff_report, identify_key};
use nuci::target::values::{
    desired_value, display_value, sanitize_uci_value, shown_value, val_str, LIST_SEP,
};
use nuci::utils::text_map::TextMap;

fn value_of(v: &serde_json::Value) -> Value {
    match v {
        serde_json::Value::Null => Value::Null,
        serde_json::Value::Bool(b) => Value::Bool(*b),
        serde_json::Value::Number(n) => Value::Number(n.to_string()),
        serde_json::Value::String(s) => Value::Text(s.clone()),
        serde_json::Value::Array(a) => Value::Array(a.iter().map(value_of).collect()),
        serde_json::Value::Object(m) => {
            Value::Object(m.iter().map(|(k, v)| (k.clone(), value_of(v))).collect())
        }
    }
}

fn section_data(v: &serde_json::Value) -> SectionData {
    let map = v.as_object().unwrap();
    SectionData {
        section_type: map["_type"].as_str().unwrap().to_string(),
        options: map
            .iter()
            .filter(|(k, _)| *k != "_type")
            .map(|(k, v)| (k.clone(), value_of(v)))
            .collect(),
    }
}

fn strings(v: &serde_json::Value) -> Option<Vec<String>> {
    v.as_array()
        .map(|a| a.iter().map(|s| s.as_str().unwrap().to_string()).collect())
}

fn file_of(v: &serde_json::Value) -> File {
    File {
        path: v["path"].as_str().unwrap().to_string(),
        content: match &v["content"] {
            serde_json::Value::String(s) => FileContent::Text(s.clone()),
            serde_json::Value::Null => FileContent::default(),
            other => FileContent::Base64(other["base64"].as_str().unwrap().to_string()),
        },
        executable: v["executable"].as_bool().unwrap_or(false),
        checksum: v["checksum"].as_str().map(String::from),
    }
}

/// Reads the JSON form of a configuration.
fn root_of(json: &str) -> Root {
    let v: serde_json::Value = serde_json::from_str(json).unwrap();
    let mut settings = IndexMap::new();
    for (config, sections) in v["settings"].as_object().unwrap() {
        let mut out = IndexMap::new();
        for (name, section) in sections.as_object().unwrap() {
            let section = match section {
                serde_json::Value::Array(items) => {
                    Section::List(items.iter().map(section_data).collect())
                }
                one => Section::Named(section_data(one)),
            };
            out.insert(name.clone(), section);
        }
        settings.insert(config.clone(), out);
    }
    Root {
        package_manager: v["packageManager"].as_str().unwrap_or("opkg").to_string(),
        settings,
        packages: strings(&v["packages"]),
        package_sources: v["packageSources"].as_object().map(|s| PackageSources {
            feeds: s.get("feeds").and_then(strings),
            local_packages: s.get("localPackages").and_then(strings),
        }),
        ssh_keys: strings(&v["sshKeys"]).unwrap_or_default(),
        secrets: None,
        raw_uci: strings(&v["rawUci"]),
        files: v["files"]
            .as_array()
            .map(|a| a.iter().map(file_of).collect()),
    }
}

fn compile(json: &str) -> CompiledConfig {
    compile_config(root_of(json), TextMap::new()).unwrap()
}

#[test]
fn parse_uci_show_strips_quotes() {
    let input =
        "network.lan=interface\nnetwork.lan.proto='static'\nnetwork.lan.ipaddr='192.168.1.1'\n";
    let map = parse_uci_show(input);
    assert_eq!(map.get("network.lan.proto"), Some(&"static".to_string()));
    assert_eq!(
        map.get("network.lan.ipaddr"),
        Some(&"192.168.1.1".to_string())
    );
}

#[test]
fn sanitize_escaped_single_quote() {
    assert_eq!(sanitize_uci_value("'admin'\\''s WiFi'"), "admin's WiFi");
}

#[test]
fn sanitize_array() {
    assert_eq!(sanitize_uci_value("'a' 'b' 'c'"), "a b c");
}

#[test]
fn sanitize_plain_string() {
    assert_eq!(sanitize_uci_value("'hello'"), "hello");
}

#[test]
fn sanitize_no_quotes() {
    assert_eq!(sanitize_uci_value("interface"), "interface");
}

#[test]
fn sanitize_odd_quotes() {
    assert_eq!(sanitize_uci_value("'"), "'");
    assert_eq!(sanitize_uci_value("''"), "");
    assert_eq!(sanitize_uci_value("  'a  "), "'a");
}

#[test]
fn val_str_types() {
    assert_eq!(
        val_str(&Value::Text("hello".into())),
        Some("hello".to_string())
    );
    assert_eq!(val_str(&Value::Bool(true)), Some("1".to_string()));
    assert_eq!(
        val_str(&Value::Array(vec![
            Value::Number("1".into()),
            Value::Text("two".into()),
            Value::Bool(true)
        ])),
        Some("1 two 1".to_string())
    );
    assert_eq!(val_str(&Value::Null), None);
    assert_eq!(val_str(&Value::Array(vec![Value::Null])), None);
    assert_eq!(val_str(&Value::Object(vec![])), None);
}

#[test]
fn parse_services_direct_initd() {
    let input = "network:/etc/init.d/network reload\ndropbear:/etc/init.d/dropbear reload\n";
    let map = parse_services(input);
    assert_eq!(
        map.get("network"),
        Some(&"/etc/init.d/network reload".to_string())
    );
    assert_eq!(
        map.get("dropbear"),
        Some(&"/etc/init.d/dropbear reload".to_string())
    );
}

#[test]
fn parse_services_none_excluded() {
    let input = "wireless:none\nfirewall:/etc/init.d/firewall reload\n";
    let map = parse_services(input);
    assert!(!map.contains_key("wireless"));
    assert!(map.contains_key("firewall"));
}

#[test]
fn parse_services_empty() {
    let map = parse_services("");
    assert!(map.is_empty());
}

#[test]
fn build_discovery_command_contains_separator() {
    let cmd = build_discovery_command(&["network", "wireless"]);
    assert!(cmd.contains(SERVICE_SEPARATOR));
    assert!(cmd.contains("uci -q show"));
    assert!(cmd.contains("config_load"));
    assert!(cmd.starts_with("for c in network wireless; do uci -q show \"$c\" 2>/dev/null; done; echo '===NUCI_SERVICES==='; for c in network wireless; do if "));
    assert!(cmd.ends_with("else echo \"$c:none\"; fi; fi; done"));
}

#[test]
fn build_state_command_opkg_probes_packages() {
    let cmd = build_state_command(&["luci".into(), "tcpdump".into()], PkgBackend::Opkg);
    assert!(cmd.contains("opkg list-installed"));
    assert!(cmd.contains("luci"));
    assert!(cmd.contains(STATE_SEPARATOR));
    assert!(cmd.contains("authorized_keys"));
    assert!(cmd.contains("/etc/shadow"));
}

#[test]
fn build_state_command_apk_probes_packages() {
    let cmd = build_state_command(&["luci".into()], PkgBackend::Apk);
    assert!(cmd.contains("apk info -e"));
    assert_eq!(
        cmd,
        "for p in luci; do apk info -e \"$p\" >/dev/null 2>&1 && echo \"$p:yes\" || echo \"$p:no\"; done; echo '===NUCI_STATE==='; cat /etc/dropbear/authorized_keys 2>/dev/null; echo '===NUCI_STATE==='; grep '^root:' /etc/shadow 2>/dev/null | cut -d: -f2"
    );
    assert!(build_state_command(&[], PkgBackend::Apk).starts_with("echo '===NUCI_STATE==='; cat"));
}

#[test]
fn parse_package_state_marks_installed() {
    let out = "luci:yes\ntcpdump:no\n";
    let map = parse_package_state(out);
    assert_eq!(map.get("luci"), Some(&true));
    assert_eq!(map.get("tcpdump"), Some(&false));
    assert!(parse_package_state("a:maybe\nb\n").is_empty());
}

#[test]
fn shown_lists_compare_without_their_order() {
    assert_eq!(LIST_SEP, "\u{1f}");
    assert_eq!(shown_value("'wan' 'lan1' 'lan2'"), "lan1\u{1f}lan2\u{1f}wan");
    assert_eq!(shown_value("'lan2' 'wan' 'lan1'"), "lan1\u{1f}lan2\u{1f}wan");
    assert_eq!(display_value("lan1\u{1f}lan2\u{1f}wan"), "lan1, lan2, wan");
    let a = parse_uci_show("network.lan.ports='wan' 'lan1'\n");
    let b = parse_uci_show("network.lan.ports='lan1' 'wan'\n");
    assert!(a.same(&b));
}

#[test]
fn shown_values_give_back_what_was_written() {
    assert_eq!(shown_value("'it'\\''s'"), "it's");
    assert_eq!(shown_value("'a'\\'' '\\''b'"), "a' 'b");
    assert_eq!(shown_value("'a b'"), "a b");
    assert_eq!(shown_value("''"), "");
    assert_eq!(shown_value("interface"), "interface");
    assert_eq!(shown_value("'open"), "'open");
    assert_eq!(shown_value("'a''b'"), "a''b");
}

#[test]
fn truth_values_are_compared_as_they_are_written() {
    let list = Value::Array(vec![
        Value::Bool(true),
        Value::Text("x".into()),
        Value::Bool(false),
    ]);
    let mut w = String::new();
    serialize_option_val(&mut w, "a.b.c", &list).unwrap();
    assert_eq!(w, "add_list a.b.c='1'\nadd_list a.b.c='x'\nadd_list a.b.c='0'\n");
    assert_eq!(val_str(&list), Some("1 x 0".to_string()));
    assert_eq!(desired_value(&list), Some(shown_value("'1' 'x' '0'")));
}

#[test]
fn lines_that_tell_no_setting_are_skipped() {
    let map = parse_uci_show("# a=b\n\n  \nnoequals\n a.b = 'c' \na.d='e=f'\n");
    assert_eq!(map.keys(), ["a.b", "a.d"]);
    assert_eq!(map.get("a.b"), Some(&"c".to_string()));
    assert_eq!(map.get("a.d"), Some(&"e=f".to_string()));
}

#[test]
fn desired_settings_are_flat() {
    let root = root_of(
        r#"{ "settings": {
            "network": { "lan": { "_type": "interface", "proto": "static", "ports": ["b", "a"], "none": [], "on": true } },
            "system": { "system": [ { "_type": "system", "hostname": "r" }, { "_type": "", "n": 3 } ] }
        } }"#,
    );
    let map = extract_desired_map(&root.settings);
    let flat: Vec<(String, String)> = map
        .keys()
        .into_iter()
        .map(|k| {
            let v = map.get(&k).unwrap().clone();
            (k, v)
        })
        .collect();
    let expected = [
        ("network.lan", "interface"),
        ("network.lan.on", "1"),
        ("network.lan.ports", "a\u{1f}b"),
        ("network.lan.proto", "static"),
        ("system.@system[0]", "system"),
        ("system.@system[0].hostname", "r"),
        ("system.@system[1]", "system"),
        ("system.@system[1].n", "3"),
    ];
    assert_eq!(
        flat,
        expected.map(|(k, v)| (k.to_string(), v.to_string())).to_vec()
    );
}

#[test]
fn what_a_deployed_target_shows_is_what_is_desired() {
    let root = root_of(
        r#"{ "settings": {
            "network": { "lan": { "_type": "interface", "proto": "it's", "ports": ["b", "a b", ""] } },
            "system": { "system": [ { "_type": "system", "hostname": "r" }, { "_type": "system", "n": 3 } ] }
        } }"#,
    );
    let shown = "network.lan=interface\nnetwork.lan.ports='b' 'a b' ''\nnetwork.lan.proto='it'\\''s'\nsystem.@system[0]=system\nsystem.@system[0].hostname='r'\nsystem.@system[1]=system\nsystem.@system[1].n='3'\n";
    assert!(parse_uci_show(shown).same(&extract_desired_map(&root.settings)));
}

#[test]
fn the_preview_names_every_change() {
    let compiled = {
        let mut c = compile(
            r#"{ "settings": { "network": { "lan": { "_type": "interface", "proto": "static", "ports": ["a", "b"], "mtu": 1500 } }, "dhcp": { "d": { "_type": "t" } } },
                 "packages": ["luci", "tcpdump"], "sshKeys": ["ssh-ed25519 AAA me@here", "ssh-rsa BBB"] }"#,
        );
        c.secrets.insert("root_password".into(), "x".into());
        c
    };
    let remote = "network.lan=interface\nnetwork.lan.proto='dhcp'\nnetwork.lan.ports='b' 'a'\nnetwork.lan.old='1' '2'\n===NUCI_SERVICES===\nnetwork:/etc/init.d/network reload\n";
    let state = "luci:yes\ntcpdump:no\n===NUCI_STATE===\nssh-rsa BBB\n===NUCI_STATE===\n\n";
    assert_eq!(
        diff_report("root@r", &compiled, remote, state),
        "\n\x1b[1;36m=== Configuration Diff (root@r) ===\x1b[0m\n\n\
         \x1b[32m+ dhcp.d=t\x1b[0m\n\
         \x1b[32m+ network.lan.mtu=1500\x1b[0m\n\
         \x1b[31m- network.lan.old=1, 2\x1b[0m\n\
         \x1b[31m- network.lan.proto=dhcp\x1b[0m\n\
         \x1b[32m+ network.lan.proto=static\x1b[0m\n\
         \n\x1b[1mSummary:\x1b[0m \x1b[32m2 to add\x1b[0m, \x1b[31m1 to remove\x1b[0m, \x1b[33m1 to change\x1b[0m, 2 unchanged.\n\
         \n\x1b[1;33mAffected services (auto-discovered):\x1b[0m\n\
         \x20 dhcp \u{2192} /etc/init.d/dhcp reload\n\
         \x20 network \u{2192} /etc/init.d/network reload\n\
         \n\x1b[1;35m[Packages]\x1b[0m\n\
         \x20 \x1b[90mluci  (Installed)\x1b[0m\n\
         \x20 \x1b[32m+ tcpdump  (To Install)\x1b[0m\n\
         \n\x1b[1;35m[SSH Keys] (2 desired)\x1b[0m\n\
         \x20 \x1b[32m+ 1/2 key(s) to deploy\x1b[0m\n\
         \n\x1b[1;35m[Root Password]\x1b[0m\n\
         \x20 \x1b[32mWill be set (target has no root password)\x1b[0m\n"
    );
}

#[test]
fn nothing_to_change_nothing_to_preview() {
    let compiled = compile(r#"{ "settings": { "a": { "b": { "_type": "t" } } } }"#);
    assert_eq!(
        diff_report("r", &compiled, "a.b=t\n", ""),
        "\n\x1b[1;36m=== Configuration Diff (r) ===\x1b[0m\n\n\n\x1b[1mSummary:\x1b[0m \x1b[32m0 to add\x1b[0m, \x1b[31m0 to remove\x1b[0m, \x1b[33m0 to change\x1b[0m, 1 unchanged.\n"
    );
}

#[test]
fn keys_that_are_there_and_a_password_that_is_set() {
    let mut compiled = compile(
        r#"{ "settings": { "a": { "b": { "_type": "t" } } }, "packages": [], "sshKeys": ["ssh-rsa BBB one", "ssh-rsa BBB two"] }"#,
    );
    compiled.secrets.insert("root_password".into(), String::new());
    let report = diff_report(
        "r",
        &compiled,
        "a.b=t\n",
        "===NUCI_STATE===\nssh-rsa BBB\n===NUCI_STATE=== $1$hash \n",
    );
    assert!(report.contains("[SSH Keys] (2 desired)\x1b[0m\n  \x1b[90mAll 2 key(s) already synced\x1b[0m\n"));
    assert!(report.ends_with("  \x1b[90mManaged (target root password already set)\x1b[0m\n"));
    assert!(!report.contains("[Packages]"));
}

#[test]
fn comments_do_not_make_a_key() {
    assert_eq!(identify_key("ssh-rsa  AAA\tme@here now"), "ssh-rsa AAA");
    assert_eq!(identify_key("ssh-rsa AAA"), "ssh-rsa AAA");
    assert_eq!(identify_key(" one "), "one");
    assert_eq!(identify_key(""), "");
}

#[test]
fn a_removal_probes_before_it_removes() {
    let mut w = String::new();
    serialize_package_management(&mut w, PkgBackend::Apk, None, Some(&vec!["-x".into()])).unwrap();
    assert_eq!(
        w,
        "\nNEED_REMOVE=false\nfor pkg in 'x'; do\n    if apk info -e \"$pkg\" >/dev/null 2>&1; then NEED_REMOVE=true; break; fi\ndone\nif [ \"$NEED_REMOVE\" = true ]; then apk del 'x'; if [ $? -ne 0 ]; then exit 1; fi; fi\n"
    );
}
