use indexmap::IndexMap;
use nuci::models::{File, FileContent, Root, Section, SectionData, Value};
use nuci::validation::{
    is_valid_uci_identifier, is_valid_uci_type, validate_root, validation_warnings,
};

fn empty_root() -> Root {
    Root {
        package_manager: "opkg".into(),
        settings: IndexMap::new(),
        packages: None,
        package_sources: None,
        ssh_keys: vec![],
        secrets: None,
        raw_uci: None,
        files: None,
    }
}

fn named_cfg(
    config: &str,
    section: &str,
    section_type: &str,
    options: IndexMap<String, Value>,
) -> Root {
    Root {
        settings: IndexMap::from([(
            config.into(),
            IndexMap::from([(
                section.into(),
                Section::Named(SectionData {
                    section_type: section_type.into(),
                    options,
                }),
            )]),
        )]),
        ..empty_root()
    }
}

fn anon_cfg(
    config: &str,
    section: &str,
    section_type: &str,
    options: IndexMap<String, Value>,
) -> Root {
    Root {
        settings: IndexMap::from([(
            config.into(),
            IndexMap::from([(
                section.into(),
                Section::List(vec![SectionData {
                    section_type: section_type.into(),
                    options,
                }]),
            )]),
        )]),
        ..empty_root()
    }
}

fn text(s: &str) -> Value {
    Value::Text(s.into())
}

fn opts<const N: usize>(items: [(&str, Value); N]) -> IndexMap<String, Value> {
    items.into_iter().map(|(k, v)| (k.to_string(), v)).collect()
}

fn fault(root: &Root) -> String {
    validate_root(root).unwrap_err().message()
}

fn assert_rejects(root: &Root, expected: &str) {
    let err = fault(root);
    assert!(err.contains(expected), "expected '{expected}' in '{err}'");
}

#[test]
fn rejects_invalid_named_identifiers() {
    for (config, section, ty, options, expected) in [
        (
            "network-config",
            "lan",
            "interface",
            IndexMap::new(),
            "Invalid config name",
        ),
        (
            "3network",
            "lan",
            "interface",
            IndexMap::new(),
            "Invalid config name",
        ),
        (
            "network",
            "my-section",
            "interface",
            IndexMap::new(),
            "Invalid section",
        ),
        (
            "network",
            "lan",
            "bad type!",
            IndexMap::new(),
            "Invalid type",
        ),
        (
            "network",
            "lan",
            "interface",
            opts([("ip-address", text("1.1.1.1"))]),
            "Invalid option",
        ),
        (
            "network",
            "lan",
            "interface",
            opts([("0proto", text("static"))]),
            "Invalid option",
        ),
    ] {
        assert_rejects(&named_cfg(config, section, ty, options), expected);
    }
}

#[test]
fn rejects_invalid_list_identifiers() {
    for (config, section, ty, options, expected) in [
        (
            "dropbear",
            "dropbear",
            "bad type!",
            IndexMap::new(),
            "Invalid type",
        ),
        (
            "dropbear",
            "dropbear",
            "dropbear",
            opts([("listen-port", text("22"))]),
            "Invalid option",
        ),
    ] {
        assert_rejects(&anon_cfg(config, section, ty, options), expected);
    }
}

#[test]
fn rejects_null_value_and_empty_list() {
    assert_rejects(
        &named_cfg("network", "lan", "interface", opts([("proto", Value::Null)])),
        "null value",
    );
    let root = Root {
        settings: IndexMap::from([(
            "wireless".into(),
            IndexMap::from([("wifi-iface".into(), Section::List(vec![]))]),
        )]),
        ..empty_root()
    };
    assert_rejects(&root, "Empty list section");
}

#[test]
fn allows_valid_configs() {
    assert!(validate_root(&empty_root()).is_ok());
    // Types may contain hyphens (wifi-iface), identifiers may not.
    assert!(validate_root(&named_cfg(
        "wireless",
        "radio0",
        "wifi-iface",
        IndexMap::new()
    ))
    .is_ok());
}

#[test]
fn validates_raw_uci() {
    let root = Root {
        raw_uci: Some(vec!["rm -rf /".into()]),
        ..empty_root()
    };
    assert_rejects(&root, "must be a 'uci' command");

    let root = Root {
        raw_uci: Some(vec!["uci rename network.lan=lan2".into()]),
        ..empty_root()
    };
    assert!(validate_root(&root).is_ok());
}

#[test]
fn faults_are_named_exactly() {
    assert_eq!(
        fault(&named_cfg("network", "lan", "interface", opts([("a-b", text("x"))]))),
        "Invalid option 'a-b' in network.lan: only [a-zA-Z0-9_] allowed"
    );
    assert_eq!(
        fault(&named_cfg("network", "lan", "interface", opts([("a", Value::Null)]))),
        "network.lan.a has null value"
    );
    assert_eq!(
        fault(&anon_cfg("network", "rule", "rule", opts([("a", Value::Null)]))),
        "network.@rule[0].a has null value"
    );
    assert_eq!(
        fault(&anon_cfg("network", "rule", "", IndexMap::new())),
        "Invalid type '' in network.@rule[0]"
    );
    assert_eq!(
        fault(&anon_cfg("network", "a b", "rule", IndexMap::new())),
        "Invalid list identifier 'a b' in config 'network': only [a-zA-Z0-9_-] allowed"
    );
    assert_eq!(
        fault(&named_cfg("network", "1a", "t", IndexMap::new())),
        "Invalid section '1a' in config 'network': only [a-zA-Z0-9_] allowed (no digits at start)"
    );
    assert_eq!(
        fault(&named_cfg("", "a", "t", IndexMap::new())),
        "Invalid config name '': only [a-zA-Z0-9_] allowed (no digits at start)"
    );
}

#[test]
fn raw_lines_are_trimmed_before_they_are_judged() {
    let raw = |lines: &[&str]| Root {
        raw_uci: Some(lines.iter().map(|l| l.to_string()).collect()),
        ..empty_root()
    };
    assert!(validate_root(&raw(&["  uci commit \n"])).is_ok());
    assert_eq!(fault(&raw(&["uci commit", " \t "])), "rawUci[1] is empty");
    assert_eq!(
        fault(&raw(&["uci"])),
        "rawUci[0] must be a 'uci' command, got: uci"
    );
}

#[test]
fn files_need_absolute_paths_and_base64_digits() {
    let file = |path: &str, content: FileContent| Root {
        files: Some(vec![File {
            path: path.into(),
            content,
            executable: false,
            checksum: None,
        }]),
        ..empty_root()
    };
    assert_eq!(
        fault(&file("etc/x", FileContent::Text("a".into()))),
        "files[0].path must be absolute, got: etc/x"
    );
    assert_eq!(
        fault(&file("/etc/../x", FileContent::Text("a".into()))),
        "files[0].path must not contain '..': /etc/../x"
    );
    assert_eq!(
        fault(&file("/etc/x", FileContent::Base64(String::new()))),
        "files[0].path=/etc/x has empty content"
    );
    // an empty text is a file of no bytes
    assert!(validate_root(&file("/etc/x", FileContent::Text(String::new()))).is_ok());
}

#[test]
fn settings_come_before_raw_lines_and_files() {
    let root = Root {
        raw_uci: Some(vec![String::new()]),
        files: Some(vec![File::default()]),
        ..named_cfg("bad-name", "a", "t", IndexMap::new())
    };
    assert_rejects(&root, "Invalid config name");
    let root = Root {
        raw_uci: Some(vec![String::new()]),
        files: Some(vec![File::default()]),
        ..empty_root()
    };
    assert_eq!(fault(&root), "rawUci[0] is empty");
}

#[test]
fn identifiers_and_types() {
    for (s, id, ty) in [
        ("", false, false),
        ("a", true, true),
        ("_", true, true),
        ("a1", true, true),
        ("1a", false, true),
        ("a-b", false, true),
        ("a.b", false, false),
        ("\u{e4}", false, false),
    ] {
        assert_eq!(is_valid_uci_identifier(s), id, "{s:?}");
        assert_eq!(is_valid_uci_type(s), ty, "{s:?}");
    }
}

#[test]
fn empty_values_are_warned_of_up_to_the_first_fault() {
    let root = named_cfg(
        "network",
        "lan",
        "interface",
        opts([
            ("a", text("")),
            ("b", text("x")),
            ("c", Value::Null),
            ("d", text("")),
        ]),
    );
    assert_eq!(
        validation_warnings(&root),
        ["Warning: network.lan.a is empty string \u{2014} UCI treats '' as unset. Consider omitting it."]
    );
    let root = anon_cfg("system", "system", "system", opts([("h", text(""))]));
    assert_eq!(
        validation_warnings(&root),
        ["Warning: system.@system[0].h is empty string \u{2014} UCI treats '' as unset. Consider omitting it."]
    );
    assert!(validation_warnings(&empty_root()).is_empty());
}
