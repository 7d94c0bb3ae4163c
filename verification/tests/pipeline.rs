use indexmap::IndexMap;
use nuci::models::{File, FileContent, PackageSources, Root, Section, SectionData, Value};
use nuci::pipeline::{compile_config, CompiledConfig};
use nuci::utils::text_map::TextMap;

fn value_of(v: &serde_json::Value) -> Value {
    match v {
        serde_json::Value::Null => Value::Null,
        serde_json::Value::Bool(b) => Value::Bool(*b),
        serde_json::Value::Number(n) => Value::Number(n.to_string()),
        serde_json::Value::String(s) => Value::Text(s.clone()),
        serde_json::Value::Array(a) => Value::Array(a.iter().map(value_of).collect()),
        serde_json::Value::Object(m) => {
            Value::Object(m.iter().map(|(k, v)| (k.clone(), value_of(v))).collect())
        }
    }
}

fn section_data(v: &serde_json::Value) -> SectionData {
    let map = v.as_object().unwrap();
    SectionData {
        section_type: map["_type"].as_str().unwrap().to_string(),
        options: map
            .iter()
            .filter(|(k, _)| *k != "_type")
            .map(|(k, v)| (k.clone(), value_of(v)))
            .collect(),
    }
}

fn strings(v: &serde_json::Value) -> Option<Vec<String>> {
    v.as_array()
        .map(|a| a.iter().map(|s| s.as_str().unwrap().to_string()).collect())
}

fn file_of(v: &serde_json::Value) -> File {
    File {
        path: v["path"].as_str().unwrap().to_string(),
        content: match &v["content"] {
            serde_json::Value::String(s) => FileContent::Text(s.clone()),
            serde_json::Value::Null => FileContent::default(),
            other => FileContent::Base64(other["base64"].as_str().unwrap().to_string()),
        },
        executable: v["executable"].as_bool().unwrap_or(false),
        checksum: v["checksum"].as_str().map(String::from),
    }
}

/// Reads the JSON form of a configuration.
fn root_of(json: &str) -> Root {
    let v: serde_json::Value = serde_json::from_str(json).unwrap();
    let mut settings = IndexMap::new();
    for (config, sections) in v["settings"].as_object().unwrap() {
        let mut out = IndexMap::new();
        for (name, section) in sections.as_object().unwrap() {
            let section = match section {
                serde_json::Value::Array(items) => {
                    Section::List(items.iter().map(section_data).collect())
                }
                one => Section::Named(section_data(one)),
            };
            out.insert(name.clone(), section);
        }
        settings.insert(config.clone(), out);
    }
    Root {
        package_manager: v["packageManager"].as_str().unwrap_or("opkg").to_string(),
        settings,
        packages: strings(&v["packages"]),
        package_sources: v["packageSources"].as_object().map(|s| PackageSources {
            feeds: s.get("feeds").and_then(strings),
            local_packages: s.get("localPackages").and_then(strings),
        }),
        ssh_keys: strings(&v["sshKeys"]).unwrap_or_default(),
        secrets: None,
        raw_uci: strings(&v["rawUci"]),
        files: v["files"]
            .as_array()
            .map(|a| a.iter().map(file_of).collect()),
    }
}

fn compile(json: &str) -> Result<CompiledConfig, nuci::error::ConfigError> {
    compile_config(root_of(json), TextMap::new())
}

fn failure(json: &str) -> String {
    match compile(json) {
        Ok(_) => panic!("compiled"),
        Err(e) => e.message(),
    }
}

#[test]
fn pipeline_raw_uci_emitted_verbatim_after_typed_batch() {
    let out = compile(
        r#"{
                "packageManager": "opkg",
                "settings": {
                    "system": { "system": [ { "_type": "system", "hostname": "rauter" } ] }
                },
                "rawUci": [ "uci rename system.@system[0]=sys0" ]
            }"#,
    )
    .unwrap();
    assert!(out.uci_batch.contains("uci rename system.@system[0]=sys0"));
    let raw_pos = out.uci_batch.find("uci rename").unwrap();
    let typed_pos = out.uci_batch.find("add system system").unwrap();
    assert!(raw_pos > typed_pos, "rawUci should follow typed uci batch");
}

#[test]
fn raw_uci_add_touches_single_config() {
    let out = compile(
        r#"{
                "packageManager": "opkg",
                "settings": {},
                "rawUci": [ "uci add dropbear dropbear", "uci set network.lan.proto='static'" ]
            }"#,
    )
    .unwrap();
    assert!(out.uci_batch.contains("touch /etc/config/dropbear\n"));
    assert!(out.uci_batch.contains("touch /etc/config/network\n"));
    assert!(!out
        .uci_batch
        .contains("touch /etc/config/dropbear dropbear"));
}

#[test]
fn pipeline_raw_uci_absent_when_not_declared() {
    let out = compile(r#"{ "packageManager": "opkg", "settings": {} }"#).unwrap();
    assert!(!out.uci_batch.contains("Raw UCI escape hatch"));
    assert_eq!(out.uci_batch, "");
}

#[test]
fn raw_commands_exactly() {
    let out = compile(
        r#"{ "settings": {}, "rawUci": [ " uci set a.b=c  ", "uci set a.d='e'", "uci add x", "uci commit" ] }"#,
    )
    .unwrap();
    assert_eq!(
        out.uci_batch,
        "\n# Ensure config files exist for raw UCI lines below\ntouch /etc/config/a\ntouch /etc/config/x\n\n# Raw UCI escape hatch (verbatim)\n uci set a.b=c\nuci set a.d='e'\nuci add x\nuci commit\n"
    );
    let out = compile(r#"{ "settings": {}, "rawUci": [ "uci commit" ] }"#).unwrap();
    assert_eq!(
        out.uci_batch,
        "\n# Raw UCI escape hatch (verbatim)\nuci commit\n"
    );
    let out = compile(r#"{ "settings": {}, "rawUci": [] }"#).unwrap();
    assert_eq!(out.uci_batch, "");
}

#[test]
fn test_nested_and_null_values() {
    let cases: &[(&str, &str)] = &[
        (
            "nested object",
            r#"{"packageManager":"opkg","settings":{"x":{"s":{"_type":"t","obj":{"nested":"v"}}}}}"#,
        ),
        (
            "null value",
            r#"{"packageManager":"opkg","settings":{"x":{"s":{"_type":"t","k":null}}}}"#,
        ),
        (
            "hyphen config",
            r#"{"packageManager":"opkg","settings":{"my-config":{}}}"#,
        ),
        (
            "hyphen option",
            r#"{"packageManager":"opkg","settings":{"network":{"lan":{"_type":"interface","ip-address":"10.0.0.1"}}}}"#,
        ),
    ];
    for (name, json) in cases {
        let result = compile(json);
        assert!(result.is_err(), "{name} should be rejected");
    }
}

#[test]
fn test_hyphen_in_config_name_rejected() {
    let err = failure(r#"{ "packageManager": "opkg", "settings": { "my-config": {} } }"#);
    assert!(err.contains("Invalid config name"), "got: {err}");
}

#[test]
fn test_hyphen_in_option_name_rejected() {
    let err = failure(
        r#"{
            "packageManager": "opkg",
            "settings": {
                "network": {
                    "lan": {
                        "_type": "interface",
                        "ip-address": "10.0.0.1"
                    }
                }
            }
        }"#,
    );
    assert!(err.contains("Invalid option"), "got: {err}");
}

#[test]
fn secrets_are_in_place_before_commands_are_written() {
    let json = r#"{ "packageManager": "apk", "settings": { "wireless": { "r": { "_type": "wifi-iface", "key": "@k@" } } }, "packages": ["p"] }"#;
    let mut secrets = TextMap::new();
    secrets.insert("k".to_string(), "it's".to_string());
    let out = compile_config(root_of(json), secrets).unwrap();
    assert!(out
        .uci_batch
        .starts_with("touch /etc/config/wireless\nuci -q batch <<'UCI_EOF'\n"));
    assert!(out.uci_batch.contains("set wireless.r.key='it'\\''s'\n"));
    assert!(out.uci_batch.ends_with("apk add p; fi\n"));
    assert_eq!(out.secrets.get("k"), Some(&"it's".to_string()));
    if let Section::Named(data) = &out.resolved_root.settings["wireless"]["r"] {
        assert_eq!(data.options["key"], Value::Text("it's".into()));
    } else {
        panic!("not a named section");
    }

    let mut others = TextMap::new();
    others.insert("other".to_string(), "x".to_string());
    let err = compile_config(root_of(json), others).err().unwrap();
    assert_eq!(
        err.message(),
        "Tried to use secret k, but no secret with this name specified."
    );
}
