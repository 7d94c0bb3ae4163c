use indexmap::IndexMap;
use nuci::compile::generator::{serialize_option_val, serialize_uci};
use nuci::compile::packages::serialize_package_management;
use nuci::models::{PackageSources, PkgBackend, Section, SectionData, Value};

fn text(s: &str) -> Value {
    Value::Text(s.into())
}

fn section(section_type: &str, options: IndexMap<String, Value>) -> SectionData {
    SectionData {
        section_type: section_type.into(),
        options,
    }
}

#[test]
fn generator_serialize_string_val() {
    let mut w = String::new();
    serialize_option_val(&mut w, "system.hostname", &text("test")).unwrap();
    assert_eq!(w, "set system.hostname='test'\n");
}

#[test]
fn generator_serialize_number_val() {
    let mut w = String::new();
    serialize_option_val(&mut w, "dhcp.start", &Value::Number("100".into())).unwrap();
    assert_eq!(w, "set dhcp.start='100'\n");
}

#[test]
fn generator_serialize_bool_val() {
    let mut w = String::new();
    serialize_option_val(&mut w, "wifi.enabled", &Value::Bool(true)).unwrap();
    assert_eq!(w, "set wifi.enabled='1'\n");
}

#[test]
fn generator_serialize_bool_false_val() {
    let mut w = String::new();
    serialize_option_val(&mut w, "wifi.enabled", &Value::Bool(false)).unwrap();
    assert_eq!(w, "set wifi.enabled='0'\n");
}

#[test]
fn generator_serialize_array_val() {
    let mut w = String::new();
    let arr = Value::Array(vec![text("a"), text("b")]);
    serialize_option_val(&mut w, "net.dns", &arr).unwrap();
    assert!(w.contains("add_list net.dns='a'"));
    assert!(w.contains("add_list net.dns='b'"));
}

#[test]
fn generator_serialize_nested_object_errors() {
    let mut w = String::new();
    let obj = Value::Object(vec![("nested".into(), text("value"))]);
    let err = serialize_option_val(&mut w, "key", &obj).unwrap_err();
    assert!(err.message().contains("not a supported option value type"));
}

#[test]
fn generator_serialize_array_with_nested_object_errors() {
    let mut w = String::new();
    let arr = Value::Array(vec![Value::Object(vec![("bad".into(), Value::Bool(true))])]);
    let err = serialize_option_val(&mut w, "key", &arr).unwrap_err();
    assert!(err.message().contains("not a supported list value type"));
}

#[test]
fn generator_serialize_null_val_errors() {
    let mut w = String::new();
    let err = serialize_option_val(&mut w, "key", &Value::Null).unwrap_err();
    assert!(err.message().contains("not a supported option value type"));
}

#[test]
fn generator_serialize_with_quote_escaping() {
    let mut w = String::new();
    serialize_option_val(&mut w, "sys.name", &text("it's")).unwrap();
    assert_eq!(w, "set sys.name='it'\\''s'\n");
}

#[test]
fn refused_values_are_shown_as_serde_json_shows_them() {
    let mut w = String::new();
    let err = serialize_option_val(&mut w, "k", &Value::Null).unwrap_err();
    assert_eq!(
        err.message(),
        format!("{:?} is not a supported option value type", serde_json::Value::Null)
    );
    let nested: serde_json::Value =
        serde_json::from_str(r#"{"a": [1, true, null, "q\"\n"], "b": {}, "c": []}"#).unwrap();
    let mine = Value::Object(vec![
        (
            "a".into(),
            Value::Array(vec![
                Value::Number("1".into()),
                Value::Bool(true),
                Value::Null,
                text("q\"\n"),
            ]),
        ),
        ("b".into(), Value::Object(vec![])),
        ("c".into(), Value::Array(vec![])),
    ]);
    let err = serialize_option_val(&mut w, "k", &mine).unwrap_err();
    assert_eq!(
        err.message(),
        format!("{nested:?} is not a supported option value type")
    );
    assert_eq!(w, "");
}

fn value_of(v: &serde_json::Value) -> Value {
    match v {
        serde_json::Value::Null => Value::Null,
        serde_json::Value::Bool(b) => Value::Bool(*b),
        serde_json::Value::Number(n) => Value::Number(n.to_string()),
        serde_json::Value::String(s) => Value::Text(s.clone()),
        serde_json::Value::Array(items) => Value::Array(items.iter().map(value_of).collect()),
        serde_json::Value::Object(m) => {
            Value::Object(m.iter().map(|(k, v)| (k.clone(), value_of(v))).collect())
        }
    }
}

#[test]
fn every_shape_of_a_refused_value_is_shown() {
    for json in [
        "{}",
        "[]",
        "[[]]",
        "[{}]",
        r#"[null, false, true]"#,
        r#"[0, -7, 18446744073709551615, -9223372036854775808, 1.0, -2.5, 1e300, 1.5e-7]"#,
        r#"["", "a b", "'", "\"", "\\", "\t\r\n\u0000\u007f", "\u00e9\u200b\u0301\ud83d\ude00"]"#,
        r#"{"z": {"y": [1, {"x": null}]}, "\"": "k", "": [], "a": 0.1}"#,
    ] {
        let theirs: serde_json::Value = serde_json::from_str(json).unwrap();
        let mut w = String::new();
        let list = Value::Array(vec![Value::Array(vec![value_of(&theirs)])]);
        let err = serialize_option_val(&mut w, "k", &list).unwrap_err();
        let shown = serde_json::Value::Array(vec![theirs]);
        assert_eq!(
            err.message(),
            format!("{shown:?} is not a supported list value type")
        );
    }
}

#[test]
fn values_before_an_unsupported_one_are_written() {
    let mut w = String::from("#\n");
    let arr = Value::Array(vec![
        text("a'b"),
        Value::Bool(false),
        Value::Number("-2.5".into()),
        Value::Array(vec![]),
        text("never"),
    ]);
    let err = serialize_option_val(&mut w, "k", &arr).unwrap_err();
    assert_eq!(
        err.message(),
        "Array [] is not a supported list value type"
    );
    assert_eq!(
        w,
        "#\nadd_list k='a'\\''b'\nadd_list k='0'\nadd_list k='-2.5'\n"
    );
}

#[test]
fn generator_serialize_named_section() {
    let mut configs = IndexMap::new();
    let mut sections = IndexMap::new();
    let mut options = IndexMap::new();
    options.insert("proto".into(), text("static"));
    sections.insert("lan".into(), Section::Named(section("interface", options)));
    configs.insert("network".into(), sections);

    let mut w = String::new();
    serialize_uci(&mut w, &configs).unwrap();

    assert!(w.contains("uci -q batch <<'UCI_EOF'"));
    assert!(w.contains("delete network.lan"));
    assert!(w.contains("set network.lan=interface"));
    assert!(w.contains("set network.lan.proto='static'"));
    assert!(w.contains("commit network"));
    assert!(w.contains("UCI_EOF"));
    assert_eq!(
        w,
        "touch /etc/config/network\nuci -q batch <<'UCI_EOF'\ndelete network.lan\nset network.lan=interface\nset network.lan.proto='static'\ncommit network\nUCI_EOF\n"
    );
}

#[test]
fn generator_serialize_list_section() {
    let mut configs = IndexMap::new();
    let mut sections = IndexMap::new();
    let mut options = IndexMap::new();
    options.insert("Port".into(), text("22"));
    sections.insert(
        "dropbear".into(),
        Section::List(vec![section("dropbear", options)]),
    );
    configs.insert("dropbear".into(), sections);

    let mut w = String::new();
    serialize_uci(&mut w, &configs).unwrap();

    assert!(w.contains("while uci -q delete dropbear.@dropbear[0]; do :; done"));
    assert!(w.contains("uci -q batch <<'UCI_EOF'"));
    assert!(w.contains("add dropbear dropbear"));
    assert!(w.contains("set dropbear.@dropbear[0].Port='22'"));
    assert!(w.contains("commit dropbear"));
}

#[test]
fn serialize_heterogeneous_list_wipes_each_type() {
    let mut configs = IndexMap::new();
    let mut sections = IndexMap::new();
    sections.insert(
        "firewall".into(),
        Section::List(vec![
            section("rule", IndexMap::from([("target".into(), text("ACCEPT"))])),
            section("redirect", IndexMap::from([("dest".into(), text("lan"))])),
        ]),
    );
    configs.insert("firewall".into(), sections);

    let mut w = String::new();
    serialize_uci(&mut w, &configs).unwrap();

    assert!(w.contains("while uci -q delete firewall.@rule[0]; do :; done"));
    assert!(w.contains("while uci -q delete firewall.@redirect[0]; do :; done"));
    assert!(w.contains("add firewall rule"));
    assert!(w.contains("add firewall redirect"));
    assert!(w.contains("set firewall.@rule[0]"));
    assert!(w.contains("set firewall.@redirect[1]"));
}

#[test]
fn serialize_named_section_empty_type_succeeds() {
    let mut configs = IndexMap::new();
    let mut sections = IndexMap::new();
    sections.insert("lan".into(), Section::Named(section("", IndexMap::new())));
    configs.insert("network".into(), sections);

    let mut w = String::new();
    serialize_uci(&mut w, &configs).unwrap();
    assert!(w.contains("set network.lan="));
}

#[test]
fn serialize_list_section_empty_type_succeeds() {
    let mut configs = IndexMap::new();
    let mut sections = IndexMap::new();
    sections.insert(
        "dropbear".into(),
        Section::List(vec![section("", IndexMap::new())]),
    );
    configs.insert("dropbear".into(), sections);

    let mut w = String::new();
    serialize_uci(&mut w, &configs).unwrap();
    assert!(w.contains("add dropbear "));
    assert!(w.contains("add dropbear dropbear\n"));
}

#[test]
fn generator_serialize_multiple_list_items() {
    let mut configs = IndexMap::new();
    let mut sections = IndexMap::new();
    let mut opts1 = IndexMap::new();
    opts1.insert("Port".into(), text("22"));
    let mut opts2 = IndexMap::new();
    opts2.insert("Port".into(), text("2222"));
    sections.insert(
        "dropbear".into(),
        Section::List(vec![
            section("dropbear", opts1),
            section("dropbear", opts2),
        ]),
    );
    configs.insert("dropbear".into(), sections);

    let mut w = String::new();
    serialize_uci(&mut w, &configs).unwrap();

    assert_eq!(w.matches("add dropbear dropbear").count(), 2);
    assert!(w.contains("set dropbear.@dropbear[0].Port='22'"));
    assert!(w.contains("set dropbear.@dropbear[1].Port='2222'"));
    assert_eq!(w.matches("while uci").count(), 1);
}

#[test]
fn generator_serialize_list_section_type_mismatch() {
    let mut configs = IndexMap::new();
    let mut sections = IndexMap::new();
    let mut options = IndexMap::new();
    options.insert("proto".into(), text("static"));
    sections.insert(
        "interfaces".into(),
        Section::List(vec![section("interface", options)]),
    );
    configs.insert("network".into(), sections);

    let mut w = String::new();
    serialize_uci(&mut w, &configs).unwrap();

    assert!(w.contains("while uci -q delete network.@interface[0]; do :; done"));
    assert!(w.contains("add network interface"));
    assert!(w.contains("set network.@interface[0].proto='static'"));
}

#[test]
fn generator_serialize_list_rebuilds_every_item() {
    let mut configs = IndexMap::new();
    let mut sections = IndexMap::new();
    let mut options = IndexMap::new();
    options.insert("Port".into(), text("22"));
    sections.insert(
        "dropbear".into(),
        Section::List(vec![section("dropbear", options)]),
    );
    configs.insert("dropbear".into(), sections);

    let mut w = String::new();
    serialize_uci(&mut w, &configs).unwrap();

    assert!(w.contains("while uci -q delete dropbear.@dropbear[0]; do :; done"));
    let add_count = w.matches("add dropbear dropbear").count();
    assert_eq!(add_count, 1);
}

#[test]
fn a_refused_file_stops_the_script_before_it() {
    let good = || {
        IndexMap::from([(
            "a".to_string(),
            Section::Named(section("t", IndexMap::from([("o".into(), text("v"))]))),
        )])
    };
    let bad = IndexMap::from([(
        "b".to_string(),
        Section::Named(section(
            "t",
            IndexMap::from([("p".into(), text("w")), ("o".into(), Value::Null)]),
        )),
    )]);
    let configs = IndexMap::from([
        ("first".to_string(), good()),
        ("second".to_string(), bad),
        ("third".to_string(), good()),
    ]);
    let mut w = String::new();
    let err = serialize_uci(&mut w, &configs).unwrap_err();
    assert_eq!(
        err.message(),
        "Null is not a supported option value type"
    );
    assert_eq!(
        w,
        "touch /etc/config/first\nuci -q batch <<'UCI_EOF'\ndelete first.a\nset first.a=t\nset first.a.o='v'\ncommit first\nUCI_EOF\n"
    );
}

#[test]
fn a_file_without_sections_has_no_batch() {
    let configs = IndexMap::from([("empty".to_string(), IndexMap::new())]);
    let mut w = String::new();
    serialize_uci(&mut w, &configs).unwrap();
    assert_eq!(w, "");
}

#[test]
fn generator_test_serialize_opkg_empty() {
    let mut w = String::new();
    serialize_package_management(&mut w, PkgBackend::Opkg, None, None).unwrap();
    assert!(w.is_empty());
}

#[test]
fn generator_test_serialize_opkg_feeds_opkg() {
    let mut w = String::new();
    let sources = PackageSources {
        feeds: Some(vec!["src/gz custom 'test' https://example.com".into()]),
        local_packages: None,
    };
    serialize_package_management(&mut w, PkgBackend::Opkg, Some(&sources), None).unwrap();
    assert!(w.contains("/etc/opkg/customfeeds.conf"));
    assert!(w.contains("printf '%s\\n' 'src/gz custom '\\''test'\\'' https://example.com'"));
    assert_eq!(
        w,
        "\nprintf '' > /etc/opkg/customfeeds.conf\nprintf '%s\\n' 'src/gz custom '\\''test'\\'' https://example.com' >> /etc/opkg/customfeeds.conf\n"
    );
}

#[test]
fn generator_test_serialize_opkg_feeds_apk() {
    let mut w = String::new();
    let sources = PackageSources {
        feeds: Some(vec!["https://example.com/packages".into()]),
        local_packages: None,
    };
    serialize_package_management(&mut w, PkgBackend::Apk, Some(&sources), None).unwrap();
    assert!(w.contains("/etc/apk/repositories.d/customfeeds.list"));
    assert!(w.contains("printf '%s\\n' 'https://example.com/packages'"));
    assert!(w.starts_with("\nmkdir -p /etc/apk/repositories.d\nprintf '' > "));
}

#[test]
fn generator_test_serialize_opkg_packages_opkg() {
    let mut w = String::new();
    let pkgs = vec!["luci".into(), "tcpdump".into()];
    serialize_package_management(&mut w, PkgBackend::Opkg, None, Some(&pkgs)).unwrap();
    assert!(w.contains("NEED_INSTALL=false"));
    assert!(w.contains("opkg status"));
    assert!(w.contains("opkg update && opkg install luci tcpdump"));
    assert_eq!(
        w,
        "\nNEED_INSTALL=false\nfor pkg in 'luci' 'tcpdump'; do\n    if ! opkg status \"$pkg\" 2>/dev/null | grep -q 'Status:.*installed'; then NEED_INSTALL=true; break; fi\ndone\nif [ \"$NEED_INSTALL\" = true ]; then opkg update && opkg install luci tcpdump; fi\n"
    );
}

#[test]
fn generator_test_serialize_opkg_packages_apk() {
    let mut w = String::new();
    let pkgs = vec!["luci".into(), "tcpdump".into()];
    serialize_package_management(&mut w, PkgBackend::Apk, None, Some(&pkgs)).unwrap();
    assert!(w.contains("NEED_INSTALL=false"));
    assert!(w.contains("apk info -e"));
    assert!(w.contains("apk add luci tcpdump"));
}

#[test]
fn test_serialize_remove_before_install_opkg() {
    let mut w = String::new();
    let pkgs = vec!["-wpad-basic-mbedtls".into(), "wpad-mbedtls".into()];
    serialize_package_management(&mut w, PkgBackend::Opkg, None, Some(&pkgs)).unwrap();
    assert!(w.contains("NEED_REMOVE=false"));
    assert!(w.contains("opkg remove 'wpad-basic-mbedtls'"));
    assert!(w.contains("opkg update && opkg install wpad-mbedtls"));
    assert!(
        w.find("opkg remove").unwrap() < w.find("opkg update").unwrap(),
        "removal must be emitted before install"
    );
    assert!(!w.contains("opkg install -wpad"));
}

#[test]
fn test_serialize_remove_before_install_apk() {
    let mut w = String::new();
    let pkgs = vec!["-wpad-basic-mbedtls".into(), "wpad-mbedtls".into()];
    serialize_package_management(&mut w, PkgBackend::Apk, None, Some(&pkgs)).unwrap();
    assert!(w.contains("NEED_REMOVE=false"));
    assert!(w.contains("apk del 'wpad-basic-mbedtls'"));
    assert!(w.contains("apk add wpad-mbedtls"));
    assert!(
        w.find("apk del").unwrap() < w.find("apk add").unwrap(),
        "removal must be emitted before install"
    );
    assert!(!w.contains("apk add -wpad"));
}

#[test]
fn removals_come_first_wherever_they_stand() {
    let mut w = String::new();
    let pkgs = vec!["a".into(), "-b".into(), "c".into(), "-d".into()];
    serialize_package_management(&mut w, PkgBackend::Opkg, None, Some(&pkgs)).unwrap();
    assert!(w.contains("opkg remove 'b' 'd'; if [ $? -ne 0 ]; then exit 1; fi; fi\n"));
    assert!(w.contains("opkg install a c; fi\n"));
    assert!(w.find("opkg remove").unwrap() < w.find("opkg install").unwrap());
}

#[test]
fn test_serialize_remove_only_skips_install_block() {
    let mut w = String::new();
    let pkgs = vec!["-wpad-basic-mbedtls".into()];
    serialize_package_management(&mut w, PkgBackend::Opkg, None, Some(&pkgs)).unwrap();
    assert!(w.contains("NEED_REMOVE=false"));
    assert!(w.contains("opkg remove 'wpad-basic-mbedtls'"));
    assert!(!w.contains("NEED_INSTALL"));
}

#[test]
fn generator_test_serialize_opkg_local_packages_opkg() {
    let mut w = String::new();
    let sources = PackageSources {
        feeds: None,
        local_packages: Some(vec!["./packages/test_1.0_all.ipk".into()]),
    };
    serialize_package_management(&mut w, PkgBackend::Opkg, Some(&sources), None).unwrap();
    assert!(w.contains("opkg status test"));
    assert!(w.contains("opkg install /tmp/test_1.0_all.ipk"));
    assert_eq!(
        w,
        "\nif ! opkg status test 2>/dev/null | grep -q 'Status:.*installed'; then\n    opkg install /tmp/test_1.0_all.ipk\nfi\n"
    );
}

#[test]
fn generator_test_serialize_opkg_local_packages_apk() {
    let mut w = String::new();
    let sources = PackageSources {
        feeds: None,
        local_packages: Some(vec!["./packages/test_1.0_all.apk".into()]),
    };
    serialize_package_management(&mut w, PkgBackend::Apk, Some(&sources), None).unwrap();
    assert!(w.contains("if ! apk info -e test >/dev/null 2>&1; then"));
    assert!(w.contains("apk add --allow-untrusted /tmp/test_1.0_all.apk"));
}

#[test]
fn feeds_then_packages_then_files() {
    let mut w = String::new();
    let sources = PackageSources {
        feeds: Some(vec!["f".into()]),
        local_packages: Some(vec!["/".into(), "x/y.ipk".into()]),
    };
    let pkgs = vec!["p".into()];
    serialize_package_management(&mut w, PkgBackend::Opkg, Some(&sources), Some(&pkgs)).unwrap();
    let by_name = w.find("NEED_INSTALL").unwrap();
    let by_file = w.find("/tmp/y.ipk").unwrap();
    let feeds = w.find("customfeeds").unwrap();
    assert!(feeds < by_name && by_name < by_file);
    assert!(w.starts_with("\nprintf '' > /etc/opkg/customfeeds.conf"));
    assert_eq!(w.matches("opkg install /tmp/").count(), 1);
    let empty = PackageSources {
        feeds: Some(vec![]),
        local_packages: Some(vec![]),
    };
    let mut none = String::new();
    serialize_package_management(&mut none, PkgBackend::Apk, Some(&empty), Some(&vec![])).unwrap();
    assert_eq!(none, "");
}
