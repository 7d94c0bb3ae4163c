use indexmap::IndexMap;
use nuci::compile::secret_files::{
    add_decrypted, all_secrets, decrypt_sops_mem, load_secrets_dir, merge_secrets, next_sops_file,
    replace_secrets, secret_file_names, DirEntry, Member, SecretFile, SopsOutcome, SopsRun,
};
use nuci::compile::secrets::{interpolate_secrets, resolve_secrets};
use nuci::error::ConfigError;
use nuci::models::{PackageSources, Root, Section, SectionData, Value};
use nuci::utils::text_map::TextMap;
use std::borrow::Cow;

fn secrets(map: &[(&str, &str)]) -> TextMap<String> {
    let mut m = TextMap::new();
    for (k, v) in map {
        m.insert(k.to_string(), v.to_string());
    }
    m
}

fn text(s: &str) -> Value {
    Value::Text(s.into())
}

#[test]
fn interpolate_no_at() {
    let s = interpolate_secrets("plain text", &secrets(&[])).unwrap();
    assert_eq!(s.as_ref(), "plain text");
}

#[test]
fn interpolate_empty_secrets() {
    let s = interpolate_secrets("@secret@", &TextMap::new()).unwrap();
    assert_eq!(s.as_ref(), "@secret@");
}

#[test]
fn interpolate_single_secret() {
    let s = interpolate_secrets("key=@wifi_key@", &secrets(&[("wifi_key", "hunter2")])).unwrap();
    assert_eq!(s.as_ref(), "key=hunter2");
}

#[test]
fn interpolate_multiple_secrets() {
    let s = interpolate_secrets("@a@_@b@", &secrets(&[("a", "x"), ("b", "y")])).unwrap();
    assert_eq!(s.as_ref(), "x_y");
}

#[test]
fn interpolate_missing_secret_errors() {
    let err = interpolate_secrets("@missing@", &secrets(&[("other", "v")])).unwrap_err();
    assert!(err.message().contains("missing"));
    assert_eq!(
        err.message(),
        "Tried to use secret missing, but no secret with this name specified."
    );
}

#[test]
fn interpolate_non_identifier_passthrough() {
    let s = interpolate_secrets("@not valid@", &secrets(&[])).unwrap();
    assert_eq!(s.as_ref(), "@not valid@");
    let s = interpolate_secrets("@not valid@", &secrets(&[("a", "x")])).unwrap();
    assert_eq!(s.as_ref(), "@not valid@");
}

#[test]
fn interpolate_at_boundary_only() {
    let s = interpolate_secrets("@@", &secrets(&[])).unwrap();
    assert_eq!(s.as_ref(), "@@");
    let s = interpolate_secrets("@@", &secrets(&[("a", "x")])).unwrap();
    assert_eq!(s.as_ref(), "@@");
}

#[test]
fn texts_without_secrets_are_not_copied() {
    let s = secrets(&[("a", "1")]);
    for t in ["plain", "@", "@@", "x@y z@", "@not valid@ @"] {
        assert!(matches!(
            interpolate_secrets(t, &s).unwrap(),
            Cow::Borrowed(_)
        ));
    }
    assert!(matches!(
        interpolate_secrets("@a@", &s).unwrap(),
        Cow::Owned(_)
    ));
    assert!(matches!(
        interpolate_secrets("@a@", &TextMap::new()).unwrap(),
        Cow::Borrowed(_)
    ));
}

#[test]
fn unclosed_marker_passthrough() {
    let s = interpolate_secrets("my@unclosed", &TextMap::new()).unwrap();
    assert_eq!(s.as_ref(), "my@unclosed");

    let s = interpolate_secrets("has@in@middle@here", &TextMap::new()).unwrap();
    assert_eq!(s.as_ref(), "has@in@middle@here");
}

#[test]
fn a_closing_mark_can_open_the_next_placeholder() {
    let s = secrets(&[("a", "1"), ("not it", "2")]);
    assert_eq!(interpolate_secrets("x @ y@a@z", &s).unwrap(), "x @ y1z");
    assert_eq!(interpolate_secrets("@@a@", &s).unwrap(), "@1");
    assert_eq!(interpolate_secrets("@not it@", &s).unwrap(), "2");
    // what a secret holds is not looked at again
    let s = secrets(&[("a", "@b@"), ("b", "no")]);
    assert_eq!(interpolate_secrets("<@a@>", &s).unwrap(), "<@b@>");
}

fn root_with(
    config: &str,
    section: &str,
    data: Section,
    package_sources: Option<PackageSources>,
) -> Root {
    Root {
        package_manager: "opkg".into(),
        settings: IndexMap::from([(
            config.into(),
            IndexMap::from([(section.into(), data)]),
        )]),
        packages: None,
        package_sources,
        ssh_keys: vec![],
        secrets: None,
        raw_uci: None,
        files: None,
    }
}

fn named(section_type: &str, options: Vec<(&str, Value)>) -> Section {
    Section::Named(data(section_type, options))
}

fn data(section_type: &str, options: Vec<(&str, Value)>) -> SectionData {
    SectionData {
        section_type: section_type.into(),
        options: options
            .into_iter()
            .map(|(k, v)| (k.to_string(), v))
            .collect(),
    }
}

#[test]
fn resolve_secrets_success() {
    let root = root_with(
        "wireless",
        "radio0",
        named("wifi-iface", vec![("key", text("@wifi_pass@"))]),
        None,
    );
    let secs = secrets(&[("wifi_pass", "secret123")]);
    let resolved = resolve_secrets(root, &secs).unwrap();
    if let Section::Named(map) = &resolved.settings["wireless"]["radio0"] {
        assert_eq!(map.options["key"], text("secret123"));
    } else {
        panic!("Expected Section::Named");
    }
}

#[test]
fn resolve_secrets_missing_secret_errors() {
    let root = root_with(
        "wireless",
        "radio0",
        named("wifi-iface", vec![("key", text("@missing_secret@"))]),
        None,
    );
    let err = resolve_secrets(root, &secrets(&[("other", "v")])).unwrap_err();
    assert!(err.message().contains("missing_secret"));
}

#[test]
fn resolve_secrets_skips_type_field() {
    let root = root_with(
        "config",
        "test",
        named("@not_a_secret@", vec![("key", text("plain"))]),
        None,
    );
    let resolved = resolve_secrets(root, &TextMap::new()).unwrap();
    if let Section::Named(map) = &resolved.settings["config"]["test"] {
        assert_eq!(map.section_type, "@not_a_secret@");
        assert_eq!(map.options["key"], text("plain"));
    } else {
        panic!("Expected Section::Named");
    }
    let root = root_with(
        "config",
        "test",
        named("@not_a_secret@", vec![("key", text("plain"))]),
        None,
    );
    let resolved = resolve_secrets(root, &secrets(&[("a", "b")])).unwrap();
    if let Section::Named(map) = &resolved.settings["config"]["test"] {
        assert_eq!(map.section_type, "@not_a_secret@");
    } else {
        panic!("Expected Section::Named");
    }
}

#[test]
fn resolve_secrets_empty_map_shortcircuits() {
    let root = root_with("c", "s", named("", vec![("key", text("@secret@"))]), None);
    let resolved = resolve_secrets(root, &TextMap::new()).unwrap();
    if let Section::Named(map) = &resolved.settings["c"]["s"] {
        assert_eq!(map.options["key"], text("@secret@"));
    } else {
        panic!("Expected Section::Named");
    }
}

#[test]
fn resolve_secrets_list_section() {
    let root = root_with(
        "dropbear",
        "dropbear",
        Section::List(vec![data("dropbear", vec![("Port", text("@port@"))])]),
        None,
    );
    let secs = secrets(&[("port", "22")]);
    let resolved = resolve_secrets(root, &secs).unwrap();
    if let Section::List(arr) = &resolved.settings["dropbear"]["dropbear"] {
        assert_eq!(arr[0].options["Port"], text("22"));
        assert_eq!(arr[0].section_type, "dropbear");
    } else {
        panic!("Expected Section::List");
    }
}

#[test]
fn resolve_secrets_feeds() {
    let root = Root {
        settings: IndexMap::new(),
        ..root_with(
            "c",
            "s",
            named("t", vec![]),
            Some(PackageSources {
                feeds: Some(vec!["src/gz @repo_name@ https://example.com".into()]),
                local_packages: None,
            }),
        )
    };
    let secs = secrets(&[("repo_name", "custom")]);
    let resolved = resolve_secrets(root, &secs).unwrap();
    let feeds = resolved.package_sources.unwrap().feeds.unwrap();
    assert_eq!(feeds[0], "src/gz custom https://example.com");
}

#[test]
fn secrets_reach_into_lists_but_not_into_objects() {
    let root = root_with(
        "c",
        "s",
        named(
            "t",
            vec![
                (
                    "l",
                    Value::Array(vec![
                        text("@a@"),
                        Value::Array(vec![text("-@a@")]),
                        Value::Number("1".into()),
                    ]),
                ),
                ("o", Value::Object(vec![("k".into(), text("@a@"))])),
                ("z", text("@a@")),
            ],
        ),
        None,
    );
    let resolved = resolve_secrets(root, &secrets(&[("a", "v")])).unwrap();
    if let Section::Named(map) = &resolved.settings["c"]["s"] {
        assert_eq!(
            map.options["l"],
            Value::Array(vec![
                text("v"),
                Value::Array(vec![text("-v")]),
                Value::Number("1".into()),
            ])
        );
        assert_eq!(
            map.options["o"],
            Value::Object(vec![("k".into(), text("@a@"))])
        );
        assert_eq!(map.options["z"], text("v"));
        let order: Vec<&String> = map.options.keys().collect();
        assert_eq!(order, ["l", "o", "z"]);
    } else {
        panic!("Expected Section::Named");
    }
}

fn files_named(names: &[&str]) -> Vec<DirEntry> {
    names
        .iter()
        .map(|n| DirEntry {
            name: n.to_string(),
            is_file: true,
        })
        .collect()
}

fn load(files: &[(&str, &str)]) -> Result<TextMap<String>, ConfigError> {
    let names: Vec<&str> = files.iter().map(|(n, _)| *n).collect();
    let picked: Vec<SecretFile> = secret_file_names(&files_named(&names))
        .into_iter()
        .map(|name| SecretFile {
            bytes: files
                .iter()
                .find(|(n, _)| *n == name)
                .unwrap()
                .1
                .as_bytes()
                .to_vec(),
            path: format!("/secrets/{name}"),
        })
        .collect();
    load_secrets_dir(&picked)
}

#[test]
fn load_secrets_nonexistent_dir() {
    // a directory that is not there has no files
    let result = load(&[]).unwrap();
    assert!(result.is_empty());
}

#[test]
fn load_secrets_normal() {
    let result = load(&[("a.json", r#"{"key1": "val1", "key2": "val2"}"#)]).unwrap();
    assert_eq!(result.get("key1"), Some(&"val1".to_string()));
    assert_eq!(result.get("key2"), Some(&"val2".to_string()));
}

#[test]
fn load_secrets_skips_sops_key() {
    let result = load(&[(
        "sec.json",
        r#"{"key": "val", "sops": {"encrypted": "data"}}"#,
    )])
    .unwrap();
    assert_eq!(result.get("key"), Some(&"val".to_string()));
    assert!(!result.contains_key("sops"));
}

#[test]
fn load_secrets_deterministic_order() {
    let result = load(&[
        ("z.json", r#"{"key": "same_val"}"#),
        ("a.json", r#"{"key": "same_val"}"#),
    ])
    .unwrap();
    assert_eq!(result.get("key"), Some(&"same_val".to_string()));
}

#[test]
fn load_secrets_multiple_files_different_keys() {
    let result = load(&[
        ("a.json", r#"{"key_a": "from_a"}"#),
        ("b.json", r#"{"key_b": "from_b"}"#),
    ])
    .unwrap();
    assert_eq!(result.get("key_a"), Some(&"from_a".to_string()));
    assert_eq!(result.get("key_b"), Some(&"from_b".to_string()));
}

#[test]
fn load_secrets_conflict_errors() {
    let err = load(&[
        ("a.json", r#"{"key": "val_a"}"#),
        ("b.json", r#"{"key": "val_b"}"#),
    ])
    .unwrap_err();
    assert!(err.message().contains("conflicts"));
    assert!(err.message().contains("key"));
    assert_eq!(
        err.message(),
        "Secret key 'key' conflicts with different values across files. File causing conflict: '/secrets/b.json'"
    );
}

#[test]
fn load_secrets_skips_non_json() {
    let result = load(&[("notes.txt", "not json"), ("ok.json", r#"{"k": "v"}"#)]).unwrap();
    assert_eq!(result.get("k"), Some(&"v".to_string()));
}

#[test]
fn load_secrets_invalid_json_errors() {
    let err = load(&[("bad.json", "not valid json {{{")]).unwrap_err();
    assert!(err.message().contains("Failed to parse"));
    let why = serde_json::from_str::<serde_json::Value>("not valid json {{{").unwrap_err();
    assert_eq!(err.message(), format!("Failed to parse JSON: {why}"));
}

#[test]
fn load_secrets_non_string_values() {
    let result = load(&[(
        "mix.json",
        r#"{"str": "hello", "num": 42, "bool": true, "f": 1.50, "list": [1, "x"], "nil": null}"#,
    )])
    .unwrap();
    assert_eq!(result.get("str"), Some(&"hello".to_string()));
    assert_eq!(result.get("num"), Some(&"42".to_string()));
    assert_eq!(result.get("bool"), Some(&"true".to_string()));
    assert_eq!(result.get("f"), Some(&"1.5".to_string()));
    assert_eq!(result.get("list"), Some(&"[1,\"x\"]".to_string()));
    assert_eq!(result.get("nil"), Some(&"null".to_string()));
}

#[test]
fn load_secrets_skips_subdirectories() {
    let mut entries = files_named(&["top.json"]);
    for name in ["subdir", "dir.json"] {
        entries.push(DirEntry {
            name: name.into(),
            is_file: false,
        });
    }
    assert_eq!(secret_file_names(&entries), ["top.json"]);
    let result = load(&[("top.json", r#"{"top_key": "top_val"}"#)]).unwrap();
    assert_eq!(result.get("top_key"), Some(&"top_val".to_string()));
    assert!(!result.contains_key("nested_key"));
}

#[test]
fn a_directory_gives_the_members_of_its_documents() {
    let m = load(&[
        ("b.json", r#"{"x": "1", "sops": "y", "n": 2}"#),
        ("a.json", r#"{"x": "1", "t": true}"#),
        ("c.json", "[1]"),
        ("notes.txt", "{"),
    ])
    .unwrap();
    assert_eq!(m.keys(), ["n", "t", "x"]);
    assert_eq!(m.get("x"), Some(&"1".to_string()));
    assert_eq!(m.get("n"), Some(&"2".to_string()));
    assert_eq!(m.get("t"), Some(&"true".to_string()));

    let disagree = load(&[("b.json", r#"{"x": 1}"#), ("a.json", r#"{"x": 2}"#)]).unwrap_err();
    assert_eq!(
        disagree.message(),
        "Secret key 'x' conflicts with different values across files. File causing conflict: '/secrets/b.json'"
    );
    assert!(matches!(
        load(&[("a.json", "{")]).unwrap_err(),
        ConfigError::Json(_)
    ));
}

#[test]
fn decrypted_files_are_collected_in_turn() {
    let run = |file: &str, outcome| SopsRun {
        file: file.into(),
        outcome,
    };
    let json = |s: &str| SopsOutcome::Decrypted(s.as_bytes().to_vec());
    let m = decrypt_sops_mem(&vec![
        run("a", json(r#"{"k": "1", "l": "2"}"#)),
        run("b", json(r#"{"k": "3", "sops": {}}"#)),
    ])
    .unwrap();
    assert_eq!(m.keys(), ["k", "l"]);
    assert_eq!(m.get("k"), Some(&"3".to_string()));
    assert!(decrypt_sops_mem(&vec![]).unwrap().is_empty());
    let err = decrypt_sops_mem(&vec![
        run("a", json("{}")),
        run("b", SopsOutcome::NotFound),
        run("c", SopsOutcome::Failed),
    ])
    .unwrap_err();
    assert!(err.message().contains("Configured SOPS file not found: b"));

    let files: Vec<String> = vec!["a".into(), "b".into(), "c".into()];
    assert_eq!(next_sops_file(&files, &vec![]), Some("a".to_string()));
    let mut runs = vec![run("a", json("{}"))];
    assert_eq!(next_sops_file(&files, &runs), Some("b".to_string()));
    runs.push(run("b", json("{")));
    assert_eq!(next_sops_file(&files, &runs), None);
    assert_eq!(next_sops_file(&vec![], &vec![]), None);

    let all = all_secrets(m, &secrets(&[("l", "dir"), ("z", "9")]));
    assert_eq!(all.keys(), ["k", "l", "z"]);
    assert_eq!(all.get("k"), Some(&"3".to_string()));
    assert_eq!(all.get("l"), Some(&"dir".to_string()));
}

#[test]
fn a_configuration_is_refused_where_something_asks_in_vain() {
    let known = secrets(&[("a", "v")]);
    let with = |v: Value, feeds: Option<PackageSources>| {
        resolve_secrets(root_with("c", "s", named("t", vec![("o", v)]), feeds), &known)
    };
    let deep = Value::Array(vec![
        text("@a@"),
        Value::Array(vec![Value::Number("1".into()), text("@gone@")]),
    ]);
    assert!(with(deep, None).unwrap_err().message().contains("gone"));
    let hidden = Value::Object(vec![("k".into(), text("@gone@"))]);
    assert!(with(hidden, None).is_ok());
    let feeds = |f: &str| {
        Some(PackageSources {
            feeds: Some(vec!["@a@".into(), f.into()]),
            local_packages: Some(vec!["@gone@".into()]),
        })
    };
    assert!(with(text("x"), feeds("@gone@")).is_err());
    let ok = with(text("x"), feeds("y")).unwrap();
    let sources = ok.package_sources.unwrap();
    assert_eq!(sources.feeds.unwrap(), ["v", "y"]);
    assert_eq!(sources.local_packages.unwrap(), ["@gone@"]);
}

#[test]
fn the_order_of_a_listing_makes_no_difference() {
    assert_eq!(
        secret_file_names(&files_named(&["b.json", "notes", "a.json", "c.json"])),
        secret_file_names(&files_named(&["c.json", "a.json", "b.json", "notes"]))
    );
}

#[test]
fn files_of_secrets_have_the_extension_json() {
    let names = [
        "z.json", ".json", "a.json", "a.JSON", "json", "b.json.bak", "..json",
    ];
    assert_eq!(
        secret_file_names(&files_named(&names)),
        ["..json", "a.json", "z.json"]
    );
    for n in names {
        let picked = !secret_file_names(&files_named(&[n])).is_empty();
        let json = std::path::Path::new(n)
            .extension()
            .is_some_and(|e| e == "json");
        assert_eq!(picked, json, "{n}");
    }
}

#[test]
fn documents_that_are_no_objects_hold_no_secrets() {
    let result = load(&[("a.json", "[1, 2]"), ("b.json", "\"x\"")]).unwrap();
    assert!(result.is_empty());
}

#[test]
fn members_replace_or_clash() {
    let members = vec![
        ("a".to_string(), Member::Text("1".into())),
        ("sops".to_string(), Member::Text("2".into())),
        ("b".to_string(), Member::Bool(false)),
        ("c".to_string(), Member::Number("3".into())),
        ("d".to_string(), Member::Other("{}".into())),
    ];
    let mut m = secrets(&[("a", "0")]);
    replace_secrets(&mut m, &members);
    assert_eq!(m.keys(), ["a", "b", "c", "d"]);
    assert_eq!(m.get("a"), Some(&"1".to_string()));
    assert_eq!(m.get("b"), Some(&"false".to_string()));

    let mut m = secrets(&[("a", "0")]);
    let err = merge_secrets(&mut m, &members, "p").unwrap_err();
    assert!(err.message().starts_with("Secret key 'a' conflicts"));
    let mut m = secrets(&[("a", "1"), ("c", "3")]);
    merge_secrets(&mut m, &members, "p").unwrap();
    assert_eq!(m.get("d"), Some(&"{}".to_string()));
}

#[test]
fn decrypted_files_add_their_secrets() {
    let mut m = secrets(&[("k", "old")]);
    add_decrypted(
        &mut m,
        "s.yml",
        &SopsOutcome::Decrypted(br#"{"k": "new", "sops": 1, "n": 7}"#.to_vec()),
    )
    .unwrap();
    assert_eq!(m.get("k"), Some(&"new".to_string()));
    assert_eq!(m.get("n"), Some(&"7".to_string()));
    assert!(!m.contains_key("sops"));
    add_decrypted(&mut m, "s.yml", &SopsOutcome::Decrypted(b"3".to_vec())).unwrap();
    assert_eq!(m.keys(), ["k", "n"]);

    let mut fail = |outcome: SopsOutcome| {
        let err = add_decrypted(&mut m, "s.yml", &outcome).unwrap_err();
        assert!(matches!(err, ConfigError::Sops(_)));
        err.message()
    };
    assert_eq!(
        fail(SopsOutcome::NotFound),
        "Configured SOPS file not found: s.yml"
    );
    assert_eq!(
        fail(SopsOutcome::NotRun("gone".into())),
        "Failed to run sops: gone"
    );
    assert_eq!(
        fail(SopsOutcome::Failed),
        "Failed to decrypt sops file: s.yml"
    );
    assert!(
        fail(SopsOutcome::Decrypted(b"{".to_vec())).starts_with("Failed to parse decrypted JSON: ")
    );
}
