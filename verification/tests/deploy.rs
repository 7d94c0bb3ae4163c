use indexmap::IndexMap;
use nuci::deploy::{
    build_ssh_args, deployer_key, missing_package, packages_to_transfer, plan_deployment,
    ssh_failure, DeployConfig, Deployment, Plan, Reply, Request, Stage,
};
use nuci::error::ConfigError;
use nuci::models::{File, FileContent, PackageSources, Root, Section, SectionData, Value};
use nuci::pipeline::{compile_config, CompiledConfig};
use nuci::target::script::{
    boot_rollback_hook, build_remote_script, key_warning, orphan_delete_commands, reload_commands,
};
use nuci::utils::text_map::TextMap;

fn value_of(v: &serde_json::Value) -> Value {
    match v {
        serde_json::Value::Null => Value::Null,
        serde_json::Value::Bool(b) => Value::Bool(*b),
        serde_json::Value::Number(n) => Value::Number(n.to_string()),
        serde_json::Value::String(s) => Value::Text(s.clone()),
        serde_json::Value::Array(a) => Value::Array(a.iter().map(value_of).collect()),
        serde_json::Value::Object(m) => {
            Value::Object(m.iter().map(|(k, v)| (k.clone(), value_of(v))).collect())
        }
    }
}

fn section_data(v: &serde_json::Value) -> SectionData {
    let map = v.as_object().unwrap();
    SectionData {
        section_type: map["_type"].as_str().unwrap().to_string(),
        options: map
            .iter()
            .filter(|(k, _)| *k != "_type")
            .map(|(k, v)| (k.clone(), value_of(v)))
            .collect(),
    }
}

fn strings(v: &serde_json::Value) -> Option<Vec<String>> {
    v.as_array()
        .map(|a| a.iter().map(|s| s.as_str().unwrap().to_string()).collect())
}

fn file_of(v: &serde_json::Value) -> File {
    File {
        path: v["path"].as_str().unwrap().to_string(),
        content: match &v["content"] {
            serde_json::Value::String(s) => FileContent::Text(s.clone()),
            serde_json::Value::Null => FileContent::default(),
            other => FileContent::Base64(other["base64"].as_str().unwrap().to_string()),
        },
        executable: v["executable"].as_bool().unwrap_or(false),
        checksum: v["checksum"].as_str().map(String::from),
    }
}

/// Reads the JSON form of a configuration.
fn root_of(json: &str) -> Root {
    let v: serde_json::Value = serde_json::from_str(json).unwrap();
    let mut settings = IndexMap::new();
    for (config, sections) in v["settings"].as_object().unwrap() {
        let mut out = IndexMap::new();
        for (name, section) in sections.as_object().unwrap() {
            let section = match section {
                serde_json::Value::Array(items) => {
                    Section::List(items.iter().map(section_data).collect())
                }
                one => Section::Named(section_data(one)),
            };
            out.insert(name.clone(), section);
        }
        settings.insert(config.clone(), out);
    }
    Root {
        package_manager: v["packageManager"].as_str().unwrap_or("opkg").to_string(),
        settings,
        packages: strings(&v["packages"]),
        package_sources: v["packageSources"].as_object().map(|s| PackageSources {
            feeds: s.get("feeds").and_then(strings),
            local_packages: s.get("localPackages").and_then(strings),
        }),
        ssh_keys: strings(&v["sshKeys"]).unwrap_or_default(),
        secrets: None,
        raw_uci: strings(&v["rawUci"]),
        files: v["files"]
            .as_array()
            .map(|a| a.iter().map(file_of).collect()),
    }
}

fn compile(json: &str) -> CompiledConfig {
    compile_config(root_of(json), TextMap::new()).unwrap()
}

fn map(items: &[(&str, &str)]) -> TextMap<String> {
    let mut m = TextMap::new();
    for (k, v) in items {
        m.insert(k.to_string(), v.to_string());
    }
    m
}

#[test]
fn reload_empty_configs_skips_else() {
    let out = reload_commands(&[], &TextMap::new());
    assert_eq!(
        out,
        "if [ -x /sbin/reload_config ]; then /sbin/reload_config; fi\n"
    );
    assert!(!out.contains("else\nfi"));
}

#[test]
fn reload_single_config() {
    let out = reload_commands(&["dropbear".into()], &TextMap::new());
    assert!(out.contains("/etc/init.d/dropbear reload"));
    assert!(!out.contains("network restart"));
}

#[test]
fn reload_uses_dynamic_map() {
    let services = map(&[("dhcp", "/etc/init.d/dnsmasq reload")]);
    let out = reload_commands(&["dhcp".into()], &services);
    assert!(out.contains("/etc/init.d/dnsmasq reload"));
    assert!(!out.contains("/etc/init.d/dhcp reload"));
}

#[test]
fn reload_dedup_by_command() {
    let services = map(&[
        ("network", "/etc/init.d/network restart"),
        ("wireless", "/etc/init.d/network restart"),
    ]);
    let out = reload_commands(&["network".into(), "wireless".into()], &services);
    assert_eq!(out.matches("network restart").count(), 1);
    assert_eq!(
        out,
        "if [ -x /sbin/reload_config ]; then /sbin/reload_config; else\n  [ -x /etc/init.d/network ] && /etc/init.d/network restart\nfi\n"
    );
}

#[test]
fn reload_fallback_to_generic_initd() {
    let out = reload_commands(&["custom-svc".into()], &TextMap::new());
    assert!(out.contains("/etc/init.d/custom-svc reload"));
}

#[test]
fn reload_nonempty_keeps_primary_reload_config_branch() {
    let out = reload_commands(&["network".into()], &TextMap::new());
    assert!(out.starts_with("if [ -x /sbin/reload_config ]; then /sbin/reload_config; else"));
    assert!(out.contains("/etc/init.d/network reload"));
    assert!(out.trim_end().ends_with("fi"));
}

fn lan() -> IndexMap<String, IndexMap<String, Section>> {
    IndexMap::from([(
        "network".to_string(),
        IndexMap::from([(
            "lan".to_string(),
            Section::Named(SectionData {
                section_type: "interface".into(),
                options: IndexMap::new(),
            }),
        )]),
    )])
}

#[test]
fn orphan_deletes_unmanaged_named_sections() {
    // Remote has network.lan (declared) + network.guest (not declared).
    let remote = map(&[
        ("network.lan", "interface"),
        ("network.guest", "interface"),
        ("network.lan.proto", "static"),
        ("network.@interface[0]", "interface"),
    ]);
    let cmds = orphan_delete_commands(&remote, &lan());
    assert!(cmds.contains("uci -q delete network.guest"));
    assert!(!cmds.contains("uci -q delete network.lan"));
    // Anonymous sections must never be deleted by this path.
    assert!(!cmds.contains("uci -q delete network.@interface"));
    assert_eq!(cmds, "uci -q delete network.guest\n");
}

#[test]
fn orphan_empty_when_all_declared() {
    let remote = map(&[("network.lan", "interface")]);
    assert!(orphan_delete_commands(&remote, &lan()).is_empty());
}

#[test]
fn a_list_does_not_declare_a_name() {
    let settings = IndexMap::from([(
        "network".to_string(),
        IndexMap::from([("rule".to_string(), Section::List(vec![]))]),
    )]);
    let remote = map(&[("network.rule", "rule"), ("network.a", "rule")]);
    assert_eq!(
        orphan_delete_commands(&remote, &settings),
        "uci -q delete network.a\nuci -q delete network.rule\n"
    );
}

/// Runs a deployment against a transport that records every call.
fn run(mut d: Deployment, mut answer: impl FnMut(&str) -> Reply) -> (Stage, Vec<(String, Option<String>)>) {
    let mut calls = Vec::new();
    loop {
        let reply = match d.request() {
            Request::Run { command, input } => {
                let reply = answer(&command);
                calls.push((command, input));
                reply
            }
            Request::Retry { command } => {
                let reply = answer(&command);
                calls.push((command, None));
                reply
            }
            Request::Transfer { packages } => {
                for p in &packages {
                    calls.push((format!("transfer {} as {}", p.path, p.file_name), None));
                }
                answer("transfer")
            }
            Request::FindKey => Reply::Key(None),
            Request::Nothing => return (d.stage, calls),
        };
        d.reply(reply);
    }
}

#[test]
fn run_orchestrates_deploy_without_ssh() {
    let compiled = compile(
        r#"{
                "packageManager": "opkg",
                "settings": {
                    "network": {
                        "lan": { "_type": "interface", "proto": "static" }
                    }
                }
            }"#,
    );
    let (stage, calls) = run(Deployment::new(compiled, false, "60".into()), |_| {
        Reply::Done(String::new())
    });
    assert!(matches!(stage, Stage::Deployed));
    // 1) discovery, 2) deploy script (has stdin), 3) watchdog poll, 4) cleanup.
    assert_eq!(calls.len(), 4);
    let (deploy_cmd, deploy_stdin) = &calls[1];
    assert_eq!(deploy_cmd, "cat > /tmp/deploy.sh && sh /tmp/deploy.sh");
    let script = deploy_stdin.as_ref().unwrap();
    // Compiled UCI batch must be present in the deployed script.
    assert!(script.contains("set network.lan.proto='static'"));
    // Watchdog kill + cleanup must both have been issued.
    assert!(calls[2].0.contains("kill $(cat /tmp/.uci-watchdog-pid)"));
    assert!(calls[3].0.contains("rm -rf /etc/.uci-rollback-backup"));
}

#[test]
fn build_remote_script_includes_custom_files() {
    let compiled = compile(
        r##"{
            "packageManager": "opkg",
            "settings": {},
            "files": [
                {
                    "path": "/etc/rc.local",
                    "content": "#!/bin/sh\necho hello\n",
                    "executable": true
                },
                {
                    "path": "/etc/custom/config.txt",
                    "content": "key=value\n"
                }
            ]
        }"##,
    );
    let (_, calls) = run(Deployment::new(compiled, true, "60".into()), |_| {
        Reply::Done(String::new())
    });
    let script = calls[0].1.as_ref().unwrap();

    assert!(script.contains("mkdir -p '/etc/custom'"));
    assert!(script.contains("cat > '/etc/rc.local'"));
    assert!(script.contains("#!/bin/sh"));
    assert!(script.contains("echo hello"));
    assert!(script.contains("chmod 755 '/etc/rc.local'"));
    assert!(script.contains("cat > '/etc/custom/config.txt'"));
    assert!(script.contains("chmod 644 '/etc/custom/config.txt'"));
}

#[test]
fn a_target_that_is_up_to_date_is_left_alone() {
    let json = r#"{ "settings": { "network": { "lan": { "_type": "interface", "ports": ["a", "b"] } } } }"#;
    let shown = "network.lan=interface\nnetwork.lan.ports='b' 'a'\n===NUCI_SERVICES===\n";
    let (stage, calls) = run(Deployment::new(compile(json), false, "60".into()), |_| {
        Reply::Done(shown.into())
    });
    assert!(matches!(stage, Stage::UpToDate));
    assert_eq!(calls.len(), 1);
    assert!(calls[0].0.starts_with("for c in network; do"));
    // force deploys all the same
    let (stage, calls) = run(Deployment::new(compile(json), true, "60".into()), |_| {
        Reply::Done(shown.into())
    });
    assert!(matches!(stage, Stage::Deployed));
    assert_eq!(calls.len(), 4);
    // truth values in lists are recognised
    let flags = r#"{ "settings": { "c": { "s": { "_type": "t", "l": [true, false] } } } }"#;
    let (stage, _) = run(Deployment::new(compile(flags), false, "60".into()), |_| {
        Reply::Done("c.s=t\nc.s.l='1' '0'\n===NUCI_SERVICES===\n".into())
    });
    assert!(matches!(stage, Stage::UpToDate));
    // a section that is no longer declared is deleted
    let more = "network.lan=interface\nnetwork.lan.ports='b' 'a'\nnetwork.guest=interface\n";
    let (_, calls) = run(Deployment::new(compile(json), false, "60".into()), |_| {
        Reply::Done(more.into())
    });
    let script = calls[1].1.as_ref().unwrap();
    let delete = script.find("uci -q delete network.guest\n").unwrap();
    assert!(delete < script.find("touch /etc/config/network").unwrap());
    assert!(script.find("cp -a /etc/config /etc/.uci-rollback-backup").unwrap() < delete);
}

#[test]
fn without_settings_only_force_deploys() {
    let json = r#"{ "settings": {}, "packages": ["p"] }"#;
    let (stage, calls) = run(Deployment::new(compile(json), false, "60".into()), |_| {
        Reply::Done(String::new())
    });
    assert!(matches!(stage, Stage::UpToDate));
    assert!(calls.is_empty());
}

#[test]
fn a_lost_target_is_given_up_after_thirty_attempts() {
    let json = r#"{ "settings": { "a": { "b": { "_type": "t" } } } }"#;
    let (stage, calls) = run(Deployment::new(compile(json), false, "60".into()), |cmd| {
        if cmd.starts_with("kill") {
            Reply::Failed(ConfigError::Deploy("unreachable".into()))
        } else {
            Reply::Done(String::new())
        }
    });
    match stage {
        Stage::Failed(e) => assert_eq!(
            e.message(),
            "Failed to reconnect within 60s. Target may have rolled back."
        ),
        other => panic!("{other:?}"),
    }
    assert_eq!(calls.iter().filter(|(c, _)| c.starts_with("kill")).count(), 30);
    assert!(!calls.iter().any(|(c, _)| c.starts_with("rm -rf")));
}

#[test]
fn a_target_that_comes_back_is_cleaned_up() {
    let json = r#"{ "settings": { "a": { "b": { "_type": "t" } } } }"#;
    let mut failures = 29;
    let (stage, calls) = run(Deployment::new(compile(json), false, "60".into()), |cmd| {
        if cmd.starts_with("kill") && failures > 0 {
            failures -= 1;
            Reply::Failed(ConfigError::Deploy("unreachable".into()))
        } else if cmd.starts_with("rm -rf") || cmd.starts_with("for c in") {
            // neither of these has to succeed
            Reply::Failed(ConfigError::Deploy("no".into()))
        } else {
            Reply::Done(String::new())
        }
    });
    assert!(matches!(stage, Stage::Deployed));
    assert_eq!(calls.len(), 1 + 1 + 30 + 1);
}

#[test]
fn failures_end_a_deployment() {
    let json = r#"{ "settings": { "a": { "b": { "_type": "t" } } }, "packageSources": { "localPackages": ["./x/y_1.ipk", "/"] } }"#;
    let (stage, calls) = run(Deployment::new(compile(json), false, "60".into()), |cmd| {
        if cmd == "transfer" {
            Reply::Failed(missing_package("./x/y_1.ipk"))
        } else {
            Reply::Done(String::new())
        }
    });
    match stage {
        Stage::Failed(e) => assert_eq!(e.message(), "Local package not found: ./x/y_1.ipk"),
        other => panic!("{other:?}"),
    }
    assert_eq!(calls[1].0, "transfer ./x/y_1.ipk as y_1.ipk");
    assert_eq!(calls[2].0, "transfer / as /");
    assert_eq!(calls.len(), 3);

    let (stage, calls) = run(Deployment::new(compile(json), false, "60".into()), |cmd| {
        if cmd.starts_with("cat >") {
            Reply::Failed(ssh_failure("root@r", cmd, Some(255)))
        } else {
            Reply::Done(String::new())
        }
    });
    match stage {
        Stage::Failed(e) => assert_eq!(
            e.message(),
            "SSH command failed on root@r: cat > /tmp/deploy.sh && sh /tmp/deploy.sh (exit 255)"
        ),
        other => panic!("{other:?}"),
    }
    assert_eq!(calls.len(), 4);
}

#[test]
fn replies_that_do_not_fit_change_nothing() {
    let json = r#"{ "settings": { "a": { "b": { "_type": "t" } } } }"#;
    let mut d = Deployment::new(compile(json), false, "60".into());
    d.reply(Reply::Key(Some("k".into())));
    assert!(matches!(d.stage, Stage::Discover));
    d.reply(Reply::Done(String::new()));
    assert!(matches!(d.stage, Stage::Key));
    d.reply(Reply::Done(String::new()));
    assert!(matches!(d.stage, Stage::Key));
    d.reply(Reply::Key(Some("k".into())));
    assert!(matches!(d.stage, Stage::Apply));
    assert_eq!(d.deployer_key, Some("k".to_string()));
}

#[test]
fn plans_follow_what_the_target_shows() {
    let json = r#"{ "settings": { "a": { "b": { "_type": "t" } } } }"#;
    let compiled = compile(json);
    assert!(matches!(
        plan_deployment(&compiled, false, Some("a.b=t\n")),
        Plan::UpToDate
    ));
    match plan_deployment(
        &compiled,
        false,
        Some("a.b=u\na.c=t\n===NUCI_SERVICES===\na:/etc/init.d/x reload\n"),
    ) {
        Plan::Deploy { commands, services } => {
            assert_eq!(
                commands,
                format!("uci -q delete a.c\n{}", compiled.uci_batch)
            );
            assert_eq!(services.get("a"), Some(&"/etc/init.d/x reload".to_string()));
        }
        Plan::UpToDate => panic!("differs"),
    }
    match plan_deployment(&compiled, false, None) {
        Plan::Deploy { commands, services } => {
            assert_eq!(commands, compiled.uci_batch);
            assert!(services.is_empty());
        }
        Plan::UpToDate => panic!("unknown"),
    }
}

fn script(json: &str, secrets: &TextMap<String>, key: Option<&str>) -> String {
    build_remote_script(
        &root_of(json),
        secrets,
        "COMMANDS\n",
        key,
        &["network".into()],
        &TextMap::new(),
        "90",
    )
}

#[test]
fn the_script_exactly() {
    let reload = "if [ -x /sbin/reload_config ]; then /sbin/reload_config; else\n  [ -x /etc/init.d/network ] && /etc/init.d/network reload\nfi\n";
    assert_eq!(
        script(r#"{ "settings": {} }"#, &TextMap::new(), Some("k")),
        format!(
            "{}COMMANDS\n\n( trap '' HUP; sleep 90; if [ -d /etc/.uci-rollback-backup ]; then cp -a /etc/.uci-rollback-backup/* /etc/config/; {reload} fi; rm -rf /etc/.uci-rollback-backup /etc/init.d/nuci_rollback /etc/rc.d/S15nuci_rollback /tmp/.uci-watchdog-pid ) >/dev/null 2>&1 </dev/null & echo $! > /tmp/.uci-watchdog-pid\n( sleep 1; {reload}) >/dev/null 2>&1 &\n",
            boot_rollback_hook()
        )
    );
}

#[test]
fn keys_are_deployed_with_the_deployers_own() {
    let json = r#"{ "settings": {}, "sshKeys": ["ssh-rsa AAA one", "ssh-rsa BBB"] }"#;
    let head = "mkdir -p /etc/dropbear/ && umask 177 && cat > /etc/dropbear/authorized_keys <<'SSHKEYS'\n";
    let tail = "\nSSHKEYS\nchmod 700 /etc/dropbear && chmod 600 /etc/dropbear/authorized_keys\n";
    let keys = "ssh-rsa AAA one\nssh-rsa BBB";
    let none = TextMap::new();
    let s = script(json, &none, Some("ssh-rsa AAA other comment"));
    assert!(s.starts_with(&format!("{head}{keys}{tail}cp -a ")));
    let s = script(json, &none, Some("ssh-rsa CCC me"));
    assert!(s.starts_with(&format!("{head}{keys}\nssh-rsa CCC me{tail}cp -a ")));
    let s = script(json, &none, None);
    assert!(s.starts_with(&format!("{head}{keys}{tail}cp -a ")));

    let list = vec!["ssh-rsa AAA one".to_string()];
    assert_eq!(key_warning(&list, Some("ssh-rsa AAA")), None);
    assert!(key_warning(&list, Some("ssh-rsa CCC"))
        .unwrap()
        .contains("appending to prevent lockout"));
    assert!(key_warning(&list, None)
        .unwrap()
        .contains("No active SSH keys"));
    assert_eq!(key_warning(&vec![], None), None);
}

#[test]
fn a_password_is_set_where_there_is_one() {
    let json = r#"{ "settings": {} }"#;
    let s = script(json, &map(&[("root_password", "p$w")]), None);
    assert!(s.starts_with(
        "if command -v chpasswd >/dev/null 2>&1; then\nchpasswd <<'CHPWD'\nroot:p$w\nCHPWD\nelse\npasswd root <<'CHPWD' >/dev/null 2>&1\np$w\np$w\nCHPWD\nfi\ncp -a "
    ));
    let s = script(json, &map(&[("root_password", "a'%s\\")]), None);
    assert!(s.contains("<<'CHPWD'\nroot:a'%s\\\nCHPWD\n"));
    assert!(s.contains("<<'CHPWD' >/dev/null 2>&1\na'%s\\\na'%s\\\nCHPWD\n"));
    let s = script(json, &map(&[("root_password", "two\nlines")]), None);
    assert!(s.contains("<<'CHPWD'\nroot:two\nlines\nCHPWD\n"));
    let s = script(json, &map(&[("root_password", "")]), None);
    assert!(s.starts_with("cp -a "));
}

#[test]
fn files_are_written_and_guarded() {
    let json = r##"{ "settings": {}, "files": [
        { "path": "/etc/a", "content": "no newline" },
        { "path": "/b", "content": "" },
        { "path": "/etc/x/c", "content": { "base64": "AAEC" }, "executable": true, "checksum": "abc" }
    ] }"##;
    let s = script(json, &TextMap::new(), None);
    assert!(s.starts_with(
        "mkdir -p '/etc'\ncat > '/etc/a' <<'NUCI_FILE_0_EOF'\nno newline\nNUCI_FILE_0_EOF\nchmod 644 '/etc/a'\n\
         mkdir -p '/'\ncat > '/b' <<'NUCI_FILE_1_EOF'\nNUCI_FILE_1_EOF\nchmod 644 '/b'\n\
         if [ \"$(sha256sum '/etc/x/c' 2>/dev/null | cut -d' ' -f1)\" != 'abc' ]; then\nmkdir -p '/etc/x'\necho 'AAEC' | base64 -d > '/etc/x/c'\nfi\nchmod 755 '/etc/x/c'\n\
         cp -a "
    ));
}

#[test]
fn text_files_arrive_as_they_are() {
    let text = "#!/bin/sh\necho \"$HOME\" `id` \\\\\n\nUCI_EOF\nNUCI_FILE_1_EOF\nend";
    let mut root = root_of(r#"{ "settings": {} }"#);
    root.files = Some(vec![File {
        path: "/etc/a".into(),
        content: FileContent::Text(text.into()),
        executable: false,
        checksum: None,
    }]);
    let s = build_remote_script(&root, &TextMap::new(), "", None, &[], &TextMap::new(), "90");
    let opening = "cat > '/etc/a' <<'NUCI_FILE_0_EOF'\n";
    let body = &s[s.find(opening).unwrap() + opening.len()..];
    let lines: Vec<&str> = body.lines().take_while(|l| *l != "NUCI_FILE_0_EOF").collect();
    assert_eq!(lines.join("\n"), text);
}

#[test]
fn the_hook_restores_the_backup_and_removes_itself() {
    let hook = boot_rollback_hook();
    let start = hook.find("if [ \"$1\"").expect("hook has boot guard");
    let end = hook
        .find("BOOT_EOF\n")
        .expect("hook has heredoc terminator");
    assert!(hook.starts_with("cp -a /etc/config /etc/.uci-rollback-backup\n"));
    let body = &hook[start..end];
    let restore = body.find("cp -a /etc/.uci-rollback-backup/* /etc/config/").unwrap();
    let discard = body.find("rm -rf /etc/.uci-rollback-backup\n").unwrap();
    let forget = body
        .find("rm -f /etc/init.d/nuci_rollback /etc/rc.d/S15nuci_rollback\n")
        .unwrap();
    assert!(restore < discard && discard < forget);
    assert!(hook.contains("ln -sf /etc/init.d/nuci_rollback /etc/rc.d/S15nuci_rollback\n"));
}

#[test]
fn ssh_arguments() {
    let config = |port: u16, identity: Option<&str>| DeployConfig {
        port,
        identity_file: identity.map(String::from),
        force: false,
        no_sops: false,
        watchdog_timeout: 60,
    };
    let usual = build_ssh_args(&config(22, None));
    assert_eq!(usual.len(), 14);
    assert_eq!(usual[1], "StrictHostKeyChecking=no");
    assert_eq!(usual[13], "ControlPersist=5m");
    let args = build_ssh_args(&config(2222, Some("/k")));
    assert_eq!(args[..14], usual[..]);
    assert_eq!(args[14..], ["-p", "2222", "-i", "/k"]);
    assert_eq!(
        ssh_failure("t", "c", None).message(),
        "SSH command failed on t: c (exit -1)"
    );
    assert_eq!(
        ssh_failure("t", "c", Some(i32::MIN)).message(),
        "SSH command failed on t: c (exit -2147483648)"
    );
}

#[test]
fn the_agents_first_key_is_the_deployers() {
    assert_eq!(
        deployer_key("ssh-rsa AAA a\nssh-rsa BBB b\n"),
        Some("ssh-rsa AAA a".to_string())
    );
    assert_eq!(deployer_key(""), None);
}

#[test]
fn packages_arrive_under_their_file_names() {
    let compiled = compile(
        r#"{ "settings": {}, "packageSources": { "localPackages": ["a/b.ipk", "c.apk"] } }"#,
    );
    let staged = packages_to_transfer(&compiled);
    assert_eq!(staged.len(), 2);
    assert_eq!(
        (staged[0].path.as_str(), staged[0].file_name.as_str()),
        ("a/b.ipk", "b.ipk")
    );
    assert_eq!(staged[1].file_name, "c.apk");
    assert!(packages_to_transfer(&compile(r#"{ "settings": {} }"#)).is_empty());
}
