//! What the script that runs on a target delivers: services, keys, files, and the way back.

use crate::compile::secrets::Secrets;
use crate::config::models::{Content, Declared, Payload, Sections, Settings};
use crate::config::uci_key::{named_section, names_section};
use crate::target::diff::Flat;
use crate::target::report::key_identity;
use crate::target::script::{
    content_script, declared_keys, deployed_keys, directory, file_script, file_scripts,
    files_script, hook_script, key_notice, keys_script, orphan_lines, orphan_script,
    password_script, program, reload_command, reload_lines, reload_list, reload_script,
    remote_script, section_keys, watchdog_script,
};
use crate::utils::equations::{blank, word, words_are_what_white_space_parts};
use crate::utils::heredoc::{fits, here_document, here_documents_arrive};
use crate::utils::order::in_order;
use crate::utils::path::parent;
use crate::utils::split::{contains_text, decimal, join};
use crate::utils::text::white_space;
use crate::utils::within::{
    behind, lemma_behind_is, lemma_flat_last, lemma_within_flat, lemma_within_is, lemma_within_more,
    within,
};
use vstd::prelude::*;

verus! {

// ---- services ----

/// The command that reloads the service of a configuration file: the one that the target told of,
/// or that of the service with the file's name.
pub open spec fn service_command(config: Seq<char>, map: Map<Seq<char>, Seq<char>>) -> Seq<char> {
    if map.dom().contains(config) {
        map[config]
    } else {
        "/etc/init.d/"@ + config + " reload"@
    }
}

/// What runs a command where its program is there.
pub open spec fn service_run(cmd: Seq<char>) -> Seq<char> {
    "  [ -x "@ + program(cmd) + " ] && "@ + cmd + "\n"@
}

/// Whether the command of file `i` was already that of a file before it.
pub open spec fn command_seen(
    modified: Seq<Seq<char>>,
    map: Map<Seq<char>, Seq<char>>,
    i: int,
) -> bool {
    exists|j: int|
        0 <= j < i && service_command(#[trigger] modified[j], map) == service_command(
            modified[i],
            map,
        )
}

proof fn lemma_reload_list(
    modified: Seq<Seq<char>>,
    map: Map<Seq<char>, Seq<char>>,
    n: nat,
    cmd: Seq<char>,
)
    requires
        n <= modified.len(),
    ensures
        reload_list(modified, map, n).contains(cmd) <==> exists|j: int|
            0 <= j < n && service_command(#[trigger] modified[j], map) == cmd,
    decreases n,
{
    if n > 0 {
        let early = reload_list(modified, map, (n - 1) as nat);
        let last = reload_command(modified[n - 1], map);
        lemma_reload_list(modified, map, (n - 1) as nat, cmd);
        assert(service_command(modified[n - 1], map) == last);
        if !early.contains(last) {
            assert(early.push(last)[early.len() as int] == last);
            if early.contains(cmd) {
                let j = choose|j: int| 0 <= j < early.len() && early[j] == cmd;
                assert(early.push(last)[j] == cmd);
            }
        }
    }
}

proof fn lemma_reload_text(modified: Seq<Seq<char>>, map: Map<Seq<char>, Seq<char>>, n: nat)
    requires
        n <= modified.len(),
    ensures
        reload_lines(reload_list(modified, map, n)) == Seq::new(
            n,
            |i: int|
                if command_seen(modified, map, i) {
                    Seq::empty()
                } else {
                    service_run(service_command(modified[i], map))
                },
        ).flatten(),
    decreases n,
{
    let p = Seq::new(
        n,
        |i: int|
            if command_seen(modified, map, i) {
                Seq::empty()
            } else {
                service_run(service_command(modified[i], map))
            },
    );
    if n > 0 {
        let k = (n - 1) as nat;
        let early = reload_list(modified, map, k);
        let cmd = reload_command(modified[n - 1], map);
        lemma_reload_text(modified, map, k);
        lemma_reload_list(modified, map, k, cmd);
        assert(service_command(modified[n - 1], map) == cmd);
        lemma_flat_last(p);
        assert(p.drop_last() =~= Seq::new(
            k,
            |i: int|
                if command_seen(modified, map, i) {
                    Seq::empty()
                } else {
                    service_run(service_command(modified[i], map))
                },
        ));
        assert(early.contains(cmd) <==> command_seen(modified, map, n - 1));
        if !early.contains(cmd) {
            assert(early.push(cmd).drop_last() =~= early);
        } else {
            assert(p.flatten() =~= p.drop_last().flatten());
        }
    }
}

/// Where the target has no program of its own to reload what changed, the command of every
/// modified configuration file is run, in their order, each command once.
pub proof fn every_service_is_reloaded(modified: Seq<Seq<char>>, map: Map<Seq<char>, Seq<char>>)
    requires
        modified.len() > 0,
    ensures
        reload_script(modified, map)
            == "if [ -x /sbin/reload_config ]; then /sbin/reload_config; else\n"@ + Seq::new(
            modified.len(),
            |i: int|
                if command_seen(modified, map, i) {
                    Seq::empty()
                } else {
                    service_run(service_command(modified[i], map))
                },
        ).flatten() + "fi\n"@,
{
    lemma_reload_text(modified, map, modified.len());
}

proof fn lemma_first_with(
    modified: Seq<Seq<char>>,
    map: Map<Seq<char>, Seq<char>>,
    i: int,
) -> (k: int)
    requires
        0 <= i < modified.len(),
    ensures
        0 <= k <= i,
        !command_seen(modified, map, k),
        service_command(modified[k], map) == service_command(modified[i], map),
    decreases i,
{
    if command_seen(modified, map, i) {
        let j = choose|j: int|
            0 <= j < i && service_command(#[trigger] modified[j], map) == service_command(
                modified[i],
                map,
            );
        lemma_first_with(modified, map, j)
    } else {
        i
    }
}

/// The script runs the command of every modified configuration file.
pub proof fn no_service_is_left_out(
    modified: Seq<Seq<char>>,
    map: Map<Seq<char>, Seq<char>>,
    i: int,
)
    requires
        0 <= i < modified.len(),
    ensures
        ({
            let c = if map.dom().contains(modified[i]) {
                map[modified[i]]
            } else {
                "/etc/init.d/"@ + modified[i] + " reload"@
            };
            within(reload_script(modified, map), "  [ -x "@ + program(c) + " ] && "@ + c + "\n"@)
        }),
{
    every_service_is_reloaded(modified, map);
    let k = lemma_first_with(modified, map, i);
    let p = Seq::new(
        modified.len(),
        |i: int|
            if command_seen(modified, map, i) {
                Seq::empty()
            } else {
                service_run(service_command(modified[i], map))
            },
    );
    lemma_within_flat(p, k);
    lemma_within_more(
        "if [ -x /sbin/reload_config ]; then /sbin/reload_config; else\n"@,
        p.flatten(),
        "fi\n"@,
        p[k],
    );
}

/// Without modified configuration files only the target's own program is run.
pub proof fn nothing_modified_nothing_named(map: Map<Seq<char>, Seq<char>>)
    ensures
        reload_script(Seq::empty(), map)
            == "if [ -x /sbin/reload_config ]; then /sbin/reload_config; fi\n"@,
{
}

// ---- the way back ----

/// The settings are saved before anything else; then the script that a boot runs is installed: it
/// puts the saved settings back, where there are any, and removes them and itself.
pub proof fn boots_put_settings_back()
    ensures
        ({
            let save = "cp -a /etc/config /etc/.uci-rollback-backup\n"@;
            let opening = "mkdir -p /etc/init.d /etc/rc.d\ncat > /etc/init.d/nuci_rollback <<'BOOT_EOF'\n"@;
            let boot = "#!/bin/sh\nif [ \"$1\" = \"boot\" ] || [ \"$1\" = \"start\" ] || [ \"$1\" = \"\" ]; then\n    if [ -d /etc/.uci-rollback-backup ]; then\n"@
                + "        cp -a /etc/.uci-rollback-backup/* /etc/config/\n"@
                + "        rm -rf /etc/.uci-rollback-backup\n    fi\n"@
                + "    rm -f /etc/init.d/nuci_rollback /etc/rc.d/S15nuci_rollback\nfi\n"@;
            let closing = "BOOT_EOF\nchmod +x /etc/init.d/nuci_rollback\nln -sf /etc/init.d/nuci_rollback /etc/rc.d/S15nuci_rollback\n"@;
            hook_script() == save + opening + boot + closing
                + "timeout 5 sync 2>/dev/null || true\n"@
        }),
{
    reveal_strlit("cp -a /etc/config /etc/.uci-rollback-backup\n");
    reveal_strlit("mkdir -p /etc/init.d /etc/rc.d\ncat > /etc/init.d/nuci_rollback <<'BOOT_EOF'\n");
    reveal_strlit(
        "#!/bin/sh\nif [ \"$1\" = \"boot\" ] || [ \"$1\" = \"start\" ] || [ \"$1\" = \"\" ]; then\n    if [ -d /etc/.uci-rollback-backup ]; then\n",
    );
    reveal_strlit("        cp -a /etc/.uci-rollback-backup/* /etc/config/\n");
    reveal_strlit("        rm -rf /etc/.uci-rollback-backup\n    fi\n");
    reveal_strlit("    rm -f /etc/init.d/nuci_rollback /etc/rc.d/S15nuci_rollback\nfi\n");
    reveal_strlit(
        "BOOT_EOF\nchmod +x /etc/init.d/nuci_rollback\nln -sf /etc/init.d/nuci_rollback /etc/rc.d/S15nuci_rollback\n",
    );
    reveal_strlit("timeout 5 sync 2>/dev/null || true\n");
    reveal_strlit(
        "cp -a /etc/config /etc/.uci-rollback-backup\nmkdir -p /etc/init.d /etc/rc.d\ncat > /etc/init.d/nuci_rollback <<'BOOT_EOF'\n#!/bin/sh\nif [ \"$1\" = \"boot\" ] || [ \"$1\" = \"start\" ] || [ \"$1\" = \"\" ]; then\n    if [ -d /etc/.uci-rollback-backup ]; then\n        cp -a /etc/.uci-rollback-backup/* /etc/config/\n        rm -rf /etc/.uci-rollback-backup\n    fi\n    rm -f /etc/init.d/nuci_rollback /etc/rc.d/S15nuci_rollback\nfi\nBOOT_EOF\nchmod +x /etc/init.d/nuci_rollback\nln -sf /etc/init.d/nuci_rollback /etc/rc.d/S15nuci_rollback\ntimeout 5 sync 2>/dev/null || true\n",
    );
    let all = "cp -a /etc/config /etc/.uci-rollback-backup\n"@
        + "mkdir -p /etc/init.d /etc/rc.d\ncat > /etc/init.d/nuci_rollback <<'BOOT_EOF'\n"@ + (
    "#!/bin/sh\nif [ \"$1\" = \"boot\" ] || [ \"$1\" = \"start\" ] || [ \"$1\" = \"\" ]; then\n    if [ -d /etc/.uci-rollback-backup ]; then\n"@
        + "        cp -a /etc/.uci-rollback-backup/* /etc/config/\n"@
        + "        rm -rf /etc/.uci-rollback-backup\n    fi\n"@
        + "    rm -f /etc/init.d/nuci_rollback /etc/rc.d/S15nuci_rollback\nfi\n"@)
        + "BOOT_EOF\nchmod +x /etc/init.d/nuci_rollback\nln -sf /etc/init.d/nuci_rollback /etc/rc.d/S15nuci_rollback\n"@
        + "timeout 5 sync 2>/dev/null || true\n"@;
    assert(hook_script() =~= all);
}

/// Unless it is stopped, the watchdog waits as long as it is told, puts the saved settings back
/// where there are any, reloads the services, and only then removes what was saved; its number is
/// noted, so that it can be stopped.
pub proof fn watchdogs_put_settings_back(timeout: Seq<char>, reload: Seq<char>)
    ensures
        ({
            let w = watchdog_script(timeout, reload);
            &&& ("( trap '' HUP; sleep "@ + timeout
                + "; if [ -d /etc/.uci-rollback-backup ]; then cp -a /etc/.uci-rollback-backup/* /etc/config/; "@
                + reload + " fi; rm -rf /etc/.uci-rollback-backup "@).is_prefix_of(w)
            &&& " ) >/dev/null 2>&1 </dev/null & echo $! > /tmp/.uci-watchdog-pid\n"@.is_suffix_of(w)
        }),
{
    reveal_strlit(" fi; rm -rf /etc/.uci-rollback-backup ");
    reveal_strlit(" ) >/dev/null 2>&1 </dev/null & echo $! > /tmp/.uci-watchdog-pid\n");
    reveal_strlit(
        " fi; rm -rf /etc/.uci-rollback-backup /etc/init.d/nuci_rollback /etc/rc.d/S15nuci_rollback /tmp/.uci-watchdog-pid ) >/dev/null 2>&1 </dev/null & echo $! > /tmp/.uci-watchdog-pid\n",
    );
    let w = watchdog_script(timeout, reload);
    let a = "( trap '' HUP; sleep "@ + timeout
        + "; if [ -d /etc/.uci-rollback-backup ]; then cp -a /etc/.uci-rollback-backup/* /etc/config/; "@
        + reload + " fi; rm -rf /etc/.uci-rollback-backup "@;
    let z = " ) >/dev/null 2>&1 </dev/null & echo $! > /tmp/.uci-watchdog-pid\n"@;
    assert(w.subrange(0, a.len() as int) =~= a);
    assert(w.subrange(w.len() - z.len(), w.len() as int) =~= z);
}

/// The whole script: keys, password and files; the saved settings and the boot script; the
/// commands; the watchdog; and last, in the background, the reloading of the services. None of
/// these is left out, whatever is deployed.
pub proof fn scripts_are_complete(
    d: Declared,
    m: Secrets,
    commands: Seq<char>,
    deployer: Option<Seq<char>>,
    modified: Seq<Seq<char>>,
    map: Map<Seq<char>, Seq<char>>,
    timeout: Seq<char>,
)
    ensures
        ({
            let script = remote_script(d, m, commands, deployer, modified, map, timeout);
            let reload = reload_script(modified, map);
            let first = keys_script(d.ssh_keys, deployer) + password_script(m) + files_script(
                d.files,
            );
            let last = watchdog_script(timeout, reload) + ("( sleep 1; "@ + reload
                + ") >/dev/null 2>&1 &\n"@);
            &&& script == first + hook_script() + commands + "\n"@ + last
            &&& behind(script, "cp -a /etc/config /etc/.uci-rollback-backup\n"@, commands)
            &&& behind(script, commands, "( trap '' HUP; sleep "@ + timeout)
        }),
{
    let script = remote_script(d, m, commands, deployer, modified, map, timeout);
    let reload = reload_script(modified, map);
    let first = keys_script(d.ssh_keys, deployer) + password_script(m) + files_script(d.files);
    let last = watchdog_script(timeout, reload) + ("( sleep 1; "@ + reload
        + ") >/dev/null 2>&1 &\n"@);
    assert(script =~= first + hook_script() + commands + "\n"@ + last);
    boots_put_settings_back();
    let save = "cp -a /etc/config /etc/.uci-rollback-backup\n"@;
    let rest = hook_script().skip(save.len() as int);
    assert(hook_script() =~= save + rest);
    assert(script =~= first + save + rest + commands + ("\n"@ + last));
    lemma_behind_is(script, first, save, rest, commands, "\n"@ + last);
    let dog = "( trap '' HUP; sleep "@ + timeout;
    let tail = last.skip(dog.len() as int);
    assert(last =~= dog + tail);
    assert(script =~= first + hook_script() + commands + "\n"@ + dog + tail);
    lemma_behind_is(script, first + hook_script(), commands, "\n"@, dog, tail);
}

// ---- keys ----

/// Declared keys are written to the file that logins are checked against, which nobody else can
/// read; without any the target's own keys stay. The deployer's key is added, on a line of its
/// own, if and only if what identifies it is not there.
pub proof fn keys_are_deployed(ssh_keys: Seq<Seq<char>>, deployer: Option<Seq<char>>)
    ensures
        ssh_keys.len() == 0 ==> keys_script(ssh_keys, deployer) == Seq::<char>::empty(),
        ssh_keys.len() > 0 ==> keys_script(ssh_keys, deployer)
            == "mkdir -p /etc/dropbear/ && umask 177 && cat > /etc/dropbear/authorized_keys <<'SSHKEYS'\n"@
            + deployed_keys(ssh_keys, deployer)
            + "\nSSHKEYS\nchmod 700 /etc/dropbear && chmod 600 /etc/dropbear/authorized_keys\n"@,
        deployer is None ==> deployed_keys(ssh_keys, deployer) == join(ssh_keys, "\n"@),
        deployer matches Some(key) ==> deployed_keys(ssh_keys, deployer) == join(ssh_keys, "\n"@)
            + if contains_text(join(ssh_keys, "\n"@), key_identity(key)) {
            Seq::empty()
        } else {
            "\n"@ + key
        },
{
    if let Some(key) = deployer {
        let keys = join(ssh_keys, "\n"@);
        assert(deployed_keys(ssh_keys, deployer) =~= keys + if contains_text(
            keys,
            key_identity(key),
        ) {
            Seq::empty()
        } else {
            "\n"@ + key
        });
    }
}

/// The keys arrive as they are, unless a line of theirs is the very word that ends them.
pub proof fn keys_arrive(
    ssh_keys: Seq<Seq<char>>,
    deployer: Option<Seq<char>>,
    rest: Seq<char>,
)
    requires
        ssh_keys.len() > 0,
        fits(deployed_keys(ssh_keys, deployer) + "\n"@, "SSHKEYS"@),
    ensures
        ({
            let opening = "mkdir -p /etc/dropbear/ && umask 177 && cat > /etc/dropbear/authorized_keys <<'SSHKEYS'\n"@;
            let script = keys_script(ssh_keys, deployer) + rest;
            &&& opening.is_prefix_of(script)
            &&& here_document(script.skip(opening.len() as int), "SSHKEYS"@) == Some(
                deployed_keys(ssh_keys, deployer) + "\n"@,
            )
        }),
{
    reveal_strlit("\nSSHKEYS\nchmod 700 /etc/dropbear && chmod 600 /etc/dropbear/authorized_keys\n");
    reveal_strlit("chmod 700 /etc/dropbear && chmod 600 /etc/dropbear/authorized_keys\n");
    reveal_strlit("SSHKEYS");
    reveal_strlit("\n");
    keys_are_deployed(ssh_keys, deployer);
    let opening = "mkdir -p /etc/dropbear/ && umask 177 && cat > /etc/dropbear/authorized_keys <<'SSHKEYS'\n"@;
    let script = keys_script(ssh_keys, deployer) + rest;
    let text = deployed_keys(ssh_keys, deployer) + "\n"@;
    let tail = "chmod 700 /etc/dropbear && chmod 600 /etc/dropbear/authorized_keys\n"@ + rest;
    here_documents_arrive(text, "SSHKEYS"@, tail);
    assert(script =~= opening + (text + "SSHKEYS"@ + "\n"@ + tail));
    assert(script.subrange(0, opening.len() as int) =~= opening);
    assert(script.skip(opening.len() as int) =~= text + "SSHKEYS"@ + "\n"@ + tail);
}

/// The deployer is warned exactly where keys are declared and theirs is added, or is not known.
pub proof fn deployers_are_warned(ssh_keys: Seq<Seq<char>>, deployer: Option<Seq<char>>)
    ensures
        key_notice(ssh_keys, deployer) is Some <==> ssh_keys.len() > 0 && (deployer is None
            || !contains_text(join(ssh_keys, "\n"@), key_identity(deployer->Some_0))),
        key_notice(ssh_keys, deployer) is Some && deployer is Some ==> key_notice(ssh_keys, deployer)
            == Some("\u{26a0} Deployer key not in config, appending to prevent lockout..."@),
        key_notice(ssh_keys, deployer) is Some && deployer is None ==> key_notice(ssh_keys, deployer)
            == Some(
            "\u{26a0} No active SSH keys in local ssh-agent. Ensure root.sshKeys contains your key."@,
        ),
{
}

/// Without a password, or with an empty one, the target's own stays.
pub proof fn passwords_are_set_where_given(m: Secrets)
    ensures
        password_script(m).len() == 0 <==> !m.dom().contains("root_password"@)
            || m["root_password"@].len() == 0,
{
    if m.dom().contains("root_password"@) && m["root_password"@].len() > 0 {
        reveal_strlit("\nCHPWD\nfi\n");
        let s = password_script(m);
        assert(s.last() == "\nCHPWD\nfi\n"@.last());
    }
}

// ---- files ----

/// What puts a file in its place: its directory is made sure of, its content is written, and its
/// mode is set; with a checksum the first two only happen where the file on the target has another.
pub open spec fn file_delivery(f: Payload, i: nat) -> Seq<char> {
    let content = match f.content {
        Content::Text(t) => "cat > '"@ + f.path + "' <<'NUCI_FILE_"@ + decimal(i) + "_EOF'\n"@ + (
        if t.len() == 0 || t.last() == '\n' {
            t
        } else {
            t + "\n"@
        }) + "NUCI_FILE_"@ + decimal(i) + "_EOF\n"@,
        Content::Base64(b) => "echo '"@ + b + "' | base64 -d > '"@ + f.path + "'\n"@,
    };
    let write = "mkdir -p '"@ + directory(f.path) + "'\n"@ + content;
    (match f.checksum {
        Some(sum) => "if [ \"$(sha256sum '"@ + f.path + "' 2>/dev/null | cut -d' ' -f1)\" != '"@
            + sum + "' ]; then\n"@ + write + "fi\n"@,
        None => write,
    }) + "chmod "@ + (if f.executable {
        "755"@
    } else {
        "644"@
    }) + " '"@ + f.path + "'\n"@
}

proof fn lemma_file_delivery(f: Payload, i: nat)
    ensures
        file_script(f, i) == file_delivery(f, i),
{
    reveal_strlit("chmod 755 '");
    reveal_strlit("chmod 644 '");
    reveal_strlit("chmod ");
    reveal_strlit("755");
    reveal_strlit("644");
    reveal_strlit(" '");
    match f.content {
        Content::Text(t) => {
            assert(content_script(f.path, f.content, i) =~= "cat > '"@ + f.path
                + "' <<'NUCI_FILE_"@ + decimal(i) + "_EOF'\n"@ + (if t.len() == 0 || t.last()
                == '\n' {
                t
            } else {
                t + "\n"@
            }) + "NUCI_FILE_"@ + decimal(i) + "_EOF\n"@);
        },
        Content::Base64(_) => {},
    }
    assert(file_script(f, i) =~= file_delivery(f, i));
}

proof fn lemma_file_scripts(files: Seq<Payload>, n: nat)
    requires
        n <= files.len(),
    ensures
        file_scripts(files, n) == Seq::new(
            n,
            |i: int| file_delivery(files[i], i as nat),
        ).flatten(),
    decreases n,
{
    let p = Seq::new(n, |i: int| file_delivery(files[i], i as nat));
    if n > 0 {
        lemma_file_scripts(files, (n - 1) as nat);
        lemma_file_delivery(files[n - 1], (n - 1) as nat);
        lemma_flat_last(p);
        assert(p.drop_last() =~= Seq::new(
            (n - 1) as nat,
            |i: int| file_delivery(files[i], i as nat),
        ));
    }
}

/// Every declared file is delivered, in the declared order, and nothing else.
pub proof fn every_file_is_delivered(files: Seq<Payload>)
    ensures
        files_script(Some(files)) == Seq::new(
            files.len(),
            |i: int| file_delivery(files[i], i as nat),
        ).flatten(),
        files_script(None) == Seq::<char>::empty(),
{
    lemma_file_scripts(files, files.len());
}

/// A file is written before its mode is set, and with a checksum only behind the question whether
/// the target's file has it.
pub proof fn files_are_guarded(f: Payload, i: nat)
    ensures
        ({
            let mode = "chmod "@ + (if f.executable {
                "755"@
            } else {
                "644"@
            }) + " '"@ + f.path + "'\n"@;
            let s = file_script(f, i);
            &&& mode.is_suffix_of(s)
            &&& behind(s, "mkdir -p '"@ + directory(f.path) + "'\n"@, mode)
            &&& f.checksum matches Some(sum) ==> ("if [ \"$(sha256sum '"@ + f.path
                + "' 2>/dev/null | cut -d' ' -f1)\" != '"@ + sum + "' ]; then\nmkdir -p '"@
                + directory(f.path) + "'\n"@).is_prefix_of(s) && within(s, "fi\n"@ + mode)
        }),
{
    lemma_file_delivery(f, i);
    let mode = "chmod "@ + (if f.executable {
        "755"@
    } else {
        "644"@
    }) + " '"@ + f.path + "'\n"@;
    let s = file_script(f, i);
    let make = "mkdir -p '"@ + directory(f.path) + "'\n"@;
    let content = content_script(f.path, f.content, i);
    let none = Seq::<char>::empty();
    match f.checksum {
        Some(sum) => {
            reveal_strlit("' ]; then\n");
            reveal_strlit("mkdir -p '");
            reveal_strlit("' ]; then\nmkdir -p '");
            let ask = "if [ \"$(sha256sum '"@ + f.path
                + "' 2>/dev/null | cut -d' ' -f1)\" != '"@ + sum + "' ]; then\n"@;
            assert(s =~= ask + make + (content + "fi\n"@) + mode + none);
            lemma_behind_is(s, ask, make, content + "fi\n"@, mode, none);
            let front = "if [ \"$(sha256sum '"@ + f.path
                + "' 2>/dev/null | cut -d' ' -f1)\" != '"@ + sum + "' ]; then\nmkdir -p '"@
                + directory(f.path) + "'\n"@;
            assert(front =~= ask + make);
            assert(s.subrange(0, front.len() as int) =~= front);
            assert(s =~= (ask + make + content) + ("fi\n"@ + mode) + none);
            lemma_within_is(s, ask + make + content, "fi\n"@ + mode, none);
        },
        None => {
            assert(s =~= none + make + content + mode + none);
            lemma_behind_is(s, none, make, content, mode, none);
        },
    }
    assert(s.subrange(s.len() - mode.len(), s.len() as int) =~= mode);
}

// ---- sections that are no longer declared ----

/// Whether settings declare a named section under a key.
pub open spec fn declares(s: Settings, key: Seq<char>) -> bool {
    exists|c: int, i: int|
        0 <= c < s.len() && 0 <= i < s[c].1.len() && (#[trigger] s[c].1[i]).1 is Named && key
            == s[c].0 + "."@ + s[c].1[i].0
}

proof fn lemma_section_keys(config: Seq<char>, s: Sections, n: nat, key: Seq<char>)
    requires
        n <= s.len(),
    ensures
        section_keys(config, s, n).contains(key) <==> exists|i: int|
            0 <= i < n && (#[trigger] s[i]).1 is Named && key == config + "."@ + s[i].0,
    decreases n,
{
    if n > 0 {
        lemma_section_keys(config, s, (n - 1) as nat, key);
        let early = section_keys(config, s, (n - 1) as nat);
        let last = named_section(config, s[n - 1].0);
        if s[n - 1].1 is Named {
            assert(early.push(last)[early.len() as int] == last);
            if early.contains(key) {
                let j = choose|j: int| 0 <= j < early.len() && early[j] == key;
                assert(early.push(last)[j] == key);
            }
        }
    }
}

proof fn lemma_declared_keys(s: Settings, n: nat, key: Seq<char>)
    requires
        n <= s.len(),
    ensures
        declared_keys(s, n).contains(key) <==> exists|c: int, i: int|
            0 <= c < n && 0 <= i < s[c].1.len() && (#[trigger] s[c].1[i]).1 is Named && key
                == s[c].0 + "."@ + s[c].1[i].0,
    decreases n,
{
    if n > 0 {
        let k = n - 1;
        lemma_declared_keys(s, k as nat, key);
        lemma_section_keys(s[k].0, s[k].1, s[k].1.len(), key);
        let a = declared_keys(s, k as nat);
        let b = section_keys(s[k].0, s[k].1, s[k].1.len());
        if a.contains(key) {
            let j = choose|j: int| 0 <= j < a.len() && a[j] == key;
            assert((a + b)[j] == key);
        }
        if b.contains(key) {
            let j = choose|j: int| 0 <= j < b.len() && b[j] == key;
            assert((a + b)[a.len() + j] == key);
            let i = choose|i: int|
                0 <= i < s[k].1.len() && (#[trigger] s[k].1[i]).1 is Named && key == s[k].0 + "."@
                    + s[k].1[i].0;
            assert(s[k].1[i].1 is Named);
        }
        if (a + b).contains(key) {
            let j = choose|j: int| 0 <= j < (a + b).len() && (a + b)[j] == key;
            if j < a.len() {
                assert(a[j] == key);
            } else {
                assert(b[j - a.len()] == key);
            }
        }
        if exists|c: int, i: int|
            0 <= c < n && 0 <= i < s[c].1.len() && (#[trigger] s[c].1[i]).1 is Named && key
                == s[c].0 + "."@ + s[c].1[i].0 {
            let (c, i) = choose|c: int, i: int|
                0 <= c < n && 0 <= i < s[c].1.len() && (#[trigger] s[c].1[i]).1 is Named && key
                    == s[c].0 + "."@ + s[c].1[i].0;
            if c == k {
                assert(s[k].1[i].1 is Named);
                assert(b.contains(key));
            }
        }
    }
}

proof fn lemma_orphan_lines(keys: Seq<Seq<char>>, s: Settings, n: nat)
    requires
        n <= keys.len(),
    ensures
        orphan_lines(keys, s, n) == Seq::new(
            n,
            |i: int|
                if names_section(keys[i]) && !declares(s, keys[i]) {
                    "uci -q delete "@ + keys[i] + "\n"@
                } else {
                    Seq::empty()
                },
        ).flatten(),
    decreases n,
{
    let p = Seq::new(
        n,
        |i: int|
            if names_section(keys[i]) && !declares(s, keys[i]) {
                "uci -q delete "@ + keys[i] + "\n"@
            } else {
                Seq::empty()
            },
    );
    if n > 0 {
        lemma_orphan_lines(keys, s, (n - 1) as nat);
        lemma_declared_keys(s, s.len(), keys[n - 1]);
        lemma_flat_last(p);
        assert(p.drop_last() =~= Seq::new(
            (n - 1) as nat,
            |i: int|
                if names_section(keys[i]) && !declares(s, keys[i]) {
                    "uci -q delete "@ + keys[i] + "\n"@
                } else {
                    Seq::empty()
                },
        ));
        assert(orphan_lines(keys, s, n) =~= p.drop_last().flatten() + p.last());
    }
}

/// Exactly the named sections that a target has and that are not declared are deleted, in
/// ascending order of their keys.
pub proof fn undeclared_sections_alone_are_deleted(remote: Flat, s: Settings)
    ensures
        ({
            let keys = in_order(remote.dom());
            orphan_script(remote, s) == Seq::new(
                keys.len(),
                |i: int|
                    if names_section(keys[i]) && !declares(s, keys[i]) {
                        "uci -q delete "@ + keys[i] + "\n"@
                    } else {
                        Seq::empty()
                    },
            ).flatten()
        }),
{
    let keys = in_order(remote.dom());
    lemma_orphan_lines(keys, s, keys.len());
}

/// The program that a command runs is its first word, whatever stands behind it.
pub proof fn commands_run_their_first_word(a: Seq<char>, w: Seq<char>, c: char, rest: Seq<char>)
    requires
        blank(a),
        word(w),
        white_space(c),
    ensures
        program(a) == a,
        program(a + w) == w,
        program(a + w + seq![c] + rest) == w,
{
    words_are_what_white_space_parts(a, w, c, rest);
}

/// A file is written to the directory that its path stands in, and to the root where it stands in
/// none.
pub proof fn directories_are_those_of_the_paths(path: Seq<char>, dir: Seq<char>)
    ensures
        parent(path) == Some(dir) ==> directory(path) == dir,
        parent(path) is None ==> directory(path) == seq!['/'],
{
    reveal_strlit("/");
    assert("/"@ =~= seq!['/']);
}

} // verus!
