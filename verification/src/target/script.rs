//! The script that is run on a target.

use crate::compile::secrets::Secrets;
use crate::config::models::{
    config_entries, list_configs, list_sections, payloads, section_entries, Content, Declared, File,
    FileContent, Payload, Root, Section, Sections, Settings, Shape,
};
use crate::config::uci_key::{
    anonymous_keys_name_no_section, anonymous_option, anonymous_section, is_named_section_key,
    named_keys_name_sections, named_option, named_section, named_section_key, names_section,
    option_keys_name_no_section, plain_part,
};
use crate::config::validation::valid_identifier;
use crate::target::diff::Flat;
use crate::target::report::{identify_key, key_identity};
use crate::utils::heredoc::{
    fits, here_document, here_documents_arrive, lemma_fits_add, lemma_fits_behind,
};
use crate::utils::order::{in_order, in_order_holds};
use crate::utils::path::{parent, parent_dir};
use crate::utils::split::{
    contains_text, decimal, decimal_text, digit, find_text, has_text, join, joined,
    lemma_contains_middle, lemma_find_text, split_words, words,
};
use crate::utils::text::{ascii_alphanumeric, has_item, texts};
use crate::utils::text_map::TextMap;
use indexmap::IndexMap;
use vstd::prelude::*;

verus! {

// ---- reloading services ----

/// The command that reloads the service of a configuration file.
pub open spec fn reload_command(config: Seq<char>, map: Map<Seq<char>, Seq<char>>) -> Seq<char> {
    if map.dom().contains(config) {
        map[config]
    } else {
        "/etc/init.d/"@ + config + " reload"@
    }
}

/// The commands for the first `n` configuration files, each of them once.
pub open spec fn reload_list(
    modified: Seq<Seq<char>>,
    map: Map<Seq<char>, Seq<char>>,
    n: nat,
) -> Seq<Seq<char>>
    decreases n,
{
    if n == 0 || n > modified.len() {
        Seq::empty()
    } else {
        let before = reload_list(modified, map, (n - 1) as nat);
        let cmd = reload_command(modified[n - 1], map);
        if before.contains(cmd) {
            before
        } else {
            before.push(cmd)
        }
    }
}

/// The program that a command runs.
pub open spec fn program(cmd: Seq<char>) -> Seq<char> {
    if words(cmd).len() > 0 {
        words(cmd)[0]
    } else {
        cmd
    }
}

pub open spec fn reload_line(cmd: Seq<char>) -> Seq<char> {
    "  [ -x "@ + program(cmd) + " ] && "@ + cmd + "\n"@
}

pub open spec fn reload_lines(cmds: Seq<Seq<char>>) -> Seq<char>
    decreases cmds.len(),
{
    if cmds.len() == 0 {
        Seq::empty()
    } else {
        reload_lines(cmds.drop_last()) + reload_line(cmds.last())
    }
}

/// The lines that make services take up their settings: the target's own program for that where
/// it has one, else the command of each service.
pub open spec fn reload_script(
    modified: Seq<Seq<char>>,
    map: Map<Seq<char>, Seq<char>>,
) -> Seq<char> {
    if modified.len() == 0 {
        "if [ -x /sbin/reload_config ]; then /sbin/reload_config; fi\n"@
    } else {
        "if [ -x /sbin/reload_config ]; then /sbin/reload_config; else\n"@ + reload_lines(
            reload_list(modified, map, modified.len()),
        ) + "fi\n"@
    }
}

/// Writes the lines that make services take up their settings.
pub fn reload_commands(modified: &[String], service_map: &TextMap<String>) -> (r: String)
    ensures
        r@ == reload_script(texts(modified@), service_map@),
{
    if modified.len() == 0 {
        return "if [ -x /sbin/reload_config ]; then /sbin/reload_config; fi\n".to_owned();
    }
    let ghost all = texts(modified@);
    let ghost map = service_map@;
    let mut out =
        "if [ -x /sbin/reload_config ]; then /sbin/reload_config; else\n".to_owned();
    let ghost head = out@;
    let mut seen: Vec<String> = Vec::new();
    let mut i: usize = 0;
    proof {
        assert(texts(seen@) =~= reload_list(all, map, 0));
        assert(out@ =~= head + reload_lines(texts(seen@)));
    }
    while i < modified.len()
        invariant
            i <= modified@.len() == all.len(),
            all == texts(modified@),
            map == service_map@,
            texts(seen@) == reload_list(all, map, i as nat),
            out@ == head + reload_lines(texts(seen@)),
        decreases modified@.len() - i,
    {
        let config = modified[i].as_str();
        let cmd = match service_map.get(config) {
            Some(c) => c.clone(),
            None => {
                let mut c = "/etc/init.d/".to_owned();
                c.append(config);
                c.append(" reload");
                c
            },
        };
        if !has_item(&seen, cmd.as_str()) {
            let ghost before = texts(seen@);
            let list = split_words(cmd.as_str());
            let bin = if list.len() > 0 {
                assert(texts(list@)[0] == list@[0]@);
                list[0].clone()
            } else {
                cmd.clone()
            };
            let mut line = "  [ -x ".to_owned();
            line.append(bin.as_str());
            line.append(" ] && ");
            line.append(cmd.as_str());
            line.append("\n");
            out.append(line.as_str());
            seen.push(cmd);
            proof {
                assert(texts(seen@) =~= before.push(cmd@));
                assert(before.push(cmd@).drop_last() =~= before);
                assert(out@ =~= head + reload_lines(texts(seen@)));
            }
        }
        i += 1;
    }
    out.append("fi\n");
    out
}

// ---- the boot hook ----

/// The lines that save the settings and install a script that restores them on the next boot and
/// then removes itself.
pub open spec fn hook_script() -> Seq<char> {
    "cp -a /etc/config /etc/.uci-rollback-backup\nmkdir -p /etc/init.d /etc/rc.d\ncat > /etc/init.d/nuci_rollback <<'BOOT_EOF'\n#!/bin/sh\nif [ \"$1\" = \"boot\" ] || [ \"$1\" = \"start\" ] || [ \"$1\" = \"\" ]; then\n    if [ -d /etc/.uci-rollback-backup ]; then\n        cp -a /etc/.uci-rollback-backup/* /etc/config/\n        rm -rf /etc/.uci-rollback-backup\n    fi\n    rm -f /etc/init.d/nuci_rollback /etc/rc.d/S15nuci_rollback\nfi\nBOOT_EOF\nchmod +x /etc/init.d/nuci_rollback\nln -sf /etc/init.d/nuci_rollback /etc/rc.d/S15nuci_rollback\ntimeout 5 sync 2>/dev/null || true\n"@
}

/// The safety net for a target that loses power while a deployment is under way. It is in place
/// until the deployment is confirmed.
pub fn boot_rollback_hook() -> (r: String)
    ensures
        r@ == hook_script(),
{
    "cp -a /etc/config /etc/.uci-rollback-backup\nmkdir -p /etc/init.d /etc/rc.d\ncat > /etc/init.d/nuci_rollback <<'BOOT_EOF'\n#!/bin/sh\nif [ \"$1\" = \"boot\" ] || [ \"$1\" = \"start\" ] || [ \"$1\" = \"\" ]; then\n    if [ -d /etc/.uci-rollback-backup ]; then\n        cp -a /etc/.uci-rollback-backup/* /etc/config/\n        rm -rf /etc/.uci-rollback-backup\n    fi\n    rm -f /etc/init.d/nuci_rollback /etc/rc.d/S15nuci_rollback\nfi\nBOOT_EOF\nchmod +x /etc/init.d/nuci_rollback\nln -sf /etc/init.d/nuci_rollback /etc/rc.d/S15nuci_rollback\ntimeout 5 sync 2>/dev/null || true\n".to_owned()
}

// ---- keys and password ----

/// The keys that may log in: those that are declared, and the deployer's own behind them unless
/// it is among them.
pub open spec fn deployed_keys(ssh_keys: Seq<Seq<char>>, deployer: Option<Seq<char>>) -> Seq<char> {
    let keys = join(ssh_keys, "\n"@);
    match deployer {
        Some(key) => if contains_text(keys, key_identity(key)) {
            keys
        } else {
            keys + "\n"@ + key
        },
        None => keys,
    }
}

/// The lines that write the keys. Without declared keys the target's own stay.
pub open spec fn keys_script(ssh_keys: Seq<Seq<char>>, deployer: Option<Seq<char>>) -> Seq<char> {
    if ssh_keys.len() == 0 {
        Seq::empty()
    } else {
        "mkdir -p /etc/dropbear/ && umask 177 && cat > /etc/dropbear/authorized_keys <<'SSHKEYS'\n"@
            + deployed_keys(ssh_keys, deployer)
            + "\nSSHKEYS\nchmod 700 /etc/dropbear && chmod 600 /etc/dropbear/authorized_keys\n"@
    }
}

fn keys_text(ssh_keys: &Vec<String>, deployer: Option<&str>) -> (r: String)
    ensures
        r@ == keys_script(
            texts(ssh_keys@),
            match deployer {
                Some(k) => Some(k@),
                None => None,
            },
        ),
{
    if ssh_keys.len() == 0 {
        let s = String::new();
        assert(s@ =~= Seq::empty());
        return s;
    }
    let mut keys = joined(ssh_keys, "\n");
    if let Some(key) = deployer {
        if !has_text(keys.as_str(), identify_key(key).as_str()) {
            keys.append("\n");
            keys.append(key);
        }
    }
    let mut s =
        "mkdir -p /etc/dropbear/ && umask 177 && cat > /etc/dropbear/authorized_keys <<'SSHKEYS'\n".to_owned();
    s.append(keys.as_str());
    s.append("\nSSHKEYS\nchmod 700 /etc/dropbear && chmod 600 /etc/dropbear/authorized_keys\n");
    s
}

/// What the deployer is told about their key.
pub open spec fn key_notice(ssh_keys: Seq<Seq<char>>, deployer: Option<Seq<char>>) -> Option<
    Seq<char>,
> {
    if ssh_keys.len() == 0 {
        None
    } else {
        match deployer {
            Some(key) => if contains_text(join(ssh_keys, "\n"@), key_identity(key)) {
                None
            } else {
                Some("\u{26a0} Deployer key not in config, appending to prevent lockout..."@)
            },
            None => Some(
                "\u{26a0} No active SSH keys in local ssh-agent. Ensure root.sshKeys contains your key."@,
            ),
        }
    }
}

/// Tells whether the deployer's key is added, or could not be found.
pub fn key_warning(ssh_keys: &Vec<String>, deployer: Option<&str>) -> (r: Option<String>)
    ensures
        match (
            r,
            key_notice(
                texts(ssh_keys@),
                match deployer {
                    Some(k) => Some(k@),
                    None => None,
                },
            ),
        ) {
            (Some(t), Some(u)) => t@ == u,
            (None, None) => true,
            _ => false,
        },
{
    if ssh_keys.len() == 0 {
        return None;
    }
    match deployer {
        Some(key) => {
            let keys = joined(ssh_keys, "\n");
            if has_text(keys.as_str(), identify_key(key).as_str()) {
                None
            } else {
                Some(
                    "\u{26a0} Deployer key not in config, appending to prevent lockout...".to_owned(),
                )
            }
        },
        None => Some(
            "\u{26a0} No active SSH keys in local ssh-agent. Ensure root.sshKeys contains your key.".to_owned(),
        ),
    }
}

/// The lines that set the root password, where a secret gives one.
pub open spec fn password_script(m: Secrets) -> Seq<char> {
    if m.dom().contains("root_password"@) && m["root_password"@].len() > 0 {
        let pwd = m["root_password"@];
        "if command -v chpasswd >/dev/null 2>&1; then\nchpasswd <<'CHPWD'\nroot:"@ + pwd
            + "\nCHPWD\nelse\npasswd root <<'CHPWD' >/dev/null 2>&1\n"@ + pwd + "\n"@ + pwd
            + "\nCHPWD\nfi\n"@
    } else {
        Seq::empty()
    }
}

fn password_text(secrets: &TextMap<String>) -> (r: String)
    ensures
        r@ == password_script(secrets@),
{
    if let Some(pwd) = secrets.get("root_password") {
        if !pwd.as_str().is_empty() {
            let mut s =
                "if command -v chpasswd >/dev/null 2>&1; then\nchpasswd <<'CHPWD'\nroot:".to_owned();
            s.append(pwd.as_str());
            s.append("\nCHPWD\nelse\npasswd root <<'CHPWD' >/dev/null 2>&1\n");
            s.append(pwd.as_str());
            s.append("\n");
            s.append(pwd.as_str());
            s.append("\nCHPWD\nfi\n");
            return s;
        }
    }
    let s = String::new();
    assert(s@ =~= Seq::empty());
    s
}

// ---- files ----

/// The lines that write a file's content. Text goes into a here-document, and gets a line feed at
/// its end where it has none; an empty text makes an empty file. Base64 digits are decoded on the
/// target.
pub open spec fn content_script(path: Seq<char>, c: Content, i: nat) -> Seq<char> {
    match c {
        Content::Text(t) => "cat > '"@ + path + "' <<'NUCI_FILE_"@ + decimal(i) + "_EOF'\n"@ + t
            + (if t.len() > 0 && t.last() != '\n' {
            "\n"@
        } else {
            Seq::empty()
        }) + "NUCI_FILE_"@ + decimal(i) + "_EOF\n"@,
        Content::Base64(b) => "echo '"@ + b + "' | base64 -d > '"@ + path + "'\n"@,
    }
}

/// The directory that a file is written to.
pub open spec fn directory(path: Seq<char>) -> Seq<char> {
    match parent(path) {
        Some(dir) => dir,
        None => "/"@,
    }
}

/// The lines for file `i`: with a checksum the file is only written where it differs.
pub open spec fn file_script(f: Payload, i: nat) -> Seq<char> {
    let write = "mkdir -p '"@ + directory(f.path) + "'\n"@ + content_script(f.path, f.content, i);
    let guarded = match f.checksum {
        Some(sum) => "if [ \"$(sha256sum '"@ + f.path
            + "' 2>/dev/null | cut -d' ' -f1)\" != '"@ + sum + "' ]; then\n"@ + write + "fi\n"@,
        None => write,
    };
    guarded + (if f.executable {
        "chmod 755 '"@
    } else {
        "chmod 644 '"@
    }) + f.path + "'\n"@
}

/// The lines for the first `n` files.
pub open spec fn file_scripts(files: Seq<Payload>, n: nat) -> Seq<char>
    decreases n,
{
    if n == 0 || n > files.len() {
        Seq::empty()
    } else {
        file_scripts(files, (n - 1) as nat) + file_script(files[n - 1], (n - 1) as nat)
    }
}

pub open spec fn files_script(files: Option<Seq<Payload>>) -> Seq<char> {
    match files {
        Some(f) => file_scripts(f, f.len()),
        None => Seq::empty(),
    }
}

fn content_text(path: &str, content: &FileContent, i: usize) -> (r: String)
    ensures
        r@ == content_script(path@, content@, i as nat),
{
    match content {
        FileContent::Text(t) => {
            let n = decimal_text(i as u64);
            let mut s = "cat > '".to_owned();
            s.append(path);
            s.append("' <<'NUCI_FILE_");
            s.append(n.as_str());
            s.append("_EOF'\n");
            s.append(t.as_str());
            let len = t.as_str().unicode_len();
            if len > 0 && t.as_str().get_char(len - 1) != '\n' {
                s.append("\n");
            } else {
                assert(s@ =~= s@ + Seq::<char>::empty());
            }
            s.append("NUCI_FILE_");
            s.append(n.as_str());
            s.append("_EOF\n");
            s
        },
        FileContent::Base64(b) => {
            let mut s = "echo '".to_owned();
            s.append(b.as_str());
            s.append("' | base64 -d > '");
            s.append(path);
            s.append("'\n");
            s
        },
    }
}

fn file_text(file: &File, i: usize) -> (r: String)
    ensures
        r@ == file_script(file@, i as nat),
{
    let path = file.path.as_str();
    let dir = match parent_dir(path) {
        Some(d) => d,
        None => "/".to_owned(),
    };
    let mut write = "mkdir -p '".to_owned();
    write.append(dir.as_str());
    write.append("'\n");
    write.append(content_text(path, &file.content, i).as_str());
    let mut s = match &file.checksum {
        Some(sum) => {
            let mut g = "if [ \"$(sha256sum '".to_owned();
            g.append(path);
            g.append("' 2>/dev/null | cut -d' ' -f1)\" != '");
            g.append(sum.as_str());
            g.append("' ]; then\n");
            g.append(write.as_str());
            g.append("fi\n");
            g
        },
        None => write,
    };
    if file.executable {
        s.append("chmod 755 '");
    } else {
        s.append("chmod 644 '");
    }
    s.append(path);
    s.append("'\n");
    s
}

fn files_text(files: &Option<Vec<File>>) -> (r: String)
    ensures
        r@ == files_script(
            match *files {
                Some(f) => Some(payloads(f@)),
                None => None,
            },
        ),
{
    let mut s = String::new();
    assert(s@ =~= Seq::empty());
    if let Some(list) = files {
        let ghost all = payloads(list@);
        let mut i: usize = 0;
        while i < list.len()
            invariant
                i <= list@.len() == all.len(),
                all == payloads(list@),
                s@ == file_scripts(all, i as nat),
            decreases list@.len() - i,
        {
            s.append(file_text(&list[i], i).as_str());
            i += 1;
        }
    }
    s
}

// ---- the script ----

/// The line that starts the watchdog: unless it is stopped in time, it restores the settings and
/// reloads the services.
pub open spec fn watchdog_script(timeout: Seq<char>, reload: Seq<char>) -> Seq<char> {
    "( trap '' HUP; sleep "@ + timeout
        + "; if [ -d /etc/.uci-rollback-backup ]; then cp -a /etc/.uci-rollback-backup/* /etc/config/; "@
        + reload
        + " fi; rm -rf /etc/.uci-rollback-backup /etc/init.d/nuci_rollback /etc/rc.d/S15nuci_rollback /tmp/.uci-watchdog-pid ) >/dev/null 2>&1 </dev/null & echo $! > /tmp/.uci-watchdog-pid\n"@
}

/// The lines that reload the services in the background, once the script has ended: reloading can
/// cut the connection that the script runs on.
pub open spec fn detached_reload(reload: Seq<char>) -> Seq<char> {
    "( sleep 1; "@ + reload + ") >/dev/null 2>&1 &\n"@
}

/// What stands before the commands that change settings: keys, password, files, and then the
/// saved settings with the boot hook.
pub open spec fn preparation(d: Declared, m: Secrets, deployer: Option<Seq<char>>) -> Seq<char> {
    keys_script(d.ssh_keys, deployer) + password_script(m) + files_script(d.files) + hook_script()
}

/// The script that is run on the target.
pub open spec fn remote_script(
    d: Declared,
    m: Secrets,
    commands: Seq<char>,
    deployer: Option<Seq<char>>,
    modified: Seq<Seq<char>>,
    map: Map<Seq<char>, Seq<char>>,
    timeout: Seq<char>,
) -> Seq<char> {
    let reload = reload_script(modified, map);
    preparation(d, m, deployer) + commands + "\n"@ + watchdog_script(timeout, reload)
        + detached_reload(reload)
}

/// Writes the script that is run on the target.
pub fn build_remote_script(
    root: &Root,
    secrets: &TextMap<String>,
    uci_commands: &str,
    deployer_key: Option<&str>,
    modified_configs: &[String],
    service_map: &TextMap<String>,
    watchdog_timeout: &str,
) -> (r: String)
    ensures
        r@ == remote_script(
            root@,
            secrets@,
            uci_commands@,
            match deployer_key {
                Some(k) => Some(k@),
                None => None,
            },
            texts(modified_configs@),
            service_map@,
            watchdog_timeout@,
        ),
{
    let reload = reload_commands(modified_configs, service_map);
    let mut script = keys_text(&root.ssh_keys, deployer_key);
    script.append(password_text(secrets).as_str());
    script.append(files_text(&root.files).as_str());
    script.append(boot_rollback_hook().as_str());
    script.append(uci_commands);
    script.append("\n");
    let mut watchdog = "( trap '' HUP; sleep ".to_owned();
    watchdog.append(watchdog_timeout);
    watchdog.append(
        "; if [ -d /etc/.uci-rollback-backup ]; then cp -a /etc/.uci-rollback-backup/* /etc/config/; ",
    );
    watchdog.append(reload.as_str());
    watchdog.append(
        " fi; rm -rf /etc/.uci-rollback-backup /etc/init.d/nuci_rollback /etc/rc.d/S15nuci_rollback /tmp/.uci-watchdog-pid ) >/dev/null 2>&1 </dev/null & echo $! > /tmp/.uci-watchdog-pid\n",
    );
    script.append(watchdog.as_str());
    let mut detached = "( sleep 1; ".to_owned();
    detached.append(reload.as_str());
    detached.append(") >/dev/null 2>&1 &\n");
    script.append(detached.as_str());
    script
}

// ---- sections that are no longer declared ----

/// The keys of the named sections among the first `n` declarations of a configuration file.
pub open spec fn section_keys(config: Seq<char>, s: Sections, n: nat) -> Seq<Seq<char>>
    decreases n,
{
    if n == 0 || n > s.len() {
        Seq::empty()
    } else {
        match s[n - 1].1 {
            Shape::Named(_) => section_keys(config, s, (n - 1) as nat).push(
                named_section(config, s[n - 1].0),
            ),
            Shape::List(_) => section_keys(config, s, (n - 1) as nat),
        }
    }
}

/// The keys of the named sections of the first `n` configuration files.
pub open spec fn declared_keys(s: Settings, n: nat) -> Seq<Seq<char>>
    decreases n,
{
    if n == 0 || n > s.len() {
        Seq::empty()
    } else {
        declared_keys(s, (n - 1) as nat) + section_keys(s[n - 1].0, s[n - 1].1, s[n - 1].1.len())
    }
}

/// Whether a key is that of a named section that is not declared.
pub open spec fn orphan(key: Seq<char>, s: Settings) -> bool {
    names_section(key) && !declared_keys(s, s.len()).contains(key)
}

/// The commands for the orphans among the first `n` keys.
pub open spec fn orphan_lines(keys: Seq<Seq<char>>, s: Settings, n: nat) -> Seq<char>
    decreases n,
{
    if n == 0 || n > keys.len() {
        Seq::empty()
    } else if orphan(keys[n - 1], s) {
        orphan_lines(keys, s, (n - 1) as nat) + "uci -q delete "@ + keys[n - 1] + "\n"@
    } else {
        orphan_lines(keys, s, (n - 1) as nat)
    }
}

/// The commands that delete the named sections that a target has and that are not declared.
pub open spec fn orphan_script(remote: Flat, s: Settings) -> Seq<char> {
    let keys = in_order(remote.dom());
    orphan_lines(keys, s, keys.len())
}

fn add_section_keys(out: &mut Vec<String>, config: &str, sections: &IndexMap<String, Section>)
    ensures
        texts(final(out)@) == texts(old(out)@) + section_keys(
            config@,
            section_entries(*sections),
            section_entries(*sections).len(),
        ),
{
    let list = list_sections(sections);
    let ghost s = section_entries(*sections);
    let ghost start = texts(out@);
    let mut i: usize = 0;
    assert(texts(out@) =~= start + section_keys(config@, s, 0));
    while i < list.len()
        invariant
            i <= list@.len() == s.len(),
            forall|k: int|
                0 <= k < list@.len() ==> (#[trigger] list@[k]).0@ == s[k].0 && list@[k].1@
                    == s[k].1,
            texts(out@) == start + section_keys(config@, s, i as nat),
        decreases list@.len() - i,
    {
        let (name, section) = list[i];
        assert(s[i as int] == (name@, section@));
        let ghost before = texts(out@);
        if let Section::Named(_) = section {
            let key = named_section_key(config, name.as_str());
            out.push(key);
            proof {
                assert(texts(out@) =~= before.push(key@));
                assert(before.push(key@) =~= start + section_keys(config@, s, i as nat).push(key@));
            }
        }
        i += 1;
    }
}

fn all_declared_keys(settings: &IndexMap<String, IndexMap<String, Section>>) -> (r: Vec<String>)
    ensures
        texts(r@) == declared_keys(config_entries(*settings), config_entries(*settings).len()),
{
    let list = list_configs(settings);
    let ghost s = config_entries(*settings);
    let mut out: Vec<String> = Vec::new();
    let mut i: usize = 0;
    assert(texts(out@) =~= declared_keys(s, 0));
    while i < list.len()
        invariant
            i <= list@.len() == s.len(),
            forall|k: int|
                0 <= k < list@.len() ==> (#[trigger] list@[k]).0@ == s[k].0 && section_entries(
                    *list@[k].1,
                ) == s[k].1,
            texts(out@) == declared_keys(s, i as nat),
        decreases list@.len() - i,
    {
        let (name, sections) = list[i];
        assert(s[i as int] == (name@, section_entries(*sections)));
        add_section_keys(&mut out, name.as_str(), sections);
        i += 1;
    }
    out
}

/// Writes the commands that delete the named sections that a target has and that are not
/// declared. Sections without a name have nothing to be matched by and are left alone.
pub fn orphan_delete_commands(
    remote: &TextMap<String>,
    desired: &IndexMap<String, IndexMap<String, Section>>,
) -> (r: String)
    ensures
        r@ == orphan_script(remote@, config_entries(*desired)),
{
    let declared = all_declared_keys(desired);
    let keys = remote.keys();
    let ghost s = config_entries(*desired);
    let ghost all = texts(keys@);
    let mut out = String::new();
    let mut i: usize = 0;
    assert(out@ =~= orphan_lines(all, s, 0));
    while i < keys.len()
        invariant
            i <= keys@.len() == all.len(),
            all == texts(keys@),
            texts(declared@) == declared_keys(s, s.len()),
            out@ == orphan_lines(all, s, i as nat),
        decreases keys@.len() - i,
    {
        let key = keys[i].as_str();
        if is_named_section_key(key) && !has_item(&declared, key) {
            out.append("uci -q delete ");
            out.append(key);
            out.append("\n");
        }
        i += 1;
    }
    out
}

// ---- laws ----

/// Whoever deploys can log in again: their key, or what identifies it, is among the keys that are
/// deployed.
pub proof fn deployers_are_not_locked_out(ssh_keys: Seq<Seq<char>>, key: Seq<char>)
    ensures
        ({
            let keys = deployed_keys(ssh_keys, Some(key));
            contains_text(keys, key_identity(key)) || contains_text(keys, key)
        }),
{
    let keys = join(ssh_keys, "\n"@);
    if !contains_text(keys, key_identity(key)) {
        let pre = keys + "\n"@;
        lemma_contains_middle(pre, key, Seq::empty());
        assert(pre + key + Seq::<char>::empty() =~= pre + key);
    }
}

/// No declared key is lost when the deployer's is added.
pub proof fn declared_keys_stay(ssh_keys: Seq<Seq<char>>, deployer: Option<Seq<char>>)
    ensures
        join(ssh_keys, "\n"@).is_prefix_of(deployed_keys(ssh_keys, deployer)),
{
    let keys = join(ssh_keys, "\n"@);
    assert(deployed_keys(ssh_keys, deployer).subrange(0, keys.len() as int) =~= keys);
}

/// The settings are saved, and the boot hook installed, before any command changes them; the
/// watchdog runs before the services are reloaded.
pub proof fn safety_net_comes_first(
    d: Declared,
    m: Secrets,
    commands: Seq<char>,
    deployer: Option<Seq<char>>,
    modified: Seq<Seq<char>>,
    map: Map<Seq<char>, Seq<char>>,
    timeout: Seq<char>,
)
    ensures
        ({
            let reload = reload_script(modified, map);
            let saved = keys_script(d.ssh_keys, deployer) + password_script(m) + files_script(
                d.files,
            ) + hook_script();
            remote_script(d, m, commands, deployer, modified, map, timeout) == saved + (commands
                + "\n"@ + (watchdog_script(timeout, reload) + detached_reload(reload)))
        }),
{
    let reload = reload_script(modified, map);
    let saved = preparation(d, m, deployer);
    assert(remote_script(d, m, commands, deployer, modified, map, timeout) =~= saved + (commands
        + "\n"@ + (watchdog_script(timeout, reload) + detached_reload(reload))));
}

/// A service is reloaded once, however many configuration files it serves, and none is left out.
pub proof fn services_reload_once(
    modified: Seq<Seq<char>>,
    map: Map<Seq<char>, Seq<char>>,
    n: nat,
    i: int,
)
    requires
        0 <= i < n <= modified.len(),
    ensures
        reload_list(modified, map, n).no_duplicates(),
        reload_list(modified, map, n).contains(reload_command(modified[i], map)),
    decreases n,
{
    let before = reload_list(modified, map, (n - 1) as nat);
    let cmd = reload_command(modified[n - 1], map);
    let wanted = reload_command(modified[i], map);
    if n > 1 {
        services_reload_once(
            modified,
            map,
            (n - 1) as nat,
            if i < n - 1 {
                i
            } else {
                0
            },
        );
    } else {
        assert(before =~= Seq::empty());
    }
    assert(before.push(cmd)[before.len() as int] == cmd);
    if before.contains(wanted) {
        let k = choose|k: int| 0 <= k < before.len() && before[k] == wanted;
        assert(before.push(cmd)[k] == wanted);
    }
}

proof fn lemma_section_keys(config: Seq<char>, s: Sections, n: nat, i: int)
    requires
        0 <= i < n <= s.len(),
        s[i].1 is Named,
    ensures
        section_keys(config, s, n).contains(named_section(config, s[i].0)),
    decreases n,
{
    let before = section_keys(config, s, (n - 1) as nat);
    let key = named_section(config, s[i].0);
    let last = named_section(config, s[n - 1].0);
    if i < n - 1 {
        lemma_section_keys(config, s, (n - 1) as nat, i);
        let k = choose|k: int| 0 <= k < before.len() && before[k] == key;
        assert(before.push(last)[k] == key);
    } else {
        assert(before.push(last)[before.len() as int] == key);
    }
}

proof fn lemma_declared_keys(s: Settings, n: nat, c: int, i: int)
    requires
        0 <= c < n <= s.len(),
        0 <= i < s[c].1.len(),
        s[c].1[i].1 is Named,
    ensures
        declared_keys(s, n).contains(named_section(s[c].0, s[c].1[i].0)),
    decreases n,
{
    let before = declared_keys(s, (n - 1) as nat);
    let more = section_keys(s[n - 1].0, s[n - 1].1, s[n - 1].1.len());
    let key = named_section(s[c].0, s[c].1[i].0);
    if c < n - 1 {
        lemma_declared_keys(s, (n - 1) as nat, c, i);
        let k = choose|k: int| 0 <= k < before.len() && before[k] == key;
        assert((before + more)[k] == key);
    } else {
        lemma_section_keys(s[c].0, s[c].1, s[c].1.len(), i);
        let k = choose|k: int| 0 <= k < more.len() && more[k] == key;
        assert((before + more)[before.len() + k] == key);
    }
}

/// A section that is declared is never deleted as an orphan.
pub proof fn declared_sections_are_no_orphans(s: Settings, c: int, i: int)
    requires
        0 <= c < s.len(),
        0 <= i < s[c].1.len(),
        s[c].1[i].1 is Named,
    ensures
        !orphan(named_section(s[c].0, s[c].1[i].0), s),
{
    lemma_declared_keys(s, s.len(), c, i);
}

/// Sections without names, and options, are never deleted as orphans.
pub proof fn only_named_sections_are_orphans(
    config: Seq<char>,
    section: Seq<char>,
    opt: Seq<char>,
    idx: nat,
    s: Settings,
)
    ensures
        !orphan(anonymous_section(config, section, idx), s),
        !orphan(anonymous_option(config, section, idx, opt), s),
        !orphan(named_option(config, section, opt), s),
{
    anonymous_keys_name_no_section(config, section, idx);
    option_keys_name_no_section(config, section, opt, idx);
}

proof fn lemma_plain_identifier(s: Seq<char>)
    requires
        valid_identifier(s),
    ensures
        plain_part(s),
{
    assert forall|c: char| c == '.' || c == '@' || c == '[' implies !s.contains(c) by {
        if s.contains(c) {
            let k = choose|k: int| 0 <= k < s.len() && s[k] == c;
            assert(ascii_alphanumeric(s[k]) || s[k] == '_');
        }
    }
}

/// A named section that was once deployed, under names that pass validation, is found and deleted
/// once it is no longer declared.
pub proof fn dropped_sections_are_orphans(config: Seq<char>, name: Seq<char>, s: Settings)
    requires
        valid_identifier(config),
        valid_identifier(name),
        !declared_keys(s, s.len()).contains(named_section(config, name)),
    ensures
        orphan(named_section(config, name), s),
{
    lemma_plain_identifier(config);
    lemma_plain_identifier(name);
    named_keys_name_sections(config, name);
}

proof fn lemma_orphan_lines(keys: Seq<Seq<char>>, s: Settings, n: nat, i: int)
    requires
        0 <= i < n <= keys.len(),
        orphan(keys[i], s),
    ensures
        contains_text(orphan_lines(keys, s, n), "uci -q delete "@ + keys[i] + "\n"@),
    decreases n,
{
    let before = orphan_lines(keys, s, (n - 1) as nat);
    let line = "uci -q delete "@ + keys[i] + "\n"@;
    if i < n - 1 {
        lemma_orphan_lines(keys, s, (n - 1) as nat, i);
        lemma_find_text(before, line);
        let k = find_text(before, line)->Some_0;
        let rest = if orphan(keys[n - 1], s) {
            "uci -q delete "@ + keys[n - 1] + "\n"@
        } else {
            Seq::empty()
        };
        let whole = before + rest;
        assert(whole =~= orphan_lines(keys, s, n));
        assert(whole =~= before.take(k) + line + (before.skip(k + line.len()) + rest));
        lemma_contains_middle(
            before.take(k),
            line,
            before.skip(k + line.len()) + rest,
        );
    } else {
        assert(orphan_lines(keys, s, n) =~= before + line + Seq::<char>::empty());
        lemma_contains_middle(before, line, Seq::empty());
    }
}

/// Every orphan on a target is deleted.
pub proof fn orphans_are_deleted(remote: Flat, s: Settings, key: Seq<char>)
    requires
        remote.dom().finite(),
        remote.dom().contains(key),
        orphan(key, s),
    ensures
        contains_text(orphan_script(remote, s), "uci -q delete "@ + key + "\n"@),
{
    let keys = in_order(remote.dom());
    in_order_holds(remote.dom());
    assert(keys.to_set().contains(key));
    let i = choose|i: int| 0 <= i < keys.len() && keys[i] == key;
    lemma_orphan_lines(keys, s, keys.len(), i);
}

/// What a text file holds once it is written: its text, with a line feed at its end.
pub open spec fn file_text_written(t: Seq<char>) -> Seq<char> {
    if t.len() > 0 && t.last() != '\n' {
        t + "\n"@
    } else {
        t
    }
}

/// The word that ends the here-document of file `i`.
pub open spec fn file_delimiter(i: nat) -> Seq<char> {
    "NUCI_FILE_"@ + decimal(i) + "_EOF"@
}

proof fn lemma_digits_no_newline(n: nat)
    ensures
        !decimal(n).contains('\n'),
    decreases n,
{
    if n >= 10 {
        lemma_digits_no_newline(n / 10);
        let d = decimal(n / 10);
        let c = digit((n % 10) as int);
        if d.push(c).contains('\n') {
            let k = choose|k: int| 0 <= k < d.push(c).len() && d.push(c)[k] == '\n';
            if k < d.len() {
                assert(d[k] == '\n');
            }
        }
    }
}

/// A text file arrives as it is declared, whatever it holds, unless one of its lines is the very
/// word that ends it: the line that opens the here-document is followed by exactly the file.
pub proof fn text_files_arrive(path: Seq<char>, t: Seq<char>, i: nat, behind: Seq<char>)
    requires
        fits(file_text_written(t), file_delimiter(i)),
    ensures
        ({
            let opening = "cat > '"@ + path + "' <<'"@ + file_delimiter(i) + "'\n"@;
            let script = content_script(path, Content::Text(t), i) + behind;
            &&& opening.is_prefix_of(script)
            &&& here_document(script.skip(opening.len() as int), file_delimiter(i)) == Some(
                file_text_written(t),
            )
        }),
{
    reveal_strlit("NUCI_FILE_");
    reveal_strlit("_EOF");
    reveal_strlit("_EOF\n");
    reveal_strlit("_EOF'\n");
    reveal_strlit("'\n");
    reveal_strlit("' <<'");
    reveal_strlit("' <<'NUCI_FILE_");
    reveal_strlit("\n");
    let n = decimal(i);
    let delimiter = file_delimiter(i);
    lemma_digits_no_newline(i);
    assert(!delimiter.contains('\n')) by {
        if delimiter.contains('\n') {
            let k = choose|k: int| 0 <= k < delimiter.len() && delimiter[k] == '\n';
            if 10 <= k < 10 + n.len() {
                assert(n[k - 10] == '\n');
            }
        }
    }
    let opening = "cat > '"@ + path + "' <<'"@ + delimiter + "'\n"@;
    let text = file_text_written(t);
    let script = content_script(path, Content::Text(t), i) + behind;
    assert(script =~= opening + (text + delimiter + "\n"@ + behind));
    assert(script.subrange(0, opening.len() as int) =~= opening);
    assert(script.skip(opening.len() as int) =~= text + delimiter + "\n"@ + behind);
    here_documents_arrive(text, delimiter, behind);
}

/// The root password arrives as it is, whatever it holds and whichever program sets it, unless one
/// of its lines is the very word that ends it.
pub proof fn passwords_arrive(m: Secrets, behind: Seq<char>)
    requires
        m.dom().contains("root_password"@),
        m["root_password"@].len() > 0,
        fits(m["root_password"@] + "\n"@, "CHPWD"@),
    ensures
        ({
            let pwd = m["root_password"@];
            let script = password_script(m) + behind;
            let first = "if command -v chpasswd >/dev/null 2>&1; then\nchpasswd <<'CHPWD'\n"@;
            let second = first + "root:"@ + pwd
                + "\nCHPWD\nelse\npasswd root <<'CHPWD' >/dev/null 2>&1\n"@;
            &&& first.is_prefix_of(script)
            &&& here_document(script.skip(first.len() as int), "CHPWD"@) == Some(
                "root:"@ + pwd + "\n"@,
            )
            &&& second.is_prefix_of(script)
            &&& here_document(script.skip(second.len() as int), "CHPWD"@) == Some(
                pwd + "\n"@ + pwd + "\n"@,
            )
        }),
{
    reveal_strlit("if command -v chpasswd >/dev/null 2>&1; then\nchpasswd <<'CHPWD'\n");
    reveal_strlit("if command -v chpasswd >/dev/null 2>&1; then\nchpasswd <<'CHPWD'\nroot:");
    reveal_strlit("\nCHPWD\nelse\npasswd root <<'CHPWD' >/dev/null 2>&1\n");
    reveal_strlit("else\npasswd root <<'CHPWD' >/dev/null 2>&1\n");
    reveal_strlit("\nCHPWD\nfi\n");
    reveal_strlit("root:");
    reveal_strlit("CHPWD");
    reveal_strlit("fi\n");
    reveal_strlit("\n");
    let pwd = m["root_password"@];
    let script = password_script(m) + behind;
    let delimiter = "CHPWD"@;
    let first = "if command -v chpasswd >/dev/null 2>&1; then\nchpasswd <<'CHPWD'\n"@;
    let middle = "else\npasswd root <<'CHPWD' >/dev/null 2>&1\n"@;
    let second = first + "root:"@ + pwd
        + "\nCHPWD\nelse\npasswd root <<'CHPWD' >/dev/null 2>&1\n"@;
    let tail = "fi\n"@ + behind;
    let text = pwd + "\n"@;
    assert("root:"@[0] == 'r' && delimiter[0] == 'C');
    lemma_fits_behind("root:"@, text, delimiter);
    lemma_fits_add(text, text, delimiter);
    let one = "root:"@ + pwd + "\n"@;
    let two = pwd + "\n"@ + pwd + "\n"@;
    assert("root:"@ + text =~= one);
    assert(text + text =~= two);
    let rest = middle + two + delimiter + "\n"@ + tail;
    here_documents_arrive(one, delimiter, rest);
    here_documents_arrive(two, delimiter, tail);
    assert(script =~= first + (one + delimiter + "\n"@ + rest));
    assert(script =~= second + (two + delimiter + "\n"@ + tail));
    assert(script.skip(first.len() as int) =~= one + delimiter + "\n"@ + rest);
    assert(script.skip(second.len() as int) =~= two + delimiter + "\n"@ + tail);
    assert(script.take(first.len() as int) =~= first);
    assert(script.take(second.len() as int) =~= second);
}

} // verus!
