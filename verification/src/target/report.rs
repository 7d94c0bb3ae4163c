//! The preview of a deployment: what it would change on a target.

use crate::compile::pipeline::CompiledConfig;
use crate::config::models::{optional_texts, Declared};
use crate::target::diff::{
    extract_desired_map, flat_settings, package_states, parse_package_state, parse_services,
    parse_uci_show, services, settings_shown, Flat, SERVICE_SEPARATOR, STATE_SEPARATOR,
};
use crate::target::values::{display_form, display_value};
use crate::utils::order::{
    ascending, in_order, in_order_holds, in_order_is, insert_text, lemma_less_irreflexive, less,
};
use crate::utils::split::{
    decimal, decimal_text, join, joined, lines, parts, split_by, split_lines, split_parts,
    split_text, split_words, words,
};
use crate::utils::text::{before, has_item, text_before, texts, trim, trimmed};
use crate::utils::text_map::{lemma_push_to_set, TextMap};
use vstd::prelude::*;

verus! {

// ---- settings ----

/// What becomes of a key.
pub enum Change {
    Added,
    Removed,
    Changed,
    Same,
}

pub open spec fn change(remote: Flat, desired: Flat, key: Seq<char>) -> Change {
    if !remote.dom().contains(key) {
        Change::Added
    } else if !desired.dom().contains(key) {
        Change::Removed
    } else if remote[key] != desired[key] {
        Change::Changed
    } else {
        Change::Same
    }
}

pub open spec fn added_line(key: Seq<char>, value: Seq<char>) -> Seq<char> {
    "\x1b[32m+ "@ + key + "="@ + display_form(value) + "\x1b[0m\n"@
}

pub open spec fn removed_line(key: Seq<char>, value: Seq<char>) -> Seq<char> {
    "\x1b[31m- "@ + key + "="@ + display_form(value) + "\x1b[0m\n"@
}

/// The lines about a key. One that stays as it is has none.
pub open spec fn change_lines(remote: Flat, desired: Flat, key: Seq<char>) -> Seq<char> {
    match change(remote, desired, key) {
        Change::Added => added_line(key, desired[key]),
        Change::Removed => removed_line(key, remote[key]),
        Change::Changed => removed_line(key, remote[key]) + added_line(key, desired[key]),
        Change::Same => Seq::empty(),
    }
}

/// The lines about the first `n` keys.
pub open spec fn all_change_lines(remote: Flat, desired: Flat, keys: Seq<Seq<char>>, n: nat) -> Seq<
    char,
>
    decreases n,
{
    if n == 0 || n > keys.len() {
        Seq::empty()
    } else {
        all_change_lines(remote, desired, keys, (n - 1) as nat) + change_lines(
            remote,
            desired,
            keys[n - 1],
        )
    }
}

/// How many of the first `n` keys undergo a change.
pub open spec fn changes(
    remote: Flat,
    desired: Flat,
    keys: Seq<Seq<char>>,
    n: nat,
    kind: Change,
) -> nat
    decreases n,
{
    if n == 0 || n > keys.len() {
        0
    } else {
        changes(remote, desired, keys, (n - 1) as nat, kind) + if change(
            remote,
            desired,
            keys[n - 1],
        ) == kind {
            1nat
        } else {
            0nat
        }
    }
}

/// The configuration files in which one of the first `n` keys changes.
pub open spec fn affected(remote: Flat, desired: Flat, keys: Seq<Seq<char>>, n: nat) -> Set<
    Seq<char>,
>
    decreases n,
{
    if n == 0 || n > keys.len() {
        Set::empty()
    } else {
        let rest = affected(remote, desired, keys, (n - 1) as nat);
        if change(remote, desired, keys[n - 1]) is Same {
            rest
        } else {
            rest.insert(before(keys[n - 1], '.'))
        }
    }
}

pub open spec fn summary_line(added: nat, removed: nat, changed: nat, same: nat) -> Seq<char> {
    "\n\x1b[1mSummary:\x1b[0m \x1b[32m"@ + decimal(added) + " to add\x1b[0m, \x1b[31m"@ + decimal(
        removed,
    ) + " to remove\x1b[0m, \x1b[33m"@ + decimal(changed) + " to change\x1b[0m, "@ + decimal(same)
        + " unchanged.\n"@
}

/// The line about the service of a configuration file.
pub open spec fn service_line(config: Seq<char>, map: Map<Seq<char>, Seq<char>>) -> Seq<char> {
    if map.dom().contains(config) {
        "  "@ + config + " \u{2192} "@ + map[config] + "\n"@
    } else {
        "  "@ + config + " \u{2192} /etc/init.d/"@ + config + " reload\n"@
    }
}

pub open spec fn service_lines(
    configs: Seq<Seq<char>>,
    map: Map<Seq<char>, Seq<char>>,
    n: nat,
) -> Seq<char>
    decreases n,
{
    if n == 0 || n > configs.len() {
        Seq::empty()
    } else {
        service_lines(configs, map, (n - 1) as nat) + service_line(configs[n - 1], map)
    }
}

pub open spec fn services_block(
    configs: Seq<Seq<char>>,
    map: Map<Seq<char>, Seq<char>>,
) -> Seq<char> {
    if configs.len() == 0 {
        Seq::empty()
    } else {
        "\n\x1b[1;33mAffected services (auto-discovered):\x1b[0m\n"@ + service_lines(
            configs,
            map,
            configs.len(),
        )
    }
}

/// The part about the settings.
pub open spec fn settings_block(
    remote: Flat,
    desired: Flat,
    map: Map<Seq<char>, Seq<char>>,
) -> Seq<char> {
    let keys = in_order(remote.dom().union(desired.dom()));
    let n = keys.len();
    all_change_lines(remote, desired, keys, n) + summary_line(
        changes(remote, desired, keys, n, Change::Added),
        changes(remote, desired, keys, n, Change::Removed),
        changes(remote, desired, keys, n, Change::Changed),
        changes(remote, desired, keys, n, Change::Same),
    ) + services_block(in_order(affected(remote, desired, keys, n)), map)
}

// ---- packages, keys, password ----

pub open spec fn package_line(pkg: Seq<char>, state: Map<Seq<char>, bool>) -> Seq<char> {
    if state.dom().contains(pkg) && state[pkg] {
        "  \x1b[90m"@ + pkg + "  (Installed)\x1b[0m\n"@
    } else {
        "  \x1b[32m+ "@ + pkg + "  (To Install)\x1b[0m\n"@
    }
}

pub open spec fn package_lines(
    pkgs: Seq<Seq<char>>,
    state: Map<Seq<char>, bool>,
    n: nat,
) -> Seq<char>
    decreases n,
{
    if n == 0 || n > pkgs.len() {
        Seq::empty()
    } else {
        package_lines(pkgs, state, (n - 1) as nat) + package_line(pkgs[n - 1], state)
    }
}

pub open spec fn packages_block(
    packages: Option<Seq<Seq<char>>>,
    state: Map<Seq<char>, bool>,
) -> Seq<char> {
    match packages {
        Some(pkgs) => if pkgs.len() == 0 {
            Seq::empty()
        } else {
            "\n\x1b[1;35m[Packages]\x1b[0m\n"@ + package_lines(pkgs, state, pkgs.len())
        },
        None => Seq::empty(),
    }
}

/// What identifies a public key: its type and its digits. The comment behind them does not.
pub open spec fn key_identity(key: Seq<char>) -> Seq<char> {
    let w = words(key);
    join(
        w.take(
            if w.len() < 2 {
                w.len() as int
            } else {
                2
            },
        ),
        " "@,
    )
}

/// The identities of the first `n` keys.
pub open spec fn identities(keys: Seq<Seq<char>>, n: nat) -> Set<Seq<char>>
    decreases n,
{
    if n == 0 || n > keys.len() {
        Set::empty()
    } else {
        identities(keys, (n - 1) as nat).insert(key_identity(keys[n - 1]))
    }
}

/// How many of the first `n` texts are in none of the lines.
pub open spec fn absent(keys: Seq<Seq<char>>, l: Seq<Seq<char>>, n: nat) -> nat
    decreases n,
{
    if n == 0 || n > keys.len() {
        0
    } else {
        absent(keys, l, (n - 1) as nat) + if keyed(l, keys[n - 1]) {
            0nat
        } else {
            1nat
        }
    }
}

/// Whether a text is one of the lines that are not blank.
pub open spec fn keyed(l: Seq<Seq<char>>, key: Seq<char>) -> bool {
    l.contains(key) && trim(key).len() > 0
}

pub open spec fn keys_block(ssh_keys: Seq<Seq<char>>, l: Seq<Seq<char>>) -> Seq<char> {
    if ssh_keys.len() == 0 {
        Seq::empty()
    } else {
        let n = decimal(ssh_keys.len());
        let wanted = in_order(identities(ssh_keys, ssh_keys.len()));
        let missing = absent(wanted, l, wanted.len());
        let head = "\n\x1b[1;35m[SSH Keys] ("@ + n + " desired)\x1b[0m\n"@;
        if missing == 0 {
            head + "  \x1b[90mAll "@ + n + " key(s) already synced\x1b[0m\n"@
        } else {
            head + "  \x1b[32m+ "@ + decimal(missing) + "/"@ + n
                + " key(s) to deploy\x1b[0m\n"@
        }
    }
}

pub open spec fn password_block(managed: bool, shadow: Seq<char>) -> Seq<char> {
    if !managed {
        Seq::empty()
    } else if shadow.len() == 0 {
        "\n\x1b[1;35m[Root Password]\x1b[0m\n"@
            + "  \x1b[32mWill be set (target has no root password)\x1b[0m\n"@
    } else {
        "\n\x1b[1;35m[Root Password]\x1b[0m\n"@
            + "  \x1b[90mManaged (target root password already set)\x1b[0m\n"@
    }
}

// ---- the whole preview ----

/// The block of what the state command printed that stands at position `i`.
pub open spec fn state_block(state: Seq<char>, i: int) -> Seq<char> {
    let blocks = split_text(state, STATE_SEPARATOR@);
    if 0 <= i < blocks.len() {
        blocks[i]
    } else {
        Seq::empty()
    }
}

/// The first line of a text, without white space around it.
pub open spec fn first_line(s: Seq<char>) -> Seq<char> {
    if lines(s).len() > 0 {
        trim(lines(s)[0])
    } else {
        Seq::empty()
    }
}

/// The preview for a configuration, from what the discovery command and the state command
/// printed.
pub open spec fn report(
    target: Seq<char>,
    d: Declared,
    password: bool,
    remote: Seq<char>,
    state: Seq<char>,
) -> Seq<char> {
    let (uci, svc) = parts(remote, SERVICE_SEPARATOR@);
    let head = "\n\x1b[1;36m=== Configuration Diff ("@ + target + ") ===\x1b[0m\n\n"@;
    let installed = lines(state_block(state, 0));
    let keys = lines(state_block(state, 1));
    head + settings_block(
        settings_shown(lines(uci), lines(uci).len()),
        flat_settings(d.settings, d.settings.len()),
        services(lines(svc), lines(svc).len()),
    ) + packages_block(d.packages, package_states(installed, installed.len())) + keys_block(
        d.ssh_keys,
        keys,
    ) + password_block(password, first_line(state_block(state, 2)))
}

fn value_line(head: &str, key: &str, value: &str) -> (r: String)
    ensures
        r@ == head@ + key@ + "="@ + display_form(value@) + "\x1b[0m\n"@,
{
    let mut s = head.to_owned();
    s.append(key);
    s.append("=");
    s.append(display_value(value).as_str());
    s.append("\x1b[0m\n");
    s
}

/// The keys of two maps in ascending order.
fn all_keys(a: &TextMap<String>, b: &TextMap<String>) -> (r: Vec<String>)
    ensures
        texts(r@) == in_order(a@.dom().union(b@.dom())),
        texts(r@).to_set() == a@.dom().union(b@.dom()),
{
    let mut keys = a.keys();
    let more = b.keys();
    let ghost all = texts(more@);
    let mut i: usize = 0;
    proof {
        assert(all.take(0).to_set() =~= Set::empty());
        assert(texts(keys@).to_set() =~= a@.dom().union(all.take(0).to_set()));
    }
    while i < more.len()
        invariant
            i <= more@.len() == all.len(),
            all == texts(more@),
            ascending(texts(keys@)),
            texts(keys@).to_set() == a@.dom().union(all.take(i as int).to_set()),
        decreases more@.len() - i,
    {
        insert_text(&mut keys, more[i].as_str());
        proof {
            let t = all[i as int];
            assert(all.take(i + 1) =~= all.take(i as int).push(t));
            lemma_push_to_set(all.take(i as int), t);
            assert(texts(keys@).to_set() =~= a@.dom().union(all.take(i + 1).to_set()));
        }
        i += 1;
    }
    proof {
        assert(all.take(i as int) =~= all);
        in_order_is(a@.dom().union(b@.dom()), texts(keys@));
    }
    keys
}

fn settings_text(remote: &TextMap<String>, desired: &TextMap<String>, map: &TextMap<String>) -> (r:
    String)
    ensures
        r@ == settings_block(remote@, desired@, map@),
{
    let keys = all_keys(remote, desired);
    let ghost all = texts(keys@);
    let ghost m = remote@;
    let ghost d = desired@;
    let mut out = String::new();
    let mut configs: Vec<String> = Vec::new();
    let mut added: usize = 0;
    let mut removed: usize = 0;
    let mut changed: usize = 0;
    let mut same: usize = 0;
    let mut i: usize = 0;
    proof {
        assert(out@ =~= all_change_lines(m, d, all, 0));
        assert(texts(configs@).to_set() =~= affected(m, d, all, 0));
    }
    while i < keys.len()
        invariant
            i <= keys@.len() == all.len(),
            all == texts(keys@),
            all.to_set() == m.dom().union(d.dom()),
            m == remote@,
            d == desired@,
            added <= i,
            removed <= i,
            changed <= i,
            same <= i,
            out@ == all_change_lines(m, d, all, i as nat),
            added == changes(m, d, all, i as nat, Change::Added),
            removed == changes(m, d, all, i as nat, Change::Removed),
            changed == changes(m, d, all, i as nat, Change::Changed),
            same == changes(m, d, all, i as nat, Change::Same),
            ascending(texts(configs@)),
            texts(configs@).to_set() == affected(m, d, all, i as nat),
        decreases keys@.len() - i,
    {
        let key = keys[i].as_str();
        assert(all[i as int] == key@);
        assert(all.to_set().contains(key@));
        let mut differs = true;
        match (remote.get(key), desired.get(key)) {
            (Some(r), Some(t)) => {
                if r.as_str().eq(t.as_str()) {
                    differs = false;
                    same += 1;
                } else {
                    let mut two = value_line("\x1b[31m- ", key, r.as_str());
                    two.append(value_line("\x1b[32m+ ", key, t.as_str()).as_str());
                    out.append(two.as_str());
                    changed += 1;
                }
            },
            (Some(r), None) => {
                out.append(value_line("\x1b[31m- ", key, r.as_str()).as_str());
                removed += 1;
            },
            (None, Some(t)) => {
                out.append(value_line("\x1b[32m+ ", key, t.as_str()).as_str());
                added += 1;
            },
            (None, None) => {},
        }
        if differs {
            insert_text(&mut configs, text_before(key, '.').as_str());
        }
        assert(out@ =~= all_change_lines(m, d, all, (i + 1) as nat));
        i += 1;
    }
    let mut s = "\n\x1b[1mSummary:\x1b[0m \x1b[32m".to_owned();
    s.append(decimal_text(added as u64).as_str());
    s.append(" to add\x1b[0m, \x1b[31m");
    s.append(decimal_text(removed as u64).as_str());
    s.append(" to remove\x1b[0m, \x1b[33m");
    s.append(decimal_text(changed as u64).as_str());
    s.append(" to change\x1b[0m, ");
    s.append(decimal_text(same as u64).as_str());
    s.append(" unchanged.\n");
    out.append(s.as_str());
    proof {
        in_order_is(affected(m, d, all, all.len()), texts(configs@));
    }
    out.append(services_text(&configs, map).as_str());
    out
}

fn services_text(configs: &Vec<String>, map: &TextMap<String>) -> (r: String)
    ensures
        r@ == services_block(texts(configs@), map@),
{
    let ghost all = texts(configs@);
    if configs.len() == 0 {
        let s = String::new();
        assert(s@ =~= Seq::empty());
        return s;
    }
    let mut s = "\n\x1b[1;33mAffected services (auto-discovered):\x1b[0m\n".to_owned();
    let ghost head = s@;
    let mut i: usize = 0;
    assert(s@ =~= head + service_lines(all, map@, 0));
    while i < configs.len()
        invariant
            i <= configs@.len() == all.len(),
            all == texts(configs@),
            s@ == head + service_lines(all, map@, i as nat),
        decreases configs@.len() - i,
    {
        let config = configs[i].as_str();
        let mut line = "  ".to_owned();
        line.append(config);
        match map.get(config) {
            Some(cmd) => {
                line.append(" \u{2192} ");
                line.append(cmd.as_str());
                line.append("\n");
            },
            None => {
                line.append(" \u{2192} /etc/init.d/");
                line.append(config);
                line.append(" reload\n");
            },
        }
        s.append(line.as_str());
        assert(s@ =~= head + service_lines(all, map@, (i + 1) as nat));
        i += 1;
    }
    s
}

fn packages_text(packages: &Option<Vec<String>>, state: &TextMap<bool>) -> (r: String)
    ensures
        r@ == packages_block(optional_texts(*packages), state@),
{
    let mut s = String::new();
    assert(s@ =~= Seq::empty());
    if let Some(pkgs) = packages {
        if pkgs.len() > 0 {
            let ghost all = texts(pkgs@);
            let mut t = "\n\x1b[1;35m[Packages]\x1b[0m\n".to_owned();
            let ghost head = t@;
            let mut i: usize = 0;
            assert(t@ =~= head + package_lines(all, state@, 0));
            while i < pkgs.len()
                invariant
                    i <= pkgs@.len() == all.len(),
                    all == texts(pkgs@),
                    t@ == head + package_lines(all, state@, i as nat),
                decreases pkgs@.len() - i,
            {
                let pkg = pkgs[i].as_str();
                let installed = match state.get(pkg) {
                    Some(b) => *b,
                    None => false,
                };
                let mut line = if installed {
                    "  \x1b[90m".to_owned()
                } else {
                    "  \x1b[32m+ ".to_owned()
                };
                line.append(pkg);
                if installed {
                    line.append("  (Installed)\x1b[0m\n");
                } else {
                    line.append("  (To Install)\x1b[0m\n");
                }
                t.append(line.as_str());
                assert(t@ =~= head + package_lines(all, state@, (i + 1) as nat));
                i += 1;
            }
            s = t;
        }
    }
    s
}

/// Writes what identifies a public key.
pub fn identify_key(key: &str) -> (r: String)
    ensures
        r@ == key_identity(key@),
{
    let mut list = split_words(key);
    if list.len() > 2 {
        let ghost all = texts(list@);
        list.truncate(2);
        assert(texts(list@) =~= all.take(2));
    } else {
        assert(texts(list@).take(list@.len() as int) =~= texts(list@));
    }
    joined(&list, " ")
}

fn keys_text(ssh_keys: &Vec<String>, present: &Vec<String>) -> (r: String)
    ensures
        r@ == keys_block(texts(ssh_keys@), texts(present@)),
{
    let ghost all = texts(ssh_keys@);
    let ghost l = texts(present@);
    if ssh_keys.len() == 0 {
        let s = String::new();
        assert(s@ =~= Seq::empty());
        return s;
    }
    let mut wanted: Vec<String> = Vec::new();
    let mut i: usize = 0;
    assert(texts(wanted@).to_set() =~= identities(all, 0));
    while i < ssh_keys.len()
        invariant
            i <= ssh_keys@.len() == all.len(),
            all == texts(ssh_keys@),
            ascending(texts(wanted@)),
            texts(wanted@).to_set() == identities(all, i as nat),
        decreases ssh_keys@.len() - i,
    {
        insert_text(&mut wanted, identify_key(ssh_keys[i].as_str()).as_str());
        i += 1;
    }
    let ghost w = texts(wanted@);
    proof {
        in_order_is(identities(all, all.len()), w);
    }
    let mut missing: usize = 0;
    let mut j: usize = 0;
    while j < wanted.len()
        invariant
            j <= wanted@.len() == w.len(),
            w == texts(wanted@),
            l == texts(present@),
            missing <= j,
            missing == absent(w, l, j as nat),
        decreases wanted@.len() - j,
    {
        let key = wanted[j].as_str();
        if !(has_item(present, key) && !trimmed(key).as_str().is_empty()) {
            missing += 1;
        }
        j += 1;
    }
    let n = decimal_text(ssh_keys.len() as u64);
    let mut s = "\n\x1b[1;35m[SSH Keys] (".to_owned();
    s.append(n.as_str());
    s.append(" desired)\x1b[0m\n");
    if missing == 0 {
        s.append("  \x1b[90mAll ");
        s.append(n.as_str());
        s.append(" key(s) already synced\x1b[0m\n");
    } else {
        s.append("  \x1b[32m+ ");
        s.append(decimal_text(missing as u64).as_str());
        s.append("/");
        s.append(n.as_str());
        s.append(" key(s) to deploy\x1b[0m\n");
    }
    s
}

fn password_text(managed: bool, shadow: &str) -> (r: String)
    ensures
        r@ == password_block(managed, shadow@),
{
    if !managed {
        let s = String::new();
        assert(s@ =~= Seq::empty());
        return s;
    }
    let mut s = "\n\x1b[1;35m[Root Password]\x1b[0m\n".to_owned();
    if shadow.is_empty() {
        s.append("  \x1b[32mWill be set (target has no root password)\x1b[0m\n");
    } else {
        s.append("  \x1b[90mManaged (target root password already set)\x1b[0m\n");
    }
    s
}

fn block_of(blocks: &Vec<String>, i: usize) -> (r: String)
    ensures
        r@ == if i < blocks@.len() {
            blocks@[i as int]@
        } else {
            Seq::empty()
        },
{
    if i < blocks.len() {
        blocks[i].clone()
    } else {
        let s = String::new();
        assert(s@ =~= Seq::empty());
        s
    }
}

/// Writes the preview for a configuration, from what the discovery command and the state command
/// printed.
pub fn diff_report(
    target: &str,
    compiled: &CompiledConfig,
    remote_output: &str,
    state_output: &str,
) -> (r: String)
    ensures
        r@ == report(
            target@,
            compiled.resolved_root@,
            compiled.secrets@.dom().contains("root_password"@),
            remote_output@,
            state_output@,
        ),
{
    proof {
        reveal_strlit("===NUCI_SERVICES===");
        reveal_strlit("===NUCI_STATE===");
    }
    let root = &compiled.resolved_root;
    let (uci, svc) = split_parts(remote_output, SERVICE_SEPARATOR);
    let remote = parse_uci_show(uci.as_str());
    let desired = extract_desired_map(&root.settings);
    let map = parse_services(svc.as_str());
    let blocks = split_by(state_output, STATE_SEPARATOR);
    assert(forall|i: int| 0 <= i < blocks@.len() ==> texts(blocks@)[i] == #[trigger] blocks@[i]@);
    let first = block_of(&blocks, 0);
    let second = block_of(&blocks, 1);
    let third = block_of(&blocks, 2);
    assert(first@ == state_block(state_output@, 0));
    assert(second@ == state_block(state_output@, 1));
    assert(third@ == state_block(state_output@, 2));
    let state = parse_package_state(first.as_str());
    let present = split_lines(second.as_str());
    let shadow_lines = split_lines(third.as_str());
    let shadow = if shadow_lines.len() > 0 {
        assert(texts(shadow_lines@)[0] == shadow_lines@[0]@);
        trimmed(shadow_lines[0].as_str())
    } else {
        let s = String::new();
        assert(s@ =~= Seq::empty());
        s
    };
    assert(shadow@ == first_line(third@));
    let mut s = "\n\x1b[1;36m=== Configuration Diff (".to_owned();
    s.append(target);
    s.append(") ===\x1b[0m\n\n");
    s.append(settings_text(&remote, &desired, &map).as_str());
    s.append(packages_text(&root.packages, &state).as_str());
    s.append(keys_text(&root.ssh_keys, &present).as_str());
    s.append(password_text(compiled.secrets.contains_key("root_password"), shadow.as_str()).as_str());
    s
}

// ---- laws ----

proof fn lemma_same_lines(m: Flat, keys: Seq<Seq<char>>, n: nat)
    requires
        n <= keys.len(),
        forall|i: int| 0 <= i < keys.len() ==> m.dom().contains(#[trigger] keys[i]),
    ensures
        all_change_lines(m, m, keys, n) == Seq::<char>::empty(),
        changes(m, m, keys, n, Change::Added) == 0,
        changes(m, m, keys, n, Change::Removed) == 0,
        changes(m, m, keys, n, Change::Changed) == 0,
        changes(m, m, keys, n, Change::Same) == n,
        affected(m, m, keys, n) == Set::<Seq<char>>::empty(),
    decreases n,
{
    if n > 0 {
        lemma_same_lines(m, keys, (n - 1) as nat);
        assert(m.dom().contains(keys[n - 1]));
        assert(all_change_lines(m, m, keys, n) =~= Seq::empty());
    }
}

/// A target that holds what is declared has no changes to preview and no services to reload.
pub proof fn equal_settings_show_no_change(m: Flat, map: Map<Seq<char>, Seq<char>>)
    requires
        m.dom().finite(),
    ensures
        settings_block(m, m, map) == summary_line(0, 0, 0, m.dom().len()),
{
    let set = m.dom().union(m.dom());
    assert(set =~= m.dom());
    in_order_holds(set);
    let keys = in_order(set);
    assert forall|i: int| 0 <= i < keys.len() implies m.dom().contains(#[trigger] keys[i]) by {
        assert(keys.to_set().contains(keys[i]));
    }
    lemma_same_lines(m, keys, keys.len());
    let none = Set::<Seq<char>>::empty();
    assert(Seq::<Seq<char>>::empty().to_set() =~= none);
    in_order_is(none, Seq::empty());
    lemma_ascending_len(keys);
    let s = summary_line(0, 0, 0, keys.len());
    assert(Seq::<char>::empty() + s + Seq::<char>::empty() =~= s);
}

/// Ascending texts are as many as their set has members.
proof fn lemma_ascending_len(s: Seq<Seq<char>>)
    requires
        ascending(s),
    ensures
        s.to_set().len() == s.len(),
{
    assert forall|i: int, j: int| 0 <= i < s.len() && 0 <= j < s.len() && i != j implies s[i]
        != s[j] by {
        if i < j {
            assert(less(s[i], s[j]));
        } else {
            assert(less(s[j], s[i]));
        }
        lemma_less_irreflexive(s[i]);
    }
    s.unique_seq_to_set();
}

/// Every key is counted once: as added, removed, changed or unchanged.
pub proof fn every_key_is_counted(remote: Flat, desired: Flat, keys: Seq<Seq<char>>, n: nat)
    requires
        n <= keys.len(),
    ensures
        changes(remote, desired, keys, n, Change::Added) + changes(
            remote,
            desired,
            keys,
            n,
            Change::Removed,
        ) + changes(remote, desired, keys, n, Change::Changed) + changes(
            remote,
            desired,
            keys,
            n,
            Change::Same,
        ) == n,
    decreases n,
{
    if n > 0 {
        every_key_is_counted(remote, desired, keys, (n - 1) as nat);
    }
}

/// An edited comment makes no other key.
pub proof fn comments_do_not_identify(a: Seq<char>, b: Seq<char>)
    requires
        words(a).len() >= 2,
        words(b).len() >= 2,
        words(a).take(2) == words(b).take(2),
    ensures
        key_identity(a) == key_identity(b),
{
}

} // verus!
