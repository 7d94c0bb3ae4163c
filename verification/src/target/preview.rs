//! What a preview says: every difference between a target and its declaration, and no other.

use crate::config::models::Declared;
use crate::target::deploy::{remote_services, remote_settings};
use crate::target::diff::{flat_settings, package_states, Flat};
use crate::target::report::{
    absent, affected, all_change_lines, change, change_lines, changes, identities, key_identity,
    keys_block, package_lines, packages_block, password_block, report, service_line, service_lines,
    settings_block, state_block, Change,
};
use crate::target::values::display_form;
use crate::utils::equations::{word, words_are_what_white_space_parts};
use crate::utils::order::{ascending, in_order, in_order_holds, lemma_less_irreflexive, less};
use crate::utils::split::{decimal, join, lines, split_text, words};
use crate::utils::text::{before, find, lemma_find, lemma_find_is, trim};
use crate::utils::text_map::lemma_push_to_set;
use crate::utils::within::{lemma_flat_last, lemma_within_flat, lemma_within_more, within};
use vstd::prelude::*;

verus! {

// ---- settings ----

/// Whether a target and its declaration agree on a key: neither has it, or both have it with the
/// same value.
pub open spec fn agree(remote: Flat, desired: Flat, key: Seq<char>) -> bool {
    if remote.dom().contains(key) {
        desired.dom().contains(key) && remote[key] == desired[key]
    } else {
        !desired.dom().contains(key)
    }
}

/// What is said of a key: nothing where it stays as it is, else what goes and what comes.
pub open spec fn key_text(remote: Flat, desired: Flat, key: Seq<char>) -> Seq<char> {
    if agree(remote, desired, key) {
        Seq::empty()
    } else {
        (if remote.dom().contains(key) {
            "\x1b[31m- "@ + key + "="@ + display_form(remote[key]) + "\x1b[0m\n"@
        } else {
            Seq::empty()
        }) + (if desired.dom().contains(key) {
            "\x1b[32m+ "@ + key + "="@ + display_form(desired[key]) + "\x1b[0m\n"@
        } else {
            Seq::empty()
        })
    }
}

/// The keys that both have.
pub open spec fn shared(remote: Flat, desired: Flat) -> Set<Seq<char>> {
    remote.dom().intersect(desired.dom())
}

/// The keys that both have with the same value.
pub open spec fn kept_keys(remote: Flat, desired: Flat) -> Set<Seq<char>> {
    shared(remote, desired).filter(|k: Seq<char>| remote[k] == desired[k])
}

/// Whether a configuration file holds a key: the key is its name, or starts with its name and a
/// dot.
pub open spec fn key_of(key: Seq<char>, config: Seq<char>) -> bool {
    !config.contains('.') && (key == config || (config + "."@).is_prefix_of(key))
}

/// What is said of the services of configuration files.
pub open spec fn service_text(config: Seq<char>, map: Map<Seq<char>, Seq<char>>) -> Seq<char> {
    "  "@ + config + " \u{2192} "@ + (if map.dom().contains(config) {
        map[config]
    } else {
        "/etc/init.d/"@ + config + " reload"@
    }) + "\n"@
}

proof fn lemma_change(remote: Flat, desired: Flat, key: Seq<char>)
    requires
        remote.dom().contains(key) || desired.dom().contains(key),
    ensures
        change(remote, desired, key) is Same <==> agree(remote, desired, key),
        change(remote, desired, key) is Added <==> !remote.dom().contains(key),
        change(remote, desired, key) is Removed <==> !desired.dom().contains(key),
        change_lines(remote, desired, key) == key_text(remote, desired, key),
{
    assert(change_lines(remote, desired, key) =~= key_text(remote, desired, key));
}

/// A key that both have is unchanged if and only if its values are equal, and changed otherwise;
/// one that only the declaration has is added, one that only the target has is removed.
pub proof fn values_decide(remote: Flat, desired: Flat, key: Seq<char>)
    requires
        remote.dom().contains(key) || desired.dom().contains(key),
    ensures
        remote.dom().contains(key) && desired.dom().contains(key) ==> (change(remote, desired, key)
            == Change::Same <==> remote[key] == desired[key]) && (change(remote, desired, key)
            == Change::Changed <==> remote[key] != desired[key]),
        !remote.dom().contains(key) ==> change(remote, desired, key) == Change::Added,
        !desired.dom().contains(key) ==> change(remote, desired, key) == Change::Removed,
{
    lemma_change(remote, desired, key);
}

proof fn lemma_all_change_lines(remote: Flat, desired: Flat, keys: Seq<Seq<char>>, n: nat)
    requires
        n <= keys.len(),
        forall|i: int|
            0 <= i < keys.len() ==> remote.dom().contains(#[trigger] keys[i])
                || desired.dom().contains(keys[i]),
    ensures
        all_change_lines(remote, desired, keys, n) == Seq::new(
            n,
            |i: int| key_text(remote, desired, keys[i]),
        ).flatten(),
    decreases n,
{
    let p = Seq::new(n, |i: int| key_text(remote, desired, keys[i]));
    if n > 0 {
        lemma_all_change_lines(remote, desired, keys, (n - 1) as nat);
        assert(remote.dom().contains(keys[n - 1]) || desired.dom().contains(keys[n - 1]));
        lemma_change(remote, desired, keys[n - 1]);
        lemma_flat_last(p);
        assert(p.drop_last() =~= Seq::new(
            (n - 1) as nat,
            |i: int| key_text(remote, desired, keys[i]),
        ));
    }
}

/// The keys among the first `n` that undergo a change.
spec fn undergoing(
    remote: Flat,
    desired: Flat,
    keys: Seq<Seq<char>>,
    n: nat,
    kind: Change,
) -> Set<Seq<char>> {
    keys.take(n as int).to_set().filter(|k: Seq<char>| change(remote, desired, k) == kind)
}

proof fn lemma_one_more(keys: Seq<Seq<char>>, n: nat)
    requires
        0 < n <= keys.len(),
        keys.no_duplicates(),
    ensures
        keys.take(n as int).to_set() == keys.take(n - 1).to_set().insert(keys[n - 1]),
        !keys.take(n - 1).to_set().contains(keys[n - 1]),
{
    let early = keys.take(n - 1);
    let k = keys[n - 1];
    assert(keys.take(n as int) =~= early.push(k));
    lemma_push_to_set(early, k);
    if early.contains(k) {
        let j = choose|j: int| 0 <= j < early.len() && early[j] == k;
        assert(keys[j] == keys[n - 1]);
    }
}

proof fn lemma_changes(remote: Flat, desired: Flat, keys: Seq<Seq<char>>, n: nat, kind: Change)
    requires
        n <= keys.len(),
        keys.no_duplicates(),
    ensures
        undergoing(remote, desired, keys, n, kind).finite(),
        changes(remote, desired, keys, n, kind) == undergoing(remote, desired, keys, n, kind).len(),
    decreases n,
{
    let now = undergoing(remote, desired, keys, n, kind);
    if n == 0 {
        assert(now =~= Set::empty());
    } else {
        lemma_changes(remote, desired, keys, (n - 1) as nat, kind);
        let early = undergoing(remote, desired, keys, (n - 1) as nat, kind);
        let k = keys[n - 1];
        lemma_one_more(keys, n);
        if change(remote, desired, k) == kind {
            assert(now =~= early.insert(k));
            assert(!early.contains(k));
        } else {
            assert(now =~= early);
        }
    }
}

proof fn lemma_ascending_distinct(s: Seq<Seq<char>>)
    requires
        ascending(s),
    ensures
        s.no_duplicates(),
{
    assert forall|i: int, j: int| 0 <= i < s.len() && 0 <= j < s.len() && i != j implies s[i]
        != s[j] by {
        if i < j {
            assert(less(s[i], s[j]));
        } else {
            assert(less(s[j], s[i]));
        }
        lemma_less_irreflexive(s[i]);
    }
}

proof fn lemma_config_of(key: Seq<char>, config: Seq<char>)
    ensures
        before(key, '.') == config <==> key_of(key, config),
{
    reveal_strlit(".");
    lemma_find(key, '.');
    let n = find(key, '.');
    let b = before(key, '.');
    if b == config {
        if config.contains('.') {
            let j = choose|j: int| 0 <= j < config.len() && config[j] == '.';
            assert(key[j] == config[j]);
        }
        if n < key.len() {
            assert(key.subrange(0, (config + "."@).len() as int) =~= config + "."@);
        } else {
            assert(key =~= config);
        }
    }
    if key_of(key, config) {
        let m = config.len() as int;
        assert forall|j: int| 0 <= j < m implies key[j] != '.' by {
            if key != config {
                assert(key.subrange(0, (config + "."@).len() as int)[j] == (config + "."@)[j]);
            }
            assert(config.contains(config[j]));
        }
        if key != config {
            assert(key.subrange(0, (config + "."@).len() as int)[m] == (config + "."@)[m]);
        }
        lemma_find_is(key, '.', m);
        assert(b =~= config) by {
            assert forall|j: int| 0 <= j < m implies b[j] == config[j] by {
                if key != config {
                    assert(key.subrange(0, (config + "."@).len() as int)[j] == (config + "."@)[j]);
                }
            }
        }
    }
}

proof fn lemma_affected(remote: Flat, desired: Flat, keys: Seq<Seq<char>>, n: nat, config: Seq<char>)
    requires
        n <= keys.len(),
        forall|i: int|
            0 <= i < keys.len() ==> remote.dom().contains(#[trigger] keys[i])
                || desired.dom().contains(keys[i]),
    ensures
        affected(remote, desired, keys, n).finite(),
        affected(remote, desired, keys, n).contains(config) <==> exists|i: int|
            0 <= i < n && !agree(remote, desired, #[trigger] keys[i]) && key_of(keys[i], config),
    decreases n,
{
    if n > 0 {
        lemma_affected(remote, desired, keys, (n - 1) as nat, config);
        assert(remote.dom().contains(keys[n - 1]) || desired.dom().contains(keys[n - 1]));
        lemma_change(remote, desired, keys[n - 1]);
        lemma_config_of(keys[n - 1], config);
    }
}

proof fn lemma_service_lines(configs: Seq<Seq<char>>, map: Map<Seq<char>, Seq<char>>, n: nat)
    requires
        n <= configs.len(),
    ensures
        service_lines(configs, map, n) == Seq::new(
            n,
            |i: int| service_text(configs[i], map),
        ).flatten(),
    decreases n,
{
    let p = Seq::new(n, |i: int| service_text(configs[i], map));
    if n > 0 {
        lemma_service_lines(configs, map, (n - 1) as nat);
        reveal_strlit(" \u{2192} ");
        reveal_strlit(" \u{2192} /etc/init.d/");
        reveal_strlit("/etc/init.d/");
        reveal_strlit(" reload\n");
        reveal_strlit(" reload");
        reveal_strlit("\n");
        assert(service_line(configs[n - 1], map) =~= service_text(configs[n - 1], map));
        lemma_flat_last(p);
        assert(p.drop_last() =~= Seq::new(
            (n - 1) as nat,
            |i: int| service_text(configs[i], map),
        ));
    }
}

/// The configuration files in which something changes, in their order.
pub open spec fn affected_configs(remote: Flat, desired: Flat) -> Seq<Seq<char>> {
    let keys = in_order(remote.dom().union(desired.dom()));
    in_order(affected(remote, desired, keys, keys.len()))
}

/// Exactly the configuration files that hold a key on which target and declaration differ are
/// affected, each of them once.
pub proof fn differences_affect_their_files(remote: Flat, desired: Flat, config: Seq<char>)
    requires
        remote.dom().finite(),
        desired.dom().finite(),
    ensures
        affected_configs(remote, desired).no_duplicates(),
        affected_configs(remote, desired).contains(config) <==> exists|key: Seq<char>|
            !agree(remote, desired, key) && #[trigger] key_of(key, config),
{
    let all = remote.dom().union(desired.dom());
    let keys = in_order(all);
    in_order_holds(all);
    assert forall|i: int| 0 <= i < keys.len() implies remote.dom().contains(#[trigger] keys[i])
        || desired.dom().contains(keys[i]) by {
        assert(keys.to_set().contains(keys[i]));
    }
    lemma_affected(remote, desired, keys, keys.len(), config);
    let a = affected(remote, desired, keys, keys.len());
    in_order_holds(a);
    lemma_ascending_distinct(in_order(a));
    assert(in_order(a).to_set().contains(config) <==> in_order(a).contains(config));
    if exists|key: Seq<char>| !agree(remote, desired, key) && #[trigger] key_of(key, config) {
        let key = choose|key: Seq<char>|
            !agree(remote, desired, key) && #[trigger] key_of(key, config);
        assert(all.contains(key));
        assert(keys.to_set().contains(key));
        let i = choose|i: int| 0 <= i < keys.len() && keys[i] == key;
        assert(!agree(remote, desired, keys[i]));
    }
}

/// The part about the settings: what is said of every key, in ascending order of the keys; how
/// many are only declared, only on the target, on both with different values, and on both with the
/// same value; and the services of the files in which something changes.
pub proof fn every_difference_is_shown(
    remote: Flat,
    desired: Flat,
    map: Map<Seq<char>, Seq<char>>,
)
    requires
        remote.dom().finite(),
        desired.dom().finite(),
    ensures
        ({
            let keys = in_order(remote.dom().union(desired.dom()));
            let configs = affected_configs(remote, desired);
            settings_block(remote, desired, map) == Seq::new(
                keys.len(),
                |i: int| key_text(remote, desired, keys[i]),
            ).flatten() + ("\n\x1b[1mSummary:\x1b[0m \x1b[32m"@ + decimal(
                desired.dom().difference(remote.dom()).len(),
            ) + " to add\x1b[0m, \x1b[31m"@ + decimal(remote.dom().difference(desired.dom()).len())
                + " to remove\x1b[0m, \x1b[33m"@ + decimal(
                shared(remote, desired).difference(kept_keys(remote, desired)).len(),
            ) + " to change\x1b[0m, "@ + decimal(kept_keys(remote, desired).len())
                + " unchanged.\n"@) + (if configs.len() == 0 {
                Seq::empty()
            } else {
                "\n\x1b[1;33mAffected services (auto-discovered):\x1b[0m\n"@ + Seq::new(
                    configs.len(),
                    |i: int| service_text(configs[i], map),
                ).flatten()
            })
        }),
{
    let all = remote.dom().union(desired.dom());
    let keys = in_order(all);
    let n = keys.len();
    let configs = affected_configs(remote, desired);
    in_order_holds(all);
    lemma_ascending_distinct(keys);
    assert forall|i: int| 0 <= i < keys.len() implies remote.dom().contains(#[trigger] keys[i])
        || desired.dom().contains(keys[i]) by {
        assert(keys.to_set().contains(keys[i]));
    }
    lemma_all_change_lines(remote, desired, keys, n);
    lemma_changes(remote, desired, keys, n, Change::Added);
    lemma_changes(remote, desired, keys, n, Change::Removed);
    lemma_changes(remote, desired, keys, n, Change::Changed);
    lemma_changes(remote, desired, keys, n, Change::Same);
    assert(keys.take(n as int) =~= keys);
    assert forall|k: Seq<char>| all.contains(k) implies {
        &&& (change(remote, desired, k) == Change::Same <==> agree(remote, desired, k))
        &&& (change(remote, desired, k) == Change::Added <==> !remote.dom().contains(k))
        &&& (change(remote, desired, k) == Change::Removed <==> !desired.dom().contains(k))
    } by {
        lemma_change(remote, desired, k);
    }
    assert(undergoing(remote, desired, keys, n, Change::Added) =~= desired.dom().difference(
        remote.dom(),
    ));
    assert(undergoing(remote, desired, keys, n, Change::Removed) =~= remote.dom().difference(
        desired.dom(),
    ));
    assert(undergoing(remote, desired, keys, n, Change::Changed) =~= shared(
        remote,
        desired,
    ).difference(kept_keys(remote, desired)));
    assert(undergoing(remote, desired, keys, n, Change::Same) =~= kept_keys(remote, desired));
    lemma_service_lines(configs, map, configs.len());
}

/// Where a target and its declaration differ on a key, the preview shows it: what goes, and
/// directly behind it what comes.
pub proof fn changed_values_are_shown(
    remote: Flat,
    desired: Flat,
    map: Map<Seq<char>, Seq<char>>,
    key: Seq<char>,
)
    requires
        remote.dom().finite(),
        desired.dom().finite(),
        remote.dom().contains(key),
        desired.dom().contains(key),
        remote[key] != desired[key],
    ensures
        within(
            settings_block(remote, desired, map),
            "\x1b[31m- "@ + key + "="@ + display_form(remote[key]) + "\x1b[0m\n"@ + (
            "\x1b[32m+ "@ + key + "="@ + display_form(desired[key]) + "\x1b[0m\n"@),
        ),
{
    let all = remote.dom().union(desired.dom());
    let keys = in_order(all);
    in_order_holds(all);
    every_difference_is_shown(remote, desired, map);
    let p = Seq::new(keys.len(), |i: int| key_text(remote, desired, keys[i]));
    assert(keys.to_set().contains(key));
    let i = choose|i: int| 0 <= i < keys.len() && keys[i] == key;
    lemma_within_flat(p, i);
    let rest = settings_block(remote, desired, map).skip(p.flatten().len() as int);
    let none = Seq::<char>::empty();
    lemma_within_more(none, p.flatten(), rest, p[i]);
    assert(none + p.flatten() + rest =~= settings_block(remote, desired, map));
}

/// A preview that counts nothing to add, remove or change is that of a target that holds exactly
/// what is declared.
pub proof fn silent_previews_are_of_equal_settings(remote: Flat, desired: Flat)
    requires
        remote.dom().finite(),
        desired.dom().finite(),
        desired.dom().difference(remote.dom()).len() == 0,
        remote.dom().difference(desired.dom()).len() == 0,
        shared(remote, desired).difference(kept_keys(remote, desired)).len() == 0,
    ensures
        remote == desired,
{
    let a = desired.dom().difference(remote.dom());
    let b = remote.dom().difference(desired.dom());
    let c = shared(remote, desired).difference(kept_keys(remote, desired));
    assert(a =~= Set::empty());
    assert(b =~= Set::empty());
    assert(c =~= Set::empty());
    assert forall|k: Seq<char>| remote.dom().contains(k) <==> desired.dom().contains(k) by {
        assert(!a.contains(k));
        assert(!b.contains(k));
    }
    assert forall|k: Seq<char>| remote.dom().contains(k) implies remote[k] == desired[k] by {
        assert(!c.contains(k));
    }
    assert(remote =~= desired);
}

// ---- packages, keys, password ----

proof fn lemma_package_lines(pkgs: Seq<Seq<char>>, state: Map<Seq<char>, bool>, n: nat)
    requires
        n <= pkgs.len(),
    ensures
        package_lines(pkgs, state, n) == Seq::new(
            n,
            |i: int| package_text(pkgs[i], state),
        ).flatten(),
    decreases n,
{
    let p = Seq::new(n, |i: int| package_text(pkgs[i], state));
    if n > 0 {
        lemma_package_lines(pkgs, state, (n - 1) as nat);
        lemma_flat_last(p);
        assert(p.drop_last() =~= Seq::new((n - 1) as nat, |i: int| package_text(pkgs[i], state)));
    }
}

/// What is said of a package: that it is installed where the target says so, else that it will
/// be.
pub open spec fn package_text(pkg: Seq<char>, state: Map<Seq<char>, bool>) -> Seq<char> {
    if state.dom().contains(pkg) && state[pkg] {
        "  \x1b[90m"@ + pkg + "  (Installed)\x1b[0m\n"@
    } else {
        "  \x1b[32m+ "@ + pkg + "  (To Install)\x1b[0m\n"@
    }
}

/// Every declared package is shown, in the declared order.
pub proof fn every_package_is_shown(pkgs: Seq<Seq<char>>, state: Map<Seq<char>, bool>)
    ensures
        packages_block(Some(pkgs), state) == if pkgs.len() == 0 {
            Seq::empty()
        } else {
            "\n\x1b[1;35m[Packages]\x1b[0m\n"@ + Seq::new(
                pkgs.len(),
                |i: int| package_text(pkgs[i], state),
            ).flatten()
        },
        packages_block(None, state) == Seq::<char>::empty(),
{
    lemma_package_lines(pkgs, state, pkgs.len());
}

proof fn lemma_identities(keys: Seq<Seq<char>>, n: nat, id: Seq<char>)
    requires
        n <= keys.len(),
    ensures
        identities(keys, n).finite(),
        identities(keys, n).contains(id) <==> exists|i: int|
            0 <= i < n && key_identity(#[trigger] keys[i]) == id,
    decreases n,
{
    if n > 0 {
        lemma_identities(keys, (n - 1) as nat, id);
    }
}

proof fn lemma_absent(keys: Seq<Seq<char>>, l: Seq<Seq<char>>, n: nat)
    requires
        n <= keys.len(),
        keys.no_duplicates(),
    ensures
        ({
            let s = keys.take(n as int).to_set().filter(
                |k: Seq<char>| !(l.contains(k) && trim(k).len() > 0),
            );
            s.finite() && absent(keys, l, n) == s.len()
        }),
    decreases n,
{
    let f = |k: Seq<char>| !(l.contains(k) && trim(k).len() > 0);
    let now = keys.take(n as int).to_set().filter(f);
    if n == 0 {
        assert(now =~= Set::empty());
    } else {
        lemma_absent(keys, l, (n - 1) as nat);
        let early = keys.take(n - 1).to_set().filter(f);
        let k = keys[n - 1];
        lemma_one_more(keys, n);
        if f(k) {
            assert(now =~= early.insert(k));
            assert(!early.contains(k));
        } else {
            assert(now =~= early);
        }
    }
}

/// The identities of declared keys that are not among the lines of the target.
pub open spec fn missing_keys(ssh_keys: Seq<Seq<char>>, l: Seq<Seq<char>>) -> Set<Seq<char>> {
    ssh_keys.map_values(|k: Seq<char>| key_identity(k)).to_set().filter(
        |k: Seq<char>| !(l.contains(k) && trim(k).len() > 0),
    )
}

/// All keys are said to be there if and only if what identifies each of them is a line of the
/// target; else the number of those that are missing is shown, two keys of one identity counting
/// once.
pub proof fn missing_keys_are_counted(ssh_keys: Seq<Seq<char>>, l: Seq<Seq<char>>)
    requires
        ssh_keys.len() > 0,
    ensures
        ({
            let n = decimal(ssh_keys.len());
            let head = "\n\x1b[1;35m[SSH Keys] ("@ + n + " desired)\x1b[0m\n"@;
            keys_block(ssh_keys, l) == if missing_keys(ssh_keys, l).len() == 0 {
                head + "  \x1b[90mAll "@ + n + " key(s) already synced\x1b[0m\n"@
            } else {
                head + "  \x1b[32m+ "@ + decimal(missing_keys(ssh_keys, l).len()) + "/"@ + n
                    + " key(s) to deploy\x1b[0m\n"@
            }
        }),
{
    let ids = identities(ssh_keys, ssh_keys.len());
    let all = ssh_keys.map_values(|k: Seq<char>| key_identity(k));
    assert forall|id: Seq<char>| ids.contains(id) <==> all.to_set().contains(id) by {
        lemma_identities(ssh_keys, ssh_keys.len(), id);
        if ids.contains(id) {
            let i = choose|i: int| 0 <= i < ssh_keys.len() && key_identity(#[trigger] ssh_keys[i]) == id;
            assert(all[i] == id);
        }
        if all.contains(id) {
            let i = choose|i: int| 0 <= i < all.len() && all[i] == id;
            assert(key_identity(ssh_keys[i]) == id);
        }
    }
    assert(ids =~= all.to_set());
    lemma_identities(ssh_keys, ssh_keys.len(), Seq::empty());
    let wanted = in_order(ids);
    in_order_holds(ids);
    lemma_ascending_distinct(wanted);
    lemma_absent(wanted, l, wanted.len());
    assert(wanted.take(wanted.len() as int) =~= wanted);
    assert(wanted.to_set().filter(|k: Seq<char>| !(l.contains(k) && trim(k).len() > 0))
        =~= missing_keys(ssh_keys, l));
}

/// A declared password is said to be set where the target has none, else to be managed; without one
/// nothing is said.
pub proof fn passwords_are_spoken_of(managed: bool, shadow: Seq<char>)
    ensures
        password_block(managed, shadow) == if !managed {
            Seq::empty()
        } else {
            "\n\x1b[1;35m[Root Password]\x1b[0m\n"@ + if shadow.len() == 0 {
                "  \x1b[32mWill be set (target has no root password)\x1b[0m\n"@
            } else {
                "  \x1b[90mManaged (target root password already set)\x1b[0m\n"@
            }
        },
        keys_block(Seq::empty(), Seq::empty()) == Seq::<char>::empty(),
{
}

/// The whole preview: the target's name; the settings, as the target printed them and as they are
/// declared; the packages, the keys and the password, by the three parts of what else it printed.
pub proof fn previews_are_complete(
    target: Seq<char>,
    d: Declared,
    password: bool,
    remote: Seq<char>,
    state: Seq<char>,
    a: Seq<char>,
    b: Seq<char>,
    c: Seq<char>,
)
    requires
        split_text(state, "===NUCI_STATE==="@) == seq![a, b, c],
    ensures
        report(target, d, password, remote, state)
            == "\n\x1b[1;36m=== Configuration Diff ("@ + target + ") ===\x1b[0m\n\n"@
            + settings_block(
            remote_settings(Some(remote)),
            flat_settings(d.settings, d.settings.len()),
            remote_services(Some(remote)),
        ) + packages_block(d.packages, package_states(lines(a), lines(a).len())) + keys_block(
            d.ssh_keys,
            lines(b),
        ) + password_block(
            password,
            if lines(c).len() == 0 {
                Seq::empty()
            } else {
                trim(lines(c)[0])
            },
        ),
{
    assert(state_block(state, 0) == a);
    assert(state_block(state, 1) == b);
    assert(state_block(state, 2) == c);
}

/// A public key is told from others by its type and its digits, not by the comment behind them.
pub proof fn comments_do_not_tell_keys_apart(kind: Seq<char>, digits: Seq<char>, comment: Seq<char>)
    requires
        word(kind),
        word(digits),
    ensures
        key_identity(kind + " "@ + digits + " "@ + comment) == kind + " "@ + digits,
        key_identity(kind + " "@ + digits) == kind + " "@ + digits,
        key_identity(kind) == kind,
{
    reveal_strlit(" ");
    let none = Seq::<char>::empty();
    let two = seq![kind, digits];
    let c = seq![' '];
    assert(" "@ =~= c);
    words_are_what_white_space_parts(none, digits, ' ', comment);
    words_are_what_white_space_parts(none, kind, ' ', digits);
    words_are_what_white_space_parts(none, kind, ' ', digits + c + comment);
    assert(none + kind =~= kind);
    assert(none + digits =~= digits);
    assert(none + digits + c + comment =~= digits + c + comment);
    assert(none + kind + c + digits =~= kind + " "@ + digits);
    assert(none + kind + c + (digits + c + comment) =~= kind + " "@ + digits + " "@ + comment);
    let w = words(kind + " "@ + digits + " "@ + comment);
    assert(w.take(2) =~= two);
    assert(words(kind + " "@ + digits) =~= two);
    assert(two.take(2) =~= two);
    assert(seq![kind].take(1) =~= seq![kind]);
    assert(two.drop_last() =~= seq![kind]);
    assert(join(seq![kind], " "@) =~= kind);
    assert(join(two, " "@) =~= kind + " "@ + digits);
}

} // verus!
