//! What a target is asked, and what its answers tell.

use crate::config::models::{Body, Options, PkgBackend, Sections, Settings, Shape};
use crate::target::diff::{
    discovery_command, flat_config, flat_declaration, flat_list, flat_options, flat_section,
    flat_settings, package_line, package_states, service_line, services, setting_line,
    settings_shown, state_command, Flat,
};
use crate::target::values::{desired_form, shown_form};
use crate::utils::split::{decimal, join};
use crate::utils::text::{after, before, lemma_find_is, split_once, trim, white_space};
use vstd::prelude::*;

verus! {

// ---- questions ----

/// The settings of every managed configuration file are asked for, and behind the separator, for
/// each of them, which command reloads its service: that of the service of its name where there is
/// one; for the radios their own program, or the network's; else that of a service that loads the
/// file; else none.
pub proof fn targets_are_asked_for_settings_and_services(managed: Seq<Seq<char>>)
    ensures
        ({
            let names = join(managed, " "@);
            discovery_command(managed) == "for c in "@ + names
                + "; do uci -q show \"$c\" 2>/dev/null; done; "@ + "echo '===NUCI_SERVICES==='; "@
                + "for c in "@ + names + "; do "@
                + "if [ -x /etc/init.d/\"$c\" ]; then echo \"$c:/etc/init.d/$c reload\"; "@
                + "elif [ \"$c\" = wireless ]; then if [ -x /sbin/wifi ]; then echo \"wireless:/sbin/wifi reload\"; elif [ -x /etc/init.d/network ]; then echo \"wireless:/etc/init.d/network restart\"; else echo \"wireless:none\"; fi; "@
                + "else m=$(grep -lE \"config_load .?$c.?\" /etc/init.d/* 2>/dev/null | head -n 1); if [ -n \"$m\" ]; then echo \"$c:$m reload\"; else echo \"$c:none\"; fi; fi; done"@
        }),
{
    reveal_strlit("; do uci -q show \"$c\" 2>/dev/null; done; ");
    reveal_strlit("echo '===NUCI_SERVICES==='; ");
    reveal_strlit("for c in ");
    reveal_strlit("; do ");
    reveal_strlit("if [ -x /etc/init.d/\"$c\" ]; then echo \"$c:/etc/init.d/$c reload\"; ");
    reveal_strlit(
        "elif [ \"$c\" = wireless ]; then if [ -x /sbin/wifi ]; then echo \"wireless:/sbin/wifi reload\"; elif [ -x /etc/init.d/network ]; then echo \"wireless:/etc/init.d/network restart\"; else echo \"wireless:none\"; fi; ",
    );
    reveal_strlit(
        "else m=$(grep -lE \"config_load .?$c.?\" /etc/init.d/* 2>/dev/null | head -n 1); if [ -n \"$m\" ]; then echo \"$c:$m reload\"; else echo \"$c:none\"; fi; fi; done",
    );
    reveal_strlit("; do uci -q show \"$c\" 2>/dev/null; done; echo '");
    reveal_strlit("===NUCI_SERVICES===");
    reveal_strlit("'; for c in ");
    reveal_strlit(
        "; do if [ -x /etc/init.d/\"$c\" ]; then echo \"$c:/etc/init.d/$c reload\"; elif [ \"$c\" = wireless ]; then if [ -x /sbin/wifi ]; then echo \"wireless:/sbin/wifi reload\"; elif [ -x /etc/init.d/network ]; then echo \"wireless:/etc/init.d/network restart\"; else echo \"wireless:none\"; fi; else m=$(grep -lE \"config_load .?$c.?\" /etc/init.d/* 2>/dev/null | head -n 1); if [ -n \"$m\" ]; then echo \"$c:$m reload\"; else echo \"$c:none\"; fi; fi; done",
    );
    let names = join(managed, " "@);
    assert(discovery_command(managed) =~= "for c in "@ + names
        + "; do uci -q show \"$c\" 2>/dev/null; done; "@ + "echo '===NUCI_SERVICES==='; "@
        + "for c in "@ + names + "; do "@
        + "if [ -x /etc/init.d/\"$c\" ]; then echo \"$c:/etc/init.d/$c reload\"; "@
        + "elif [ \"$c\" = wireless ]; then if [ -x /sbin/wifi ]; then echo \"wireless:/sbin/wifi reload\"; elif [ -x /etc/init.d/network ]; then echo \"wireless:/etc/init.d/network restart\"; else echo \"wireless:none\"; fi; "@
        + "else m=$(grep -lE \"config_load .?$c.?\" /etc/init.d/* 2>/dev/null | head -n 1); if [ -n \"$m\" ]; then echo \"$c:$m reload\"; else echo \"$c:none\"; fi; fi; done"@);
}

/// Every package is asked after with the package manager's own program, and told of as `yes` where
/// it succeeds and as `no` where it fails; the keys that may log in, and the hash of the root
/// password, follow behind separators.
pub proof fn targets_are_asked_for_their_state(packages: Seq<Seq<char>>, b: PkgBackend)
    ensures
        ({
            let probe = match b {
                PkgBackend::Opkg => "opkg list-installed"@,
                PkgBackend::Apk => "apk info -e"@,
            };
            let asked = if packages.len() == 0 {
                Seq::empty()
            } else {
                "for p in "@ + join(packages, " "@) + "; do "@ + probe
                    + " \"$p\" >/dev/null 2>&1 && echo \"$p:yes\" || echo \"$p:no\"; done; "@
            };
            state_command(packages, b) == asked + "echo '===NUCI_STATE==='; "@
                + "cat /etc/dropbear/authorized_keys 2>/dev/null; "@ + "echo '===NUCI_STATE==='; "@
                + "grep '^root:' /etc/shadow 2>/dev/null | cut -d: -f2"@
        }),
{
    reveal_strlit("echo '");
    reveal_strlit("===NUCI_STATE===");
    reveal_strlit("'; cat /etc/dropbear/authorized_keys 2>/dev/null; echo '");
    reveal_strlit("'; grep '^root:' /etc/shadow 2>/dev/null | cut -d: -f2");
    reveal_strlit("echo '===NUCI_STATE==='; ");
    reveal_strlit("cat /etc/dropbear/authorized_keys 2>/dev/null; ");
    reveal_strlit("grep '^root:' /etc/shadow 2>/dev/null | cut -d: -f2");
    let probe = match b {
        PkgBackend::Opkg => "opkg list-installed"@,
        PkgBackend::Apk => "apk info -e"@,
    };
    let asked = if packages.len() == 0 {
        Seq::empty()
    } else {
        "for p in "@ + join(packages, " "@) + "; do "@ + probe
            + " \"$p\" >/dev/null 2>&1 && echo \"$p:yes\" || echo \"$p:no\"; done; "@
    };
    assert(state_command(packages, b) =~= asked + "echo '===NUCI_STATE==='; "@
        + "cat /etc/dropbear/authorized_keys 2>/dev/null; "@ + "echo '===NUCI_STATE==='; "@
        + "grep '^root:' /etc/shadow 2>/dev/null | cut -d: -f2"@);
}

// ---- answers ----

/// Whether a text has no white space at its ends.
pub open spec fn tight(s: Seq<char>) -> bool {
    s.len() > 0 && !white_space(s[0]) && !white_space(s.last())
}

pub proof fn lemma_tight(s: Seq<char>)
    requires
        tight(s),
    ensures
        trim(s) == s,
{
}

proof fn lemma_sides(a: Seq<char>, c: char, b: Seq<char>)
    requires
        !a.contains(c),
    ensures
        split_once(a + seq![c] + b, c) == Some((a, b)),
{
    let s = a + seq![c] + b;
    assert forall|j: int| 0 <= j < a.len() implies s[j] != c by {
        assert(s[j] == a[j]);
        assert(a.contains(a[j]));
    }
    assert(s[a.len() as int] == c);
    lemma_find_is(s, c, a.len() as int);
    assert(s.contains(c));
    assert(before(s, c) =~= a);
    assert(after(s, c) =~= b);
}

/// A line that says `yes` of a package tells that it is installed, one that says `no` that it is
/// not, and any other line tells nothing.
pub proof fn package_lines_tell_the_state(pkg: Seq<char>, word: Seq<char>, line: Seq<char>)
    requires
        !pkg.contains(':'),
        tight(pkg + seq![':'] + word),
    ensures
        package_line(pkg + seq![':'] + word) == if word == "yes"@ {
            Some((pkg, true))
        } else if word == "no"@ {
            Some((pkg, false))
        } else {
            None
        },
        !trim(line).contains(':') ==> package_line(line) is None,
{
    reveal_strlit("yes");
    reveal_strlit("no");
    assert("yes"@.len() != "no"@.len());
    lemma_tight(pkg + seq![':'] + word);
    lemma_sides(pkg, ':', word);
}

/// A line with a configuration file and a command tells how its service is reloaded, unless it
/// says `none` or names no file.
pub proof fn service_lines_tell_the_command(config: Seq<char>, cmd: Seq<char>, line: Seq<char>)
    requires
        !config.contains(':'),
        tight(config + seq![':'] + cmd),
    ensures
        service_line(config + seq![':'] + cmd) == if cmd == "none"@ || config.len() == 0 {
            None
        } else {
            Some((config, cmd))
        },
        !trim(line).contains(':') ==> service_line(line) is None,
{
    lemma_tight(config + seq![':'] + cmd);
    lemma_sides(config, ':', cmd);
}

/// A line with a key and a value tells both; a comment, and a line without an equals sign, tells
/// nothing.
pub proof fn setting_lines_tell_the_value(key: Seq<char>, value: Seq<char>, line: Seq<char>)
    requires
        !key.contains('='),
        tight(key),
        tight(key + seq!['='] + value),
    ensures
        setting_line(key + seq!['='] + value) == if key[0] == '#' {
            None
        } else {
            Some((key, shown_form(value)))
        },
        trim(line).len() == 0 || trim(line)[0] == '#' || !trim(line).contains('=') ==> setting_line(
            line,
        ) is None,
{
    let s = key + seq!['='] + value;
    lemma_tight(s);
    lemma_tight(key);
    lemma_sides(key, '=', value);
    assert(s[0] == key[0]);
}

/// The last line about a package counts.
pub proof fn the_last_word_on_a_package_counts(l: Seq<Seq<char>>, n: nat, pkg: Seq<char>)
    requires
        n <= l.len(),
    ensures
        package_states(l, n).dom().finite(),
        package_states(l, n).dom().contains(pkg) <==> exists|k: int|
            0 <= k < n && told(package_line(#[trigger] l[k]), pkg),
        forall|k: int|
            0 <= k < n && told(package_line(#[trigger] l[k]), pkg) && (forall|j: int|
                k < j < n ==> !told(package_line(#[trigger] l[j]), pkg)) ==> package_states(l, n)[pkg]
                == package_line(l[k])->Some_0.1,
    decreases n,
{
    if n > 0 {
        the_last_word_on_a_package_counts(l, (n - 1) as nat, pkg);
        let early = package_states(l, (n - 1) as nat);
        if told(package_line(l[n - 1]), pkg) {
        } else {
            assert(package_states(l, n).dom().contains(pkg) == early.dom().contains(pkg));
        }
    }
}

/// Whether something was told of a key.
pub open spec fn told<V>(r: Option<(Seq<char>, V)>, key: Seq<char>) -> bool {
    r is Some && r->Some_0.0 == key
}

/// The last line about a configuration file's service counts.
pub proof fn the_last_word_on_a_service_counts(l: Seq<Seq<char>>, n: nat, config: Seq<char>)
    requires
        n <= l.len(),
    ensures
        services(l, n).dom().finite(),
        services(l, n).dom().contains(config) <==> exists|k: int|
            0 <= k < n && told(service_line(#[trigger] l[k]), config),
        forall|k: int|
            0 <= k < n && told(service_line(#[trigger] l[k]), config) && (forall|j: int|
                k < j < n ==> !told(service_line(#[trigger] l[j]), config)) ==> services(l, n)[config]
                == service_line(l[k])->Some_0.1,
    decreases n,
{
    if n > 0 {
        the_last_word_on_a_service_counts(l, (n - 1) as nat, config);
    }
}

/// The last line about a setting counts.
pub proof fn the_last_word_on_a_setting_counts(l: Seq<Seq<char>>, n: nat, key: Seq<char>)
    requires
        n <= l.len(),
    ensures
        settings_shown(l, n).dom().finite(),
        settings_shown(l, n).dom().contains(key) <==> exists|k: int|
            0 <= k < n && told(setting_line(#[trigger] l[k]), key),
        forall|k: int|
            0 <= k < n && told(setting_line(#[trigger] l[k]), key) && (forall|j: int|
                k < j < n ==> !told(setting_line(#[trigger] l[j]), key)) ==> settings_shown(l, n)[key]
                == setting_line(l[k])->Some_0.1,
    decreases n,
{
    if n > 0 {
        the_last_word_on_a_setting_counts(l, (n - 1) as nat, key);
    }
}

// ---- what is asked of the target's settings ----

/// Whether a section at `at` with a type and options asks for `key` to have `value`.
pub open spec fn section_asks(
    at: Seq<char>,
    ty: Seq<char>,
    o: Options,
    key: Seq<char>,
    value: Seq<char>,
) -> bool {
    (key == at && value == ty) || options_ask(at, o, o.len(), key, value)
}

pub open spec fn options_ask(
    at: Seq<char>,
    o: Options,
    n: nat,
    key: Seq<char>,
    value: Seq<char>,
) -> bool {
    exists|i: int|
        0 <= i < n && key == at + "."@ + (#[trigger] o[i]).0 && desired_form(o[i].1) == Some(value)
}

/// Whether an entry of a list asks for it, under its type and its position in the list.
pub open spec fn entry_asks(
    config: Seq<char>,
    list: Seq<char>,
    b: Body,
    i: int,
    key: Seq<char>,
    value: Seq<char>,
) -> bool {
    let ty = if b.ty.len() == 0 {
        list
    } else {
        b.ty
    };
    section_asks(
        config + ".@"@ + ty + "["@ + decimal(i as nat) + "]"@,
        ty,
        b.options,
        key,
        value,
    )
}

pub open spec fn declaration_asks(
    config: Seq<char>,
    s: (Seq<char>, Shape),
    key: Seq<char>,
    value: Seq<char>,
) -> bool {
    match s.1 {
        Shape::Named(b) => section_asks(config + "."@ + s.0, b.ty, b.options, key, value),
        Shape::List(b) => exists|i: int|
            0 <= i < b.len() && entry_asks(config, s.0, #[trigger] b[i], i, key, value),
    }
}

pub open spec fn config_asks(
    c: (Seq<char>, Sections),
    n: nat,
    key: Seq<char>,
    value: Seq<char>,
) -> bool {
    exists|i: int| 0 <= i < n && declaration_asks(c.0, #[trigger] c.1[i], key, value)
}

pub open spec fn settings_ask(s: Settings, n: nat, key: Seq<char>, value: Seq<char>) -> bool {
    exists|c: int| 0 <= c < n && config_asks(#[trigger] s[c], s[c].1.len(), key, value)
}

/// Whether a key is there only with a value that was there before or is asked for, and is there
/// wherever one is asked for.
spec fn grown(m: Flat, r: Flat, key: Seq<char>, asks: spec_fn(Seq<char>) -> bool) -> bool {
    &&& r.dom().contains(key) <==> m.dom().contains(key) || exists|v: Seq<char>| #[trigger] asks(v)
    &&& r.dom().contains(key) ==> asks(r[key]) || (m.dom().contains(key) && r[key] == m[key])
}

proof fn lemma_options(m: Flat, at: Seq<char>, o: Options, n: nat, key: Seq<char>)
    requires
        n <= o.len(),
    ensures
        grown(m, flat_options(m, at, o, n), key, |v: Seq<char>| options_ask(at, o, n, key, v)),
    decreases n,
{
    let f = |v: Seq<char>| options_ask(at, o, n, key, v);
    let r = flat_options(m, at, o, n);
    if n > 0 {
        let k = (n - 1) as nat;
        lemma_options(m, at, o, k, key);
        let g = |v: Seq<char>| options_ask(at, o, k, key, v);
        let e = flat_options(m, at, o, k);
        assert forall|v: Seq<char>| #[trigger] g(v) implies f(v) by {}
        let here = at + "."@ + o[n - 1].0;
        if let Some(t) = desired_form(o[n - 1].1) {
            if here == key {
                assert(options_ask(at, o, n, key, t)) by {
                    assert(key == at + "."@ + o[n - 1].0);
                }
                assert(f(t));
            }
        }
        assert forall|v: Seq<char>| #[trigger] f(v) implies g(v) || (here == key && desired_form(
            o[n - 1].1,
        ) == Some(v)) by {
            let i = choose|i: int|
                0 <= i < n && key == at + "."@ + (#[trigger] o[i]).0 && desired_form(o[i].1) == Some(
                    v,
                );
            if i < k {
                assert(key == at + "."@ + o[i].0);
            }
        }
        if exists|v: Seq<char>| #[trigger] g(v) {
            let v = choose|v: Seq<char>| #[trigger] g(v);
            assert(f(v));
        }
        if exists|v: Seq<char>| #[trigger] f(v) {
            let v = choose|v: Seq<char>| #[trigger] f(v);
            assert(g(v) || (here == key && desired_form(o[n - 1].1) == Some(v)));
        }
    } else {
        assert forall|v: Seq<char>| !(#[trigger] f(v)) by {}
    }
}

proof fn lemma_section(m: Flat, at: Seq<char>, ty: Seq<char>, o: Options, key: Seq<char>)
    ensures
        grown(
            m,
            flat_section(m, at, ty, o),
            key,
            |v: Seq<char>| section_asks(at, ty, o, key, v),
        ),
{
    let f = |v: Seq<char>| section_asks(at, ty, o, key, v);
    let g = |v: Seq<char>| options_ask(at, o, o.len(), key, v);
    lemma_options(m.insert(at, ty), at, o, o.len(), key);
    assert forall|v: Seq<char>| #[trigger] g(v) implies f(v) by {}
    if key == at {
        assert(f(ty));
    }
    if exists|v: Seq<char>| #[trigger] g(v) {
        let v = choose|v: Seq<char>| #[trigger] g(v);
        assert(f(v));
    }
    if exists|v: Seq<char>| #[trigger] f(v) {
        let v = choose|v: Seq<char>| #[trigger] f(v);
        assert(g(v) || key == at);
    }
}

proof fn lemma_list(m: Flat, config: Seq<char>, list: Seq<char>, b: Seq<Body>, n: nat, key: Seq<char>)
    requires
        n <= b.len(),
    ensures
        grown(
            m,
            flat_list(m, config, list, b, n),
            key,
            |v: Seq<char>|
                exists|i: int|
                    0 <= i < n && entry_asks(config, list, #[trigger] b[i], i, key, v),
        ),
    decreases n,
{
    let f = |v: Seq<char>|
        exists|i: int| 0 <= i < n && entry_asks(config, list, #[trigger] b[i], i, key, v);
    if n > 0 {
        let k = (n - 1) as nat;
        let g = |v: Seq<char>|
            exists|i: int| 0 <= i < k && entry_asks(config, list, #[trigger] b[i], i, key, v);
        lemma_list(m, config, list, b, k, key);
        let e = flat_list(m, config, list, b, k);
        let body = b[k as int];
        let ty = if body.ty.len() == 0 {
            list
        } else {
            body.ty
        };
        let at = config + ".@"@ + ty + "["@ + decimal(k) + "]"@;
        lemma_section(e, at, ty, body.options, key);
        let h = |v: Seq<char>| section_asks(at, ty, body.options, key, v);
        assert forall|v: Seq<char>| #[trigger] h(v) implies f(v) by {
            assert(entry_asks(config, list, b[k as int], k as int, key, v));
        }
        assert forall|v: Seq<char>| #[trigger] g(v) implies f(v) by {}
        assert forall|v: Seq<char>| #[trigger] f(v) implies g(v) || h(v) by {
            let i = choose|i: int|
                0 <= i < n && entry_asks(config, list, #[trigger] b[i], i, key, v);
            if i < k {
                assert(entry_asks(config, list, b[i], i, key, v));
            }
        }
        lemma_grown_twice(m, e, flat_list(m, config, list, b, n), key, g, h, f);
    } else {
        assert forall|v: Seq<char>| !(#[trigger] f(v)) by {}
    }
}

proof fn lemma_grown_twice(
    m: Flat,
    e: Flat,
    r: Flat,
    key: Seq<char>,
    g: spec_fn(Seq<char>) -> bool,
    h: spec_fn(Seq<char>) -> bool,
    f: spec_fn(Seq<char>) -> bool,
)
    requires
        grown(m, e, key, g),
        grown(e, r, key, h),
        forall|v: Seq<char>| #[trigger] f(v) <==> g(v) || h(v),
    ensures
        grown(m, r, key, f),
{
    if exists|v: Seq<char>| #[trigger] g(v) {
        let v = choose|v: Seq<char>| #[trigger] g(v);
        assert(f(v));
    }
    if exists|v: Seq<char>| #[trigger] h(v) {
        let v = choose|v: Seq<char>| #[trigger] h(v);
        assert(f(v));
    }
    if exists|v: Seq<char>| #[trigger] f(v) {
        let v = choose|v: Seq<char>| #[trigger] f(v);
        assert(g(v) || h(v));
    }
    if r.dom().contains(key) {
        if h(r[key]) {
            assert(f(r[key]));
        } else if g(r[key]) {
            assert(f(r[key]));
        }
    }
}

proof fn lemma_config(m: Flat, c: (Seq<char>, Sections), n: nat, key: Seq<char>)
    requires
        n <= c.1.len(),
    ensures
        grown(m, flat_config(m, c.0, c.1, n), key, |v: Seq<char>| config_asks(c, n, key, v)),
    decreases n,
{
    let f = |v: Seq<char>| config_asks(c, n, key, v);
    if n > 0 {
        let k = (n - 1) as nat;
        let g = |v: Seq<char>| config_asks(c, k, key, v);
        lemma_config(m, c, k, key);
        let e = flat_config(m, c.0, c.1, k);
        let s = c.1[k as int];
        let h = |v: Seq<char>| declaration_asks(c.0, s, key, v);
        match s.1 {
            Shape::Named(b) => {
                lemma_section(e, c.0 + "."@ + s.0, b.ty, b.options, key);
                let x = |v: Seq<char>| section_asks(c.0 + "."@ + s.0, b.ty, b.options, key, v);
                assert forall|v: Seq<char>| #[trigger] h(v) <==> x(v) by {}
                lemma_same_growth(e, flat_declaration(e, c.0, s), key, x, h);
            },
            Shape::List(b) => {
                lemma_list(e, c.0, s.0, b, b.len(), key);
                let x = |v: Seq<char>|
                    exists|i: int|
                        0 <= i < b.len() && entry_asks(c.0, s.0, #[trigger] b[i], i, key, v);
                assert forall|v: Seq<char>| #[trigger] h(v) <==> x(v) by {}
                lemma_same_growth(e, flat_declaration(e, c.0, s), key, x, h);
            },
        }
        assert forall|v: Seq<char>| #[trigger] f(v) <==> g(v) || h(v) by {
            if f(v) {
                let i = choose|i: int| 0 <= i < n && declaration_asks(c.0, #[trigger] c.1[i], key, v);
                if i < k {
                    assert(declaration_asks(c.0, c.1[i], key, v));
                }
            }
            if g(v) {
                let i = choose|i: int| 0 <= i < k && declaration_asks(c.0, #[trigger] c.1[i], key, v);
                assert(declaration_asks(c.0, c.1[i], key, v));
            }
            if h(v) {
                assert(declaration_asks(c.0, c.1[k as int], key, v));
            }
        }
        lemma_grown_twice(m, e, flat_config(m, c.0, c.1, n), key, g, h, f);
    } else {
        assert forall|v: Seq<char>| !(#[trigger] f(v)) by {}
    }
}

proof fn lemma_same_growth(
    m: Flat,
    r: Flat,
    key: Seq<char>,
    x: spec_fn(Seq<char>) -> bool,
    h: spec_fn(Seq<char>) -> bool,
)
    requires
        grown(m, r, key, x),
        forall|v: Seq<char>| #[trigger] h(v) <==> x(v),
    ensures
        grown(m, r, key, h),
{
    if exists|v: Seq<char>| #[trigger] x(v) {
        let v = choose|v: Seq<char>| #[trigger] x(v);
        assert(h(v));
    }
    if exists|v: Seq<char>| #[trigger] h(v) {
        let v = choose|v: Seq<char>| #[trigger] h(v);
        assert(x(v));
    }
    if r.dom().contains(key) && x(r[key]) {
        assert(h(r[key]));
    }
}

proof fn lemma_settings(s: Settings, n: nat, key: Seq<char>)
    requires
        n <= s.len(),
    ensures
        grown(
            Map::empty(),
            flat_settings(s, n),
            key,
            |v: Seq<char>| settings_ask(s, n, key, v),
        ),
    decreases n,
{
    let f = |v: Seq<char>| settings_ask(s, n, key, v);
    if n > 0 {
        let k = (n - 1) as nat;
        let g = |v: Seq<char>| settings_ask(s, k, key, v);
        lemma_settings(s, k, key);
        let e = flat_settings(s, k);
        let c = s[k as int];
        lemma_config(e, c, c.1.len(), key);
        let h = |v: Seq<char>| config_asks(c, c.1.len(), key, v);
        assert forall|v: Seq<char>| #[trigger] f(v) <==> g(v) || h(v) by {
            if f(v) {
                let i = choose|i: int|
                    0 <= i < n && config_asks(#[trigger] s[i], s[i].1.len(), key, v);
                if i < k {
                    assert(config_asks(s[i], s[i].1.len(), key, v));
                }
            }
            if g(v) {
                let i = choose|i: int|
                    0 <= i < k && config_asks(#[trigger] s[i], s[i].1.len(), key, v);
                assert(config_asks(s[i], s[i].1.len(), key, v));
            }
            if h(v) {
                assert(config_asks(s[k as int], s[k as int].1.len(), key, v));
            }
        }
        lemma_grown_twice(Map::empty(), e, flat_settings(s, n), key, g, h, f);
    } else {
        assert forall|v: Seq<char>| !(#[trigger] f(v)) by {}
    }
}

/// A key is asked for if and only if it is that of a declared section or option, and then with the
/// type or the value that is declared there; an option without a value is not asked for.
pub proof fn declared_keys_alone_are_asked_for(s: Settings, key: Seq<char>)
    ensures
        flat_settings(s, s.len()).dom().contains(key) <==> exists|v: Seq<char>|
            settings_ask(s, s.len(), key, v),
        flat_settings(s, s.len()).dom().contains(key) ==> settings_ask(
            s,
            s.len(),
            key,
            flat_settings(s, s.len())[key],
        ),
{
    let f = |v: Seq<char>| settings_ask(s, s.len(), key, v);
    lemma_settings(s, s.len(), key);
    if exists|v: Seq<char>| settings_ask(s, s.len(), key, v) {
        let v = choose|v: Seq<char>| settings_ask(s, s.len(), key, v);
        assert(f(v));
    }
}

} // verus!
