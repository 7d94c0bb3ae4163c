//! What compiling a configuration comes to, and when it fails.

use crate::compile::completeness::{settings_writable, unwritable_values_are_refused};
use crate::compile::packages::package_script;
use crate::compile::pipeline::{
    batch, compile_failure, raw_config, raw_configs, raw_script, touch_lines, verbatim,
};
use crate::compile::plan::settings_script;
use crate::compile::secret_files::{
    all_decrypted, conflict_error, decrypted, member_text, parsed, replaced_by, MemberValue,
    Members, SopsOutcome, SopsRun,
};
use crate::compile::secrets::{interpolated, root_missing, root_resolved, secret_name, Secrets};
use crate::config::models::{Declared, PkgBackend};
use crate::config::rules::{configurations_pass_where_they_meet_the_rules, letter, root_well};
use crate::config::validation::root_fault;
use crate::utils::error::Failure;
use crate::utils::split::words;
use crate::utils::text::{before, find, lemma_find, lemma_find_is, trim, trim_end};
use crate::utils::within::lemma_flat_last;
use vstd::prelude::*;

verus! {

// ---- placeholders ----

/// A name of a secret: letters, digits and underscores.
pub open spec fn names_secret(s: Seq<char>) -> bool {
    s.len() > 0 && forall|i: int|
        0 <= i < s.len() ==> letter(#[trigger] s[i]) || '0' <= s[i] <= '9' || s[i] == '_'
}

proof fn lemma_marks(a: Seq<char>, t: Seq<char>, b: Seq<char>)
    requires
        !a.contains('@'),
        !t.contains('@'),
    ensures
        ({
            let s = a + seq!['@'] + t + seq!['@'] + b;
            let rest = s.skip(a.len() as int + 1);
            &&& find(s, '@') == a.len() < s.len()
            &&& find(rest, '@') == t.len() < rest.len()
            &&& s.take(a.len() as int) == a
            &&& s.take(a.len() as int + 1) == a + seq!['@']
            &&& rest == t + seq!['@'] + b
            &&& rest.take(t.len() as int) == t
            &&& rest.skip(t.len() as int + 1) == b
        }),
{
    let s = a + seq!['@'] + t + seq!['@'] + b;
    let rest = s.skip(a.len() as int + 1);
    assert forall|j: int| 0 <= j < a.len() implies s[j] != '@' by {
        assert(a.contains(a[j]));
    }
    assert(s[a.len() as int] == '@');
    lemma_find_is(s, '@', a.len() as int);
    assert(rest =~= t + seq!['@'] + b);
    assert forall|j: int| 0 <= j < t.len() implies rest[j] != '@' by {
        assert(rest[j] == t[j]);
        assert(t.contains(t[j]));
    }
    assert(rest[t.len() as int] == '@');
    lemma_find_is(rest, '@', t.len() as int);
    assert(s.take(a.len() as int) =~= a);
    assert(s.take(a.len() as int + 1) =~= a + seq!['@']);
    assert(rest.take(t.len() as int) =~= t);
    assert(rest.skip(t.len() as int + 1) =~= b);
}

/// What a text with two marks becomes, given secrets: where a secret goes by the text between
/// them, the secret stands in its place; where the text could only be the name of one, it is an
/// error; else the first mark stands for itself. What follows is resolved in the same way.
pub proof fn marked_texts_are_resolved_in_turn(
    a: Seq<char>,
    t: Seq<char>,
    b: Seq<char>,
    m: Secrets,
)
    requires
        !a.contains('@'),
        !t.contains('@'),
        m != Map::<Seq<char>, Seq<char>>::empty(),
    ensures
        interpolated(a + seq!['@'] + t + seq!['@'] + b, m) == if m.dom().contains(t) {
            match interpolated(b, m) {
                Ok(r) => Ok(a + m[t] + r),
                Err(e) => Err(e),
            }
        } else if names_secret(t) {
            Err(t)
        } else {
            match interpolated(t + seq!['@'] + b, m) {
                Ok(r) => Ok(a + seq!['@'] + r),
                Err(e) => Err(e),
            }
        },
{
    lemma_marks(a, t, b);
    assert(secret_name(t) <==> names_secret(t));
}

/// A text with at most one mark stays as it is.
pub proof fn single_marks_stay(a: Seq<char>, b: Seq<char>, m: Secrets)
    requires
        !a.contains('@'),
        !b.contains('@'),
    ensures
        interpolated(a, m) == Ok::<Seq<char>, Seq<char>>(a),
        interpolated(a + seq!['@'] + b, m) == Ok::<Seq<char>, Seq<char>>(a + seq!['@'] + b),
{
    let s = a + seq!['@'] + b;
    lemma_find(a, '@');
    assert forall|j: int| 0 <= j < a.len() implies s[j] != '@' by {
        assert(a.contains(a[j]));
    }
    assert(s[a.len() as int] == '@');
    lemma_find_is(s, '@', a.len() as int);
    assert(s.skip(a.len() as int + 1) =~= b);
    lemma_find(b, '@');
}

// ---- encrypted secrets ----

/// A secret as text: text as it is, numbers and other values as they are written, truth values as
/// `true` and `false`.
pub proof fn members_are_texts(s: Seq<char>, b: bool)
    ensures
        member_text(MemberValue::Text(s)) == s,
        member_text(MemberValue::Number(s)) == s,
        member_text(MemberValue::Other(s)) == s,
        member_text(MemberValue::Bool(b)) == if b {
            "true"@
        } else {
            "false"@
        },
{
}

/// The last member of a name replaces what was there; what the document does not name stays, and
/// `sops` is never taken.
pub proof fn the_last_member_counts(m: Secrets, v: Members, n: nat, name: Seq<char>, k: int)
    requires
        n <= v.len(),
    ensures
        name == "sops"@ || (forall|j: int| 0 <= j < n ==> (#[trigger] v[j]).0 != name) ==> (
        replaced_by(m, v, n).dom().contains(name) == m.dom().contains(name) && (m.dom().contains(
            name,
        ) ==> replaced_by(m, v, n)[name] == m[name])),
        name != "sops"@ && 0 <= k < n && v[k].0 == name && (forall|j: int|
            k < j < n ==> (#[trigger] v[j]).0 != name) ==> replaced_by(m, v, n).dom().contains(name)
            && replaced_by(m, v, n)[name] == member_text(v[k].1),
    decreases n,
{
    if n > 0 {
        the_last_member_counts(m, v, (n - 1) as nat, name, k);
    }
}

/// Whether a file could not be decrypted or read.
pub open spec fn run_fails(r: SopsRun) -> bool {
    match r.outcome {
        SopsOutcome::Decrypted(bytes) => parsed(bytes@) is Err,
        _ => true,
    }
}

/// The error for a file that could not be decrypted or read.
pub open spec fn run_error(r: SopsRun) -> Seq<char> {
    match r.outcome {
        SopsOutcome::NotFound => "Configured SOPS file not found: "@ + r.file@,
        SopsOutcome::NotRun(why) => "Failed to run sops: "@ + why@,
        SopsOutcome::Failed => "Failed to decrypt sops file: "@ + r.file@,
        SopsOutcome::Decrypted(bytes) => "Failed to parse decrypted JSON: "@
            + parsed(bytes@)->Err_0,
    }
}

/// Files are decrypted in their order, each document replacing what the ones before it gave, up to
/// the first that fails; its error is the outcome.
pub proof fn files_are_decrypted_in_turn(runs: Seq<SopsRun>, n: nat)
    requires
        n < runs.len(),
    ensures
        all_decrypted(runs, 0) == Ok::<Secrets, Failure>(Map::empty()),
        all_decrypted(runs, n + 1) == match all_decrypted(runs, n) {
            Err(e) => Err(e),
            Ok(m) => if run_fails(runs[n as int]) {
                Err(Failure::Sops(run_error(runs[n as int])))
            } else {
                match parsed(runs[n as int].outcome->Decrypted_0@)->Ok_0 {
                    Some(v) => Ok(replaced_by(m, v, v.len())),
                    None => Ok(m),
                }
            },
        },
{
}

/// Decrypting fails if and only if it fails for one of the files.
pub proof fn decryption_fails_where_a_file_does(runs: Seq<SopsRun>, n: nat)
    requires
        n <= runs.len(),
    ensures
        all_decrypted(runs, n) is Err <==> exists|k: int| 0 <= k < n && run_fails(#[trigger] runs[k]),
    decreases n,
{
    if n > 0 {
        decryption_fails_where_a_file_does(runs, (n - 1) as nat);
        files_are_decrypted_in_turn(runs, (n - 1) as nat);
    }
}

/// The error for a secret with two values names the secret and the file that gave the second.
pub proof fn conflicts_are_named(name: Seq<char>, path: Seq<char>)
    ensures
        conflict_error(name, path) == Failure::Validation(
            "Secret key '"@ + name
                + "' conflicts with different values across files. File causing conflict: '"@ + path
                + "'"@,
        ),
{
}

// ---- raw commands ----

/// Whether the file of raw line `i` was already that of a line before it.
pub open spec fn config_seen(lines: Seq<Seq<char>>, i: int) -> bool {
    exists|j: int|
        0 <= j < i && raw_config(#[trigger] lines[j]) is Some && raw_config(lines[j]) == raw_config(
            lines[i],
        )
}

proof fn lemma_raw_configs_contain(lines: Seq<Seq<char>>, n: nat, c: Seq<char>)
    requires
        n <= lines.len(),
    ensures
        raw_configs(lines, n).contains(c) <==> exists|j: int|
            0 <= j < n && raw_config(#[trigger] lines[j]) == Some(c),
    decreases n,
{
    if n > 0 {
        lemma_raw_configs_contain(lines, (n - 1) as nat, c);
        let early = raw_configs(lines, (n - 1) as nat);
        if let Some(last) = raw_config(lines[n - 1]) {
            if !early.contains(last) {
                assert(early.push(last)[early.len() as int] == last);
                if early.contains(c) {
                    let j = choose|j: int| 0 <= j < early.len() && early[j] == c;
                    assert(early.push(last)[j] == c);
                }
            }
        }
    }
}

/// What makes sure of the file of raw line `i`, unless a line before it did.
pub open spec fn raw_touch(lines: Seq<Seq<char>>, i: int) -> Seq<char> {
    match raw_config(lines[i]) {
        Some(c) => if config_seen(lines, i) {
            Seq::empty()
        } else {
            "touch /etc/config/"@ + c + "\n"@
        },
        None => Seq::empty(),
    }
}

proof fn lemma_touches(lines: Seq<Seq<char>>, n: nat)
    requires
        n <= lines.len(),
    ensures
        touch_lines(raw_configs(lines, n)) == Seq::new(n, |i: int| raw_touch(lines, i)).flatten(),
    decreases n,
{
    let p = Seq::new(n, |i: int| raw_touch(lines, i));
    if n > 0 {
        let k = (n - 1) as nat;
        let early = raw_configs(lines, k);
        lemma_touches(lines, k);
        lemma_flat_last(p);
        assert(p.drop_last() =~= Seq::new(k, |i: int| raw_touch(lines, i)));
        match raw_config(lines[n - 1]) {
            Some(c) => {
                lemma_raw_configs_contain(lines, k, c);
                assert(early.contains(c) <==> config_seen(lines, n - 1));
                if !early.contains(c) {
                    assert(early.push(c).drop_last() =~= early);
                    assert(touch_lines(raw_configs(lines, n)) =~= p.drop_last().flatten() + p.last());
                } else {
                    assert(p.drop_last().flatten() + p.last() =~= p.drop_last().flatten());
                }
            },
            None => {
                assert(p.drop_last().flatten() + p.last() =~= p.drop_last().flatten());
            },
        }
    }
}

proof fn lemma_verbatim(lines: Seq<Seq<char>>, n: nat)
    requires
        n <= lines.len(),
    ensures
        verbatim(lines, n) == Seq::new(n, |i: int| trim_end(lines[i]) + "\n"@).flatten(),
    decreases n,
{
    let p = Seq::new(n, |i: int| trim_end(lines[i]) + "\n"@);
    if n > 0 {
        let k = (n - 1) as nat;
        lemma_verbatim(lines, k);
        lemma_flat_last(p);
        assert(p.drop_last() =~= Seq::new(k, |i: int| trim_end(lines[i]) + "\n"@));
        assert(verbatim(lines, n) =~= p.drop_last().flatten() + p.last());
    }
}

/// Every raw command is handed on as it stands, but for white space at its end, in the declared
/// order; before them, every file that one of them writes to is made sure of, once.
pub proof fn every_raw_command_is_handed_on(lines: Seq<Seq<char>>)
    requires
        lines.len() > 0,
    ensures
        ({
            let touches = Seq::new(lines.len(), |i: int| raw_touch(lines, i)).flatten();
            raw_script(Some(lines)) == (if raw_configs(lines, lines.len()).len() == 0 {
                Seq::empty()
            } else {
                "\n# Ensure config files exist for raw UCI lines below\n"@ + touches
            }) + "\n# Raw UCI escape hatch (verbatim)\n"@ + Seq::new(
                lines.len(),
                |i: int| trim_end(lines[i]) + "\n"@,
            ).flatten()
        }),
        raw_configs(lines, lines.len()).len() == 0 <==> forall|i: int|
            0 <= i < lines.len() ==> raw_config(#[trigger] lines[i]) is None,
{
    let n = lines.len();
    lemma_touches(lines, n);
    lemma_verbatim(lines, n);
    let configs = raw_configs(lines, n);
    if configs.len() == 0 {
        assert forall|i: int| 0 <= i < n implies raw_config(#[trigger] lines[i]) is None by {
            if let Some(c) = raw_config(lines[i]) {
                lemma_raw_configs_contain(lines, n, c);
                assert(configs.contains(c));
            }
        }
    } else {
        lemma_raw_configs_contain(lines, n, configs[0]);
        assert(configs.contains(configs[0]));
    }
}

/// `uci set` writes to the file before its first dot, `uci add` to the one in its first word; no
/// other command tells.
pub proof fn raw_commands_tell_their_file(
    line: Seq<char>,
    config: Seq<char>,
    rest: Seq<char>,
)
    ensures
        config.len() > 0 && !config.contains('.') && trim(line) == "uci set "@ + config + "."@
            + rest ==> raw_config(line) == Some(config),
        trim(line) == "uci add "@ + rest ==> raw_config(line) == if words(rest).len() > 0 {
            Some(words(rest)[0])
        } else {
            None
        },
        !"uci set "@.is_prefix_of(trim(line)) && !"uci add "@.is_prefix_of(trim(line))
            ==> raw_config(line) is None,
{
    reveal_strlit("uci set ");
    reveal_strlit("uci add ");
    reveal_strlit(".");
    let t = trim(line);
    if config.len() > 0 && !config.contains('.') && t == "uci set "@ + config + "."@ + rest {
        let r = config + "."@ + rest;
        assert(t =~= "uci set "@ + r);
        assert(t.subrange(0, 8) =~= "uci set "@);
        assert(t.skip(8) =~= r);
        assert forall|j: int| 0 <= j < config.len() implies r[j] != '.' by {
            assert(config.contains(config[j]));
        }
        assert(r[config.len() as int] == '.');
        lemma_find_is(r, '.', config.len() as int);
        assert(before(r, '.') =~= config);
    }
    if t == "uci add "@ + rest {
        assert(t.subrange(0, 8) =~= "uci add "@);
        assert(t.skip(8) =~= rest);
        assert(!"uci set "@.is_prefix_of(t)) by {
            assert(t[4] == 'a');
            if "uci set "@.is_prefix_of(t) {
                assert(t.subrange(0, 8)[4] == "uci set "@[4]);
            }
        }
    }
}

// ---- everything ----

/// The compiled commands: those of the settings, then the raw ones, then those about packages, with
/// the package manager that is named.
pub proof fn commands_are_complete(d: Declared)
    ensures
        batch(d) == settings_script(d.settings, d.settings.len()) + raw_script(d.raw_uci)
            + package_script(
            if d.package_manager == "apk"@ {
                PkgBackend::Apk
            } else {
                PkgBackend::Opkg
            },
            d.package_sources,
            d.packages,
        ),
{
}

/// A configuration is compiled if and only if it meets the rules, asks for no secret that there is
/// not, and, with its secrets in place, holds no value that cannot be written. The first of these
/// that fails is reported.
pub proof fn configurations_compile_where_nothing_is_wrong(d: Declared, m: Secrets)
    ensures
        compile_failure(d, m) is None <==> root_well(d) && root_missing(d, m) is None
            && settings_writable(root_resolved(d, m).settings),
        !root_well(d) ==> root_fault(d) is Some && compile_failure(d, m) == Some(
            Failure::Validation(root_fault(d)->Some_0),
        ),
        root_well(d) && root_missing(d, m) is Some ==> compile_failure(d, m) == Some(
            Failure::Validation(
                "Tried to use secret "@ + root_missing(d, m)->Some_0
                    + ", but no secret with this name specified."@,
            ),
        ),
{
    configurations_pass_where_they_meet_the_rules(d);
    unwritable_values_are_refused(root_resolved(d, m).settings);
}

} // verus!
