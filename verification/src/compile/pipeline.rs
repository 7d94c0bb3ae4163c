//! From a configuration to the commands that set it up.

use crate::compile::generator::serialize_uci;
use crate::compile::packages::{package_script, serialize_package_management};
use crate::compile::plan::{sections_refused, settings_refused, settings_script, settings_written};
use crate::compile::secrets::{
    missing_secret, resolve_secrets, root_missing, root_resolved, Secrets,
};
use crate::config::models::{backend_named, Declared, PkgBackend, Root, Settings};
use crate::config::validation::{root_fault, validate_root};
use crate::utils::error::{ConfigError, Failure};
use crate::utils::split::{split_words, strip_prefix, without_prefix, words};
use crate::utils::text::{
    before, has_item, text_before, texts, trim, trim_end, trimmed, trimmed_end,
};
use crate::utils::text_map::TextMap;
use vstd::prelude::*;

verus! {

// ---- raw commands ----

/// The configuration file that a raw command writes to: `uci set` names it before the first dot,
/// `uci add` in its first word.
pub open spec fn raw_config(line: Seq<char>) -> Option<Seq<char>> {
    let t = trim(line);
    match strip_prefix(t, "uci set "@) {
        Some(rest) => if before(rest, '.').len() > 0 {
            Some(before(rest, '.'))
        } else {
            None
        },
        None => match strip_prefix(t, "uci add "@) {
            Some(rest) => if words(rest).len() > 0 {
                Some(words(rest)[0])
            } else {
                None
            },
            None => None,
        },
    }
}

/// The configuration files that the first `n` raw commands write to, each of them once.
pub open spec fn raw_configs(lines: Seq<Seq<char>>, n: nat) -> Seq<Seq<char>>
    decreases n,
{
    if n == 0 || n > lines.len() {
        Seq::empty()
    } else {
        let earlier = raw_configs(lines, (n - 1) as nat);
        match raw_config(lines[n - 1]) {
            Some(c) => if earlier.contains(c) {
                earlier
            } else {
                earlier.push(c)
            },
            None => earlier,
        }
    }
}

/// The lines that make sure that configuration files exist.
pub open spec fn touch_lines(configs: Seq<Seq<char>>) -> Seq<char>
    decreases configs.len(),
{
    if configs.len() == 0 {
        Seq::empty()
    } else {
        touch_lines(configs.drop_last()) + "touch /etc/config/"@ + configs.last() + "\n"@
    }
}

/// The first `n` raw commands as they stand.
pub open spec fn verbatim(lines: Seq<Seq<char>>, n: nat) -> Seq<char>
    decreases n,
{
    if n == 0 || n > lines.len() {
        Seq::empty()
    } else {
        verbatim(lines, (n - 1) as nat) + trim_end(lines[n - 1]) + "\n"@
    }
}

/// The script for the raw commands: the files that they write to, then the commands.
pub open spec fn raw_script(raw: Option<Seq<Seq<char>>>) -> Seq<char> {
    match raw {
        Some(lines) => if lines.len() == 0 {
            Seq::empty()
        } else {
            let configs = raw_configs(lines, lines.len());
            let touched = if configs.len() == 0 {
                Seq::empty()
            } else {
                "\n# Ensure config files exist for raw UCI lines below\n"@ + touch_lines(configs)
            };
            touched + "\n# Raw UCI escape hatch (verbatim)\n"@ + verbatim(lines, lines.len())
        },
        None => Seq::empty(),
    }
}

fn raw_config_of(line: &str) -> (r: Option<String>)
    ensures
        match (r, raw_config(line@)) {
            (Some(t), Some(u)) => t@ == u,
            (None, None) => true,
            _ => false,
        },
{
    let t = trimmed(line);
    if let Some(rest) = without_prefix(t.as_str(), "uci set ") {
        let config = text_before(rest.as_str(), '.');
        if config.as_str().is_empty() {
            return None;
        }
        return Some(config);
    }
    if let Some(rest) = without_prefix(t.as_str(), "uci add ") {
        let list = split_words(rest.as_str());
        if list.len() > 0 {
            assert(texts(list@)[0] == list@[0]@);
            return Some(list[0].clone());
        }
    }
    None
}

fn raw_configs_of(lines: &Vec<String>) -> (r: Vec<String>)
    ensures
        texts(r@) == raw_configs(texts(lines@), lines@.len()),
{
    let ghost all = texts(lines@);
    let mut out: Vec<String> = Vec::new();
    let mut i: usize = 0;
    assert(texts(out@) =~= raw_configs(all, 0));
    while i < lines.len()
        invariant
            i <= lines@.len() == all.len(),
            all == texts(lines@),
            texts(out@) == raw_configs(all, i as nat),
        decreases lines@.len() - i,
    {
        let ghost earlier = texts(out@);
        if let Some(c) = raw_config_of(lines[i].as_str()) {
            if !has_item(&out, c.as_str()) {
                out.push(c);
                assert(texts(out@) =~= earlier.push(c@));
            }
        }
        i += 1;
    }
    out
}

fn touch_text(configs: &Vec<String>) -> (r: String)
    ensures
        r@ == touch_lines(texts(configs@)),
{
    let ghost all = texts(configs@);
    let mut s = String::new();
    let mut i: usize = 0;
    assert(s@ =~= touch_lines(all.take(0)));
    while i < configs.len()
        invariant
            i <= configs@.len() == all.len(),
            all == texts(configs@),
            s@ == touch_lines(all.take(i as int)),
        decreases configs@.len() - i,
    {
        s.append("touch /etc/config/");
        s.append(configs[i].as_str());
        s.append("\n");
        proof {
            assert(all.take(i + 1).drop_last() =~= all.take(i as int));
            assert(all.take(i + 1).last() == configs@[i as int]@);
        }
        i += 1;
    }
    assert(all.take(i as int) =~= all);
    s
}

/// Writes the raw commands.
pub fn serialize_raw(writer: &mut String, lines: &Vec<String>)
    ensures
        final(writer)@ == old(writer)@ + raw_script(Some(texts(lines@))),
{
    let ghost all = texts(lines@);
    if lines.len() == 0 {
        assert(writer@ =~= writer@ + raw_script(Some(all)));
        return;
    }
    let mut s = String::new();
    let configs = raw_configs_of(lines);
    if configs.len() > 0 {
        s.append("\n# Ensure config files exist for raw UCI lines below\n");
        s.append(touch_text(&configs).as_str());
    }
    s.append("\n# Raw UCI escape hatch (verbatim)\n");
    let ghost head = s@;
    let mut i: usize = 0;
    assert(s@ =~= head + verbatim(all, 0));
    while i < lines.len()
        invariant
            i <= lines@.len() == all.len(),
            all == texts(lines@),
            s@ == head + verbatim(all, i as nat),
        decreases lines@.len() - i,
    {
        s.append(trimmed_end(lines[i].as_str()).as_str());
        s.append("\n");
        assert(s@ =~= head + verbatim(all, (i + 1) as nat));
        i += 1;
    }
    assert(s@ =~= raw_script(Some(all)));
    writer.append(s.as_str());
}

// ---- everything ----

/// A configuration that was compiled.
pub struct CompiledConfig {
    pub uci_batch: String,
    pub resolved_root: Root,
    pub secrets: TextMap<String>,
}

/// The commands for a configuration whose secrets are in place: its settings, then its raw
/// commands, then its packages.
pub open spec fn batch(d: Declared) -> Seq<char> {
    settings_script(d.settings, d.settings.len()) + raw_script(d.raw_uci) + package_script(
        backend_named(d.package_manager),
        d.package_sources,
        d.packages,
    )
}

/// Why a configuration cannot be compiled: it breaks a rule, it asks for a secret that there is
/// not, or it holds a value that cannot be written.
pub open spec fn compile_failure(d: Declared, m: Secrets) -> Option<Failure> {
    match root_fault(d) {
        Some(msg) => Some(Failure::Validation(msg)),
        None => match root_missing(d, m) {
            Some(name) => Some(missing_secret(name)),
            None => match settings_refused(root_resolved(d, m).settings) {
                Some(msg) => Some(Failure::Validation(msg)),
                None => None,
            },
        },
    }
}

/// Compiles a configuration with its secrets.
pub fn compile_config(root: Root, secrets: TextMap<String>) -> (r: Result<
    CompiledConfig,
    ConfigError,
>)
    ensures
        match (r, compile_failure(root@, secrets@)) {
            (Ok(c), None) => {
                &&& c.resolved_root@ == root_resolved(root@, secrets@)
                &&& c.uci_batch@ == batch(root_resolved(root@, secrets@))
                &&& c.secrets@ == secrets@
            },
            (Err(e), Some(f)) => e@ == f,
            _ => false,
        },
{
    match validate_root(&root) {
        Ok(_) => {},
        Err(e) => {
            return Err(e);
        },
    }
    let resolved_root = match resolve_secrets(root, &secrets) {
        Ok(x) => x,
        Err(e) => {
            return Err(e);
        },
    };
    let ghost d = resolved_root@;
    let mut uci_batch = String::new();
    match serialize_uci(&mut uci_batch, &resolved_root.settings) {
        Ok(_) => {},
        Err(e) => {
            return Err(e);
        },
    }
    proof {
        lemma_all_written(d.settings, 0);
        assert(uci_batch@ =~= settings_script(d.settings, d.settings.len()));
    }
    if let Some(lines) = &resolved_root.raw_uci {
        serialize_raw(&mut uci_batch, lines);
    }
    assert(uci_batch@ =~= settings_script(d.settings, d.settings.len()) + raw_script(d.raw_uci));
    let backend = PkgBackend::from_name(resolved_root.package_manager.as_str());
    let written = serialize_package_management(
        &mut uci_batch,
        backend,
        resolved_root.package_sources.as_ref(),
        resolved_root.packages.as_ref(),
    );
    match written {
        Ok(_) => {},
        Err(e) => {
            return Err(e);
        },
    }
    Ok(CompiledConfig { uci_batch, resolved_root, secrets })
}

/// Where no value is refused, every file is written.
proof fn lemma_all_written(s: Settings, i: int)
    requires
        settings_refused(s) is None,
        0 <= i <= s.len(),
        settings_written(s, 0) == settings_written(s, i),
    ensures
        settings_written(s, 0) == s.len(),
    decreases s.len() - i,
{
    if i < s.len() {
        if sections_refused(s[i].1, 0) is None {
            lemma_all_written(s, i + 1);
        }
    }
}

// ---- laws ----

/// Every file that a raw command writes to is created before the raw commands run, each of them
/// once.
pub proof fn raw_configs_are_touched(lines: Seq<Seq<char>>, n: nat, i: int)
    requires
        0 <= i < n <= lines.len(),
    ensures
        raw_config(lines[i]) matches Some(c) ==> raw_configs(lines, n).contains(c),
        raw_configs(lines, n).no_duplicates(),
    decreases n,
{
    let earlier = raw_configs(lines, (n - 1) as nat);
    if n > 1 {
        raw_configs_are_touched(
            lines,
            (n - 1) as nat,
            if i < n - 1 {
                i
            } else {
                0
            },
        );
    } else {
        assert(earlier =~= Seq::empty());
    }
    if let Some(last) = raw_config(lines[n - 1]) {
        assert(earlier.push(last)[earlier.len() as int] == last);
        if let Some(c) = raw_config(lines[i]) {
            if earlier.contains(c) {
                let k = choose|k: int| 0 <= k < earlier.len() && earlier[k] == c;
                assert(earlier.push(last)[k] == c);
            }
        }
    }
}

/// A configuration without raw commands, or with an empty list of them, leaves no trace of any.
pub proof fn no_raw_commands_no_trace(d: Declared)
    requires
        d.raw_uci is None || d.raw_uci == Some(Seq::<Seq<char>>::empty()),
    ensures
        batch(d) == settings_script(d.settings, d.settings.len()) + package_script(
            backend_named(d.package_manager),
            d.package_sources,
            d.packages,
        ),
{
    assert(settings_script(d.settings, d.settings.len()) + raw_script(d.raw_uci)
        =~= settings_script(d.settings, d.settings.len()));
}

} // verus!
