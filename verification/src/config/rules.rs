//! Exactly which configurations pass, and which fault of any other is reported.

use crate::config::models::{Body, Content, Declared, Options, Payload, Sections, Settings, Shape};
use crate::config::validation::{
    config_fault, file_fault, files_fault, item_fault, items_fault, list_path, option_fault,
    options_fault, raw_fault, raw_line_fault, root_fault, section_fault, sections_fault,
    settings_fault, valid_identifier, valid_type,
};
use crate::utils::equations::texts_are_found_first;
use crate::utils::split::{contains_text, decimal};
use crate::utils::text::trim;
use crate::utils::within::{lemma_within_is, pieces, within};
use vstd::prelude::*;

verus! {

// ---- names ----

pub open spec fn letter(c: char) -> bool {
    'a' <= c <= 'z' || 'A' <= c <= 'Z'
}

/// A name: letters, digits and underscores, and no digit in front.
pub open spec fn named_well(s: Seq<char>) -> bool {
    &&& s.len() > 0
    &&& letter(s[0]) || s[0] == '_'
    &&& forall|i: int|
        0 <= i < s.len() ==> letter(#[trigger] s[i]) || '0' <= s[i] <= '9' || s[i] == '_'
}

/// A type: letters, digits, underscores and dashes.
pub open spec fn typed_well(s: Seq<char>) -> bool {
    &&& s.len() > 0
    &&& forall|i: int|
        0 <= i < s.len() ==> letter(#[trigger] s[i]) || '0' <= s[i] <= '9' || s[i] == '_' || s[i]
            == '-'
}

/// Which texts are names and types.
pub proof fn names_and_types(s: Seq<char>)
    ensures
        valid_identifier(s) <==> named_well(s),
        valid_type(s) <==> typed_well(s),
{
    if valid_identifier(s) {
        assert(letter(s[0]) || s[0] == '_');
    }
}

// ---- rules ----

pub open spec fn options_well(o: Options) -> bool {
    forall|i: int| 0 <= i < o.len() ==> named_well((#[trigger] o[i]).0) && !(o[i].1 is Null)
}

/// A named section has a name, a type and options; a list has a type for its name, at least one
/// entry, and in each a type and options.
pub open spec fn section_well(s: (Seq<char>, Shape)) -> bool {
    match s.1 {
        Shape::Named(b) => named_well(s.0) && typed_well(b.ty) && options_well(b.options),
        Shape::List(b) => b.len() > 0 && typed_well(s.0) && forall|i: int|
            0 <= i < b.len() ==> typed_well((#[trigger] b[i]).ty) && options_well(b[i].options),
    }
}

pub open spec fn config_well(c: (Seq<char>, Sections)) -> bool {
    named_well(c.0) && forall|i: int| 0 <= i < c.1.len() ==> section_well(#[trigger] c.1[i])
}

pub open spec fn settings_well(s: Settings) -> bool {
    forall|c: int| 0 <= c < s.len() ==> config_well(#[trigger] s[c])
}

/// A raw command is a `uci` command.
pub open spec fn raw_well(line: Seq<char>) -> bool {
    let t = trim(line);
    t.len() >= 4 && t[0] == 'u' && t[1] == 'c' && t[2] == 'i' && t[3] == ' '
}

/// A file has an absolute path without two dots in a row, and its base64 digits are not missing.
pub open spec fn file_well(f: Payload) -> bool {
    &&& f.path.len() > 0 && f.path[0] == '/'
    &&& forall|i: int| 0 <= i < f.path.len() - 1 ==> !(#[trigger] f.path[i] == '.' && f.path[i + 1]
        == '.')
    &&& f.content != Content::Base64(Seq::empty())
}

pub open spec fn root_well(d: Declared) -> bool {
    &&& settings_well(d.settings)
    &&& d.raw_uci matches Some(lines) ==> forall|i: int|
        0 <= i < lines.len() ==> raw_well(#[trigger] lines[i])
    &&& d.files matches Some(files) ==> forall|i: int|
        0 <= i < files.len() ==> file_well(#[trigger] files[i])
}

// ---- proofs ----

proof fn lemma_options(o: Options, i: int, config: Seq<char>, path: Seq<char>)
    requires
        0 <= i <= o.len(),
    ensures
        options_fault(o, i, config, path) is None <==> forall|k: int|
            i <= k < o.len() ==> named_well((#[trigger] o[k]).0) && !(o[k].1 is Null),
    decreases o.len() - i,
{
    if i < o.len() {
        names_and_types(o[i].0);
        lemma_options(o, i + 1, config, path);
    }
}

proof fn lemma_items(b: Seq<Body>, i: int, config: Seq<char>, section: Seq<char>)
    requires
        0 <= i <= b.len(),
    ensures
        items_fault(b, i, config, section) is None <==> forall|k: int|
            i <= k < b.len() ==> typed_well((#[trigger] b[k]).ty) && options_well(b[k].options),
    decreases b.len() - i,
{
    if i < b.len() {
        names_and_types(b[i].ty);
        lemma_options(b[i].options, 0, config, list_path(section, i as nat));
        lemma_items(b, i + 1, config, section);
    }
}

proof fn lemma_sections(s: Sections, i: int, config: Seq<char>)
    requires
        0 <= i <= s.len(),
    ensures
        sections_fault(s, i, config) is None <==> forall|k: int|
            i <= k < s.len() ==> section_well(#[trigger] s[k]),
    decreases s.len() - i,
{
    if i < s.len() {
        names_and_types(s[i].0);
        match s[i].1 {
            Shape::Named(b) => {
                names_and_types(b.ty);
                lemma_options(b.options, 0, config, s[i].0);
            },
            Shape::List(b) => {
                lemma_items(b, 0, config, s[i].0);
            },
        }
        lemma_sections(s, i + 1, config);
    }
}

proof fn lemma_settings(s: Settings, i: int)
    requires
        0 <= i <= s.len(),
    ensures
        settings_fault(s, i) is None <==> forall|k: int|
            i <= k < s.len() ==> config_well(#[trigger] s[k]),
    decreases s.len() - i,
{
    if i < s.len() {
        names_and_types(s[i].0);
        lemma_sections(s[i].1, 0, s[i].0);
        lemma_settings(s, i + 1);
    }
}

proof fn lemma_raw_line(line: Seq<char>, i: nat)
    ensures
        raw_line_fault(line, i) is None <==> raw_well(line),
{
    reveal_strlit("uci ");
    let t = trim(line);
    if raw_well(line) {
        assert(t.subrange(0, 4) =~= "uci "@);
    }
    if "uci "@.is_prefix_of(t) {
        let p = t.subrange(0, 4);
        assert(p[0] == t[0] && p[1] == t[1] && p[2] == t[2] && p[3] == t[3]);
    }
}

proof fn lemma_raw(lines: Seq<Seq<char>>, i: int)
    requires
        0 <= i <= lines.len(),
    ensures
        raw_fault(lines, i) is None <==> forall|k: int|
            i <= k < lines.len() ==> raw_well(#[trigger] lines[k]),
    decreases lines.len() - i,
{
    if i < lines.len() {
        lemma_raw_line(lines[i], i as nat);
        lemma_raw(lines, i + 1);
    }
}

proof fn lemma_dots(path: Seq<char>)
    ensures
        contains_text(path, ".."@) <==> exists|i: int|
            0 <= i < path.len() - 1 && #[trigger] path[i] == '.' && path[i + 1] == '.',
{
    reveal_strlit("..");
    texts_are_found_first(path, ".."@);
    if within(path, ".."@) {
        let (a, b) = choose|a: Seq<char>, b: Seq<char>| pieces(path, a, ".."@, b);
        let k = a.len() as int;
        assert(path[k] == (a + ".."@ + b)[k]);
        assert(path[k + 1] == (a + ".."@ + b)[k + 1]);
    }
    if exists|i: int| 0 <= i < path.len() - 1 && #[trigger] path[i] == '.' && path[i + 1] == '.' {
        let i = choose|i: int|
            0 <= i < path.len() - 1 && #[trigger] path[i] == '.' && path[i + 1] == '.';
        assert(path =~= path.take(i) + ".."@ + path.skip(i + 2));
        lemma_within_is(path, path.take(i), ".."@, path.skip(i + 2));
    }
}

proof fn lemma_file(f: Payload, i: nat)
    ensures
        file_fault(f, i) is None <==> file_well(f),
{
    reveal_strlit("/");
    lemma_dots(f.path);
    if f.path.len() > 0 && f.path[0] == '/' {
        assert(f.path.subrange(0, 1) =~= "/"@);
    } else if "/"@.is_prefix_of(f.path) {
        assert(f.path.subrange(0, 1)[0] == "/"@[0]);
    }
}

proof fn lemma_files(files: Seq<Payload>, i: int)
    requires
        0 <= i <= files.len(),
    ensures
        files_fault(files, i) is None <==> forall|k: int|
            i <= k < files.len() ==> file_well(#[trigger] files[k]),
    decreases files.len() - i,
{
    if i < files.len() {
        lemma_file(files[i], i as nat);
        lemma_files(files, i + 1);
    }
}

// ---- laws ----

/// Settings pass if and only if they meet every rule.
pub proof fn settings_pass_where_they_meet_the_rules(s: Settings)
    ensures
        settings_fault(s, 0) is None <==> settings_well(s),
{
    lemma_settings(s, 0);
}

/// A configuration passes if and only if it meets every rule.
pub proof fn configurations_pass_where_they_meet_the_rules(d: Declared)
    ensures
        root_fault(d) is None <==> root_well(d),
{
    lemma_settings(d.settings, 0);
    if let Some(lines) = d.raw_uci {
        lemma_raw(lines, 0);
    }
    if let Some(files) = d.files {
        lemma_files(files, 0);
    }
}

/// Settings are looked at before raw commands, and those before files: what is reported is a fault
/// of the first of them that has one.
pub proof fn faults_are_reported_in_order(d: Declared)
    ensures
        !settings_well(d.settings) ==> root_fault(d) == settings_fault(d.settings, 0),
        settings_well(d.settings) ==> (d.raw_uci matches Some(lines) ==> (raw_fault(
            lines,
            0,
        ) is Some ==> root_fault(d) == raw_fault(lines, 0))),
{
    lemma_settings(d.settings, 0);
}

proof fn lemma_first_option(o: Options, i: int, k: int, config: Seq<char>, path: Seq<char>)
    requires
        0 <= i <= k < o.len(),
        forall|j: int| i <= j < k ==> option_fault(#[trigger] o[j], config, path) is None,
        option_fault(o[k], config, path) is Some,
    ensures
        options_fault(o, i, config, path) == option_fault(o[k], config, path),
    decreases k - i,
{
    if i < k {
        assert(option_fault(o[i], config, path) is None);
        lemma_first_option(o, i + 1, k, config, path);
    }
}

/// The first option that breaks a rule is reported, by its name and its section.
pub proof fn the_first_faulty_option_is_named(
    o: Options,
    k: int,
    config: Seq<char>,
    path: Seq<char>,
)
    requires
        0 <= k < o.len(),
        forall|j: int| 0 <= j < k ==> named_well((#[trigger] o[j]).0) && !(o[j].1 is Null),
        !named_well(o[k].0) || o[k].1 is Null,
    ensures
        options_fault(o, 0, config, path) == Some(
            if !named_well(o[k].0) {
                "Invalid option '"@ + o[k].0 + "' in "@ + config + "."@ + path
                    + ": only [a-zA-Z0-9_] allowed"@
            } else {
                config + "."@ + path + "."@ + o[k].0 + " has null value"@
            },
        ),
{
    names_and_types(o[k].0);
    assert forall|j: int| 0 <= j < k implies option_fault(#[trigger] o[j], config, path) is None by {
        names_and_types(o[j].0);
    }
    lemma_first_option(o, 0, k, config, path);
}

proof fn lemma_first_item(b: Seq<Body>, i: int, k: int, config: Seq<char>, section: Seq<char>)
    requires
        0 <= i <= k < b.len(),
        forall|j: int|
            i <= j < k ==> typed_well((#[trigger] b[j]).ty) && options_well(b[j].options),
        !typed_well(b[k].ty) || !options_well(b[k].options),
    ensures
        items_fault(b, i, config, section) == item_fault(b[k], k as nat, config, section),
        item_fault(b[k], k as nat, config, section) is Some,
    decreases k - i,
{
    names_and_types(b[i].ty);
    lemma_options(b[i].options, 0, config, list_path(section, i as nat));
    if i < k {
        assert(typed_well(b[i].ty));
        lemma_first_item(b, i + 1, k, config, section);
    }
}

/// The first entry that breaks a rule is reported, under its position in the list: its type, or
/// else its first faulty option.
pub proof fn the_first_faulty_entry_is_named(
    b: Seq<Body>,
    k: int,
    config: Seq<char>,
    section: Seq<char>,
)
    requires
        0 <= k < b.len(),
        forall|j: int|
            0 <= j < k ==> typed_well((#[trigger] b[j]).ty) && options_well(b[j].options),
        !typed_well(b[k].ty) || !options_well(b[k].options),
    ensures
        ({
            let path = "@"@ + section + "["@ + decimal(k as nat) + "]"@;
            items_fault(b, 0, config, section) == if !typed_well(b[k].ty) {
                Some("Invalid type '"@ + b[k].ty + "' in "@ + config + "."@ + path)
            } else {
                options_fault(b[k].options, 0, config, path)
            }
        }),
{
    names_and_types(b[k].ty);
    lemma_first_item(b, 0, k, config, section);
}

proof fn lemma_first_section(s: Sections, i: int, k: int, config: Seq<char>)
    requires
        0 <= i <= k < s.len(),
        forall|j: int| i <= j < k ==> section_well(#[trigger] s[j]),
        !section_well(s[k]),
    ensures
        sections_fault(s, i, config) == section_fault(s[k], config),
        section_fault(s[k], config) is Some,
    decreases k - i,
{
    lemma_one_section(s[i], config);
    if i < k {
        assert(section_well(s[i]));
        lemma_first_section(s, i + 1, k, config);
    }
}

proof fn lemma_one_section(s: (Seq<char>, Shape), config: Seq<char>)
    ensures
        section_fault(s, config) is None <==> section_well(s),
{
    let one = seq![s];
    lemma_sections(one, 0, config);
    reveal_with_fuel(sections_fault, 2);
    assert(one[0] == s);
    assert(section_well(s) <==> forall|k: int| 0 <= k < one.len() ==> section_well(#[trigger] one[k]));
}

/// The first declaration that breaks a rule is reported, by its name and its file: an empty list, a
/// name or a type that is none, or what is wrong inside.
pub proof fn the_first_faulty_section_is_named(s: Sections, k: int, config: Seq<char>)
    requires
        0 <= k < s.len(),
        forall|j: int| 0 <= j < k ==> section_well(#[trigger] s[j]),
        !section_well(s[k]),
    ensures
        sections_fault(s, 0, config) == match s[k].1 {
            Shape::List(b) => if b.len() == 0 {
                Some(
                    "Empty list section '"@ + s[k].0 + "' in config '"@ + config
                        + "' is not supported: its UCI type cannot be determined. To remove a section, omit it from your Nix configuration."@,
                )
            } else if !typed_well(s[k].0) {
                Some(
                    "Invalid list identifier '"@ + s[k].0 + "' in config '"@ + config
                        + "': only [a-zA-Z0-9_-] allowed"@,
                )
            } else {
                items_fault(b, 0, config, s[k].0)
            },
            Shape::Named(b) => if !named_well(s[k].0) {
                Some(
                    "Invalid section '"@ + s[k].0 + "' in config '"@ + config
                        + "': only [a-zA-Z0-9_] allowed (no digits at start)"@,
                )
            } else if !typed_well(b.ty) {
                Some("Invalid type '"@ + b.ty + "' in "@ + config + "."@ + s[k].0)
            } else {
                options_fault(b.options, 0, config, s[k].0)
            },
        },
{
    names_and_types(s[k].0);
    if let Shape::Named(b) = s[k].1 {
        names_and_types(b.ty);
    }
    lemma_first_section(s, 0, k, config);
}

proof fn lemma_first_config(s: Settings, i: int, k: int)
    requires
        0 <= i <= k < s.len(),
        forall|j: int| i <= j < k ==> config_well(#[trigger] s[j]),
        !config_well(s[k]),
    ensures
        settings_fault(s, i) == config_fault(s[k]),
    decreases k - i,
{
    names_and_types(s[i].0);
    lemma_sections(s[i].1, 0, s[i].0);
    if i < k {
        assert(config_well(s[i]));
        lemma_first_config(s, i + 1, k);
    }
}

/// The first configuration file that breaks a rule is reported: its name, or what is wrong inside.
pub proof fn the_first_faulty_file_is_named(s: Settings, k: int)
    requires
        0 <= k < s.len(),
        forall|j: int| 0 <= j < k ==> config_well(#[trigger] s[j]),
        !config_well(s[k]),
    ensures
        settings_fault(s, 0) == if !named_well(s[k].0) {
            Some(
                "Invalid config name '"@ + s[k].0
                    + "': only [a-zA-Z0-9_] allowed (no digits at start)"@,
            )
        } else {
            sections_fault(s[k].1, 0, s[k].0)
        },
{
    names_and_types(s[k].0);
    lemma_first_config(s, 0, k);
}

proof fn lemma_first_raw(lines: Seq<Seq<char>>, i: int, k: int)
    requires
        0 <= i <= k < lines.len(),
        forall|j: int| i <= j < k ==> raw_well(#[trigger] lines[j]),
        !raw_well(lines[k]),
    ensures
        raw_fault(lines, i) == raw_line_fault(lines[k], k as nat),
    decreases k - i,
{
    lemma_raw_line(lines[i], i as nat);
    if i < k {
        assert(raw_well(lines[i]));
        lemma_first_raw(lines, i + 1, k);
    }
}

/// The first raw line that is no `uci` command is reported under its position.
pub proof fn the_first_faulty_raw_line_is_named(lines: Seq<Seq<char>>, k: int)
    requires
        0 <= k < lines.len(),
        forall|j: int| 0 <= j < k ==> raw_well(#[trigger] lines[j]),
        !raw_well(lines[k]),
    ensures
        raw_fault(lines, 0) == Some(
            "rawUci["@ + decimal(k as nat) + if trim(lines[k]).len() == 0 {
                "] is empty"@
            } else {
                "] must be a 'uci' command, got: "@ + trim(lines[k])
            },
        ),
{
    lemma_raw_line(lines[k], k as nat);
    lemma_first_raw(lines, 0, k);
    assert(raw_fault(lines, 0)->Some_0 =~= "rawUci["@ + decimal(k as nat) + if trim(
        lines[k],
    ).len() == 0 {
        "] is empty"@
    } else {
        "] must be a 'uci' command, got: "@ + trim(lines[k])
    });
}

proof fn lemma_first_file(files: Seq<Payload>, i: int, k: int)
    requires
        0 <= i <= k < files.len(),
        forall|j: int| i <= j < k ==> file_well(#[trigger] files[j]),
        !file_well(files[k]),
    ensures
        files_fault(files, i) == file_fault(files[k], k as nat),
    decreases k - i,
{
    lemma_file(files[i], i as nat);
    if i < k {
        assert(file_well(files[i]));
        lemma_first_file(files, i + 1, k);
    }
}

/// The first file that breaks a rule is reported under its position: a path that is not absolute,
/// else one that leads elsewhere, else missing digits.
pub proof fn the_first_faulty_payload_is_named(files: Seq<Payload>, k: int)
    requires
        0 <= k < files.len(),
        forall|j: int| 0 <= j < k ==> file_well(#[trigger] files[j]),
        !file_well(files[k]),
    ensures
        ({
            let path = files[k].path;
            let at = "files["@ + decimal(k as nat);
            files_fault(files, 0) == Some(
                if path.len() == 0 || path[0] != '/' {
                    at + "].path must be absolute, got: "@ + path
                } else if exists|i: int|
                    0 <= i < path.len() - 1 && #[trigger] path[i] == '.' && path[i + 1] == '.' {
                    at + "].path must not contain '..': "@ + path
                } else {
                    at + "].path="@ + path + " has empty content"@
                },
            )
        }),
{
    reveal_strlit("/");
    let path = files[k].path;
    lemma_file(files[k], k as nat);
    lemma_dots(path);
    lemma_first_file(files, 0, k);
    if path.len() > 0 && path[0] == '/' {
        assert(path.subrange(0, 1) =~= "/"@);
    } else if "/"@.is_prefix_of(path) {
        assert(path.subrange(0, 1)[0] == "/"@[0]);
    }
}

} // verus!
