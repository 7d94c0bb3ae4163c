//! The rules that a configuration has to meet before anything is made of it.

use crate::config::models::{
    bodies, list_configs, list_options, list_sections, option_entries, payloads, section_entries,
    Body, Content, Declared, File, FileContent, Json, Options, Payload, Root, Section, SectionData,
    Sections, Settings, Shape, Value,
};
use crate::utils::error::{ConfigError, Failure};
use crate::utils::split::{contains_text, decimal, decimal_text, has_prefix, has_text};
use crate::utils::text::{
    ascii_alphanumeric, ascii_digit, chars_of, is_ascii_alphanumeric, is_ascii_digit, texts, trim,
    trimmed,
};
use indexmap::IndexMap;
use vstd::prelude::*;

verus! {

/// A name of a configuration file, of a section or of an option.
pub open spec fn valid_identifier(s: Seq<char>) -> bool {
    &&& s.len() > 0
    &&& !ascii_digit(s[0])
    &&& forall|i: int| 0 <= i < s.len() ==> ascii_alphanumeric(#[trigger] s[i]) || s[i] == '_'
}

/// A section's type.
pub open spec fn valid_type(s: Seq<char>) -> bool {
    &&& s.len() > 0
    &&& forall|i: int|
        0 <= i < s.len() ==> ascii_alphanumeric(#[trigger] s[i]) || s[i] == '_' || s[i] == '-'
}

#[verifier::loop_isolation(false)]
pub fn is_valid_uci_identifier(s: &str) -> (r: bool)
    ensures
        r == valid_identifier(s@),
{
    let v = chars_of(s);
    if v.len() == 0 || is_ascii_digit(v[0]) {
        return false;
    }
    let mut i: usize = 0;
    while i < v.len()
        invariant
            i <= v@.len(),
            forall|j: int| 0 <= j < i ==> ascii_alphanumeric(#[trigger] v@[j]) || v@[j] == '_',
        decreases v@.len() - i,
    {
        if !(is_ascii_alphanumeric(v[i]) || v[i] == '_') {
            return false;
        }
        i += 1;
    }
    true
}

#[verifier::loop_isolation(false)]
pub fn is_valid_uci_type(s: &str) -> (r: bool)
    ensures
        r == valid_type(s@),
{
    let v = chars_of(s);
    if v.len() == 0 {
        return false;
    }
    let mut i: usize = 0;
    while i < v.len()
        invariant
            i <= v@.len(),
            forall|j: int|
                0 <= j < i ==> ascii_alphanumeric(#[trigger] v@[j]) || v@[j] == '_' || v@[j] == '-',
        decreases v@.len() - i,
    {
        if !(is_ascii_alphanumeric(v[i]) || v[i] == '_' || v[i] == '-') {
            return false;
        }
        i += 1;
    }
    true
}

/// Whether a check passed where there is no fault, and named the fault where there is one.
pub open spec fn reports(r: Result<(), ConfigError>, fault: Option<Seq<char>>) -> bool {
    match (r, fault) {
        (Ok(_), None) => true,
        (Err(e), Some(m)) => e@ == Failure::Validation(m),
        _ => false,
    }
}

// ---- options ----

/// What is wrong with one option of the section at `path`.
pub open spec fn option_fault(o: (Seq<char>, Json), config: Seq<char>, path: Seq<char>) -> Option<
    Seq<char>,
> {
    if !valid_identifier(o.0) {
        Some(
            "Invalid option '"@ + o.0 + "' in "@ + config + "."@ + path
                + ": only [a-zA-Z0-9_] allowed"@,
        )
    } else if o.1 is Null {
        Some(config + "."@ + path + "."@ + o.0 + " has null value"@)
    } else {
        None
    }
}

/// The first fault among the options from position `i` on.
pub open spec fn options_fault(o: Options, i: int, config: Seq<char>, path: Seq<char>) -> Option<
    Seq<char>,
>
    decreases o.len() - i,
{
    if i < 0 || i >= o.len() {
        None
    } else {
        match option_fault(o[i], config, path) {
            Some(m) => Some(m),
            None => options_fault(o, i + 1, config, path),
        }
    }
}

fn validate_option(name: &str, value: &Value, config_name: &str, section_path: &str) -> (r: Result<
    (),
    ConfigError,
>)
    ensures
        reports(r, option_fault((name@, value@), config_name@, section_path@)),
{
    if !is_valid_uci_identifier(name) {
        let mut m = "Invalid option '".to_owned();
        m.append(name);
        m.append("' in ");
        m.append(config_name);
        m.append(".");
        m.append(section_path);
        m.append(": only [a-zA-Z0-9_] allowed");
        return Err(ConfigError::Validation(m));
    }
    if let Value::Null = value {
        let mut m = config_name.to_owned();
        m.append(".");
        m.append(section_path);
        m.append(".");
        m.append(name);
        m.append(" has null value");
        return Err(ConfigError::Validation(m));
    }
    Ok(())
}

pub fn validate_section_options(
    options: &IndexMap<String, Value>,
    config_name: &str,
    section_path: &str,
) -> (r: Result<(), ConfigError>)
    ensures
        reports(r, options_fault(option_entries(*options), 0, config_name@, section_path@)),
{
    let list = list_options(options);
    let ghost o = option_entries(*options);
    let mut i: usize = 0;
    while i < list.len()
        invariant
            i <= list@.len() == o.len(),
            o == option_entries(*options),
            forall|k: int|
                0 <= k < list@.len() ==> (#[trigger] list@[k]).0@ == o[k].0 && list@[k].1@
                    == o[k].1,
            options_fault(o, 0, config_name@, section_path@) == options_fault(
                o,
                i as int,
                config_name@,
                section_path@,
            ),
        decreases list@.len() - i,
    {
        let (name, value) = list[i];
        assert(o[i as int] == (name@, value@));
        match validate_option(name.as_str(), value, config_name, section_path) {
            Ok(_) => {},
            Err(e) => {
                return Err(e);
            },
        }
        i += 1;
    }
    Ok(())
}

// ---- sections ----

/// How an entry of a list of sections is referred to.
pub open spec fn list_path(section: Seq<char>, i: nat) -> Seq<char> {
    "@"@ + section + "["@ + decimal(i) + "]"@
}

/// What is wrong with entry `i` of a list of sections.
pub open spec fn item_fault(b: Body, i: nat, config: Seq<char>, section: Seq<char>) -> Option<
    Seq<char>,
> {
    if !valid_type(b.ty) {
        Some("Invalid type '"@ + b.ty + "' in "@ + config + "."@ + list_path(section, i))
    } else {
        options_fault(b.options, 0, config, list_path(section, i))
    }
}

/// The first fault among the entries from position `i` on.
pub open spec fn items_fault(b: Seq<Body>, i: int, config: Seq<char>, section: Seq<char>) -> Option<
    Seq<char>,
>
    decreases b.len() - i,
{
    if i < 0 || i >= b.len() {
        None
    } else {
        match item_fault(b[i], i as nat, config, section) {
            Some(m) => Some(m),
            None => items_fault(b, i + 1, config, section),
        }
    }
}

/// What is wrong with one declaration of sections.
pub open spec fn section_fault(s: (Seq<char>, Shape), config: Seq<char>) -> Option<Seq<char>> {
    match s.1 {
        Shape::List(items) => {
            if items.len() == 0 {
                Some(
                    "Empty list section '"@ + s.0 + "' in config '"@ + config
                        + "' is not supported: its UCI type cannot be determined. To remove a section, omit it from your Nix configuration."@,
                )
            } else if !valid_type(s.0) {
                Some(
                    "Invalid list identifier '"@ + s.0 + "' in config '"@ + config
                        + "': only [a-zA-Z0-9_-] allowed"@,
                )
            } else {
                items_fault(items, 0, config, s.0)
            }
        },
        Shape::Named(b) => {
            if !valid_identifier(s.0) {
                Some(
                    "Invalid section '"@ + s.0 + "' in config '"@ + config
                        + "': only [a-zA-Z0-9_] allowed (no digits at start)"@,
                )
            } else if !valid_type(b.ty) {
                Some("Invalid type '"@ + b.ty + "' in "@ + config + "."@ + s.0)
            } else {
                options_fault(b.options, 0, config, s.0)
            }
        },
    }
}

pub open spec fn sections_fault(s: Sections, i: int, config: Seq<char>) -> Option<Seq<char>>
    decreases s.len() - i,
{
    if i < 0 || i >= s.len() {
        None
    } else {
        match section_fault(s[i], config) {
            Some(m) => Some(m),
            None => sections_fault(s, i + 1, config),
        }
    }
}

/// What is wrong with one configuration file.
pub open spec fn config_fault(c: (Seq<char>, Sections)) -> Option<Seq<char>> {
    if !valid_identifier(c.0) {
        Some(
            "Invalid config name '"@ + c.0
                + "': only [a-zA-Z0-9_] allowed (no digits at start)"@,
        )
    } else {
        sections_fault(c.1, 0, c.0)
    }
}

pub open spec fn settings_fault(s: Settings, i: int) -> Option<Seq<char>>
    decreases s.len() - i,
{
    if i < 0 || i >= s.len() {
        None
    } else {
        match config_fault(s[i]) {
            Some(m) => Some(m),
            None => settings_fault(s, i + 1),
        }
    }
}

/// Writes how an entry of a list of sections is referred to.
fn list_path_text(section: &str, i: usize) -> (r: String)
    ensures
        r@ == list_path(section@, i as nat),
{
    let mut path = "@".to_owned();
    path.append(section);
    path.append("[");
    path.append(decimal_text(i as u64).as_str());
    path.append("]");
    path
}

fn validate_item(item: &SectionData, i: usize, config_name: &str, section_name: &str) -> (r: Result<
    (),
    ConfigError,
>)
    ensures
        reports(r, item_fault(item@, i as nat, config_name@, section_name@)),
{
    let path = list_path_text(section_name, i);
    if !is_valid_uci_type(item.section_type.as_str()) {
        let mut m = "Invalid type '".to_owned();
        m.append(item.section_type.as_str());
        m.append("' in ");
        m.append(config_name);
        m.append(".");
        m.append(path.as_str());
        return Err(ConfigError::Validation(m));
    }
    validate_section_options(&item.options, config_name, path.as_str())
}

#[verifier::loop_isolation(false)]
fn validate_list(items: &Vec<SectionData>, config_name: &str, section_name: &str) -> (r: Result<
    (),
    ConfigError,
>)
    ensures
        reports(
            r,
            section_fault(
                (section_name@, Shape::List(bodies(items@))),
                config_name@,
            ),
        ),
{
    let ghost b = bodies(items@);
    if items.len() == 0 {
        let mut m = "Empty list section '".to_owned();
        m.append(section_name);
        m.append("' in config '");
        m.append(config_name);
        m.append(
            "' is not supported: its UCI type cannot be determined. To remove a section, omit it from your Nix configuration.",
        );
        return Err(ConfigError::Validation(m));
    }
    if !is_valid_uci_type(section_name) {
        let mut m = "Invalid list identifier '".to_owned();
        m.append(section_name);
        m.append("' in config '");
        m.append(config_name);
        m.append("': only [a-zA-Z0-9_-] allowed");
        return Err(ConfigError::Validation(m));
    }
    let mut i: usize = 0;
    while i < items.len()
        invariant
            i <= items@.len() == b.len(),
            b == bodies(items@),
            items_fault(b, 0, config_name@, section_name@) == items_fault(
                b,
                i as int,
                config_name@,
                section_name@,
            ),
        decreases items@.len() - i,
    {
        match validate_item(&items[i], i, config_name, section_name) {
            Ok(_) => {},
            Err(e) => {
                return Err(e);
            },
        }
        i += 1;
    }
    Ok(())
}

fn validate_named(data: &SectionData, config_name: &str, section_name: &str) -> (r: Result<
    (),
    ConfigError,
>)
    ensures
        reports(r, section_fault((section_name@, Shape::Named(data@)), config_name@)),
{
    if !is_valid_uci_identifier(section_name) {
        let mut m = "Invalid section '".to_owned();
        m.append(section_name);
        m.append("' in config '");
        m.append(config_name);
        m.append("': only [a-zA-Z0-9_] allowed (no digits at start)");
        return Err(ConfigError::Validation(m));
    }
    if !is_valid_uci_type(data.section_type.as_str()) {
        let mut m = "Invalid type '".to_owned();
        m.append(data.section_type.as_str());
        m.append("' in ");
        m.append(config_name);
        m.append(".");
        m.append(section_name);
        return Err(ConfigError::Validation(m));
    }
    validate_section_options(&data.options, config_name, section_name)
}

fn validate_section(name: &str, section: &Section, config_name: &str) -> (r: Result<
    (),
    ConfigError,
>)
    ensures
        reports(r, section_fault((name@, section@), config_name@)),
{
    match section {
        Section::List(items) => validate_list(items, config_name, name),
        Section::Named(data) => validate_named(data, config_name, name),
    }
}

#[verifier::loop_isolation(false)]
fn validate_config(name: &str, sections: &IndexMap<String, Section>) -> (r: Result<
    (),
    ConfigError,
>)
    ensures
        reports(r, config_fault((name@, section_entries(*sections)))),
{
    if !is_valid_uci_identifier(name) {
        let mut m = "Invalid config name '".to_owned();
        m.append(name);
        m.append("': only [a-zA-Z0-9_] allowed (no digits at start)");
        return Err(ConfigError::Validation(m));
    }
    let list = list_sections(sections);
    let ghost s = section_entries(*sections);
    let mut i: usize = 0;
    while i < list.len()
        invariant
            i <= list@.len() == s.len(),
            forall|k: int|
                0 <= k < list@.len() ==> (#[trigger] list@[k]).0@ == s[k].0 && list@[k].1@
                    == s[k].1,
            sections_fault(s, 0, name@) == sections_fault(s, i as int, name@),
        decreases list@.len() - i,
    {
        let (section_name, section) = list[i];
        assert(s[i as int] == (section_name@, section@));
        match validate_section(section_name.as_str(), section, name) {
            Ok(_) => {},
            Err(e) => {
                return Err(e);
            },
        }
        i += 1;
    }
    Ok(())
}

// ---- raw commands and files ----

/// What is wrong with raw line `i`.
pub open spec fn raw_line_fault(line: Seq<char>, i: nat) -> Option<Seq<char>> {
    let t = trim(line);
    if t.len() == 0 {
        Some("rawUci["@ + decimal(i) + "] is empty"@)
    } else if !"uci "@.is_prefix_of(t) {
        Some("rawUci["@ + decimal(i) + "] must be a 'uci' command, got: "@ + t)
    } else {
        None
    }
}

pub open spec fn raw_fault(lines: Seq<Seq<char>>, i: int) -> Option<Seq<char>>
    decreases lines.len() - i,
{
    if i < 0 || i >= lines.len() {
        None
    } else {
        match raw_line_fault(lines[i], i as nat) {
            Some(m) => Some(m),
            None => raw_fault(lines, i + 1),
        }
    }
}

/// What is wrong with file `i`. An empty text is a file without content; base64 digits that
/// are missing are a mistake.
pub open spec fn file_fault(f: Payload, i: nat) -> Option<Seq<char>> {
    if !"/"@.is_prefix_of(f.path) {
        Some("files["@ + decimal(i) + "].path must be absolute, got: "@ + f.path)
    } else if contains_text(f.path, ".."@) {
        Some("files["@ + decimal(i) + "].path must not contain '..': "@ + f.path)
    } else if f.content == Content::Base64(Seq::empty()) {
        Some("files["@ + decimal(i) + "].path="@ + f.path + " has empty content"@)
    } else {
        None
    }
}

pub open spec fn files_fault(files: Seq<Payload>, i: int) -> Option<Seq<char>>
    decreases files.len() - i,
{
    if i < 0 || i >= files.len() {
        None
    } else {
        match file_fault(files[i], i as nat) {
            Some(m) => Some(m),
            None => files_fault(files, i + 1),
        }
    }
}

fn indexed(list: &str, i: usize) -> (r: String)
    ensures
        r@ == list@ + decimal(i as nat),
{
    let mut m = list.to_owned();
    m.append(decimal_text(i as u64).as_str());
    m
}

fn validate_raw(lines: &Vec<String>) -> (r: Result<(), ConfigError>)
    ensures
        reports(r, raw_fault(texts(lines@), 0)),
{
    let ghost all = texts(lines@);
    let mut i: usize = 0;
    while i < lines.len()
        invariant
            i <= lines@.len() == all.len(),
            all == texts(lines@),
            raw_fault(all, 0) == raw_fault(all, i as int),
        decreases lines@.len() - i,
    {
        let t = trimmed(lines[i].as_str());
        if t.as_str().is_empty() {
            let mut m = indexed("rawUci[", i);
            m.append("] is empty");
            return Err(ConfigError::Validation(m));
        }
        if !has_prefix(t.as_str(), "uci ") {
            let mut m = indexed("rawUci[", i);
            m.append("] must be a 'uci' command, got: ");
            m.append(t.as_str());
            return Err(ConfigError::Validation(m));
        }
        i += 1;
    }
    Ok(())
}

fn validate_file(file: &File, i: usize) -> (r: Result<(), ConfigError>)
    ensures
        reports(r, file_fault(file@, i as nat)),
{
    let path = file.path.as_str();
    if !has_prefix(path, "/") {
        let mut m = indexed("files[", i);
        m.append("].path must be absolute, got: ");
        m.append(path);
        return Err(ConfigError::Validation(m));
    }
    if has_text(path, "..") {
        let mut m = indexed("files[", i);
        m.append("].path must not contain '..': ");
        m.append(path);
        return Err(ConfigError::Validation(m));
    }
    if let FileContent::Base64(digits) = &file.content {
        if digits.as_str().is_empty() {
            assert(digits@ =~= Seq::empty());
            let mut m = indexed("files[", i);
            m.append("].path=");
            m.append(path);
            m.append(" has empty content");
            return Err(ConfigError::Validation(m));
        }
    }
    Ok(())
}

fn validate_files(files: &Vec<File>) -> (r: Result<(), ConfigError>)
    ensures
        reports(r, files_fault(payloads(files@), 0)),
{
    let ghost all = payloads(files@);
    let mut i: usize = 0;
    while i < files.len()
        invariant
            i <= files@.len() == all.len(),
            all == payloads(files@),
            files_fault(all, 0) == files_fault(all, i as int),
        decreases files@.len() - i,
    {
        match validate_file(&files[i], i) {
            Ok(_) => {},
            Err(e) => {
                return Err(e);
            },
        }
        i += 1;
    }
    Ok(())
}

// ---- the whole configuration ----

/// The first fault of a configuration: its settings come first, then its raw commands, then its
/// files.
pub open spec fn root_fault(d: Declared) -> Option<Seq<char>> {
    match settings_fault(d.settings, 0) {
        Some(m) => Some(m),
        None => {
            let raw = match d.raw_uci {
                Some(lines) => raw_fault(lines, 0),
                None => None,
            };
            match raw {
                Some(m) => Some(m),
                None => match d.files {
                    Some(files) => files_fault(files, 0),
                    None => None,
                },
            }
        },
    }
}

/// Passes a configuration that meets every rule, and reports the first fault of any other.
pub fn validate_root(root: &Root) -> (r: Result<(), ConfigError>)
    ensures
        reports(r, root_fault(root@)),
{
    let list = list_configs(&root.settings);
    let ghost s = root@.settings;
    let mut i: usize = 0;
    while i < list.len()
        invariant
            i <= list@.len() == s.len(),
            s == root@.settings,
            forall|k: int|
                0 <= k < list@.len() ==> (#[trigger] list@[k]).0@ == s[k].0 && section_entries(
                    *list@[k].1,
                ) == s[k].1,
            settings_fault(s, 0) == settings_fault(s, i as int),
        decreases list@.len() - i,
    {
        let (config_name, sections) = list[i];
        assert(s[i as int] == (config_name@, section_entries(*sections)));
        match validate_config(config_name.as_str(), sections) {
            Ok(_) => {},
            Err(e) => {
                return Err(e);
            },
        }
        i += 1;
    }
    if let Some(lines) = &root.raw_uci {
        match validate_raw(lines) {
            Ok(_) => {},
            Err(e) => {
                return Err(e);
            },
        }
    }
    if let Some(files) = &root.files {
        return validate_files(files);
    }
    Ok(())
}

// ---- laws ----

/// Whether options have names that are identifiers.
pub open spec fn options_named(o: Options) -> bool {
    forall|i: int| 0 <= i < o.len() ==> valid_identifier((#[trigger] o[i]).0)
}

proof fn lemma_options_named(o: Options, i: int, config: Seq<char>, path: Seq<char>)
    requires
        0 <= i <= o.len(),
        options_fault(o, i, config, path) is None,
    ensures
        forall|k: int| i <= k < o.len() ==> valid_identifier((#[trigger] o[k]).0),
    decreases o.len() - i,
{
    if i < o.len() {
        lemma_options_named(o, i + 1, config, path);
    }
}

/// Whether a declaration has the names and types that the rules ask for.
pub open spec fn shape_named(s: (Seq<char>, Shape)) -> bool {
    match s.1 {
        Shape::Named(b) => valid_identifier(s.0) && valid_type(b.ty) && options_named(b.options),
        Shape::List(b) => forall|i: int|
            0 <= i < b.len() ==> valid_type((#[trigger] b[i]).ty) && options_named(b[i].options),
    }
}

proof fn lemma_items_named(b: Seq<Body>, i: int, config: Seq<char>, section: Seq<char>)
    requires
        0 <= i <= b.len(),
        items_fault(b, i, config, section) is None,
    ensures
        forall|k: int|
            i <= k < b.len() ==> valid_type((#[trigger] b[k]).ty) && options_named(b[k].options),
    decreases b.len() - i,
{
    if i < b.len() {
        lemma_options_named(b[i].options, 0, config, list_path(section, i as nat));
        lemma_items_named(b, i + 1, config, section);
    }
}

proof fn lemma_shape_named(s: (Seq<char>, Shape), config: Seq<char>)
    requires
        section_fault(s, config) is None,
    ensures
        shape_named(s),
{
    match s.1 {
        Shape::Named(b) => {
            lemma_options_named(b.options, 0, config, s.0);
        },
        Shape::List(b) => {
            lemma_items_named(b, 0, config, s.0);
        },
    }
}

pub proof fn lemma_sections_named(d: Sections, i: int, config: Seq<char>)
    requires
        0 <= i <= d.len(),
        sections_fault(d, i, config) is None,
    ensures
        forall|k: int| i <= k < d.len() ==> shape_named(#[trigger] d[k]),
    decreases d.len() - i,
{
    if i < d.len() {
        lemma_shape_named(d[i], config);
        lemma_sections_named(d, i + 1, config);
    }
}

pub proof fn lemma_settings_named(s: Settings, i: int)
    requires
        0 <= i <= s.len(),
        settings_fault(s, i) is None,
    ensures
        forall|k: int|
            i <= k < s.len() ==> config_fault(#[trigger] s[k]) is None,
    decreases s.len() - i,
{
    if i < s.len() {
        lemma_settings_named(s, i + 1);
    }
}

proof fn lemma_raw_commands(lines: Seq<Seq<char>>, i: int)
    requires
        0 <= i <= lines.len(),
        raw_fault(lines, i) is None,
    ensures
        forall|k: int| i <= k < lines.len() ==> "uci "@.is_prefix_of(trim(#[trigger] lines[k])),
    decreases lines.len() - i,
{
    if i < lines.len() {
        lemma_raw_commands(lines, i + 1);
    }
}

proof fn lemma_file_paths(files: Seq<Payload>, i: int)
    requires
        0 <= i <= files.len(),
        files_fault(files, i) is None,
    ensures
        forall|k: int|
            i <= k < files.len() ==> "/"@.is_prefix_of((#[trigger] files[k]).path)
                && !contains_text(files[k].path, ".."@),
    decreases files.len() - i,
{
    if i < files.len() {
        lemma_file_paths(files, i + 1);
    }
}

/// In a configuration that passes, every configuration file and every section goes by the names
/// and types that the rules ask for.
pub proof fn passing_settings_are_named(d: Declared, c: int, i: int)
    requires
        root_fault(d) is None,
        0 <= c < d.settings.len(),
        0 <= i < d.settings[c].1.len(),
    ensures
        valid_identifier(d.settings[c].0),
        shape_named(d.settings[c].1[i]),
{
    lemma_settings_named(d.settings, 0);
    assert(config_fault(d.settings[c]) is None);
    lemma_sections_named(d.settings[c].1, 0, d.settings[c].0);
    assert(shape_named(d.settings[c].1[i]));
}

/// In a configuration that passes, every raw command is a `uci` command.
pub proof fn passing_raw_lines_are_uci_commands(d: Declared, i: int)
    requires
        root_fault(d) is None,
        d.raw_uci matches Some(lines) && 0 <= i < lines.len(),
    ensures
        "uci "@.is_prefix_of(trim(d.raw_uci->Some_0[i])),
{
    lemma_raw_commands(d.raw_uci->Some_0, 0);
    let line = d.raw_uci->Some_0[i];
    assert("uci "@.is_prefix_of(trim(line)));
}

/// In a configuration that passes, every file has an absolute path that leads nowhere else.
pub proof fn passing_files_have_plain_paths(d: Declared, i: int)
    requires
        root_fault(d) is None,
        d.files matches Some(files) && 0 <= i < files.len(),
    ensures
        "/"@.is_prefix_of(d.files->Some_0[i].path),
        !contains_text(d.files->Some_0[i].path, ".."@),
{
    lemma_file_paths(d.files->Some_0, 0);
    let f = d.files->Some_0[i];
    assert("/"@.is_prefix_of(f.path));
}

// ---- warnings ----

/// What is worth saying about an option that is no mistake: an empty text is the same as none.
pub open spec fn option_warning(o: (Seq<char>, Json), config: Seq<char>, path: Seq<char>) -> Seq<
    Seq<char>,
> {
    if o.1 == Json::Text(Seq::empty()) {
        seq![
            "Warning: "@ + config + "."@ + path + "."@ + o.0
                + " is empty string \u{2014} UCI treats '' as unset. Consider omitting it."@,
        ]
    } else {
        Seq::empty()
    }
}

/// The warnings about the options from position `i` on, up to the first fault.
pub open spec fn options_warnings(o: Options, i: int, config: Seq<char>, path: Seq<char>) -> Seq<
    Seq<char>,
>
    decreases o.len() - i,
{
    if i < 0 || i >= o.len() || option_fault(o[i], config, path) is Some {
        Seq::empty()
    } else {
        option_warning(o[i], config, path) + options_warnings(o, i + 1, config, path)
    }
}

pub open spec fn items_warnings(b: Seq<Body>, i: int, config: Seq<char>, section: Seq<char>) -> Seq<
    Seq<char>,
>
    decreases b.len() - i,
{
    if i < 0 || i >= b.len() || !valid_type(b[i].ty) {
        Seq::empty()
    } else {
        options_warnings(b[i].options, 0, config, list_path(section, i as nat)) + if item_fault(
            b[i],
            i as nat,
            config,
            section,
        ) is Some {
            Seq::empty()
        } else {
            items_warnings(b, i + 1, config, section)
        }
    }
}

pub open spec fn section_warnings(s: (Seq<char>, Shape), config: Seq<char>) -> Seq<Seq<char>> {
    match s.1 {
        Shape::List(items) => if items.len() == 0 || !valid_type(s.0) {
            Seq::empty()
        } else {
            items_warnings(items, 0, config, s.0)
        },
        Shape::Named(b) => if !valid_identifier(s.0) || !valid_type(b.ty) {
            Seq::empty()
        } else {
            options_warnings(b.options, 0, config, s.0)
        },
    }
}

pub open spec fn sections_warnings(s: Sections, i: int, config: Seq<char>) -> Seq<Seq<char>>
    decreases s.len() - i,
{
    if i < 0 || i >= s.len() {
        Seq::empty()
    } else {
        section_warnings(s[i], config) + if section_fault(s[i], config) is Some {
            Seq::empty()
        } else {
            sections_warnings(s, i + 1, config)
        }
    }
}

pub open spec fn settings_warnings(s: Settings, i: int) -> Seq<Seq<char>>
    decreases s.len() - i,
{
    if i < 0 || i >= s.len() || !valid_identifier(s[i].0) {
        Seq::empty()
    } else {
        sections_warnings(s[i].1, 0, s[i].0) + if config_fault(s[i]) is Some {
            Seq::empty()
        } else {
            settings_warnings(s, i + 1)
        }
    }
}

fn warn_options(
    out: &mut Vec<String>,
    options: &IndexMap<String, Value>,
    config_name: &str,
    section_path: &str,
)
    ensures
        texts(final(out)@) == texts(old(out)@) + options_warnings(
            option_entries(*options),
            0,
            config_name@,
            section_path@,
        ),
{
    let list = list_options(options);
    let ghost o = option_entries(*options);
    let ghost start = texts(out@);
    let ghost all = options_warnings(o, 0, config_name@, section_path@);
    let mut i: usize = 0;
    while i < list.len()
        invariant
            i <= list@.len() == o.len(),
            o == option_entries(*options),
            forall|k: int|
                0 <= k < list@.len() ==> (#[trigger] list@[k]).0@ == o[k].0 && list@[k].1@
                    == o[k].1,
            texts(out@) + options_warnings(o, i as int, config_name@, section_path@) == start + all,
            start == texts(old(out)@),
            all == options_warnings(o, 0, config_name@, section_path@),
        decreases list@.len() - i,
    {
        let (name, value) = list[i];
        let ghost done = texts(out@);
        let ghost rest = options_warnings(o, i + 1, config_name@, section_path@);
        assert(o[i as int] == (name@, value@));
        if validate_option(name.as_str(), value, config_name, section_path).is_err() {
            assert(texts(out@) + Seq::<Seq<char>>::empty() =~= texts(out@));
            return;
        }
        let empty = match value {
            Value::Text(t) => t.as_str().is_empty(),
            _ => false,
        };
        if empty {
            let mut m = "Warning: ".to_owned();
            m.append(config_name);
            m.append(".");
            m.append(section_path);
            m.append(".");
            m.append(name.as_str());
            m.append(" is empty string \u{2014} UCI treats '' as unset. Consider omitting it.");
            assert(value@->Text_0 =~= Seq::empty());
            out.push(m);
            proof {
                assert(texts(out@) =~= done.push(m@));
                assert(done + (seq![m@] + rest) =~= texts(out@) + rest);
            }
        } else {
            assert(option_warning(o[i as int], config_name@, section_path@) =~= Seq::empty());
            assert(Seq::<Seq<char>>::empty() + rest =~= rest);
        }
        i += 1;
    }
    assert(texts(out@) + Seq::<Seq<char>>::empty() =~= texts(out@));
}

fn warn_list(out: &mut Vec<String>, items: &Vec<SectionData>, config_name: &str, section_name: &str)
    ensures
        texts(final(out)@) == texts(old(out)@) + items_warnings(
            bodies(items@),
            0,
            config_name@,
            section_name@,
        ),
{
    let ghost b = bodies(items@);
    let ghost start = texts(out@);
    let ghost all = items_warnings(b, 0, config_name@, section_name@);
    let mut i: usize = 0;
    while i < items.len()
        invariant
            i <= items@.len() == b.len(),
            b == bodies(items@),
            texts(out@) + items_warnings(b, i as int, config_name@, section_name@) == start + all,
            start == texts(old(out)@),
            all == items_warnings(b, 0, config_name@, section_name@),
        decreases items@.len() - i,
    {
        let ghost done = texts(out@);
        let ghost rest = items_warnings(b, i + 1, config_name@, section_name@);
        let path = list_path_text(section_name, i);
        let ghost here = options_warnings(b[i as int].options, 0, config_name@, path@);
        if !is_valid_uci_type(items[i].section_type.as_str()) {
            assert(texts(out@) + Seq::<Seq<char>>::empty() =~= texts(out@));
            return;
        }
        warn_options(out, &items[i].options, config_name, path.as_str());
        if validate_item(&items[i], i, config_name, section_name).is_err() {
            assert(done + (here + Seq::<Seq<char>>::empty()) =~= texts(out@));
            return;
        }
        assert(done + (here + rest) =~= texts(out@) + rest);
        i += 1;
    }
    assert(texts(out@) + Seq::<Seq<char>>::empty() =~= texts(out@));
}

fn warn_section(out: &mut Vec<String>, name: &str, section: &Section, config_name: &str)
    ensures
        texts(final(out)@) == texts(old(out)@) + section_warnings((name@, section@), config_name@),
{
    match section {
        Section::List(items) => {
            if items.len() == 0 || !is_valid_uci_type(name) {
                assert(texts(out@) + Seq::<Seq<char>>::empty() =~= texts(out@));
            } else {
                warn_list(out, items, config_name, name);
            }
        },
        Section::Named(data) => {
            if !is_valid_uci_identifier(name) || !is_valid_uci_type(data.section_type.as_str()) {
                assert(texts(out@) + Seq::<Seq<char>>::empty() =~= texts(out@));
            } else {
                warn_options(out, &data.options, config_name, name);
            }
        },
    }
}

fn warn_config(out: &mut Vec<String>, name: &str, sections: &IndexMap<String, Section>)
    ensures
        texts(final(out)@) == texts(old(out)@) + sections_warnings(
            section_entries(*sections),
            0,
            name@,
        ),
{
    let list = list_sections(sections);
    let ghost s = section_entries(*sections);
    let ghost start = texts(out@);
    let ghost all = sections_warnings(s, 0, name@);
    let mut i: usize = 0;
    while i < list.len()
        invariant
            i <= list@.len() == s.len(),
            s == section_entries(*sections),
            forall|k: int|
                0 <= k < list@.len() ==> (#[trigger] list@[k]).0@ == s[k].0 && list@[k].1@
                    == s[k].1,
            texts(out@) + sections_warnings(s, i as int, name@) == start + all,
            start == texts(old(out)@),
            all == sections_warnings(s, 0, name@),
        decreases list@.len() - i,
    {
        let (section_name, section) = list[i];
        let ghost done = texts(out@);
        let ghost here = section_warnings(s[i as int], name@);
        let ghost rest = sections_warnings(s, i + 1, name@);
        assert(s[i as int] == (section_name@, section@));
        warn_section(out, section_name.as_str(), section, name);
        if validate_section(section_name.as_str(), section, name).is_err() {
            assert(done + (here + Seq::<Seq<char>>::empty()) =~= texts(out@));
            return;
        }
        assert(done + (here + rest) =~= texts(out@) + rest);
        i += 1;
    }
    assert(texts(out@) + Seq::<Seq<char>>::empty() =~= texts(out@));
}

/// Lists what is worth saying about a configuration that is no mistake, as far as it is read
/// before its first fault.
pub fn validation_warnings(root: &Root) -> (r: Vec<String>)
    ensures
        texts(r@) == settings_warnings(root@.settings, 0),
{
    let list = list_configs(&root.settings);
    let ghost s = root@.settings;
    let ghost all = settings_warnings(s, 0);
    let mut out: Vec<String> = Vec::new();
    let mut i: usize = 0;
    proof {
        assert(texts(out@) =~= Seq::empty());
        assert(texts(out@) + all =~= all);
    }
    while i < list.len()
        invariant
            i <= list@.len() == s.len(),
            s == root@.settings,
            forall|k: int|
                0 <= k < list@.len() ==> (#[trigger] list@[k]).0@ == s[k].0 && section_entries(
                    *list@[k].1,
                ) == s[k].1,
            texts(out@) + settings_warnings(s, i as int) == all,
            all == settings_warnings(s, 0),
        decreases list@.len() - i,
    {
        let (name, sections) = list[i];
        let ghost done = texts(out@);
        let ghost here = sections_warnings(s[i as int].1, 0, s[i as int].0);
        let ghost rest = settings_warnings(s, i + 1);
        assert(s[i as int] == (name@, section_entries(*sections)));
        if !is_valid_uci_identifier(name.as_str()) {
            assert(texts(out@) + Seq::<Seq<char>>::empty() =~= texts(out@));
            return out;
        }
        warn_config(&mut out, name.as_str(), sections);
        if validate_config(name.as_str(), sections).is_err() {
            assert(done + (here + Seq::<Seq<char>>::empty()) =~= texts(out@));
            return out;
        }
        assert(done + (here + rest) =~= texts(out@) + rest);
        i += 1;
    }
    assert(texts(out@) + Seq::<Seq<char>>::empty() =~= texts(out@));
    out
}

} // verus!
