//! The declared configuration of a router.

use crate::utils::helpers::{quoted, shell_quote};
use crate::utils::split::{strip_prefix, without_prefix};
use crate::utils::text::texts;
use indexmap::IndexMap;
use vstd::prelude::*;

verus! {

// ---- values ----

/// A JSON value. A number is held by its text.
#[derive(Debug, PartialEq)]
pub enum Value {
    Null,
    Bool(bool),
    Number(String),
    Text(String),
    Array(Vec<Value>),
    Object(Vec<(String, Value)>),
}

/// A JSON value as the contracts speak of it.
pub enum Json {
    Null,
    Bool(bool),
    Number(Seq<char>),
    Text(Seq<char>),
    Array(Seq<Json>),
    Object(Seq<(Seq<char>, Json)>),
}

impl Value {
    pub open spec fn json(self) -> Json
        decreases self,
    {
        match self {
            Value::Null => Json::Null,
            Value::Bool(b) => Json::Bool(b),
            Value::Number(n) => Json::Number(n@),
            Value::Text(s) => Json::Text(s@),
            Value::Array(items) => Json::Array(
                Seq::new(
                    items@.len(),
                    |i: int|
                        if 0 <= i < items@.len() {
                            items@[i].json()
                        } else {
                            Json::Null
                        },
                ),
            ),
            Value::Object(members) => Json::Object(
                Seq::new(
                    members@.len(),
                    |i: int|
                        if 0 <= i < members@.len() {
                            (members@[i].0@, members@[i].1.json())
                        } else {
                            (Seq::empty(), Json::Null)
                        },
                ),
            ),
        }
    }
}

impl View for Value {
    type V = Json;

    open spec fn view(&self) -> Json {
        self.json()
    }
}

// ---- sections ----

/// The type and the options of one section.
#[derive(Debug)]
pub struct SectionData {
    pub section_type: String,
    pub options: IndexMap<String, Value>,
}

/// A section by name, or a list of sections without names.
#[derive(Debug)]
pub enum Section {
    List(Vec<SectionData>),
    Named(SectionData),
}

/// Options in their order.
pub type Options = Seq<(Seq<char>, Json)>;

/// What one section holds.
pub struct Body {
    pub ty: Seq<char>,
    pub options: Options,
}

/// What a declaration of sections holds.
pub enum Shape {
    List(Seq<Body>),
    Named(Body),
}

/// The sections of one configuration file in their order.
pub type Sections = Seq<(Seq<char>, Shape)>;

/// The configuration files in their order.
pub type Settings = Seq<(Seq<char>, Sections)>;

impl View for SectionData {
    type V = Body;

    open spec fn view(&self) -> Body {
        Body { ty: self.section_type@, options: option_entries(self.options) }
    }
}

/// What a list of sections holds.
pub open spec fn bodies(items: Seq<SectionData>) -> Seq<Body> {
    Seq::new(items.len(), |i: int| items[i]@)
}

impl View for Section {
    type V = Shape;

    open spec fn view(&self) -> Shape {
        match self {
            Section::List(items) => Shape::List(bodies(items@)),
            Section::Named(data) => Shape::Named(data@),
        }
    }
}

// ---- maps that keep their order ----

/// `indexmap::IndexMap`, a map that walks its entries in a fixed order. It is opaque here; what the
/// maps of a configuration hold is given by the names below.
#[verifier::external_type_specification]
#[verifier::external_body]
#[verifier::reject_recursive_types(K)]
#[verifier::reject_recursive_types(V)]
#[verifier::reject_recursive_types(S)]
pub struct ExIndexMap<K, V, S>(IndexMap<K, V, S>);

/// The options that a map holds, in its order.
pub uninterp spec fn option_entries(m: IndexMap<String, Value>) -> Options;

/// The sections that a map holds, in its order.
pub uninterp spec fn section_entries(m: IndexMap<String, Section>) -> Sections;

/// The configuration files that a map holds, in its order.
pub uninterp spec fn config_entries(m: IndexMap<String, IndexMap<String, Section>>) -> Settings;

/// `IndexMap::iter` walks the entries in the map's order; no two of them have the same key.
#[verifier::external_body]
pub(crate) fn list_options(m: &IndexMap<String, Value>) -> (r: Vec<(&String, &Value)>)
    ensures
        r@.len() == option_entries(*m).len(),
        forall|i: int|
            0 <= i < r@.len() ==> (#[trigger] r@[i]).0@ == option_entries(*m)[i].0 && r@[i].1@
                == option_entries(*m)[i].1,
        forall|i: int, j: int| 0 <= i < j < r@.len() ==> (#[trigger] r@[i]).0@ != (#[trigger] r@[j]).0@,
{
    m.iter().collect()
}

/// `IndexMap::iter` walks the entries in the map's order; no two of them have the same key.
#[verifier::external_body]
pub(crate) fn list_sections(m: &IndexMap<String, Section>) -> (r: Vec<(&String, &Section)>)
    ensures
        r@.len() == section_entries(*m).len(),
        forall|i: int|
            0 <= i < r@.len() ==> (#[trigger] r@[i]).0@ == section_entries(*m)[i].0 && r@[i].1@
                == section_entries(*m)[i].1,
        forall|i: int, j: int| 0 <= i < j < r@.len() ==> (#[trigger] r@[i]).0@ != (#[trigger] r@[j]).0@,
{
    m.iter().collect()
}

/// `IndexMap::iter` walks the entries in the map's order; no two of them have the same key.
#[verifier::external_body]
pub(crate) fn list_configs(m: &IndexMap<String, IndexMap<String, Section>>) -> (r: Vec<
    (&String, &IndexMap<String, Section>),
>)
    ensures
        r@.len() == config_entries(*m).len(),
        forall|i: int|
            0 <= i < r@.len() ==> (#[trigger] r@[i]).0@ == config_entries(*m)[i].0
                && section_entries(*r@[i].1) == config_entries(*m)[i].1,
        forall|i: int, j: int| 0 <= i < j < r@.len() ==> (#[trigger] r@[i]).0@ != (#[trigger] r@[j]).0@,
{
    m.iter().collect()
}

/// `IndexMap`'s indexing by position gives access to the value of the entry that stands there;
/// it panics outside the map.
#[verifier::external_body]
pub(crate) fn option_at(m: &mut IndexMap<String, Value>, i: usize) -> (r: &mut Value)
    requires
        i < option_entries(*old(m)).len(),
    ensures
        r@ == option_entries(*old(m))[i as int].1,
        option_entries(*final(m)) == option_entries(*old(m)).update(
            i as int,
            (option_entries(*old(m))[i as int].0, final(r)@),
        ),
{
    &mut m[i]
}

/// `IndexMap`'s indexing by position gives access to the value of the entry that stands there;
/// it panics outside the map.
#[verifier::external_body]
pub(crate) fn section_at(m: &mut IndexMap<String, Section>, i: usize) -> (r: &mut Section)
    requires
        i < section_entries(*old(m)).len(),
    ensures
        r@ == section_entries(*old(m))[i as int].1,
        section_entries(*final(m)) == section_entries(*old(m)).update(
            i as int,
            (section_entries(*old(m))[i as int].0, final(r)@),
        ),
{
    &mut m[i]
}

/// `IndexMap`'s indexing by position gives access to the value of the entry that stands there;
/// it panics outside the map.
#[verifier::external_body]
pub(crate) fn config_at(m: &mut IndexMap<String, IndexMap<String, Section>>, i: usize) -> (r:
    &mut IndexMap<String, Section>)
    requires
        i < config_entries(*old(m)).len(),
    ensures
        section_entries(*r) == config_entries(*old(m))[i as int].1,
        config_entries(*final(m)) == config_entries(*old(m)).update(
            i as int,
            (config_entries(*old(m))[i as int].0, section_entries(*final(r))),
        ),
{
    &mut m[i]
}

// ---- the whole configuration ----

/// Everything that is declared for a router.
#[derive(Debug)]
pub struct Root {
    pub package_manager: String,
    pub settings: IndexMap<String, IndexMap<String, Section>>,
    pub packages: Option<Vec<String>>,
    pub package_sources: Option<PackageSources>,
    pub ssh_keys: Vec<String>,
    pub secrets: Option<SopsConfig>,
    /// `uci` command lines that are handed to the target as they stand, for what sections
    /// cannot express. This is the one place where raw commands reach the target.
    pub raw_uci: Option<Vec<String>>,
    /// Files that are written on the target.
    pub files: Option<Vec<File>>,
}

#[derive(Debug, Default)]
pub struct SopsConfig {
    pub sops: Option<SopsFiles>,
}

#[derive(Debug, Default)]
pub struct SopsFiles {
    pub files: Vec<String>,
}

/// Where packages come from besides the package manager's own repositories.
pub struct Sources {
    pub feeds: Option<Seq<Seq<char>>>,
    pub local_packages: Option<Seq<Seq<char>>>,
}

impl View for PackageSources {
    type V = Sources;

    open spec fn view(&self) -> Sources {
        Sources {
            feeds: optional_texts(self.feeds),
            local_packages: optional_texts(self.local_packages),
        }
    }
}

/// A configuration as the contracts speak of it.
pub struct Declared {
    pub package_manager: Seq<char>,
    pub settings: Settings,
    pub packages: Option<Seq<Seq<char>>>,
    pub package_sources: Option<Sources>,
    pub ssh_keys: Seq<Seq<char>>,
    pub sops_files: Seq<Seq<char>>,
    pub raw_uci: Option<Seq<Seq<char>>>,
    pub files: Option<Seq<Payload>>,
}

/// The files that hold the encrypted secrets.
pub open spec fn sops_files(secrets: Option<SopsConfig>) -> Seq<Seq<char>> {
    match secrets {
        Some(c) => match c.sops {
            Some(s) => texts(s.files@),
            None => Seq::empty(),
        },
        None => Seq::empty(),
    }
}

impl View for Root {
    type V = Declared;

    open spec fn view(&self) -> Declared {
        Declared {
            package_manager: self.package_manager@,
            settings: config_entries(self.settings),
            packages: optional_texts(self.packages),
            package_sources: match self.package_sources {
                Some(s) => Some(s@),
                None => None,
            },
            ssh_keys: texts(self.ssh_keys@),
            sops_files: sops_files(self.secrets),
            raw_uci: optional_texts(self.raw_uci),
            files: match self.files {
                Some(f) => Some(payloads(f@)),
                None => None,
            },
        }
    }
}

/// The package manager of a configuration that names none.
pub fn default_package_manager() -> (r: String)
    ensures
        r@ == "opkg"@,
{
    "opkg".to_owned()
}

#[derive(Debug, Clone, Copy, PartialEq, Eq, Structural)]
pub enum PkgBackend {
    Opkg,
    Apk,
}

/// The package manager that a name selects: `apk`, and `opkg` for any other name.
pub open spec fn backend_named(s: Seq<char>) -> PkgBackend {
    if s == "apk"@ {
        PkgBackend::Apk
    } else {
        PkgBackend::Opkg
    }
}

impl PkgBackend {
    pub fn from_name(s: &str) -> (r: PkgBackend)
        ensures
            r == backend_named(s@),
    {
        if s.eq("apk") {
            PkgBackend::Apk
        } else {
            PkgBackend::Opkg
        }
    }
}

#[derive(Debug)]
pub struct PackageSources {
    pub feeds: Option<Vec<String>>,
    pub local_packages: Option<Vec<String>>,
}

/// A file to write on the target.
#[derive(Debug, Default)]
pub struct File {
    /// Absolute path on the target.
    pub path: String,
    pub content: FileContent,
    /// Mode 0755 rather than 0644.
    pub executable: bool,
    /// SHA-256 (hex) of the file: the target keeps a file that already has it.
    pub checksum: Option<String>,
}

/// A file's content: text, or binary content in base64.
#[derive(Debug, Clone, PartialEq, Eq)]
pub enum FileContent {
    Text(String),
    Base64(String),
}

impl Default for FileContent {
    fn default() -> (r: FileContent)
        ensures
            r@ == Content::Text(Seq::empty()),
    {
        FileContent::Text(String::new())
    }
}

/// What a file is to hold.
pub enum Content {
    Text(Seq<char>),
    Base64(Seq<char>),
}

impl Content {
    /// The text, or the base64 digits.
    pub open spec fn digits(self) -> Seq<char> {
        match self {
            Content::Text(s) => s,
            Content::Base64(s) => s,
        }
    }
}

impl View for FileContent {
    type V = Content;

    open spec fn view(&self) -> Content {
        match self {
            FileContent::Text(s) => Content::Text(s@),
            FileContent::Base64(s) => Content::Base64(s@),
        }
    }
}

/// A file to write, as the contracts speak of it.
pub struct Payload {
    pub path: Seq<char>,
    pub content: Content,
    pub executable: bool,
    pub checksum: Option<Seq<char>>,
}

impl View for File {
    type V = Payload;

    open spec fn view(&self) -> Payload {
        Payload {
            path: self.path@,
            content: self.content@,
            executable: self.executable,
            checksum: match self.checksum {
                Some(c) => Some(c@),
                None => None,
            },
        }
    }
}

pub open spec fn payloads(files: Seq<File>) -> Seq<Payload> {
    Seq::new(files.len(), |i: int| files[i]@)
}

impl FileContent {
    pub fn is_empty(&self) -> (r: bool)
        ensures
            r == (self@.digits().len() == 0),
    {
        match self {
            FileContent::Text(s) => s.as_str().is_empty(),
            FileContent::Base64(s) => s.as_str().is_empty(),
        }
    }
}

/// What is to become of a package.
#[derive(Debug, Clone, PartialEq, Eq)]
pub enum PackageAction {
    Install(String),
    Remove(String),
}

/// What a package entry asks for: a leading dash asks for removal.
pub enum PackageRequest {
    Install(Seq<char>),
    Remove(Seq<char>),
}

pub open spec fn package_request(spec_text: Seq<char>) -> PackageRequest {
    match strip_prefix(spec_text, "-"@) {
        Some(name) => PackageRequest::Remove(name),
        None => PackageRequest::Install(spec_text),
    }
}

impl View for PackageAction {
    type V = PackageRequest;

    open spec fn view(&self) -> PackageRequest {
        match self {
            PackageAction::Install(n) => PackageRequest::Install(n@),
            PackageAction::Remove(n) => PackageRequest::Remove(n@),
        }
    }
}

impl PackageRequest {
    pub open spec fn name(self) -> Seq<char> {
        match self {
            PackageRequest::Install(n) => n,
            PackageRequest::Remove(n) => n,
        }
    }
}

impl PackageAction {
    pub fn parse(spec_text: &str) -> (r: PackageAction)
        ensures
            r@ == package_request(spec_text@),
    {
        match without_prefix(spec_text, "-") {
            Some(name) => PackageAction::Remove(name),
            None => PackageAction::Install(spec_text.to_owned()),
        }
    }

    pub fn name(&self) -> (r: &str)
        ensures
            r@ == self@.name(),
    {
        match self {
            PackageAction::Install(name) => name.as_str(),
            PackageAction::Remove(name) => name.as_str(),
        }
    }

    pub fn quoted_name(&self) -> (r: String)
        ensures
            r@ == quoted(self@.name()),
    {
        shell_quote(self.name())
    }

    pub fn is_remove(&self) -> (r: bool)
        ensures
            r == (self@ is Remove),
    {
        match self {
            PackageAction::Remove(_) => true,
            PackageAction::Install(_) => false,
        }
    }
}

/// What an optional list of strings holds.
pub open spec fn optional_texts(v: Option<Vec<String>>) -> Option<Seq<Seq<char>>> {
    match v {
        Some(x) => Some(texts(x@)),
        None => None,
    }
}

// ---- laws ----

/// Nothing that is declared for a router is passed over: each list is taken up with all its
/// entries, in their order.
pub proof fn declarations_are_taken_up_whole(root: Root, i: int)
    ensures
        root@.package_manager == root.package_manager@,
        root@.settings == config_entries(root.settings),
        root@.packages is Some <==> root.packages is Some,
        root.packages matches Some(v) ==> root@.packages->0.len() == v@.len() && (0 <= i < v@.len()
            ==> root@.packages->0[i] == v@[i]@),
        root@.package_sources is Some <==> root.package_sources is Some,
        root.package_sources matches Some(s) ==> {
            let t = root@.package_sources->0;
            &&& t.feeds is Some <==> s.feeds is Some
            &&& t.local_packages is Some <==> s.local_packages is Some
            &&& s.feeds matches Some(v) ==> t.feeds->0.len() == v@.len() && (0 <= i < v@.len()
                ==> t.feeds->0[i] == v@[i]@)
            &&& s.local_packages matches Some(v) ==> t.local_packages->0.len() == v@.len() && (0
                <= i < v@.len() ==> t.local_packages->0[i] == v@[i]@)
        },
        root@.ssh_keys.len() == root.ssh_keys@.len(),
        0 <= i < root.ssh_keys@.len() ==> root@.ssh_keys[i] == root.ssh_keys@[i]@,
        root@.raw_uci is Some <==> root.raw_uci is Some,
        root.raw_uci matches Some(v) ==> root@.raw_uci->0.len() == v@.len() && (0 <= i < v@.len()
            ==> root@.raw_uci->0[i] == v@[i]@),
        root@.files is Some <==> root.files is Some,
        root.files matches Some(v) ==> root@.files->0.len() == v@.len() && (0 <= i < v@.len()
            ==> root@.files->0[i] == v@[i]@),
{
}

/// The encrypted files that are named are all taken up, in their order.
pub proof fn encrypted_files_are_taken_up_whole(files: SopsFiles, i: int)
    ensures
        sops_files(None).len() == 0,
        sops_files(Some(SopsConfig { sops: None })).len() == 0,
        ({
            let s = sops_files(Some(SopsConfig { sops: Some(files) }));
            s.len() == files.files@.len() && (0 <= i < s.len() ==> s[i] == files.files@[i]@)
        }),
{
}

/// A package entry asks for what it names, and for its removal behind a dash: nothing else of the
/// entry is lost.
pub proof fn a_leading_dash_asks_for_removal(name: Seq<char>)
    ensures
        package_request(seq!['-'] + name) == PackageRequest::Remove(name),
        package_request(seq!['-'] + name).name() == name,
        name.len() == 0 || name[0] != '-' ==> package_request(name) == PackageRequest::Install(name)
            && package_request(name).name() == name,
{
    reveal_strlit("-");
    let entry = seq!['-'] + name;
    assert("-"@ =~= seq!['-']);
    assert(entry.subrange(0, 1) =~= "-"@);
    assert(entry.skip(1) =~= name);
    if "-"@.is_prefix_of(name) {
        assert(name.subrange(0, 1)[0] == "-"@[0]);
    }
}

/// What is written of a file is what it is declared to hold.
pub proof fn contents_are_taken_up_whole(s: Seq<char>)
    ensures
        Content::Text(s).digits() == s,
        Content::Base64(s).digits() == s,
{
}

} // verus!
