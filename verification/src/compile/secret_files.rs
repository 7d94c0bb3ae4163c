//! Secrets out of documents: JSON objects whose members are the secrets.

use crate::compile::secrets::Secrets;
use crate::utils::error::{ConfigError, Failure};
use crate::utils::order::{lemma_text_order, sort_texts, sorted, sorting_forgets_order, text_order};
use crate::utils::split::{strip_suffix, without_suffix};
use crate::utils::text::texts;
use crate::utils::text_map::TextMap;
use vstd::prelude::*;
use vstd::seq_lib::group_to_multiset_ensures;

verus! {

// ---- documents ----

/// A member's value. A value that is neither text, number nor truth value is held as JSON.
#[derive(Debug)]
pub enum Member {
    Text(String),
    Number(String),
    Bool(bool),
    Other(String),
}

/// A member's value as the contracts speak of it.
pub enum MemberValue {
    Text(Seq<char>),
    Number(Seq<char>),
    Bool(bool),
    Other(Seq<char>),
}

impl View for Member {
    type V = MemberValue;

    open spec fn view(&self) -> MemberValue {
        match self {
            Member::Text(s) => MemberValue::Text(s@),
            Member::Number(s) => MemberValue::Number(s@),
            Member::Bool(b) => MemberValue::Bool(*b),
            Member::Other(s) => MemberValue::Other(s@),
        }
    }
}

/// The members of an object in their order.
pub type Members = Seq<(Seq<char>, MemberValue)>;

pub open spec fn members(v: Seq<(String, Member)>) -> Members {
    Seq::new(v.len(), |i: int| (v[i].0@, v[i].1@))
}

/// A document that was read: the members of an object, nothing where it is no object, or the
/// parser's complaint.
pub open spec fn document(r: Result<Option<Vec<(String, Member)>>, String>) -> Result<
    Option<Members>,
    Seq<char>,
> {
    match r {
        Ok(Some(v)) => Ok(Some(members(v@))),
        Ok(None) => Ok(None),
        Err(e) => Err(e@),
    }
}

/// What the JSON parser makes of a document.
pub uninterp spec fn parsed(bytes: Seq<u8>) -> Result<Option<Members>, Seq<char>>;

/// `serde_json::from_slice` into a `serde_json::Value`: what it returns is a function of the
/// bytes. The members of an object are told apart by their variant; numbers, and values that are
/// neither text, number nor truth value, come as serde_json writes them. Which documents are JSON,
/// and how numbers and errors are written, is not stated.
#[verifier::external_body]
fn read_document(bytes: &[u8]) -> (r: Result<Option<Vec<(String, Member)>>, String>)
    ensures
        document(r) == parsed(bytes@),
{
    match serde_json::from_slice::<serde_json::Value>(bytes) {
        Ok(serde_json::Value::Object(map)) => Ok(Some(map.into_iter().map(|(k, v)| (k, match v {
            serde_json::Value::String(s) => Member::Text(s),
            serde_json::Value::Number(n) => Member::Number(n.to_string()),
            serde_json::Value::Bool(b) => Member::Bool(b),
            other => Member::Other(other.to_string()),
        })).collect())),
        Ok(_) => Ok(None),
        Err(e) => Err(e.to_string()),
    }
}

// ---- members ----

/// A secret as text.
pub open spec fn member_text(v: MemberValue) -> Seq<char> {
    match v {
        MemberValue::Text(s) => s,
        MemberValue::Number(s) => s,
        MemberValue::Bool(b) => if b {
            "true"@
        } else {
            "false"@
        },
        MemberValue::Other(s) => s,
    }
}

fn text_of_member(v: &Member) -> (r: String)
    ensures
        r@ == member_text(v@),
{
    match v {
        Member::Text(s) => s.clone(),
        Member::Number(s) => s.clone(),
        Member::Bool(b) => if *b {
            "true".to_owned()
        } else {
            "false".to_owned()
        },
        Member::Other(s) => s.clone(),
    }
}

/// The secrets after the first `n` members: each replaces what was there. The member `sops` is
/// about the encryption and is no secret.
pub open spec fn replaced_by(m: Secrets, v: Members, n: nat) -> Secrets
    decreases n,
{
    if n == 0 || n > v.len() {
        m
    } else {
        let before = replaced_by(m, v, (n - 1) as nat);
        if v[n - 1].0 == "sops"@ {
            before
        } else {
            before.insert(v[n - 1].0, member_text(v[n - 1].1))
        }
    }
}

/// The first member, from `i` on, whose secret is there already with another value.
pub open spec fn conflict(m: Secrets, v: Members, i: nat) -> Option<Seq<char>>
    decreases v.len() - i,
{
    if i >= v.len() {
        None
    } else {
        let (name, value) = v[i as int];
        let before = replaced_by(m, v, i);
        if name != "sops"@ && before.dom().contains(name) && before[name] != member_text(value) {
            Some(name)
        } else {
            conflict(m, v, i + 1)
        }
    }
}

/// The error for a secret with two values.
pub open spec fn conflict_error(name: Seq<char>, path: Seq<char>) -> Failure {
    Failure::Validation(
        "Secret key '"@ + name
            + "' conflicts with different values across files. File causing conflict: '"@ + path
            + "'"@,
    )
}

/// Adds the members of a document to the secrets, each in place of what was there.
pub fn replace_secrets(secrets: &mut TextMap<String>, list: &Vec<(String, Member)>)
    ensures
        final(secrets)@ == replaced_by(old(secrets)@, members(list@), list@.len()),
{
    let ghost m = secrets@;
    let ghost v = members(list@);
    let mut i: usize = 0;
    while i < list.len()
        invariant
            i <= list@.len() == v.len(),
            v == members(list@),
            secrets@ == replaced_by(m, v, i as nat),
        decreases list@.len() - i,
    {
        assert(v[i as int] == (list@[i as int].0@, list@[i as int].1@));
        if !list[i].0.as_str().eq("sops") {
            secrets.insert(list[i].0.clone(), text_of_member(&list[i].1));
        }
        i += 1;
    }
}

/// Adds the members of the document at `path` to the secrets. A secret may come twice only with
/// the same value.
pub fn merge_secrets(secrets: &mut TextMap<String>, list: &Vec<(String, Member)>, path: &str) -> (r:
    Result<(), ConfigError>)
    ensures
        match (r, conflict(old(secrets)@, members(list@), 0)) {
            (Ok(_), None) => final(secrets)@ == replaced_by(
                old(secrets)@,
                members(list@),
                list@.len(),
            ),
            (Err(e), Some(name)) => e@ == conflict_error(name, path@),
            _ => false,
        },
{
    let ghost m = secrets@;
    let ghost v = members(list@);
    let mut i: usize = 0;
    while i < list.len()
        invariant
            i <= list@.len() == v.len(),
            v == members(list@),
            m == old(secrets)@,
            secrets@ == replaced_by(m, v, i as nat),
            conflict(m, v, 0) == conflict(m, v, i as nat),
        decreases list@.len() - i,
    {
        assert(v[i as int] == (list@[i as int].0@, list@[i as int].1@));
        let name = list[i].0.as_str();
        if !name.eq("sops") {
            let text = text_of_member(&list[i].1);
            let clash = match secrets.get(name) {
                Some(old_text) => !old_text.as_str().eq(text.as_str()),
                None => false,
            };
            if clash {
                let mut msg = "Secret key '".to_owned();
                msg.append(name);
                msg.append(
                    "' conflicts with different values across files. File causing conflict: '",
                );
                msg.append(path);
                msg.append("'");
                return Err(ConfigError::Validation(msg));
            }
            secrets.insert(list[i].0.clone(), text);
        }
        i += 1;
    }
    Ok(())
}

// ---- a directory of documents ----

/// Whether a file of that name holds secrets: it has the extension `json`.
pub open spec fn json_file(name: Seq<char>) -> bool {
    match strip_suffix(name, ".json"@) {
        Some(stem) => stem.len() > 0,
        None => false,
    }
}

/// An entry of a directory.
#[derive(Debug)]
pub struct DirEntry {
    pub name: String,
    pub is_file: bool,
}

/// The names of the entries of a directory, and whether they are files.
pub open spec fn listing(entries: Seq<DirEntry>) -> Seq<(Seq<char>, bool)> {
    Seq::new(entries.len(), |i: int| (entries[i].name@, entries[i].is_file))
}

/// The names, among the first `n` entries, of files that hold secrets.
pub open spec fn json_files(l: Seq<(Seq<char>, bool)>, n: nat) -> Seq<Seq<char>>
    decreases n,
{
    if n == 0 || n > l.len() {
        Seq::empty()
    } else if l[n - 1].1 && json_file(l[n - 1].0) {
        json_files(l, (n - 1) as nat).push(l[n - 1].0)
    } else {
        json_files(l, (n - 1) as nat)
    }
}

/// Picks, from the entries of a directory, the names of the files that hold secrets, in the order
/// in which they are read.
pub fn secret_file_names(entries: &Vec<DirEntry>) -> (r: Vec<String>)
    ensures
        texts(r@) == sorted(json_files(listing(entries@), entries@.len())),
{
    let ghost all = listing(entries@);
    let mut picked: Vec<String> = Vec::new();
    let mut i: usize = 0;
    assert(texts(picked@) =~= json_files(all, 0));
    while i < entries.len()
        invariant
            i <= entries@.len() == all.len(),
            all == listing(entries@),
            texts(picked@) == json_files(all, i as nat),
        decreases entries@.len() - i,
    {
        let ghost before = texts(picked@);
        let holds = match without_suffix(entries[i].name.as_str(), ".json") {
            Some(stem) => !stem.as_str().is_empty(),
            None => false,
        };
        if entries[i].is_file && holds {
            picked.push(entries[i].name.clone());
            assert(texts(picked@) =~= before.push(all[i as int].0));
        }
        i += 1;
    }
    sort_texts(&picked)
}

/// A file of a directory of secrets.
#[derive(Debug)]
pub struct SecretFile {
    pub path: String,
    pub bytes: Vec<u8>,
}

/// The outcome of reading files in turn: the secrets, or the first error.
pub open spec fn loaded(files: Seq<SecretFile>, n: nat) -> Result<Secrets, Failure>
    decreases n,
{
    if n == 0 || n > files.len() {
        Ok(Map::empty())
    } else {
        match loaded(files, (n - 1) as nat) {
            Err(e) => Err(e),
            Ok(m) => add_document(m, parsed(files[n - 1].bytes@), files[n - 1].path@),
        }
    }
}

/// The outcome of adding the document at `path`.
pub open spec fn add_document(
    m: Secrets,
    doc: Result<Option<Members>, Seq<char>>,
    path: Seq<char>,
) -> Result<Secrets, Failure> {
    match doc {
        Err(e) => Err(Failure::Json(e)),
        Ok(None) => Ok(m),
        Ok(Some(v)) => match conflict(m, v, 0) {
            Some(name) => Err(conflict_error(name, path)),
            None => Ok(replaced_by(m, v, v.len())),
        },
    }
}

/// Reads the secrets out of files, in their order. A document that is no object holds none.
pub fn load_secrets_dir(files: &Vec<SecretFile>) -> (r: Result<TextMap<String>, ConfigError>)
    ensures
        match (r, loaded(files@, files@.len())) {
            (Ok(t), Ok(m)) => t@ == m,
            (Err(e), Err(f)) => e@ == f,
            _ => false,
        },
{
    let mut secrets: TextMap<String> = TextMap::new();
    let mut i: usize = 0;
    while i < files.len()
        invariant
            i <= files@.len(),
            loaded(files@, i as nat) == Ok::<Secrets, Failure>(secrets@),
        decreases files@.len() - i,
    {
        let ghost m = secrets@;
        let doc = read_document(files[i].bytes.as_slice());
        match doc {
            Err(e) => {
                proof {
                    lemma_loaded_fails(files@, (i + 1) as nat);
                }
                return Err(ConfigError::Json(e));
            },
            Ok(None) => {},
            Ok(Some(list)) => {
                match merge_secrets(&mut secrets, &list, files[i].path.as_str()) {
                    Ok(_) => {},
                    Err(e) => {
                        proof {
                            lemma_loaded_fails(files@, (i + 1) as nat);
                        }
                        return Err(e);
                    },
                }
            },
        }
        i += 1;
    }
    Ok(secrets)
}

/// The first error is the outcome.
proof fn lemma_loaded_fails(files: Seq<SecretFile>, n: nat)
    requires
        n <= files.len(),
        loaded(files, n) is Err,
    ensures
        loaded(files, files.len()) == loaded(files, n),
    decreases files.len() - n,
{
    if n < files.len() {
        lemma_loaded_fails(files, n + 1);
    }
}

// ---- encrypted documents ----

/// What became of decrypting a file.
#[derive(Debug)]
pub enum SopsOutcome {
    /// There is no such file.
    NotFound,
    /// The `sops` program could not be run; the text says why.
    NotRun(String),
    /// The `sops` program failed.
    Failed,
    /// What the `sops` program wrote.
    Decrypted(Vec<u8>),
}

/// The secrets after a file was decrypted, or the error.
pub open spec fn decrypted(m: Secrets, file: Seq<char>, outcome: SopsOutcome) -> Result<
    Secrets,
    Failure,
> {
    match outcome {
        SopsOutcome::NotFound => Err(
            Failure::Sops("Configured SOPS file not found: "@ + file),
        ),
        SopsOutcome::NotRun(why) => Err(Failure::Sops("Failed to run sops: "@ + why@)),
        SopsOutcome::Failed => Err(Failure::Sops("Failed to decrypt sops file: "@ + file)),
        SopsOutcome::Decrypted(bytes) => match parsed(bytes@) {
            Err(e) => Err(Failure::Sops("Failed to parse decrypted JSON: "@ + e)),
            Ok(None) => Ok(m),
            Ok(Some(v)) => Ok(replaced_by(m, v, v.len())),
        },
    }
}

fn sops_error(what: &str, detail: &str) -> (r: ConfigError)
    ensures
        r@ == Failure::Sops(what@ + detail@),
{
    let mut m = what.to_owned();
    m.append(detail);
    ConfigError::Sops(m)
}

/// Adds the secrets of an encrypted file, each in place of what was there.
pub fn add_decrypted(secrets: &mut TextMap<String>, file: &str, outcome: &SopsOutcome) -> (r: Result<
    (),
    ConfigError,
>)
    ensures
        match (r, decrypted(old(secrets)@, file@, *outcome)) {
            (Ok(_), Ok(m)) => final(secrets)@ == m,
            (Err(e), Err(f)) => e@ == f && final(secrets)@ == old(secrets)@,
            _ => false,
        },
{
    match outcome {
        SopsOutcome::NotFound => Err(sops_error("Configured SOPS file not found: ", file)),
        SopsOutcome::NotRun(why) => Err(sops_error("Failed to run sops: ", why.as_str())),
        SopsOutcome::Failed => Err(sops_error("Failed to decrypt sops file: ", file)),
        SopsOutcome::Decrypted(bytes) => match read_document(bytes.as_slice()) {
            Err(e) => Err(sops_error("Failed to parse decrypted JSON: ", e.as_str())),
            Ok(None) => Ok(()),
            Ok(Some(list)) => {
                replace_secrets(secrets, &list);
                Ok(())
            },
        },
    }
}

/// A file that was decrypted, or was to be.
#[derive(Debug)]
pub struct SopsRun {
    pub file: String,
    pub outcome: SopsOutcome,
}

/// The outcome of decrypting files in turn: the secrets, or the first error.
pub open spec fn all_decrypted(runs: Seq<SopsRun>, n: nat) -> Result<Secrets, Failure>
    decreases n,
{
    if n == 0 || n > runs.len() {
        Ok(Map::empty())
    } else {
        match all_decrypted(runs, (n - 1) as nat) {
            Err(e) => Err(e),
            Ok(m) => decrypted(m, runs[n - 1].file@, runs[n - 1].outcome),
        }
    }
}

/// Collects the secrets of encrypted files, in their order.
pub fn decrypt_sops_mem(runs: &Vec<SopsRun>) -> (r: Result<TextMap<String>, ConfigError>)
    ensures
        match (r, all_decrypted(runs@, runs@.len())) {
            (Ok(t), Ok(m)) => t@ == m,
            (Err(e), Err(f)) => e@ == f,
            _ => false,
        },
{
    let mut secrets: TextMap<String> = TextMap::new();
    let mut i: usize = 0;
    while i < runs.len()
        invariant
            i <= runs@.len(),
            all_decrypted(runs@, i as nat) == Ok::<Secrets, Failure>(secrets@),
        decreases runs@.len() - i,
    {
        match add_decrypted(&mut secrets, runs[i].file.as_str(), &runs[i].outcome) {
            Ok(_) => {},
            Err(e) => {
                proof {
                    lemma_decrypted_fails(runs@, (i + 1) as nat);
                }
                return Err(e);
            },
        }
        i += 1;
    }
    Ok(secrets)
}

/// The first error is the outcome.
proof fn lemma_decrypted_fails(runs: Seq<SopsRun>, n: nat)
    requires
        n <= runs.len(),
        all_decrypted(runs, n) is Err,
    ensures
        all_decrypted(runs, runs.len()) == all_decrypted(runs, n),
    decreases runs.len() - n,
{
    if n < runs.len() {
        lemma_decrypted_fails(runs, n + 1);
    }
}

/// The file to decrypt next, after those that were: none once one of them gave an error.
pub fn next_sops_file(files: &Vec<String>, runs: &Vec<SopsRun>) -> (r: Option<String>)
    ensures
        r is Some <==> all_decrypted(runs@, runs@.len()) is Ok && runs@.len() < files@.len(),
        r matches Some(file) ==> file@ == files@[runs@.len() as int]@,
{
    if runs.len() < files.len() && decrypt_sops_mem(runs).is_ok() {
        Some(files[runs.len()].clone())
    } else {
        None
    }
}

/// All the secrets: those of a directory come in place of encrypted ones.
pub fn all_secrets(decrypted: TextMap<String>, from_dir: &TextMap<String>) -> (r: TextMap<String>)
    ensures
        r@ == decrypted@.union_prefer_right(from_dir@),
{
    let mut all = decrypted;
    all.extend(from_dir);
    all
}

// ---- laws ----

proof fn lemma_no_sops(m: Secrets, v: Members, n: nat)
    requires
        !m.dom().contains("sops"@),
        n <= v.len(),
    ensures
        !replaced_by(m, v, n).dom().contains("sops"@),
    decreases n,
{
    if n > 0 {
        lemma_no_sops(m, v, (n - 1) as nat);
    }
}

/// The data about the encryption never becomes a secret.
pub proof fn sops_is_no_secret(files: Seq<SecretFile>, n: nat)
    requires
        n <= files.len(),
    ensures
        loaded(files, n) matches Ok(m) ==> !m.dom().contains("sops"@),
    decreases n,
{
    if n > 0 {
        sops_is_no_secret(files, (n - 1) as nat);
        if let Ok(m) = loaded(files, (n - 1) as nat) {
            if let Ok(Some(v)) = parsed(files[n - 1].bytes@) {
                lemma_no_sops(m, v, v.len());
            }
        }
    }
}

proof fn lemma_kept_values(m: Secrets, v: Members, i: nat, name: Seq<char>)
    requires
        i <= v.len(),
        conflict(m, v, i) is None,
        replaced_by(m, v, i).dom().contains(name),
    ensures
        replaced_by(m, v, v.len()).dom().contains(name),
        replaced_by(m, v, v.len())[name] == replaced_by(m, v, i)[name],
    decreases v.len() - i,
{
    if i < v.len() {
        lemma_kept_values(m, v, i + 1, name);
    }
}

/// Files that load together agree: a secret that one file gives keeps its value whatever files
/// are read after it.
pub proof fn secrets_never_change(files: Seq<SecretFile>, i: nat, n: nat, name: Seq<char>)
    requires
        i <= n <= files.len(),
    ensures
        match (loaded(files, i), loaded(files, n)) {
            (Ok(early), Ok(late)) => early.dom().contains(name) ==> late.dom().contains(name)
                && late[name] == early[name],
            (Err(_), Ok(_)) => false,
            (_, Err(_)) => true,
        },
    decreases n - i,
{
    if i < n {
        secrets_never_change(files, i, (n - 1) as nat, name);
        if let (Ok(early), Ok(m)) = (loaded(files, i), loaded(files, (n - 1) as nat)) {
            if let Ok(Some(v)) = parsed(files[n - 1].bytes@) {
                if early.dom().contains(name) && conflict(m, v, 0) is None {
                    lemma_kept_values(m, v, 0, name);
                }
            }
        }
    }
}

// ---- laws: directories ----

proof fn lemma_json_files(l: Seq<(Seq<char>, bool)>, n: nat, x: Seq<char>)
    requires
        n <= l.len(),
    ensures
        json_files(l, n).to_multiset().count(x) == if json_file(x) {
            l.take(n as int).to_multiset().count((x, true))
        } else {
            0
        },
    decreases n,
{
    broadcast use group_to_multiset_ensures;

    if n > 0 {
        lemma_json_files(l, (n - 1) as nat, x);
        let before = json_files(l, (n - 1) as nat);
        let e = l[n - 1];
        assert(l.take(n as int) =~= l.take(n - 1).push(e));
        assert(l.take(n as int).to_multiset() =~= l.take(n - 1).to_multiset().insert(e));
        assert(before.push(e.0).to_multiset() =~= before.to_multiset().insert(e.0));
    } else {
        assert(l.take(0) =~= Seq::empty());
        assert(Seq::<Seq<char>>::empty().to_multiset().len() == 0);
    }
}

/// The order in which a directory lists its entries makes no difference to the order in which
/// its files are read.
pub proof fn listing_order_is_no_difference(a: Seq<(Seq<char>, bool)>, b: Seq<(Seq<char>, bool)>)
    requires
        a.to_multiset() == b.to_multiset(),
    ensures
        sorted(json_files(a, a.len())) == sorted(json_files(b, b.len())),
{
    assert(a.take(a.len() as int) =~= a);
    assert(b.take(b.len() as int) =~= b);
    let x = json_files(a, a.len());
    let y = json_files(b, b.len());
    assert forall|t: Seq<char>| x.to_multiset().count(t) == y.to_multiset().count(t) by {
        lemma_json_files(a, a.len(), t);
        lemma_json_files(b, b.len(), t);
    }
    assert(x.to_multiset() =~= y.to_multiset());
    sorting_forgets_order(x, y);
}

/// Of a directory, exactly the files with the extension `json` are read: no other file, and no
/// subdirectory, whatever its name.
pub proof fn json_files_alone_are_read(l: Seq<(Seq<char>, bool)>, name: Seq<char>)
    ensures
        sorted(json_files(l, l.len())).contains(name) <==> l.contains((name, true)) && json_file(name),
{
    broadcast use group_to_multiset_ensures;

    let x = json_files(l, l.len());
    assert(l.take(l.len() as int) =~= l);
    lemma_json_files(l, l.len(), name);
    lemma_text_order();
    x.lemma_sort_by_ensures(text_order());
    assert(sorted(x).to_multiset() == x.to_multiset());
}

// ---- laws: what a directory holds ----

/// Whether one of the first `n` members is a secret of that name and value.
pub open spec fn member_gives(v: Members, n: nat, name: Seq<char>, value: Seq<char>) -> bool {
    name != "sops"@ && exists|j: int|
        0 <= j < n && (#[trigger] v[j]).0 == name && member_text(v[j].1) == value
}

/// Whether the document of a file gives a secret of that name and value.
pub open spec fn file_gives(f: SecretFile, name: Seq<char>, value: Seq<char>) -> bool {
    parsed(f.bytes@) matches Ok(Some(v)) && member_gives(v, v.len(), name, value)
}

/// Whether one of the first `n` files gives a secret of that name and value.
pub open spec fn files_give(
    files: Seq<SecretFile>,
    n: nat,
    name: Seq<char>,
    value: Seq<char>,
) -> bool {
    exists|k: int| 0 <= k < n && file_gives(#[trigger] files[k], name, value)
}

/// Whether one of the first `n` files is no JSON.
pub open spec fn files_malformed(files: Seq<SecretFile>, n: nat) -> bool {
    exists|k: int| 0 <= k < n && parsed((#[trigger] files[k]).bytes@) is Err
}

/// Whether the first `n` files give a secret two values.
pub open spec fn files_disagree(files: Seq<SecretFile>, n: nat) -> bool {
    exists|name: Seq<char>, a: Seq<char>, b: Seq<char>|
        a != b && #[trigger] files_give(files, n, name, a) && #[trigger] files_give(
            files,
            n,
            name,
            b,
        )
}

/// Whether secrets hold one of that name and value.
pub open spec fn held_secret(m: Secrets, name: Seq<char>, value: Seq<char>) -> bool {
    m.dom().contains(name) && m[name] == value
}

/// Whether member `j` has a value other than the one that is there before it.
spec fn clashes(m: Secrets, v: Members, j: int) -> bool {
    let before = replaced_by(m, v, j as nat);
    v[j].0 != "sops"@ && before.dom().contains(v[j].0) && before[v[j].0] != member_text(v[j].1)
}

/// A conflict is the first member that clashes.
proof fn lemma_conflict(m: Secrets, v: Members, i: nat)
    requires
        i <= v.len(),
        forall|j: int| 0 <= j < i ==> !#[trigger] clashes(m, v, j),
    ensures
        conflict(m, v, i) is None ==> forall|j: int| 0 <= j < v.len() ==> !#[trigger] clashes(m, v, j),
        conflict(m, v, i) is Some ==> exists|j: int|
            0 <= j < v.len() && #[trigger] clashes(m, v, j) && forall|k: int|
                0 <= k < j ==> !#[trigger] clashes(m, v, k),
    decreases v.len() - i,
{
    if i < v.len() {
        if !clashes(m, v, i as int) {
            lemma_conflict(m, v, i + 1);
        }
    }
}

/// Where no member clashes, the secrets are those of before and the members.
proof fn lemma_replaced(m: Secrets, v: Members, n: nat, name: Seq<char>, value: Seq<char>)
    requires
        n <= v.len(),
        forall|j: int| 0 <= j < n ==> !#[trigger] clashes(m, v, j),
    ensures
        held_secret(replaced_by(m, v, n), name, value) <==> held_secret(m, name, value)
            || member_gives(v, n, name, value),
    decreases n,
{
    if n > 0 {
        lemma_replaced(m, v, (n - 1) as nat, name, value);
        assert(!clashes(m, v, n - 1));
        if member_gives(v, n, name, value) && !member_gives(v, (n - 1) as nat, name, value) {
            let j = choose|j: int|
                0 <= j < n && (#[trigger] v[j]).0 == name && member_text(v[j].1) == value;
            assert(j == n - 1);
        }
    }
}

proof fn lemma_files_give(
    files: Seq<SecretFile>,
    n: nat,
    name: Seq<char>,
    value: Seq<char>,
)
    requires
        0 < n <= files.len(),
    ensures
        files_give(files, n, name, value) <==> files_give(files, (n - 1) as nat, name, value)
            || file_gives(files[n - 1], name, value),
{
}

proof fn lemma_loaded(files: Seq<SecretFile>, n: nat)
    requires
        n <= files.len(),
    ensures
        match loaded(files, n) {
            Ok(m) => !files_malformed(files, n) && forall|name: Seq<char>, value: Seq<char>|
                #[trigger] held_secret(m, name, value) <==> files_give(files, n, name, value),
            Err(_) => files_malformed(files, n) || files_disagree(files, n),
        },
    decreases n,
{
    if n > 0 {
        let i = (n - 1) as nat;
        let f = files[n - 1];
        lemma_loaded(files, i);
        match loaded(files, i) {
            Err(_) => {
                if files_disagree(files, i) {
                    let (name, a, b) = choose|name: Seq<char>, a: Seq<char>, b: Seq<char>|
                        a != b && #[trigger] files_give(files, i, name, a) && #[trigger] files_give(
                            files,
                            i,
                            name,
                            b,
                        );
                    lemma_files_give(files, n, name, a);
                    lemma_files_give(files, n, name, b);
                }
            },
            Ok(m) => {
                if let Ok(Some(v)) = parsed(f.bytes@) {
                    lemma_conflict(m, v, 0);
                    if conflict(m, v, 0) is None {
                        assert forall|name: Seq<char>, value: Seq<char>| #[trigger]
                            held_secret(replaced_by(m, v, v.len()), name, value) <==> files_give(
                                files,
                                n,
                                name,
                                value,
                            ) by {
                            lemma_replaced(m, v, v.len(), name, value);
                            lemma_files_give(files, n, name, value);
                            assert(held_secret(m, name, value) <==> files_give(files, i, name, value));
                        }
                    } else {
                        let j = choose|j: int|
                            0 <= j < v.len() && #[trigger] clashes(m, v, j) && forall|k: int|
                                0 <= k < j ==> !#[trigger] clashes(m, v, k);
                        let name = v[j].0;
                        let a = replaced_by(m, v, j as nat)[name];
                        let b = member_text(v[j].1);
                        lemma_replaced(m, v, j as nat, name, a);
                        assert(held_secret(m, name, a) <==> files_give(files, i, name, a));
                        assert(member_gives(v, v.len(), name, b));
                        assert(member_gives(v, j as nat, name, a) ==> member_gives(
                            v,
                            v.len(),
                            name,
                            a,
                        ));
                        lemma_files_give(files, n, name, a);
                        lemma_files_give(files, n, name, b);
                    }
                } else if let Ok(None) = parsed(f.bytes@) {
                    assert forall|name: Seq<char>, value: Seq<char>| #[trigger]
                        held_secret(m, name, value) <==> files_give(files, n, name, value) by {
                        lemma_files_give(files, n, name, value);
                        assert(held_secret(m, name, value) <==> files_give(files, i, name, value));
                    }
                }
            },
        }
    }
}

/// A directory's secrets are exactly the members of its documents, each with its one value. It is
/// refused if and only if a document is no JSON or a secret has two values.
pub proof fn directories_hold_their_documents(files: Seq<SecretFile>)
    ensures
        loaded(files, files.len()) is Err <==> files_malformed(files, files.len())
            || files_disagree(files, files.len()),
        loaded(files, files.len()) matches Ok(m) ==> forall|name: Seq<char>, value: Seq<char>|
            #[trigger] held_secret(m, name, value) <==> files_give(files, files.len(), name, value),
{
    let n = files.len();
    lemma_loaded(files, n);
    if let Ok(m) = loaded(files, n) {
        if files_disagree(files, n) {
            let (name, a, b) = choose|name: Seq<char>, a: Seq<char>, b: Seq<char>|
                a != b && #[trigger] files_give(files, n, name, a) && #[trigger] files_give(
                    files,
                    n,
                    name,
                    b,
                );
            assert(held_secret(m, name, a) && held_secret(m, name, b));
        }
    }
}

/// What has the extension `json` is a stem that is not empty, with `.json` behind it.
pub proof fn extensions_stand_behind_a_stem(name: Seq<char>)
    ensures
        json_file(name) <==> exists|stem: Seq<char>|
            stem.len() > 0 && name == #[trigger] (stem + ".json"@),
{
    reveal_strlit(".json");
    let end = ".json"@;
    if json_file(name) {
        let stem = name.take(name.len() - 5);
        assert(name.subrange(name.len() - 5, name.len() as int) =~= end);
        assert(name =~= stem + end);
    }
    if exists|stem: Seq<char>| stem.len() > 0 && name == #[trigger] (stem + end) {
        let stem = choose|stem: Seq<char>| stem.len() > 0 && name == #[trigger] (stem + end);
        assert(name.subrange(name.len() - 5, name.len() as int) =~= end);
        assert(name.take(name.len() - 5) =~= stem);
    }
}

} // verus!
