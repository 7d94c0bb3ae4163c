//! Shell quoting, and the package name that a package file carries.

use crate::utils::split::{strip_suffix, without_suffix};
use crate::utils::text::{
    ascii_digit, before, chars_of, contains_char, is_ascii_digit, text_before, text_of,
};
use std::borrow::Cow;
use vstd::prelude::*;

verus! {

/// One character inside single quotes: a quote closes them, stands escaped, and opens them again.
pub open spec fn escaped_char(c: char) -> Seq<char> {
    if c == '\'' {
        "'\\''"@
    } else {
        seq![c]
    }
}

/// A text as it stands inside single quotes.
pub open spec fn escaped(s: Seq<char>) -> Seq<char>
    decreases s.len(),
{
    if s.len() == 0 {
        Seq::empty()
    } else {
        escaped_char(s[0]) + escaped(s.skip(1))
    }
}

/// A text as one shell word in single quotes.
pub open spec fn quoted(s: Seq<char>) -> Seq<char> {
    "'"@ + escaped(s) + "'"@
}

/// What a shell reads a word as: inside single quotes every character but the closing quote is
/// itself, outside them a backslash takes the next character literally. `None` where the word
/// leaves a quote open or holds an unquoted character.
pub open spec fn shell_reads(s: Seq<char>, inside: bool) -> Option<Seq<char>>
    decreases s.len(),
{
    if s.len() == 0 {
        if inside {
            None
        } else {
            Some(Seq::empty())
        }
    } else if s[0] == '\'' {
        shell_reads(s.skip(1), !inside)
    } else if inside {
        match shell_reads(s.skip(1), true) {
            Some(t) => Some(seq![s[0]] + t),
            None => None,
        }
    } else if s[0] == '\\' && s.len() > 1 {
        match shell_reads(s.skip(2), false) {
            Some(t) => Some(seq![s[1]] + t),
            None => None,
        }
    } else {
        None
    }
}

proof fn lemma_reads_escaped(s: Seq<char>)
    ensures
        shell_reads(escaped(s) + "'"@, true) == Some(s),
    decreases s.len(),
{
    reveal_strlit("'");
    reveal_strlit("'\\''");
    reveal_with_fuel(shell_reads, 2);
    if s.len() == 0 {
        assert(escaped(s) + "'"@ =~= seq!['\'']);
        assert(seq!['\''].skip(1) =~= Seq::<char>::empty());
        assert(s =~= Seq::empty());
    } else {
        let rest = escaped(s.skip(1)) + "'"@;
        lemma_reads_escaped(s.skip(1));
        let all = escaped(s) + "'"@;
        assert(all =~= escaped_char(s[0]) + rest);
        assert(seq![s[0]] + s.skip(1) =~= s);
        if s[0] == '\'' {
            assert(all.skip(1) =~= seq!['\\', '\'', '\''] + rest);
            assert(all.skip(1).skip(2) =~= seq!['\''] + rest);
            assert((seq!['\''] + rest).skip(1) =~= rest);
            assert(shell_reads(seq!['\''] + rest, false) == Some(s.skip(1)));
            assert(shell_reads(all.skip(1), false) == Some(seq!['\''] + s.skip(1)));
        } else {
            assert(all.skip(1) =~= rest);
        }
    }
}

/// Quoting is undone by the shell: whatever a text holds, the shell reads its quoted form as
/// exactly that text.
pub proof fn quoting_round_trip(s: Seq<char>)
    ensures
        shell_reads(quoted(s), false) == Some(s),
{
    reveal_strlit("'");
    lemma_reads_escaped(s);
    assert(quoted(s).skip(1) =~= escaped(s) + "'"@);
}

/// Quoting keeps texts apart.
pub proof fn quoting_is_injective(a: Seq<char>, b: Seq<char>)
    requires
        quoted(a) == quoted(b),
    ensures
        a == b,
{
    quoting_round_trip(a);
    quoting_round_trip(b);
}

proof fn lemma_escaped_plain(s: Seq<char>)
    requires
        !s.contains('\''),
    ensures
        escaped(s) == s,
    decreases s.len(),
{
    if s.len() > 0 {
        assert(s[0] != '\'');
        assert forall|j: int| 0 <= j < s.skip(1).len() implies s.skip(1)[j] != '\'' by {
            assert(s[j + 1] != '\'');
        }
        lemma_escaped_plain(s.skip(1));
        assert(seq![s[0]] + s.skip(1) =~= s);
    } else {
        assert(s =~= Seq::empty());
    }
}

/// Escapes a text for the inside of single quotes. A text without quotes is handed back as it
/// stands.
pub fn escape_single_quotes(s: &str) -> (r: Cow<'_, str>)
    ensures
        r@ == escaped(s@),
        r is Borrowed <==> !s@.contains('\''),
{
    if contains_char(s, '\'') {
        let mut out = String::new();
        push_escaped_single_quotes(&mut out, s);
        assert(out@ =~= escaped(s@));
        Cow::Owned(out)
    } else {
        proof {
            lemma_escaped_plain(s@);
        }
        Cow::Borrowed(s)
    }
}

/// Writes a text behind `out`, escaped for the inside of single quotes.
pub fn push_escaped_single_quotes(out: &mut String, s: &str)
    ensures
        final(out)@ == old(out)@ + escaped(s@),
{
    if !contains_char(s, '\'') {
        proof {
            lemma_escaped_plain(s@);
        }
        out.append(s);
        return;
    }
    let ghost start = out@;
    let v = chars_of(s);
    let mut i: usize = 0;
    assert(v@.skip(0) =~= v@);
    while i < v.len()
        invariant
            i <= v@.len(),
            out@ + escaped(v@.skip(i as int)) == start + escaped(v@),
        decreases v@.len() - i,
    {
        let ghost done = out@;
        let ghost rest = v@.skip(i as int);
        let c = v[i];
        if c == '\'' {
            out.append("'\\''");
        } else {
            out.push(c);
        }
        proof {
            assert(rest.skip(1) =~= v@.skip(i + 1));
            assert(out@ =~= done + escaped_char(c));
            assert(out@ + escaped(v@.skip(i + 1)) =~= done + escaped(rest));
        }
        i += 1;
    }
    assert(out@ + escaped(v@.skip(i as int)) =~= out@);
}

/// A text as one word of the shell.
pub fn shell_quote(s: &str) -> (r: String)
    ensures
        r@ == quoted(s@),
{
    let mut out = String::new();
    out.append("'");
    push_escaped_single_quotes(&mut out, s);
    out.append("'");
    assert(Seq::<char>::empty() + "'"@ =~= "'"@);
    out
}

/// A package file's name without `.ipk` or `.apk`.
pub open spec fn package_stem(file_name: Seq<char>) -> Seq<char> {
    match strip_suffix(file_name, ".ipk"@) {
        Some(s) => s,
        None => match strip_suffix(file_name, ".apk"@) {
            Some(s) => s,
            None => file_name,
        },
    }
}

/// Whether a version starts at `i`: a dash with a digit behind it.
pub open spec fn version_at(s: Seq<char>, i: int) -> bool {
    0 <= i && i + 1 < s.len() && s[i] == '-' && ascii_digit(s[i + 1])
}

/// What stands before the first version, from position `i` on.
pub open spec fn name_len(s: Seq<char>, i: int) -> int
    decreases s.len() - i,
{
    if i >= s.len() || version_at(s, i) {
        i
    } else {
        name_len(s, i + 1)
    }
}

/// The package name in a package file's name: up to the first underscore where the file is an
/// `.ipk` or has one (`name_version_arch`), else up to the first version (`name-1.2-r3`).
pub open spec fn package_name(file_name: Seq<char>) -> Seq<char> {
    let stem = package_stem(file_name);
    if ".ipk"@.is_suffix_of(file_name) || stem.contains('_') {
        before(stem, '_')
    } else {
        stem.take(name_len(stem, 0))
    }
}

/// The name of the package that a package file holds.
pub fn extract_package_name(file_name: &str) -> (r: String)
    ensures
        r@ == package_name(file_name@),
{
    let ipk = without_suffix(file_name, ".ipk");
    let is_ipk = ipk.is_some();
    let stem = match ipk {
        Some(s) => s,
        None => match without_suffix(file_name, ".apk") {
            Some(s) => s,
            None => file_name.to_owned(),
        },
    };
    assert(stem@ == package_stem(file_name@));
    if is_ipk || contains_char(stem.as_str(), '_') {
        return text_before(stem.as_str(), '_');
    }
    let v = chars_of(stem.as_str());
    let mut i: usize = 0;
    while i < v.len() && !(v[i] == '-' && v.len() - i > 1 && is_ascii_digit(v[i + 1]))
        invariant
            i <= v@.len(),
            name_len(v@, 0) == name_len(v@, i as int),
        decreases v@.len() - i,
    {
        i += 1;
    }
    let r = text_of(&v, 0, i);
    assert(r@ =~= stem@.take(i as int));
    r
}

} // verus!
