//! The textual keys of UCI sections and options, and which of them name a section.
//!
//! A named section is `config.name`, an anonymous one `config.@type[index]`; an option's key is
//! its section's key, a dot and the option's name.

use crate::utils::split::{decimal, decimal_text};
use crate::utils::text::{contains_char, count, count_char, lemma_count_add, lemma_count_zero};
use vstd::prelude::*;

verus! {

pub open spec fn named_section(config: Seq<char>, name: Seq<char>) -> Seq<char> {
    config + "."@ + name
}

pub open spec fn anonymous_section(config: Seq<char>, ty: Seq<char>, idx: nat) -> Seq<char> {
    config + ".@"@ + ty + "["@ + decimal(idx) + "]"@
}

pub open spec fn named_option(config: Seq<char>, name: Seq<char>, opt: Seq<char>) -> Seq<char> {
    named_section(config, name) + "."@ + opt
}

pub open spec fn anonymous_option(
    config: Seq<char>,
    ty: Seq<char>,
    idx: nat,
    opt: Seq<char>,
) -> Seq<char> {
    anonymous_section(config, ty, idx) + "."@ + opt
}

/// Whether a key has the shape of a named section's: one dot, and neither `@` nor `[`.
pub open spec fn names_section(key: Seq<char>) -> bool {
    !key.contains('@') && !key.contains('[') && count(key, '.') == 1
}

/// The key of a named section: `config.name`.
pub fn named_section_key(config: &str, name: &str) -> (r: String)
    ensures
        r@ == named_section(config@, name@),
{
    let mut s = config.to_owned();
    s.append(".");
    s.append(name);
    s
}

/// The key of an anonymous section: `config.@type[idx]`.
pub fn anonymous_section_key(config: &str, ty: &str, idx: usize) -> (r: String)
    ensures
        r@ == anonymous_section(config@, ty@, idx as nat),
{
    let mut s = config.to_owned();
    s.append(".@");
    s.append(ty);
    s.append("[");
    s.append(decimal_text(idx as u64).as_str());
    s.append("]");
    s
}

/// The key of an option in a named section: `config.name.opt`.
pub fn named_option_key(config: &str, name: &str, opt: &str) -> (r: String)
    ensures
        r@ == named_option(config@, name@, opt@),
{
    let mut s = named_section_key(config, name);
    s.append(".");
    s.append(opt);
    s
}

/// The key of an option in an anonymous section: `config.@type[idx].opt`.
pub fn anonymous_option_key(config: &str, ty: &str, idx: usize, opt: &str) -> (r: String)
    ensures
        r@ == anonymous_option(config@, ty@, idx as nat, opt@),
{
    let mut s = anonymous_section_key(config, ty, idx);
    s.append(".");
    s.append(opt);
    s
}

/// Whether a key that `uci show` printed is that of a named section (`config.name`).
pub fn is_named_section_key(key: &str) -> (r: bool)
    ensures
        r == names_section(key@),
{
    !contains_char(key, '@') && !contains_char(key, '[') && count_char(key, '.') == 1
}

/// A part of a key that holds none of the characters that give a key its shape.
pub open spec fn plain_part(s: Seq<char>) -> bool {
    !s.contains('.') && !s.contains('@') && !s.contains('[')
}

/// A named section's key is told to be one, whatever plain names it is made of.
pub proof fn named_keys_name_sections(config: Seq<char>, name: Seq<char>)
    requires
        plain_part(config),
        plain_part(name),
    ensures
        names_section(named_section(config, name)),
{
    reveal_strlit(".");
    let key = named_section(config, name);
    lemma_count_add(config + "."@, name, '.');
    lemma_count_add(config, "."@, '.');
    lemma_count_zero(config, '.');
    lemma_count_zero(name, '.');
    assert("."@.drop_last() =~= Seq::empty());
    assert(count("."@, '.') == 1) by {
        reveal_with_fuel(count, 2);
    }
    assert forall|c: char| c == '@' || c == '[' implies !key.contains(c) by {
        if key.contains(c) {
            let k = choose|k: int| 0 <= k < key.len() && key[k] == c;
            if k < config.len() {
                assert(config[k] == c);
            } else if k > config.len() {
                assert(name[k - config.len() - 1] == c);
            }
        }
    }
}

/// An anonymous section's key is never taken for a named section's.
pub proof fn anonymous_keys_name_no_section(config: Seq<char>, ty: Seq<char>, idx: nat)
    ensures
        !names_section(anonymous_section(config, ty, idx)),
{
    reveal_strlit(".@");
    let key = anonymous_section(config, ty, idx);
    assert(key[config.len() as int + 1] == '@');
}

/// An option's key is never taken for a section's.
pub proof fn option_keys_name_no_section(config: Seq<char>, section: Seq<char>, opt: Seq<char>, idx: nat)
    ensures
        !names_section(named_option(config, section, opt)),
        !names_section(anonymous_option(config, section, idx, opt)),
{
    reveal_strlit(".");
    reveal_strlit(".@");
    let key = named_option(config, section, opt);
    let sec = named_section(config, section);
    lemma_count_add(sec + "."@, opt, '.');
    lemma_count_add(sec, "."@, '.');
    lemma_count_add(config + "."@, section, '.');
    lemma_count_add(config, "."@, '.');
    assert("."@.drop_last() =~= Seq::empty());
    assert(count("."@, '.') == 1) by {
        reveal_with_fuel(count, 2);
    }
    assert(anonymous_option(config, section, idx, opt)[config.len() as int + 1] == '@');
}

/// What the keys look like: dots part the file, the section and the option; an entry without a name
/// goes by its type, behind an `@`, and its index in brackets.
pub proof fn keys_are_made_of_their_parts(
    config: Seq<char>,
    section: Seq<char>,
    opt: Seq<char>,
    idx: nat,
)
    ensures
        named_section(config, section) == config + seq!['.'] + section,
        named_option(config, section, opt) == config + seq!['.'] + section + seq!['.'] + opt,
        anonymous_section(config, section, idx) == config + seq!['.', '@'] + section + seq!['[']
            + decimal(idx) + seq![']'],
        anonymous_option(config, section, idx, opt) == config + seq!['.', '@'] + section + seq!['[']
            + decimal(idx) + seq![']', '.'] + opt,
{
    reveal_strlit(".");
    reveal_strlit(".@");
    reveal_strlit("[");
    reveal_strlit("]");
    assert(named_section(config, section) =~= config + seq!['.'] + section);
    assert(named_option(config, section, opt) =~= config + seq!['.'] + section + seq!['.'] + opt);
    assert(anonymous_section(config, section, idx) =~= config + seq!['.', '@'] + section + seq!['[']
        + decimal(idx) + seq![']']);
    assert(anonymous_option(config, section, idx, opt) =~= config + seq!['.', '@'] + section
        + seq!['['] + decimal(idx) + seq![']', '.'] + opt);
}

/// A key names a section if and only if it holds exactly one dot and neither an `@` nor a bracket:
/// it is two parts without any of these, with a dot between them.
pub proof fn section_keys_have_two_parts(key: Seq<char>)
    ensures
        names_section(key) <==> exists|a: Seq<char>, b: Seq<char>|
            key == #[trigger] named_section(a, b) && plain_part(a) && plain_part(b),
{
    reveal_strlit(".");
    if names_section(key) {
        lemma_count_zero(key, '.');
        let k = choose|k: int| 0 <= k < key.len() && key[k] == '.';
        let a = key.take(k);
        let b = key.skip(k + 1);
        assert(key =~= a + "."@ + b);
        lemma_count_add(a + "."@, b, '.');
        lemma_count_add(a, "."@, '.');
        assert("."@.drop_last() =~= Seq::empty());
        assert(count("."@, '.') == 1) by {
            reveal_with_fuel(count, 2);
        }
        lemma_count_zero(a, '.');
        lemma_count_zero(b, '.');
        assert forall|c: char| c == '@' || c == '[' implies !a.contains(c) && !b.contains(c) by {
            if a.contains(c) {
                let j = choose|j: int| 0 <= j < a.len() && a[j] == c;
                assert(key[j] == c);
            }
            if b.contains(c) {
                let j = choose|j: int| 0 <= j < b.len() && b[j] == c;
                assert(key[j + k + 1] == c);
            }
        }
        assert(key == named_section(a, b) && plain_part(a) && plain_part(b));
    }
    if exists|a: Seq<char>, b: Seq<char>|
        key == #[trigger] named_section(a, b) && plain_part(a) && plain_part(b) {
        let (a, b) = choose|a: Seq<char>, b: Seq<char>|
            key == #[trigger] named_section(a, b) && plain_part(a) && plain_part(b);
        named_keys_name_sections(a, b);
    }
}

} // verus!
