//! How values appear: as plain text, compared, and shown.

use crate::config::models::Json;
use crate::target::values::{desired_form, display_form, plain_text, plain_texts, sanitized};
use crate::utils::equations::{
    blank, replacing_is_joining_anew, texts_are_found_first, white_space_alone_is_trimmed,
};
use crate::utils::order::sorted;
use crate::utils::split::{join, replace, split_text};
use crate::utils::text::trim;
use crate::utils::within::{pieces, within};
use vstd::prelude::*;

verus! {

/// A single value is its own text, a truth value `1` or `0`; what has no text has none.
pub proof fn single_values_are_texts(v: Json)
    requires
        !(v is Array),
    ensures
        desired_form(v) == plain_text(v),
        plain_text(v) == match v {
            Json::Text(s) => Some(s),
            Json::Number(n) => Some(n),
            Json::Bool(b) => Some(
                if b {
                    "1"@
                } else {
                    "0"@
                },
            ),
            _ => None,
        },
{
}

/// The texts of all items that have one, in their order.
pub open spec fn item_texts_of(items: Seq<Json>) -> Seq<Seq<char>> {
    Seq::new(
        items.len(),
        |i: int|
            match plain_text(items[i]) {
                Some(t) => seq![t],
                None => Seq::empty(),
            },
    ).flatten()
}

proof fn lemma_item_texts(items: Seq<Json>, n: nat)
    requires
        n <= items.len(),
    ensures
        plain_texts(items, n) == Seq::new(
            n,
            |i: int|
                match plain_text(items[i]) {
                    Some(t) => seq![t],
                    None => Seq::empty(),
                },
        ).flatten(),
    decreases n,
{
    let p = Seq::new(
        n,
        |i: int|
            match plain_text(items[i]) {
                Some(t) => seq![t],
                None => Seq::<Seq<char>>::empty(),
            },
    );
    if n > 0 {
        let k = (n - 1) as nat;
        lemma_item_texts(items, k);
        p.lemma_flatten_and_flatten_alt_are_equivalent();
        p.drop_last().lemma_flatten_and_flatten_alt_are_equivalent();
        assert(p.drop_last() =~= Seq::new(
            k,
            |i: int|
                match plain_text(items[i]) {
                    Some(t) => seq![t],
                    None => Seq::<Seq<char>>::empty(),
                },
        ));
        assert(plain_texts(items, n) =~= p.drop_last().flatten() + p.last());
    }
}

/// A list is the texts of all its items: as plain text with spaces between them, and compared in
/// ascending order with the separator between them. Without any text it has no value.
pub proof fn lists_are_all_their_items(items: Seq<Json>)
    ensures
        ({
            let t = item_texts_of(items);
            &&& plain_text(Json::Array(items)) == if t.len() == 0 {
                None
            } else {
                Some(join(t, " "@))
            }
            &&& desired_form(Json::Array(items)) == if t.len() == 0 {
                None
            } else {
                Some(join(sorted(t), "\u{1f}"@))
            }
        }),
{
    lemma_item_texts(items, items.len());
}

/// A compared value is shown with a comma and a space in the place of each separator.
pub proof fn lists_are_shown_with_commas(s: Seq<char>)
    ensures
        display_form(s) == join(split_text(s, "\u{1f}"@), ", "@),
{
    reveal_strlit("\u{1f}");
    replacing_is_joining_anew(s, "\u{1f}"@, ", "@);
}

proof fn lemma_replace_none(s: Seq<char>, p: Seq<char>, t: Seq<char>)
    requires
        !within(s, p),
    ensures
        replace(s, p, t) == s,
{
    texts_are_found_first(s, p);
}

proof fn lemma_no_quotes(s: Seq<char>, p: Seq<char>)
    requires
        !s.contains('\''),
        p.len() > 0,
        p[0] == '\'',
    ensures
        !within(s, p),
{
    if within(s, p) {
        let (a, b) = choose|a: Seq<char>, b: Seq<char>| pieces(s, a, p, b);
        assert(s[a.len() as int] == p[0]);
    }
}

/// A shown value in quotes stands for what is between them, and one without quotes for itself.
pub proof fn quotes_come_off(t: Seq<char>)
    requires
        !t.contains('\''),
    ensures
        sanitized("'"@ + t + "'"@) == t,
        sanitized(t) == trim(t),
{
    reveal_strlit("'");
    reveal_strlit("'\\''");
    reveal_strlit("' '");
    let q = "'"@ + t + "'"@;
    assert(q[0] == '\'' && q.last() == '\'');
    assert(trim(q) == q);
    let inside = q.subrange(1, q.len() - 1);
    assert(inside =~= t);
    lemma_no_quotes(t, "'\\''"@);
    lemma_no_quotes(t, "' '"@);
    lemma_replace_none(t, "'\\''"@, "'"@);
    lemma_replace_none(t, "' '"@, " "@);
    white_space_alone_is_trimmed(t);
    let u = trim(t);
    if u.len() >= 2 && u[0] == '\'' {
        let (a, b) = choose|a: Seq<char>, b: Seq<char>|
            pieces(t, a, trim(t), b) && #[trigger] blank(a)
                && #[trigger] blank(b);
        assert(t[a.len() as int] == u[0]);
    }
}

} // verus!
