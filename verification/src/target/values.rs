//! Option values as they are compared and shown.
//!
//! A value of several items is compared in a form that does not depend on their order: sorted,
//! with a control character between them.

use crate::compile::convergence::assigned_texts;
use crate::compile::packages::quoted_all;
use crate::compile::plan::{
    assigned, lemma_list_len, list_len, list_text, list_value, value_fault, Assign,
};
use crate::config::models::{Json, Value};
use crate::utils::helpers::{escaped, escaped_char, quoted};
use crate::utils::order::{
    lemma_text_order, sort_texts, sorted, sorting_forgets_order, sorting_keeps_texts, text_order,
};
use crate::utils::split::{join, joined, replace, replaced};
use crate::utils::text::{chars_of, find, lemma_find_is, text_of, texts, trim, trimmed};
use vstd::prelude::*;
use vstd::seq_lib::group_to_multiset_ensures;

verus! {

/// Stands between the items of a value that is compared.
pub const LIST_SEP: &'static str = "\u{1f}";

/// The form in which a value of several items is compared.
pub open spec fn list_form(items: Seq<Seq<char>>) -> Seq<char> {
    join(sorted(items), LIST_SEP@)
}

/// The form in which a value is shown: its items with commas between them.
pub open spec fn display_form(s: Seq<char>) -> Seq<char> {
    replace(s, LIST_SEP@, ", "@)
}

pub fn compare_list(items: &Vec<String>) -> (r: String)
    ensures
        r@ == list_form(texts(items@)),
{
    joined(&sort_texts(items), LIST_SEP)
}

pub fn display_value(s: &str) -> (r: String)
    ensures
        r@ == display_form(s@),
{
    proof {
        reveal_strlit("\u{1f}");
    }
    replaced(s, LIST_SEP, ", ")
}

// ---- declared values ----

/// A value as plain text: truth values are `1` and `0`, items have spaces between them. What has
/// no text is left out.
pub open spec fn plain_text(v: Json) -> Option<Seq<char>>
    decreases v, 0nat,
{
    match v {
        Json::Text(s) => Some(s),
        Json::Number(n) => Some(n),
        Json::Bool(b) => Some(
            if b {
                "1"@
            } else {
                "0"@
            },
        ),
        Json::Array(items) => {
            let t = plain_texts(items, items.len());
            if t.len() == 0 {
                None
            } else {
                Some(join(t, " "@))
            }
        },
        _ => None,
    }
}

/// The texts of the first `n` items.
pub open spec fn plain_texts(items: Seq<Json>, n: nat) -> Seq<Seq<char>>
    decreases items, n,
{
    if n == 0 || n > items.len() {
        Seq::empty()
    } else {
        let before = plain_texts(items, (n - 1) as nat);
        match plain_text(items[n - 1]) {
            Some(t) => before.push(t),
            None => before,
        }
    }
}

/// The form in which a declared value is compared. An empty list is no value.
pub open spec fn desired_form(v: Json) -> Option<Seq<char>> {
    match v {
        Json::Array(items) => {
            let t = plain_texts(items, items.len());
            if t.len() == 0 {
                None
            } else {
                Some(list_form(t))
            }
        },
        _ => plain_text(v),
    }
}

/// A value as plain text.
pub fn val_str(val: &Value) -> (r: Option<String>)
    ensures
        match (r, plain_text(val@)) {
            (Some(t), Some(u)) => t@ == u,
            (None, None) => true,
            _ => false,
        },
    decreases val, 1nat,
{
    match val {
        Value::Text(s) => Some(s.clone()),
        Value::Number(n) => Some(n.clone()),
        Value::Bool(b) => if *b {
            Some("1".to_owned())
        } else {
            Some("0".to_owned())
        },
        Value::Array(items) => {
            let list = item_texts(val, items);
            if list.len() == 0 {
                None
            } else {
                Some(joined(&list, " "))
            }
        },
        _ => None,
    }
}

/// The texts of the items of an array.
fn item_texts(val: &Value, items: &Vec<Value>) -> (r: Vec<String>)
    requires
        *val == Value::Array(*items),
    ensures
        texts(r@) == plain_texts(val@->Array_0, items@.len()),
        r@.len() == texts(r@).len(),
    decreases val, 0nat,
{
    let ghost js = val@->Array_0;
    let mut out: Vec<String> = Vec::new();
    let mut i: usize = 0;
    assert(texts(out@) =~= plain_texts(js, 0));
    while i < items.len()
        invariant
            i <= items@.len() == js.len(),
            *val == Value::Array(*items),
            js == val@->Array_0,
            texts(out@) == plain_texts(js, i as nat),
        decreases items@.len() - i,
    {
        let ghost before = texts(out@);
        assert(js[i as int] == items@[i as int]@);
        assert(decreases_to!(val => items@[i as int]));
        if let Some(t) = val_str(&items[i]) {
            out.push(t);
            assert(texts(out@) =~= before.push(t@));
        }
        i += 1;
    }
    out
}

/// The form in which a declared value is compared.
pub fn desired_value(val: &Value) -> (r: Option<String>)
    ensures
        match (r, desired_form(val@)) {
            (Some(t), Some(u)) => t@ == u,
            (None, None) => true,
            _ => false,
        },
{
    match val {
        Value::Array(items) => {
            let list = item_texts(val, items);
            if list.len() == 0 {
                None
            } else {
                Some(compare_list(&list))
            }
        },
        _ => val_str(val),
    }
}

// ---- values that the target shows ----

/// A shown value without its quotes. The items of a list have spaces between them.
pub open spec fn sanitized(v: Seq<char>) -> Seq<char> {
    let t = trim(v);
    if t.len() >= 2 && t[0] == '\'' && t.last() == '\'' {
        replace(replace(t.subrange(1, t.len() - 1), "'\\''"@, "'"@), "' '"@, " "@)
    } else {
        t
    }
}

/// Takes the quotes off a shown value.
pub fn sanitize_uci_value(v: &str) -> (r: String)
    ensures
        r@ == sanitized(v@),
{
    proof {
        reveal_strlit("'\\''");
        reveal_strlit("' '");
    }
    let t = trimmed(v);
    let c = chars_of(t.as_str());
    let n = c.len();
    if n >= 2 && c[0] == '\'' && c[n - 1] == '\'' {
        let inside = text_of(&c, 1, n - 1);
        let once = replaced(inside.as_str(), "'\\''", "'");
        replaced(once.as_str(), "' '", " ")
    } else {
        t
    }
}

/// The quoted item whose characters start at `i`, and the position behind its closing quote. A
/// quote inside an item stands as `'\''`.
pub open spec fn item_at(s: Seq<char>, i: int) -> Option<(Seq<char>, int)>
    decreases s.len() - i,
{
    if i < 0 || i >= s.len() {
        None
    } else if s[i] != '\'' {
        match item_at(s, i + 1) {
            Some((t, next)) => Some((seq![s[i]] + t, next)),
            None => None,
        }
    } else if i + 3 < s.len() && s[i + 1] == '\\' && s[i + 2] == '\'' && s[i + 3] == '\'' {
        match item_at(s, i + 4) {
            Some((t, next)) => Some((seq!['\''] + t, next)),
            None => None,
        }
    } else {
        Some((Seq::empty(), i + 1))
    }
}

/// The quoted items, with a space between any two, whose first one's characters start at `i`.
pub open spec fn items_from(s: Seq<char>, i: int) -> Option<Seq<Seq<char>>>
    decreases s.len() - i,
{
    match item_at(s, i) {
        None => None,
        Some((t, next)) => if next == s.len() {
            Some(seq![t])
        } else if i < next && next + 1 < s.len() && s[next] == ' ' && s[next + 1] == '\'' {
            match items_from(s, next + 2) {
                Some(rest) => Some(seq![t] + rest),
                None => None,
            }
        } else {
            None
        },
    }
}

/// The items of a shown value, where it consists of quoted items.
pub open spec fn shown_items(s: Seq<char>) -> Option<Seq<Seq<char>>> {
    if s.len() > 0 && s[0] == '\'' {
        items_from(s, 1)
    } else {
        None
    }
}

/// The form in which a shown value is compared.
pub open spec fn shown_form(v: Seq<char>) -> Seq<char> {
    match shown_items(trim(v)) {
        Some(items) => list_form(items),
        None => sanitized(v),
    }
}

proof fn lemma_item_at(s: Seq<char>, i: int)
    ensures
        item_at(s, i) matches Some((t, next)) ==> 0 <= i < next <= s.len(),
    decreases s.len() - i,
{
    if 0 <= i < s.len() {
        lemma_item_at(s, i + 1);
        if i + 3 < s.len() {
            lemma_item_at(s, i + 4);
        }
    }
}

/// A result behind what was read before.
spec fn item_behind(a: Seq<char>, r: Option<(Seq<char>, int)>) -> Option<(Seq<char>, int)> {
    match r {
        Some((t, next)) => Some((a + t, next)),
        None => None,
    }
}

fn read_item(v: &Vec<char>, from: usize) -> (r: Option<(String, usize)>)
    requires
        from <= v@.len(),
    ensures
        match (r, item_at(v@, from as int)) {
            (Some((t, next)), Some((u, n))) => t@ == u && next == n && from < next <= v@.len(),
            (None, None) => true,
            _ => false,
        },
{
    let mut out = String::new();
    let mut i: usize = from;
    proof {
        lemma_item_at(v@, from as int);
        if let Some((t, next)) = item_at(v@, from as int) {
            assert(Seq::<char>::empty() + t =~= t);
        }
    }
    while i < v.len()
        invariant
            from <= i <= v@.len(),
            item_at(v@, from as int) == item_behind(out@, item_at(v@, i as int)),
        decreases v@.len() - i,
    {
        let ghost done = out@;
        if v[i] != '\'' {
            out.push(v[i]);
            proof {
                if let Some((t, next)) = item_at(v@, i + 1) {
                    assert(done + (seq![v@[i as int]] + t) =~= out@ + t);
                }
            }
            i += 1;
        } else if v.len() - i > 3 && v[i + 1] == '\\' && v[i + 2] == '\'' && v[i + 3] == '\'' {
            out.push('\'');
            proof {
                if let Some((t, next)) = item_at(v@, i + 4) {
                    assert(done + (seq!['\''] + t) =~= out@ + t);
                }
            }
            i += 4;
        } else {
            assert(out@ + Seq::<char>::empty() =~= out@);
            return Some((out, i + 1));
        }
    }
    None
}

/// A list behind what was read before.
spec fn items_behind(a: Seq<Seq<char>>, r: Option<Seq<Seq<char>>>) -> Option<Seq<Seq<char>>> {
    match r {
        Some(t) => Some(a + t),
        None => None,
    }
}

/// Reads the items of a shown value.
fn read_items(s: &str) -> (r: Option<Vec<String>>)
    ensures
        match (r, shown_items(s@)) {
            (Some(t), Some(u)) => texts(t@) == u,
            (None, None) => true,
            _ => false,
        },
{
    let v = chars_of(s);
    if v.len() == 0 || v[0] != '\'' {
        return None;
    }
    let mut out: Vec<String> = Vec::new();
    let mut i: usize = 1;
    proof {
        assert(texts(out@) =~= Seq::empty());
        if let Some(t) = items_from(v@, 1) {
            assert(texts(out@) + t =~= t);
        }
    }
    loop
        invariant
            1 <= i <= v@.len(),
            v@ == s@,
            v@[0] == '\'',
            items_from(v@, 1) == items_behind(texts(out@), items_from(v@, i as int)),
        decreases v@.len() - i,
    {
        let ghost done = texts(out@);
        match read_item(&v, i) {
            None => {
                return None;
            },
            Some((t, next)) => {
                let ghost text = t@;
                out.push(t);
                proof {
                    assert(texts(out@) =~= done.push(text));
                    assert(done + seq![text] =~= done.push(text));
                }
                if next == v.len() {
                    return Some(out);
                }
                if v.len() - next > 1 && v[next] == ' ' && v[next + 1] == '\'' {
                    proof {
                        if let Some(rest) = items_from(v@, next + 2) {
                            assert(done + (seq![text] + rest) =~= texts(out@) + rest);
                        }
                    }
                    i = next + 2;
                } else {
                    return None;
                }
            },
        }
    }
}

/// The form in which a shown value is compared.
pub fn shown_value(v: &str) -> (r: String)
    ensures
        r@ == shown_form(v@),
{
    let t = trimmed(v);
    match read_items(t.as_str()) {
        Some(items) => compare_list(&items),
        None => sanitize_uci_value(v),
    }
}

// ---- laws ----

/// Lists that differ in their order alone compare equal.
pub proof fn order_is_no_difference(a: Seq<Seq<char>>, b: Seq<Seq<char>>)
    requires
        a.to_multiset() == b.to_multiset(),
    ensures
        list_form(a) == list_form(b),
{
    sorting_forgets_order(a, b);
}

/// How `uci show` writes the values of an option: each in quotes, with spaces between them.
pub open spec fn shown(items: Seq<Seq<char>>) -> Seq<char> {
    join(quoted_all(items), " "@)
}

proof fn lemma_read_escaped(pre: Seq<char>, t: Seq<char>, post: Seq<char>)
    requires
        post.len() == 0 || post[0] != '\\',
    ensures
        item_at(pre + escaped(t) + "'"@ + post, pre.len() as int) == Some(
            (t, (pre.len() + escaped(t).len() + 1) as int),
        ),
    decreases t.len(),
{
    reveal_strlit("'");
    reveal_strlit("'\\''");
    let s = pre + escaped(t) + "'"@ + post;
    let i = pre.len() as int;
    if t.len() == 0 {
        assert(escaped(t) =~= Seq::empty());
        assert(s[i] == '\'');
        assert(s =~= pre + "'"@ + post);
        if i + 3 < s.len() {
            assert(s[i + 1] == post[0]);
        }
        assert(t =~= Seq::empty());
    } else {
        let head = escaped_char(t[0]);
        let rest = escaped(t.skip(1));
        assert(escaped(t) == head + rest);
        assert(s =~= (pre + head) + rest + "'"@ + post);
        lemma_read_escaped(pre + head, t.skip(1), post);
        assert(seq![t[0]] + t.skip(1) =~= t);
        if t[0] == '\'' {
            assert(s[i] == '\'' && s[i + 1] == '\\' && s[i + 2] == '\'' && s[i + 3] == '\'');
            assert((pre + head).len() == i + 4);
        } else {
            assert(s[i] == t[0]);
            assert((pre + head).len() == i + 1);
        }
    }
}

/// Joining from the front.
proof fn lemma_join_front(parts: Seq<Seq<char>>, sep: Seq<char>)
    requires
        parts.len() > 1,
    ensures
        join(parts, sep) == parts[0] + sep + join(parts.skip(1), sep),
    decreases parts.len(),
{
    let tail = parts.skip(1);
    if parts.len() == 2 {
        assert(parts.drop_last() =~= seq![parts[0]]);
        assert(join(seq![parts[0]], sep) == parts[0]);
        assert(tail =~= seq![parts[1]]);
        assert(join(parts, sep) =~= parts[0] + sep + parts[1]);
    } else {
        lemma_join_front(parts.drop_last(), sep);
        assert(parts.drop_last().skip(1) =~= tail.drop_last());
        assert(tail.last() == parts.last());
        assert(join(parts, sep) =~= parts[0] + sep + join(tail, sep));
    }
}

proof fn lemma_read_shown(pre: Seq<char>, items: Seq<Seq<char>>)
    requires
        items.len() > 0,
        pre.len() > 0,
        pre.last() == '\'',
    ensures
        items_from(pre.drop_last() + shown(items), pre.len() as int) == Some(items),
    decreases items.len(),
{
    reveal_strlit("'");
    reveal_strlit(" ");
    let all = pre.drop_last() + shown(items);
    let q = quoted_all(items);
    let t = items[0];
    let i = pre.len() as int;
    assert(pre =~= pre.drop_last() + "'"@);
    if items.len() == 1 {
        assert(shown(items) == q[0]);
        assert(all =~= pre + escaped(t) + "'"@ + Seq::<char>::empty());
        lemma_read_escaped(pre, t, Seq::empty());
        assert(seq![t] =~= items);
    } else {
        let rest = items.skip(1);
        lemma_join_front(q, " "@);
        assert(q.skip(1) =~= quoted_all(rest));
        let post = " "@ + shown(rest);
        assert(all =~= pre + escaped(t) + "'"@ + post);
        lemma_read_escaped(pre, t, post);
        let next = i + escaped(t).len() + 1;
        let pre2 = pre + escaped(t) + "'"@ + " "@ + "'"@;
        lemma_shown_quote(rest);
        assert(pre2.drop_last() + shown(rest) =~= all);
        assert(pre2.len() == next + 2);
        lemma_read_shown(pre2, rest);
        assert(all[next] == ' ');
        assert(all[next + 1] == shown(rest)[0]);
        assert(seq![t] + rest =~= items);
    }
}

/// What is shown starts and ends with a quote.
pub proof fn lemma_shown_quote(items: Seq<Seq<char>>)
    requires
        items.len() > 0,
    ensures
        shown(items).len() >= 2,
        shown(items)[0] == '\'',
        shown(items).last() == '\'',
    decreases items.len(),
{
    reveal_strlit("'");
    let q = quoted_all(items);
    assert(q[0] == quoted(items[0]));
    if items.len() > 1 {
        assert(q.drop_last() =~= quoted_all(items.drop_last()));
        lemma_shown_quote(items.drop_last());
        assert(q.last() == quoted(items.last()));
    }
}

proof fn lemma_trim_quoted(s: Seq<char>)
    requires
        s.len() > 0,
        s[0] == '\'',
        s.last() == '\'',
    ensures
        trim(s) == s,
{
}

/// Reading a shown value gives back the items that were written, whatever characters they hold:
/// quotes, spaces, or nothing at all.
pub proof fn shown_values_read_back(items: Seq<Seq<char>>)
    requires
        items.len() > 0,
    ensures
        shown_items(trim(shown(items))) == Some(items),
        shown_form(shown(items)) == list_form(items),
{
    reveal_strlit("'");
    let s = shown(items);
    lemma_shown_quote(items);
    lemma_trim_quoted(s);
    lemma_read_shown("'"@, items);
    assert("'"@.drop_last() + s =~= s);
}

/// Of a list that can be written, every value can stand in a list.
pub proof fn lemma_list_all(items: Seq<Json>)
    requires
        value_fault(Json::Array(items)) is None,
    ensures
        list_len(items, 0) == items.len(),
        forall|i: int| 0 <= i < items.len() ==> list_value(#[trigger] items[i]),
{
    lemma_list_len(items, 0);
}

/// The texts of the first `n` values of a list, as they are written.
spec fn list_texts(items: Seq<Json>, n: nat) -> Seq<Seq<char>> {
    Seq::new(n, |i: int| list_text(items[i]))
}

proof fn lemma_plain_texts(items: Seq<Json>, n: nat)
    requires
        n <= items.len(),
        forall|i: int| 0 <= i < items.len() ==> list_value(#[trigger] items[i]),
    ensures
        plain_texts(items, n) == list_texts(items, n),
    decreases n,
{
    if n > 0 {
        lemma_plain_texts(items, (n - 1) as nat);
        assert(list_value(items[n - 1]));
        assert(plain_text(items[n - 1]) == Some(list_text(items[n - 1])));
        assert(list_texts(items, (n - 1) as nat).push(list_text(items[n - 1])) =~= list_texts(
            items,
            n,
        ));
    } else {
        assert(plain_texts(items, n) =~= list_texts(items, n));
    }
}

/// Every value that can be written is written by its plain text: a single value as it is, a list
/// item by item.
pub proof fn values_are_written_as_plain_text(v: Json)
    requires
        value_fault(v) is None,
    ensures
        match v {
            Json::Array(items) => {
                &&& assigned(v).len() == items.len()
                &&& forall|i: int|
                    0 <= i < items.len() ==> (#[trigger] assigned(v)[i]).list && plain_text(items[i])
                        == Some(assigned(v)[i].text)
                &&& items.len() > 0 ==> plain_text(v) == Some(join(assigned_texts(v), " "@))
            },
            _ => plain_text(v) matches Some(t) && assigned(v) == seq![
                Assign { list: false, text: t },
            ],
        },
{
    if let Json::Array(items) = v {
        lemma_list_all(items);
        lemma_plain_texts(items, items.len());
        assert(assigned_texts(v) =~= plain_texts(items, items.len()));
        assert forall|i: int| 0 <= i < items.len() implies plain_text(items[i]) == Some(
            (#[trigger] assigned(v)[i]).text,
        ) by {
            assert(list_value(items[i]));
        }
    }
}

/// What was deployed is recognised: a value that the target shows as it was written compares
/// equal to its declaration.
pub proof fn deployed_values_compare_equal(v: Json)
    requires
        value_fault(v) is None,
        assigned(v).len() > 0,
    ensures
        desired_form(v) == Some(shown_form(shown(assigned_texts(v)))),
{
    let t = assigned_texts(v);
    shown_values_read_back(t);
    match v {
        Json::Array(items) => {
            lemma_list_all(items);
            lemma_plain_texts(items, items.len());
            assert(t =~= plain_texts(items, items.len()));
        },
        _ => {
            assert(t =~= seq![assigned(v)[0].text]);
            lemma_single(t[0]);
        },
    }
}

/// A single item compares as itself.
proof fn lemma_single(t: Seq<char>)
    ensures
        list_form(seq![t]) == t,
{
    broadcast use group_to_multiset_ensures;

    let s = seq![t];
    lemma_text_order();
    s.lemma_sort_by_ensures(text_order());
    assert(sorted(s).to_multiset() =~= s.to_multiset());
    assert(sorted(s).to_multiset().len() == sorted(s).len());
    assert(s.to_multiset().len() == s.len());
    assert(s[0] == t);
    assert(s.contains(t));
    assert(sorted(s).to_multiset().count(t) > 0);
    assert(sorted(s).contains(t));
}

/// Texts that do not hold the separator are told apart by what they are joined to.
proof fn lemma_join_injective(a: Seq<Seq<char>>, b: Seq<Seq<char>>, c: char)
    requires
        a.len() > 0,
        b.len() > 0,
        forall|i: int| 0 <= i < a.len() ==> !(#[trigger] a[i]).contains(c),
        forall|i: int| 0 <= i < b.len() ==> !(#[trigger] b[i]).contains(c),
        join(a, seq![c]) == join(b, seq![c]),
    ensures
        a == b,
    decreases a.len(),
{
    let sep = seq![c];
    let s = join(a, sep);
    lemma_join_first(a, c);
    lemma_join_first(b, c);
    assert(a[0].len() == b[0].len());
    assert(a[0] =~= b[0]) by {
        assert(a[0] =~= s.take(a[0].len() as int));
        assert(b[0] =~= s.take(b[0].len() as int));
    }
    if a.len() == 1 {
        assert(a =~= b);
    } else {
        assert forall|i: int| 0 <= i < a.skip(1).len() implies !(#[trigger] a.skip(1)[i]).contains(
            c,
        ) by {
            assert(a.skip(1)[i] == a[i + 1]);
        }
        assert forall|i: int| 0 <= i < b.skip(1).len() implies !(#[trigger] b.skip(1)[i]).contains(
            c,
        ) by {
            assert(b.skip(1)[i] == b[i + 1]);
        }
        assert(join(a.skip(1), sep) =~= s.skip(a[0].len() as int + 1));
        assert(join(b.skip(1), sep) =~= s.skip(b[0].len() as int + 1));
        lemma_join_injective(a.skip(1), b.skip(1), c);
        assert(a =~= seq![a[0]] + a.skip(1));
        assert(b =~= seq![b[0]] + b.skip(1));
    }
}

/// The first text ends where the separator first occurs.
proof fn lemma_join_first(a: Seq<Seq<char>>, c: char)
    requires
        a.len() > 0,
        !a[0].contains(c),
    ensures
        ({
            let s = join(a, seq![c]);
            &&& find(s, c) == a[0].len()
            &&& a[0].len() <= s.len()
            &&& s.take(a[0].len() as int) == a[0]
            &&& a.len() == 1 <==> s.len() == a[0].len()
            &&& a.len() > 1 ==> s == a[0] + seq![c] + join(a.skip(1), seq![c])
        }),
{
    let s = join(a, seq![c]);
    if a.len() > 1 {
        lemma_join_front(a, seq![c]);
        assert(s.take(a[0].len() as int) =~= a[0]);
    } else {
        assert(s.take(a[0].len() as int) =~= a[0]);
    }
    assert forall|j: int| 0 <= j < a[0].len() implies s[j] != c by {
        assert(s[j] == a[0][j]);
    }
    lemma_find_is(s, c, a[0].len() as int);
}

/// Lists that compare equal hold the same items, each as often, unless an item holds the separator
/// itself: no change of a list goes unnoticed but for its order.
pub proof fn different_lists_compare_different(a: Seq<Seq<char>>, b: Seq<Seq<char>>)
    requires
        a.len() > 0,
        b.len() > 0,
        forall|i: int| 0 <= i < a.len() ==> !(#[trigger] a[i]).contains('\u{1f}'),
        forall|i: int| 0 <= i < b.len() ==> !(#[trigger] b[i]).contains('\u{1f}'),
        list_form(a) == list_form(b),
    ensures
        a.to_multiset() == b.to_multiset(),
{
    reveal_strlit("\u{1f}");
    assert(LIST_SEP@ =~= seq!['\u{1f}']);
    lemma_sorted_items(a);
    lemma_sorted_items(b);
    lemma_join_injective(sorted(a), sorted(b), '\u{1f}');
    sorting_keeps_texts(a, b);
}

/// Sorting makes up no items.
proof fn lemma_sorted_items(a: Seq<Seq<char>>)
    requires
        forall|i: int| 0 <= i < a.len() ==> !(#[trigger] a[i]).contains('\u{1f}'),
    ensures
        sorted(a).len() == a.len(),
        forall|i: int| 0 <= i < sorted(a).len() ==> !(#[trigger] sorted(a)[i]).contains('\u{1f}'),
{
    broadcast use group_to_multiset_ensures;

    lemma_text_order();
    a.lemma_sort_by_ensures(text_order());
    let s = sorted(a);
    assert(s.to_multiset() =~= a.to_multiset());
    assert(s.to_multiset().len() == s.len());
    assert(a.to_multiset().len() == a.len());
    assert forall|i: int| 0 <= i < s.len() implies !(#[trigger] s[i]).contains('\u{1f}') by {
        let t = s[i];
        assert(s.contains(t));
        assert(a.contains(t));
        let k = choose|k: int| 0 <= k < a.len() && a[k] == t;
        assert(!a[k].contains('\u{1f}'));
    }
}

} // verus!
