//! How an error message shows a value: in the layout in which `serde_json` shows its own values to a
//! debugger. A value here holds numbers as text, so it is shown from what it holds.

use crate::config::models::{Json, Value};
use vstd::prelude::*;

verus! {

/// A text in double quotes, with escapes, as `Debug` shows a `str`.
pub uninterp spec fn debug_str(s: Seq<char>) -> Seq<char>;

/// `format!` with `{:?}` on a `str`: std's `Debug` of `str`, which is a function of the text
/// alone. Which escapes it uses is not stated.
#[verifier::external_body]
fn quoted_text(s: &str) -> (r: String)
    ensures
        r@ == debug_str(s@),
{
    format!("{:?}", s)
}

/// A value as error messages show it.
pub open spec fn debug_text(v: Json) -> Seq<char>
    decreases v, 0nat,
{
    match v {
        Json::Null => "Null"@,
        Json::Bool(b) => if b {
            "Bool(true)"@
        } else {
            "Bool(false)"@
        },
        Json::Number(n) => "Number("@ + n + ")"@,
        Json::Text(s) => "String("@ + debug_str(s) + ")"@,
        Json::Array(items) => "Array ["@ + debug_items(items, items.len()) + "]"@,
        Json::Object(members) => "Object {"@ + debug_members(members, members.len()) + "}"@,
    }
}

/// The first `n` values of a list.
pub open spec fn debug_items(items: Seq<Json>, n: nat) -> Seq<char>
    decreases items, n,
{
    if n == 0 || n > items.len() {
        Seq::empty()
    } else if n == 1 {
        debug_text(items[0])
    } else {
        debug_items(items, (n - 1) as nat) + ", "@ + debug_text(items[n - 1])
    }
}

/// The first `n` members of an object.
pub open spec fn debug_members(members: Seq<(Seq<char>, Json)>, n: nat) -> Seq<char>
    decreases members, n,
{
    if n == 0 || n > members.len() {
        Seq::empty()
    } else if n == 1 {
        debug_str(members[0].0) + ": "@ + debug_text(members[0].1)
    } else {
        debug_members(members, (n - 1) as nat) + ", "@ + debug_str(members[n - 1].0) + ": "@
            + debug_text(members[n - 1].1)
    }
}

/// Shows a value.
pub fn describe(v: &Value) -> (r: String)
    ensures
        r@ == debug_text(v@),
    decreases v,
{
    match v {
        Value::Null => "Null".to_owned(),
        Value::Bool(b) => if *b {
            "Bool(true)".to_owned()
        } else {
            "Bool(false)".to_owned()
        },
        Value::Number(n) => {
            let mut s = "Number(".to_owned();
            s.append(n.as_str());
            s.append(")");
            s
        },
        Value::Text(t) => {
            let mut s = "String(".to_owned();
            s.append(quoted_text(t.as_str()).as_str());
            s.append(")");
            s
        },
        Value::Array(items) => {
            let mut inner = String::new();
            let ghost js = v@->Array_0;
            let mut i: usize = 0;
            while i < items.len()
                invariant
                    i <= items@.len() == js.len(),
                    *v == Value::Array(*items),
                    js == v@->Array_0,
                    inner@ == debug_items(js, i as nat),
                decreases items@.len() - i,
            {
                assert(js[i as int] == items@[i as int]@);
                if i > 0 {
                    inner.append(", ");
                }
                assert(decreases_to!(v => items@[i as int]));
                inner.append(describe(&items[i]).as_str());
                assert(inner@ =~= debug_items(js, (i + 1) as nat));
                i += 1;
            }
            let mut s = "Array [".to_owned();
            s.append(inner.as_str());
            s.append("]");
            s
        },
        Value::Object(members) => {
            let mut inner = String::new();
            let ghost js = v@->Object_0;
            let mut i: usize = 0;
            while i < members.len()
                invariant
                    i <= members@.len() == js.len(),
                    *v == Value::Object(*members),
                    js == v@->Object_0,
                    inner@ == debug_members(js, i as nat),
                decreases members@.len() - i,
            {
                assert(js[i as int] == (members@[i as int].0@, members@[i as int].1@));
                if i > 0 {
                    inner.append(", ");
                }
                inner.append(quoted_text(members[i].0.as_str()).as_str());
                inner.append(": ");
                assert(decreases_to!(v => members@[i as int].1));
                inner.append(describe(&members[i].1).as_str());
                assert(inner@ =~= debug_members(js, (i + 1) as nat));
                i += 1;
            }
            let mut s = "Object {".to_owned();
            s.append(inner.as_str());
            s.append("}");
            s
        },
    }
}

} // verus!
