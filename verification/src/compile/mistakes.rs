//! Which of several mistakes is reported: the first.

use crate::compile::completeness::{
    options_writable, sections_writable, shape_writable, single, writable,
};
use crate::compile::describe::{debug_items, debug_members, debug_str, debug_text};
use crate::compile::plan::{
    entries_refused, lemma_list_len, list_len, list_value, options_refused, section_refused,
    sections_refused, settings_refused, settings_written, value_fault,
};
use crate::compile::secrets::{
    bodies_missing, feeds_of, interpolated, items_missing, options_missing, root_missing,
    sections_missing, settings_missing, shape_missing, text_missing, texts_missing, value_missing,
    Secrets,
};
use crate::config::models::{Body, Declared, Json, Options, Sections, Settings, Shape};
use crate::utils::split::join;
use vstd::prelude::*;

verus! {

// ---- how a value is shown ----

/// A value is shown by its kind and what it holds; the items of a list, and the members of an
/// object behind their names, are all shown, in their order.
pub proof fn values_are_shown_whole(v: Json)
    ensures
        match v {
            Json::Null => debug_text(v) == "Null"@,
            Json::Bool(b) => debug_text(v) == "Bool("@ + (if b {
                "true"@
            } else {
                "false"@
            }) + ")"@,
            Json::Number(n) => debug_text(v) == "Number("@ + n + ")"@,
            Json::Text(s) => debug_text(v) == "String("@ + debug_str(s) + ")"@,
            Json::Array(items) => debug_text(v) == "Array ["@ + join(
                Seq::new(items.len(), |i: int| debug_text(items[i])),
                ", "@,
            ) + "]"@,
            Json::Object(m) => debug_text(v) == "Object {"@ + join(
                Seq::new(m.len(), |i: int| debug_str(m[i].0) + ": "@ + debug_text(m[i].1)),
                ", "@,
            ) + "}"@,
        },
{
    match v {
        Json::Bool(b) => {
            reveal_strlit("Bool(true)");
            reveal_strlit("Bool(false)");
            reveal_strlit("Bool(");
            reveal_strlit("true");
            reveal_strlit("false");
            reveal_strlit(")");
            assert(debug_text(v) =~= "Bool("@ + (if b {
                "true"@
            } else {
                "false"@
            }) + ")"@);
        },
        Json::Array(items) => {
            lemma_items(items, items.len());
        },
        Json::Object(m) => {
            lemma_members(m, m.len());
        },
        _ => {},
    }
}

proof fn lemma_items(items: Seq<Json>, n: nat)
    requires
        n <= items.len(),
    ensures
        debug_items(items, n) == join(Seq::new(n, |i: int| debug_text(items[i])), ", "@),
    decreases n,
{
    let p = Seq::new(n, |i: int| debug_text(items[i]));
    if n > 1 {
        lemma_items(items, (n - 1) as nat);
        assert(p.drop_last() =~= Seq::new((n - 1) as nat, |i: int| debug_text(items[i])));
    }
}

proof fn lemma_members(m: Seq<(Seq<char>, Json)>, n: nat)
    requires
        n <= m.len(),
    ensures
        debug_members(m, n) == join(
            Seq::new(n, |i: int| debug_str(m[i].0) + ": "@ + debug_text(m[i].1)),
            ", "@,
        ),
    decreases n,
{
    let p = Seq::new(n, |i: int| debug_str(m[i].0) + ": "@ + debug_text(m[i].1));
    if n > 1 {
        lemma_members(m, (n - 1) as nat);
        assert(p.drop_last() =~= Seq::new(
            (n - 1) as nat,
            |i: int| debug_str(m[i].0) + ": "@ + debug_text(m[i].1),
        ));
        assert(debug_members(m, n) =~= join(p.drop_last(), ", "@) + ", "@ + p.last());
    }
}

// ---- values that cannot be written ----

/// A value that cannot be written is refused with its text: a list by its first item that cannot
/// stand in one.
pub proof fn refusals_show_the_value(v: Json, k: int)
    requires
        !writable(v),
        v matches Json::Array(items) ==> 0 <= k < items.len() && !single(items[k]) && forall|j: int|
            0 <= j < k ==> single(#[trigger] items[j]),
    ensures
        value_fault(v) == Some(
            match v {
                Json::Array(items) => debug_text(items[k])
                    + " is not a supported list value type"@,
                _ => debug_text(v) + " is not a supported option value type"@,
            },
        ),
{
    if let Json::Array(items) = v {
        lemma_list_len_is(items, 0, k);
    }
}

proof fn lemma_list_len_is(items: Seq<Json>, i: int, k: int)
    requires
        0 <= i <= k < items.len(),
        !single(items[k]),
        forall|j: int| i <= j < k ==> single(#[trigger] items[j]),
    ensures
        list_len(items, i) == k,
    decreases k - i,
{
    if i < k {
        assert(single(items[i]));
        lemma_list_len_is(items, i + 1, k);
    }
}

proof fn lemma_value_fault(v: Json)
    ensures
        value_fault(v) is None <==> writable(v),
{
    if let Json::Array(items) = v {
        lemma_list_len(items, 0);
        if value_fault(v) is Some {
            let k = list_len(items, 0);
            lemma_stops(items, 0);
            assert(!single(items[k]));
        } else {
            assert forall|i: int| 0 <= i < items.len() implies single(#[trigger] items[i]) by {
                assert(list_value(items[i]));
            }
        }
    }
}

proof fn lemma_stops(items: Seq<Json>, i: int)
    requires
        0 <= i <= items.len(),
        list_len(items, i) < items.len(),
    ensures
        !list_value(items[list_len(items, i)]),
    decreases items.len() - i,
{
    if i < items.len() && list_value(items[i]) {
        lemma_stops(items, i + 1);
    }
}

proof fn lemma_options_refused(o: Options, i: int, k: int)
    requires
        0 <= i <= k <= o.len(),
        forall|j: int| i <= j < k ==> writable((#[trigger] o[j]).1),
        k < o.len() ==> !writable(o[k].1),
    ensures
        options_refused(o, i) == if k < o.len() {
            value_fault(o[k].1)
        } else {
            None
        },
    decreases k - i,
{
    if i < o.len() {
        lemma_value_fault(o[i].1);
        if i < k {
            assert(writable(o[i].1));
            lemma_options_refused(o, i + 1, k);
        }
    }
}

/// The first option of a section with a value that cannot be written is reported.
pub proof fn the_first_unwritable_option_is_reported(o: Options, k: int)
    requires
        0 <= k < o.len(),
        forall|j: int| 0 <= j < k ==> writable((#[trigger] o[j]).1),
        !writable(o[k].1),
    ensures
        options_refused(o, 0) == value_fault(o[k].1),
        value_fault(o[k].1) is Some,
{
    lemma_value_fault(o[k].1);
    lemma_options_refused(o, 0, k);
}

proof fn lemma_first_bad(o: Options, i: int) -> (k: int)
    requires
        0 <= i <= o.len(),
    ensures
        i <= k <= o.len(),
        forall|j: int| i <= j < k ==> writable((#[trigger] o[j]).1),
        k < o.len() ==> !writable(o[k].1),
    decreases o.len() - i,
{
    if i < o.len() && writable(o[i].1) {
        lemma_first_bad(o, i + 1)
    } else {
        i
    }
}

proof fn lemma_options_iff(o: Options)
    ensures
        options_refused(o, 0) is None <==> options_writable(o),
{
    let k = lemma_first_bad(o, 0);
    lemma_options_refused(o, 0, k);
    if k < o.len() {
        lemma_value_fault(o[k].1);
    }
}

proof fn lemma_entries_refused(b: Seq<Body>, i: int, k: int)
    requires
        0 <= i <= k < b.len(),
        forall|j: int| i <= j < k ==> options_writable((#[trigger] b[j]).options),
        !options_writable(b[k].options),
    ensures
        entries_refused(b, i) == options_refused(b[k].options, 0),
    decreases k - i,
{
    lemma_options_iff(b[i].options);
    if i < k {
        assert(options_writable(b[i].options));
        lemma_entries_refused(b, i + 1, k);
    }
}

/// The first entry of a list, the first declaration of a file, and the first file with a value that
/// cannot be written is reported.
pub proof fn the_first_unwritable_value_is_reported(
    s: Settings,
    c: int,
    i: int,
    k: int,
)
    requires
        0 <= c < s.len(),
        forall|j: int| 0 <= j < c ==> sections_writable((#[trigger] s[j]).1),
        0 <= i < s[c].1.len(),
        forall|j: int| 0 <= j < i ==> shape_writable((#[trigger] s[c].1[j]).1),
        !shape_writable(s[c].1[i].1),
        s[c].1[i].1 matches Shape::List(b) ==> 0 <= k < b.len() && !options_writable(b[k].options)
            && forall|j: int| 0 <= j < k ==> options_writable((#[trigger] b[j]).options),
    ensures
        settings_refused(s) == match s[c].1[i].1 {
            Shape::Named(b) => options_refused(b.options, 0),
            Shape::List(b) => options_refused(b[k].options, 0),
        },
{
    let d = s[c].1;
    match d[i].1 {
        Shape::Named(b) => {},
        Shape::List(b) => {
            lemma_entries_refused(b, 0, k);
        },
    }
    lemma_sections_refused(d, 0, i);
    assert(!shape_writable(d[i].1));
    assert(!sections_writable(d));
    lemma_settings_written(s, 0, c);
}

proof fn lemma_shape_iff(s: Shape)
    ensures
        section_refused(s) is None <==> shape_writable(s),
{
    match s {
        Shape::Named(b) => {
            lemma_options_iff(b.options);
        },
        Shape::List(b) => {
            lemma_entries_iff(b, 0);
        },
    }
}

proof fn lemma_entries_iff(b: Seq<Body>, i: int)
    requires
        0 <= i <= b.len(),
    ensures
        entries_refused(b, i) is None <==> forall|j: int|
            i <= j < b.len() ==> options_writable((#[trigger] b[j]).options),
    decreases b.len() - i,
{
    if i < b.len() {
        lemma_options_iff(b[i].options);
        lemma_entries_iff(b, i + 1);
    }
}

proof fn lemma_sections_refused(s: Sections, i: int, k: int)
    requires
        0 <= i <= k < s.len(),
        forall|j: int| i <= j < k ==> shape_writable((#[trigger] s[j]).1),
        !shape_writable(s[k].1),
    ensures
        sections_refused(s, i) == section_refused(s[k].1),
        sections_refused(s, i) is Some,
    decreases k - i,
{
    lemma_shape_iff(s[i].1);
    if i < k {
        assert(shape_writable(s[i].1));
        lemma_sections_refused(s, i + 1, k);
    }
}

proof fn lemma_sections_iff(s: Sections, i: int)
    requires
        0 <= i <= s.len(),
    ensures
        sections_refused(s, i) is None <==> forall|j: int|
            i <= j < s.len() ==> shape_writable((#[trigger] s[j]).1),
    decreases s.len() - i,
{
    if i < s.len() {
        lemma_shape_iff(s[i].1);
        lemma_sections_iff(s, i + 1);
    }
}

proof fn lemma_settings_written(s: Settings, i: int, c: int)
    requires
        0 <= i <= c < s.len(),
        forall|j: int| i <= j < c ==> sections_writable((#[trigger] s[j]).1),
        !sections_writable(s[c].1),
    ensures
        settings_written(s, i) == c,
    decreases c - i,
{
    lemma_sections_iff(s[i].1, 0);
    if i < c {
        assert(sections_writable(s[i].1));
        lemma_settings_written(s, i + 1, c);
    }
}

// ---- secrets that there are not ----

proof fn lemma_items_first(items: Seq<Json>, i: nat, k: int, m: Secrets)
    requires
        i <= k < items.len(),
        forall|j: int| i <= j < k ==> value_missing(#[trigger] items[j], m) is None,
        value_missing(items[k], m) is Some,
    ensures
        items_missing(items, i, m) == value_missing(items[k], m),
    decreases k - i,
{
    if i < k {
        assert(value_missing(items[i as int], m) is None);
        lemma_items_first(items, i + 1, k, m);
    }
}

proof fn lemma_options_first(o: Options, i: int, k: int, m: Secrets)
    requires
        0 <= i <= k < o.len(),
        forall|j: int| i <= j < k ==> value_missing((#[trigger] o[j]).1, m) is None,
        value_missing(o[k].1, m) is Some,
    ensures
        options_missing(o, i, m) == value_missing(o[k].1, m),
    decreases k - i,
{
    if i < k {
        assert(value_missing(o[i].1, m) is None);
        lemma_options_first(o, i + 1, k, m);
    }
}

/// The first option of a section that asks for a secret in vain is reported by the name it asks
/// for first.
pub proof fn the_first_missing_secret_of_options_is_reported(o: Options, k: int, m: Secrets)
    requires
        0 <= k < o.len(),
        forall|j: int| 0 <= j < k ==> value_missing((#[trigger] o[j]).1, m) is None,
        o[k].1 is Text,
        interpolated(o[k].1->Text_0, m) is Err,
    ensures
        options_missing(o, 0, m) == Some(interpolated(o[k].1->Text_0, m)->Err_0),
{
    lemma_options_first(o, 0, k, m);
}

/// In a list the first item that asks for a secret in vain is reported.
pub proof fn the_first_missing_secret_of_a_list_is_reported(items: Seq<Json>, k: int, m: Secrets)
    requires
        0 <= k < items.len(),
        forall|j: int| 0 <= j < k ==> value_missing(#[trigger] items[j], m) is None,
        items[k] is Text,
        interpolated(items[k]->Text_0, m) is Err,
    ensures
        value_missing(Json::Array(items), m) == Some(interpolated(items[k]->Text_0, m)->Err_0),
{
    lemma_items_first(items, 0, k, m);
    assert(value_missing(items[k], m) == Some(interpolated(items[k]->Text_0, m)->Err_0));
}

proof fn lemma_bodies_first(b: Seq<Body>, i: int, k: int, m: Secrets)
    requires
        0 <= i <= k < b.len(),
        forall|j: int| i <= j < k ==> options_missing((#[trigger] b[j]).options, 0, m) is None,
        options_missing(b[k].options, 0, m) is Some,
    ensures
        bodies_missing(b, i, m) == options_missing(b[k].options, 0, m),
    decreases k - i,
{
    if i < k {
        assert(options_missing(b[i].options, 0, m) is None);
        lemma_bodies_first(b, i + 1, k, m);
    }
}

proof fn lemma_sections_first(s: Sections, i: int, k: int, m: Secrets)
    requires
        0 <= i <= k < s.len(),
        forall|j: int| i <= j < k ==> shape_missing((#[trigger] s[j]).1, m) is None,
        shape_missing(s[k].1, m) is Some,
    ensures
        sections_missing(s, i, m) == shape_missing(s[k].1, m),
    decreases k - i,
{
    if i < k {
        assert(shape_missing(s[i].1, m) is None);
        lemma_sections_first(s, i + 1, k, m);
    }
}

proof fn lemma_settings_first(s: Settings, i: int, k: int, m: Secrets)
    requires
        0 <= i <= k < s.len(),
        forall|j: int| i <= j < k ==> sections_missing((#[trigger] s[j]).1, 0, m) is None,
        sections_missing(s[k].1, 0, m) is Some,
    ensures
        settings_missing(s, i, m) == sections_missing(s[k].1, 0, m),
    decreases k - i,
{
    if i < k {
        assert(sections_missing(s[i].1, 0, m) is None);
        lemma_settings_first(s, i + 1, k, m);
    }
}

/// Settings are looked at file by file and section by section: the first named section whose
/// options ask in vain, where nothing before it does, is reported.
pub proof fn the_first_missing_secret_is_reported(d: Declared, m: Secrets, c: int, i: int, k: int)
    requires
        0 <= c < d.settings.len(),
        forall|j: int| 0 <= j < c ==> sections_missing((#[trigger] d.settings[j]).1, 0, m) is None,
        0 <= i < d.settings[c].1.len(),
        forall|j: int| 0 <= j < i ==> shape_missing((#[trigger] d.settings[c].1[j]).1, m) is None,
        match d.settings[c].1[i].1 {
            Shape::Named(b) => options_missing(b.options, 0, m) is Some,
            Shape::List(b) => 0 <= k < b.len() && options_missing(b[k].options, 0, m) is Some
                && forall|j: int|
                0 <= j < k ==> options_missing((#[trigger] b[j]).options, 0, m) is None,
        },
    ensures
        root_missing(d, m) == match d.settings[c].1[i].1 {
            Shape::Named(b) => options_missing(b.options, 0, m),
            Shape::List(b) => options_missing(b[k].options, 0, m),
        },
{
    if let Shape::List(b) = d.settings[c].1[i].1 {
        lemma_bodies_first(b, 0, k, m);
    }
    lemma_sections_first(d.settings[c].1, 0, i, m);
    lemma_settings_first(d.settings, 0, c, m);
}

proof fn lemma_texts_first(t: Seq<Seq<char>>, i: int, k: int, m: Secrets)
    requires
        0 <= i <= k < t.len(),
        forall|j: int| i <= j < k ==> text_missing(#[trigger] t[j], m) is None,
        text_missing(t[k], m) is Some,
    ensures
        texts_missing(t, i, m) == text_missing(t[k], m),
    decreases k - i,
{
    if i < k {
        assert(text_missing(t[i], m) is None);
        lemma_texts_first(t, i + 1, k, m);
    }
}

/// Feeds are looked at behind the settings: the first that asks in vain is reported by the name it
/// asks for first.
pub proof fn feeds_are_looked_at_last(d: Declared, m: Secrets, k: int)
    requires
        settings_missing(d.settings, 0, m) is None,
        0 <= k < feeds_of(d).len(),
        forall|j: int| 0 <= j < k ==> interpolated(#[trigger] feeds_of(d)[j], m) is Ok,
        interpolated(feeds_of(d)[k], m) is Err,
    ensures
        root_missing(d, m) == Some(interpolated(feeds_of(d)[k], m)->Err_0),
{
    let t = feeds_of(d);
    assert forall|j: int| 0 <= j < k implies text_missing(#[trigger] t[j], m) is None by {
        assert(interpolated(t[j], m) is Ok);
    }
    lemma_texts_first(t, 0, k, m);
}

} // verus!
