//! Secrets take the place of their placeholders: `@name@` stands for the secret `name`.

use crate::config::models::{
    bodies, config_at, config_entries, list_configs, list_options, list_sections, option_at,
    option_entries, section_at, section_entries, Body, Declared, Json, Options, Root, Section,
    Sections, Settings, Shape, Sources, Value,
};
use crate::utils::error::{ConfigError, Failure};
use crate::utils::text::{
    ascii_alphanumeric, chars_of, contains_char, find, find_from, is_ascii_alphanumeric, lemma_find,
    lemma_find_is, text_of, texts,
};
use crate::utils::text_map::TextMap;
use indexmap::IndexMap;
use std::borrow::Cow;
use vstd::prelude::*;

verus! {

/// Secrets by name.
pub type Secrets = Map<Seq<char>, Seq<char>>;

// ---- texts ----

/// A text between two `@` that can only be meant as a secret's name.
pub open spec fn secret_name(s: Seq<char>) -> bool {
    s.len() > 0 && forall|i: int|
        0 <= i < s.len() ==> ascii_alphanumeric(#[trigger] s[i]) || s[i] == '_'
}

/// What a text becomes: each placeholder gives way to its secret, and what stands between two
/// `@` but is no name is left alone. A name without a secret is an error.
pub open spec fn expand(s: Seq<char>, m: Secrets) -> Result<Seq<char>, Seq<char>>
    decreases s.len(),
{
    let i = find(s, '@');
    let rest = s.skip(i + 1);
    let j = find(rest, '@');
    if !(0 <= i < s.len() && 0 <= j < rest.len()) {
        Ok(s)
    } else {
        let name = rest.take(j);
        if m.dom().contains(name) {
            behind(s.take(i) + m[name], expand(rest.skip(j + 1), m))
        } else if secret_name(name) {
            Err(name)
        } else {
            behind(s.take(i + 1), expand(rest, m))
        }
    }
}

/// A result behind a text that is already there.
pub open spec fn behind(a: Seq<char>, r: Result<Seq<char>, Seq<char>>) -> Result<
    Seq<char>,
    Seq<char>,
> {
    match r {
        Ok(b) => Ok(a + b),
        Err(e) => Err(e),
    }
}

/// What a text becomes. Without secrets nothing is a placeholder.
pub open spec fn interpolated(s: Seq<char>, m: Secrets) -> Result<Seq<char>, Seq<char>> {
    if m == Map::<Seq<char>, Seq<char>>::empty() {
        Ok(s)
    } else {
        expand(s, m)
    }
}

/// Whether a placeholder of a text gives way to a secret.
pub open spec fn replaces(s: Seq<char>, m: Secrets) -> bool
    decreases s.len(),
{
    let i = find(s, '@');
    let rest = s.skip(i + 1);
    let j = find(rest, '@');
    0 <= i < s.len() && 0 <= j < rest.len() && (m.dom().contains(rest.take(j)) || (!secret_name(
        rest.take(j),
    ) && replaces(rest, m)))
}

/// The name of the first secret that a text asks for and that there is not.
pub open spec fn text_missing(s: Seq<char>, m: Secrets) -> Option<Seq<char>> {
    match interpolated(s, m) {
        Ok(_) => None,
        Err(name) => Some(name),
    }
}

/// A text with its secrets.
pub open spec fn text_resolved(s: Seq<char>, m: Secrets) -> Seq<char> {
    match interpolated(s, m) {
        Ok(t) => t,
        Err(_) => s,
    }
}

/// The error for a secret that there is not.
pub open spec fn missing_secret(name: Seq<char>) -> Failure {
    Failure::Validation(
        "Tried to use secret "@ + name + ", but no secret with this name specified."@,
    )
}

fn is_secret_name(v: &Vec<char>, from: usize, to: usize) -> (r: bool)
    requires
        from <= to <= v@.len(),
    ensures
        r == secret_name(v@.subrange(from as int, to as int)),
{
    let ghost s = v@.subrange(from as int, to as int);
    if from == to {
        return false;
    }
    let mut i: usize = from;
    while i < to
        invariant
            from <= i <= to <= v@.len(),
            s == v@.subrange(from as int, to as int),
            forall|j: int|
                0 <= j < i - from ==> ascii_alphanumeric(#[trigger] s[j]) || s[j] == '_',
        decreases to - i,
    {
        if !(is_ascii_alphanumeric(v[i]) || v[i] == '_') {
            assert(s[i - from] == v@[i as int]);
            return false;
        }
        i += 1;
    }
    true
}

fn missing_secret_error(name: &str) -> (r: ConfigError)
    ensures
        r@ == missing_secret(name@),
{
    let mut m = "Tried to use secret ".to_owned();
    m.append(name);
    m.append(", but no secret with this name specified.");
    ConfigError::Validation(m)
}

/// Puts secrets in the place of their placeholders. A text in which nothing is replaced is handed
/// back as it stands.
pub fn interpolate_secrets<'a>(option_val: &'a str, secrets: &TextMap<String>) -> (r: Result<
    Cow<'a, str>,
    ConfigError,
>)
    ensures
        match (r, interpolated(option_val@, secrets@)) {
            (Ok(t), Ok(u)) => t@ == u,
            (Err(e), Err(name)) => e@ == missing_secret(name),
            _ => false,
        },
        r matches Ok(t) ==> (t is Owned <==> replaces(option_val@, secrets@)),
{
    proof {
        lemma_find(option_val@, '@');
    }
    if !contains_char(option_val, '@') || secrets.is_empty() {
        proof {
            if option_val@.contains('@') {
                lemma_no_secret_replaces(option_val@, secrets@);
            }
        }
        return Ok(Cow::Borrowed(option_val));
    }
    let ghost m = secrets@;
    let v = chars_of(option_val);
    let mut result = String::new();
    // everything before `last` is in `result`, everything before `current` has been looked at
    let mut last: usize = 0;
    let mut current: usize = 0;
    assert(v@.skip(0) =~= v@);
    assert(result@ + v@.subrange(0, 0) =~= Seq::empty());
    proof {
        if let Ok(t) = expand(v@, m) {
            assert(Seq::<char>::empty() + t =~= t);
        }
    }
    loop
        invariant_except_break
            last <= current <= v@.len(),
            expand(v@, m) == behind(
                result@ + v@.subrange(last as int, current as int),
                expand(v@.skip(current as int), m),
            ),
            replaces(v@, m) == (last > 0 || replaces(v@.skip(current as int), m)),
        invariant
            last <= v@.len(),
            last == 0 ==> result@.len() == 0,
            v@ == option_val@,
            m == secrets@,
            m != Map::<Seq<char>, Seq<char>>::empty(),
        ensures
            expand(v@, m) == Ok::<Seq<char>, Seq<char>>(result@ + v@.skip(last as int)),
            replaces(v@, m) == (last > 0),
        decreases v@.len() - current,
    {
        let ghost rest = v@.skip(current as int);
        let ghost before = result@;
        let ghost done = result@ + v@.subrange(last as int, current as int);
        let start = find_from(&v, current, '@');
        if start == v.len() {
            proof {
                lemma_nothing_left(v@, current as int, m);
                lemma_passed(result@, v@, last as int, current as int, v@.len() as int);
                assert(done + rest == result@ + v@.skip(last as int));
            }
            break;
        }
        let end = find_from(&v, start + 1, '@');
        if end == v.len() {
            proof {
                lemma_nothing_left(v@, current as int, m);
                lemma_passed(result@, v@, last as int, current as int, v@.len() as int);
                assert(done + rest == result@ + v@.skip(last as int));
            }
            break;
        }
        let name = text_of(&v, start + 1, end);
        match secrets.get(name.as_str()) {
            Some(secret) => {
                let plain = text_of(&v, last, start);
                result.append(plain.as_str());
                result.append(secret.as_str());
                proof {
                    lemma_pair(v@, current as int, start as int, end as int, m);
                    let piece = v@.subrange(current as int, start as int) + secret@;
                    lemma_taken(before, v@, last as int, current as int, start as int, secret@);
                    assert(result@ + v@.subrange(end + 1, end + 1) =~= result@);
                    assert(done + piece == result@ + v@.subrange(end + 1, end + 1));
                    lemma_behind(done, piece, expand(v@.skip(end + 1), m));
                }
                last = end + 1;
                current = end + 1;
            },
            None => {
                proof {
                    lemma_pair(v@, current as int, start as int, end as int, m);
                }
                if is_secret_name(&v, start + 1, end) {
                    return Err(missing_secret_error(name.as_str()));
                }
                proof {
                    let piece = v@.subrange(current as int, start + 1);
                    lemma_passed(result@, v@, last as int, current as int, start + 1);
                    lemma_behind(done, piece, expand(v@.skip(start + 1), m));
                }
                current = start + 1;
            },
        }
    }
    if last == 0 {
        assert(result@ + v@.skip(0) =~= v@);
        Ok(Cow::Borrowed(option_val))
    } else {
        let plain = text_of(&v, last, v.len());
        assert(plain@ =~= v@.skip(last as int));
        result.append(plain.as_str());
        Ok(Cow::Owned(result))
    }
}

/// What was passed over and what follows it make one piece.
proof fn lemma_passed(r: Seq<char>, s: Seq<char>, last: int, current: int, to: int)
    requires
        0 <= last <= current <= to <= s.len(),
    ensures
        r + s.subrange(last, current) + s.subrange(current, to) == r + s.subrange(last, to),
        s.subrange(last, s.len() as int) == s.skip(last),
        s.subrange(current, s.len() as int) == s.skip(current),
{
    assert(r + s.subrange(last, current) + s.subrange(current, to) =~= r + s.subrange(last, to));
    assert(s.subrange(last, s.len() as int) =~= s.skip(last));
    assert(s.subrange(current, s.len() as int) =~= s.skip(current));
}

/// A secret stands behind what was passed over and what stands before its placeholder.
proof fn lemma_taken(
    r: Seq<char>,
    s: Seq<char>,
    last: int,
    current: int,
    start: int,
    secret: Seq<char>,
)
    requires
        0 <= last <= current <= start <= s.len(),
    ensures
        r + s.subrange(last, current) + (s.subrange(current, start) + secret) == r + s.subrange(
            last,
            start,
        ) + secret,
{
    assert(r + s.subrange(last, current) + (s.subrange(current, start) + secret) =~= r + s.subrange(
        last,
        start,
    ) + secret);
}

/// With fewer than two `@` behind `from`, what stands there is plain.
proof fn lemma_nothing_left(s: Seq<char>, from: int, m: Secrets)
    requires
        0 <= from <= s.len(),
        ({
            let start = from + find(s.skip(from), '@');
            start >= s.len() || start + 1 + find(s.skip(start + 1), '@') >= s.len()
        }),
    ensures
        expand(s.skip(from), m) == Ok::<Seq<char>, Seq<char>>(s.skip(from)),
        !replaces(s.skip(from), m),
{
    let rest = s.skip(from);
    lemma_find(rest, '@');
    let i = find(rest, '@');
    if i < rest.len() {
        assert(rest.skip(i + 1) =~= s.skip(from + i + 1));
    }
}

/// What becomes of the first two `@` behind `from` and of what stands between them.
proof fn lemma_pair(s: Seq<char>, from: int, start: int, end: int, m: Secrets)
    requires
        0 <= from <= start < end < s.len(),
        start == from + find(s.skip(from), '@'),
        end == start + 1 + find(s.skip(start + 1), '@'),
    ensures
        ({
            let name = s.subrange(start + 1, end);
            expand(s.skip(from), m) == if m.dom().contains(name) {
                behind(s.subrange(from, start) + m[name], expand(s.skip(end + 1), m))
            } else if secret_name(name) {
                Err(name)
            } else {
                behind(s.subrange(from, start + 1), expand(s.skip(start + 1), m))
            }
        }),
        replaces(s.skip(from), m) == (m.dom().contains(s.subrange(start + 1, end)) || (
        !secret_name(s.subrange(start + 1, end)) && replaces(s.skip(start + 1), m))),
{
    let rest = s.skip(from);
    let inner = s.skip(start + 1);
    assert(rest.skip(start - from + 1) =~= inner);
    assert(inner.take(end - start - 1) =~= s.subrange(start + 1, end));
    assert(inner.skip(end - start) =~= s.skip(end + 1));
    assert(rest.take(start - from) =~= s.subrange(from, start));
    assert(rest.take(start - from + 1) =~= s.subrange(from, start + 1));
}

proof fn lemma_no_secret_replaces(s: Seq<char>, m: Secrets)
    requires
        m == Map::<Seq<char>, Seq<char>>::empty(),
    ensures
        !replaces(s, m),
    decreases s.len(),
{
    let i = find(s, '@');
    let rest = s.skip(i + 1);
    if 0 <= i < s.len() {
        lemma_no_secret_replaces(rest, m);
    }
}

proof fn lemma_behind(a: Seq<char>, b: Seq<char>, r: Result<Seq<char>, Seq<char>>)
    ensures
        behind(a, behind(b, r)) == behind(a + b, r),
{
    if let Ok(t) = r {
        assert(a + (b + t) =~= a + b + t);
    }
}

// ---- values ----

/// The first secret that a value asks for and that there is not. Objects are not looked into.
pub open spec fn value_missing(v: Json, m: Secrets) -> Option<Seq<char>>
    decreases v, 0nat,
{
    match v {
        Json::Text(s) => text_missing(s, m),
        Json::Array(items) => items_missing(items, 0, m),
        _ => None,
    }
}

/// The first such secret among the values from `i` on.
pub open spec fn items_missing(items: Seq<Json>, i: nat, m: Secrets) -> Option<Seq<char>>
    decreases items, items.len() - i,
{
    if i >= items.len() {
        None
    } else {
        match value_missing(items[i as int], m) {
            Some(name) => Some(name),
            None => items_missing(items, i + 1, m),
        }
    }
}

/// A value with its secrets.
pub open spec fn value_resolved(v: Json, m: Secrets) -> Json
    decreases v,
{
    match v {
        Json::Text(s) => Json::Text(text_resolved(s, m)),
        Json::Array(items) => Json::Array(
            Seq::new(
                items.len(),
                |i: int|
                    if 0 <= i < items.len() {
                        value_resolved(items[i], m)
                    } else {
                        Json::Null
                    },
            ),
        ),
        _ => v,
    }
}

/// Whether a result is an error for the missing secret, or none where none is missing.
pub open spec fn reports_missing(r: Result<(), ConfigError>, missing: Option<Seq<char>>) -> bool {
    match (r, missing) {
        (Ok(_), None) => true,
        (Err(e), Some(name)) => e@ == missing_secret(name),
        _ => false,
    }
}

fn resolve_text(s: &str, secrets: &TextMap<String>) -> (r: Result<String, ConfigError>)
    ensures
        match (r, interpolated(s@, secrets@)) {
            (Ok(t), Ok(u)) => t@ == u,
            (Err(e), Err(name)) => e@ == missing_secret(name),
            _ => false,
        },
{
    match interpolate_secrets(s, secrets) {
        Ok(Cow::Borrowed(t)) => Ok(t.to_owned()),
        Ok(Cow::Owned(t)) => Ok(t),
        Err(e) => Err(e),
    }
}

fn resolve_value(val: &mut Value, secrets: &TextMap<String>) -> (r: Result<(), ConfigError>)
    ensures
        reports_missing(r, value_missing(old(val)@, secrets@)),
        r is Ok ==> final(val)@ == value_resolved(old(val)@, secrets@),
    decreases *old(val),
{
    let ghost v0 = *val;
    let ghost m = secrets@;
    match val {
        Value::Text(s) => {
            match resolve_text(s.as_str(), secrets) {
                Ok(t) => {
                    *s = t;
                    Ok(())
                },
                Err(e) => Err(e),
            }
        },
        Value::Array(items) => {
            let ghost a0 = items@;
            let ghost js = v0@->Array_0;
            let mut i: usize = 0;
            while i < items.len()
                invariant
                    i <= items@.len() == a0.len(),
                    a0.len() == js.len(),
                    v0 is Array,
                    v0->Array_0@ == a0,
                    js == v0@->Array_0,
                    m == secrets@,
                    v0 == *old(val),
                    items_missing(js, 0, m) == items_missing(js, i as nat, m),
                    forall|k: int| 0 <= k < i ==> (#[trigger] items@[k])@ == value_resolved(js[k], m),
                    forall|k: int| i <= k < items@.len() ==> (#[trigger] items@[k]) == a0[k],
                decreases a0.len() - i,
            {
                assert(js[i as int] == a0[i as int]@);
                assert(decreases_to!(v0 => v0->Array_0@[i as int]));
                match resolve_value(&mut items[i], secrets) {
                    Ok(_) => {},
                    Err(e) => {
                        return Err(e);
                    },
                }
                i += 1;
            }
            proof {
                let done = Value::Array(*items)@->Array_0;
                assert(done =~= value_resolved(v0@, m)->Array_0);
            }
            Ok(())
        },
        _ => Ok(()),
    }
}

// ---- sections ----

pub open spec fn options_missing(o: Options, i: int, m: Secrets) -> Option<Seq<char>>
    decreases o.len() - i,
{
    if i < 0 || i >= o.len() {
        None
    } else {
        match value_missing(o[i].1, m) {
            Some(name) => Some(name),
            None => options_missing(o, i + 1, m),
        }
    }
}

pub open spec fn options_resolved(o: Options, m: Secrets) -> Options {
    Seq::new(o.len(), |i: int| (o[i].0, value_resolved(o[i].1, m)))
}

pub open spec fn body_resolved(b: Body, m: Secrets) -> Body {
    Body { ty: b.ty, options: options_resolved(b.options, m) }
}

pub open spec fn bodies_missing(b: Seq<Body>, i: int, m: Secrets) -> Option<Seq<char>>
    decreases b.len() - i,
{
    if i < 0 || i >= b.len() {
        None
    } else {
        match options_missing(b[i].options, 0, m) {
            Some(name) => Some(name),
            None => bodies_missing(b, i + 1, m),
        }
    }
}

pub open spec fn shape_missing(s: Shape, m: Secrets) -> Option<Seq<char>> {
    match s {
        Shape::List(b) => bodies_missing(b, 0, m),
        Shape::Named(b) => options_missing(b.options, 0, m),
    }
}

pub open spec fn shape_resolved(s: Shape, m: Secrets) -> Shape {
    match s {
        Shape::List(b) => Shape::List(Seq::new(b.len(), |i: int| body_resolved(b[i], m))),
        Shape::Named(b) => Shape::Named(body_resolved(b, m)),
    }
}

pub open spec fn sections_missing(s: Sections, i: int, m: Secrets) -> Option<Seq<char>>
    decreases s.len() - i,
{
    if i < 0 || i >= s.len() {
        None
    } else {
        match shape_missing(s[i].1, m) {
            Some(name) => Some(name),
            None => sections_missing(s, i + 1, m),
        }
    }
}

pub open spec fn sections_resolved(s: Sections, m: Secrets) -> Sections {
    Seq::new(s.len(), |i: int| (s[i].0, shape_resolved(s[i].1, m)))
}

pub open spec fn settings_missing(s: Settings, i: int, m: Secrets) -> Option<Seq<char>>
    decreases s.len() - i,
{
    if i < 0 || i >= s.len() {
        None
    } else {
        match sections_missing(s[i].1, 0, m) {
            Some(name) => Some(name),
            None => settings_missing(s, i + 1, m),
        }
    }
}

pub open spec fn settings_resolved(s: Settings, m: Secrets) -> Settings {
    Seq::new(s.len(), |i: int| (s[i].0, sections_resolved(s[i].1, m)))
}

fn resolve_options(options: &mut IndexMap<String, Value>, secrets: &TextMap<String>) -> (r: Result<
    (),
    ConfigError,
>)
    ensures
        reports_missing(r, options_missing(option_entries(*old(options)), 0, secrets@)),
        r is Ok ==> option_entries(*final(options)) == options_resolved(
            option_entries(*old(options)),
            secrets@,
        ),
{
    let ghost o = option_entries(*options);
    let n = list_options(options).len();
    let mut i: usize = 0;
    while i < n
        invariant
            i <= n == o.len(),
            o == option_entries(*old(options)),
            option_entries(*options).len() == o.len(),
            options_missing(o, 0, secrets@) == options_missing(o, i as int, secrets@),
            forall|k: int|
                0 <= k < i ==> #[trigger] option_entries(*options)[k] == (
                    o[k].0,
                    value_resolved(o[k].1, secrets@),
                ),
            forall|k: int| i <= k < n ==> #[trigger] option_entries(*options)[k] == o[k],
        decreases n - i,
    {
        let value = option_at(options, i);
        match resolve_value(value, secrets) {
            Ok(_) => {},
            Err(e) => {
                return Err(e);
            },
        }
        i += 1;
    }
    assert(option_entries(*options) =~= options_resolved(o, secrets@));
    Ok(())
}

fn resolve_section(section: &mut Section, secrets: &TextMap<String>) -> (r: Result<
    (),
    ConfigError,
>)
    ensures
        reports_missing(r, shape_missing(old(section)@, secrets@)),
        r is Ok ==> final(section)@ == shape_resolved(old(section)@, secrets@),
{
    let ghost s0 = *section;
    match section {
        Section::List(items) => {
            let ghost b = bodies(items@);
            let ghost i0 = items@;
            let mut i: usize = 0;
            while i < items.len()
                invariant
                    i <= items@.len() == b.len(),
                    b == bodies(i0),
                    bodies_missing(b, 0, secrets@) == bodies_missing(b, i as int, secrets@),
                    s0 is List,
                    s0->List_0@ == i0,
                    s0 == *old(section),
                    forall|k: int|
                        0 <= k < i ==> (#[trigger] items@[k])@ == body_resolved(b[k], secrets@),
                    forall|k: int| i <= k < items@.len() ==> #[trigger] items@[k] == i0[k],
                decreases b.len() - i,
            {
                match resolve_options(&mut items[i].options, secrets) {
                    Ok(_) => {},
                    Err(e) => {
                        return Err(e);
                    },
                }
                i += 1;
            }
            proof {
                let done = bodies(items@);
                assert(done =~= Seq::new(b.len(), |k: int| body_resolved(b[k], secrets@)));
            }
            Ok(())
        },
        Section::Named(data) => resolve_options(&mut data.options, secrets),
    }
}

fn resolve_sections(sections: &mut IndexMap<String, Section>, secrets: &TextMap<String>) -> (r:
    Result<(), ConfigError>)
    ensures
        reports_missing(r, sections_missing(section_entries(*old(sections)), 0, secrets@)),
        r is Ok ==> section_entries(*final(sections)) == sections_resolved(
            section_entries(*old(sections)),
            secrets@,
        ),
{
    let ghost s = section_entries(*sections);
    let n = list_sections(sections).len();
    let mut i: usize = 0;
    while i < n
        invariant
            i <= n == s.len(),
            s == section_entries(*old(sections)),
            section_entries(*sections).len() == s.len(),
            sections_missing(s, 0, secrets@) == sections_missing(s, i as int, secrets@),
            forall|k: int|
                0 <= k < i ==> #[trigger] section_entries(*sections)[k] == (
                    s[k].0,
                    shape_resolved(s[k].1, secrets@),
                ),
            forall|k: int| i <= k < n ==> #[trigger] section_entries(*sections)[k] == s[k],
        decreases n - i,
    {
        let section = section_at(sections, i);
        match resolve_section(section, secrets) {
            Ok(_) => {},
            Err(e) => {
                return Err(e);
            },
        }
        i += 1;
    }
    assert(section_entries(*sections) =~= sections_resolved(s, secrets@));
    Ok(())
}

fn resolve_settings(
    settings: &mut IndexMap<String, IndexMap<String, Section>>,
    secrets: &TextMap<String>,
) -> (r: Result<(), ConfigError>)
    ensures
        reports_missing(r, settings_missing(config_entries(*old(settings)), 0, secrets@)),
        r is Ok ==> config_entries(*final(settings)) == settings_resolved(
            config_entries(*old(settings)),
            secrets@,
        ),
{
    let ghost s = config_entries(*settings);
    let n = list_configs(settings).len();
    let mut i: usize = 0;
    while i < n
        invariant
            i <= n == s.len(),
            s == config_entries(*old(settings)),
            config_entries(*settings).len() == s.len(),
            settings_missing(s, 0, secrets@) == settings_missing(s, i as int, secrets@),
            forall|k: int|
                0 <= k < i ==> #[trigger] config_entries(*settings)[k] == (
                    s[k].0,
                    sections_resolved(s[k].1, secrets@),
                ),
            forall|k: int| i <= k < n ==> #[trigger] config_entries(*settings)[k] == s[k],
        decreases n - i,
    {
        let sections = config_at(settings, i);
        match resolve_sections(sections, secrets) {
            Ok(_) => {},
            Err(e) => {
                return Err(e);
            },
        }
        i += 1;
    }
    assert(config_entries(*settings) =~= settings_resolved(s, secrets@));
    Ok(())
}

// ---- the whole configuration ----

pub open spec fn texts_missing(t: Seq<Seq<char>>, i: int, m: Secrets) -> Option<Seq<char>>
    decreases t.len() - i,
{
    if i < 0 || i >= t.len() {
        None
    } else {
        match text_missing(t[i], m) {
            Some(name) => Some(name),
            None => texts_missing(t, i + 1, m),
        }
    }
}

pub open spec fn texts_resolved(t: Seq<Seq<char>>, m: Secrets) -> Seq<Seq<char>> {
    Seq::new(t.len(), |i: int| text_resolved(t[i], m))
}

pub open spec fn feeds_of(d: Declared) -> Seq<Seq<char>> {
    match d.package_sources {
        Some(s) => match s.feeds {
            Some(f) => f,
            None => Seq::empty(),
        },
        None => Seq::empty(),
    }
}

/// The first secret that a configuration asks for and that there is not: in its settings, then in
/// its feeds.
pub open spec fn root_missing(d: Declared, m: Secrets) -> Option<Seq<char>> {
    match settings_missing(d.settings, 0, m) {
        Some(name) => Some(name),
        None => texts_missing(feeds_of(d), 0, m),
    }
}

pub open spec fn sources_resolved(s: Sources, m: Secrets) -> Sources {
    Sources {
        feeds: match s.feeds {
            Some(f) => Some(texts_resolved(f, m)),
            None => None,
        },
        ..s
    }
}

/// A configuration with its secrets. They can stand in option values and in feeds.
pub open spec fn root_resolved(d: Declared, m: Secrets) -> Declared {
    Declared {
        settings: settings_resolved(d.settings, m),
        package_sources: match d.package_sources {
            Some(s) => Some(sources_resolved(s, m)),
            None => None,
        },
        ..d
    }
}

fn resolve_texts(list: &mut Vec<String>, secrets: &TextMap<String>) -> (r: Result<(), ConfigError>)
    ensures
        reports_missing(r, texts_missing(texts(old(list)@), 0, secrets@)),
        r is Ok ==> texts(final(list)@) == texts_resolved(texts(old(list)@), secrets@),
{
    let ghost t = texts(list@);
    let ghost l0 = list@;
    let mut i: usize = 0;
    while i < list.len()
        invariant
            i <= list@.len() == t.len(),
            t == texts(l0),
            l0 == old(list)@,
            texts_missing(t, 0, secrets@) == texts_missing(t, i as int, secrets@),
            forall|k: int| 0 <= k < i ==> (#[trigger] list@[k])@ == text_resolved(t[k], secrets@),
            forall|k: int| i <= k < list@.len() ==> #[trigger] list@[k] == l0[k],
        decreases t.len() - i,
    {
        match resolve_text(list[i].as_str(), secrets) {
            Ok(s) => {
                list.set(i, s);
            },
            Err(e) => {
                return Err(e);
            },
        }
        i += 1;
    }
    assert(texts(list@) =~= texts_resolved(t, secrets@));
    Ok(())
}

/// Puts secrets in the place of their placeholders throughout a configuration. Without secrets it
/// stays as it is.
pub fn resolve_secrets(root: Root, secrets: &TextMap<String>) -> (r: Result<Root, ConfigError>)
    ensures
        match (r, root_missing(root@, secrets@)) {
            (Ok(out), None) => out@ == root_resolved(root@, secrets@),
            (Err(e), Some(name)) => e@ == missing_secret(name),
            _ => false,
        },
{
    let ghost d = root@;
    let ghost m = secrets@;
    if secrets.is_empty() {
        proof {
            lemma_no_secrets(d);
        }
        return Ok(root);
    }
    let mut root = root;
    match resolve_settings(&mut root.settings, secrets) {
        Ok(_) => {},
        Err(e) => {
            return Err(e);
        },
    }
    if let Some(sources) = &mut root.package_sources {
        if let Some(feeds) = &mut sources.feeds {
            match resolve_texts(feeds, secrets) {
                Ok(_) => {},
                Err(e) => {
                    return Err(e);
                },
            }
        }
    }
    Ok(root)
}

// ---- laws ----

proof fn lemma_value_without_secrets(v: Json)
    ensures
        value_missing(v, Map::empty()) is None,
        value_resolved(v, Map::empty()) == v,
    decreases v, 0nat,
{
    if let Json::Array(items) = v {
        lemma_items_without_secrets(items, 0);
        assert forall|i: int| 0 <= i < items.len() implies value_resolved(
            #[trigger] items[i],
            Map::empty(),
        ) == items[i] by {
            lemma_value_without_secrets(items[i]);
        }
        assert(value_resolved(v, Map::empty())->Array_0 =~= items);
    }
}

proof fn lemma_items_without_secrets(items: Seq<Json>, i: nat)
    ensures
        items_missing(items, i, Map::empty()) is None,
    decreases items, items.len() - i,
{
    if i < items.len() {
        lemma_value_without_secrets(items[i as int]);
        lemma_items_without_secrets(items, i + 1);
    }
}

proof fn lemma_options_without_secrets(o: Options, i: int)
    requires
        0 <= i <= o.len(),
    ensures
        options_missing(o, i, Map::empty()) is None,
        options_resolved(o, Map::empty()) == o,
    decreases o.len() - i,
{
    if i < o.len() {
        lemma_value_without_secrets(o[i].1);
        lemma_options_without_secrets(o, i + 1);
    }
    assert forall|k: int| 0 <= k < o.len() implies value_resolved((#[trigger] o[k]).1, Map::empty())
        == o[k].1 by {
        lemma_value_without_secrets(o[k].1);
    }
    assert(options_resolved(o, Map::empty()) =~= o);
}

proof fn lemma_bodies_without_secrets(b: Seq<Body>, i: int)
    requires
        0 <= i <= b.len(),
    ensures
        bodies_missing(b, i, Map::empty()) is None,
    decreases b.len() - i,
{
    if i < b.len() {
        lemma_options_without_secrets(b[i].options, 0);
        lemma_bodies_without_secrets(b, i + 1);
    }
}

proof fn lemma_shape_without_secrets(s: Shape)
    ensures
        shape_missing(s, Map::empty()) is None,
        shape_resolved(s, Map::empty()) == s,
{
    match s {
        Shape::List(b) => {
            lemma_bodies_without_secrets(b, 0);
            assert forall|k: int| 0 <= k < b.len() implies body_resolved(
                #[trigger] b[k],
                Map::empty(),
            ) == b[k] by {
                lemma_options_without_secrets(b[k].options, 0);
            }
            assert(shape_resolved(s, Map::empty())->List_0 =~= b);
        },
        Shape::Named(b) => {
            lemma_options_without_secrets(b.options, 0);
        },
    }
}

proof fn lemma_sections_without_secrets(s: Sections, i: int)
    requires
        0 <= i <= s.len(),
    ensures
        sections_missing(s, i, Map::empty()) is None,
        sections_resolved(s, Map::empty()) == s,
    decreases s.len() - i,
{
    if i < s.len() {
        lemma_shape_without_secrets(s[i].1);
        lemma_sections_without_secrets(s, i + 1);
    }
    assert forall|k: int| 0 <= k < s.len() implies shape_resolved((#[trigger] s[k]).1, Map::empty())
        == s[k].1 by {
        lemma_shape_without_secrets(s[k].1);
    }
    assert(sections_resolved(s, Map::empty()) =~= s);
}

proof fn lemma_settings_without_secrets(s: Settings, i: int)
    requires
        0 <= i <= s.len(),
    ensures
        settings_missing(s, i, Map::empty()) is None,
        settings_resolved(s, Map::empty()) == s,
    decreases s.len() - i,
{
    if i < s.len() {
        lemma_sections_without_secrets(s[i].1, 0);
        lemma_settings_without_secrets(s, i + 1);
    }
    assert forall|k: int| 0 <= k < s.len() implies sections_resolved(
        (#[trigger] s[k]).1,
        Map::empty(),
    ) == s[k].1 by {
        lemma_sections_without_secrets(s[k].1, 0);
    }
    assert(settings_resolved(s, Map::empty()) =~= s);
}

proof fn lemma_texts_without_secrets(t: Seq<Seq<char>>, i: int)
    requires
        0 <= i <= t.len(),
    ensures
        texts_missing(t, i, Map::empty()) is None,
        texts_resolved(t, Map::empty()) == t,
    decreases t.len() - i,
{
    if i < t.len() {
        lemma_texts_without_secrets(t, i + 1);
    }
    assert(texts_resolved(t, Map::empty()) =~= t);
}

proof fn lemma_no_secrets(d: Declared)
    ensures
        root_missing(d, Map::empty()) is None,
        root_resolved(d, Map::empty()) == d,
{
    lemma_settings_without_secrets(d.settings, 0);
    lemma_texts_without_secrets(feeds_of(d), 0);
}

/// Without secrets a configuration resolves to itself, whatever stands in it.
pub proof fn no_secrets_change_nothing(d: Declared)
    ensures
        root_missing(d, Map::empty()) is None,
        root_resolved(d, Map::empty()) == d,
{
    lemma_no_secrets(d);
}

/// A text without `@` resolves to itself, whatever secrets there are.
pub proof fn plain_texts_stay(s: Seq<char>, m: Secrets)
    requires
        !s.contains('@'),
    ensures
        interpolated(s, m) == Ok::<Seq<char>, Seq<char>>(s),
{
    lemma_find(s, '@');
}

proof fn lemma_first_placeholder(a: Seq<char>, name: Seq<char>, b: Seq<char>)
    requires
        !a.contains('@'),
        !name.contains('@'),
    ensures
        ({
            let s = a + "@"@ + name + "@"@ + b;
            let rest = s.skip(a.len() as int + 1);
            &&& find(s, '@') == a.len()
            &&& find(rest, '@') == name.len()
            &&& s.take(a.len() as int) == a
            &&& rest.take(name.len() as int) == name
            &&& rest.skip(name.len() as int + 1) == b
            &&& a.len() < s.len()
            &&& name.len() < rest.len()
        }),
{
    reveal_strlit("@");
    let s = a + "@"@ + name + "@"@ + b;
    let rest = s.skip(a.len() as int + 1);
    assert forall|j: int| 0 <= j < a.len() implies s[j] != '@' by {
        assert(a[j] != '@');
    }
    lemma_find_is(s, '@', a.len() as int);
    assert forall|j: int| 0 <= j < name.len() implies rest[j] != '@' by {
        assert(name[j] != '@');
    }
    lemma_find_is(rest, '@', name.len() as int);
    assert(s.take(a.len() as int) =~= a);
    assert(rest.take(name.len() as int) =~= name);
    assert(rest.skip(name.len() as int + 1) =~= b);
}

/// A placeholder gives way to its secret, and what stands behind it is resolved in turn: nothing
/// of the secret is taken for a placeholder.
pub proof fn placeholders_are_replaced(a: Seq<char>, name: Seq<char>, b: Seq<char>, m: Secrets)
    requires
        !a.contains('@'),
        !name.contains('@'),
        m.dom().contains(name),
    ensures
        interpolated(a + "@"@ + name + "@"@ + b, m) == behind(a + m[name], expand(b, m)),
{
    lemma_first_placeholder(a, name, b);
    assert(!Map::<Seq<char>, Seq<char>>::empty().dom().contains(name));
}

/// A placeholder without a secret is an error, never a blank.
pub proof fn missing_placeholders_are_errors(a: Seq<char>, name: Seq<char>, b: Seq<char>, m: Secrets)
    requires
        !a.contains('@'),
        secret_name(name),
        !m.dom().contains(name),
        m != Map::<Seq<char>, Seq<char>>::empty(),
    ensures
        interpolated(a + "@"@ + name + "@"@ + b, m) == Err::<Seq<char>, Seq<char>>(name),
{
    assert(!name.contains('@')) by {
        if name.contains('@') {
            let k = choose|k: int| 0 <= k < name.len() && name[k] == '@';
            assert(ascii_alphanumeric(name[k]) || name[k] == '_');
        }
    }
    lemma_first_placeholder(a, name, b);
}

/// Secrets reach texts only, alone or within lists: any other value stays as it is.
pub proof fn secrets_reach_texts_only(v: Json, m: Secrets)
    requires
        value_missing(v, m) is None,
    ensures
        match v {
            Json::Text(s) => interpolated(s, m) matches Ok(t) && value_resolved(v, m) == Json::Text(t),
            Json::Array(items) => value_resolved(v, m) matches Json::Array(r) && r.len()
                == items.len() && forall|i: int|
                0 <= i < items.len() ==> #[trigger] r[i] == value_resolved(items[i], m)
                    && value_missing(items[i], m) is None,
            _ => value_resolved(v, m) == v,
        },
{
    if let Json::Array(items) = v {
        lemma_items_missing(items, 0, m);
    }
}

/// Secrets reach option values only: the sections of a file keep their order, their names and
/// their types, and their options keep theirs.
pub proof fn secrets_keep_structure(s: Sections, m: Secrets, i: int)
    requires
        0 <= i < s.len(),
    ensures
        sections_resolved(s, m).len() == s.len(),
        sections_resolved(s, m)[i].0 == s[i].0,
        match (s[i].1, sections_resolved(s, m)[i].1) {
            (Shape::Named(b), Shape::Named(c)) => c.ty == b.ty && resolved_in_place(
                b.options,
                c.options,
                m,
            ),
            (Shape::List(b), Shape::List(c)) => c.len() == b.len() && forall|k: int|
                0 <= k < b.len() ==> (#[trigger] c[k]).ty == b[k].ty && resolved_in_place(
                    b[k].options,
                    c[k].options,
                    m,
                ),
            _ => false,
        },
{
}

/// Whether options kept their names and their order, and each has its value with its secrets.
pub open spec fn resolved_in_place(a: Options, b: Options, m: Secrets) -> bool {
    a.len() == b.len() && forall|i: int|
        0 <= i < a.len() ==> (#[trigger] b[i]).0 == a[i].0 && b[i].1 == value_resolved(a[i].1, m)
}

/// Of a configuration, secrets reach the settings and the feeds: everything else that is declared
/// stays as it is, and so do the names of the configuration files.
pub proof fn secrets_leave_the_rest(d: Declared, m: Secrets)
    ensures
        ({
            let r = root_resolved(d, m);
            &&& r.package_manager == d.package_manager
            &&& r.packages == d.packages
            &&& r.ssh_keys == d.ssh_keys
            &&& r.sops_files == d.sops_files
            &&& r.raw_uci == d.raw_uci
            &&& r.files == d.files
            &&& match (d.package_sources, r.package_sources) {
                (Some(a), Some(b)) => {
                    &&& b.local_packages == a.local_packages
                    &&& a.feeds is Some <==> b.feeds is Some
                },
                (None, None) => true,
                _ => false,
            }
            &&& feeds_of(r) == texts_resolved(feeds_of(d), m)
            &&& r.settings.len() == d.settings.len()
            &&& forall|c: int|
                0 <= c < d.settings.len() ==> (#[trigger] r.settings[c]).0 == d.settings[c].0
                    && r.settings[c].1 == sections_resolved(d.settings[c].1, m)
        }),
{
    assert(texts_resolved(Seq::empty(), m) =~= Seq::empty());
}

// ---- which configurations are refused ----

/// Whether a text asks for a secret that there is not.
pub open spec fn text_fails(s: Seq<char>, m: Secrets) -> bool {
    interpolated(s, m) is Err
}

/// Whether a text of a value, at any depth of its lists, asks for a secret that there is not.
pub open spec fn value_fails(v: Json, m: Secrets) -> bool
    decreases v,
{
    match v {
        Json::Text(s) => text_fails(s, m),
        Json::Array(items) => exists|i: int|
            0 <= i < items.len() && value_fails(#[trigger] items[i], m),
        _ => false,
    }
}

/// Whether an option of a declaration asks for a secret that there is not.
pub open spec fn asks_in_vain(s: Shape, m: Secrets) -> bool {
    match s {
        Shape::Named(b) => options_fail(b.options, m),
        Shape::List(b) => exists|k: int|
            0 <= k < b.len() && options_fail((#[trigger] b[k]).options, m),
    }
}

pub open spec fn options_fail(o: Options, m: Secrets) -> bool {
    exists|k: int| 0 <= k < o.len() && value_fails((#[trigger] o[k]).1, m)
}

/// Whether a section of a configuration file asks for a secret that there is not.
pub open spec fn sections_fail(s: Sections, m: Secrets) -> bool {
    exists|i: int| 0 <= i < s.len() && asks_in_vain((#[trigger] s[i]).1, m)
}

proof fn lemma_items_missing(items: Seq<Json>, i: nat, m: Secrets)
    ensures
        items_missing(items, i, m) is Some <==> exists|k: int|
            i <= k < items.len() && value_missing(#[trigger] items[k], m) is Some,
    decreases items.len() - i,
{
    if i < items.len() {
        lemma_items_missing(items, i + 1, m);
    }
}

proof fn lemma_value_missing(v: Json, m: Secrets)
    ensures
        value_missing(v, m) is Some <==> value_fails(v, m),
    decreases v,
{
    if let Json::Array(items) = v {
        lemma_items_missing(items, 0, m);
        assert forall|k: int| 0 <= k < items.len() implies (value_missing(
            #[trigger] items[k],
            m,
        ) is Some <==> value_fails(items[k], m)) by {
            lemma_value_missing(items[k], m);
        }
    }
}

proof fn lemma_options_missing(o: Options, i: int, m: Secrets)
    requires
        0 <= i <= o.len(),
    ensures
        options_missing(o, i, m) is Some <==> exists|k: int|
            i <= k < o.len() && value_fails((#[trigger] o[k]).1, m),
    decreases o.len() - i,
{
    if i < o.len() {
        lemma_value_missing(o[i].1, m);
        lemma_options_missing(o, i + 1, m);
    }
}

proof fn lemma_bodies_missing(b: Seq<Body>, i: int, m: Secrets)
    requires
        0 <= i <= b.len(),
    ensures
        bodies_missing(b, i, m) is Some <==> exists|k: int|
            i <= k < b.len() && options_fail((#[trigger] b[k]).options, m),
    decreases b.len() - i,
{
    if i < b.len() {
        lemma_options_missing(b[i].options, 0, m);
        lemma_bodies_missing(b, i + 1, m);
    }
}

proof fn lemma_sections_missing(s: Sections, i: int, m: Secrets)
    requires
        0 <= i <= s.len(),
    ensures
        sections_missing(s, i, m) is Some <==> exists|k: int|
            i <= k < s.len() && asks_in_vain((#[trigger] s[k]).1, m),
    decreases s.len() - i,
{
    if i < s.len() {
        match s[i].1 {
            Shape::Named(b) => {
                lemma_options_missing(b.options, 0, m);
            },
            Shape::List(b) => {
                lemma_bodies_missing(b, 0, m);
            },
        }
        lemma_sections_missing(s, i + 1, m);
    }
}

proof fn lemma_settings_missing(s: Settings, i: int, m: Secrets)
    requires
        0 <= i <= s.len(),
    ensures
        settings_missing(s, i, m) is Some <==> exists|c: int|
            i <= c < s.len() && sections_fail((#[trigger] s[c]).1, m),
    decreases s.len() - i,
{
    if i < s.len() {
        lemma_sections_missing(s[i].1, 0, m);
        lemma_settings_missing(s, i + 1, m);
    }
}

proof fn lemma_texts_missing(t: Seq<Seq<char>>, i: int, m: Secrets)
    requires
        0 <= i <= t.len(),
    ensures
        texts_missing(t, i, m) is Some <==> exists|k: int|
            i <= k < t.len() && text_fails(#[trigger] t[k], m),
    decreases t.len() - i,
{
    if i < t.len() {
        lemma_texts_missing(t, i + 1, m);
    }
}

/// A configuration is refused if and only if something in it asks for a secret that there is not:
/// an option of some section, or a feed.
pub proof fn missing_secrets_refuse_the_configuration(d: Declared, m: Secrets)
    ensures
        root_missing(d, m) is Some <==> {
            ||| exists|c: int|
                0 <= c < d.settings.len() && sections_fail((#[trigger] d.settings[c]).1, m)
            ||| exists|k: int| 0 <= k < feeds_of(d).len() && text_fails(#[trigger] feeds_of(d)[k], m)
        },
{
    lemma_settings_missing(d.settings, 0, m);
    lemma_texts_missing(feeds_of(d), 0, m);
}

} // verus!
