//! A target that was deployed to shows what it was given, and is recognised as up to date.

use crate::compile::convergence::{
    aligned, assigned_texts, declared, deploy, deploying_rebuilds, entries_aligned, held, held_list,
    held_options, setting_of, type_count, unset, untouched, well_keyed, Held, Setting, Store,
};
use crate::compile::packages::quoted_all;
use crate::compile::plan::{assigned, entry_type, value_fault};
use crate::config::models::{Body, Json, Options, Sections, Settings, Shape};
use crate::config::uci_key::{
    anonymous_keys_name_no_section, anonymous_option, anonymous_section, named_option,
    named_section, option_keys_name_no_section,
};
use crate::config::validation::{
    config_fault, lemma_sections_named, lemma_settings_named, options_named, settings_fault,
    shape_named, valid_identifier, valid_type,
};
use crate::target::deploy::up_to_date;
use crate::target::diff::{
    flat_config, flat_list, flat_options, flat_section, flat_settings, setting_line, settings_shown,
    Flat, SERVICE_SEPARATOR,
};
use crate::target::script::{declared_sections_are_no_orphans, orphan, orphan_lines, orphan_script};
use crate::target::values::{
    deployed_values_compare_equal, desired_form, lemma_list_all, lemma_shown_quote, shown,
    shown_form,
};
use crate::utils::helpers::{escaped, escaped_char, quoted};
use crate::utils::order::{in_order, in_order_holds};
use crate::utils::split::{decimal, digit, lines, parts};
use crate::utils::text::{after, ascii_alphanumeric, before, lemma_find_is, trim, white_space};
use vstd::prelude::*;

verus! {

// ---- what a target shows ----

/// The values that an option holds.
pub open spec fn held_values(v: Setting) -> Seq<Seq<char>> {
    match v {
        Setting::One(t) => seq![t],
        Setting::Many(t) => t,
    }
}

/// The key under which section `i` of a configuration file is shown.
pub open spec fn shown_key(config: Seq<char>, s: Store, i: int) -> Seq<char> {
    match s[i].name {
        Some(name) => named_section(config, name),
        None => anonymous_section(config, s[i].ty, type_count(s.take(i), s[i].ty)),
    }
}

/// The lines for the first `n` options of the section at `key`.
pub open spec fn option_lines(key: Seq<char>, o: Seq<(Seq<char>, Setting)>, n: nat) -> Seq<
    Seq<char>,
>
    decreases n,
{
    if n == 0 || n > o.len() {
        Seq::empty()
    } else {
        option_lines(key, o, (n - 1) as nat).push(
            key + "."@ + o[n - 1].0 + "="@ + shown(held_values(o[n - 1].1)),
        )
    }
}

/// The lines for a section.
pub open spec fn section_lines(key: Seq<char>, h: Held) -> Seq<Seq<char>> {
    seq![key + "="@ + h.ty] + option_lines(key, h.options, h.options.len())
}

/// The lines for the first `n` sections of a configuration file.
pub open spec fn store_lines(config: Seq<char>, s: Store, n: nat) -> Seq<Seq<char>>
    decreases n,
{
    if n == 0 || n > s.len() {
        Seq::empty()
    } else {
        store_lines(config, s, (n - 1) as nat) + section_lines(
            shown_key(config, s, n - 1),
            s[n - 1],
        )
    }
}

/// What `uci show` prints, line by line, for the first `n` configuration files of a target that
/// was deployed to.
pub open spec fn target_lines(s: Settings, prior: Seq<Store>, n: nat) -> Seq<Seq<char>>
    decreases n,
{
    if n == 0 || n > s.len() {
        Seq::empty()
    } else {
        let store = deploy(prior[n - 1], s[n - 1].1);
        target_lines(s, prior, (n - 1) as nat) + store_lines(s[n - 1].0, store, store.len())
    }
}

/// Lines as one text.
pub open spec fn unlines(l: Seq<Seq<char>>) -> Seq<char>
    decreases l.len(),
{
    if l.len() == 0 {
        Seq::empty()
    } else {
        l[0] + "\n"@ + unlines(l.skip(1))
    }
}

// ---- which settings are recognised ----

/// Whether a value can be written, and is shown, on one line. The empty text is no value of an
/// option, so it is never shown.
pub open spec fn value_showable(v: Json) -> bool {
    &&& value_fault(v) is None
    &&& unset(v) ==> v is Array
    &&& forall|i: int|
        0 <= i < assigned_texts(v).len() ==> !(#[trigger] assigned_texts(v)[i]).contains('\n')
}

pub open spec fn options_showable(o: Options) -> bool {
    forall|i: int| 0 <= i < o.len() ==> value_showable((#[trigger] o[i]).1)
}

pub open spec fn shape_showable(s: Shape) -> bool {
    match s {
        Shape::Named(b) => options_showable(b.options),
        Shape::List(b) => forall|i: int|
            0 <= i < b.len() ==> options_showable((#[trigger] b[i]).options),
    }
}

pub open spec fn sections_showable(d: Sections) -> bool {
    forall|i: int| 0 <= i < d.len() ==> shape_showable((#[trigger] d[i]).1)
}

/// Whether every entry of a list is shown under its position in the list: as many sections of its
/// type are declared before it.
pub open spec fn entries_numbered(earlier: Store, b: Seq<Body>, list: Seq<char>) -> bool {
    forall|i: int|
        0 <= i < b.len() ==> type_count(
            earlier + #[trigger] held_list(b, list, i as nat),
            entry_type(b[i], list),
        ) == i
}

pub open spec fn numbered(d: Sections) -> bool {
    forall|k: int|
        0 <= k < d.len() ==> match (#[trigger] d[k]).1 {
            Shape::List(b) => entries_numbered(declared(d, k as nat), b, d[k].0),
            Shape::Named(_) => true,
        }
}

/// Whether a deployed configuration file is recognised.
pub open spec fn recognisable(d: Sections) -> bool {
    well_keyed(d) && numbered(d) && sections_showable(d)
}

// ---- proofs: lines ----

/// Whether a text can be a line.
spec fn line_like(s: Seq<char>) -> bool {
    !s.contains('\n') && (s.len() == 0 || s.last() != '\r')
}

spec fn all_line_like(l: Seq<Seq<char>>) -> bool {
    forall|i: int| 0 <= i < l.len() ==> line_like(#[trigger] l[i])
}

proof fn lemma_lines_unlines(l: Seq<Seq<char>>)
    requires
        all_line_like(l),
    ensures
        lines(unlines(l)) == l,
    decreases l.len(),
{
    reveal_strlit("\n");
    if l.len() == 0 {
        assert(lines(unlines(l)) =~= l);
    } else {
        let s = unlines(l);
        let rest = unlines(l.skip(1));
        assert(line_like(l[0]));
        assert forall|i: int| 0 <= i < l.skip(1).len() implies line_like(#[trigger] l.skip(1)[i]) by {
            assert(line_like(l[i + 1]));
        }
        lemma_lines_unlines(l.skip(1));
        assert forall|j: int| 0 <= j < l[0].len() implies s[j] != '\n' by {
            assert(s[j] == l[0][j]);
        }
        lemma_find_is(s, '\n', l[0].len() as int);
        assert(s.take(l[0].len() as int) =~= l[0]);
        assert(s.skip(l[0].len() as int + 1) =~= rest);
        assert(seq![l[0]] + l.skip(1) =~= l);
    }
}

/// What lines tell, on top of what is known.
spec fn shown_onto(m: Flat, l: Seq<Seq<char>>, n: nat) -> Flat
    decreases n,
{
    if n == 0 || n > l.len() {
        m
    } else {
        let rest = shown_onto(m, l, (n - 1) as nat);
        match setting_line(l[n - 1]) {
            Some((k, v)) => rest.insert(k, v),
            None => rest,
        }
    }
}

proof fn lemma_shown_onto_empty(l: Seq<Seq<char>>, n: nat)
    requires
        n <= l.len(),
    ensures
        settings_shown(l, n) == shown_onto(Map::empty(), l, n),
    decreases n,
{
    if n > 0 {
        lemma_shown_onto_empty(l, (n - 1) as nat);
    }
}

proof fn lemma_shown_onto_prefix(m: Flat, a: Seq<Seq<char>>, b: Seq<Seq<char>>, n: nat)
    requires
        n <= a.len(),
    ensures
        shown_onto(m, a + b, n) == shown_onto(m, a, n),
    decreases n,
{
    if n > 0 {
        lemma_shown_onto_prefix(m, a, b, (n - 1) as nat);
    }
}

proof fn lemma_shown_onto_add(m: Flat, a: Seq<Seq<char>>, b: Seq<Seq<char>>, n: nat)
    requires
        n <= b.len(),
    ensures
        shown_onto(m, a + b, a.len() + n) == shown_onto(shown_onto(m, a, a.len()), b, n),
    decreases n,
{
    if n > 0 {
        lemma_shown_onto_add(m, a, b, (n - 1) as nat);
        assert((a + b)[a.len() + n - 1] == b[n - 1]);
    } else {
        lemma_shown_onto_prefix(m, a, b, a.len());
    }
}

proof fn lemma_line_like_add(a: Seq<Seq<char>>, b: Seq<Seq<char>>)
    requires
        all_line_like(a),
        all_line_like(b),
    ensures
        all_line_like(a + b),
{
    let ab = a + b;
    assert forall|i: int| 0 <= i < ab.len() implies line_like(#[trigger] ab[i]) by {
        if i < a.len() {
            assert(ab[i] == a[i]);
        } else {
            assert(ab[i] == b[i - a.len()]);
        }
    }
}

// ---- proofs: keys ----

/// The characters that keys are made of.
spec fn key_char(c: char) -> bool {
    ascii_alphanumeric(c) || c == '_' || c == '-' || c == '.' || c == '@' || c == '[' || c == ']'
}

spec fn key_like(s: Seq<char>) -> bool {
    s.len() > 0 && forall|i: int| 0 <= i < s.len() ==> key_char(#[trigger] s[i])
}

proof fn lemma_key_add(a: Seq<char>, b: Seq<char>)
    requires
        key_like(a),
        key_like(b),
    ensures
        key_like(a + b),
{
    let ab = a + b;
    assert forall|i: int| 0 <= i < ab.len() implies key_char(#[trigger] ab[i]) by {
        if i < a.len() {
            assert(ab[i] == a[i]);
        } else {
            assert(ab[i] == b[i - a.len()]);
        }
    }
}

proof fn lemma_key_decimal(n: nat)
    ensures
        key_like(decimal(n)),
    decreases n,
{
    if n >= 10 {
        lemma_key_decimal(n / 10);
        let d = decimal(n / 10);
        let c = digit((n % 10) as int);
        assert forall|i: int| 0 <= i < d.push(c).len() implies key_char(#[trigger] d.push(c)[i]) by {
            if i < d.len() {
                assert(key_char(d[i]));
            }
        }
    }
}

proof fn lemma_key_identifier(s: Seq<char>)
    requires
        valid_identifier(s) || valid_type(s),
    ensures
        key_like(s),
{
    assert forall|i: int| 0 <= i < s.len() implies key_char(#[trigger] s[i]) by {
        assert(ascii_alphanumeric(s[i]) || s[i] == '_' || s[i] == '-');
    }
}

proof fn lemma_key_named(config: Seq<char>, name: Seq<char>)
    requires
        key_like(config),
        key_like(name),
    ensures
        key_like(named_section(config, name)),
{
    reveal_strlit(".");
    lemma_key_add(config, "."@);
    lemma_key_add(config + "."@, name);
}

proof fn lemma_key_anonymous(config: Seq<char>, ty: Seq<char>, idx: nat)
    requires
        key_like(config),
        key_like(ty),
    ensures
        key_like(anonymous_section(config, ty, idx)),
{
    reveal_strlit(".@");
    reveal_strlit("[");
    reveal_strlit("]");
    lemma_key_decimal(idx);
    lemma_key_add(config, ".@"@);
    lemma_key_add(config + ".@"@, ty);
    lemma_key_add(config + ".@"@ + ty, "["@);
    lemma_key_add(config + ".@"@ + ty + "["@, decimal(idx));
    lemma_key_add(config + ".@"@ + ty + "["@ + decimal(idx), "]"@);
}

proof fn lemma_trim_solid(s: Seq<char>)
    requires
        s.len() > 0,
        !white_space(s[0]),
        !white_space(s.last()),
    ensures
        trim(s) == s,
{
}

/// A line with a key, an equals sign and a value tells that key and that value.
proof fn lemma_setting_line(key: Seq<char>, value: Seq<char>)
    requires
        key_like(key),
        value.len() > 0,
        !white_space(value.last()),
    ensures
        setting_line(key + "="@ + value) == Some((key, shown_form(value))),
{
    reveal_strlit("=");
    let line = key + "="@ + value;
    assert(key_char(key[0]));
    assert(key_char(key.last()));
    assert(line[0] == key[0]);
    assert(line.last() == value.last());
    lemma_trim_solid(line);
    lemma_trim_solid(key);
    assert forall|j: int| 0 <= j < key.len() implies line[j] != '=' by {
        assert(line[j] == key[j]);
        assert(key_char(key[j]));
    }
    assert(line[key.len() as int] == '=');
    lemma_find_is(line, '=', key.len() as int);
    assert(line.contains('='));
    assert(before(line, '=') =~= key);
    assert(after(line, '=') =~= value);
}

proof fn lemma_key_line_like(key: Seq<char>, value: Seq<char>)
    requires
        key_like(key),
        value.len() > 0,
        !white_space(value.last()),
        !value.contains('\n'),
    ensures
        line_like(key + "="@ + value),
{
    reveal_strlit("=");
    let line = key + "="@ + value;
    assert(line.last() == value.last());
    if line.contains('\n') {
        let k = choose|k: int| 0 <= k < line.len() && line[k] == '\n';
        if k < key.len() {
            assert(key_char(key[k]));
        } else if k > key.len() {
            assert(value[k - key.len() - 1] == '\n');
        }
    }
}

/// A type is shown without quotes, and compares as itself.
proof fn lemma_type_form(ty: Seq<char>)
    requires
        key_like(ty),
    ensures
        shown_form(ty) == ty,
        !white_space(ty.last()),
        !ty.contains('\n'),
{
    assert(key_char(ty[0]));
    assert(key_char(ty.last()));
    lemma_trim_solid(ty);
    if ty.contains('\n') {
        let k = choose|k: int| 0 <= k < ty.len() && ty[k] == '\n';
        assert(key_char(ty[k]));
    }
}

// ---- proofs: values ----

proof fn lemma_escaped_no_newline(t: Seq<char>)
    requires
        !t.contains('\n'),
    ensures
        !escaped(t).contains('\n'),
    decreases t.len(),
{
    reveal_strlit("'\\''");
    if t.len() > 0 {
        assert(t[0] != '\n');
        assert forall|j: int| 0 <= j < t.skip(1).len() implies t.skip(1)[j] != '\n' by {
            assert(t[j + 1] != '\n');
        }
        lemma_escaped_no_newline(t.skip(1));
        let a = escaped_char(t[0]);
        let b = escaped(t.skip(1));
        lemma_no_newline_add(a, b);
    }
}

proof fn lemma_no_newline_add(a: Seq<char>, b: Seq<char>)
    requires
        !a.contains('\n'),
        !b.contains('\n'),
    ensures
        !(a + b).contains('\n'),
{
    if (a + b).contains('\n') {
        let k = choose|k: int| 0 <= k < (a + b).len() && (a + b)[k] == '\n';
        if k < a.len() {
            assert(a[k] == '\n');
        } else {
            assert(b[k - a.len()] == '\n');
        }
    }
}

proof fn lemma_shown_no_newline(items: Seq<Seq<char>>)
    requires
        forall|i: int| 0 <= i < items.len() ==> !(#[trigger] items[i]).contains('\n'),
    ensures
        !shown(items).contains('\n'),
    decreases items.len(),
{
    reveal_strlit("'");
    reveal_strlit(" ");
    let q = quoted_all(items);
    if items.len() > 0 {
        let t = items.last();
        assert(!t.contains('\n'));
        lemma_escaped_no_newline(t);
        lemma_no_newline_add("'"@, escaped(t));
        lemma_no_newline_add("'"@ + escaped(t), "'"@);
        assert(q.last() == quoted(t));
        if items.len() == 1 {
            assert(q[0] == quoted(t));
        } else {
            assert(q.drop_last() =~= quoted_all(items.drop_last()));
            assert forall|i: int| 0 <= i < items.drop_last().len() implies !(
            #[trigger] items.drop_last()[i]).contains('\n') by {
                assert(items.drop_last()[i] == items[i]);
            }
            lemma_shown_no_newline(items.drop_last());
            lemma_no_newline_add(shown(items.drop_last()), " "@);
            lemma_no_newline_add(shown(items.drop_last()) + " "@, quoted(t));
        }
    }
}

/// The line of an option that was deployed tells what is desired of it.
proof fn lemma_option_line(key: Seq<char>, opt: Seq<char>, v: Json)
    requires
        key_like(key),
        valid_identifier(opt),
        value_showable(v),
        assigned(v).len() > 0,
    ensures
        ({
            let line = key + "."@ + opt + "="@ + shown(held_values(setting_of(v)));
            &&& line_like(line)
            &&& desired_form(v) matches Some(t) && setting_line(line) == Some((key + "."@ + opt, t))
        }),
{
    let items = assigned_texts(v);
    assert(held_values(setting_of(v)) =~= items);
    lemma_key_identifier(opt);
    lemma_key_named(key, opt);
    lemma_shown_quote(items);
    lemma_shown_no_newline(items);
    deployed_values_compare_equal(v);
    lemma_setting_line(key + "."@ + opt, shown(items));
    lemma_key_line_like(key + "."@ + opt, shown(items));
}

proof fn lemma_no_value(v: Json)
    requires
        value_showable(v),
        assigned(v).len() == 0,
    ensures
        desired_form(v) is None,
{
    if let Json::Array(items) = v {
        lemma_list_all(items);
        assert(items.len() == 0);
    }
}

// ---- proofs: sections ----

proof fn lemma_options_shown(m: Flat, key: Seq<char>, o: Options, n: nat)
    requires
        n <= o.len(),
        key_like(key),
        options_named(o),
        options_showable(o),
    ensures
        ({
            let h = held_options(o, n);
            let l = option_lines(key, h, h.len());
            &&& all_line_like(l)
            &&& shown_onto(m, l, l.len()) == flat_options(m, key, o, n)
        }),
    decreases n,
{
    if n > 0 {
        lemma_options_shown(m, key, o, (n - 1) as nat);
        let h0 = held_options(o, (n - 1) as nat);
        let h = held_options(o, n);
        let (opt, v) = o[n - 1];
        assert(value_showable(o[n - 1].1));
        assert(valid_identifier(o[n - 1].0));
        if assigned(v).len() == 0 {
            lemma_no_value(v);
        } else {
            let l0 = option_lines(key, h0, h0.len());
            let l = option_lines(key, h, h.len());
            let line = key + "."@ + opt + "="@ + shown(held_values(setting_of(v)));
            lemma_option_lines_prefix(key, h0, (opt, setting_of(v)), h0.len());
            assert(l =~= l0.push(line));
            lemma_option_line(key, opt, v);
            assert(l =~= l0 + seq![line]);
            lemma_shown_onto_add(m, l0, seq![line], 1);
            reveal_with_fuel(shown_onto, 2);
            assert forall|i: int| 0 <= i < l.len() implies line_like(#[trigger] l[i]) by {
                if i < l0.len() {
                    assert(l[i] == l0[i]);
                }
            }
        }
    }
}

proof fn lemma_option_lines_prefix(
    key: Seq<char>,
    o: Seq<(Seq<char>, Setting)>,
    x: (Seq<char>, Setting),
    n: nat,
)
    requires
        n <= o.len(),
    ensures
        option_lines(key, o.push(x), n) == option_lines(key, o, n),
    decreases n,
{
    if n > 0 {
        lemma_option_lines_prefix(key, o, x, (n - 1) as nat);
    }
}

proof fn lemma_section_shown(
    m: Flat,
    key: Seq<char>,
    name: Option<Seq<char>>,
    ty: Seq<char>,
    o: Options,
)
    requires
        key_like(key),
        key_like(ty),
        options_named(o),
        options_showable(o),
    ensures
        ({
            let l = section_lines(key, held(name, ty, o));
            &&& all_line_like(l)
            &&& shown_onto(m, l, l.len()) == flat_section(m, key, ty, o)
        }),
{
    let line = key + "="@ + ty;
    let h = held_options(o, o.len());
    let rest = option_lines(key, h, h.len());
    lemma_type_form(ty);
    lemma_setting_line(key, ty);
    lemma_key_line_like(key, ty);
    lemma_options_shown(m.insert(key, ty), key, o, o.len());
    lemma_shown_onto_add(m, seq![line], rest, rest.len());
    reveal_with_fuel(shown_onto, 2);
    assert(shown_onto(m, seq![line], 1) == m.insert(key, ty));
    lemma_line_like_add(seq![line], rest);
}

/// The lines of the sections before `n` do not depend on those behind.
proof fn lemma_store_lines_prefix(config: Seq<char>, a: Store, b: Store, n: nat)
    requires
        n <= a.len(),
    ensures
        store_lines(config, a + b, n) == store_lines(config, a, n),
    decreases n,
{
    if n > 0 {
        lemma_store_lines_prefix(config, a, b, (n - 1) as nat);
        assert((a + b)[n - 1] == a[n - 1]);
        assert((a + b).take(n - 1) =~= a.take(n - 1));
    }
}

/// One more section adds its lines.
proof fn lemma_store_lines_push(config: Seq<char>, a: Store, h: Held)
    ensures
        store_lines(config, a.push(h), a.len() + 1) == store_lines(config, a, a.len())
            + section_lines(shown_key(config, a.push(h), a.len() as int), h),
{
    lemma_store_lines_prefix(config, a, seq![h], a.len());
    assert(a + seq![h] =~= a.push(h));
}

proof fn lemma_entries_shown(
    m: Flat,
    config: Seq<char>,
    base: Store,
    list: Seq<char>,
    b: Seq<Body>,
    n: nat,
)
    requires
        n <= b.len(),
        key_like(config),
        shape_named((list, Shape::List(b))),
        shape_showable(Shape::List(b)),
        entries_numbered(base, b, list),
        all_line_like(store_lines(config, base, base.len())),
    ensures
        ({
            let s = base + held_list(b, list, n);
            let l = store_lines(config, s, s.len());
            let l0 = store_lines(config, base, base.len());
            &&& all_line_like(l)
            &&& shown_onto(m, l, l.len()) == flat_list(
                shown_onto(m, l0, l0.len()),
                config,
                list,
                b,
                n,
            )
        }),
    decreases n,
{
    let l0 = store_lines(config, base, base.len());
    if n == 0 {
        assert(base + held_list(b, list, 0) =~= base);
    } else {
        let i = (n - 1) as nat;
        lemma_entries_shown(m, config, base, list, b, i);
        let s0 = base + held_list(b, list, i);
        let body = b[i as int];
        let ty = entry_type(body, list);
        let h = held(None, ty, body.options);
        let s = base + held_list(b, list, n);
        assert(s =~= s0.push(h));
        lemma_store_lines_push(config, s0, h);
        assert(s0.push(h).take(s0.len() as int) =~= s0);
        assert(type_count(base + held_list(b, list, i), entry_type(b[i as int], list)) == i);
        let key = anonymous_section(config, ty, i);
        assert(shown_key(config, s0.push(h), s0.len() as int) == key);
        assert(valid_type(b[i as int].ty) && options_named(b[i as int].options));
        assert(options_showable(b[i as int].options));
        lemma_key_identifier(ty);
        lemma_key_anonymous(config, ty, i);
        let a = store_lines(config, s0, s0.len());
        let c = section_lines(key, h);
        let m1 = shown_onto(m, a, a.len());
        lemma_section_shown(m1, key, None, ty, body.options);
        lemma_shown_onto_add(m, a, c, c.len());
        lemma_line_like_add(a, c);
    }
}

proof fn lemma_config_shown(m: Flat, config: Seq<char>, d: Sections, n: nat)
    requires
        n <= d.len(),
        key_like(config),
        forall|k: int| 0 <= k < d.len() ==> shape_named(#[trigger] d[k]),
        sections_showable(d),
        numbered(d),
    ensures
        ({
            let s = declared(d, n);
            let l = store_lines(config, s, s.len());
            &&& all_line_like(l)
            &&& shown_onto(m, l, l.len()) == flat_config(m, config, d, n)
        }),
    decreases n,
{
    if n > 0 {
        let i = (n - 1) as nat;
        lemma_config_shown(m, config, d, i);
        let base = declared(d, i);
        let l0 = store_lines(config, base, base.len());
        assert(shape_named(d[i as int]));
        assert(shape_showable(d[i as int].1));
        match d[i as int].1 {
            Shape::Named(b) => {
                let name = d[i as int].0;
                let h = held(Some(name), b.ty, b.options);
                assert(declared(d, n) =~= base.push(h));
                lemma_store_lines_push(config, base, h);
                let key = named_section(config, name);
                lemma_key_identifier(name);
                lemma_key_identifier(b.ty);
                lemma_key_named(config, name);
                let c = section_lines(key, h);
                let m1 = shown_onto(m, l0, l0.len());
                lemma_section_shown(m1, key, Some(name), b.ty, b.options);
                lemma_shown_onto_add(m, l0, c, c.len());
                lemma_line_like_add(l0, c);
            },
            Shape::List(b) => {
                assert(entries_numbered(declared(d, i), b, d[i as int].0));
                lemma_entries_shown(m, config, base, d[i as int].0, b, b.len());
            },
        }
    }
}

proof fn lemma_numbered_aligned(d: Sections)
    requires
        numbered(d),
    ensures
        aligned(d),
{
    assert forall|k: int| 0 <= k < d.len() implies match (#[trigger] d[k]).1 {
        Shape::List(b) => entries_aligned(declared(d, k as nat), b, d[k].0),
        Shape::Named(_) => true,
    } by {
        if let Shape::List(b) = d[k].1 {
            assert(entries_numbered(declared(d, k as nat), b, d[k].0));
        }
    }
}

/// Whether every configuration file is recognised, and the target had nothing in it besides.
pub open spec fn recognised(s: Settings, prior: Seq<Store>) -> bool {
    prior.len() == s.len() && forall|c: int|
        0 <= c < s.len() ==> recognisable((#[trigger] s[c]).1) && untouched(prior[c], s[c].1).len()
            == 0
}

proof fn lemma_target_shown(s: Settings, prior: Seq<Store>, n: nat)
    requires
        n <= s.len(),
        settings_fault(s, 0) is None,
        recognised(s, prior),
    ensures
        all_line_like(target_lines(s, prior, n)),
        settings_shown(target_lines(s, prior, n), target_lines(s, prior, n).len())
            == flat_settings(s, n),
    decreases n,
{
    if n > 0 {
        let c = n - 1;
        lemma_target_shown(s, prior, c as nat);
        lemma_settings_named(s, 0);
        assert(config_fault(s[c]) is None);
        let config = s[c].0;
        let d = s[c].1;
        lemma_sections_named(d, 0, config);
        assert(recognisable(s[c].1) && untouched(prior[c], s[c].1).len() == 0);
        lemma_numbered_aligned(d);
        deploying_rebuilds(prior[c], d);
        assert(deploy(prior[c], d) =~= declared(d, d.len()));
        lemma_key_identifier(config);
        let a = target_lines(s, prior, c as nat);
        let store = declared(d, d.len());
        let b = store_lines(config, store, store.len());
        let m = flat_settings(s, c as nat);
        lemma_config_shown(m, config, d, d.len());
        lemma_line_like_add(a, b);
        lemma_shown_onto_empty(a, a.len());
        lemma_shown_onto_empty(a + b, (a + b).len());
        lemma_shown_onto_add(Map::empty(), a, b, b.len());
    }
}

// ---- proofs: orphans ----

/// Whether no key of a map is an orphan.
spec fn no_orphans(m: Flat, s: Settings) -> bool {
    m.dom().finite() && forall|k: Seq<char>| #[trigger] m.dom().contains(k) ==> !orphan(k, s)
}

proof fn lemma_options_no_orphans(m: Flat, key: Seq<char>, o: Options, n: nat, s: Settings)
    requires
        n <= o.len(),
        no_orphans(m, s),
        forall|opt: Seq<char>| !orphan(#[trigger] (key + "."@ + opt), s),
    ensures
        no_orphans(flat_options(m, key, o, n), s),
    decreases n,
{
    if n > 0 {
        lemma_options_no_orphans(m, key, o, (n - 1) as nat, s);
        assert(!orphan(key + "."@ + o[n - 1].0, s));
    }
}

proof fn lemma_section_no_orphans(m: Flat, key: Seq<char>, ty: Seq<char>, o: Options, s: Settings)
    requires
        no_orphans(m, s),
        !orphan(key, s),
        forall|opt: Seq<char>| !orphan(#[trigger] (key + "."@ + opt), s),
    ensures
        no_orphans(flat_section(m, key, ty, o), s),
{
    assert(no_orphans(m.insert(key, ty), s));
    lemma_options_no_orphans(m.insert(key, ty), key, o, o.len(), s);
}

proof fn lemma_list_no_orphans(
    m: Flat,
    config: Seq<char>,
    list: Seq<char>,
    b: Seq<Body>,
    n: nat,
    s: Settings,
)
    requires
        n <= b.len(),
        no_orphans(m, s),
    ensures
        no_orphans(flat_list(m, config, list, b, n), s),
    decreases n,
{
    if n > 0 {
        let i = (n - 1) as nat;
        lemma_list_no_orphans(m, config, list, b, i, s);
        let ty = entry_type(b[i as int], list);
        let key = anonymous_section(config, ty, i);
        anonymous_keys_name_no_section(config, ty, i);
        assert forall|opt: Seq<char>| !orphan(#[trigger] (key + "."@ + opt), s) by {
            option_keys_name_no_section(config, ty, opt, i);
            assert(key + "."@ + opt == anonymous_option(config, ty, i, opt));
        }
        lemma_section_no_orphans(
            flat_list(m, config, list, b, i),
            key,
            ty,
            b[i as int].options,
            s,
        );
    }
}

proof fn lemma_config_no_orphans(m: Flat, s: Settings, c: int, n: nat)
    requires
        0 <= c < s.len(),
        n <= s[c].1.len(),
        no_orphans(m, s),
    ensures
        no_orphans(flat_config(m, s[c].0, s[c].1, n), s),
    decreases n,
{
    if n > 0 {
        let i = (n - 1) as nat;
        let config = s[c].0;
        let d = s[c].1;
        lemma_config_no_orphans(m, s, c, i);
        let m1 = flat_config(m, config, d, i);
        match d[i as int].1 {
            Shape::Named(b) => {
                let name = d[i as int].0;
                let key = named_section(config, name);
                declared_sections_are_no_orphans(s, c, i as int);
                assert forall|opt: Seq<char>| !orphan(#[trigger] (key + "."@ + opt), s) by {
                    option_keys_name_no_section(config, name, opt, 0);
                    assert(key + "."@ + opt == named_option(config, name, opt));
                }
                lemma_section_no_orphans(m1, key, b.ty, b.options, s);
            },
            Shape::List(b) => {
                lemma_list_no_orphans(m1, config, d[i as int].0, b, b.len(), s);
            },
        }
    }
}

proof fn lemma_settings_no_orphans(s: Settings, n: nat)
    requires
        n <= s.len(),
    ensures
        no_orphans(flat_settings(s, n), s),
    decreases n,
{
    if n > 0 {
        lemma_settings_no_orphans(s, (n - 1) as nat);
        lemma_config_no_orphans(
            flat_settings(s, (n - 1) as nat),
            s,
            n - 1,
            s[n - 1].1.len(),
        );
    }
}

proof fn lemma_no_orphan_lines(keys: Seq<Seq<char>>, s: Settings, n: nat)
    requires
        n <= keys.len(),
        forall|i: int| 0 <= i < keys.len() ==> !orphan(#[trigger] keys[i], s),
    ensures
        orphan_lines(keys, s, n) == Seq::<char>::empty(),
    decreases n,
{
    if n > 0 {
        lemma_no_orphan_lines(keys, s, (n - 1) as nat);
    }
}

// ---- laws ----

/// No key that settings ask for is taken for that of a section to delete.
pub proof fn desired_keys_are_no_orphans(s: Settings)
    ensures
        orphan_script(flat_settings(s, s.len()), s) == Seq::<char>::empty(),
{
    let m = flat_settings(s, s.len());
    lemma_settings_no_orphans(s, s.len());
    in_order_holds(m.dom());
    let keys = in_order(m.dom());
    assert forall|i: int| 0 <= i < keys.len() implies !orphan(#[trigger] keys[i], s) by {
        assert(keys.to_set().contains(keys[i]));
    }
    lemma_no_orphan_lines(keys, s, keys.len());
}

/// Deploying twice is deploying once: a target that was deployed to, and that has nothing in its
/// configuration files besides, is found to be up to date, whatever was in them before.
pub proof fn deployed_targets_are_up_to_date(s: Settings, prior: Seq<Store>, output: Seq<char>)
    requires
        settings_fault(s, 0) is None,
        recognised(s, prior),
        parts(output, SERVICE_SEPARATOR@).0 == unlines(target_lines(s, prior, s.len())),
    ensures
        up_to_date(s, Some(output)),
{
    let l = target_lines(s, prior, s.len());
    lemma_target_shown(s, prior, s.len());
    lemma_lines_unlines(l);
    desired_keys_are_no_orphans(s);
}

} // verus!
