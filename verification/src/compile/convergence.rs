//! What the compiled commands do to a configuration file that is already there.
//!
//! The model is that of `uci`: a configuration file is a list of sections, each with a type, a
//! name or none, and options that hold one value or a list; an option that is set to the empty
//! text is no option. Types are taken to be not empty, as validation has it.
//!
//! The laws say that what a file holds afterwards depends on the declaration alone, besides what
//! the declaration does not speak of, and what it is: exactly what is declared, where the entries
//! of lists are found under their positions.

use crate::compile::plan::{
    assigned, config_commands, entry_commands, entry_type, list_commands, list_types,
    named_commands, option_commands, section_commands, section_types, value_commands, wiped_types,
    Assign, Command, Place,
};
use crate::config::models::{Body, Json, Options, Sections, Shape};
use vstd::prelude::*;

verus! {

// ---- configuration files ----

/// What an option holds.
pub enum Setting {
    One(Seq<char>),
    Many(Seq<Seq<char>>),
}

/// A section of a configuration file.
pub struct Held {
    pub name: Option<Seq<char>>,
    pub ty: Seq<char>,
    pub options: Seq<(Seq<char>, Setting)>,
}

/// A configuration file: its sections in their order.
pub type Store = Seq<Held>;

/// Where an option stands, from position `i` on.
pub open spec fn option_at(o: Seq<(Seq<char>, Setting)>, opt: Seq<char>, i: int) -> Option<int>
    decreases o.len() - i,
{
    if i < 0 || i >= o.len() {
        None
    } else if o[i].0 == opt {
        Some(i)
    } else {
        option_at(o, opt, i + 1)
    }
}

/// `uci set` replaces what an option holds, `uci add_list` adds to it. An option that is set to the
/// empty text is removed.
pub open spec fn assign(o: Seq<(Seq<char>, Setting)>, opt: Seq<char>, a: Assign) -> Seq<
    (Seq<char>, Setting),
> {
    match option_at(o, opt, 0) {
        Some(i) => if a.list {
            let more = match o[i].1 {
                Setting::One(t) => seq![t, a.text],
                Setting::Many(t) => t.push(a.text),
            };
            o.update(i, (opt, Setting::Many(more)))
        } else if a.text.len() == 0 {
            o.remove(i)
        } else {
            o.update(i, (opt, Setting::One(a.text)))
        },
        None => if a.list {
            o.push((opt, Setting::Many(seq![a.text])))
        } else if a.text.len() == 0 {
            o
        } else {
            o.push((opt, Setting::One(a.text)))
        },
    }
}

/// Where the section of a name stands, from position `i` on.
pub open spec fn named_at(s: Store, name: Seq<char>, i: int) -> Option<int>
    decreases s.len() - i,
{
    if i < 0 || i >= s.len() {
        None
    } else if s[i].name == Some(name) {
        Some(i)
    } else {
        named_at(s, name, i + 1)
    }
}

/// Where the section `@ty[idx]` stands, counted from position `i` on. Named sections count too.
pub open spec fn typed_at(s: Store, ty: Seq<char>, idx: int, i: int) -> Option<int>
    decreases s.len() - i,
{
    if i < 0 || i >= s.len() {
        None
    } else if s[i].ty == ty {
        if idx == 0 {
            Some(i)
        } else {
            typed_at(s, ty, idx - 1, i + 1)
        }
    } else {
        typed_at(s, ty, idx, i + 1)
    }
}

pub open spec fn place_at(s: Store, place: Place) -> Option<int> {
    match place {
        Place::Named(name) => named_at(s, name, 0),
        Place::Anonymous(ty, idx) => typed_at(s, ty, idx as int, 0),
    }
}

/// Whether a section has none of the types and none of the names.
pub open spec fn survives(h: Held, types: Seq<Seq<char>>, names: Seq<Seq<char>>) -> bool {
    !types.contains(h.ty) && match h.name {
        Some(n) => !names.contains(n),
        None => true,
    }
}

/// The sections that have none of the types and none of the names.
pub open spec fn kept(s: Store, types: Seq<Seq<char>>, names: Seq<Seq<char>>) -> Store
    decreases s.len(),
{
    if s.len() == 0 {
        Seq::empty()
    } else {
        let before = kept(s.drop_last(), types, names);
        if survives(s.last(), types, names) {
            before.push(s.last())
        } else {
            before
        }
    }
}

/// What a command does to a configuration file.
pub open spec fn execute(s: Store, c: Command) -> Store {
    match c {
        Command::Delete(name) => kept(s, Seq::empty(), seq![name]),
        Command::Declare(name, ty) => match named_at(s, name, 0) {
            Some(i) => s.update(i, Held { ty, ..s[i] }),
            None => s.push(Held { name: Some(name), ty, options: Seq::empty() }),
        },
        Command::Append(ty) => s.push(Held { name: None, ty, options: Seq::empty() }),
        Command::Write(place, opt, a) => match place_at(s, place) {
            Some(i) => s.update(i, Held { options: assign(s[i].options, opt, a), ..s[i] }),
            None => s,
        },
    }
}

pub open spec fn execute_all(s: Store, c: Seq<Command>) -> Store
    decreases c.len(),
{
    if c.len() == 0 {
        s
    } else {
        execute(execute_all(s, c.drop_last()), c.last())
    }
}

/// `while uci -q delete c.@ty[0]; do :; done`: the first section of the type is deleted as long
/// as there is one.
pub open spec fn wipe(s: Store, ty: Seq<char>) -> Store
    decreases s.len(),
{
    match typed_at(s, ty, 0, 0) {
        Some(i) => if 0 <= i < s.len() {
            wipe(s.remove(i), ty)
        } else {
            s
        },
        None => s,
    }
}

/// Each type is wiped in turn.
pub open spec fn wipe_all(s: Store, types: Seq<Seq<char>>) -> Store
    decreases types.len(),
{
    if types.len() == 0 {
        s
    } else {
        wipe(wipe_all(s, types.drop_last()), types.last())
    }
}

/// What the script for one configuration file makes of it.
pub open spec fn deploy(s: Store, d: Sections) -> Store {
    execute_all(wipe_all(s, wiped_types(d, d.len())), config_commands(d, d.len()))
}

// ---- what is declared ----

/// What an option holds once its values are assigned.
pub open spec fn setting_of(v: Json) -> Setting {
    match v {
        Json::Array(items) => Setting::Many(assigned_texts(v)),
        _ => Setting::One(assigned(v)[0].text),
    }
}

pub open spec fn assigned_texts(v: Json) -> Seq<Seq<char>> {
    Seq::new(assigned(v).len(), |i: int| assigned(v)[i].text)
}

/// Whether a value leaves an option unset: it is an empty list, or the empty text.
pub open spec fn unset(v: Json) -> bool {
    assigned(v).len() == 0 || (v !is Array && assigned(v)[0].text.len() == 0)
}

/// The first `n` options as a section holds them.
pub open spec fn held_options(o: Options, n: nat) -> Seq<(Seq<char>, Setting)>
    decreases n,
{
    if n == 0 || n > o.len() {
        Seq::empty()
    } else {
        let before = held_options(o, (n - 1) as nat);
        let (opt, v) = o[n - 1];
        if unset(v) {
            before
        } else {
            before.push((opt, setting_of(v)))
        }
    }
}

/// A section as it is declared.
pub open spec fn held(name: Option<Seq<char>>, ty: Seq<char>, o: Options) -> Held {
    Held { name, ty, options: held_options(o, o.len()) }
}

/// The first `n` entries of a list.
pub open spec fn held_list(b: Seq<Body>, list: Seq<char>, n: nat) -> Store
    decreases n,
{
    if n == 0 || n > b.len() {
        Seq::empty()
    } else {
        held_list(b, list, (n - 1) as nat).push(
            held(None, entry_type(b[n - 1], list), b[n - 1].options),
        )
    }
}

/// The sections of the first `n` declarations.
pub open spec fn declared(d: Sections, n: nat) -> Store
    decreases n,
{
    if n == 0 || n > d.len() {
        Seq::empty()
    } else {
        declared(d, (n - 1) as nat) + match d[n - 1].1 {
            Shape::Named(b) => seq![held(Some(d[n - 1].0), b.ty, b.options)],
            Shape::List(b) => held_list(b, d[n - 1].0, b.len()),
        }
    }
}

/// The names among the first `n` declarations.
pub open spec fn declared_names(d: Sections, n: nat) -> Seq<Seq<char>>
    decreases n,
{
    if n == 0 || n > d.len() {
        Seq::empty()
    } else {
        match d[n - 1].1 {
            Shape::Named(_) => declared_names(d, (n - 1) as nat).push(d[n - 1].0),
            Shape::List(_) => declared_names(d, (n - 1) as nat),
        }
    }
}

/// What a declaration does not speak of: sections of types that it does not rebuild, under names
/// that it does not declare.
pub open spec fn untouched(s: Store, d: Sections) -> Store {
    kept(s, wiped_types(d, d.len()), declared_names(d, d.len()))
}

// ---- which declarations converge ----

pub open spec fn distinct_options(o: Options) -> bool {
    forall|i: int, j: int| 0 <= i < j < o.len() ==> (#[trigger] o[i]).0 != (#[trigger] o[j]).0
}

pub open spec fn body_distinct(s: Shape) -> bool {
    match s {
        Shape::Named(b) => distinct_options(b.options),
        Shape::List(b) => forall|i: int|
            0 <= i < b.len() ==> distinct_options((#[trigger] b[i]).options),
    }
}

/// No section is declared twice, and no option twice in a section. A map from names to sections,
/// or to options, is of this kind.
pub open spec fn well_keyed(d: Sections) -> bool {
    &&& forall|i: int, j: int| 0 <= i < j < d.len() ==> (#[trigger] d[i]).0 != (#[trigger] d[j]).0
    &&& forall|i: int| 0 <= i < d.len() ==> body_distinct((#[trigger] d[i]).1)
}

/// Whether any of the first `n` options is assigned a value.
pub open spec fn writes(o: Options, n: nat) -> bool {
    exists|k: int| 0 <= k < n && assigned((#[trigger] o[k]).1).len() > 0
}

/// How many sections have a type.
pub open spec fn type_count(s: Store, ty: Seq<char>) -> nat
    decreases s.len(),
{
    if s.len() == 0 {
        0
    } else {
        type_count(s.drop_last(), ty) + if s.last().ty == ty {
            1nat
        } else {
            0nat
        }
    }
}

/// Whether the entries of a list are the first of their type: entry `i` has `i` sections of its
/// type before it among those that are declared. The position of an entry in its list is then its
/// index among the sections of its type. An entry without values may stand anywhere.
pub open spec fn entries_aligned(before: Store, b: Seq<Body>, list: Seq<char>) -> bool {
    forall|i: int|
        0 <= i < b.len() && writes(b[i].options, b[i].options.len()) ==> type_count(
            before + #[trigger] held_list(b, list, i as nat),
            entry_type(b[i], list),
        ) == i
}

/// Whether every list of a declaration is aligned. A list with entries of one type, which no
/// other declaration uses, is.
pub open spec fn aligned(d: Sections) -> bool {
    forall|k: int|
        0 <= k < d.len() ==> match (#[trigger] d[k]).1 {
            Shape::List(b) => entries_aligned(declared(d, k as nat), b, d[k].0),
            Shape::Named(_) => true,
        }
}

/// The types of the sections that one declaration makes.
pub open spec fn makes_type(s: (Seq<char>, Shape), ty: Seq<char>) -> bool {
    match s.1 {
        Shape::Named(b) => b.ty == ty,
        Shape::List(b) => exists|i: int| 0 <= i < b.len() && entry_type(#[trigger] b[i], s.0) == ty,
    }
}

/// Whether every list has entries of one type, which no declaration before it makes.
pub open spec fn uniform(d: Sections) -> bool {
    forall|k: int|
        0 <= k < d.len() ==> match (#[trigger] d[k]).1 {
            Shape::List(b) => forall|i: int|
                0 <= i < b.len() ==> entry_type(#[trigger] b[i], d[k].0) == entry_type(
                    b[0],
                    d[k].0,
                ) && forall|j: int|
                    0 <= j < k ==> !makes_type(#[trigger] d[j], entry_type(b[0], d[k].0)),
            Shape::Named(_) => true,
        }
}

// ---- proofs: keeping sections ----

proof fn lemma_kept_add(a: Store, b: Store, types: Seq<Seq<char>>, names: Seq<Seq<char>>)
    ensures
        kept(a + b, types, names) == kept(a, types, names) + kept(b, types, names),
    decreases b.len(),
{
    if b.len() == 0 {
        assert(a + b =~= a);
        assert(kept(a, types, names) + kept(b, types, names) =~= kept(a, types, names));
    } else {
        assert((a + b).drop_last() =~= a + b.drop_last());
        lemma_kept_add(a, b.drop_last(), types, names);
        assert(kept(a + b, types, names) =~= kept(a, types, names) + kept(b, types, names));
    }
}

proof fn lemma_contains_add(a: Seq<Seq<char>>, b: Seq<Seq<char>>, x: Seq<char>)
    ensures
        (a + b).contains(x) <==> a.contains(x) || b.contains(x),
{
    let ab = a + b;
    if ab.contains(x) {
        let k = choose|k: int| 0 <= k < ab.len() && ab[k] == x;
        if k < a.len() {
            assert(a[k] == x);
        } else {
            assert(b[k - a.len()] == x);
        }
    }
    if a.contains(x) {
        let k = choose|k: int| 0 <= k < a.len() && a[k] == x;
        assert(ab[k] == x);
    }
    if b.contains(x) {
        let k = choose|k: int| 0 <= k < b.len() && b[k] == x;
        assert(ab[a.len() + k] == x);
    }
}

proof fn lemma_kept_kept(
    s: Store,
    t1: Seq<Seq<char>>,
    n1: Seq<Seq<char>>,
    t2: Seq<Seq<char>>,
    n2: Seq<Seq<char>>,
)
    ensures
        kept(kept(s, t1, n1), t2, n2) == kept(s, t1 + t2, n1 + n2),
    decreases s.len(),
{
    if s.len() > 0 {
        let h = s.last();
        lemma_kept_kept(s.drop_last(), t1, n1, t2, n2);
        lemma_contains_add(t1, t2, h.ty);
        if let Some(n) = h.name {
            lemma_contains_add(n1, n2, n);
        }
        let before = kept(s.drop_last(), t1, n1);
        if survives(h, t1, n1) {
            assert(before.push(h).drop_last() =~= before);
        }
    }
}

proof fn lemma_kept_all(s: Store, types: Seq<Seq<char>>, names: Seq<Seq<char>>)
    requires
        forall|i: int| 0 <= i < s.len() ==> survives(#[trigger] s[i], types, names),
    ensures
        kept(s, types, names) == s,
    decreases s.len(),
{
    if s.len() > 0 {
        lemma_kept_all(s.drop_last(), types, names);
        assert(s.drop_last().push(s.last()) =~= s);
    } else {
        assert(kept(s, types, names) =~= s);
    }
}

proof fn lemma_kept_none(s: Store, types: Seq<Seq<char>>, names: Seq<Seq<char>>)
    requires
        forall|i: int| 0 <= i < s.len() ==> !survives(#[trigger] s[i], types, names),
    ensures
        kept(s, types, names) == Seq::<Held>::empty(),
    decreases s.len(),
{
    if s.len() > 0 {
        lemma_kept_none(s.drop_last(), types, names);
    }
}

proof fn lemma_kept_survives(s: Store, types: Seq<Seq<char>>, names: Seq<Seq<char>>)
    ensures
        forall|i: int|
            0 <= i < kept(s, types, names).len() ==> survives(
                #[trigger] kept(s, types, names)[i],
                types,
                names,
            ),
    decreases s.len(),
{
    if s.len() > 0 {
        lemma_kept_survives(s.drop_last(), types, names);
        let before = kept(s.drop_last(), types, names);
        let k = kept(s, types, names);
        assert forall|i: int| 0 <= i < k.len() implies survives(#[trigger] k[i], types, names) by {
            if i < before.len() {
                assert(k[i] == before[i]);
            }
        }
    }
}

/// The first section of a type, from position `i` on.
proof fn lemma_typed_first(s: Store, ty: Seq<char>, i: int)
    requires
        0 <= i <= s.len(),
    ensures
        match typed_at(s, ty, 0, i) {
            Some(k) => i <= k < s.len() && s[k].ty == ty,
            None => forall|j: int| i <= j < s.len() ==> (#[trigger] s[j]).ty != ty,
        },
    decreases s.len() - i,
{
    if i < s.len() && s[i].ty != ty {
        lemma_typed_first(s, ty, i + 1);
    }
}

/// Wiping a type leaves exactly the sections of other types.
proof fn lemma_wipe(s: Store, ty: Seq<char>)
    ensures
        wipe(s, ty) == kept(s, seq![ty], Seq::empty()),
    decreases s.len(),
{
    let none = Seq::<Seq<char>>::empty();
    let types = seq![ty];
    lemma_typed_first(s, ty, 0);
    match typed_at(s, ty, 0, 0) {
        Some(i) => {
            lemma_wipe(s.remove(i), ty);
            let a = s.take(i);
            let h = seq![s[i]];
            let b = s.skip(i + 1);
            assert(s =~= a + h + b);
            assert(s.remove(i) =~= a + b);
            assert(types[0] == ty);
            assert(!survives(s[i], types, none));
            lemma_kept_none(h, types, none);
            lemma_kept_add(a, h, types, none);
            lemma_kept_add(a + h, b, types, none);
            lemma_kept_add(a, b, types, none);
            assert(kept(a, types, none) + Seq::<Held>::empty() =~= kept(a, types, none));
        },
        None => {
            assert forall|j: int| 0 <= j < s.len() implies survives(#[trigger] s[j], types, none) by {
                assert(s[j].ty != ty);
            }
            lemma_kept_all(s, types, none);
        },
    }
}

proof fn lemma_wipe_all(s: Store, types: Seq<Seq<char>>)
    ensures
        wipe_all(s, types) == kept(s, types, Seq::empty()),
    decreases types.len(),
{
    let none = Seq::<Seq<char>>::empty();
    if types.len() == 0 {
        assert forall|i: int| 0 <= i < s.len() implies survives(#[trigger] s[i], types, none) by {}
        lemma_kept_all(s, types, none);
    } else {
        lemma_wipe_all(s, types.drop_last());
        lemma_wipe(wipe_all(s, types.drop_last()), types.last());
        lemma_kept_kept(s, types.drop_last(), none, seq![types.last()], none);
        assert(types.drop_last() + seq![types.last()] =~= types);
        assert(none + none =~= none);
    }
}

// ---- proofs: commands ----

proof fn lemma_execute_add(s: Store, a: Seq<Command>, b: Seq<Command>)
    ensures
        execute_all(s, a + b) == execute_all(execute_all(s, a), b),
    decreases b.len(),
{
    if b.len() == 0 {
        assert(a + b =~= a);
    } else {
        assert((a + b).drop_last() =~= a + b.drop_last());
        lemma_execute_add(s, a, b.drop_last());
    }
}

proof fn lemma_execute_one(s: Store, c: Command)
    ensures
        execute_all(s, seq![c]) == execute(s, c),
{
    reveal_with_fuel(execute_all, 2);
    assert(seq![c].drop_last() =~= Seq::empty());
}

/// The last section of a file has the name, and no other has: that is where it stands.
proof fn lemma_named_last(pre: Store, h: Held, name: Seq<char>, i: int)
    requires
        0 <= i <= pre.len(),
        forall|j: int| 0 <= j < pre.len() ==> (#[trigger] pre[j]).name != Some(name),
        h.name == Some(name),
    ensures
        named_at(pre.push(h), name, i) == Some(pre.len() as int),
    decreases pre.len() - i,
{
    let s = pre.push(h);
    if i < pre.len() {
        assert(s[i] == pre[i]);
        lemma_named_last(pre, h, name, i + 1);
    } else {
        assert(s[i] == h);
    }
}

proof fn lemma_named_none(s: Store, name: Seq<char>, i: int)
    requires
        0 <= i <= s.len(),
        forall|j: int| 0 <= j < s.len() ==> (#[trigger] s[j]).name != Some(name),
    ensures
        named_at(s, name, i) == None::<int>,
    decreases s.len() - i,
{
    if i < s.len() {
        lemma_named_none(s, name, i + 1);
    }
}

/// With `n` sections of its type before it, the last section of a file has index `n`.
proof fn lemma_typed_last(pre: Store, h: Held, ty: Seq<char>, idx: int, i: int)
    requires
        0 <= i <= pre.len(),
        h.ty == ty,
        idx == type_count(pre, ty) - type_count(pre.take(i), ty),
    ensures
        typed_at(pre.push(h), ty, idx, i) == Some(pre.len() as int),
    decreases pre.len() - i,
{
    let s = pre.push(h);
    if i < pre.len() {
        assert(s[i] == pre[i]);
        assert(pre.take(i + 1).drop_last() =~= pre.take(i));
        lemma_type_count_take(pre, ty, i + 1);
        lemma_typed_last(
            pre,
            h,
            ty,
            if pre[i].ty == ty {
                idx - 1
            } else {
                idx
            },
            i + 1,
        );
    } else {
        assert(pre.take(i) =~= pre);
        assert(s[i] == h);
    }
}

proof fn lemma_type_count_take(s: Store, ty: Seq<char>, i: int)
    requires
        0 <= i <= s.len(),
    ensures
        type_count(s.take(i), ty) <= type_count(s, ty),
    decreases s.len(),
{
    if i < s.len() {
        assert(s.drop_last().take(i) =~= s.take(i));
        lemma_type_count_take(s.drop_last(), ty, i);
    } else {
        assert(s.take(i) =~= s);
    }
}

proof fn lemma_type_count_add(a: Store, b: Store, ty: Seq<char>)
    ensures
        type_count(a + b, ty) == type_count(a, ty) + type_count(b, ty),
    decreases b.len(),
{
    if b.len() == 0 {
        assert(a + b =~= a);
    } else {
        assert((a + b).drop_last() =~= a + b.drop_last());
        lemma_type_count_add(a, b.drop_last(), ty);
    }
}

proof fn lemma_type_count_none(s: Store, ty: Seq<char>)
    requires
        forall|i: int| 0 <= i < s.len() ==> (#[trigger] s[i]).ty != ty,
    ensures
        type_count(s, ty) == 0,
    decreases s.len(),
{
    if s.len() > 0 {
        lemma_type_count_none(s.drop_last(), ty);
    }
}

// ---- proofs: options ----

proof fn lemma_option_none(o: Seq<(Seq<char>, Setting)>, opt: Seq<char>, i: int)
    requires
        0 <= i <= o.len(),
        forall|j: int| 0 <= j < o.len() ==> (#[trigger] o[j]).0 != opt,
    ensures
        option_at(o, opt, i) == None::<int>,
    decreases o.len() - i,
{
    if i < o.len() {
        lemma_option_none(o, opt, i + 1);
    }
}

proof fn lemma_option_last(o: Seq<(Seq<char>, Setting)>, opt: Seq<char>, v: Setting, i: int)
    requires
        0 <= i <= o.len(),
        forall|j: int| 0 <= j < o.len() ==> (#[trigger] o[j]).0 != opt,
    ensures
        option_at(o.push((opt, v)), opt, i) == Some(o.len() as int),
    decreases o.len() - i,
{
    if i < o.len() {
        assert(o.push((opt, v))[i] == o[i]);
        lemma_option_last(o, opt, v, i + 1);
    }
}

/// Whether a place is that of the last section behind `pre`, whatever options it has.
spec fn places_last(pre: Store, name: Option<Seq<char>>, ty: Seq<char>, place: Place) -> bool {
    forall|o: Seq<(Seq<char>, Setting)>|
        place_at(#[trigger] pre.push(Held { name, ty, options: o }), place) == Some(
            pre.len() as int,
        )
}

proof fn lemma_write_last(
    pre: Store,
    name: Option<Seq<char>>,
    ty: Seq<char>,
    o: Seq<(Seq<char>, Setting)>,
    place: Place,
    opt: Seq<char>,
    a: Assign,
)
    requires
        places_last(pre, name, ty, place),
    ensures
        execute(pre.push(Held { name, ty, options: o }), Command::Write(place, opt, a)) == pre.push(
            Held { name, ty, options: assign(o, opt, a) },
        ),
{
    let s = pre.push(Held { name, ty, options: o });
    assert(place_at(s, place) == Some(pre.len() as int));
    assert(execute(s, Command::Write(place, opt, a)) =~= pre.push(
        Held { name, ty, options: assign(o, opt, a) },
    ));
}

/// What an option holds after the first `k` of its values are assigned.
spec fn partial_setting(v: Json, k: int) -> Setting {
    if v is Array {
        Setting::Many(assigned_texts(v).take(k))
    } else {
        Setting::One(assigned(v)[0].text)
    }
}

proof fn lemma_values_written(
    pre: Store,
    name: Option<Seq<char>>,
    ty: Seq<char>,
    o: Seq<(Seq<char>, Setting)>,
    place: Place,
    opt: Seq<char>,
    v: Json,
    k: int,
)
    requires
        places_last(pre, name, ty, place),
        forall|j: int| 0 <= j < o.len() ==> (#[trigger] o[j]).0 != opt,
        0 <= k <= assigned(v).len(),
    ensures
        execute_all(
            pre.push(Held { name, ty, options: o }),
            value_commands(place, opt, v).take(k),
        ) == pre.push(
            Held {
                name,
                ty,
                options: if k == 0 || unset(v) {
                    o
                } else {
                    o.push((opt, partial_setting(v, k)))
                },
            },
        ),
    decreases k,
{
    let c = value_commands(place, opt, v);
    let s = pre.push(Held { name, ty, options: o });
    if k == 0 {
        assert(c.take(0) =~= Seq::empty());
    } else {
        lemma_values_written(pre, name, ty, o, place, opt, v, k - 1);
        assert(c.take(k).drop_last() =~= c.take(k - 1));
        let a = assigned(v)[k - 1];
        assert(c.take(k).last() == Command::Write(place, opt, a));
        let so_far = if k == 1 || unset(v) {
            o
        } else {
            o.push((opt, partial_setting(v, k - 1)))
        };
        lemma_write_last(pre, name, ty, so_far, place, opt, a);
        if k == 1 {
            lemma_option_none(o, opt, 0);
            if v is Array {
                assert(seq![a.text] =~= assigned_texts(v).take(1));
            }
        } else {
            lemma_option_last(o, opt, partial_setting(v, k - 1), 0);
            let texts = assigned_texts(v);
            assert(texts.take(k - 1).push(a.text) =~= texts.take(k));
            assert(assign(so_far, opt, a) =~= o.push((opt, partial_setting(v, k))));
        }
    }
}

proof fn lemma_held_names(o: Options, n: nat)
    requires
        n <= o.len(),
    ensures
        forall|j: int|
            0 <= j < held_options(o, n).len() ==> exists|k: int|
                0 <= k < n && (#[trigger] held_options(o, n)[j]).0 == (#[trigger] o[k]).0,
    decreases n,
{
    if n > 0 {
        lemma_held_names(o, (n - 1) as nat);
        let before = held_options(o, (n - 1) as nat);
        assert forall|j: int| 0 <= j < held_options(o, n).len() implies exists|k: int|
            0 <= k < n && (#[trigger] held_options(o, n)[j]).0 == (#[trigger] o[k]).0 by {
            if j < before.len() {
                assert(held_options(o, n)[j] == before[j]);
                let k = choose|k: int| 0 <= k < n - 1 && before[j].0 == (#[trigger] o[k]).0;
                assert(held_options(o, n)[j].0 == o[k].0);
            } else {
                assert(held_options(o, n)[j].0 == o[n - 1].0);
            }
        }
    }
}

proof fn lemma_options_written(
    pre: Store,
    name: Option<Seq<char>>,
    ty: Seq<char>,
    place: Place,
    o: Options,
    n: nat,
)
    requires
        writes(o, n) ==> places_last(pre, name, ty, place),
        distinct_options(o),
        n <= o.len(),
    ensures
        execute_all(
            pre.push(Held { name, ty, options: Seq::empty() }),
            option_commands(place, o, n),
        ) == pre.push(Held { name, ty, options: held_options(o, n) }),
    decreases n,
{
    let s = pre.push(Held { name, ty, options: Seq::empty() });
    if n > 0 {
        let before = held_options(o, (n - 1) as nat);
        lemma_options_written(pre, name, ty, place, o, (n - 1) as nat);
        let (opt, v) = o[n - 1];
        let c = value_commands(place, opt, v);
        lemma_execute_add(s, option_commands(place, o, (n - 1) as nat), c);
        assert(c.take(c.len() as int) =~= c);
        if assigned(v).len() == 0 {
            assert(c =~= Seq::empty());
        } else {
            assert(assigned(o[n - 1].1).len() > 0);
            lemma_held_names(o, (n - 1) as nat);
            assert forall|j: int| 0 <= j < before.len() implies (#[trigger] before[j]).0 != opt by {
                let k = choose|k: int| 0 <= k < n - 1 && before[j].0 == (#[trigger] o[k]).0;
                assert(o[k].0 != o[n - 1].0);
            }
            lemma_values_written(pre, name, ty, before, place, opt, v, c.len() as int);
            assert(assigned_texts(v).take(c.len() as int) =~= assigned_texts(v));
        }
    }
}

// ---- proofs: sections ----

proof fn lemma_list_types_contains(b: Seq<Body>, list: Seq<char>, n: nat, i: int)
    requires
        0 <= i < n <= b.len(),
    ensures
        list_types(b, list, n).contains(entry_type(b[i], list)),
    decreases n,
{
    let before = list_types(b, list, (n - 1) as nat);
    let ty = entry_type(b[n - 1], list);
    let x = entry_type(b[i], list);
    if i < n - 1 {
        lemma_list_types_contains(b, list, (n - 1) as nat, i);
        let k = choose|k: int| 0 <= k < before.len() && before[k] == x;
        assert(before.push(ty)[k] == x);
    } else {
        assert(before.push(ty)[before.len() as int] == ty);
    }
}

proof fn lemma_wiped_contains(d: Sections, n: nat, k: int, b: Seq<Body>, i: int)
    requires
        0 <= k < n <= d.len(),
        d[k].1 == Shape::List(b),
        0 <= i < b.len(),
    ensures
        wiped_types(d, n).contains(entry_type(b[i], d[k].0)),
    decreases n,
{
    let x = entry_type(b[i], d[k].0);
    lemma_contains_add(wiped_types(d, (n - 1) as nat), section_types(d[n - 1]), x);
    if k < n - 1 {
        lemma_wiped_contains(d, (n - 1) as nat, k, b, i);
    } else {
        lemma_list_types_contains(b, d[k].0, b.len(), i);
    }
}

/// A list's entries carry no name.
proof fn lemma_held_list_nameless(b: Seq<Body>, list: Seq<char>, n: nat)
    requires
        n <= b.len(),
    ensures
        held_list(b, list, n).len() == n,
        forall|i: int|
            0 <= i < n ==> (#[trigger] held_list(b, list, n)[i]).name is None && held_list(
                b,
                list,
                n,
            )[i].ty == entry_type(b[i], list),
    decreases n,
{
    if n > 0 {
        lemma_held_list_nameless(b, list, (n - 1) as nat);
    }
}

/// Every declared section goes by a declared name, or has a type that is wiped.
proof fn lemma_declared_known(d: Sections, n: nat, j: int)
    requires
        n <= d.len(),
        0 <= j < declared(d, n).len(),
    ensures
        match declared(d, n)[j].name {
            Some(name) => declared_names(d, n).contains(name),
            None => wiped_types(d, n).contains(declared(d, n)[j].ty),
        },
    decreases n,
{
    if n > 0 {
        let before = declared(d, (n - 1) as nat);
        let names = declared_names(d, (n - 1) as nat);
        let h = declared(d, n)[j];
        if j < before.len() {
            lemma_declared_known(d, (n - 1) as nat, j);
            assert(before[j] == h);
            if let Some(name) = h.name {
                let k = choose|k: int| 0 <= k < names.len() && names[k] == name;
                assert(names.push(d[n - 1].0)[k] == name);
            } else {
                lemma_contains_add(
                    wiped_types(d, (n - 1) as nat),
                    section_types(d[n - 1]),
                    h.ty,
                );
            }
        } else {
            match d[n - 1].1 {
                Shape::Named(b) => {
                    assert(names.push(d[n - 1].0)[names.len() as int] == d[n - 1].0);
                },
                Shape::List(b) => {
                    let i = j - before.len();
                    lemma_held_list_nameless(b, d[n - 1].0, b.len());
                    assert(h == held_list(b, d[n - 1].0, b.len())[i]);
                    lemma_wiped_contains(d, n, n - 1, b, i);
                },
            }
        }
    }
}

proof fn lemma_declared_names_from(d: Sections, n: nat, j: int)
    requires
        n <= d.len(),
        0 <= j < declared_names(d, n).len(),
    ensures
        exists|k: int| 0 <= k < n && (#[trigger] d[k]).0 == declared_names(d, n)[j],
    decreases n,
{
    if n > 0 {
        let before = declared_names(d, (n - 1) as nat);
        if j < before.len() {
            lemma_declared_names_from(d, (n - 1) as nat, j);
            assert(declared_names(d, n)[j] == before[j]);
            let k = choose|k: int| 0 <= k < n - 1 && (#[trigger] d[k]).0 == before[j];
            assert(d[k].0 == declared_names(d, n)[j]);
        } else {
            assert(d[n - 1].0 == declared_names(d, n)[j]);
        }
    }
}

/// No section that is declared before goes by the name of the next declaration.
proof fn lemma_name_is_new(d: Sections, n: nat)
    requires
        well_keyed(d),
        n < d.len(),
    ensures
        forall|j: int|
            0 <= j < declared(d, n).len() ==> (#[trigger] declared(d, n)[j]).name != Some(d[n as int].0),
{
    assert forall|j: int| 0 <= j < declared(d, n).len() implies (#[trigger] declared(
        d,
        n,
    )[j]).name != Some(d[n as int].0) by {
        lemma_declared_known(d, n, j);
        if declared(d, n)[j].name == Some(d[n as int].0) {
            let names = declared_names(d, n);
            let i = choose|i: int| 0 <= i < names.len() && names[i] == d[n as int].0;
            lemma_declared_names_from(d, n, i);
            let k = choose|k: int| 0 <= k < n && (#[trigger] d[k]).0 == names[i];
            assert(d[k].0 != d[n as int].0);
        }
    }
}

/// The file after the first `n` declarations.
spec fn after(s: Store, d: Sections, n: nat) -> Store {
    kept(s, wiped_types(d, d.len()), declared_names(d, n)) + declared(d, n)
}

proof fn lemma_named_step(s: Store, d: Sections, n: nat, b: Body)
    requires
        well_keyed(d),
        n < d.len(),
        d[n as int].1 == Shape::Named(b),
    ensures
        execute_all(after(s, d, n), named_commands(d[n as int].0, b)) == after(s, d, n + 1),
{
    let name = d[n as int].0;
    let types = wiped_types(d, d.len());
    let names = declared_names(d, n);
    let old_part = kept(s, types, names);
    let new_part = declared(d, n);
    let none = Seq::<Seq<char>>::empty();
    let first = Command::Delete(name);
    let second = Command::Declare(name, b.ty);
    let rest = option_commands(Place::Named(name), b.options, b.options.len());
    lemma_execute_add(after(s, d, n), seq![first, second], rest);
    assert(seq![first, second] =~= seq![first] + seq![second]);
    lemma_execute_add(after(s, d, n), seq![first], seq![second]);
    lemma_execute_one(after(s, d, n), first);
    // the name is deleted
    lemma_name_is_new(d, n);
    lemma_kept_add(old_part, new_part, none, seq![name]);
    lemma_kept_kept(s, types, names, none, seq![name]);
    assert(types + none =~= types);
    assert(names + seq![name] =~= names.push(name));
    assert forall|i: int| 0 <= i < new_part.len() implies survives(
        #[trigger] new_part[i],
        none,
        seq![name],
    ) by {
        assert(new_part[i].name != Some(name));
    }
    lemma_kept_all(new_part, none, seq![name]);
    let pre = kept(s, types, names.push(name)) + new_part;
    assert(execute(after(s, d, n), first) == pre);
    // and declared anew
    lemma_kept_survives(s, types, names.push(name));
    assert forall|j: int| 0 <= j < pre.len() implies (#[trigger] pre[j]).name != Some(name) by {
        let a = kept(s, types, names.push(name));
        if j < a.len() {
            assert(survives(a[j], types, names.push(name)));
            assert(names.push(name)[names.len() as int] == name);
        } else {
            assert(pre[j] == new_part[j - a.len()]);
        }
    }
    lemma_named_none(pre, name, 0);
    lemma_execute_one(pre, second);
    let empty = Held { name: Some(name), ty: b.ty, options: Seq::empty() };
    assert(execute(pre, second) == pre.push(empty));
    assert forall|o: Seq<(Seq<char>, Setting)>|
        place_at(
            #[trigger] pre.push(Held { name: Some(name), ty: b.ty, options: o }),
            Place::Named(name),
        ) == Some(pre.len() as int) by {
        lemma_named_last(pre, Held { name: Some(name), ty: b.ty, options: o }, name, 0);
    }
    assert(body_distinct(d[n as int].1));
    lemma_options_written(
        pre,
        Some(name),
        b.ty,
        Place::Named(name),
        b.options,
        b.options.len(),
    );
    assert(after(s, d, n + 1) =~= pre.push(held(Some(name), b.ty, b.options)));
}

proof fn lemma_list_step(s: Store, d: Sections, n: nat, b: Seq<Body>, m: nat)
    requires
        well_keyed(d),
        aligned(d),
        n < d.len(),
        d[n as int].1 == Shape::List(b),
        m <= b.len(),
    ensures
        execute_all(after(s, d, n), list_commands(b, d[n as int].0, m)) == after(s, d, n)
            + held_list(b, d[n as int].0, m),
    decreases m,
{
    let list = d[n as int].0;
    let s0 = after(s, d, n);
    if m == 0 {
        assert(s0 + held_list(b, list, 0) =~= s0);
    } else {
        let i = (m - 1) as nat;
        lemma_list_step(s, d, n, b, i);
        lemma_execute_add(s0, list_commands(b, list, i), entry_commands(b[i as int], i, list));
        let pre = s0 + held_list(b, list, i);
        let body = b[i as int];
        let ty = entry_type(body, list);
        let place = Place::Anonymous(ty, i);
        let head = seq![Command::Append(ty)];
        let rest = option_commands(place, body.options, body.options.len());
        lemma_execute_add(pre, head, rest);
        lemma_execute_one(pre, Command::Append(ty));
        if writes(body.options, body.options.len()) {
            // no section of this type is older than the declared ones
            let types = wiped_types(d, d.len());
            let names = declared_names(d, n);
            let old_part = kept(s, types, names);
            lemma_kept_survives(s, types, names);
            lemma_wiped_contains(d, d.len(), n as int, b, i as int);
            assert forall|j: int| 0 <= j < old_part.len() implies (#[trigger] old_part[j]).ty
                != ty by {
                assert(survives(old_part[j], types, names));
            }
            lemma_type_count_none(old_part, ty);
            let base = declared(d, n) + held_list(b, list, i);
            assert(pre =~= old_part + base);
            lemma_type_count_add(old_part, base, ty);
            assert(d[n as int].1 is List);
            assert(entries_aligned(declared(d, n), b, list));
            assert(type_count(base, ty) == i);
            assert forall|o: Seq<(Seq<char>, Setting)>|
                place_at(#[trigger] pre.push(Held { name: None, ty, options: o }), place) == Some(
                    pre.len() as int,
                ) by {
                assert(pre.take(0) =~= Seq::empty());
                lemma_typed_last(pre, Held { name: None, ty, options: o }, ty, i as int, 0);
            }
        }
        assert(body_distinct(d[n as int].1));
        lemma_options_written(pre, None, ty, place, body.options, body.options.len());
        assert(s0 + held_list(b, list, m) =~= pre.push(held(None, ty, body.options)));
    }
}

proof fn lemma_deploy_prefix(s: Store, d: Sections, n: nat)
    requires
        well_keyed(d),
        aligned(d),
        n <= d.len(),
    ensures
        execute_all(after(s, d, 0), config_commands(d, n)) == after(s, d, n),
    decreases n,
{
    if n > 0 {
        let i = (n - 1) as nat;
        lemma_deploy_prefix(s, d, i);
        lemma_execute_add(after(s, d, 0), config_commands(d, i), section_commands(d[i as int]));
        match d[i as int].1 {
            Shape::Named(b) => {
                lemma_named_step(s, d, i, b);
            },
            Shape::List(b) => {
                lemma_list_step(s, d, i, b, b.len());
                assert(after(s, d, i) + held_list(b, d[i as int].0, b.len()) =~= after(s, d, n));
            },
        }
    }
}

// ---- proofs: building out of nothing ----

/// Whether a command finds nothing to act on in `k`.
spec fn passes(k: Store, c: Command) -> bool {
    match c {
        Command::Delete(name) => nameless(k, name),
        Command::Declare(name, _) => nameless(k, name),
        Command::Append(_) => true,
        Command::Write(Place::Named(name), _, _) => nameless(k, name),
        Command::Write(Place::Anonymous(ty, _), _, _) => forall|i: int|
            0 <= i < k.len() ==> (#[trigger] k[i]).ty != ty,
    }
}

spec fn nameless(k: Store, name: Seq<char>) -> bool {
    forall|i: int| 0 <= i < k.len() ==> (#[trigger] k[i]).name != Some(name)
}

/// A position behind `n` sections more.
spec fn shifted(i: Option<int>, n: int) -> Option<int> {
    match i {
        Some(i) => Some(i + n),
        None => None,
    }
}

proof fn lemma_named_behind(k: Store, b: Store, name: Seq<char>, i: int)
    requires
        0 <= i <= k.len() + b.len(),
        nameless(k, name),
    ensures
        named_at(k + b, name, i) == shifted(
            named_at(
                b,
                name,
                if i < k.len() {
                    0
                } else {
                    i - k.len()
                },
            ),
            k.len() as int,
        ),
        named_at(k + b, name, i) matches Some(j) ==> i <= j < k.len() + b.len(),
    decreases k.len() + b.len() - i,
{
    let s = k + b;
    if i < s.len() {
        lemma_named_behind(k, b, name, i + 1);
        if i < k.len() {
            assert(s[i] == k[i]);
        } else {
            assert(s[i] == b[i - k.len()]);
        }
    }
}

proof fn lemma_typed_behind(k: Store, b: Store, ty: Seq<char>, idx: int, i: int)
    requires
        0 <= i <= k.len() + b.len(),
        forall|j: int| 0 <= j < k.len() ==> (#[trigger] k[j]).ty != ty,
    ensures
        typed_at(k + b, ty, idx, i) == shifted(
            typed_at(
                b,
                ty,
                idx,
                if i < k.len() {
                    0
                } else {
                    i - k.len()
                },
            ),
            k.len() as int,
        ),
        typed_at(k + b, ty, idx, i) matches Some(j) ==> i <= j < k.len() + b.len(),
    decreases k.len() + b.len() - i,
{
    let s = k + b;
    if i < s.len() {
        if i < k.len() {
            assert(s[i] == k[i]);
            lemma_typed_behind(k, b, ty, idx, i + 1);
        } else {
            assert(s[i] == b[i - k.len()]);
            lemma_typed_behind(
                k,
                b,
                ty,
                if s[i].ty == ty {
                    idx - 1
                } else {
                    idx
                },
                i + 1,
            );
        }
    }
}

proof fn lemma_execute_behind(k: Store, b: Store, c: Command)
    requires
        passes(k, c),
    ensures
        execute(k + b, c) == k + execute(b, c),
{
    let s = k + b;
    let none = Seq::<Seq<char>>::empty();
    match c {
        Command::Delete(name) => {
            lemma_kept_add(k, b, none, seq![name]);
            assert forall|i: int| 0 <= i < k.len() implies survives(
                #[trigger] k[i],
                none,
                seq![name],
            ) by {}
            lemma_kept_all(k, none, seq![name]);
        },
        Command::Declare(name, _) => {
            lemma_named_behind(k, b, name, 0);
            lemma_named_behind(Seq::empty(), b, name, 0);
            assert(Seq::<Held>::empty() + b =~= b);
        },
        Command::Append(_) => {},
        Command::Write(place, opt, a) => {
            match place {
                Place::Named(name) => {
                    lemma_named_behind(k, b, name, 0);
                    lemma_named_behind(Seq::empty(), b, name, 0);
                },
                Place::Anonymous(ty, idx) => {
                    lemma_typed_behind(k, b, ty, idx as int, 0);
                    lemma_typed_behind(Seq::empty(), b, ty, idx as int, 0);
                },
            }
            assert(Seq::<Held>::empty() + b =~= b);
        },
    }
    assert(execute(s, c) =~= k + execute(b, c));
}

proof fn lemma_execute_all_behind(k: Store, b: Store, c: Seq<Command>)
    requires
        forall|i: int| 0 <= i < c.len() ==> passes(k, #[trigger] c[i]),
    ensures
        execute_all(k + b, c) == k + execute_all(b, c),
    decreases c.len(),
{
    if c.len() > 0 {
        lemma_execute_all_behind(k, b, c.drop_last());
        lemma_execute_behind(k, execute_all(b, c.drop_last()), c.last());
    }
}

/// The commands for options all write to their section.
proof fn lemma_option_commands(place: Place, o: Options, n: nat)
    requires
        n <= o.len(),
    ensures
        forall|i: int|
            0 <= i < option_commands(place, o, n).len() ==> ((#[trigger] option_commands(
                place,
                o,
                n,
            )[i]) matches Command::Write(p, _, _) && p == place),
    decreases n,
{
    if n > 0 {
        lemma_option_commands(place, o, (n - 1) as nat);
        let before = option_commands(place, o, (n - 1) as nat);
        let c = option_commands(place, o, n);
        assert forall|i: int| 0 <= i < c.len() implies ((#[trigger] c[i]) matches Command::Write(
            p,
            _,
            _,
        ) && p == place) by {
            if i < before.len() {
                assert(c[i] == before[i]);
            }
        }
    }
}

/// The commands for a list append and write to sections of its types.
spec fn of_types(c: Command, types: Seq<Seq<char>>) -> bool {
    match c {
        Command::Append(ty) => types.contains(ty),
        Command::Write(Place::Anonymous(ty, _), _, _) => types.contains(ty),
        _ => false,
    }
}

proof fn lemma_list_commands(b: Seq<Body>, list: Seq<char>, n: nat, types: Seq<Seq<char>>)
    requires
        n <= b.len(),
        forall|i: int| 0 <= i < b.len() ==> types.contains(entry_type(#[trigger] b[i], list)),
    ensures
        forall|i: int|
            0 <= i < list_commands(b, list, n).len() ==> of_types(
                #[trigger] list_commands(b, list, n)[i],
                types,
            ),
    decreases n,
{
    if n > 0 {
        let k = (n - 1) as nat;
        lemma_list_commands(b, list, k, types);
        let before = list_commands(b, list, k);
        let body = b[k as int];
        let ty = entry_type(body, list);
        let place = Place::Anonymous(ty, k);
        let rest = option_commands(place, body.options, body.options.len());
        lemma_option_commands(place, body.options, body.options.len());
        let c = list_commands(b, list, n);
        assert forall|i: int| 0 <= i < c.len() implies of_types(#[trigger] c[i], types) by {
            if i < before.len() {
                assert(c[i] == before[i]);
            } else if i == before.len() {
                assert(c[i] == Command::Append(ty));
            } else {
                assert(c[i] == rest[i - before.len() - 1]);
            }
        }
    }
}

/// The types of a list among the declarations are all rebuilt.
proof fn lemma_list_rebuilt(d: Sections, n: nat, b: Seq<Body>)
    requires
        n < d.len(),
        d[n as int].1 == Shape::List(b),
    ensures
        forall|i: int|
            0 <= i < b.len() ==> wiped_types(d, d.len()).contains(
                entry_type(#[trigger] b[i], d[n as int].0),
            ),
{
    assert forall|i: int| 0 <= i < b.len() implies wiped_types(d, d.len()).contains(
        entry_type(#[trigger] b[i], d[n as int].0),
    ) by {
        lemma_wiped_contains(d, d.len(), n as int, b, i);
    }
}

/// What is kept never meets the commands: they act as on an empty file behind it.
proof fn lemma_afresh_prefix(s: Store, d: Sections, n: nat)
    requires
        n <= d.len(),
    ensures
        ({
            let types = wiped_types(d, d.len());
            let c = config_commands(d, n);
            execute_all(kept(s, types, Seq::empty()), c) == kept(s, types, declared_names(d, n))
                + execute_all(Seq::empty(), c)
        }),
    decreases n,
{
    let types = wiped_types(d, d.len());
    let none = Seq::<Seq<char>>::empty();
    let start = kept(s, types, none);
    let nothing = Seq::<Held>::empty();
    if n == 0 {
        assert(start + nothing =~= start);
    } else {
        let i = (n - 1) as nat;
        lemma_afresh_prefix(s, d, i);
        let (name, shape) = d[i as int];
        let names = declared_names(d, i);
        let old_part = kept(s, types, names);
        let new_part = execute_all(nothing, config_commands(d, i));
        let c = section_commands(d[i as int]);
        lemma_execute_add(start, config_commands(d, i), c);
        lemma_execute_add(nothing, config_commands(d, i), c);
        match shape {
            Shape::Named(b) => {
                let first = Command::Delete(name);
                let rest = c.skip(1);
                assert(c =~= seq![first] + rest);
                lemma_execute_add(old_part + new_part, seq![first], rest);
                lemma_execute_add(new_part, seq![first], rest);
                lemma_execute_one(old_part + new_part, first);
                lemma_execute_one(new_part, first);
                lemma_kept_add(old_part, new_part, none, seq![name]);
                lemma_kept_kept(s, types, names, none, seq![name]);
                assert(types + none =~= types);
                assert(names + seq![name] =~= names.push(name));
                let left = kept(s, types, names.push(name));
                lemma_kept_survives(s, types, names.push(name));
                assert(nameless(left, name)) by {
                    assert forall|j: int| 0 <= j < left.len() implies (#[trigger] left[j]).name
                        != Some(name) by {
                        assert(survives(left[j], types, names.push(name)));
                        assert(names.push(name)[names.len() as int] == name);
                    }
                }
                let options = option_commands(Place::Named(name), b.options, b.options.len());
                lemma_option_commands(Place::Named(name), b.options, b.options.len());
                assert forall|j: int| 0 <= j < rest.len() implies passes(left, #[trigger] rest[j]) by {
                    if j > 0 {
                        assert(rest[j] == options[j - 1]);
                    }
                }
                lemma_execute_all_behind(left, execute(new_part, first), rest);
            },
            Shape::List(b) => {
                lemma_list_rebuilt(d, i, b);
                lemma_list_commands(b, name, b.len(), types);
                lemma_kept_survives(s, types, names);
                assert forall|j: int| 0 <= j < c.len() implies passes(old_part, #[trigger] c[j]) by {
                    assert(of_types(c[j], types));
                    if let Command::Write(Place::Anonymous(ty, _), _, _) = c[j] {
                        assert forall|h: int| 0 <= h < old_part.len() implies (
                        #[trigger] old_part[h]).ty != ty by {
                            assert(survives(old_part[h], types, names));
                        }
                    }
                }
                lemma_execute_all_behind(old_part, new_part, c);
            },
        }
    }
}

/// Whether a section goes by one of the names, or has no name and one of the types.
spec fn known(h: Held, types: Seq<Seq<char>>, names: Seq<Seq<char>>) -> bool {
    match h.name {
        Some(name) => names.contains(name),
        None => types.contains(h.ty),
    }
}

spec fn all_known(s: Store, types: Seq<Seq<char>>, names: Seq<Seq<char>>) -> bool {
    forall|i: int| 0 <= i < s.len() ==> known(#[trigger] s[i], types, names)
}

/// Whether a command makes only sections that are known.
spec fn makes_known(c: Command, types: Seq<Seq<char>>, names: Seq<Seq<char>>) -> bool {
    match c {
        Command::Declare(name, _) => names.contains(name),
        Command::Append(ty) => types.contains(ty),
        _ => true,
    }
}

proof fn lemma_execute_known(s: Store, c: Command, types: Seq<Seq<char>>, names: Seq<Seq<char>>)
    requires
        all_known(s, types, names),
        makes_known(c, types, names),
    ensures
        all_known(execute(s, c), types, names),
{
    let none = Seq::<Held>::empty();
    assert(none + s =~= s);
    let r = execute(s, c);
    match c {
        Command::Delete(name) => {
            assert forall|i: int| 0 <= i < r.len() implies known(#[trigger] r[i], types, names) by {
                lemma_kept_from(s, Seq::empty(), seq![name], i);
                let k = choose|k: int| 0 <= k < s.len() && s[k] == r[i];
                assert(known(s[k], types, names));
            }
        },
        Command::Declare(name, _) => {
            lemma_named_found(s, name, 0);
        },
        Command::Append(_) => {},
        Command::Write(place, _, _) => {
            match place {
                Place::Named(name) => {
                    lemma_named_behind(none, s, name, 0);
                },
                Place::Anonymous(ty, idx) => {
                    lemma_typed_behind(none, s, ty, idx as int, 0);
                },
            }
        },
    }
}

/// The section that a name leads to goes by it.
proof fn lemma_named_found(s: Store, name: Seq<char>, i: int)
    requires
        0 <= i <= s.len(),
    ensures
        named_at(s, name, i) matches Some(j) ==> i <= j < s.len() && s[j].name == Some(name),
    decreases s.len() - i,
{
    if i < s.len() {
        lemma_named_found(s, name, i + 1);
    }
}

proof fn lemma_execute_all_known(
    s: Store,
    c: Seq<Command>,
    types: Seq<Seq<char>>,
    names: Seq<Seq<char>>,
)
    requires
        all_known(s, types, names),
        forall|i: int| 0 <= i < c.len() ==> makes_known(#[trigger] c[i], types, names),
    ensures
        all_known(execute_all(s, c), types, names),
    decreases c.len(),
{
    if c.len() > 0 {
        lemma_execute_all_known(s, c.drop_last(), types, names);
        lemma_execute_known(execute_all(s, c.drop_last()), c.last(), types, names);
    }
}

proof fn lemma_declared_names_contain(d: Sections, n: nat, k: int)
    requires
        0 <= k < n <= d.len(),
        d[k].1 is Named,
    ensures
        declared_names(d, n).contains(d[k].0),
    decreases n,
{
    let before = declared_names(d, (n - 1) as nat);
    if k < n - 1 {
        lemma_declared_names_contain(d, (n - 1) as nat, k);
        let j = choose|j: int| 0 <= j < before.len() && before[j] == d[k].0;
        assert(declared_names(d, n)[j] == d[k].0);
    } else {
        assert(declared_names(d, n)[before.len() as int] == d[k].0);
    }
}

proof fn lemma_built_known(d: Sections, n: nat)
    requires
        n <= d.len(),
    ensures
        all_known(
            execute_all(Seq::empty(), config_commands(d, n)),
            wiped_types(d, d.len()),
            declared_names(d, d.len()),
        ),
    decreases n,
{
    let types = wiped_types(d, d.len());
    let names = declared_names(d, d.len());
    if n > 0 {
        let i = (n - 1) as nat;
        lemma_built_known(d, i);
        let (name, shape) = d[i as int];
        let c = section_commands(d[i as int]);
        let s = execute_all(Seq::empty(), config_commands(d, i));
        lemma_execute_add(Seq::empty(), config_commands(d, i), c);
        match shape {
            Shape::Named(b) => {
                lemma_declared_names_contain(d, d.len(), i as int);
                let options = option_commands(Place::Named(name), b.options, b.options.len());
                lemma_option_commands(Place::Named(name), b.options, b.options.len());
                assert forall|j: int| 0 <= j < c.len() implies makes_known(
                    #[trigger] c[j],
                    types,
                    names,
                ) by {
                    if j >= 2 {
                        assert(c[j] == options[j - 2]);
                    }
                }
            },
            Shape::List(b) => {
                lemma_list_rebuilt(d, i, b);
                lemma_list_commands(b, name, b.len(), types);
                assert forall|j: int| 0 <= j < c.len() implies makes_known(
                    #[trigger] c[j],
                    types,
                    names,
                ) by {
                    assert(of_types(c[j], types));
                }
            },
        }
        lemma_execute_all_known(s, c, types, names);
    }
}

proof fn lemma_not_declared(d: Sections, n: nat, ty: Seq<char>)
    requires
        n <= d.len(),
        forall|j: int| 0 <= j < n ==> !makes_type(#[trigger] d[j], ty),
    ensures
        type_count(declared(d, n), ty) == 0,
    decreases n,
{
    if n > 0 {
        lemma_not_declared(d, (n - 1) as nat, ty);
        assert(!makes_type(d[n - 1], ty));
        match d[n - 1].1 {
            Shape::Named(b) => {
                let h = seq![held(Some(d[n - 1].0), b.ty, b.options)];
                lemma_type_count_add(declared(d, (n - 1) as nat), h, ty);
                lemma_type_count_none(h, ty);
            },
            Shape::List(b) => {
                let h = held_list(b, d[n - 1].0, b.len());
                lemma_held_list_nameless(b, d[n - 1].0, b.len());
                lemma_type_count_add(declared(d, (n - 1) as nat), h, ty);
                assert forall|i: int| 0 <= i < h.len() implies (#[trigger] h[i]).ty != ty by {
                    assert(entry_type(b[i], d[n - 1].0) != ty);
                }
                lemma_type_count_none(h, ty);
            },
        }
    }
}

proof fn lemma_uniform_count(b: Seq<Body>, list: Seq<char>, ty: Seq<char>, n: nat)
    requires
        n <= b.len(),
        forall|i: int| 0 <= i < b.len() ==> entry_type(#[trigger] b[i], list) == ty,
    ensures
        type_count(held_list(b, list, n), ty) == n,
    decreases n,
{
    if n > 0 {
        lemma_uniform_count(b, list, ty, (n - 1) as nat);
        let before = held_list(b, list, (n - 1) as nat);
        assert(held_list(b, list, n).drop_last() =~= before);
        assert(entry_type(b[n - 1], list) == ty);
    }
}

// ---- laws ----

/// Lists whose entries are all of one type, each list of its own, are aligned.
pub proof fn uniform_lists_are_aligned(d: Sections)
    requires
        uniform(d),
    ensures
        aligned(d),
{
    assert forall|k: int| 0 <= k < d.len() implies match (#[trigger] d[k]).1 {
        Shape::List(b) => entries_aligned(declared(d, k as nat), b, d[k].0),
        Shape::Named(_) => true,
    } by {
        if let Shape::List(b) = d[k].1 {
            let list = d[k].0;
            let before = declared(d, k as nat);
            assert forall|i: int|
                0 <= i < b.len() && writes(b[i].options, b[i].options.len()) implies type_count(
                before + #[trigger] held_list(b, list, i as nat),
                entry_type(b[i], list),
            ) == i by {
                let ty = entry_type(b[0], list);
                assert(entry_type(b[i], list) == ty);
                lemma_not_declared(d, k as nat, ty);
                lemma_uniform_count(b, list, ty, i as nat);
                lemma_type_count_add(before, held_list(b, list, i as nat), ty);
            }
        }
    }
}

/// Whatever a configuration file holds, the script leaves in it what the declaration does not
/// speak of, and behind that exactly the declared sections with exactly the declared options: an
/// option or an entry that is no longer declared is gone.
pub proof fn deploying_rebuilds(s: Store, d: Sections)
    requires
        well_keyed(d),
        aligned(d),
    ensures
        deploy(s, d) == untouched(s, d) + declared(d, d.len()),
{
    let types = wiped_types(d, d.len());
    lemma_wipe_all(s, types);
    assert(after(s, d, 0) =~= kept(s, types, Seq::empty()));
    lemma_deploy_prefix(s, d, d.len());
}

/// What a declaration builds out of nothing.
pub open spec fn built(d: Sections) -> Store {
    deploy(Seq::empty(), d)
}

/// Whatever is declared, and whatever a configuration file holds: the script leaves in it what the
/// declaration does not speak of, and behind that what the declaration builds out of nothing.
pub proof fn deploying_starts_afresh(s: Store, d: Sections)
    ensures
        deploy(s, d) == untouched(s, d) + built(d),
{
    let types = wiped_types(d, d.len());
    let nothing = Seq::<Held>::empty();
    lemma_wipe_all(s, types);
    lemma_wipe_all(nothing, types);
    assert(kept(s, types, Seq::empty()) + nothing =~= kept(s, types, Seq::empty()));
    lemma_afresh_prefix(s, d, d.len());
}

/// What a declaration builds goes by a declared name, or has no name and a type that is rebuilt.
pub proof fn built_sections_are_declared(d: Sections, i: int)
    requires
        0 <= i < built(d).len(),
    ensures
        match built(d)[i].name {
            Some(name) => declared_names(d, d.len()).contains(name),
            None => wiped_types(d, d.len()).contains(built(d)[i].ty),
        },
{
    let types = wiped_types(d, d.len());
    let nothing = Seq::<Held>::empty();
    lemma_wipe_all(nothing, types);
    lemma_built_known(d, d.len());
    assert(known(built(d)[i], types, declared_names(d, d.len())));
}

/// Deploying the same declaration again changes nothing.
pub proof fn deploying_is_idempotent(s: Store, d: Sections)
    ensures
        deploy(deploy(s, d), d) == deploy(s, d),
{
    let types = wiped_types(d, d.len());
    let names = declared_names(d, d.len());
    let all = built(d);
    deploying_starts_afresh(s, d);
    deploying_starts_afresh(deploy(s, d), d);
    lemma_kept_add(untouched(s, d), all, types, names);
    lemma_kept_survives(s, types, names);
    lemma_kept_all(untouched(s, d), types, names);
    assert forall|i: int| 0 <= i < all.len() implies !survives(#[trigger] all[i], types, names) by {
        built_sections_are_declared(d, i);
    }
    lemma_kept_none(all, types, names);
    assert(untouched(deploy(s, d), d) =~= untouched(s, d));
}

/// Two files that agree on what a declaration does not speak of are the same after it.
pub proof fn deploying_converges(s: Store, t: Store, d: Sections)
    requires
        untouched(s, d) == untouched(t, d),
    ensures
        deploy(s, d) == deploy(t, d),
{
    deploying_starts_afresh(s, d);
    deploying_starts_afresh(t, d);
}

/// A section that the declaration does not speak of stays as it is.
pub proof fn deploying_leaves_the_rest(s: Store, d: Sections, i: int)
    requires
        0 <= i < s.len(),
        survives(s[i], wiped_types(d, d.len()), declared_names(d, d.len())),
    ensures
        deploy(s, d).contains(s[i]),
{
    deploying_starts_afresh(s, d);
    lemma_kept_contains(s, wiped_types(d, d.len()), declared_names(d, d.len()), i);
    let u = untouched(s, d);
    let k = choose|k: int| 0 <= k < u.len() && u[k] == s[i];
    assert((u + built(d))[k] == s[i]);
}

proof fn lemma_kept_contains(s: Store, types: Seq<Seq<char>>, names: Seq<Seq<char>>, i: int)
    requires
        0 <= i < s.len(),
        survives(s[i], types, names),
    ensures
        kept(s, types, names).contains(s[i]),
    decreases s.len(),
{
    let before = kept(s.drop_last(), types, names);
    if i < s.len() - 1 {
        lemma_kept_contains(s.drop_last(), types, names, i);
        let k = choose|k: int| 0 <= k < before.len() && before[k] == s[i];
        assert(kept(s, types, names)[k] == s[i]);
    } else {
        assert(kept(s, types, names)[before.len() as int] == s[i]);
    }
}

/// Whether a section goes by a name that is not declared.
pub open spec fn stray(h: Held, d: Sections) -> bool {
    match h.name {
        Some(n) => !declared_names(d, d.len()).contains(n),
        None => false,
    }
}

/// A file without the named sections that are not declared.
pub open spec fn without_strays(s: Store, d: Sections) -> Store
    decreases s.len(),
{
    if s.len() == 0 {
        Seq::empty()
    } else if stray(s.last(), d) {
        without_strays(s.drop_last(), d)
    } else {
        without_strays(s.drop_last(), d).push(s.last())
    }
}

proof fn lemma_no_strays(s: Store, d: Sections)
    ensures
        forall|i: int|
            0 <= i < without_strays(s, d).len() ==> !stray(#[trigger] without_strays(s, d)[i], d),
    decreases s.len(),
{
    if s.len() > 0 {
        lemma_no_strays(s.drop_last(), d);
        let before = without_strays(s.drop_last(), d);
        let w = without_strays(s, d);
        assert forall|i: int| 0 <= i < w.len() implies !stray(#[trigger] w[i], d) by {
            if i < before.len() {
                assert(w[i] == before[i]);
            }
        }
    }
}

proof fn lemma_kept_from(s: Store, types: Seq<Seq<char>>, names: Seq<Seq<char>>, i: int)
    requires
        0 <= i < kept(s, types, names).len(),
    ensures
        s.contains(kept(s, types, names)[i]),
    decreases s.len(),
{
    if s.len() > 0 {
        let before = kept(s.drop_last(), types, names);
        if i < before.len() {
            lemma_kept_from(s.drop_last(), types, names, i);
            let k = choose|k: int| 0 <= k < s.drop_last().len() && s.drop_last()[k] == before[i];
            assert(s[k] == before[i]);
            assert(kept(s, types, names)[i] == before[i]);
        } else {
            assert(s[s.len() - 1] == s.last());
        }
    }
}

/// Once the named sections that are not declared are deleted, a deployment leaves no section that
/// goes by a name but under the declared ones, behind what the declaration does not speak of; where
/// the declaration is rebuilt as it stands, these are the declared sections.
pub proof fn no_named_leftovers(s: Store, d: Sections, i: int)
    requires
        0 <= i < deploy(without_strays(s, d), d).len(),
        deploy(without_strays(s, d), d)[i].name is Some,
    ensures
        i >= untouched(without_strays(s, d), d).len(),
        declared_names(d, d.len()).contains(deploy(without_strays(s, d), d)[i].name->Some_0),
        well_keyed(d) && aligned(d) ==> declared(d, d.len()).contains(
            deploy(without_strays(s, d), d)[i],
        ),
{
    let w = without_strays(s, d);
    let types = wiped_types(d, d.len());
    let names = declared_names(d, d.len());
    let u = untouched(w, d);
    deploying_starts_afresh(w, d);
    let h = deploy(w, d)[i];
    if i < u.len() {
        assert(h == u[i]);
        lemma_kept_from(w, types, names, i);
        lemma_no_strays(s, d);
        let k = choose|k: int| 0 <= k < w.len() && w[k] == u[i];
        assert(!stray(w[k], d));
        lemma_kept_survives(w, types, names);
        assert(survives(u[i], types, names));
    } else {
        assert(h == built(d)[i - u.len()]);
        built_sections_are_declared(d, i - u.len());
        if well_keyed(d) && aligned(d) {
            deploying_rebuilds(w, d);
            assert(h == declared(d, d.len())[i - u.len()]);
        }
    }
}

} // verus!
