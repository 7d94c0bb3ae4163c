//! Nothing that is declared is left out of the compiled settings, and nothing is added to them.

use crate::compile::plan::{
    assign_line, assign_lines, assigned, command_line, command_lines, config_commands,
    config_script, entries_refused, entry_commands, entry_type, lemma_command_lines_add,
    lemma_list_len, lemma_value_lines, list_commands, list_len, list_types, list_value,
    named_commands, option_commands, options_refused, place_key, section_commands, section_types,
    sections_refused, settings_refused, settings_script, settings_written, value_commands,
    value_fault, wipe_lines, wiped_types, Assign, Command, Place,
};
use crate::config::models::{Body, Json, Options, Sections, Settings, Shape};
use crate::utils::helpers::escaped;
use crate::utils::split::decimal;
use crate::utils::within::{
    behind, lemma_behind_more, lemma_behind_pieces, lemma_flat_last, lemma_within_flat,
    lemma_within_is, lemma_within_more, lemma_within_self, lemma_within_trans, pieces, within,
};
use vstd::prelude::*;

verus! {

// ---- the text of a declaration ----

/// A value that is no list as text.
pub open spec fn plain(v: Json) -> Seq<char> {
    match v {
        Json::Text(s) => s,
        Json::Number(n) => n,
        Json::Bool(b) => if b {
            "1"@
        } else {
            "0"@
        },
        _ => Seq::empty(),
    }
}

/// What gives the option at `key` its value: one line, or one for each item of a list.
pub open spec fn option_text(key: Seq<char>, v: Json) -> Seq<char> {
    match v {
        Json::Array(items) => Seq::new(
            items.len(),
            |i: int| "add_list "@ + key + "='"@ + escaped(plain(items[i])) + "'\n"@,
        ).flatten(),
        _ => "set "@ + key + "='"@ + escaped(plain(v)) + "'\n"@,
    }
}

/// What gives the section at `key` its options.
pub open spec fn options_text(key: Seq<char>, o: Options) -> Seq<char> {
    Seq::new(o.len(), |i: int| option_text(key + "."@ + o[i].0, o[i].1)).flatten()
}

/// What builds a named section anew.
pub open spec fn named_text(config: Seq<char>, name: Seq<char>, b: Body) -> Seq<char> {
    "delete "@ + config + "."@ + name + "\n"@ + "set "@ + config + "."@ + name + "="@ + b.ty
        + "\n"@ + options_text(config + "."@ + name, b.options)
}

/// What appends entry `i` of a list.
pub open spec fn entry_text(config: Seq<char>, list: Seq<char>, b: Body, i: nat) -> Seq<char> {
    let ty = if b.ty.len() == 0 {
        list
    } else {
        b.ty
    };
    "add "@ + config + " "@ + ty + "\n"@ + options_text(
        config + ".@"@ + ty + "["@ + decimal(i) + "]"@,
        b.options,
    )
}

/// What builds one declaration of sections.
pub open spec fn section_text(config: Seq<char>, s: (Seq<char>, Shape)) -> Seq<char> {
    match s.1 {
        Shape::Named(b) => named_text(config, s.0, b),
        Shape::List(b) => Seq::new(
            b.len(),
            |i: int| entry_text(config, s.0, b[i], i as nat),
        ).flatten(),
    }
}

/// Whether there is any section to build.
pub open spec fn builds(s: Sections) -> bool {
    exists|i: int|
        0 <= i < s.len() && match (#[trigger] s[i]).1 {
            Shape::Named(_) => true,
            Shape::List(b) => b.len() > 0,
        }
}

/// What builds a configuration file behind the lines that wipe its lists: the file is made sure
/// of, every section is built in one batch, and the file is committed.
pub open spec fn batch_text(config: Seq<char>, s: Sections) -> Seq<char> {
    if builds(s) {
        "touch /etc/config/"@ + config + "\nuci -q batch <<'UCI_EOF'\n"@ + Seq::new(
            s.len(),
            |i: int| section_text(config, s[i]),
        ).flatten() + "commit "@ + config + "\nUCI_EOF\n"@
    } else {
        Seq::empty()
    }
}

/// What wipes the lists of a configuration file.
pub open spec fn wipes_text(config: Seq<char>, s: Sections) -> Seq<char> {
    let types = wiped_types(s, s.len());
    Seq::new(
        types.len(),
        |k: int| "while uci -q delete "@ + config + ".@"@ + types[k] + "[0]; do :; done\n"@,
    ).flatten()
}

// ---- which values can be written ----

/// Whether a value can be written: a single value, or a list of single values.
pub open spec fn writable(v: Json) -> bool {
    match v {
        Json::Array(items) => forall|i: int|
            0 <= i < items.len() ==> single(#[trigger] items[i]),
        _ => single(v),
    }
}

pub open spec fn single(v: Json) -> bool {
    v is Text || v is Number || v is Bool
}

pub open spec fn options_writable(o: Options) -> bool {
    forall|i: int| 0 <= i < o.len() ==> writable((#[trigger] o[i]).1)
}

pub open spec fn shape_writable(s: Shape) -> bool {
    match s {
        Shape::Named(b) => options_writable(b.options),
        Shape::List(b) => forall|i: int|
            0 <= i < b.len() ==> options_writable((#[trigger] b[i]).options),
    }
}

pub open spec fn sections_writable(s: Sections) -> bool {
    forall|i: int| 0 <= i < s.len() ==> shape_writable((#[trigger] s[i]).1)
}

pub open spec fn settings_writable(s: Settings) -> bool {
    forall|c: int| 0 <= c < s.len() ==> sections_writable((#[trigger] s[c]).1)
}

proof fn lemma_writable(v: Json)
    ensures
        value_fault(v) is None <==> writable(v),
{
    if let Json::Array(items) = v {
        lemma_list_len(items, 0);
        let k = list_len(items, 0);
        if 0 <= k < items.len() {
            lemma_list_stops(items, 0);
            assert(!single(items[k]));
        } else {
            assert forall|i: int| 0 <= i < items.len() implies single(#[trigger] items[i]) by {
                assert(list_value(items[i]));
            }
        }
    }
}

proof fn lemma_list_stops(items: Seq<Json>, i: int)
    requires
        0 <= i <= items.len(),
        list_len(items, i) < items.len(),
    ensures
        !list_value(items[list_len(items, i)]),
    decreases items.len() - i,
{
    if i < items.len() && list_value(items[i]) {
        lemma_list_stops(items, i + 1);
    }
}

proof fn lemma_options_writable(o: Options, i: int)
    requires
        0 <= i <= o.len(),
    ensures
        options_refused(o, i) is None <==> forall|k: int|
            i <= k < o.len() ==> writable((#[trigger] o[k]).1),
    decreases o.len() - i,
{
    if i < o.len() {
        lemma_writable(o[i].1);
        lemma_options_writable(o, i + 1);
    }
}

proof fn lemma_entries_writable(b: Seq<Body>, i: int)
    requires
        0 <= i <= b.len(),
    ensures
        entries_refused(b, i) is None <==> forall|k: int|
            i <= k < b.len() ==> options_writable((#[trigger] b[k]).options),
    decreases b.len() - i,
{
    if i < b.len() {
        lemma_options_writable(b[i].options, 0);
        lemma_entries_writable(b, i + 1);
    }
}

proof fn lemma_sections_writable(s: Sections, i: int)
    requires
        0 <= i <= s.len(),
    ensures
        sections_refused(s, i) is None <==> forall|k: int|
            i <= k < s.len() ==> shape_writable((#[trigger] s[k]).1),
    decreases s.len() - i,
{
    if i < s.len() {
        match s[i].1 {
            Shape::Named(b) => {
                lemma_options_writable(b.options, 0);
            },
            Shape::List(b) => {
                lemma_entries_writable(b, 0);
            },
        }
        lemma_sections_writable(s, i + 1);
    }
}

proof fn lemma_settings_writable(s: Settings, i: int)
    requires
        0 <= i <= s.len(),
    ensures
        i <= settings_written(s, i) <= s.len(),
        settings_written(s, i) == s.len() <==> forall|k: int|
            i <= k < s.len() ==> sections_writable((#[trigger] s[k]).1),
        settings_written(s, i) < s.len() ==> sections_refused(s[settings_written(s, i)].1, 0) is Some,
        forall|k: int|
            i <= k < settings_written(s, i) ==> sections_writable((#[trigger] s[k]).1),
    decreases s.len() - i,
{
    if i < s.len() {
        lemma_sections_writable(s[i].1, 0);
        lemma_settings_writable(s, i + 1);
    }
}

/// Settings are refused if and only if some option, anywhere in them, has a value that cannot be
/// written.
pub proof fn unwritable_values_are_refused(s: Settings)
    ensures
        settings_refused(s) is None <==> settings_writable(s),
{
    lemma_settings_writable(s, 0);
}

// ---- proofs ----

proof fn lemma_assign_lines(key: Seq<char>, a: Seq<Assign>)
    ensures
        assign_lines(key, a) == Seq::new(a.len(), |i: int| assign_line(key, a[i])).flatten(),
    decreases a.len(),
{
    let p = Seq::new(a.len(), |i: int| assign_line(key, a[i]));
    if a.len() > 0 {
        lemma_assign_lines(key, a.drop_last());
        lemma_flat_last(p);
        assert(p.drop_last() =~= Seq::new(
            a.drop_last().len(),
            |i: int| assign_line(key, a.drop_last()[i]),
        ));
    }
}

proof fn lemma_option_text(config: Seq<char>, place: Place, opt: Seq<char>, v: Json)
    requires
        writable(v),
    ensures
        command_lines(config, value_commands(place, opt, v)) == option_text(
            place_key(config, place) + "."@ + opt,
            v,
        ),
{
    let key = place_key(config, place) + "."@ + opt;
    let a = assigned(v);
    lemma_value_lines(config, place, opt, v);
    lemma_assign_lines(key, a);
    let p = Seq::new(a.len(), |i: int| assign_line(key, a[i]));
    match v {
        Json::Array(items) => {
            lemma_writable(v);
            lemma_list_len(items, 0);
            assert(p =~= Seq::new(
                items.len(),
                |i: int| "add_list "@ + key + "='"@ + escaped(plain(items[i])) + "'\n"@,
            )) by {
                assert forall|i: int| 0 <= i < items.len() implies p[i] == "add_list "@ + key + "='"@
                    + escaped(plain(items[i])) + "'\n"@ by {
                    assert(single(items[i]));
                }
            }
        },
        _ => {
            p.lemma_flatten_one_element();
        },
    }
}

proof fn lemma_options_text(config: Seq<char>, place: Place, o: Options, n: nat)
    requires
        n <= o.len(),
        options_writable(o),
    ensures
        command_lines(config, option_commands(place, o, n)) == Seq::new(
            n,
            |i: int| option_text(place_key(config, place) + "."@ + o[i].0, o[i].1),
        ).flatten(),
    decreases n,
{
    let p = Seq::new(n, |i: int| option_text(place_key(config, place) + "."@ + o[i].0, o[i].1));
    if n > 0 {
        lemma_options_text(config, place, o, (n - 1) as nat);
        assert(writable(o[n - 1].1));
        lemma_option_text(config, place, o[n - 1].0, o[n - 1].1);
        lemma_command_lines_add(
            config,
            option_commands(place, o, (n - 1) as nat),
            value_commands(place, o[n - 1].0, o[n - 1].1),
        );
        lemma_flat_last(p);
        assert(p.drop_last() =~= Seq::new(
            (n - 1) as nat,
            |i: int| option_text(place_key(config, place) + "."@ + o[i].0, o[i].1),
        ));
    }
}

proof fn lemma_one_command(config: Seq<char>, c: Command)
    ensures
        command_lines(config, seq![c]) == command_line(config, c),
{
    reveal_with_fuel(command_lines, 2);
    assert(seq![c].drop_last() =~= Seq::empty());
    assert(command_lines(config, seq![c]) =~= command_line(config, c));
}

proof fn lemma_named_text(config: Seq<char>, name: Seq<char>, b: Body)
    requires
        options_writable(b.options),
    ensures
        command_lines(config, named_commands(name, b)) == named_text(config, name, b),
{
    let first = Command::Delete(name);
    let second = Command::Declare(name, b.ty);
    let place = Place::Named(name);
    let rest = option_commands(place, b.options, b.options.len());
    lemma_options_text(config, place, b.options, b.options.len());
    lemma_command_lines_add(config, seq![first, second], rest);
    assert(seq![first, second] =~= seq![first] + seq![second]);
    lemma_command_lines_add(config, seq![first], seq![second]);
    lemma_one_command(config, first);
    lemma_one_command(config, second);
    assert(place_key(config, place) =~= config + "."@ + name);
    assert(command_line(config, first) =~= "delete "@ + config + "."@ + name + "\n"@);
    assert(command_line(config, second) =~= "set "@ + config + "."@ + name + "="@ + b.ty + "\n"@);
    assert(command_lines(config, named_commands(name, b)) =~= named_text(config, name, b));
}

proof fn lemma_entry_text(config: Seq<char>, list: Seq<char>, b: Body, i: nat)
    requires
        options_writable(b.options),
    ensures
        command_lines(config, entry_commands(b, i, list)) == entry_text(config, list, b, i),
{
    let ty = entry_type(b, list);
    let first = Command::Append(ty);
    let place = Place::Anonymous(ty, i);
    let rest = option_commands(place, b.options, b.options.len());
    lemma_options_text(config, place, b.options, b.options.len());
    lemma_command_lines_add(config, seq![first], rest);
    lemma_one_command(config, first);
    assert(place_key(config, place) =~= config + ".@"@ + ty + "["@ + decimal(i) + "]"@);
    assert(command_lines(config, entry_commands(b, i, list)) =~= entry_text(config, list, b, i));
}

proof fn lemma_entries_text(config: Seq<char>, list: Seq<char>, b: Seq<Body>, n: nat)
    requires
        n <= b.len(),
        forall|i: int| 0 <= i < b.len() ==> options_writable((#[trigger] b[i]).options),
    ensures
        command_lines(config, list_commands(b, list, n)) == Seq::new(
            n,
            |i: int| entry_text(config, list, b[i], i as nat),
        ).flatten(),
    decreases n,
{
    let p = Seq::new(n, |i: int| entry_text(config, list, b[i], i as nat));
    if n > 0 {
        let k = (n - 1) as nat;
        lemma_entries_text(config, list, b, k);
        assert(options_writable(b[k as int].options));
        lemma_entry_text(config, list, b[k as int], k);
        lemma_command_lines_add(
            config,
            list_commands(b, list, k),
            entry_commands(b[k as int], k, list),
        );
        lemma_flat_last(p);
        assert(p.drop_last() =~= Seq::new(k, |i: int| entry_text(config, list, b[i], i as nat)));
    }
}

proof fn lemma_sections_text(config: Seq<char>, s: Sections, n: nat)
    requires
        n <= s.len(),
        sections_writable(s),
    ensures
        command_lines(config, config_commands(s, n)) == Seq::new(
            n,
            |i: int| section_text(config, s[i]),
        ).flatten(),
    decreases n,
{
    let p = Seq::new(n, |i: int| section_text(config, s[i]));
    if n > 0 {
        let k = (n - 1) as nat;
        lemma_sections_text(config, s, k);
        assert(shape_writable(s[k as int].1));
        match s[k as int].1 {
            Shape::Named(b) => {
                lemma_named_text(config, s[k as int].0, b);
            },
            Shape::List(b) => {
                lemma_entries_text(config, s[k as int].0, b, b.len());
            },
        }
        lemma_command_lines_add(config, config_commands(s, k), section_commands(s[k as int]));
        lemma_flat_last(p);
        assert(p.drop_last() =~= Seq::new(k, |i: int| section_text(config, s[i])));
    }
}

/// There are commands exactly where there is something to build.
proof fn lemma_builds(s: Sections, n: nat)
    requires
        n <= s.len(),
    ensures
        config_commands(s, n).len() > 0 <==> exists|i: int|
            0 <= i < n && match (#[trigger] s[i]).1 {
                Shape::Named(_) => true,
                Shape::List(b) => b.len() > 0,
            },
    decreases n,
{
    if n > 0 {
        lemma_builds(s, (n - 1) as nat);
        let last = s[n - 1];
        match last.1 {
            Shape::Named(b) => {
                assert(section_commands(last).len() > 0);
            },
            Shape::List(b) => {
                if b.len() > 0 {
                    assert(list_commands(b, last.0, b.len()).len() > 0);
                }
            },
        }
    }
}

proof fn lemma_wipe_lines(config: Seq<char>, types: Seq<Seq<char>>)
    ensures
        wipe_lines(config, types) == Seq::new(
            types.len(),
            |k: int| "while uci -q delete "@ + config + ".@"@ + types[k] + "[0]; do :; done\n"@,
        ).flatten(),
    decreases types.len(),
{
    let p = Seq::new(
        types.len(),
        |k: int| "while uci -q delete "@ + config + ".@"@ + types[k] + "[0]; do :; done\n"@,
    );
    if types.len() > 0 {
        let t = types.drop_last();
        lemma_wipe_lines(config, t);
        lemma_flat_last(p);
        assert(p.drop_last() =~= Seq::new(
            t.len(),
            |k: int| "while uci -q delete "@ + config + ".@"@ + t[k] + "[0]; do :; done\n"@,
        ));
    }
}

proof fn lemma_config_text(config: Seq<char>, s: Sections)
    requires
        sections_writable(s),
    ensures
        config_script(config, s) == wipes_text(config, s) + batch_text(config, s),
{
    lemma_wipe_lines(config, wiped_types(s, s.len()));
    lemma_sections_text(config, s, s.len());
    lemma_builds(s, s.len());
    assert(config_script(config, s) =~= wipes_text(config, s) + batch_text(config, s));
}

proof fn lemma_settings_text(s: Settings, n: nat)
    requires
        n <= s.len(),
        settings_writable(s),
    ensures
        settings_script(s, n) == Seq::new(
            n,
            |c: int| wipes_text(s[c].0, s[c].1) + batch_text(s[c].0, s[c].1),
        ).flatten(),
    decreases n,
{
    let p = Seq::new(n, |c: int| wipes_text(s[c].0, s[c].1) + batch_text(s[c].0, s[c].1));
    if n > 0 {
        let k = (n - 1) as nat;
        lemma_settings_text(s, k);
        assert(sections_writable(s[k as int].1));
        lemma_config_text(s[k as int].0, s[k as int].1);
        lemma_flat_last(p);
        assert(p.drop_last() =~= Seq::new(
            k,
            |c: int| wipes_text(s[c].0, s[c].1) + batch_text(s[c].0, s[c].1),
        ));
    }
}

// ---- laws ----

/// The compiled settings are, file by file in the declared order, the lines that wipe the file's
/// lists and the batch that builds its sections: no file, section, entry, option or item is left
/// out, none comes twice, and there is nothing else.
pub proof fn every_file_is_compiled(s: Settings)
    requires
        settings_refused(s) is None,
    ensures
        settings_script(s, s.len()) == Seq::new(
            s.len(),
            |c: int| wipes_text(s[c].0, s[c].1) + batch_text(s[c].0, s[c].1),
        ).flatten(),
{
    unwritable_values_are_refused(s);
    lemma_settings_text(s, s.len());
}

proof fn lemma_file_within(s: Settings, c: int)
    requires
        settings_refused(s) is None,
        0 <= c < s.len(),
    ensures
        within(
            settings_script(s, s.len()),
            wipes_text(s[c].0, s[c].1) + batch_text(s[c].0, s[c].1),
        ),
{
    every_file_is_compiled(s);
    let p = Seq::new(
        s.len(),
        |c: int| wipes_text(s[c].0, s[c].1) + batch_text(s[c].0, s[c].1),
    );
    lemma_within_flat(p, c);
}

/// Every declaration of sections stands in the compiled settings, in a batch that first makes sure
/// of the file and in the end commits it.
pub proof fn every_section_is_compiled(s: Settings, c: int, i: int)
    requires
        settings_refused(s) is None,
        0 <= c < s.len(),
        0 <= i < s[c].1.len(),
        builds(s[c].1),
    ensures
        ({
            let config = s[c].0;
            let script = settings_script(s, s.len());
            let first = "touch /etc/config/"@ + config + "\nuci -q batch <<'UCI_EOF'\n"@;
            let last = "commit "@ + config + "\nUCI_EOF\n"@;
            &&& behind(script, first, section_text(config, s[c].1[i]))
            &&& behind(script, section_text(config, s[c].1[i]), last)
        }),
{
    let config = s[c].0;
    let d = s[c].1;
    let t = section_text(config, d[i]);
    let first = "touch /etc/config/"@ + config + "\nuci -q batch <<'UCI_EOF'\n"@;
    let last = "commit "@ + config + "\nUCI_EOF\n"@;
    let p = Seq::new(d.len(), |i: int| section_text(config, d[i]));
    let w = wipes_text(config, d);
    let b = batch_text(config, d);
    let e = Seq::<char>::empty();
    lemma_within_flat(p, i);
    lemma_within_self(first);
    lemma_within_self(last);
    lemma_behind_pieces(first, p.flatten(), first, t);
    lemma_behind_pieces(p.flatten(), last, t, last);
    lemma_behind_more(w, first + p.flatten(), last, first, t);
    lemma_behind_more(w + first, p.flatten() + last, e, t, last);
    assert(w + b =~= w + (first + p.flatten()) + last);
    assert(w + b =~= w + first + (p.flatten() + last) + e);
    lemma_file_within(s, c);
    lemma_behind_within(settings_script(s, s.len()), w + b, first, t);
    lemma_behind_within(settings_script(s, s.len()), w + b, t, last);
}

proof fn lemma_behind_within(s: Seq<char>, x: Seq<char>, t: Seq<char>, u: Seq<char>)
    requires
        within(s, x),
        behind(x, t, u),
    ensures
        behind(s, t, u),
{
    let (a, b) = choose|a: Seq<char>, b: Seq<char>| pieces(s, a, x, b);
    lemma_behind_more(a, x, b, t, u);
}

/// Every option of a named section is given its value.
pub proof fn every_named_option_is_written(s: Settings, c: int, i: int, k: int)
    requires
        settings_refused(s) is None,
        0 <= c < s.len(),
        0 <= i < s[c].1.len(),
        s[c].1[i].1 is Named,
        0 <= k < s[c].1[i].1->Named_0.options.len(),
    ensures
        ({
            let (opt, v) = s[c].1[i].1->Named_0.options[k];
            within(
                settings_script(s, s.len()),
                option_text(s[c].0 + "."@ + s[c].1[i].0 + "."@ + opt, v),
            )
        }),
{
    let config = s[c].0;
    let (name, shape) = s[c].1[i];
    let b = shape->Named_0;
    let key = config + "."@ + name;
    let p = Seq::new(
        b.options.len(),
        |j: int| option_text(key + "."@ + b.options[j].0, b.options[j].1),
    );
    lemma_within_flat(p, k);
    let head = "delete "@ + config + "."@ + name + "\n"@ + "set "@ + config + "."@ + name + "="@
        + b.ty + "\n"@;
    lemma_within_more(head, p.flatten(), Seq::empty(), p[k]);
    assert(head + p.flatten() + Seq::<char>::empty() =~= section_text(config, s[c].1[i]));
    assert(builds(s[c].1));
    every_section_is_compiled(s, c, i);
    lemma_behind_first(
        settings_script(s, s.len()),
        section_text(config, s[c].1[i]),
        "commit "@ + config + "\nUCI_EOF\n"@,
    );
    lemma_within_trans(settings_script(s, s.len()), section_text(config, s[c].1[i]), p[k]);
}

proof fn lemma_behind_first(s: Seq<char>, t: Seq<char>, u: Seq<char>)
    requires
        behind(s, t, u),
    ensures
        within(s, t),
{
    let (a, b) = choose|a: Seq<char>, b: Seq<char>|
        #[trigger] pieces(s, a, t, b) && within(b, u);
    lemma_within_is(s, a, t, b);
}

/// Every entry of a list is appended, under its position, behind the line that wipes the sections
/// of its type.
pub proof fn every_entry_is_compiled(s: Settings, c: int, i: int, k: int)
    requires
        settings_refused(s) is None,
        0 <= c < s.len(),
        0 <= i < s[c].1.len(),
        s[c].1[i].1 is List,
        0 <= k < s[c].1[i].1->List_0.len(),
    ensures
        ({
            let b = s[c].1[i].1->List_0[k];
            let ty = if b.ty.len() == 0 {
                s[c].1[i].0
            } else {
                b.ty
            };
            behind(
                settings_script(s, s.len()),
                "while uci -q delete "@ + s[c].0 + ".@"@ + ty + "[0]; do :; done\n"@,
                entry_text(s[c].0, s[c].1[i].0, b, k as nat),
            )
        }),
{
    let config = s[c].0;
    let d = s[c].1;
    let (list, shape) = d[i];
    let b = shape->List_0;
    let ty = entry_type(b[k], list);
    let types = wiped_types(d, d.len());
    lemma_types_wiped(d, d.len(), i, k);
    let j = choose|j: int| 0 <= j < types.len() && types[j] == ty;
    let w = Seq::new(
        types.len(),
        |k: int| "while uci -q delete "@ + config + ".@"@ + types[k] + "[0]; do :; done\n"@,
    );
    lemma_within_flat(w, j);
    let q = Seq::new(b.len(), |i: int| entry_text(config, list, b[i], i as nat));
    lemma_within_flat(q, k);
    let p = Seq::new(d.len(), |i: int| section_text(config, d[i]));
    lemma_within_flat(p, i);
    assert(p[i] == q.flatten());
    lemma_within_trans(p.flatten(), p[i], q[k]);
    let first = "touch /etc/config/"@ + config + "\nuci -q batch <<'UCI_EOF'\n"@;
    let last = "commit "@ + config + "\nUCI_EOF\n"@;
    assert(builds(d)) by {
        assert(d[i].1 is List);
    }
    lemma_within_more(first, p.flatten(), last, q[k]);
    assert(first + p.flatten() + last =~= batch_text(config, d));
    lemma_behind_pieces(wipes_text(config, d), batch_text(config, d), w[j], q[k]);
    lemma_file_within(s, c);
    lemma_behind_within(
        settings_script(s, s.len()),
        wipes_text(config, d) + batch_text(config, d),
        w[j],
        q[k],
    );
}

proof fn lemma_list_types(b: Seq<Body>, list: Seq<char>, n: nat, ty: Seq<char>)
    requires
        n <= b.len(),
    ensures
        list_types(b, list, n).contains(ty) <==> exists|k: int|
            0 <= k < n && entry_type(#[trigger] b[k], list) == ty,
        list_types(b, list, n).no_duplicates(),
    decreases n,
{
    if n > 0 {
        lemma_list_types(b, list, (n - 1) as nat, ty);
        let before = list_types(b, list, (n - 1) as nat);
        let last = entry_type(b[n - 1], list);
        lemma_list_types(b, list, (n - 1) as nat, last);
        if !before.contains(last) {
            assert(before.push(last)[before.len() as int] == last);
            if before.contains(ty) {
                let j = choose|j: int| 0 <= j < before.len() && before[j] == ty;
                assert(before.push(last)[j] == ty);
            }
        }
    }
}

proof fn lemma_wiped_types(s: Sections, n: nat, ty: Seq<char>)
    requires
        n <= s.len(),
    ensures
        wiped_types(s, n).contains(ty) <==> exists|i: int|
            0 <= i < n && section_types(#[trigger] s[i]).contains(ty),
    decreases n,
{
    if n > 0 {
        lemma_wiped_types(s, (n - 1) as nat, ty);
        let a = wiped_types(s, (n - 1) as nat);
        let b = section_types(s[n - 1]);
        if a.contains(ty) {
            let j = choose|j: int| 0 <= j < a.len() && a[j] == ty;
            assert((a + b)[j] == ty);
        }
        if b.contains(ty) {
            let j = choose|j: int| 0 <= j < b.len() && b[j] == ty;
            assert((a + b)[a.len() + j] == ty);
        }
        if (a + b).contains(ty) {
            let j = choose|j: int| 0 <= j < (a + b).len() && (a + b)[j] == ty;
            if j >= a.len() {
                assert(b[j - a.len()] == ty);
            } else {
                assert(a[j] == ty);
            }
        }
    }
}

proof fn lemma_types_wiped(s: Sections, n: nat, i: int, k: int)
    requires
        0 <= i < n <= s.len(),
        s[i].1 is List,
        0 <= k < s[i].1->List_0.len(),
    ensures
        wiped_types(s, n).contains(entry_type(s[i].1->List_0[k], s[i].0)),
{
    let b = s[i].1->List_0;
    let ty = entry_type(b[k], s[i].0);
    lemma_list_types(b, s[i].0, b.len(), ty);
    assert(section_types(s[i]).contains(ty));
    lemma_wiped_types(s, n, ty);
}

/// Exactly the types of the declared lists' entries are wiped: a type that only named sections
/// have, or none, is left alone.
pub proof fn lists_alone_are_wiped(s: Sections, ty: Seq<char>)
    ensures
        wiped_types(s, s.len()).contains(ty) <==> exists|i: int, k: int|
            0 <= i < s.len() && (#[trigger] s[i]).1 is List && 0 <= k < s[i].1->List_0.len() && ty
                == #[trigger] list_entry_type(s[i].1->List_0, k, s[i].0),
{
    lemma_wiped_types(s, s.len(), ty);
    if wiped_types(s, s.len()).contains(ty) {
        let i = choose|i: int| 0 <= i < s.len() && section_types(#[trigger] s[i]).contains(ty);
        let b = s[i].1->List_0;
        lemma_list_types(b, s[i].0, b.len(), ty);
        let k = choose|k: int| 0 <= k < b.len() && entry_type(#[trigger] b[k], s[i].0) == ty;
        assert(ty == list_entry_type(s[i].1->List_0, k, s[i].0));
    }
    if exists|i: int, k: int|
        0 <= i < s.len() && (#[trigger] s[i]).1 is List && 0 <= k < s[i].1->List_0.len() && ty
            == #[trigger] list_entry_type(s[i].1->List_0, k, s[i].0) {
        let (i, k) = choose|i: int, k: int|
            0 <= i < s.len() && (#[trigger] s[i]).1 is List && 0 <= k < s[i].1->List_0.len() && ty
                == #[trigger] list_entry_type(s[i].1->List_0, k, s[i].0);
        lemma_types_wiped(s, s.len(), i, k);
    }
}

/// The type of an entry: its own, or the name of its list.
pub open spec fn list_entry_type(b: Seq<Body>, k: int, list: Seq<char>) -> Seq<char> {
    if b[k].ty.len() == 0 {
        list
    } else {
        b[k].ty
    }
}

} // verus!
