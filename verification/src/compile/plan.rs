//! What a configuration compiles to, command by command, and how the commands are written.

use crate::compile::describe::debug_text;
use crate::config::models::{Body, Json, Options, Sections, Settings, Shape};
use crate::config::uci_key::{anonymous_section, named_section};
use crate::utils::helpers::escaped;
use vstd::prelude::*;

verus! {

// ---- values ----

/// One value that is assigned to an option: the option's only value, or one more of its list.
pub struct Assign {
    pub list: bool,
    pub text: Seq<char>,
}

/// Whether a value can stand in a list.
pub open spec fn list_value(v: Json) -> bool {
    v is Text || v is Number || v is Bool
}

/// A value of a list as text: truth values are `1` and `0`, in a list as outside of one.
pub open spec fn list_text(v: Json) -> Seq<char> {
    match v {
        Json::Text(s) => s,
        Json::Number(n) => n,
        Json::Bool(b) => if b {
            "1"@
        } else {
            "0"@
        },
        _ => Seq::empty(),
    }
}

/// The position of the first value, from `i` on, that cannot stand in a list; the length where
/// all of them can.
pub open spec fn list_len(items: Seq<Json>, i: int) -> int
    decreases items.len() - i,
{
    if i < 0 || i >= items.len() {
        items.len() as int
    } else if !list_value(items[i]) {
        i
    } else {
        list_len(items, i + 1)
    }
}

/// The values that are assigned to an option: all of them, or those before the first that is
/// not supported.
pub open spec fn assigned(v: Json) -> Seq<Assign> {
    match v {
        Json::Text(s) => seq![Assign { list: false, text: s }],
        Json::Number(n) => seq![Assign { list: false, text: n }],
        Json::Bool(b) => seq![
            Assign {
                list: false,
                text: if b {
                    "1"@
                } else {
                    "0"@
                },
            },
        ],
        Json::Array(items) => list_assigned(items, list_len(items, 0)),
        _ => Seq::empty(),
    }
}

/// The first `n` values of a list.
pub open spec fn list_assigned(items: Seq<Json>, n: int) -> Seq<Assign> {
    Seq::new(n as nat, |i: int| Assign { list: true, text: list_text(items[i]) })
}

/// Why an option cannot have a value.
pub open spec fn value_fault(v: Json) -> Option<Seq<char>> {
    match v {
        Json::Text(_) => None,
        Json::Number(_) => None,
        Json::Bool(_) => None,
        Json::Array(items) => {
            let k = list_len(items, 0);
            if 0 <= k < items.len() {
                Some(debug_text(items[k]) + " is not a supported list value type"@)
            } else {
                None
            }
        },
        _ => Some(debug_text(v) + " is not a supported option value type"@),
    }
}

pub proof fn lemma_list_len(items: Seq<Json>, i: int)
    requires
        0 <= i <= items.len(),
    ensures
        i <= list_len(items, i) <= items.len(),
        forall|j: int| i <= j < list_len(items, i) ==> list_value(#[trigger] items[j]),
    decreases items.len() - i,
{
    if i < items.len() && list_value(items[i]) {
        lemma_list_len(items, i + 1);
    }
}

// ---- commands ----

/// A section that a command speaks of: by name, or as the `idx`th of its type.
pub enum Place {
    Named(Seq<char>),
    Anonymous(Seq<char>, nat),
}

/// A command of the batch for one configuration file.
pub enum Command {
    /// Removes a named section.
    Delete(Seq<char>),
    /// Creates a named section of a type.
    Declare(Seq<char>, Seq<char>),
    /// Appends a section without a name.
    Append(Seq<char>),
    /// Assigns a value to an option.
    Write(Place, Seq<char>, Assign),
}

/// The key of a section.
pub open spec fn place_key(config: Seq<char>, place: Place) -> Seq<char> {
    match place {
        Place::Named(name) => named_section(config, name),
        Place::Anonymous(ty, idx) => anonymous_section(config, ty, idx),
    }
}

/// The line that assigns a value to the option at `key`.
pub open spec fn assign_line(key: Seq<char>, a: Assign) -> Seq<char> {
    let verb = if a.list {
        "add_list "@
    } else {
        "set "@
    };
    verb + key + "='"@ + escaped(a.text) + "'\n"@
}

/// The lines that assign values to the option at `key`.
pub open spec fn assign_lines(key: Seq<char>, a: Seq<Assign>) -> Seq<char>
    decreases a.len(),
{
    if a.len() == 0 {
        Seq::empty()
    } else {
        assign_lines(key, a.drop_last()) + assign_line(key, a.last())
    }
}

/// A command as a line of the batch.
pub open spec fn command_line(config: Seq<char>, c: Command) -> Seq<char> {
    match c {
        Command::Delete(name) => "delete "@ + named_section(config, name) + "\n"@,
        Command::Declare(name, ty) => "set "@ + named_section(config, name) + "="@ + ty + "\n"@,
        Command::Append(ty) => "add "@ + config + " "@ + ty + "\n"@,
        Command::Write(place, opt, a) => assign_line(place_key(config, place) + "."@ + opt, a),
    }
}

/// The lines of a batch.
pub open spec fn command_lines(config: Seq<char>, c: Seq<Command>) -> Seq<char>
    decreases c.len(),
{
    if c.len() == 0 {
        Seq::empty()
    } else {
        command_lines(config, c.drop_last()) + command_line(config, c.last())
    }
}

pub proof fn lemma_command_lines_add(config: Seq<char>, a: Seq<Command>, b: Seq<Command>)
    ensures
        command_lines(config, a + b) == command_lines(config, a) + command_lines(config, b),
    decreases b.len(),
{
    if b.len() == 0 {
        assert(a + b =~= a);
        assert(command_lines(config, a) + command_lines(config, b) =~= command_lines(config, a));
    } else {
        assert((a + b).drop_last() =~= a + b.drop_last());
        lemma_command_lines_add(config, a, b.drop_last());
        assert(command_lines(config, a + b) =~= command_lines(config, a) + command_lines(
            config,
            b,
        ));
    }
}

/// Every command takes a line of its own, so a batch is empty only where it has no commands.
pub proof fn lemma_command_lines_empty(config: Seq<char>, c: Seq<Command>)
    ensures
        command_lines(config, c).len() == 0 <==> c.len() == 0,
{
    if c.len() > 0 {
        reveal_strlit("\n");
        reveal_strlit("'\n");
    }
}

/// The commands that assign a value to an option.
pub open spec fn value_commands(place: Place, opt: Seq<char>, v: Json) -> Seq<Command> {
    Seq::new(assigned(v).len(), |i: int| Command::Write(place, opt, assigned(v)[i]))
}

proof fn lemma_value_lines_prefix(config: Seq<char>, place: Place, opt: Seq<char>, v: Json, n: int)
    requires
        0 <= n <= assigned(v).len(),
    ensures
        command_lines(config, value_commands(place, opt, v).take(n)) == assign_lines(
            place_key(config, place) + "."@ + opt,
            assigned(v).take(n),
        ),
    decreases n,
{
    let c = value_commands(place, opt, v);
    if n > 0 {
        lemma_value_lines_prefix(config, place, opt, v, n - 1);
        assert(c.take(n).drop_last() =~= c.take(n - 1));
        assert(assigned(v).take(n).drop_last() =~= assigned(v).take(n - 1));
    }
}

pub proof fn lemma_value_lines(config: Seq<char>, place: Place, opt: Seq<char>, v: Json)
    ensures
        command_lines(config, value_commands(place, opt, v)) == assign_lines(
            place_key(config, place) + "."@ + opt,
            assigned(v),
        ),
{
    let n = assigned(v).len() as int;
    lemma_value_lines_prefix(config, place, opt, v, n);
    assert(value_commands(place, opt, v).take(n) =~= value_commands(place, opt, v));
    assert(assigned(v).take(n) =~= assigned(v));
}

/// The commands for the first `n` options of a section.
pub open spec fn option_commands(place: Place, o: Options, n: nat) -> Seq<Command>
    decreases n,
{
    if n == 0 || n > o.len() {
        Seq::empty()
    } else {
        option_commands(place, o, (n - 1) as nat) + value_commands(
            place,
            o[n - 1].0,
            o[n - 1].1,
        )
    }
}

/// The type of an entry of a list of sections: its own, or the list's name where it has none.
pub open spec fn entry_type(b: Body, list: Seq<char>) -> Seq<char> {
    if b.ty.len() == 0 {
        list
    } else {
        b.ty
    }
}

/// The commands for entry `i` of a list of sections.
pub open spec fn entry_commands(b: Body, i: nat, list: Seq<char>) -> Seq<Command> {
    let ty = entry_type(b, list);
    seq![Command::Append(ty)] + option_commands(Place::Anonymous(ty, i), b.options, b.options.len())
}

/// The commands for the first `n` entries of a list of sections.
pub open spec fn list_commands(b: Seq<Body>, list: Seq<char>, n: nat) -> Seq<Command>
    decreases n,
{
    if n == 0 || n > b.len() {
        Seq::empty()
    } else {
        list_commands(b, list, (n - 1) as nat) + entry_commands(b[n - 1], (n - 1) as nat, list)
    }
}

/// The commands for a named section: it is removed and built anew.
pub open spec fn named_commands(name: Seq<char>, b: Body) -> Seq<Command> {
    seq![Command::Delete(name), Command::Declare(name, b.ty)] + option_commands(
        Place::Named(name),
        b.options,
        b.options.len(),
    )
}

/// The commands for one declaration of sections.
pub open spec fn section_commands(s: (Seq<char>, Shape)) -> Seq<Command> {
    match s.1 {
        Shape::List(b) => list_commands(b, s.0, b.len()),
        Shape::Named(b) => named_commands(s.0, b),
    }
}

/// The commands for the first `n` declarations of a configuration file.
pub open spec fn config_commands(s: Sections, n: nat) -> Seq<Command>
    decreases n,
{
    if n == 0 || n > s.len() {
        Seq::empty()
    } else {
        config_commands(s, (n - 1) as nat) + section_commands(s[n - 1])
    }
}

// ---- wiping ----

/// The types that occur among the first `n` entries of a list, each of them once.
pub open spec fn list_types(b: Seq<Body>, list: Seq<char>, n: nat) -> Seq<Seq<char>>
    decreases n,
{
    if n == 0 || n > b.len() {
        Seq::empty()
    } else {
        let before = list_types(b, list, (n - 1) as nat);
        let ty = entry_type(b[n - 1], list);
        if before.contains(ty) {
            before
        } else {
            before.push(ty)
        }
    }
}

/// The types that one declaration wipes.
pub open spec fn section_types(s: (Seq<char>, Shape)) -> Seq<Seq<char>> {
    match s.1 {
        Shape::List(b) => list_types(b, s.0, b.len()),
        Shape::Named(_) => Seq::empty(),
    }
}

/// The types that the first `n` declarations wipe.
pub open spec fn wiped_types(s: Sections, n: nat) -> Seq<Seq<char>>
    decreases n,
{
    if n == 0 || n > s.len() {
        Seq::empty()
    } else {
        wiped_types(s, (n - 1) as nat) + section_types(s[n - 1])
    }
}

/// The line that removes every section of a type.
pub open spec fn wipe_line(config: Seq<char>, ty: Seq<char>) -> Seq<char> {
    "while uci -q delete "@ + config + ".@"@ + ty + "[0]; do :; done\n"@
}

pub open spec fn wipe_lines(config: Seq<char>, types: Seq<Seq<char>>) -> Seq<char>
    decreases types.len(),
{
    if types.len() == 0 {
        Seq::empty()
    } else {
        wipe_lines(config, types.drop_last()) + wipe_line(config, types.last())
    }
}

pub proof fn lemma_wipe_lines_add(config: Seq<char>, a: Seq<Seq<char>>, b: Seq<Seq<char>>)
    ensures
        wipe_lines(config, a + b) == wipe_lines(config, a) + wipe_lines(config, b),
    decreases b.len(),
{
    if b.len() == 0 {
        assert(a + b =~= a);
        assert(wipe_lines(config, a) + wipe_lines(config, b) =~= wipe_lines(config, a));
    } else {
        assert((a + b).drop_last() =~= a + b.drop_last());
        lemma_wipe_lines_add(config, a, b.drop_last());
        assert(wipe_lines(config, a + b) =~= wipe_lines(config, a) + wipe_lines(config, b));
    }
}

// ---- whole files ----

/// The script for one configuration file: its lists are wiped, then one batch builds it.
pub open spec fn config_script(config: Seq<char>, s: Sections) -> Seq<char> {
    let wipes = wipe_lines(config, wiped_types(s, s.len()));
    let commands = config_commands(s, s.len());
    if commands.len() == 0 {
        wipes
    } else {
        wipes + "touch /etc/config/"@ + config + "\nuci -q batch <<'UCI_EOF'\n"@ + command_lines(
            config,
            commands,
        ) + "commit "@ + config + "\nUCI_EOF\n"@
    }
}

/// The script for the first `n` configuration files.
pub open spec fn settings_script(s: Settings, n: nat) -> Seq<char>
    decreases n,
{
    if n == 0 || n > s.len() {
        Seq::empty()
    } else {
        settings_script(s, (n - 1) as nat) + config_script(s[n - 1].0, s[n - 1].1)
    }
}

// ---- what cannot be compiled ----

/// The first value among the options from `i` on that cannot be written.
pub open spec fn options_refused(o: Options, i: int) -> Option<Seq<char>>
    decreases o.len() - i,
{
    if i < 0 || i >= o.len() {
        None
    } else {
        match value_fault(o[i].1) {
            Some(m) => Some(m),
            None => options_refused(o, i + 1),
        }
    }
}

pub open spec fn entries_refused(b: Seq<Body>, i: int) -> Option<Seq<char>>
    decreases b.len() - i,
{
    if i < 0 || i >= b.len() {
        None
    } else {
        match options_refused(b[i].options, 0) {
            Some(m) => Some(m),
            None => entries_refused(b, i + 1),
        }
    }
}

pub open spec fn section_refused(s: Shape) -> Option<Seq<char>> {
    match s {
        Shape::List(b) => entries_refused(b, 0),
        Shape::Named(b) => options_refused(b.options, 0),
    }
}

pub open spec fn sections_refused(s: Sections, i: int) -> Option<Seq<char>>
    decreases s.len() - i,
{
    if i < 0 || i >= s.len() {
        None
    } else {
        match section_refused(s[i].1) {
            Some(m) => Some(m),
            None => sections_refused(s, i + 1),
        }
    }
}

/// The first configuration file, from `i` on, that holds a value that cannot be written; the
/// number of files where there is none.
pub open spec fn settings_written(s: Settings, i: int) -> int
    decreases s.len() - i,
{
    if i < 0 || i >= s.len() {
        s.len() as int
    } else if sections_refused(s[i].1, 0) is Some {
        i
    } else {
        settings_written(s, i + 1)
    }
}

/// Why settings cannot be compiled.
pub open spec fn settings_refused(s: Settings) -> Option<Seq<char>> {
    let k = settings_written(s, 0);
    if 0 <= k < s.len() {
        sections_refused(s[k].1, 0)
    } else {
        None
    }
}

} // verus!
