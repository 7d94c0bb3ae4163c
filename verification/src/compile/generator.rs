//! Writes UCI commands and package installs.

use crate::compile::describe::{debug_text, describe};
use crate::compile::plan::{
    assign_line, assign_lines, assigned, command_line, command_lines, config_commands,
    config_script, entries_refused, entry_type, lemma_command_lines_add, lemma_command_lines_empty,
    lemma_list_len, lemma_value_lines, lemma_wipe_lines_add, list_assigned, list_commands, list_len,
    list_text, list_types, list_value, named_commands, option_commands, options_refused, place_key,
    section_commands, section_types, sections_refused, settings_refused, settings_script,
    settings_written, value_commands, value_fault, wipe_line, wipe_lines, wiped_types, Assign,
    Command, Place,
};
use crate::config::models::{
    bodies, config_entries, list_configs, list_options, list_sections, option_entries,
    section_entries, Section, SectionData, Value,
};
use crate::config::uci_key::{anonymous_option_key, named_option_key, named_section_key};
use crate::config::validation::reports;
use crate::utils::error::{ConfigError, Failure};
use crate::utils::helpers::push_escaped_single_quotes;
use crate::utils::text::{has_item, texts};
use indexmap::IndexMap;
use vstd::prelude::*;

verus! {

// ---- options ----

/// Writes the line that assigns one value.
fn push_assign(writer: &mut String, list: bool, key: &str, text: &str)
    ensures
        final(writer)@ == old(writer)@ + assign_line(key@, (Assign { list, text: text@ })),
{
    let mut line = if list {
        "add_list ".to_owned()
    } else {
        "set ".to_owned()
    };
    line.append(key);
    line.append("='");
    push_escaped_single_quotes(&mut line, text);
    line.append("'\n");
    writer.append(line.as_str());
}

/// The text of a value of a list.
fn list_value_text(v: &Value) -> (r: Option<String>)
    ensures
        r is Some <==> list_value(v@),
        r matches Some(t) ==> t@ == list_text(v@),
{
    match v {
        Value::Text(s) => Some(s.clone()),
        Value::Number(n) => Some(n.clone()),
        Value::Bool(b) => if *b {
            Some("1".to_owned())
        } else {
            Some("0".to_owned())
        },
        _ => None,
    }
}

fn refused(v: &Value, why: &str) -> (r: ConfigError)
    ensures
        r@ == Failure::Validation(debug_text(v@) + why@),
{
    let mut m = describe(v);
    m.append(why);
    ConfigError::Validation(m)
}

/// Writes the lines that give the option at `key` its value. Of a list with a value that is
/// not supported, the values before it are written.
pub fn serialize_option_val(writer: &mut String, key: &str, val: &Value) -> (r: Result<
    (),
    ConfigError,
>)
    ensures
        reports(r, value_fault(val@)),
        final(writer)@ == old(writer)@ + assign_lines(key@, assigned(val@)),
{
    let ghost start = writer@;
    match val {
        Value::Text(s) => {
            push_assign(writer, false, key, s.as_str());
            proof {
                lemma_one_line(key@, Assign { list: false, text: s@ });
            }
            Ok(())
        },
        Value::Number(n) => {
            push_assign(writer, false, key, n.as_str());
            proof {
                lemma_one_line(key@, Assign { list: false, text: n@ });
            }
            Ok(())
        },
        Value::Bool(b) => {
            let t = if *b {
                "1"
            } else {
                "0"
            };
            push_assign(writer, false, key, t);
            proof {
                lemma_one_line(key@, Assign { list: false, text: t@ });
            }
            Ok(())
        },
        Value::Array(items) => {
            let ghost js = val@->Array_0;
            let mut i: usize = 0;
            proof {
                lemma_list_len(js, 0);
                assert(list_assigned(js, 0) =~= Seq::empty());
                assert(writer@ =~= start + assign_lines(key@, list_assigned(js, 0)));
            }
            while i < items.len()
                invariant
                    i <= items@.len() == js.len(),
                    *val == Value::Array(*items),
                    js == val@->Array_0,
                    list_len(js, 0) == list_len(js, i as int),
                    i <= list_len(js, 0) <= js.len(),
                    writer@ == start + assign_lines(key@, list_assigned(js, i as int)),
                    start == old(writer)@,
                decreases items@.len() - i,
            {
                assert(js[i as int] == items@[i as int]@);
                match list_value_text(&items[i]) {
                    Some(t) => {
                        push_assign(writer, true, key, t.as_str());
                        proof {
                            let next = list_assigned(js, i + 1);
                            assert(next.drop_last() =~= list_assigned(js, i as int));
                            assert(writer@ =~= start + assign_lines(key@, next));
                            lemma_list_len(js, i + 1);
                        }
                    },
                    None => {
                        return Err(refused(&items[i], " is not a supported list value type"));
                    },
                }
                i += 1;
            }
            Ok(())
        },
        _ => {
            assert(writer@ =~= start + assign_lines(key@, assigned(val@)));
            Err(refused(val, " is not a supported option value type"))
        },
    }
}

proof fn lemma_one_line(key: Seq<char>, a: Assign)
    ensures
        assign_lines(key, seq![a]) == assign_line(key, a),
{
    reveal_with_fuel(assign_lines, 2);
    assert(seq![a].drop_last() =~= Seq::empty());
    assert(Seq::<char>::empty() + assign_line(key, a) =~= assign_line(key, a));
}

/// Writes the options of a section.
fn serialize_options(
    writer: &mut String,
    config_name: &str,
    section: &str,
    anonymous: Option<usize>,
    options: &IndexMap<String, Value>,
) -> (r: Result<(), ConfigError>)
    ensures
        reports(r, options_refused(option_entries(*options), 0)),
        r is Ok ==> final(writer)@ == old(writer)@ + command_lines(
            config_name@,
            option_commands(
                place_of(section@, anonymous),
                option_entries(*options),
                option_entries(*options).len(),
            ),
        ),
{
    let list = list_options(options);
    let ghost o = option_entries(*options);
    let ghost place = place_of(section@, anonymous);
    let ghost start = writer@;
    let mut i: usize = 0;
    assert(writer@ =~= start + command_lines(config_name@, option_commands(place, o, 0)));
    while i < list.len()
        invariant
            i <= list@.len() == o.len(),
            o == option_entries(*options),
            forall|k: int|
                0 <= k < list@.len() ==> (#[trigger] list@[k]).0@ == o[k].0 && list@[k].1@
                    == o[k].1,
            options_refused(o, 0) == options_refused(o, i as int),
            place == place_of(section@, anonymous),
            writer@ == start + command_lines(config_name@, option_commands(place, o, i as nat)),
            start == old(writer)@,
        decreases list@.len() - i,
    {
        let (name, value) = list[i];
        assert(o[i as int] == (name@, value@));
        let key = match anonymous {
            Some(idx) => anonymous_option_key(config_name, section, idx, name.as_str()),
            None => named_option_key(config_name, section, name.as_str()),
        };
        assert(key@ == place_key(config_name@, place) + "."@ + name@);
        match serialize_option_val(writer, key.as_str(), value) {
            Ok(_) => {},
            Err(e) => {
                return Err(e);
            },
        }
        proof {
            let done = option_commands(place, o, i as nat);
            let more = value_commands(place, name@, value@);
            lemma_value_lines(config_name@, place, name@, value@);
            lemma_command_lines_add(config_name@, done, more);
            assert(option_commands(place, o, (i + 1) as nat) == done + more);
            assert(writer@ =~= start + command_lines(config_name@, done + more));
        }
        i += 1;
    }
    Ok(())
}

/// The section of a name, or the `idx`th of a type.
pub open spec fn place_of(section: Seq<char>, anonymous: Option<usize>) -> Place {
    match anonymous {
        Some(idx) => Place::Anonymous(section, idx as nat),
        None => Place::Named(section),
    }
}

// ---- sections ----

pub fn list_type_of<'a>(item: &'a SectionData, fallback: &'a str) -> (r: &'a str)
    ensures
        r@ == entry_type(item@, fallback@),
{
    if item.section_type.as_str().is_empty() {
        fallback
    } else {
        item.section_type.as_str()
    }
}

/// Writes the lines that remove every section of the types of a list, once for each type.
fn wipe_list(writer: &mut String, config_name: &str, section_name: &str, items: &Vec<SectionData>)
    ensures
        final(writer)@ == old(writer)@ + wipe_lines(
            config_name@,
            list_types(bodies(items@), section_name@, items@.len()),
        ),
{
    let ghost b = bodies(items@);
    let ghost start = writer@;
    let mut wiped: Vec<String> = Vec::new();
    let mut i: usize = 0;
    proof {
        assert(texts(wiped@) =~= list_types(b, section_name@, 0));
        assert(writer@ =~= start + wipe_lines(config_name@, texts(wiped@)));
    }
    while i < items.len()
        invariant
            i <= items@.len() == b.len(),
            b == bodies(items@),
            texts(wiped@) == list_types(b, section_name@, i as nat),
            writer@ == start + wipe_lines(config_name@, texts(wiped@)),
        decreases items@.len() - i,
    {
        let ty = list_type_of(&items[i], section_name);
        if !has_item(&wiped, ty) {
            let ghost done = texts(wiped@);
            let mut line = "while uci -q delete ".to_owned();
            line.append(config_name);
            line.append(".@");
            line.append(ty);
            line.append("[0]; do :; done\n");
            assert(line@ == wipe_line(config_name@, ty@));
            writer.append(line.as_str());
            wiped.push(ty.to_owned());
            proof {
                assert(texts(wiped@) =~= done.push(ty@));
                assert(done.push(ty@).drop_last() =~= done);
                assert(writer@ =~= start + wipe_lines(config_name@, texts(wiped@)));
            }
        }
        i += 1;
    }
}

/// Writes the commands that append the entries of a list.
fn build_list(
    writer: &mut String,
    config_name: &str,
    section_name: &str,
    items: &Vec<SectionData>,
) -> (r: Result<(), ConfigError>)
    ensures
        reports(r, entries_refused(bodies(items@), 0)),
        r is Ok ==> final(writer)@ == old(writer)@ + command_lines(
            config_name@,
            list_commands(bodies(items@), section_name@, items@.len()),
        ),
{
    let ghost b = bodies(items@);
    let ghost start = writer@;
    let mut i: usize = 0;
    assert(writer@ =~= start + command_lines(config_name@, list_commands(b, section_name@, 0)));
    while i < items.len()
        invariant
            i <= items@.len() == b.len(),
            b == bodies(items@),
            entries_refused(b, 0) == entries_refused(b, i as int),
            writer@ == start + command_lines(
                config_name@,
                list_commands(b, section_name@, i as nat),
            ),
            start == old(writer)@,
        decreases items@.len() - i,
    {
        let item = &items[i];
        let ty = list_type_of(item, section_name);
        let mut line = "add ".to_owned();
        line.append(config_name);
        line.append(" ");
        line.append(ty);
        line.append("\n");
        writer.append(line.as_str());
        match serialize_options(writer, config_name, ty, Some(i), &item.options) {
            Ok(_) => {},
            Err(e) => {
                return Err(e);
            },
        }
        proof {
            let config = config_name@;
            let done = list_commands(b, section_name@, i as nat);
            let head = seq![Command::Append(ty@)];
            let rest = option_commands(
                Place::Anonymous(ty@, i as nat),
                b[i as int].options,
                b[i as int].options.len(),
            );
            lemma_one_command(config, Command::Append(ty@));
            lemma_command_lines_add(config, head, rest);
            lemma_command_lines_add(config, done, head + rest);
            assert(writer@ =~= start + (command_lines(config, done) + (command_lines(config, head)
                + command_lines(config, rest))));
        }
        i += 1;
    }
    Ok(())
}

/// Writes the commands that remove a named section and build it anew.
fn build_named(writer: &mut String, config_name: &str, section_name: &str, data: &SectionData) -> (r:
    Result<(), ConfigError>)
    ensures
        reports(r, options_refused(data@.options, 0)),
        r is Ok ==> final(writer)@ == old(writer)@ + command_lines(
            config_name@,
            named_commands(section_name@, data@),
        ),
{
    let ghost start = writer@;
    let ty = data.section_type.as_str();
    let mut delete = "delete ".to_owned();
    delete.append(named_section_key(config_name, section_name).as_str());
    delete.append("\n");
    writer.append(delete.as_str());
    let mut declare = "set ".to_owned();
    declare.append(named_section_key(config_name, section_name).as_str());
    declare.append("=");
    declare.append(ty);
    declare.append("\n");
    writer.append(declare.as_str());
    match serialize_options(writer, config_name, section_name, None, &data.options) {
        Ok(_) => {},
        Err(e) => {
            return Err(e);
        },
    }
    proof {
        let config = config_name@;
        let first = Command::Delete(section_name@);
        let second = Command::Declare(section_name@, ty@);
        let rest = option_commands(
            Place::Named(section_name@),
            data@.options,
            data@.options.len(),
        );
        lemma_one_command(config, first);
        lemma_one_command(config, second);
        lemma_command_lines_add(config, seq![first], seq![second]);
        assert(seq![first] + seq![second] =~= seq![first, second]);
        lemma_command_lines_add(config, seq![first, second], rest);
        assert(writer@ =~= start + ((command_line(config, first) + command_line(config, second))
            + command_lines(config, rest)));
    }
    Ok(())
}

proof fn lemma_one_command(config: Seq<char>, c: Command)
    ensures
        command_lines(config, seq![c]) == command_line(config, c),
{
    reveal_with_fuel(command_lines, 2);
    assert(seq![c].drop_last() =~= Seq::empty());
    assert(Seq::<char>::empty() + command_line(config, c) =~= command_line(config, c));
}

/// Writes the script for one configuration file. Where one of its values cannot be written,
/// nothing is.
fn serialize_config(writer: &mut String, config_name: &str, sections: &IndexMap<String, Section>) -> (r:
    Result<(), ConfigError>)
    ensures
        reports(r, sections_refused(section_entries(*sections), 0)),
        final(writer)@ == if r is Ok {
            old(writer)@ + config_script(config_name@, section_entries(*sections))
        } else {
            old(writer)@
        },
{
    let list = list_sections(sections);
    let ghost s = section_entries(*sections);
    let mut shell = String::new();
    let mut batch = String::new();
    let mut i: usize = 0;
    proof {
        assert(shell@ =~= wipe_lines(config_name@, wiped_types(s, 0)));
        assert(batch@ =~= command_lines(config_name@, config_commands(s, 0)));
    }
    while i < list.len()
        invariant
            i <= list@.len() == s.len(),
            forall|k: int|
                0 <= k < list@.len() ==> (#[trigger] list@[k]).0@ == s[k].0 && list@[k].1@
                    == s[k].1,
            s == section_entries(*sections),
            sections_refused(s, 0) == sections_refused(s, i as int),
            shell@ == wipe_lines(config_name@, wiped_types(s, i as nat)),
            batch@ == command_lines(config_name@, config_commands(s, i as nat)),
            writer@ == old(writer)@,
        decreases list@.len() - i,
    {
        let (section_name, section) = list[i];
        assert(s[i as int] == (section_name@, section@));
        match section {
            Section::List(items) => {
                wipe_list(&mut shell, config_name, section_name.as_str(), items);
                match build_list(&mut batch, config_name, section_name.as_str(), items) {
                    Ok(_) => {},
                    Err(e) => {
                        return Err(e);
                    },
                }
            },
            Section::Named(data) => {
                match build_named(&mut batch, config_name, section_name.as_str(), data) {
                    Ok(_) => {},
                    Err(e) => {
                        return Err(e);
                    },
                }
            },
        }
        proof {
            let types = section_types(s[i as int]);
            lemma_wipe_lines_add(config_name@, wiped_types(s, i as nat), types);
            lemma_command_lines_add(
                config_name@,
                config_commands(s, i as nat),
                section_commands(s[i as int]),
            );
            assert(shell@ =~= wipe_lines(config_name@, wiped_types(s, (i + 1) as nat)));
        }
        i += 1;
    }
    proof {
        lemma_command_lines_empty(config_name@, config_commands(s, s.len()));
    }
    let mut script = shell;
    if !batch.as_str().is_empty() {
        script.append("touch /etc/config/");
        script.append(config_name);
        script.append("\nuci -q batch <<'UCI_EOF'\n");
        script.append(batch.as_str());
        script.append("commit ");
        script.append(config_name);
        script.append("\nUCI_EOF\n");
    }
    assert(script@ == config_script(config_name@, s));
    writer.append(script.as_str());
    Ok(())
}

/// Writes the script for all configuration files, in their order. Where a value cannot be
/// written, the script stops before the file that holds it.
pub fn serialize_uci(
    writer: &mut String,
    configs: &IndexMap<String, IndexMap<String, Section>>,
) -> (r: Result<(), ConfigError>)
    ensures
        reports(r, settings_refused(config_entries(*configs))),
        final(writer)@ == old(writer)@ + settings_script(
            config_entries(*configs),
            settings_written(config_entries(*configs), 0) as nat,
        ),
{
    let list = list_configs(configs);
    let ghost s = config_entries(*configs);
    let ghost start = writer@;
    let mut i: usize = 0;
    assert(writer@ =~= start + settings_script(s, 0));
    while i < list.len()
        invariant
            i <= list@.len() == s.len(),
            s == config_entries(*configs),
            forall|k: int|
                0 <= k < list@.len() ==> (#[trigger] list@[k]).0@ == s[k].0 && section_entries(
                    *list@[k].1,
                ) == s[k].1,
            settings_written(s, 0) == settings_written(s, i as int),
            writer@ == start + settings_script(s, i as nat),
            start == old(writer)@,
        decreases list@.len() - i,
    {
        let (config_name, sections) = list[i];
        assert(s[i as int] == (config_name@, section_entries(*sections)));
        match serialize_config(writer, config_name.as_str(), sections) {
            Ok(_) => {},
            Err(e) => {
                return Err(e);
            },
        }
        assert(writer@ =~= start + settings_script(s, (i + 1) as nat));
        i += 1;
    }
    Ok(())
}

} // verus!
