//! Which options of a configuration are worth a warning.

use crate::config::models::{Body, Json, Options, Sections, Settings, Shape};
use crate::config::rules::{
    config_well, named_well, names_and_types, options_well, section_well,
    settings_pass_where_they_meet_the_rules, settings_well, typed_well,
};
use crate::config::validation::{
    config_fault, items_warnings, list_path, option_warning, options_fault, options_warnings,
    section_fault, section_warnings, sections_fault, sections_warnings, settings_fault,
    settings_warnings,
};
use crate::utils::split::decimal;
use vstd::prelude::*;

verus! {

/// What is said of an option of the section at `path`: an empty text is as good as none.
pub open spec fn option_notice(config: Seq<char>, path: Seq<char>, o: (Seq<char>, Json)) -> Seq<
    Seq<char>,
> {
    if o.1 is Text && o.1->Text_0.len() == 0 {
        seq![
            "Warning: "@ + config + "."@ + path + "."@ + o.0
                + " is empty string \u{2014} UCI treats '' as unset. Consider omitting it."@,
        ]
    } else {
        Seq::empty()
    }
}

pub open spec fn options_notice(config: Seq<char>, path: Seq<char>, o: Options) -> Seq<Seq<char>> {
    Seq::new(o.len(), |i: int| option_notice(config, path, o[i])).flatten()
}

/// An entry of a list is referred to by the list's name and its position.
pub open spec fn section_notice(config: Seq<char>, s: (Seq<char>, Shape)) -> Seq<Seq<char>> {
    match s.1 {
        Shape::Named(b) => options_notice(config, s.0, b.options),
        Shape::List(b) => Seq::new(
            b.len(),
            |i: int|
                options_notice(
                    config,
                    "@"@ + s.0 + "["@ + decimal(i as nat) + "]"@,
                    b[i].options,
                ),
        ).flatten(),
    }
}

pub open spec fn config_notice(c: (Seq<char>, Sections)) -> Seq<Seq<char>> {
    Seq::new(c.1.len(), |i: int| section_notice(c.0, c.1[i])).flatten()
}

proof fn lemma_flat_first(p: Seq<Seq<Seq<char>>>)
    requires
        p.len() > 0,
    ensures
        p.flatten() == p[0] + p.skip(1).flatten(),
{
    assert(p.drop_first() =~= p.skip(1));
}

proof fn lemma_options(o: Options, i: int, config: Seq<char>, path: Seq<char>)
    requires
        0 <= i <= o.len(),
        options_well(o),
    ensures
        options_warnings(o, i, config, path) == Seq::new(
            o.len(),
            |k: int| option_notice(config, path, o[k]),
        ).skip(i).flatten(),
        options_fault(o, i, config, path) is None,
    decreases o.len() - i,
{
    let p = Seq::new(o.len(), |k: int| option_notice(config, path, o[k]));
    if i < o.len() {
        assert(named_well(o[i].0) && !(o[i].1 is Null));
        names_and_types(o[i].0);
        lemma_options(o, i + 1, config, path);
        lemma_flat_first(p.skip(i));
        assert(p.skip(i).skip(1) =~= p.skip(i + 1));
        if o[i].1 is Text && o[i].1->Text_0.len() == 0 {
            assert(o[i].1->Text_0 =~= Seq::empty());
        }
        assert(option_warning(o[i], config, path) == p[i]);
    }
}

proof fn lemma_items(b: Seq<Body>, i: int, config: Seq<char>, section: Seq<char>)
    requires
        0 <= i <= b.len(),
        forall|k: int|
            0 <= k < b.len() ==> typed_well((#[trigger] b[k]).ty) && options_well(b[k].options),
    ensures
        items_warnings(b, i, config, section) == Seq::new(
            b.len(),
            |k: int|
                options_notice(
                    config,
                    "@"@ + section + "["@ + decimal(k as nat) + "]"@,
                    b[k].options,
                ),
        ).skip(i).flatten(),
    decreases b.len() - i,
{
    let p = Seq::new(
        b.len(),
        |k: int|
            options_notice(
                config,
                "@"@ + section + "["@ + decimal(k as nat) + "]"@,
                b[k].options,
            ),
    );
    if i < b.len() {
        assert(typed_well(b[i].ty) && options_well(b[i].options));
        names_and_types(b[i].ty);
        let path = list_path(section, i as nat);
        lemma_options(b[i].options, 0, config, path);
        let q = Seq::new(
            b[i].options.len(),
            |k: int| option_notice(config, path, b[i].options[k]),
        );
        assert(q.skip(0) =~= q);
        lemma_items(b, i + 1, config, section);
        lemma_flat_first(p.skip(i));
        assert(p.skip(i).skip(1) =~= p.skip(i + 1));
        assert(p[i] == q.flatten());
    }
}

proof fn lemma_section(s: (Seq<char>, Shape), config: Seq<char>)
    requires
        section_well(s),
    ensures
        section_warnings(s, config) == section_notice(config, s),
{
    names_and_types(s.0);
    match s.1 {
        Shape::Named(b) => {
            names_and_types(b.ty);
            lemma_options(b.options, 0, config, s.0);
            let q = Seq::new(b.options.len(), |k: int| option_notice(config, s.0, b.options[k]));
            assert(q.skip(0) =~= q);
        },
        Shape::List(b) => {
            lemma_items(b, 0, config, s.0);
            let q = Seq::new(
                b.len(),
                |k: int|
                    options_notice(
                        config,
                        "@"@ + s.0 + "["@ + decimal(k as nat) + "]"@,
                        b[k].options,
                    ),
            );
            assert(q.skip(0) =~= q);
        },
    }
}

proof fn lemma_sections(s: Sections, i: int, config: Seq<char>)
    requires
        0 <= i <= s.len(),
        forall|k: int| 0 <= k < s.len() ==> section_well(#[trigger] s[k]),
        forall|k: int| 0 <= k < s.len() ==> section_fault(#[trigger] s[k], config) is None,
    ensures
        sections_warnings(s, i, config) == Seq::new(
            s.len(),
            |k: int| section_notice(config, s[k]),
        ).skip(i).flatten(),
    decreases s.len() - i,
{
    let p = Seq::new(s.len(), |k: int| section_notice(config, s[k]));
    if i < s.len() {
        assert(section_well(s[i]));
        assert(section_fault(s[i], config) is None);
        lemma_section(s[i], config);
        lemma_sections(s, i + 1, config);
        lemma_flat_first(p.skip(i));
        assert(p.skip(i).skip(1) =~= p.skip(i + 1));
    }
}

proof fn lemma_no_fault(s: Sections, i: int, config: Seq<char>)
    requires
        0 <= i <= s.len(),
        sections_fault(s, i, config) is None,
    ensures
        forall|k: int| i <= k < s.len() ==> section_fault(#[trigger] s[k], config) is None,
    decreases s.len() - i,
{
    if i < s.len() {
        lemma_no_fault(s, i + 1, config);
    }
}

proof fn lemma_settings(s: Settings, i: int)
    requires
        0 <= i <= s.len(),
        settings_well(s),
        settings_fault(s, i) is None,
    ensures
        settings_warnings(s, i) == Seq::new(s.len(), |c: int| config_notice(s[c])).skip(
            i,
        ).flatten(),
    decreases s.len() - i,
{
    let p = Seq::new(s.len(), |c: int| config_notice(s[c]));
    if i < s.len() {
        assert(config_well(s[i]));
        names_and_types(s[i].0);
        assert(config_fault(s[i]) is None);
        lemma_no_fault(s[i].1, 0, s[i].0);
        lemma_sections(s[i].1, 0, s[i].0);
        let q = Seq::new(s[i].1.len(), |k: int| section_notice(s[i].0, s[i].1[k]));
        assert(q.skip(0) =~= q);
        lemma_settings(s, i + 1);
        lemma_flat_first(p.skip(i));
        assert(p.skip(i).skip(1) =~= p.skip(i + 1));
        assert(p[i] == q.flatten());
    }
}

/// In settings that meet the rules, exactly the options with an empty text are warned of, each by
/// its file, its section and its name, in the declared order.
pub proof fn empty_texts_alone_are_warned_of(s: Settings)
    requires
        settings_well(s),
    ensures
        settings_warnings(s, 0) == Seq::new(s.len(), |c: int| config_notice(s[c])).flatten(),
{
    settings_pass_where_they_meet_the_rules(s);
    lemma_settings(s, 0);
    let p = Seq::new(s.len(), |c: int| config_notice(s[c]));
    assert(p.skip(0) =~= p);
}

} // verus!
