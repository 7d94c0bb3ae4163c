//! What a configuration becomes once its secrets are in place.

use crate::compile::secrets::{
    asks_in_vain, interpolated, missing_secrets_refuse_the_configuration, options_fail,
    root_missing, root_resolved, sections_fail, text_fails, value_fails, value_resolved, Secrets,
};
use crate::config::models::{Declared, Json, Options, Shape};
use vstd::prelude::*;

verus! {

/// Whether one value is another with its secrets: each text, alone or at any depth of lists, has
/// given way to what it resolves to, and nothing else has changed.
pub open spec fn stands_for(w: Json, v: Json, m: Secrets) -> bool
    decreases v,
{
    match v {
        Json::Text(s) => w is Text && interpolated(s, m) == Ok::<Seq<char>, Seq<char>>(w->Text_0),
        Json::Array(items) => w is Array && w->Array_0.len() == items.len() && forall|i: int|
            0 <= i < items.len() ==> stands_for(w->Array_0[i], #[trigger] items[i], m),
        _ => w == v,
    }
}

/// Whether options are others with their secrets: as many, in the same order and under the same
/// names.
pub open spec fn options_stand_for(p: Options, o: Options, m: Secrets) -> bool {
    p.len() == o.len() && forall|k: int|
        #![trigger p[k]]
        #![trigger o[k]]
        0 <= k < o.len() ==> p[k].0 == o[k].0 && stands_for(p[k].1, o[k].1, m)
}

/// Whether a declaration is another with its secrets.
pub open spec fn shape_stands_for(t: Shape, s: Shape, m: Secrets) -> bool {
    match s {
        Shape::Named(b) => t is Named && t->Named_0.ty == b.ty && options_stand_for(
            t->Named_0.options,
            b.options,
            m,
        ),
        Shape::List(b) => t is List && t->List_0.len() == b.len() && forall|k: int|
            #![trigger t->List_0[k]]
            #![trigger b[k]]
            0 <= k < b.len() ==> t->List_0[k].ty == b[k].ty && options_stand_for(
                t->List_0[k].options,
                b[k].options,
                m,
            ),
    }
}

/// Whether feeds are others with their secrets.
pub open spec fn feeds_stand_for(g: Seq<Seq<char>>, f: Seq<Seq<char>>, m: Secrets) -> bool {
    g.len() == f.len() && forall|k: int|
        #![trigger g[k]]
        #![trigger f[k]]
        0 <= k < f.len() ==> interpolated(f[k], m) == Ok::<Seq<char>, Seq<char>>(g[k])
}

proof fn lemma_value(v: Json, m: Secrets)
    requires
        !value_fails(v, m),
    ensures
        stands_for(value_resolved(v, m), v, m),
    decreases v,
{
    if let Json::Array(items) = v {
        let w = value_resolved(v, m)->Array_0;
        assert forall|i: int| 0 <= i < items.len() implies stands_for(
            w[i],
            #[trigger] items[i],
            m,
        ) by {
            lemma_value(items[i], m);
        }
    }
}

proof fn lemma_options(p: Options, o: Options, m: Secrets)
    requires
        !options_fail(o, m),
        p.len() == o.len(),
        forall|k: int| 0 <= k < o.len() ==> #[trigger] p[k] == (o[k].0, value_resolved(o[k].1, m)),
    ensures
        options_stand_for(p, o, m),
{
    assert forall|k: int|
        #![trigger p[k]]
        #![trigger o[k]]
        0 <= k < o.len() implies p[k].0 == o[k].0 && stands_for(p[k].1, o[k].1, m) by {
        assert(!value_fails(o[k].1, m));
        lemma_value(o[k].1, m);
        assert(p[k] == (o[k].0, value_resolved(o[k].1, m)));
    }
}

/// Where nothing is asked for in vain, the secrets are in place throughout: in the options of
/// every section of every configuration file, and in every feed.
pub proof fn every_text_is_resolved(d: Declared, m: Secrets)
    requires
        root_missing(d, m) is None,
    ensures
        ({
            let r = root_resolved(d, m);
            &&& r.settings.len() == d.settings.len()
            &&& forall|c: int|
                0 <= c < d.settings.len() ==> (#[trigger] r.settings[c]).0 == d.settings[c].0
                    && r.settings[c].1.len() == d.settings[c].1.len()
            &&& forall|c: int, i: int|
                0 <= c < d.settings.len() && 0 <= i < d.settings[c].1.len() ==> (
                #[trigger] r.settings[c].1[i]).0 == d.settings[c].1[i].0 && shape_stands_for(
                    r.settings[c].1[i].1,
                    d.settings[c].1[i].1,
                    m,
                )
            &&& d.package_sources is Some && d.package_sources->0.feeds is Some
                ==> r.package_sources is Some && r.package_sources->0.feeds is Some
                && feeds_stand_for(
                r.package_sources->0.feeds->0,
                d.package_sources->0.feeds->0,
                m,
            )
        }),
{
    missing_secrets_refuse_the_configuration(d, m);
    let r = root_resolved(d, m);
    assert forall|c: int, i: int|
        0 <= c < d.settings.len() && 0 <= i < d.settings[c].1.len() implies (
    #[trigger] r.settings[c].1[i]).0 == d.settings[c].1[i].0 && shape_stands_for(
        r.settings[c].1[i].1,
        d.settings[c].1[i].1,
        m,
    ) by {
        assert(!sections_fail(d.settings[c].1, m));
        assert(!asks_in_vain(d.settings[c].1[i].1, m));
        match d.settings[c].1[i].1 {
            Shape::Named(b) => {
                lemma_options(r.settings[c].1[i].1->Named_0.options, b.options, m);
            },
            Shape::List(b) => {
                let l = r.settings[c].1[i].1->List_0;
                assert forall|k: int|
                    #![trigger l[k]]
                    #![trigger b[k]]
                    0 <= k < b.len() implies l[k].ty == b[k].ty && options_stand_for(
                    l[k].options,
                    b[k].options,
                    m,
                ) by {
                    assert(!options_fail(b[k].options, m));
                    lemma_options(l[k].options, b[k].options, m);
                }
            },
        }
    }
    if d.package_sources is Some && d.package_sources->0.feeds is Some {
        let f = d.package_sources->0.feeds->0;
        let g = r.package_sources->0.feeds->0;
        assert forall|k: int|
            #![trigger g[k]]
            #![trigger f[k]]
            0 <= k < f.len() implies interpolated(f[k], m) == Ok::<Seq<char>, Seq<char>>(g[k]) by {
            assert(!text_fails(f[k], m));
        }
    }
}

} // verus!
