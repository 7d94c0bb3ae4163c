//! Where a text stands within another.

use vstd::prelude::*;

verus! {

/// Whether a text is made of three pieces.
pub open spec fn pieces(s: Seq<char>, a: Seq<char>, t: Seq<char>, b: Seq<char>) -> bool {
    s == a + t + b
}

/// Whether `t` stands somewhere in `s`.
pub open spec fn within(s: Seq<char>, t: Seq<char>) -> bool {
    exists|a: Seq<char>, b: Seq<char>| pieces(s, a, t, b)
}

/// Whether `t` stands somewhere in `s`, and `u` somewhere behind it.
pub open spec fn behind(s: Seq<char>, t: Seq<char>, u: Seq<char>) -> bool {
    exists|a: Seq<char>, b: Seq<char>| #[trigger] pieces(s, a, t, b) && within(b, u)
}

pub proof fn lemma_within_is(s: Seq<char>, a: Seq<char>, t: Seq<char>, b: Seq<char>)
    requires
        s == a + t + b,
    ensures
        within(s, t),
{
    assert(pieces(s, a, t, b));
}

pub proof fn lemma_within_self(s: Seq<char>)
    ensures
        within(s, s),
{
    let e = Seq::<char>::empty();
    assert(s =~= e + s + e);
    lemma_within_is(s, e, s, e);
}

/// What stands in a piece stands in the whole.
pub proof fn lemma_within_more(a: Seq<char>, s: Seq<char>, b: Seq<char>, t: Seq<char>)
    requires
        within(s, t),
    ensures
        within(a + s + b, t),
{
    let (x, y) = choose|x: Seq<char>, y: Seq<char>| pieces(s, x, t, y);
    assert(a + s + b =~= (a + x) + t + (y + b));
    lemma_within_is(a + s + b, a + x, t, y + b);
}

pub proof fn lemma_within_trans(s: Seq<char>, t: Seq<char>, u: Seq<char>)
    requires
        within(s, t),
        within(t, u),
    ensures
        within(s, u),
{
    let (x, y) = choose|x: Seq<char>, y: Seq<char>| pieces(s, x, t, y);
    lemma_within_more(x, t, y, u);
}

pub proof fn lemma_behind_is(
    s: Seq<char>,
    a: Seq<char>,
    t: Seq<char>,
    b: Seq<char>,
    u: Seq<char>,
    c: Seq<char>,
)
    requires
        s == a + t + b + u + c,
    ensures
        behind(s, t, u),
{
    assert(s =~= a + t + (b + u + c));
    lemma_within_is(b + u + c, b, u, c);
    assert(pieces(s, a, t, b + u + c));
}

/// What stands in one piece is in front of what stands in the next.
pub proof fn lemma_behind_pieces(x: Seq<char>, y: Seq<char>, t: Seq<char>, u: Seq<char>)
    requires
        within(x, t),
        within(y, u),
    ensures
        behind(x + y, t, u),
{
    let (a, b) = choose|a: Seq<char>, b: Seq<char>| pieces(x, a, t, b);
    lemma_within_more(b, y, Seq::empty(), u);
    assert(b + y + Seq::<char>::empty() =~= b + y);
    assert(x + y =~= a + t + (b + y));
    assert(pieces(x + y, a, t, b + y));
}

pub proof fn lemma_behind_more(a: Seq<char>, s: Seq<char>, b: Seq<char>, t: Seq<char>, u: Seq<char>)
    requires
        behind(s, t, u),
    ensures
        behind(a + s + b, t, u),
{
    let (x, y) = choose|x: Seq<char>, y: Seq<char>| #[trigger] pieces(s, x, t, y) && within(y, u);
    lemma_within_more(Seq::empty(), y, b, u);
    assert(Seq::<char>::empty() + y + b =~= y + b);
    assert(a + s + b =~= (a + x) + t + (y + b));
    assert(pieces(a + s + b, a + x, t, y + b));
}

/// Each of the texts stands in what they make together.
pub proof fn lemma_within_flat(p: Seq<Seq<char>>, i: int)
    requires
        0 <= i < p.len(),
    ensures
        within(p.flatten(), p[i]),
    decreases p.len(),
{
    let init = p.drop_last();
    p.lemma_flatten_and_flatten_alt_are_equivalent();
    init.lemma_flatten_and_flatten_alt_are_equivalent();
    let e = Seq::<char>::empty();
    assert(p.flatten() == init.flatten() + p.last());
    if i < p.len() - 1 {
        lemma_within_flat(init, i);
        lemma_within_more(e, init.flatten(), p.last(), p[i]);
        assert(e + init.flatten() + p.last() =~= p.flatten());
    } else {
        assert(p.flatten() =~= init.flatten() + p[i] + e);
        lemma_within_is(p.flatten(), init.flatten(), p[i], e);
    }
}

/// One more text makes the whole longer by it.
pub proof fn lemma_flat_last(p: Seq<Seq<char>>)
    requires
        p.len() > 0,
    ensures
        p.flatten() == p.drop_last().flatten() + p.last(),
{
    p.lemma_flatten_and_flatten_alt_are_equivalent();
    p.drop_last().lemma_flatten_and_flatten_alt_are_equivalent();
}

} // verus!
