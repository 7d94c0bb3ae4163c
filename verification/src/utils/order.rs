//! Texts in alphabetical order, by code point.

use crate::utils::text::{chars_of, texts};
use vstd::prelude::*;
use vstd::relations::{sorted_by, total_ordering};
use vstd::seq_lib::{group_to_multiset_ensures, lemma_sorted_unique};

verus! {

/// Whether `a` comes before `b`: at the first position where they differ it has the smaller
/// character, or it ends there.
pub open spec fn less(a: Seq<char>, b: Seq<char>) -> bool
    decreases b.len(),
{
    if b.len() == 0 {
        false
    } else if a.len() == 0 {
        true
    } else if a[0] != b[0] {
        a[0] < b[0]
    } else {
        less(a.skip(1), b.skip(1))
    }
}

pub proof fn lemma_less_irreflexive(a: Seq<char>)
    ensures
        !less(a, a),
    decreases a.len(),
{
    if a.len() > 0 {
        lemma_less_irreflexive(a.skip(1));
    }
}

pub proof fn lemma_less_transitive(a: Seq<char>, b: Seq<char>, c: Seq<char>)
    requires
        less(a, b),
        less(b, c),
    ensures
        less(a, c),
    decreases a.len(),
{
    if a.len() > 0 && b.len() > 0 && c.len() > 0 && a[0] == b[0] && b[0] == c[0] {
        lemma_less_transitive(a.skip(1), b.skip(1), c.skip(1));
    }
}

pub proof fn lemma_less_total(a: Seq<char>, b: Seq<char>)
    ensures
        less(a, b) || less(b, a) || a == b,
    decreases a.len(),
{
    if a.len() == 0 && b.len() == 0 {
        assert(a =~= b);
    } else if a.len() > 0 && b.len() > 0 && a[0] == b[0] {
        lemma_less_total(a.skip(1), b.skip(1));
        if a.skip(1) == b.skip(1) {
            assert(a =~= seq![a[0]] + a.skip(1));
            assert(b =~= seq![b[0]] + b.skip(1));
        }
    }
}

/// Whether one text comes before another.
pub fn precedes(a: &str, b: &str) -> (r: bool)
    ensures
        r == less(a@, b@),
{
    let v = chars_of(a);
    let w = chars_of(b);
    let mut i: usize = 0;
    assert(v@.skip(0) =~= v@);
    assert(w@.skip(0) =~= w@);
    while i < v.len() && i < w.len()
        invariant
            i <= v@.len(),
            i <= w@.len(),
            v@ == a@,
            w@ == b@,
            less(v@, w@) == less(v@.skip(i as int), w@.skip(i as int)),
        decreases v@.len() - i,
    {
        if v[i] != w[i] {
            return v[i] < w[i];
        }
        assert(v@.skip(i as int).skip(1) =~= v@.skip(i + 1));
        assert(w@.skip(i as int).skip(1) =~= w@.skip(i + 1));
        i += 1;
    }
    i < w.len()
}

// ---- sets of texts ----

/// Whether every text comes before those behind it.
pub open spec fn ascending(s: Seq<Seq<char>>) -> bool {
    forall|i: int, j: int| 0 <= i < j < s.len() ==> less(#[trigger] s[i], #[trigger] s[j])
}

/// The members of a set in ascending order.
pub open spec fn in_order(set: Set<Seq<char>>) -> Seq<Seq<char>> {
    choose|s: Seq<Seq<char>>| ascending(s) && s.to_set() == set
}

proof fn lemma_ascending_unique(a: Seq<Seq<char>>, b: Seq<Seq<char>>)
    requires
        ascending(a),
        ascending(b),
        a.to_set() == b.to_set(),
    ensures
        a == b,
    decreases a.len(),
{
    if a.len() == 0 {
        if b.len() > 0 {
            assert(b.to_set().contains(b[0]));
            assert(a.to_set().contains(b[0]));
        }
        assert(a =~= b);
    } else {
        assert(a.to_set().contains(a.last()));
        assert(b.to_set().contains(a.last()));
        let i = choose|i: int| 0 <= i < b.len() && b[i] == a.last();
        assert(b.to_set().contains(b.last()));
        assert(a.to_set().contains(b.last()));
        let j = choose|j: int| 0 <= j < a.len() && a[j] == b.last();
        if i < b.len() - 1 {
            assert(less(b[i], b[b.len() - 1]));
            if j < a.len() - 1 {
                assert(less(a[j], a[a.len() - 1]));
                lemma_less_transitive(a.last(), b.last(), a.last());
            }
            lemma_less_irreflexive(a.last());
        }
        assert(a.last() == b.last());
        let x = a.last();
        assert forall|t: Seq<char>| a.drop_last().to_set().contains(t) <==> #[trigger] b.drop_last()
            .to_set().contains(t) by {
            lemma_without_last(a, t);
            lemma_without_last(b, t);
        }
        assert(a.drop_last().to_set() =~= b.drop_last().to_set());
        lemma_ascending_unique(a.drop_last(), b.drop_last());
        assert(a =~= a.drop_last().push(x));
        assert(b =~= b.drop_last().push(x));
    }
}

proof fn lemma_without_last(a: Seq<Seq<char>>, t: Seq<char>)
    requires
        ascending(a),
        a.len() > 0,
    ensures
        a.drop_last().to_set().contains(t) <==> a.to_set().contains(t) && t != a.last(),
{
    if a.drop_last().to_set().contains(t) {
        let k = choose|k: int| 0 <= k < a.drop_last().len() && a.drop_last()[k] == t;
        assert(a[k] == t);
        assert(less(a[k], a[a.len() - 1]));
        if t == a.last() {
            lemma_less_irreflexive(t);
        }
    }
    if a.to_set().contains(t) && t != a.last() {
        let k = choose|k: int| 0 <= k < a.len() && a[k] == t;
        assert(a.drop_last()[k] == t);
    }
}

/// An ascending list is the order of its members: there is no other.
pub proof fn in_order_is(set: Set<Seq<char>>, s: Seq<Seq<char>>)
    requires
        ascending(s),
        s.to_set() == set,
    ensures
        in_order(set) == s,
{
    lemma_ascending_unique(in_order(set), s);
}

/// Where a text that is not in an ascending list would have to stand, seen from `i`.
proof fn lemma_place(s: Seq<Seq<char>>, t: Seq<char>, i: int) -> (k: int)
    requires
        ascending(s),
        !s.contains(t),
        0 <= i <= s.len(),
        forall|j: int| 0 <= j < i ==> less(#[trigger] s[j], t),
    ensures
        0 <= k <= s.len(),
        forall|j: int| 0 <= j < k ==> less(#[trigger] s[j], t),
        forall|j: int| k <= j < s.len() ==> less(t, #[trigger] s[j]),
    decreases s.len() - i,
{
    if i == s.len() {
        i
    } else {
        lemma_less_total(s[i], t);
        assert(s[i] != t);
        if less(s[i], t) {
            lemma_place(s, t, i + 1)
        } else {
            assert forall|j: int| i <= j < s.len() implies less(t, #[trigger] s[j]) by {
                if j > i {
                    assert(less(s[i], s[j]));
                    lemma_less_transitive(t, s[i], s[j]);
                }
            }
            i
        }
    }
}

proof fn lemma_order_exists(set: Set<Seq<char>>) -> (s: Seq<Seq<char>>)
    requires
        set.finite(),
    ensures
        ascending(s),
        s.to_set() == set,
    decreases set.len(),
{
    if set.len() == 0 {
        let s = Seq::<Seq<char>>::empty();
        assert(s.to_set() =~= set);
        s
    } else {
        let t = set.choose();
        let s = lemma_order_exists(set.remove(t));
        assert(!s.to_set().contains(t));
        assert(!s.contains(t));
        let k = lemma_place(s, t, 0);
        lemma_insert_ascending(s, t, k);
        assert(set.remove(t).insert(t) =~= set);
        s.insert(k, t)
    }
}

/// Every finite set has an order, with all of its members and no others.
pub proof fn in_order_holds(set: Set<Seq<char>>)
    requires
        set.finite(),
    ensures
        ascending(in_order(set)),
        in_order(set).to_set() == set,
{
    let s = lemma_order_exists(set);
    in_order_is(set, s);
}

/// Where a text stands in an ascending list, or would have to stand.
pub fn position(list: &Vec<String>, t: &str) -> (r: (usize, bool))
    requires
        ascending(texts(list@)),
    ensures
        r.0 <= list@.len(),
        forall|j: int| 0 <= j < r.0 ==> less(#[trigger] texts(list@)[j], t@),
        r.1 ==> r.0 < list@.len() && texts(list@)[r.0 as int] == t@,
        !r.1 ==> forall|j: int| r.0 <= j < list@.len() ==> less(t@, #[trigger] texts(list@)[j]),
        r.1 == texts(list@).contains(t@),
{
    let ghost all = texts(list@);
    let mut i: usize = 0;
    while i < list.len() && precedes(list[i].as_str(), t)
        invariant
            i <= list@.len(),
            all == texts(list@),
            forall|j: int| 0 <= j < i ==> less(#[trigger] all[j], t@),
        decreases list@.len() - i,
    {
        i += 1;
    }
    let found = i < list.len() && list[i].as_str().eq(t);
    proof {
        if found {
            assert(all[i as int] == t@);
        } else {
            assert forall|j: int| i <= j < list@.len() implies less(t@, #[trigger] all[j]) by {
                lemma_less_total(all[i as int], t@);
                if j > i {
                    assert(less(all[i as int], all[j]));
                    lemma_less_transitive(t@, all[i as int], all[j]);
                }
            }
            if all.contains(t@) {
                let k = choose|k: int| 0 <= k < all.len() && all[k] == t@;
                lemma_less_irreflexive(t@);
                if k < i {
                    assert(less(all[k], t@));
                } else {
                    assert(less(t@, all[k]));
                }
            }
        }
    }
    (i, found)
}

/// An ascending list with one more text at its place is ascending.
pub proof fn lemma_insert_ascending(s: Seq<Seq<char>>, t: Seq<char>, i: int)
    requires
        ascending(s),
        0 <= i <= s.len(),
        forall|j: int| 0 <= j < i ==> less(#[trigger] s[j], t),
        forall|j: int| i <= j < s.len() ==> less(t, #[trigger] s[j]),
    ensures
        ascending(s.insert(i, t)),
        s.insert(i, t).to_set() == s.to_set().insert(t),
{
    let n = s.insert(i, t);
    assert forall|a: int, b: int| 0 <= a < b < n.len() implies less(
        #[trigger] n[a],
        #[trigger] n[b],
    ) by {
        let x = if a < i {
            a
        } else {
            a - 1
        };
        let y = if b < i {
            b
        } else {
            b - 1
        };
        if a == i {
            assert(n[b] == s[y]);
        } else if b == i {
            assert(n[a] == s[x]);
        } else {
            assert(n[a] == s[x] && n[b] == s[y]);
            assert(less(s[x], s[y]));
        }
    }
    assert forall|x: Seq<char>| n.to_set().contains(x) <==> #[trigger] s.to_set().insert(
        t,
    ).contains(x) by {
        if n.to_set().contains(x) {
            let k = choose|k: int| 0 <= k < n.len() && n[k] == x;
            if k < i {
                assert(s[k] == x);
            } else if k > i {
                assert(s[k - 1] == x);
            }
        }
        if s.to_set().contains(x) {
            let k = choose|k: int| 0 <= k < s.len() && s[k] == x;
            if k < i {
                assert(n[k] == x);
            } else {
                assert(n[k + 1] == x);
            }
        }
        assert(n[i] == t);
    }
    assert(n.to_set() =~= s.to_set().insert(t));
}

/// Adds a text to an ascending list, unless it is there.
pub fn insert_text(list: &mut Vec<String>, t: &str)
    requires
        ascending(texts(old(list)@)),
    ensures
        ascending(texts(final(list)@)),
        texts(final(list)@).to_set() == texts(old(list)@).to_set().insert(t@),
{
    let (i, found) = position(list, t);
    let ghost before = texts(list@);
    if found {
        assert(before.to_set().contains(t@)) by {
            assert(before[i as int] == t@);
        }
        assert(before.to_set() =~= before.to_set().insert(t@));
    } else {
        proof {
            lemma_insert_ascending(before, t@, i as int);
        }
        list.insert(i, t.to_owned());
        assert(texts(list@) =~= before.insert(i as int, t@));
    }
}

// ---- lists of texts ----

/// The order of texts: `a` is `b` or comes before it.
pub open spec fn text_order() -> spec_fn(Seq<char>, Seq<char>) -> bool {
    |a: Seq<char>, b: Seq<char>| a == b || less(a, b)
}

pub proof fn lemma_text_order()
    ensures
        total_ordering(text_order()),
{
    let leq = text_order();
    assert forall|x: Seq<char>, y: Seq<char>| #[trigger] leq(x, y) && #[trigger] leq(
        y,
        x,
    ) implies x == y by {
        if x != y {
            lemma_less_transitive(x, y, x);
            lemma_less_irreflexive(x);
        }
    }
    assert forall|x: Seq<char>, y: Seq<char>, z: Seq<char>| #[trigger] leq(x, y) && #[trigger] leq(
        y,
        z,
    ) implies leq(x, z) by {
        if x != y && y != z {
            lemma_less_transitive(x, y, z);
        }
    }
    assert forall|x: Seq<char>, y: Seq<char>| #[trigger] leq(x, y) || #[trigger] leq(y, x) by {
        lemma_less_total(x, y);
    }
}

/// The texts of a list in order, each as often as it occurs.
pub open spec fn sorted(s: Seq<Seq<char>>) -> Seq<Seq<char>> {
    s.sort_by(text_order())
}

/// Lists that hold the same texts, in whatever order, are the same once sorted.
pub proof fn sorting_forgets_order(a: Seq<Seq<char>>, b: Seq<Seq<char>>)
    requires
        a.to_multiset() == b.to_multiset(),
    ensures
        sorted(a) == sorted(b),
{
    lemma_text_order();
    a.lemma_sort_by_ensures(text_order());
    b.lemma_sort_by_ensures(text_order());
    lemma_sorted_unique(sorted(a), sorted(b), text_order());
}

/// Sorting forgets nothing but the order.
pub proof fn sorting_keeps_texts(a: Seq<Seq<char>>, b: Seq<Seq<char>>)
    requires
        sorted(a) == sorted(b),
    ensures
        a.to_multiset() == b.to_multiset(),
{
    lemma_text_order();
    a.lemma_sort_by_ensures(text_order());
    b.lemma_sort_by_ensures(text_order());
}

/// Adds a text behind those that are not greater.
fn insert_sorted(list: &mut Vec<String>, t: &str)
    requires
        sorted_by(texts(old(list)@), text_order()),
    ensures
        sorted_by(texts(final(list)@), text_order()),
        texts(final(list)@).to_multiset() == texts(old(list)@).to_multiset().insert(t@),
{
    let ghost all = texts(list@);
    let ghost leq = text_order();
    let mut i: usize = 0;
    while i < list.len() && !precedes(t, list[i].as_str())
        invariant
            i <= list@.len(),
            all == texts(list@),
            leq == text_order(),
            forall|j: int| 0 <= j < i ==> !less(t@, #[trigger] all[j]),
        decreases list@.len() - i,
    {
        i += 1;
    }
    list.insert(i, t.to_owned());
    proof {
        broadcast use group_to_multiset_ensures;

        let n = all.insert(i as int, t@);
        assert(texts(list@) =~= n);
        lemma_text_order();
        assert forall|a: int, b: int| 0 <= a < b < n.len() implies #[trigger] leq(n[a], n[b]) by {
            if a < i && b < i {
                assert(leq(all[a], all[b]));
            } else if a < i && b == i {
                lemma_less_total(all[a], t@);
            } else if a < i {
                assert(leq(all[a], all[b - 1]));
            } else if a == i {
                lemma_less_total(t@, all[b - 1]);
                if b - 1 > i {
                    assert(leq(all[i as int], all[b - 1]));
                }
                assert(less(t@, all[i as int]));
                assert(leq(t@, all[i as int]));
                assert(leq(all[i as int], all[b - 1]) || b - 1 == i);
            } else {
                assert(leq(all[a - 1], all[b - 1]));
            }
        }
        assert(n.to_multiset() =~= all.to_multiset().insert(t@));
    }
}

/// Sorts a list.
pub fn sort_texts(list: &Vec<String>) -> (r: Vec<String>)
    ensures
        texts(r@) == sorted(texts(list@)),
{
    let ghost all = texts(list@);
    let mut out: Vec<String> = Vec::new();
    let mut i: usize = 0;
    proof {
        assert(texts(out@) =~= all.take(0));
    }
    while i < list.len()
        invariant
            i <= list@.len() == all.len(),
            all == texts(list@),
            sorted_by(texts(out@), text_order()),
            texts(out@).to_multiset() == all.take(i as int).to_multiset(),
        decreases list@.len() - i,
    {
        proof {
            broadcast use group_to_multiset_ensures;

            assert(all.take(i + 1) =~= all.take(i as int).push(list@[i as int]@));
        }
        insert_sorted(&mut out, list[i].as_str());
        i += 1;
    }
    proof {
        assert(all.take(i as int) =~= all);
        lemma_text_order();
        all.lemma_sort_by_ensures(text_order());
        lemma_sorted_unique(texts(out@), sorted(all), text_order());
    }
    out
}

} // verus!
