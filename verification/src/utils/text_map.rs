//! Maps from texts, with their keys in ascending order.

use crate::utils::order::{
    ascending, in_order, in_order_is, lemma_insert_ascending, lemma_less_irreflexive, less,
    position,
};
use crate::utils::text::texts;
use vstd::prelude::*;

verus! {

/// A map from texts to values.
#[derive(Debug)]
pub struct TextMap<V> {
    keys: Vec<String>,
    values: Vec<V>,
}

/// The map that keys and values in the same order make.
pub open spec fn map_of<W>(keys: Seq<Seq<char>>, values: Seq<W>) -> Map<Seq<char>, W> {
    Map::new(
        |k: Seq<char>| keys.contains(k),
        |k: Seq<char>| values[choose|i: int| 0 <= i < keys.len() && keys[i] == k],
    )
}

pub open spec fn views<V: View>(values: Seq<V>) -> Seq<V::V> {
    Seq::new(values.len(), |i: int| values[i]@)
}

impl<V: View> View for TextMap<V> {
    type V = Map<Seq<char>, V::V>;

    closed spec fn view(&self) -> Map<Seq<char>, V::V> {
        map_of(texts(self.keys@), views(self.values@))
    }
}

proof fn lemma_map_of<W>(keys: Seq<Seq<char>>, values: Seq<W>, i: int)
    requires
        ascending(keys),
        0 <= i < keys.len(),
    ensures
        map_of(keys, values).dom().contains(keys[i]),
        map_of(keys, values)[keys[i]] == values[i],
{
    let k = keys[i];
    let j = choose|j: int| 0 <= j < keys.len() && keys[j] == k;
    assert(keys.contains(k));
    lemma_less_irreflexive(k);
    if i < j {
        assert(less(keys[i], keys[j]));
    }
    if j < i {
        assert(less(keys[j], keys[i]));
    }
}

impl<V> TextMap<V> {
    #[verifier::type_invariant]
    closed spec fn ordered(self) -> bool {
        ascending(texts(self.keys@)) && self.keys@.len() == self.values@.len()
    }
}

impl<V: View> TextMap<V> {
    pub fn new() -> (r: TextMap<V>)
        ensures
            r@ == Map::<Seq<char>, V::V>::empty(),
    {
        let r = TextMap { keys: Vec::new(), values: Vec::new() };
        assert(r@ =~= Map::<Seq<char>, V::V>::empty());
        r
    }

    pub fn insert(&mut self, key: String, value: V)
        ensures
            final(self)@ == old(self)@.insert(key@, value@),
    {
        proof {
            use_type_invariant(&*self);
        }
        let mut taken = TextMap::new();
        std::mem::swap(&mut taken, self);
        let mut keys = taken.keys;
        let mut values = taken.values;
        let ghost k0 = texts(keys@);
        let ghost v0 = views(values@);
        let (i, found) = position(&keys, key.as_str());
        if found {
            values.set(i, value);
            proof {
                let v1 = views(values@);
                assert(v1 =~= v0.update(i as int, value@));
                assert(k0[i as int] == key@);
                assert(map_of(k0, v1) =~= map_of(k0, v0).insert(key@, value@)) by {
                    assert forall|k: Seq<char>| k0.contains(k) implies map_of(k0, v1)[k]
                        == #[trigger] map_of(k0, v0).insert(key@, value@)[k] by {
                        let j = choose|j: int| 0 <= j < k0.len() && k0[j] == k;
                        lemma_map_of(k0, v0, j);
                        lemma_map_of(k0, v1, j);
                        lemma_map_of(k0, v1, i as int);
                    }
                }
            }
        } else {
            proof {
                lemma_insert_ascending(k0, key@, i as int);
            }
            let ghost k = key@;
            let ghost v = value@;
            keys.insert(i, key);
            values.insert(i, value);
            proof {
                let k1 = k0.insert(i as int, k);
                let v1 = v0.insert(i as int, v);
                assert(texts(keys@) =~= k1);
                assert(views(values@) =~= v1);
                let old_map = map_of(k0, v0);
                assert forall|t: Seq<char>| k1.contains(t) <==> #[trigger] old_map.insert(
                    k,
                    v,
                ).dom().contains(t) by {
                    assert(k1.to_set().contains(t) <==> k0.to_set().insert(k).contains(t));
                }
                assert forall|t: Seq<char>| k1.contains(t) implies map_of(k1, v1)[t]
                    == #[trigger] old_map.insert(k, v)[t] by {
                    let j = choose|j: int| 0 <= j < k1.len() && k1[j] == t;
                    lemma_map_of(k1, v1, j);
                    if j < i {
                        assert(k0[j] == t);
                        lemma_map_of(k0, v0, j);
                        lemma_less_irreflexive(t);
                    } else if j > i {
                        assert(k0[j - 1] == t);
                        lemma_map_of(k0, v0, j - 1);
                        lemma_less_irreflexive(t);
                    }
                }
                assert(map_of(k1, v1) =~= old_map.insert(k, v));
            }
        }
        *self = TextMap { keys, values };
    }

    pub fn get(&self, key: &str) -> (r: Option<&V>)
        ensures
            r is Some <==> self@.dom().contains(key@),
            r matches Some(v) ==> v@ == self@[key@],
    {
        proof {
            use_type_invariant(self);
        }
        let (i, found) = position(&self.keys, key);
        if found {
            proof {
                lemma_map_of(texts(self.keys@), views(self.values@), i as int);
            }
            Some(&self.values[i])
        } else {
            None
        }
    }

    pub fn contains_key(&self, key: &str) -> (r: bool)
        ensures
            r == self@.dom().contains(key@),
    {
        self.get(key).is_some()
    }

    pub fn is_empty(&self) -> (r: bool)
        ensures
            r == (self@ == Map::<Seq<char>, V::V>::empty()),
    {
        proof {
            use_type_invariant(self);
            if self.keys@.len() > 0 {
                let k = texts(self.keys@)[0];
                lemma_map_of(texts(self.keys@), views(self.values@), 0);
                assert(self@.dom().contains(k));
                assert(!Map::<Seq<char>, V::V>::empty().dom().contains(k));
            } else {
                assert(self@ =~= Map::<Seq<char>, V::V>::empty());
            }
        }
        self.keys.len() == 0
    }

    /// The keys in ascending order.
    pub fn keys(&self) -> (r: Vec<String>)
        ensures
            texts(r@) == in_order(self@.dom()),
            ascending(texts(r@)),
            texts(r@).to_set() == self@.dom(),
    {
        proof {
            use_type_invariant(self);
        }
        let mut out: Vec<String> = Vec::new();
        let mut i: usize = 0;
        while i < self.keys.len()
            invariant
                i <= self.keys@.len(),
                out@.len() == i,
                forall|j: int| 0 <= j < i ==> (#[trigger] out@[j])@ == self.keys@[j]@,
            decreases self.keys@.len() - i,
        {
            out.push(self.keys[i].clone());
            i += 1;
        }
        proof {
            let k = texts(self.keys@);
            assert(texts(out@) =~= k);
            assert(k.to_set() =~= self@.dom());
            in_order_is(self@.dom(), k);
        }
        out
    }
}

impl TextMap<String> {
    /// Adds the entries of another map. Where both have a key, the other's value stays.
    pub fn extend(&mut self, other: &TextMap<String>)
        ensures
            final(self)@ == old(self)@.union_prefer_right(other@),
    {
        let keys = other.keys();
        let ghost start = self@;
        let mut i: usize = 0;
        assert(self@ =~= start.union_prefer_right(other@.restrict(Set::empty())));
        proof {
            assert(texts(keys@).take(0).to_set() =~= Set::empty());
        }
        while i < keys.len()
            invariant
                i <= keys@.len(),
                texts(keys@).to_set() == other@.dom(),
                self@ == start.union_prefer_right(
                    other@.restrict(texts(keys@).take(i as int).to_set()),
                ),
            decreases keys@.len() - i,
        {
            let ghost all = texts(keys@);
            assert(all[i as int] == keys@[i as int]@);
            assert(all.to_set().contains(keys@[i as int]@));
            if let Some(v) = other.get(keys[i].as_str()) {
                self.insert(keys[i].clone(), v.clone());
            }
            proof {
                let t = all[i as int];
                assert(all.take(i + 1) =~= all.take(i as int).push(t));
                assert(all.take(i + 1).to_set() =~= all.take(i as int).to_set().insert(t)) by {
                    lemma_push_to_set(all.take(i as int), t);
                }
                assert(self@ =~= start.union_prefer_right(
                    other@.restrict(all.take(i + 1).to_set()),
                ));
            }
            i += 1;
        }
        proof {
            assert(texts(keys@).take(i as int) =~= texts(keys@));
            assert(other@.restrict(other@.dom()) =~= other@);
        }
    }

    /// Whether two maps hold the same.
    pub fn same(&self, other: &TextMap<String>) -> (r: bool)
        ensures
            r == (self@ == other@),
    {
        proof {
            use_type_invariant(self);
            use_type_invariant(other);
        }
        let ghost k1 = texts(self.keys@);
        let ghost k2 = texts(other.keys@);
        let ghost v1 = views(self.values@);
        let ghost v2 = views(other.values@);
        proof {
            assert(k1.to_set() =~= self@.dom());
            assert(k2.to_set() =~= other@.dom());
            in_order_is(self@.dom(), k1);
            in_order_is(other@.dom(), k2);
        }
        if self.keys.len() != other.keys.len() {
            return false;
        }
        let mut i: usize = 0;
        while i < self.keys.len()
            invariant
                i <= self.keys@.len() == other.keys@.len(),
                self.keys@.len() == self.values@.len(),
                other.keys@.len() == other.values@.len(),
                k1 == texts(self.keys@),
                k2 == texts(other.keys@),
                v1 == views(self.values@),
                v2 == views(other.values@),
                self@ == map_of(k1, v1),
                other@ == map_of(k2, v2),
                ascending(k1),
                ascending(k2),
                k1 == in_order(self@.dom()),
                k2 == in_order(other@.dom()),
                forall|j: int| 0 <= j < i ==> k1[j] == k2[j] && v1[j] == v2[j],
            decreases self.keys@.len() - i,
        {
            if !self.keys[i].as_str().eq(other.keys[i].as_str()) {
                assert(k1[i as int] != k2[i as int]);
                return false;
            }
            if !self.values[i].as_str().eq(other.values[i].as_str()) {
                proof {
                    lemma_map_of(k1, v1, i as int);
                    lemma_map_of(k2, v2, i as int);
                    assert(k1[i as int] == k2[i as int]);
                    assert(v1[i as int] != v2[i as int]);
                }
                return false;
            }
            i += 1;
        }
        proof {
            assert(k1 =~= k2);
            assert(v1 =~= v2);
        }
        true
    }
}

pub proof fn lemma_push_to_set(s: Seq<Seq<char>>, t: Seq<char>)
    ensures
        s.push(t).to_set() == s.to_set().insert(t),
{
    let n = s.push(t);
    assert forall|x: Seq<char>| n.to_set().contains(x) <==> #[trigger] s.to_set().insert(
        t,
    ).contains(x) by {
        if s.to_set().contains(x) {
            let k = choose|k: int| 0 <= k < s.len() && s[k] == x;
            assert(n[k] == x);
        }
        assert(n[s.len() as int] == t);
        if n.to_set().contains(x) {
            let k = choose|k: int| 0 <= k < n.len() && n[k] == x;
            if k < s.len() {
                assert(s[k] == x);
            }
        }
    }
    assert(n.to_set() =~= s.to_set().insert(t));
}

} // verus!
