//! One partition of a partitioned map: an association from keys to values,
//! held as two parallel vectors sorted by key.

use vstd::prelude::*;
use crate::keys::{Key, Relation};

verus! {

/// The keys of `s` come in strictly increasing order.
pub open spec fn increasing<L: Key>(s: Seq<L::V>) -> bool {
    forall|i: int, j: int| 0 <= i < j < s.len() ==> #[trigger] L::before(s[i], s[j])
}

/// The map that sends `keys[i]` to `values[i]`.
pub open spec fn paired<L: Key, V>(keys: Seq<L::V>, values: Seq<V>) -> Map<L::V, V> {
    Map::new(|l: L::V| keys.contains(l), |l: L::V| values[keys.index_of(l)])
}

/// In a strictly increasing sequence every key stands at one index only.
pub proof fn lemma_increasing_distinct<L: Key>(keys: Seq<L::V>, i: int, j: int)
    requires
        increasing::<L>(keys),
        0 <= i < keys.len(),
        0 <= j < keys.len(),
        keys[i] == keys[j],
    ensures
        i == j,
{
    L::order_laws();
    if i < j {
        assert(L::before(keys[i], keys[j]));
    } else if j < i {
        assert(L::before(keys[j], keys[i]));
    }
}

/// `paired` holds each key with the value at the same index.
pub proof fn lemma_paired_at<L: Key, V>(keys: Seq<L::V>, values: Seq<V>, j: int)
    requires
        increasing::<L>(keys),
        0 <= j < keys.len(),
    ensures
        paired::<L, V>(keys, values).contains_key(keys[j]),
        paired::<L, V>(keys, values)[keys[j]] == values[j],
{
    let l = keys[j];
    assert(keys.contains(l));
    let i = keys.index_of(l);
    lemma_increasing_distinct::<L>(keys, i, j);
}

/// Putting a new key at its place in the order adds one entry to the map.
pub proof fn lemma_paired_insert<L: Key, V>(
    keys: Seq<L::V>,
    values: Seq<V>,
    at: int,
    l: L::V,
    v: V,
)
    requires
        increasing::<L>(keys),
        keys.len() == values.len(),
        0 <= at <= keys.len(),
        forall|i: int| 0 <= i < at ==> L::before(#[trigger] keys[i], l),
        forall|i: int| at <= i < keys.len() ==> L::before(l, #[trigger] keys[i]),
    ensures
        increasing::<L>(keys.insert(at, l)),
        paired::<L, V>(keys.insert(at, l), values.insert(at, v)) == paired::<L, V>(
            keys,
            values,
        ).insert(l, v),
{
    L::order_laws();
    let keys2 = keys.insert(at, l);
    let values2 = values.insert(at, v);
    assert forall|i: int, j: int| 0 <= i < j < keys2.len() implies #[trigger] L::before(
        keys2[i],
        keys2[j],
    ) by {
        if i < at && j > at {
            assert(L::before(keys[i], l));
            assert(L::before(l, keys[j - 1]));
        } else if i < at && j < at {
            assert(L::before(keys[i], keys[j]));
        } else if i > at {
            assert(L::before(keys[i - 1], keys[j - 1]));
        }
    }
    let before = paired::<L, V>(keys, values).insert(l, v);
    let after = paired::<L, V>(keys2, values2);
    assert forall|x: L::V| before.contains_key(x) <==> after.contains_key(x) by {
        if x == l {
            assert(keys2[at] == l);
        } else if keys.contains(x) {
            let i = keys.index_of(x);
            if i < at {
                assert(keys2[i] == x);
            } else {
                assert(keys2[i + 1] == x);
            }
        } else if keys2.contains(x) {
            let i = keys2.index_of(x);
            if i < at {
                assert(keys[i] == x);
            } else {
                assert(keys[i - 1] == x);
            }
        }
    }
    assert forall|x: L::V| before.contains_key(x) implies before[x] == after[x] by {
        if x == l {
            lemma_paired_at::<L, V>(keys2, values2, at);
        } else {
            let i = keys.index_of(x);
            lemma_paired_at::<L, V>(keys, values, i);
            if i < at {
                lemma_paired_at::<L, V>(keys2, values2, i);
            } else {
                lemma_paired_at::<L, V>(keys2, values2, i + 1);
            }
        }
    }
    assert(before =~= after);
}

/// Replacing the value at one index replaces the value of that key.
pub proof fn lemma_paired_update<L: Key, V>(keys: Seq<L::V>, values: Seq<V>, at: int, v: V)
    requires
        increasing::<L>(keys),
        keys.len() == values.len(),
        0 <= at < keys.len(),
    ensures
        paired::<L, V>(keys, values.update(at, v)) == paired::<L, V>(keys, values).insert(
            keys[at],
            v,
        ),
{
    let before = paired::<L, V>(keys, values).insert(keys[at], v);
    let after = paired::<L, V>(keys, values.update(at, v));
    assert forall|x: L::V| before.contains_key(x) <==> after.contains_key(x) by {
        assert(keys.contains(keys[at]));
    }
    assert forall|x: L::V| before.contains_key(x) implies before[x] == after[x] by {
        let i = keys.index_of(x);
        lemma_paired_at::<L, V>(keys, values, i);
        lemma_paired_at::<L, V>(keys, values.update(at, v), i);
        if x == keys[at] {
            lemma_increasing_distinct::<L>(keys, i, at);
        }
    }
    assert(before =~= after);
}

/// What a search for a key in a sorted sequence returns: the index where the
/// key stands, or the index where it would have to be put.
pub open spec fn is_position<L: Key>(keys: Seq<L::V>, l: L::V, found: bool, at: int) -> bool {
    &&& 0 <= at <= keys.len()
    &&& found ==> at < keys.len() && keys[at] == l
    &&& !found ==> {
        &&& forall|i: int| 0 <= i < at ==> L::before(#[trigger] keys[i], l)
        &&& forall|i: int| at <= i < keys.len() ==> L::before(l, #[trigger] keys[i])
    }
}

/// A key that has only a place to be put at is not in the sequence.
pub proof fn lemma_position_absent<L: Key>(keys: Seq<L::V>, l: L::V, at: int)
    requires
        is_position::<L>(keys, l, false, at),
    ensures
        !keys.contains(l),
{
    L::order_laws();
    if keys.contains(l) {
        let i = keys.index_of(l);
        if i < at {
            assert(L::before(keys[i], l));
        } else {
            assert(L::before(l, keys[i]));
        }
    }
}

/// The views of a vector of keys.
pub open spec fn views_of<L: Key>(keys: Seq<L>) -> Seq<L::V> {
    keys.map_values(|l: L| l@)
}

/// Binary search for `key` among sorted `keys`.
pub fn find_position<L: Key>(keys: &Vec<L>, key: &L) -> (r: (bool, usize))
    requires
        increasing::<L>(views_of(keys@)),
    ensures
        is_position::<L>(views_of(keys@), key@, r.0, r.1 as int),
{
    let ghost ks = views_of(keys@);
    let mut lo: usize = 0;
    let mut hi: usize = keys.len();
    proof {
        L::order_laws();
    }
    while lo < hi
        invariant
            0 <= lo <= hi <= keys.len(),
            ks == views_of(keys@),
            increasing::<L>(ks),
            forall|i: int| 0 <= i < lo ==> L::before(#[trigger] ks[i], key@),
            forall|i: int| hi <= i < ks.len() ==> L::before(key@, #[trigger] ks[i]),
        decreases hi - lo,
    {
        let mid = lo + (hi - lo) / 2;
        proof {
            L::order_laws();
        }
        match keys[mid].relation(key) {
            Relation::Same => {
                return (true, mid);
            },
            Relation::Before => {
                assert forall|i: int| 0 <= i < mid + 1 implies L::before(#[trigger] ks[i], key@) by {
                    if i < mid {
                        assert(L::before(ks[i], ks[mid as int]));
                    }
                }
                lo = mid + 1;
            },
            Relation::After => {
                assert forall|i: int| mid <= i < ks.len() implies L::before(
                    key@,
                    #[trigger] ks[i],
                ) by {
                    if i > mid {
                        assert(L::before(ks[mid as int], ks[i]));
                    }
                }
                hi = mid;
            },
        }
    }
    (false, lo)
}

/// A sorted association from keys to values.
pub struct Partition<L, V> {
    keys: Vec<L>,
    values: Vec<V>,
}

impl<L: Key, V> Partition<L, V> {
    /// The keys held, by view, in ascending order.
    pub closed spec fn key_seq(&self) -> Seq<L::V> {
        views_of(self.keys@)
    }

    /// The values held, in the order of their keys.
    pub closed spec fn value_seq(&self) -> Seq<V> {
        self.values@
    }

    /// Keys and values pair up and the keys are strictly increasing.
    pub open spec fn wf(&self) -> bool {
        &&& self.key_seq().len() == self.value_seq().len()
        &&& increasing::<L>(self.key_seq())
    }

    /// The association as a map from key views to values.
    pub open spec fn contents(&self) -> Map<L::V, V> {
        paired::<L, V>(self.key_seq(), self.value_seq())
    }

    /// An empty partition.
    pub fn new() -> (p: Self)
        ensures
            p.wf(),
            p.key_seq() == Seq::<L::V>::empty(),
            p.value_seq() == Seq::<V>::empty(),
            p.contents() == Map::<L::V, V>::empty(),
    {
        let p = Partition { keys: Vec::new(), values: Vec::new() };
        assert(p.key_seq() =~= Seq::<L::V>::empty());
        assert(p.contents() =~= Map::<L::V, V>::empty());
        p
    }

    /// The number of entries.
    pub fn len(&self) -> (n: usize)
        requires
            self.wf(),
        ensures
            n == self.key_seq().len(),
            n == self.contents().len(),
    {
        proof {
            self.lemma_contents_len();
        }
        self.keys.len()
    }

    /// A partition holds as many entries as it has keys.
    pub proof fn lemma_contents_len(&self)
        requires
            self.wf(),
        ensures
            self.contents().dom().finite(),
            self.contents().len() == self.key_seq().len(),
    {
        let ks = self.key_seq();
        assert forall|i: int, j: int| 0 <= i < ks.len() && 0 <= j < ks.len() && i != j implies ks[i]
            != ks[j] by {
            if ks[i] == ks[j] {
                lemma_increasing_distinct::<L>(ks, i, j);
            }
        }
        ks.unique_seq_to_set();
        assert(self.contents().dom() =~= ks.to_set());
    }

    /// The entry at index `i` is an entry of the association.
    pub proof fn lemma_entry_at(&self, i: int)
        requires
            self.wf(),
            0 <= i < self.key_seq().len(),
        ensures
            self.contents().contains_key(self.key_seq()[i]),
            self.contents()[self.key_seq()[i]] == self.value_seq()[i],
    {
        lemma_paired_at::<L, V>(self.key_seq(), self.value_seq(), i);
    }

    /// The key at index `i` of the ascending order.
    pub fn key_at(&self, i: usize) -> (l: &L)
        requires
            self.wf(),
            i < self.key_seq().len(),
        ensures
            l@ == self.key_seq()[i as int],
    {
        &self.keys[i]
    }

    /// The value at index `i` of the ascending order of keys.
    pub fn value_at(&self, i: usize) -> (v: &V)
        requires
            self.wf(),
            i < self.key_seq().len(),
        ensures
            *v == self.value_seq()[i as int],
            self.contents().contains_key(self.key_seq()[i as int]),
            *v == self.contents()[self.key_seq()[i as int]],
    {
        proof {
            lemma_paired_at::<L, V>(self.key_seq(), self.value_seq(), i as int);
        }
        &self.values[i]
    }

    /// Where `key` stands in the ascending order, or where it would be put.
    pub fn position(&self, key: &L) -> (r: (bool, usize))
        requires
            self.wf(),
        ensures
            is_position::<L>(self.key_seq(), key@, r.0, r.1 as int),
            r.0 <==> self.contents().contains_key(key@),
    {
        let r = find_position(&self.keys, key);
        proof {
            if r.0 {
                lemma_paired_at::<L, V>(self.key_seq(), self.value_seq(), r.1 as int);
            } else {
                lemma_position_absent::<L>(self.key_seq(), key@, r.1 as int);
            }
        }
        r
    }

    /// Puts `value` in the place of the value at index `at` and returns the
    /// value that stood there.
    pub fn replace_at(&mut self, at: usize, value: V) -> (held: V)
        requires
            old(self).wf(),
            at < old(self).key_seq().len(),
        ensures
            final(self).wf(),
            final(self).key_seq() == old(self).key_seq(),
            final(self).value_seq() == old(self).value_seq().update(at as int, value),
            held == old(self).value_seq()[at as int],
            held == old(self).contents()[old(self).key_seq()[at as int]],
            final(self).contents() == old(self).contents().insert(
                old(self).key_seq()[at as int],
                value,
            ),
    {
        proof {
            lemma_paired_at::<L, V>(self.key_seq(), self.value_seq(), at as int);
            lemma_paired_update::<L, V>(self.key_seq(), self.value_seq(), at as int, value);
        }
        let mut held = value;
        core::mem::swap(&mut held, &mut self.values[at]);
        assert(self.values@ =~= old(self).values@.update(at as int, value));
        held
    }

    /// The value held for `key`, if any.
    pub fn get(&self, key: &L) -> (r: Option<&V>)
        requires
            self.wf(),
        ensures
            match r {
                Some(v) => self.contents().contains_key(key@) && *v == self.contents()[key@],
                None => !self.contents().contains_key(key@),
            },
    {
        let (found, at) = find_position(&self.keys, key);
        if found {
            proof {
                lemma_paired_at::<L, V>(self.key_seq(), self.value_seq(), at as int);
            }
            Some(&self.values[at])
        } else {
            proof {
                lemma_position_absent::<L>(self.key_seq(), key@, at as int);
            }
            None
        }
    }

    /// Associates `value` with `key` and returns the value held before, if any.
    pub fn insert(&mut self, key: L, value: V) -> (r: Option<V>)
        requires
            old(self).wf(),
        ensures
            final(self).wf(),
            final(self).contents() == old(self).contents().insert(key@, value),
            match r {
                Some(v) => old(self).contents().contains_key(key@) && v == old(self).contents()[key@],
                None => !old(self).contents().contains_key(key@),
            },
    {
        let (found, at) = find_position(&self.keys, &key);
        if found {
            proof {
                lemma_paired_at::<L, V>(self.key_seq(), self.value_seq(), at as int);
                lemma_paired_update::<L, V>(self.key_seq(), self.value_seq(), at as int, value);
            }
            let mut held = value;
            core::mem::swap(&mut held, &mut self.values[at]);
            assert(self.values@ =~= old(self).values@.update(at as int, value));
            Some(held)
        } else {
            proof {
                lemma_position_absent::<L>(self.key_seq(), key@, at as int);
                lemma_paired_insert::<L, V>(
                    self.key_seq(),
                    self.value_seq(),
                    at as int,
                    key@,
                    value,
                );
            }
            self.keys.insert(at, key);
            self.values.insert(at, value);
            assert(self.key_seq() =~= old(self).key_seq().insert(at as int, key@));
            None
        }
    }

    /// Replaces the value of `key` by `mutate` of it, starting from the
    /// default value where the key is absent.
    pub fn mutate_with_default<M: FnOnce(V) -> V>(&mut self, key: L, mutate: M) where V: Default
        requires
            old(self).wf(),
            forall|v: V| call_requires(mutate, (v,)),
        ensures
            final(self).wf(),
            exists|before: V, after: V|
                {
                    &&& #[trigger] call_ensures(mutate, (before,), after)
                    &&& final(self).contents() == old(self).contents().insert(key@, after)
                    &&& if old(self).contents().contains_key(key@) {
                        before == old(self).contents()[key@]
                    } else {
                        call_ensures(V::default, (), before)
                    }
                },
    {
        let (found, at) = find_position(&self.keys, &key);
        if found {
            let mut held = V::default();
            core::mem::swap(&mut held, &mut self.values[at]);
            let ghost before = held;
            let after = mutate(held);
            proof {
                lemma_paired_at::<L, V>(old(self).key_seq(), old(self).value_seq(), at as int);
                lemma_paired_update::<L, V>(
                    old(self).key_seq(),
                    old(self).value_seq(),
                    at as int,
                    after,
                );
            }
            self.values[at] = after;
            assert(self.values@ =~= old(self).values@.update(at as int, after));
            assert(call_ensures(mutate, (before,), after));
        } else {
            let start = V::default();
            let ghost before = start;
            let after = mutate(start);
            proof {
                lemma_position_absent::<L>(self.key_seq(), key@, at as int);
                lemma_paired_insert::<L, V>(
                    self.key_seq(),
                    self.value_seq(),
                    at as int,
                    key@,
                    after,
                );
            }
            self.keys.insert(at, key);
            self.values.insert(at, after);
            assert(self.key_seq() =~= old(self).key_seq().insert(at as int, key@));
            assert(call_ensures(mutate, (before,), after));
        }
    }
}

impl<L: Key, V: View> Partition<L, V> {
    /// The association as a map from key views to value views.
    pub open spec fn view_map(&self) -> Map<L::V, V::V> {
        self.contents().map_values(|v: V| v@)
    }
}

} // verus!
