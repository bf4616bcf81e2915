//! A two-level map: every key is classified by a short key, and the entries
//! that share a short key form one partition.
//!
//! The map lives in memory. What it looks like on disk, and how a partition
//! file is searched, is the business of the functions at the end of this
//! module, which turn a map into the lines of its files and back.

use vstd::prelude::*;
use vstd::utf8::{decode_utf8, valid_utf8};
use crate::binary_search_line::{
    is_first, is_full_line, line_at, line_key, present, search_lines, searchable, SearchError,
};
use crate::json::{key_views, texts, Listed, Record};
use crate::keys::{Key, Relation};
use crate::partition::{
    increasing, lemma_increasing_distinct, lemma_paired_at, lemma_paired_insert, paired, Partition,
};

verus! {

/// `f` may return the short key `k` for the key `l`.
pub open spec fn classifies<K: Key, L: Key, F: Fn(&L) -> K>(f: F, l: L::V, k: K::V) -> bool {
    exists|lx: L, kx: K| lx@ == l && kx@ == k && #[trigger] call_ensures(f, (&lx,), kx)
}

/// `f` is a pure function of the key: it accepts every key and gives keys
/// with the same view the same short key.
pub open spec fn is_shortener<K: Key, L: Key, F: Fn(&L) -> K>(f: F) -> bool {
    &&& forall|lx: L| #[trigger] call_requires(f, (&lx,))
    &&& forall|l1: L, k1: K, l2: L, k2: K|
        l1@ == l2@ && #[trigger] call_ensures(f, (&l1,), k1) && #[trigger] call_ensures(
            f,
            (&l2,),
            k2,
        ) ==> k1@ == k2@
}

/// The short key that `f` gives to `l`.
pub open spec fn short_of<K: Key, L: Key, F: Fn(&L) -> K>(f: F, l: L::V) -> K::V {
    choose|k: K::V| classifies::<K, L, F>(f, l, k)
}

/// What one call of a shortener returned is the short key of its argument.
pub proof fn lemma_short_of<K: Key, L: Key, F: Fn(&L) -> K>(f: F, lx: L, kx: K)
    requires
        is_shortener::<K, L, F>(f),
        call_ensures(f, (&lx,), kx),
    ensures
        short_of::<K, L, F>(f, lx@) == kx@,
{
    assert(classifies::<K, L, F>(f, lx@, kx@));
    let k = short_of::<K, L, F>(f, lx@);
    assert(classifies::<K, L, F>(f, lx@, k));
    let (l2, k2) = choose|l2: L, k2: K|
        l2@ == lx@ && k2@ == k && #[trigger] call_ensures(f, (&l2,), k2);
    assert(k2@ == kx@);
}

/// The entries that a map of partitions holds, each under the short key of
/// its key.
pub open spec fn flattened<K: Key, L: Key, V, F: Fn(&L) -> K>(
    f: F,
    outer: Map<K::V, Partition<L, V>>,
) -> Map<L::V, V> {
    Map::new(
        |l: L::V|
            outer.contains_key(short_of::<K, L, F>(f, l)) && outer[short_of::<K, L, F>(
                f,
                l,
            )].contents().contains_key(l),
        |l: L::V| outer[short_of::<K, L, F>(f, l)].contents()[l],
    )
}

/// Every partition is sorted and holds only keys of its own short key.
pub open spec fn partitions_wf<K: Key, L: Key, V, F: Fn(&L) -> K>(
    f: F,
    outer: Map<K::V, Partition<L, V>>,
) -> bool {
    forall|k: K::V| #[trigger]
        outer.contains_key(k) ==> {
            &&& outer[k].wf()
            &&& forall|l: L::V| #[trigger]
                outer[k].contents().contains_key(l) ==> short_of::<K, L, F>(f, l) == k
        }
}

/// Putting an entry into the partition of its short key puts it into the map.
pub proof fn lemma_flattened_insert<K: Key, L: Key, V, F: Fn(&L) -> K>(
    f: F,
    outer: Map<K::V, Partition<L, V>>,
    part: Partition<L, V>,
    l: L::V,
    v: V,
)
    requires
        partitions_wf::<K, L, V, F>(f, outer),
        part.wf(),
        part.contents() == (if outer.contains_key(short_of::<K, L, F>(f, l)) {
            outer[short_of::<K, L, F>(f, l)].contents()
        } else {
            Map::<L::V, V>::empty()
        }).insert(l, v),
    ensures
        partitions_wf::<K, L, V, F>(f, outer.insert(short_of::<K, L, F>(f, l), part)),
        flattened::<K, L, V, F>(f, outer.insert(short_of::<K, L, F>(f, l), part)) == flattened::<
            K,
            L,
            V,
            F,
        >(f, outer).insert(l, v),
{
    let k = short_of::<K, L, F>(f, l);
    let outer2 = outer.insert(k, part);
    assert forall|k2: K::V| #[trigger] outer2.contains_key(k2) implies {
        &&& outer2[k2].wf()
        &&& forall|l2: L::V| #[trigger]
            outer2[k2].contents().contains_key(l2) ==> short_of::<K, L, F>(f, l2) == k2
    } by {
        if k2 != k {
            assert(outer.contains_key(k2));
        } else if outer.contains_key(k) {
        }
    }
    assert(flattened::<K, L, V, F>(f, outer2) =~= flattened::<K, L, V, F>(f, outer).insert(l, v));
}

/// The entries of one partition, in ascending order of their keys.
pub open spec fn rows<L: Key, V>(part: Partition<L, V>) -> Seq<(L::V, V)> {
    Seq::new(part.key_seq().len(), |i: int| (part.key_seq()[i], part.value_seq()[i]))
}

/// The entries of a sequence of partitions, partition after partition.
pub open spec fn listing<L: Key, V>(parts: Seq<Partition<L, V>>) -> Seq<(L::V, V)>
    decreases parts.len(),
{
    if parts.len() == 0 {
        Seq::empty()
    } else {
        listing(parts.drop_last()) + rows(parts.last())
    }
}

/// `t` is what `f` may return for the entry `row`.
pub open spec fn applied<L: Key, V, T, G: Fn(&L, &V) -> T>(f: G, row: (L::V, V), t: T) -> bool {
    exists|l: L| l@ == row.0 && #[trigger] call_ensures(f, (&l, &row.1), t)
}

/// The keys that the first `n` partitions hold.
pub open spec fn keys_upto<L: Key, V>(parts: Seq<Partition<L, V>>, n: int) -> Set<L::V> {
    Set::new(|l: L::V| exists|p: int| 0 <= p < n && #[trigger] parts[p].contents().contains_key(l))
}

/// A map from keys `L` to values `V`, partitioned by the short keys `K` that
/// `F` derives from the keys.
#[verifier::reject_recursive_types(K)]
#[verifier::reject_recursive_types(L)]
#[verifier::reject_recursive_types(F)]
pub struct HierarchicalMap<K, L, V, F> {
    /// Names the home of the map among the data files.
    prefix: String,
    /// Whether every entry that was ever stored is in memory.
    fully_loaded: bool,
    shorten: F,
    map: Partition<K, Partition<L, V>>,
}

impl<K: Key, L: Key, V, F: Fn(&L) -> K> HierarchicalMap<K, L, V, F> {
    /// The function that classifies keys.
    pub closed spec fn shortener(&self) -> F {
        self.shorten
    }

    /// The partitions, by short key.
    pub closed spec fn partitions(&self) -> Partition<K, Partition<L, V>> {
        self.map
    }

    /// The fully-loaded flag.
    pub closed spec fn loaded(&self) -> bool {
        self.fully_loaded
    }

    /// The prefix that names the map's files.
    pub closed spec fn prefix_chars(&self) -> Seq<char> {
        self.prefix@
    }

    /// The short keys for which a partition exists, ascending.
    pub open spec fn short_keys(&self) -> Seq<K::V> {
        self.partitions().key_seq()
    }

    /// The invariant of the map: its shortener is pure, its partitions are
    /// sorted, and every key lies in the partition of its short key.
    pub open spec fn wf(&self) -> bool {
        &&& is_shortener::<K, L, F>(self.shortener())
        &&& self.partitions().wf()
        &&& partitions_wf::<K, L, V, F>(self.shortener(), self.partitions().contents())
    }

    /// The entries in memory.
    pub open spec fn entries(&self) -> Map<L::V, V> {
        flattened::<K, L, V, F>(self.shortener(), self.partitions().contents())
    }

    /// The short key of `l` under this map's shortener.
    pub open spec fn short_key_of(&self, l: L::V) -> K::V {
        short_of::<K, L, F>(self.shortener(), l)
    }

    /// The entries in memory, partition after partition in ascending order
    /// of the short keys, and in ascending order of the keys within each.
    pub open spec fn listing(&self) -> Seq<(L::V, V)> {
        listing(self.partitions().value_seq())
    }

    /// The partition at index `p` is the one that the map holds for the
    /// short key at index `p`.
    pub proof fn lemma_partition_at(&self, p: int)
        requires
            self.wf(),
            0 <= p < self.short_keys().len(),
        ensures
            self.partitions().contents().contains_key(self.short_keys()[p]),
            self.partitions().contents()[self.short_keys()[p]] == self.partitions().value_seq()[p],
            self.partitions().value_seq()[p].wf(),
            forall|l: L::V| #[trigger]
                self.partitions().value_seq()[p].contents().contains_key(l) ==> self.short_key_of(
                    l,
                ) == self.short_keys()[p] && self.entries().contains_key(l) && self.entries()[l]
                    == self.partitions().value_seq()[p].contents()[l],
    {
        lemma_paired_at::<K, Partition<L, V>>(
            self.partitions().key_seq(),
            self.partitions().value_seq(),
            p,
        );
    }

    /// The map holds as many entries as its listing has rows.
    pub proof fn lemma_listing_len(&self)
        requires
            self.wf(),
        ensures
            self.entries().dom().finite(),
            self.entries().len() == self.listing().len(),
    {
        let parts = self.partitions().value_seq();
        self.lemma_keys_upto(parts.len() as int);
        assert(parts.take(parts.len() as int) =~= parts);
        assert(self.entries().dom() =~= keys_upto(parts, parts.len() as int)) by {
            assert forall|l: L::V| self.entries().dom().contains(l) implies keys_upto(
                parts,
                parts.len() as int,
            ).contains(l) by {
                let k = self.short_key_of(l);
                assert(self.partitions().key_seq().contains(k));
                let p = self.partitions().key_seq().index_of(k);
                self.lemma_partition_at(p);
                assert(parts[p].contents().contains_key(l));
            }
            assert forall|l: L::V| keys_upto(parts, parts.len() as int).contains(
                l,
            ) implies self.entries().dom().contains(l) by {
                let p = choose|p: int|
                    0 <= p < parts.len() && #[trigger] parts[p].contents().contains_key(l);
                self.lemma_partition_at(p);
            }
        }
    }

    proof fn lemma_keys_upto(&self, n: int)
        requires
            self.wf(),
            0 <= n <= self.partitions().value_seq().len(),
        ensures
            keys_upto(self.partitions().value_seq(), n).finite(),
            keys_upto(self.partitions().value_seq(), n).len() == listing(
                self.partitions().value_seq().take(n),
            ).len(),
        decreases n,
    {
        let parts = self.partitions().value_seq();
        if n == 0 {
            assert(keys_upto(parts, n) =~= Set::<L::V>::empty());
            assert(parts.take(0) =~= Seq::<Partition<L, V>>::empty());
        } else {
            self.lemma_keys_upto(n - 1);
            let last = parts[n - 1];
            self.lemma_partition_at(n - 1);
            last.lemma_contents_len();
            let before = keys_upto(parts, n - 1);
            assert(keys_upto(parts, n) =~= before + last.contents().dom());
            assert(before.disjoint(last.contents().dom())) by {
                assert forall|l: L::V| !(before.contains(l) && last.contents().dom().contains(l)) by {
                    if before.contains(l) && last.contents().dom().contains(l) {
                        let p = choose|p: int|
                            0 <= p < n - 1 && #[trigger] parts[p].contents().contains_key(l);
                        self.lemma_partition_at(p);
                        lemma_increasing_distinct::<K>(self.short_keys(), p, n - 1);
                    }
                }
            }
            vstd::set_lib::lemma_set_disjoint_lens(before, last.contents().dom());
            assert(parts.take(n).drop_last() =~= parts.take(n - 1));
            assert(parts.take(n).last() == last);
        }
    }

    /// An empty map that is not yet fully loaded. Its files will be named
    /// after `prefix`.
    pub fn new(prefix: String, shorten: F) -> (m: Self)
        requires
            is_shortener::<K, L, F>(shorten),
        ensures
            m.wf(),
            m.shortener() == shorten,
            m.prefix_chars() == prefix@,
            !m.loaded(),
            m.entries() == Map::<L::V, V>::empty(),
            m.short_keys() == Seq::<K::V>::empty(),
    {
        let m = HierarchicalMap { prefix, fully_loaded: false, shorten, map: Partition::new() };
        assert(m.entries() =~= Map::<L::V, V>::empty());
        m
    }

    /// The prefix that names the map's files.
    pub fn prefix(&self) -> (p: &String)
        ensures
            p@ == self.prefix_chars(),
    {
        &self.prefix
    }

    /// Whether every entry that was ever stored is in memory, so that a key
    /// that is not found is absent.
    pub fn is_fully_loaded(&self) -> (b: bool)
        ensures
            b == self.loaded(),
    {
        self.fully_loaded
    }

    /// Declares that the entries in memory are all there is.
    pub fn mark_loaded(&mut self)
        ensures
            final(self).loaded(),
            final(self).shortener() == old(self).shortener(),
            final(self).partitions() == old(self).partitions(),
            final(self).prefix_chars() == old(self).prefix_chars(),
    {
        self.fully_loaded = true;
    }

    /// The number of partitions.
    pub fn total_short_keys(&self) -> (n: usize)
        requires
            self.wf(),
        ensures
            n == self.short_keys().len(),
    {
        self.map.len()
    }

    /// The number of entries in memory, or `usize::MAX` where there are more.
    pub fn total_keys(&self) -> (n: usize)
        requires
            self.wf(),
        ensures
            n == if self.entries().len() <= usize::MAX {
                self.entries().len() as int
            } else {
                usize::MAX as int
            },
    {
        let mut n: usize = 0;
        let mut p: usize = 0;
        let ghost parts = self.partitions().value_seq();
        proof {
            assert(parts.take(0) =~= Seq::<Partition<L, V>>::empty());
        }
        while p < self.map.len()
            invariant
                self.wf(),
                parts == self.partitions().value_seq(),
                0 <= p <= parts.len(),
                n == if listing(parts.take(p as int)).len() <= usize::MAX {
                    listing(parts.take(p as int)).len() as int
                } else {
                    usize::MAX as int
                },
            decreases parts.len() - p,
        {
            proof {
                self.lemma_partition_at(p as int);
                assert(parts.take(p + 1).drop_last() =~= parts.take(p as int));
                assert(parts.take(p + 1).last() == parts[p as int]);
            }
            let part = self.map.value_at(p);
            n = n.saturating_add(part.len());
            p += 1;
        }
        proof {
            assert(parts.take(p as int) =~= parts);
            self.lemma_listing_len();
        }
        n
    }

    /// The number of entries of each partition, in ascending order of the
    /// short keys.
    pub fn partition_sizes(&self) -> (sizes: Vec<usize>)
        requires
            self.wf(),
        ensures
            sizes@.len() == self.short_keys().len(),
            forall|p: int|
                0 <= p < sizes@.len() ==> sizes@[p] == (
                #[trigger] self.partitions().value_seq()[p]).contents().len(),
    {
        let mut sizes: Vec<usize> = Vec::new();
        let mut p: usize = 0;
        while p < self.map.len()
            invariant
                self.wf(),
                0 <= p <= self.short_keys().len(),
                sizes@.len() == p,
                forall|q: int|
                    0 <= q < p ==> sizes@[q] == (
                    #[trigger] self.partitions().value_seq()[q]).contents().len(),
            decreases self.short_keys().len() - p,
        {
            proof {
                self.lemma_partition_at(p as int);
            }
            sizes.push(self.map.value_at(p).len());
            p += 1;
        }
        sizes
    }

    /// Applies `f` to every entry in memory, in the order of the listing,
    /// and returns the results. The map must be fully loaded.
    pub fn with_all<T, G: Fn(&L, &V) -> T>(&self, f: G) -> (out: Vec<T>)
        requires
            self.wf(),
            self.loaded(),
            forall|l: L, v: V| call_requires(f, (&l, &v)),
        ensures
            out@.len() == self.listing().len(),
            forall|i: int|
                0 <= i < out@.len() ==> applied::<L, V, T, G>(
                    f,
                    self.listing()[i],
                    #[trigger] out@[i],
                ),
    {
        let mut out: Vec<T> = Vec::new();
        let mut p: usize = 0;
        let ghost parts = self.partitions().value_seq();
        proof {
            assert(parts.take(0) =~= Seq::<Partition<L, V>>::empty());
        }
        while p < self.map.len()
            invariant
                self.wf(),
                parts == self.partitions().value_seq(),
                0 <= p <= parts.len(),
                forall|l: L, v: V| call_requires(f, (&l, &v)),
                out@.len() == listing(parts.take(p as int)).len(),
                forall|i: int|
                    0 <= i < out@.len() ==> applied::<L, V, T, G>(
                        f,
                        listing(parts.take(p as int))[i],
                        #[trigger] out@[i],
                    ),
            decreases parts.len() - p,
        {
            proof {
                self.lemma_partition_at(p as int);
                assert(parts.take(p + 1).drop_last() =~= parts.take(p as int));
                assert(parts.take(p + 1).last() == parts[p as int]);
            }
            let part = self.map.value_at(p);
            let ghost done = listing(parts.take(p as int));
            let mut j: usize = 0;
            while j < part.len()
                invariant
                    part.wf(),
                    0 <= p < parts.len(),
                    *part == parts[p as int],
                    0 <= j <= part.key_seq().len(),
                    forall|l: L, v: V| call_requires(f, (&l, &v)),
                    out@.len() == done.len() + j,
                    forall|i: int|
                        0 <= i < out@.len() ==> applied::<L, V, T, G>(
                            f,
                            (done + rows(*part))[i],
                            #[trigger] out@[i],
                        ),
                decreases part.key_seq().len() - j,
            {
                let key = part.key_at(j);
                let value = part.value_at(j);
                let t = f(key, value);
                let ghost before = out@;
                out.push(t);
                proof {
                    assert forall|i: int| 0 <= i < out@.len() implies applied::<L, V, T, G>(
                        f,
                        (done + rows(*part))[i],
                        #[trigger] out@[i],
                    ) by {
                        if i < before.len() {
                            assert(out@[i] == before[i]);
                        } else {
                            let row = (done + rows(*part))[i];
                            assert(row == rows(*part)[j as int]);
                            assert(row.0 == key@ && row.1 == *value);
                            assert(call_ensures(f, (key, &row.1), t));
                        }
                    }
                }
                j += 1;
            }
            p += 1;
        }
        proof {
            assert(parts.take(p as int) =~= parts);
        }
        out
    }

    /// The partitions themselves.
    pub fn get_map(&self) -> (m: &Partition<K, Partition<L, V>>)
        ensures
            *m == self.partitions(),
    {
        &self.map
    }

    /// Stores `value` under `key`, in the partition of the key's short key,
    /// which is created if it does not exist. Returns the value that `key`
    /// had before, if any.
    pub fn insert(&mut self, key: L, value: V) -> (r: Option<V>)
        requires
            old(self).wf(),
        ensures
            final(self).wf(),
            final(self).shortener() == old(self).shortener(),
            final(self).loaded() == old(self).loaded(),
            final(self).prefix_chars() == old(self).prefix_chars(),
            final(self).entries() == old(self).entries().insert(key@, value),
            final(self).partitions().contents().dom() == old(self).partitions().contents().dom().insert(
                old(self).short_key_of(key@),
            ),
            match r {
                Some(v) => old(self).entries().contains_key(key@) && v == old(self).entries()[key@],
                None => !old(self).entries().contains_key(key@),
            },
    {
        let short_key = (self.shorten)(&key);
        proof {
            lemma_short_of::<K, L, F>(self.shorten, key, short_key);
        }
        let ghost outer = self.map.contents();
        let (found, at) = self.map.position(&short_key);
        if found {
            let mut part = self.map.replace_at(at, Partition::new());
            let r = part.insert(key, value);
            proof {
                lemma_flattened_insert::<K, L, V, F>(self.shorten, outer, part, key@, value);
            }
            let _ = self.map.replace_at(at, part);
            assert(self.map.contents() =~= outer.insert(short_key@, part));
            assert(self.map.contents().dom() =~= outer.dom().insert(short_key@));
            r
        } else {
            let mut part = Partition::new();
            let r = part.insert(key, value);
            proof {
                lemma_flattened_insert::<K, L, V, F>(self.shorten, outer, part, key@, value);
            }
            let _ = self.map.insert(short_key, part);
            assert(self.map.contents().dom() =~= outer.dom().insert(short_key@));
            r
        }
    }

    /// Replaces the value of `key` by `mutate` of it, starting from the
    /// default value where the key is absent. The partition is created as in
    /// `insert`.
    pub fn mutate_with_default<M: FnOnce(V) -> V>(&mut self, key: L, mutate: M) where V: Default
        requires
            old(self).wf(),
            forall|v: V| call_requires(mutate, (v,)),
        ensures
            final(self).wf(),
            final(self).shortener() == old(self).shortener(),
            final(self).loaded() == old(self).loaded(),
            final(self).prefix_chars() == old(self).prefix_chars(),
            exists|before: V, after: V|
                {
                    &&& #[trigger] call_ensures(mutate, (before,), after)
                    &&& final(self).entries() == old(self).entries().insert(key@, after)
                    &&& if old(self).entries().contains_key(key@) {
                        before == old(self).entries()[key@]
                    } else {
                        call_ensures(V::default, (), before)
                    }
                },
    {
        let short_key = (self.shorten)(&key);
        proof {
            lemma_short_of::<K, L, F>(self.shorten, key, short_key);
        }
        let ghost outer = self.map.contents();
        let (found, at) = self.map.position(&short_key);
        let mut part = if found {
            self.map.replace_at(at, Partition::new())
        } else {
            Partition::new()
        };
        let ghost inner = part.contents();
        part.mutate_with_default(key, mutate);
        proof {
            let (before, after) = choose|before: V, after: V|
                {
                    &&& #[trigger] call_ensures(mutate, (before,), after)
                    &&& part.contents() == inner.insert(key@, after)
                    &&& if inner.contains_key(key@) {
                        before == inner[key@]
                    } else {
                        call_ensures(V::default, (), before)
                    }
                };
            lemma_flattened_insert::<K, L, V, F>(self.shorten, outer, part, key@, after);
            assert(call_ensures(mutate, (before,), after));
        }
        if found {
            let _ = self.map.replace_at(at, part);
            assert(self.map.contents() =~= outer.insert(short_key@, part));
        } else {
            let _ = self.map.insert(short_key, part);
        }
    }

    /// The value held in memory for `key`, if any.
    pub fn get(&self, key: &L) -> (r: Option<&V>)
        requires
            self.wf(),
        ensures
            match r {
                Some(v) => self.entries().contains_key(key@) && *v == self.entries()[key@],
                None => !self.entries().contains_key(key@),
            },
    {
        let short_key = (self.shorten)(key);
        proof {
            lemma_short_of::<K, L, F>(self.shorten, *key, short_key);
        }
        match self.map.get(&short_key) {
            Some(part) => part.get(key),
            None => None,
        }
    }
}

/// Why a map could not be written or read.
#[derive(Debug)]
pub enum MapError {
    /// A short key or an entry has no JSON text.
    Unwritable,
    /// The manifest is not a list of short keys.
    Manifest,
    /// A partition has no file.
    MissingPartition,
    /// A line of a partition file is not an entry.
    Line,
    /// A partition file holds an entry of another short key.
    Misplaced,
}

/// The file of one partition: its short key, which names it, and its lines.
pub struct PartitionFile<K> {
    pub short_key: K,
    pub lines: Vec<String>,
}

/// The files of a map: the manifest, which lists the short keys, and one
/// file for each partition.
pub struct MapFiles<K> {
    pub manifest: String,
    pub partitions: Vec<PartitionFile<K>>,
}

impl<K: Key> MapFiles<K> {
    /// The short key that names the file at index `i`.
    pub open spec fn short_key_at(&self, i: int) -> K::V {
        self.partitions@[i].short_key@
    }

    /// The lines of the file at index `i`.
    pub open spec fn lines_at(&self, i: int) -> Seq<Seq<char>> {
        texts(self.partitions@[i].lines@)
    }

    /// The file at index `i` is the first that `k` names.
    pub open spec fn is_first(&self, k: K::V, i: int) -> bool {
        &&& 0 <= i < self.partitions@.len()
        &&& self.short_key_at(i) == k
        &&& forall|j: int| 0 <= j < i ==> #[trigger] self.short_key_at(j) != k
    }

    /// Some file is named by `k`.
    pub open spec fn has(&self, k: K::V) -> bool {
        exists|i: int| self.is_first(k, i)
    }

    /// The lines of the first file that `k` names.
    pub open spec fn lines_for(&self, k: K::V) -> Seq<Seq<char>> {
        self.lines_at(choose|i: int| self.is_first(k, i))
    }

    /// Only one file is the first that a short key names.
    pub proof fn lemma_first(&self, k: K::V, i: int)
        requires
            self.is_first(k, i),
        ensures
            self.has(k),
            self.lines_for(k) == self.lines_at(i),
    {
        let j = choose|j: int| self.is_first(k, j);
        if j < i {
            assert(self.short_key_at(j) != k);
        } else if i < j {
            assert(self.short_key_at(i) != k);
        }
    }

    /// The index of the first file that `k` names.
    pub fn find(&self, k: &K) -> (r: Option<usize>)
        ensures
            match r {
                Some(i) => self.is_first(k@, i as int),
                None => !self.has(k@),
            },
    {
        let mut i: usize = 0;
        while i < self.partitions.len()
            invariant
                0 <= i <= self.partitions@.len(),
                forall|j: int| 0 <= j < i ==> #[trigger] self.short_key_at(j) != k@,
            decreases self.partitions@.len() - i,
        {
            match self.partitions[i].short_key.relation(k) {
                Relation::Same => {
                    return Some(i);
                },
                _ => {},
            }
            i += 1;
        }
        proof {
            if self.has(k@) {
                let j = choose|j: int| self.is_first(k@, j);
                assert(self.short_key_at(j) == k@);
            }
        }
        None
    }
}

/// The lines of the entries of a partition, in ascending order of the keys.
pub open spec fn lines_of<L: Record<V>, V: View>(part: Partition<L, V>) -> Seq<Option<Seq<char>>> {
    Seq::new(part.key_seq().len(), |j: int| L::line(part.key_seq()[j], part.value_seq()[j]@))
}

/// What the lines of a partition file add to the entries `base` of the
/// partition of the short key `k`: each line that is not empty is an entry,
/// and a later entry replaces an earlier one of the same key. There is no
/// result where a line is not an entry, or is one of another short key.
pub open spec fn loaded<K: Key, L: Record<V>, V: View, F: Fn(&L) -> K>(
    f: F,
    k: K::V,
    base: Map<L::V, V::V>,
    lines: Seq<Seq<char>>,
) -> Option<Map<L::V, V::V>>
    decreases lines.len(),
{
    if lines.len() == 0 {
        Some(base)
    } else {
        match loaded::<K, L, V, F>(f, k, base, lines.drop_last()) {
            None => None,
            Some(m) => {
                if lines.last().len() == 0 {
                    Some(m)
                } else {
                    match L::record(lines.last()) {
                        None => None,
                        Some(pair) => if short_of::<K, L, F>(f, pair.0) == k {
                            Some(m.insert(pair.0, pair.1))
                        } else {
                            None
                        },
                    }
                }
            },
        }
    }
}

/// Lines that cannot be loaded cannot be loaded with more lines after them.
pub proof fn lemma_loaded_prefix<K: Key, L: Record<V>, V: View, F: Fn(&L) -> K>(
    f: F,
    k: K::V,
    base: Map<L::V, V::V>,
    lines: Seq<Seq<char>>,
    n: int,
)
    requires
        0 <= n <= lines.len(),
        loaded::<K, L, V, F>(f, k, base, lines.take(n)) is None,
    ensures
        loaded::<K, L, V, F>(f, k, base, lines) is None,
    decreases lines.len() - n,
{
    if n < lines.len() {
        assert(lines.take(n + 1).drop_last() =~= lines.take(n));
        lemma_loaded_prefix::<K, L, V, F>(f, k, base, lines, n + 1);
    } else {
        assert(lines.take(n) =~= lines);
    }
}

impl<K: Listed, L: Record<V>, V: View, F: Fn(&L) -> K> HierarchicalMap<K, L, V, F> {
    /// The entries in memory as a map from key views to value views.
    pub open spec fn view_map(&self) -> Map<L::V, V::V> {
        self.entries().map_values(|v: V| v@)
    }

    /// The short keys have a manifest and every entry has a line.
    pub open spec fn encodable(&self) -> bool {
        &&& K::listed(self.short_keys()) is Some
        &&& forall|p: int, j: int|
            0 <= p < self.short_keys().len() && 0 <= j < self.partitions().value_seq()[p].key_seq().len()
                ==> (#[trigger] lines_of::<L, V>(self.partitions().value_seq()[p])[j]) is Some
    }

    /// `files` are the files of this map: the manifest lists the short keys
    /// in ascending order, and for each short key, in that order, there is
    /// the file of its partition, with the lines of the entries in ascending
    /// order of their keys.
    pub open spec fn is_image(&self, files: MapFiles<K>) -> bool {
        &&& K::listed(self.short_keys()) == Some(files.manifest@)
        &&& files.partitions@.len() == self.short_keys().len()
        &&& forall|p: int|
            0 <= p < self.short_keys().len() ==> {
                &&& #[trigger] files.short_key_at(p) == self.short_keys()[p]
                &&& files.lines_at(p).map_values(|s: Seq<char>| Some(s)) == lines_of::<L, V>(
                    self.partitions().value_seq()[p],
                )
            }
    }

    /// The texts of the files of this map. The map must be fully loaded.
    /// Fails where `serde_json` refuses a short key or an entry.
    pub fn serialize(&self) -> (r: Result<MapFiles<K>, MapError>)
        requires
            self.wf(),
            self.loaded(),
        ensures
            match r {
                Ok(files) => self.encodable() && self.is_image(files),
                Err(e) => !self.encodable() && e is Unwritable,
            },
    {
        let ghost parts = self.partitions().value_seq();
        let count = self.map.len();
        let mut keys: Vec<K> = Vec::new();
        let mut p: usize = 0;
        while p < count
            invariant
                self.wf(),
                count == self.short_keys().len(),
                0 <= p <= count,
                key_views::<K>(keys@) == self.short_keys().take(p as int),
            decreases count - p,
        {
            let key = self.map.key_at(p).duplicate();
            let ghost before = keys@;
            keys.push(key);
            proof {
                let now = key_views::<K>(keys@);
                let goal = self.short_keys().take(p + 1);
                assert(key_views::<K>(before).len() == before.len());
                assert(self.short_keys().take(p as int).len() == p);
                assert(keys@.len() == before.len() + 1);
                assert(now.len() == goal.len());
                assert forall|i: int| 0 <= i < now.len() implies now[i] == goal[i] by {
                    if i < p {
                        assert(keys@[i] == before[i]);
                        assert(key_views::<K>(before)[i] == self.short_keys().take(p as int)[i]);
                    }
                }
                assert(now =~= goal);
            }
            p += 1;
        }
        assert(self.short_keys().take(count as int) =~= self.short_keys());
        let manifest = match K::encode_list(&keys) {
            Some(text) => text,
            None => {
                return Err(MapError::Unwritable);
            },
        };
        let mut partitions: Vec<PartitionFile<K>> = Vec::new();
        let mut p: usize = 0;
        while p < count
            invariant
                self.wf(),
                parts == self.partitions().value_seq(),
                count == self.short_keys().len(),
                0 <= p <= count,
                partitions@.len() == p,
                forall|q: int|
                    0 <= q < p ==> {
                        &&& (#[trigger] partitions@[q]).short_key@ == self.short_keys()[q]
                        &&& texts(partitions@[q].lines@).map_values(|s: Seq<char>| Some(s))
                            == lines_of::<L, V>(parts[q])
                    },
            decreases count - p,
        {
            proof {
                self.lemma_partition_at(p as int);
            }
            let part = self.map.value_at(p);
            let mut lines: Vec<String> = Vec::new();
            let mut j: usize = 0;
            while j < part.len()
                invariant
                    part.wf(),
                    0 <= p < count,
                    count == parts.len(),
                    count == self.short_keys().len(),
                    parts == self.partitions().value_seq(),
                    *part == parts[p as int],
                    0 <= j <= part.key_seq().len(),
                    texts(lines@).map_values(|s: Seq<char>| Some(s)) == lines_of::<L, V>(
                        *part,
                    ).take(j as int),
                decreases part.key_seq().len() - j,
            {
                let ghost before = lines@;
                match L::encode(part.key_at(j), part.value_at(j)) {
                    Some(line) => {
                        lines.push(line);
                        proof {
                            let now = texts(lines@).map_values(|s: Seq<char>| Some(s));
                            let goal = lines_of::<L, V>(*part).take(j + 1);
                            assert(texts(before).map_values(|s: Seq<char>| Some(s)).len()
                                == before.len());
                            assert(lines_of::<L, V>(*part).take(j as int).len() == j);
                            assert(lines@.len() == before.len() + 1);
                            assert(now.len() == goal.len());
                            assert forall|i: int| 0 <= i < now.len() implies now[i] == goal[i] by {
                                if i < j {
                                    assert(lines@[i] == before[i]);
                                    assert(texts(before).map_values(|s: Seq<char>| Some(s))[i]
                                        == lines_of::<L, V>(*part).take(j as int)[i]);
                                }
                            }
                            assert(now =~= goal);
                        }
                    },
                    None => {
                        assert(lines_of::<L, V>(self.partitions().value_seq()[p as int])[j as int] is None);
                        return Err(MapError::Unwritable);
                    },
                }
                j += 1;
            }
            assert(lines_of::<L, V>(*part).take(j as int) =~= lines_of::<L, V>(*part));
            let short_key = self.map.key_at(p).duplicate();
            partitions.push(PartitionFile { short_key, lines });
            p += 1;
        }
        let files = MapFiles { manifest, partitions };
        proof {
            assert forall|p: int, j: int|
                0 <= p < self.short_keys().len() && 0 <= j
                    < self.partitions().value_seq()[p].key_seq().len() implies (
            #[trigger] lines_of::<L, V>(self.partitions().value_seq()[p])[j]) is Some by {
                let texts_p = texts(files.partitions@[p].lines@);
                assert(texts_p.map_values(|s: Seq<char>| Some(s))[j] == Some(texts_p[j]));
            }
        }
        Ok(files)
    }

    /// The partitions once the short keys of a manifest have been staged:
    /// each listed short key has an empty partition, and every other
    /// partition is as before. Partitions are given by their entries, as
    /// views.
    pub open spec fn staged(&self, listed: Seq<K::V>) -> Map<K::V, Map<L::V, V::V>> {
        Map::new(
            |k: K::V| listed.contains(k) || self.partitions().contents().contains_key(k),
            |k: K::V|
                if listed.contains(k) {
                    Map::<L::V, V::V>::empty()
                } else {
                    self.partitions().contents()[k].view_map()
                },
        )
    }

    /// The files can be read into this map: the manifest is a list of short
    /// keys and, where the partitions are to be read too, each staged
    /// partition has a file whose lines can be loaded.
    pub open spec fn restorable(&self, files: MapFiles<K>, full: bool) -> bool {
        &&& K::unlisted(files.manifest@) is Some
        &&& full ==> forall|k: K::V| #[trigger]
            self.staged(K::unlisted(files.manifest@).unwrap()).contains_key(k) ==> {
                &&& files.has(k)
                &&& loaded::<K, L, V, F>(
                    self.shortener(),
                    k,
                    self.staged(K::unlisted(files.manifest@).unwrap())[k],
                    files.lines_for(k),
                ) is Some
            }
    }

    /// `after` is this map with the files read into it: its partitions are
    /// the staged ones and, where the partitions were read too, each holds
    /// what the lines of its file add to it, and the map is fully loaded.
    pub open spec fn restored(&self, files: MapFiles<K>, full: bool, after: Self) -> bool {
        let st = self.staged(K::unlisted(files.manifest@).unwrap());
        &&& after.wf()
        &&& after.shortener() == self.shortener()
        &&& after.prefix_chars() == self.prefix_chars()
        &&& after.loaded() == (full || self.loaded())
        &&& after.partitions().contents().dom() == st.dom()
        &&& forall|k: K::V| #[trigger]
            st.contains_key(k) ==> if full {
                loaded::<K, L, V, F>(self.shortener(), k, st[k], files.lines_for(k)) == Some(
                    after.partitions().contents()[k].view_map(),
                )
            } else {
                after.partitions().contents()[k].view_map() == st[k]
            }
    }

    /// What an error says of files that cannot be read: the manifest is no
    /// list of short keys; or a staged partition has no file; or the lines
    /// of the file of a staged partition cannot be loaded.
    pub open spec fn faulted(&self, files: MapFiles<K>, full: bool, e: MapError) -> bool {
        let listed = K::unlisted(files.manifest@);
        match e {
            MapError::Manifest => listed is None,
            MapError::MissingPartition => full && listed is Some && exists|k: K::V|
                #[trigger] self.staged(listed.unwrap()).contains_key(k) && !files.has(k),
            MapError::Line | MapError::Misplaced => full && listed is Some && exists|k: K::V|
                #[trigger] self.staged(listed.unwrap()).contains_key(k) && files.has(k) && loaded::<
                    K,
                    L,
                    V,
                    F,
                >(self.shortener(), k, self.staged(listed.unwrap())[k], files.lines_for(k)) is None,
            MapError::Unwritable => false,
        }
    }

    /// Reads the files of a map, where there are any, into this map.
    ///
    /// Without files nothing changes and the result is `false`. Else each
    /// short key of the manifest is given an empty partition. If `full`,
    /// the file of every partition is then read, each line that is not
    /// empty giving one entry, and the map is marked as fully loaded. The
    /// result is `true`.
    ///
    /// Fails where the manifest is no list of short keys, a partition has no
    /// file, a line is no entry, or an entry stands in the file of another
    /// short key. The map is then left in a valid state that is not marked
    /// as fully loaded unless it was before; what it holds is not stated.
    pub fn deserialize(&mut self, files: Option<&MapFiles<K>>, full: bool) -> (r: Result<
        bool,
        MapError,
    >)
        requires
            old(self).wf(),
        ensures
            final(self).wf(),
            final(self).shortener() == old(self).shortener(),
            match r {
                Ok(found) => match files {
                    None => !found && *final(self) == *old(self),
                    Some(f) => found && old(self).restorable(*f, full) && old(self).restored(
                        *f,
                        full,
                        *final(self),
                    ),
                },
                Err(e) => files matches Some(f) && !old(self).restorable(*f, full) && old(
                    self,
                ).faulted(*f, full, e),
            },
            r is Err ==> final(self).loaded() == old(self).loaded(),
    {
        let input = match files {
            None => {
                return Ok(false);
            },
            Some(input) => input,
        };
        let keys = match K::decode_list(input.manifest.as_str()) {
            Some(keys) => keys,
            None => {
                return Err(MapError::Manifest);
            },
        };
        let ghost f = self.shorten;
        let ghost listed = key_views::<K>(keys@);
        let ghost st = self.staged(listed);
        let ghost before = self.map.contents();
        let mut i: usize = 0;
        while i < keys.len()
            invariant
                0 <= i <= keys.len(),
                listed == key_views::<K>(keys@),
                before == old(self).partitions().contents(),
                old(self).wf(),
                self.wf(),
                f == self.shortener(),
                f == old(self).shortener(),
                self.loaded() == old(self).loaded(),
                self.prefix_chars() == old(self).prefix_chars(),
                forall|k: K::V|
                    self.partitions().contents().contains_key(k) <==> listed.take(
                        i as int,
                    ).contains(k) || before.contains_key(k),
                forall|k: K::V| #[trigger]
                    self.partitions().contents().contains_key(k) ==> if listed.take(
                        i as int,
                    ).contains(k) {
                        self.partitions().contents()[k].contents() == Map::<L::V, V>::empty()
                    } else {
                        self.partitions().contents()[k] == before[k]
                    },
            decreases keys.len() - i,
        {
            let short_key = keys[i].duplicate();
            let ghost outer = self.map.contents();
            let empty: Partition<L, V> = Partition::new();
            let _ = self.map.insert(short_key, empty);
            proof {
                let now = self.map.contents();
                assert(now == outer.insert(short_key@, empty));
                assert(listed.take(i + 1) =~= listed.take(i as int).push(short_key@));
                assert forall|k: K::V|
                    now.contains_key(k) <==> listed.take(i + 1).contains(k) || before.contains_key(
                        k,
                    ) by {
                    if listed.take(i as int).contains(k) {
                        let j = listed.take(i as int).index_of(k);
                        assert(listed.take(i + 1)[j] == k);
                    }
                    if listed.take(i + 1).contains(k) {
                        let j = listed.take(i + 1).index_of(k);
                        if j < i {
                            assert(listed.take(i as int)[j] == k);
                        }
                    }
                    assert(listed.take(i + 1)[i as int] == short_key@);
                }
                assert forall|k: K::V| #[trigger] now.contains_key(k) implies if listed.take(
                    i + 1,
                ).contains(k) {
                    now[k].contents() == Map::<L::V, V>::empty()
                } else {
                    now[k] == before[k]
                } by {
                    assert(listed.take(i + 1)[i as int] == short_key@);
                    if k != short_key@ {
                        assert(outer.contains_key(k));
                        if listed.take(i as int).contains(k) {
                            let j = listed.take(i as int).index_of(k);
                            assert(listed.take(i + 1)[j] == k);
                        }
                        if listed.take(i + 1).contains(k) {
                            let j = listed.take(i + 1).index_of(k);
                            assert(listed.take(i as int)[j] == k);
                        }
                    }
                }
                assert(partitions_wf::<K, L, V, F>(f, now)) by {
                    assert forall|k: K::V| #[trigger] now.contains_key(k) implies {
                        &&& now[k].wf()
                        &&& forall|l: L::V| #[trigger]
                            now[k].contents().contains_key(l) ==> short_of::<K, L, F>(f, l) == k
                    } by {
                        if k != short_key@ {
                            assert(outer.contains_key(k));
                        }
                    }
                }
            }
            i += 1;
        }
        let ghost mid = self.map;
        proof {
            assert(listed.take(i as int) =~= listed);
            assert(mid.contents().dom() =~= st.dom());
            assert forall|k: K::V| #[trigger] st.contains_key(k) implies mid.contents()[k].view_map()
                == st[k] by {
                assert(mid.contents().contains_key(k));
                if listed.contains(k) {
                    assert(mid.contents()[k].view_map() =~= Map::<L::V, V::V>::empty());
                }
            }
        }
        if !full {
            return Ok(true);
        }
        let count = self.map.len();
        let mut p: usize = 0;
        while p < count
            invariant
                0 <= p <= count,
                files == Some(input),
                count == mid.key_seq().len(),
                old(self).wf(),
                self.wf(),
                mid.wf(),
                full,
                f == self.shortener(),
                f == old(self).shortener(),
                listed == K::unlisted(input.manifest@).unwrap(),
                K::unlisted(input.manifest@) is Some,
                st == old(self).staged(listed),
                self.loaded() == old(self).loaded(),
                self.prefix_chars() == old(self).prefix_chars(),
                mid.contents().dom() == st.dom(),
                forall|k: K::V| #[trigger] st.contains_key(k) ==> mid.contents()[k].view_map() == st[k],
                self.partitions().key_seq() == mid.key_seq(),
                forall|q: int|
                    p <= q < count ==> #[trigger] self.partitions().value_seq()[q]
                        == mid.value_seq()[q],
                forall|q: int|
                    0 <= q < p ==> {
                        &&& input.has(#[trigger] mid.key_seq()[q])
                        &&& loaded::<K, L, V, F>(
                            f,
                            mid.key_seq()[q],
                            mid.value_seq()[q].view_map(),
                            input.lines_for(mid.key_seq()[q]),
                        ) == Some(self.partitions().value_seq()[q].view_map())
                    },
            decreases count - p,
        {
            let short_key = self.map.key_at(p).duplicate();
            proof {
                lemma_paired_at::<K, Partition<L, V>>(mid.key_seq(), mid.value_seq(), p as int);
                assert(st.contains_key(short_key@));
                assert(st[short_key@] == mid.value_seq()[p as int].view_map());
                self.lemma_partition_at(p as int);
            }
            let at = match input.find(&short_key) {
                Some(at) => at,
                None => {
                    proof {
                        assert(old(self).staged(
                            K::unlisted(input.manifest@).unwrap(),
                        ).contains_key(short_key@));
                        assert(!old(self).restorable(*input, full));
                    }
                    return Err(MapError::MissingPartition);
                },
            };
            proof {
                input.lemma_first(short_key@, at as int);
            }
            let ghost outer = self.map.contents();
            let mut part = self.map.replace_at(p, Partition::new());
            let ghost base = part.view_map();
            let ghost emptied = self.map;
            proof {
                assert(partitions_wf::<K, L, V, F>(f, emptied.contents())) by {
                    assert forall|k: K::V| #[trigger] emptied.contents().contains_key(k) implies {
                        &&& emptied.contents()[k].wf()
                        &&& forall|l: L::V| #[trigger]
                            emptied.contents()[k].contents().contains_key(l) ==> short_of::<K, L, F>(
                                f,
                                l,
                            ) == k
                    } by {
                        if k != short_key@ {
                            assert(outer.contains_key(k));
                        }
                    }
                }
            }
            let file = &input.partitions[at];
            let ghost lines = texts(file.lines@);
            let mut j: usize = 0;
            while j < file.lines.len()
                invariant
                    0 <= j <= file.lines@.len(),
                    files == Some(input),
                    lines == texts(file.lines@),
                    lines == input.lines_for(short_key@),
                    input.has(short_key@),
                    old(self).wf(),
                    self.wf(),
                    self.map == emptied,
                    self.loaded() == old(self).loaded(),
                    full,
                    f == self.shortener(),
                    f == old(self).shortener(),
                    listed == K::unlisted(input.manifest@).unwrap(),
                    K::unlisted(input.manifest@) is Some,
                    st == old(self).staged(listed),
                    st.contains_key(short_key@),
                    st[short_key@] == base,
                    part.wf(),
                    forall|l: L::V| #[trigger]
                        part.contents().contains_key(l) ==> short_of::<K, L, F>(f, l) == short_key@,
                    loaded::<K, L, V, F>(f, short_key@, base, lines.take(j as int)) == Some(
                        part.view_map(),
                    ),
                decreases file.lines@.len() - j,
            {
                let line = file.lines[j].as_str();
                proof {
                    assert(lines.take(j + 1).drop_last() =~= lines.take(j as int));
                    assert(lines.take(j + 1).last() == line@);
                }
                if !line.is_empty() {
                    match L::decode(line) {
                        None => {
                            proof {
                                assert(loaded::<K, L, V, F>(
                                    f,
                                    short_key@,
                                    base,
                                    lines.take(j + 1),
                                ) is None);
                                lemma_loaded_prefix::<K, L, V, F>(
                                    f,
                                    short_key@,
                                    base,
                                    lines,
                                    j + 1,
                                );
                                assert(old(self).staged(
                                    K::unlisted(input.manifest@).unwrap(),
                                ).contains_key(short_key@));
                                assert(!old(self).restorable(*input, full));
                            }
                            return Err(MapError::Line);
                        },
                        Some(pair) => {
                            let (key, value) = pair;
                            let found = (self.shorten)(&key);
                            proof {
                                lemma_short_of::<K, L, F>(f, key, found);
                            }
                            match found.relation(&short_key) {
                                Relation::Same => {
                                    let ghost was = part.view_map();
                                    let _ = part.insert(key, value);
                                    assert(part.view_map() =~= was.insert(key@, value@));
                                },
                                _ => {
                                    proof {
                                        K::order_laws();
                                        assert(loaded::<K, L, V, F>(
                                            f,
                                            short_key@,
                                            base,
                                            lines.take(j + 1),
                                        ) is None);
                                        lemma_loaded_prefix::<K, L, V, F>(
                                            f,
                                            short_key@,
                                            base,
                                            lines,
                                            j + 1,
                                        );
                                        assert(old(self).staged(
                                            K::unlisted(input.manifest@).unwrap(),
                                        ).contains_key(short_key@));
                                        assert(!old(self).restorable(*input, full));
                                    }
                                    return Err(MapError::Misplaced);
                                },
                            }
                        },
                    }
                }
                j += 1;
            }
            proof {
                assert(lines.take(j as int) =~= lines);
            }
            let _ = self.map.replace_at(p, part);
            proof {
                let now = self.map.contents();
                assert(partitions_wf::<K, L, V, F>(f, now)) by {
                    assert forall|k: K::V| #[trigger] now.contains_key(k) implies {
                        &&& now[k].wf()
                        &&& forall|l: L::V| #[trigger]
                            now[k].contents().contains_key(l) ==> short_of::<K, L, F>(f, l) == k
                    } by {
                        if k != short_key@ {
                            assert(emptied.contents().contains_key(k));
                        }
                    }
                }
            }
            p += 1;
        }
        self.fully_loaded = true;
        proof {
            let after = self.partitions().contents();
            assert forall|k: K::V| after.contains_key(k) <==> st.contains_key(k) by {
                if after.contains_key(k) {
                    let q = self.partitions().key_seq().index_of(k);
                    lemma_paired_at::<K, Partition<L, V>>(mid.key_seq(), mid.value_seq(), q);
                }
                if st.contains_key(k) {
                    assert(mid.contents().dom().contains(k));
                    let q = mid.key_seq().index_of(k);
                    self.lemma_partition_at(q);
                }
            }
            assert(after.dom() =~= st.dom());
            assert forall|k: K::V| #[trigger] st.contains_key(k) implies input.has(k) && loaded::<
                K,
                L,
                V,
                F,
            >(f, k, st[k], input.lines_for(k)) == Some(after[k].view_map()) by {
                assert(mid.contents().dom().contains(k));
                let q = mid.key_seq().index_of(k);
                lemma_paired_at::<K, Partition<L, V>>(mid.key_seq(), mid.value_seq(), q);
                self.lemma_partition_at(q);
                assert(input.has(mid.key_seq()[q]));
            }
        }
        Ok(true)
    }
}

/// Every line that stands for an entry is not empty and is read back as
/// that entry.
pub open spec fn records_read_back<L: Record<V>, V: View>() -> bool {
    forall|l: L::V, v: V::V| #[trigger]
        L::line(l, v) matches Some(text) ==> text.len() > 0 && L::record(text) == Some((l, v))
}

/// Every text that stands for a list of short keys is read back as that list.
pub open spec fn lists_read_back<K: Listed>() -> bool {
    forall|keys: Seq<K::V>| #[trigger]
        K::listed(keys) matches Some(text) ==> K::unlisted(text) == Some(keys)
}

/// Two strictly increasing sequences that hold the same keys are equal.
pub proof fn lemma_increasing_same<K: Key>(a: Seq<K::V>, b: Seq<K::V>)
    requires
        increasing::<K>(a),
        increasing::<K>(b),
        forall|x: K::V| a.contains(x) <==> b.contains(x),
    ensures
        a == b,
    decreases a.len(),
{
    K::order_laws();
    if a.len() == 0 {
        if b.len() > 0 {
            assert(b.contains(b[0]));
        }
        assert(a =~= b);
    } else {
        assert(a.contains(a.last()));
        assert(b.contains(a.last()));
        let j = b.index_of(a.last());
        assert(b.contains(b.last()));
        let i = a.index_of(b.last());
        if j < b.len() - 1 {
            assert(K::before(b[j], b.last()));
            if i < a.len() - 1 {
                assert(K::before(a[i], a.last()));
            }
        }
        assert(b.last() == a.last());
        let a0 = a.drop_last();
        let b0 = b.drop_last();
        assert forall|x: K::V| a0.contains(x) <==> b0.contains(x) by {
            if a0.contains(x) {
                let n = a0.index_of(x);
                assert(a[n] == x);
                assert(K::before(a[n], a.last()));
                assert(a.contains(x));
                let m = b.index_of(x);
                assert(b0[m] == x);
            }
            if b0.contains(x) {
                let n = b0.index_of(x);
                assert(b[n] == x);
                assert(K::before(b[n], b.last()));
                assert(b.contains(x));
                let m = a.index_of(x);
                assert(a0[m] == x);
            }
        }
        assert(increasing::<K>(a0)) by {
            assert forall|i: int, j: int| 0 <= i < j < a0.len() implies #[trigger] K::before(
                a0[i],
                a0[j],
            ) by {
                assert(K::before(a[i], a[j]));
            }
        }
        assert(increasing::<K>(b0)) by {
            assert forall|i: int, j: int| 0 <= i < j < b0.len() implies #[trigger] K::before(
                b0[i],
                b0[j],
            ) by {
                assert(K::before(b[i], b[j]));
            }
        }
        lemma_increasing_same::<K>(a0, b0);
        assert(a =~= a0.push(a.last()));
        assert(b =~= b0.push(b.last()));
    }
}

/// Where lines are read back, loading the lines of a partition into an
/// empty partition gives the entries of that partition.
pub proof fn lemma_loaded_lines<K: Key, L: Record<V>, V: View, F: Fn(&L) -> K>(
    f: F,
    k: K::V,
    part: Partition<L, V>,
    lines: Seq<Seq<char>>,
    n: int,
)
    requires
        records_read_back::<L, V>(),
        part.wf(),
        forall|l: L::V| #[trigger] part.contents().contains_key(l) ==> short_of::<K, L, F>(f, l) == k,
        lines.map_values(|s: Seq<char>| Some(s)) == lines_of::<L, V>(part),
        0 <= n <= lines.len(),
    ensures
        loaded::<K, L, V, F>(f, k, Map::<L::V, V::V>::empty(), lines.take(n)) == Some(
            paired::<L, V>(part.key_seq().take(n), part.value_seq().take(n)).map_values(|v: V| v@),
        ),
        increasing::<L>(part.key_seq().take(n)),
    decreases n,
{
    let keys = part.key_seq();
    let values = part.value_seq();
    let empty = Map::<L::V, V::V>::empty();
    assert(lines.len() == keys.len()) by {
        assert(lines.map_values(|s: Seq<char>| Some(s)).len() == lines.len());
    }
    assert(increasing::<L>(keys.take(n))) by {
        assert forall|i: int, j: int| 0 <= i < j < keys.take(n).len() implies #[trigger] L::before(
            keys.take(n)[i],
            keys.take(n)[j],
        ) by {
            assert(L::before(keys[i], keys[j]));
        }
    }
    if n == 0 {
        assert(paired::<L, V>(keys.take(0), values.take(0)).map_values(|v: V| v@) =~= empty);
    } else {
        lemma_loaded_lines::<K, L, V, F>(f, k, part, lines, n - 1);
        let m = n - 1;
        assert(lines.take(n).drop_last() =~= lines.take(m));
        assert(lines.take(n).last() == lines[m]);
        assert(lines.map_values(|s: Seq<char>| Some(s))[m] == Some(lines[m]));
        assert(lines_of::<L, V>(part)[m] == L::line(keys[m], values[m]@));
        lemma_paired_at::<L, V>(keys, values, m);
        assert(part.contents().contains_key(keys[m]));
        assert(short_of::<K, L, F>(f, keys[m]) == k);
        assert forall|i: int| 0 <= i < m implies L::before(#[trigger] keys.take(m)[i], keys[m]) by {
            assert(L::before(keys[i], keys[m]));
        }
        lemma_paired_insert::<L, V>(keys.take(m), values.take(m), m, keys[m], values[m]);
        assert(keys.take(m).insert(m, keys[m]) =~= keys.take(n));
        assert(values.take(m).insert(m, values[m]) =~= values.take(n));
        let before = paired::<L, V>(keys.take(m), values.take(m));
        assert(before.insert(keys[m], values[m]).map_values(|v: V| v@) =~= before.map_values(
            |v: V| v@,
        ).insert(keys[m], values[m]@));
    }
}

/// Writing a fully loaded map and reading the files into a new map with
/// the same shortener gives the same map: the same short keys and, by view,
/// the same entries. This holds where `serde_json` reads back what it wrote.
pub proof fn lemma_serialize_deserialize<K: Listed, L: Record<V>, V: View, F: Fn(&L) -> K>(
    map: HierarchicalMap<K, L, V, F>,
    files: MapFiles<K>,
    fresh: HierarchicalMap<K, L, V, F>,
    after: HierarchicalMap<K, L, V, F>,
)
    requires
        map.wf(),
        map.is_image(files),
        fresh.wf(),
        fresh.shortener() == map.shortener(),
        fresh.short_keys() == Seq::<K::V>::empty(),
        fresh.restored(files, true, after),
    ensures
        records_read_back::<L, V>() && lists_read_back::<K>() ==> {
            &&& after.loaded()
            &&& after.short_keys() == map.short_keys()
            &&& after.view_map() == map.view_map()
        },
{
    if records_read_back::<L, V>() && lists_read_back::<K>() {
        let f = map.shortener();
        let keys = map.short_keys();
        let parts = map.partitions().value_seq();
        let st = fresh.staged(keys);
        let outer = map.partitions().contents();
        let outer2 = after.partitions().contents();
        assert(K::unlisted(files.manifest@) == Some(keys));
        assert forall|k: K::V| !fresh.partitions().contents().contains_key(k) by {
            if fresh.partitions().contents().contains_key(k) {
                assert(fresh.partitions().key_seq().contains(k));
            }
        }
        assert forall|k: K::V| #[trigger] st.contains_key(k) <==> outer.contains_key(k) by {}
        assert forall|k: K::V| #[trigger] outer.contains_key(k) implies outer2.contains_key(k)
            && outer2[k].view_map() == outer[k].view_map() by {
            let p = keys.index_of(k);
            map.lemma_partition_at(p);
            assert(files.is_first(k, p)) by {
                assert forall|j: int| 0 <= j < p implies #[trigger] files.short_key_at(j) != k by {
                    if files.short_key_at(j) == k {
                        lemma_increasing_distinct::<K>(keys, j, p);
                    }
                }
            }
            files.lemma_first(k, p);
            let lines = files.lines_at(p);
            assert(lines.len() == parts[p].key_seq().len()) by {
                assert(lines.map_values(|s: Seq<char>| Some(s)).len() == lines.len());
            }
            lemma_loaded_lines::<K, L, V, F>(f, k, parts[p], lines, lines.len() as int);
            assert(lines.take(lines.len() as int) =~= lines);
            assert(parts[p].key_seq().take(lines.len() as int) =~= parts[p].key_seq());
            assert(parts[p].value_seq().take(lines.len() as int) =~= parts[p].value_seq());
            assert(st.contains_key(k));
            assert(outer2.dom().contains(k));
        }
        assert forall|x: K::V| after.short_keys().contains(x) <==> keys.contains(x) by {
            assert(outer2.dom().contains(x) <==> st.dom().contains(x));
        }
        lemma_increasing_same::<K>(after.short_keys(), keys);
        assert(after.view_map() =~= map.view_map()) by {
            assert forall|l: L::V| after.view_map().contains_key(l) <==> map.view_map().contains_key(
                l,
            ) by {
                let k = short_of::<K, L, F>(f, l);
                if outer.contains_key(k) {
                    assert(outer2[k].view_map().contains_key(l) <==> outer[k].view_map().contains_key(
                        l,
                    ));
                } else {
                    assert(!st.dom().contains(k));
                    assert(!outer2.dom().contains(k));
                }
            }
            assert forall|l: L::V| after.view_map().contains_key(l) implies after.view_map()[l]
                == map.view_map()[l] by {
                let k = short_of::<K, L, F>(f, l);
                assert(outer.contains_key(k));
                assert(outer2[k].view_map()[l] == outer[k].view_map()[l]);
            }
        }
    }
}

/// The entry that the line starting at `s` stands for, where it is valid
/// UTF-8 and stands for one.
pub open spec fn entry_at<L: Record<V>, V: View>(d: Seq<u8>, s: int) -> Option<(L::V, V::V)> {
    if valid_utf8(line_at(d, s)) {
        L::record(decode_utf8(line_at(d, s)))
    } else {
        None
    }
}

/// The key of the entry that a text stands for.
pub open spec fn record_key<L: Record<V>, V: View>() -> spec_fn(Seq<char>) -> Option<L::V> {
    |text: Seq<char>|
        match L::record(text) {
            Some(pair) => Some(pair.0),
            None => None,
        }
}

/// A partition file that can be searched: every line that is not empty
/// stands for an entry, and the keys of the entries never decrease.
pub open spec fn searchable_entries<L: Record<V>, V: View>(d: Seq<u8>) -> bool {
    searchable::<L>(record_key::<L, V>(), d)
}

/// Some line of the file stands for an entry with the key `l`.
pub open spec fn holds_entry<L: Record<V>, V: View>(d: Seq<u8>, l: L::V) -> bool {
    present::<L>(record_key::<L, V>(), d, l)
}

/// A line of the file stands for the entry of `l` and `v`; in a searchable
/// file it is the first line with the key `l`.
pub open spec fn first_entry<L: Record<V>, V: View>(d: Seq<u8>, l: L::V, v: V::V) -> bool {
    exists|s: int| #[trigger]
        is_full_line(d, s) && entry_at::<L, V>(d, s) == Some((l, v)) && (searchable_entries::<L, V>(
            d,
        ) ==> is_first::<L>(record_key::<L, V>(), d, l, s))
}

/// Why a partition file cannot be searched: it holds a line that is not
/// valid UTF-8, or a line that stands for no entry.
pub open spec fn entry_fault<L: Record<V>, V: View>(d: Seq<u8>, e: SearchError) -> bool {
    match e {
        SearchError::Encoding => exists|s: int| #[trigger]
            is_full_line(d, s) && !valid_utf8(line_at(d, s)),
        SearchError::NoKey => exists|s: int| #[trigger]
            is_full_line(d, s) && valid_utf8(line_at(d, s)) && L::record(
                decode_utf8(line_at(d, s)),
            ) is None,
    }
}

/// A file with such a line is not searchable.
pub proof fn lemma_entry_fault<L: Record<V>, V: View>(d: Seq<u8>, e: SearchError)
    requires
        entry_fault::<L, V>(d, e),
    ensures
        !searchable_entries::<L, V>(d),
{
    match e {
        SearchError::Encoding => {
            let s = choose|s: int| #[trigger] is_full_line(d, s) && !valid_utf8(line_at(d, s));
            assert(line_key::<L>(record_key::<L, V>(), d, s) is None);
        },
        SearchError::NoKey => {
            let s = choose|s: int| #[trigger]
                is_full_line(d, s) && valid_utf8(line_at(d, s)) && L::record(
                    decode_utf8(line_at(d, s)),
                ) is None;
            assert(line_key::<L>(record_key::<L, V>(), d, s) is None);
        },
    }
}

/// The key of the entry that a line stands for.
fn key_of_line<L: Record<V>, V: View>(line: &str) -> (r: Option<L>)
    ensures
        match r {
            Some(k) => record_key::<L, V>()(line@) == Some(k@),
            None => record_key::<L, V>()(line@) is None,
        },
{
    match L::decode(line) {
        Some(pair) => Some(pair.0),
        None => None,
    }
}

/// Searches a partition file, whose entries are sorted by key, for the
/// entry with the key `key`, and returns its value.
///
/// A value that is returned is the value of a line of the file that stands
/// for an entry with the key. In a searchable file the search does not
/// fail, it returns a value whenever some line has the key, and the value
/// is that of the first such line.
///
/// Fails where a line that a probe reads is not valid UTF-8, or stands for
/// no entry.
pub fn find_entry_in_file<L: Record<V>, V: View>(file: &[u8], key: &L) -> (r: Result<
    Option<V>,
    SearchError,
>)
    requires
        file@.len() <= u64::MAX,
    ensures
        match r {
            Ok(Some(v)) => first_entry::<L, V>(file@, key@, v@),
            Ok(None) => searchable_entries::<L, V>(file@) ==> !holds_entry::<L, V>(file@, key@),
            Err(e) => entry_fault::<L, V>(file@, e),
        },
{
    let get_key = |line: &str| -> (r: Option<L>)
        ensures
            match r {
                Some(k) => record_key::<L, V>()(line@) == Some(k@),
                None => record_key::<L, V>()(line@) is None,
            },
        { key_of_line::<L, V>(line) };
    match search_lines(file, get_key, key, Ghost(record_key::<L, V>())) {
        Ok(Some(line)) => {
            match L::decode(line.as_str()) {
                Some(pair) => Ok(Some(pair.1)),
                None => Err(SearchError::NoKey),
            }
        },
        Ok(None) => Ok(None),
        Err(e) => Err(e),
    }
}

impl<K: Key, L: Record<V>, V: View, F: Fn(&L) -> K> HierarchicalMap<K, L, V, F> {
    /// The short key of `key`, which names the partition file that may
    /// hold its entry.
    pub fn short_key_for(&self, key: &L) -> (k: K)
        requires
            self.wf(),
        ensures
            k@ == self.short_key_of(key@),
    {
        let k = (self.shorten)(key);
        proof {
            lemma_short_of::<K, L, F>(self.shorten, *key, k);
        }
        k
    }

    /// Whether a lookup of `key` has to search the partition file of its
    /// short key: the key is not in memory, and the map is not fully loaded.
    pub fn needs_file(&self, key: &L) -> (b: bool)
        requires
            self.wf(),
        ensures
            b == (!self.loaded() && !self.entries().contains_key(key@)),
    {
        !self.is_fully_loaded() && self.get(key).is_none()
    }

    /// The value `v` was found for the key `l`: in memory, and nothing
    /// changed; or, in a map that is not fully loaded, in a line of the
    /// file, the first with the key where the file is searchable, and
    /// `after` holds the entry too.
    pub open spec fn found(&self, l: L::V, file: Option<&[u8]>, v: V, after: Self) -> bool {
        if self.entries().contains_key(l) {
            &&& v == self.entries()[l]
            &&& after.entries() == self.entries()
        } else {
            &&& !self.loaded()
            &&& after.entries() == self.entries().insert(l, v)
            &&& file is Some
            &&& first_entry::<L, V>(file.unwrap()@, l, v@)
        }
    }

    /// What a lookup with a file returns, and what it leaves in `after`.
    pub open spec fn looked_up<T, G: FnOnce(&V) -> T>(
        &self,
        l: L::V,
        file: Option<&[u8]>,
        f: G,
        r: Result<Option<T>, SearchError>,
        after: Self,
    ) -> bool {
        match r {
            Ok(Some(t)) => exists|v: V|
                #[trigger] call_ensures(f, (&v,), t) && self.found(l, file, v, after),
            Ok(None) => {
                &&& !self.entries().contains_key(l)
                &&& after.entries() == self.entries()
                &&& !self.loaded() && file is Some ==> searchable_entries::<L, V>(file.unwrap()@)
                    ==> !holds_entry::<L, V>(file.unwrap()@, l)
            },
            Err(e) => {
                &&& !self.entries().contains_key(l)
                &&& after.entries() == self.entries()
                &&& !self.loaded()
                &&& file is Some
                &&& entry_fault::<L, V>(file.unwrap()@, e)
            },
        }
    }

    /// Applies `f` to the value of `key`, which is looked for in memory
    /// first and then, unless the map is fully loaded, in the partition file
    /// of its short key, if there is one. The caller hands in the bytes of
    /// that file, or `None` where there is none; `short_key_for` names it.
    /// An entry found in the file is put into memory. Nothing is made up:
    /// the result is `None` where the key is in neither place.
    ///
    /// Fails where the file had to be searched and a line read from it is
    /// not an entry.
    pub fn with<T, G: FnOnce(&V) -> T>(&mut self, key: &L, file: Option<&[u8]>, f: G) -> (r:
        Result<Option<T>, SearchError>)
        requires
            old(self).wf(),
            forall|v: V| call_requires(f, (&v,)),
            file matches Some(d) ==> d@.len() <= u64::MAX,
        ensures
            final(self).wf(),
            final(self).shortener() == old(self).shortener(),
            final(self).loaded() == old(self).loaded(),
            final(self).prefix_chars() == old(self).prefix_chars(),
            old(self).looked_up(key@, file, f, r, *final(self)),
    {
        match self.get(key) {
            Some(value) => {
                let t = f(value);
                let ghost w: V = *value;
                assert(call_ensures(f, (&w,), t));
                assert(old(self).found(key@, file, w, *self));
                let r: Result<Option<T>, SearchError> = Ok(Some(t));
                assert(exists|v: V|
                    #[trigger] call_ensures(f, (&v,), t) && old(self).found(key@, file, v, *self));
                assert(r matches Ok(Some(t2)) && t2 == t);
                assert(old(self).looked_up(key@, file, f, r, *self));
                return r;
            },
            None => {},
        }
        if self.fully_loaded {
            return Ok(None);
        }
        let data = match file {
            Some(data) => data,
            None => {
                return Ok(None);
            },
        };
        match find_entry_in_file::<L, V>(data, key) {
            Ok(Some(value)) => {
                let t = f(&value);
                let ghost v = value;
                let _ = self.insert(key.duplicate(), value);
                assert(call_ensures(f, (&v,), t));
                assert(old(self).found(key@, file, v, *self));
                let r: Result<Option<T>, SearchError> = Ok(Some(t));
                assert(exists|v: V|
                    #[trigger] call_ensures(f, (&v,), t) && old(self).found(key@, file, v, *self));
                assert(r matches Ok(Some(t2)) && t2 == t);
                assert(old(self).looked_up(key@, file, f, r, *self));
                r
            },
            Ok(None) => Ok(None),
            Err(e) => Err(e),
        }
    }
}

} // verus!
