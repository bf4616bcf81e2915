//! A summary of a partitioned map: how many entries and partitions it has,
//! and which partitions hold the most and the fewest entries.

use vstd::prelude::*;
use crate::hierarchical_map::HierarchicalMap;
use crate::json::texts;
use crate::keys::Key;
use crate::text::{decimal, decimal_text, push_text};

verus! {

/// How many partitions each of the two lists of a summary names at most.
pub const LISTED: usize = 5;

/// The partition at index `a` comes before the one at index `b` in the
/// order of their sizes; of two partitions of one size, the one with the
/// smaller index comes first.
pub open spec fn smaller(sizes: Seq<usize>, a: int, b: int) -> bool {
    sizes[a] < sizes[b] || (sizes[a] == sizes[b] && a < b)
}

/// `a` comes before `b` in the order in which partitions are listed: from
/// the smallest if `up`, else from the largest.
pub open spec fn precedes(sizes: Seq<usize>, up: bool, a: int, b: int) -> bool {
    if up {
        smaller(sizes, a, b)
    } else {
        smaller(sizes, b, a)
    }
}

/// The partition at index `j` can follow `prev` in a list.
pub open spec fn can_follow(sizes: Seq<usize>, up: bool, prev: Option<int>, j: int) -> bool {
    &&& 0 <= j < sizes.len()
    &&& prev matches Some(l) ==> precedes(sizes, up, l, j)
}

/// The partition at index `i` is the one that follows `prev` in a list: the
/// first of those that can.
pub open spec fn follows(sizes: Seq<usize>, up: bool, prev: Option<int>, i: int) -> bool {
    &&& can_follow(sizes, up, prev, i)
    &&& forall|j: int| #[trigger] can_follow(sizes, up, prev, j) ==> j == i || precedes(sizes, up, i, j)
}

/// What stands before place `k` of a list.
pub open spec fn before_place(picks: Seq<usize>, k: int) -> Option<int> {
    if k == 0 {
        None
    } else {
        Some(picks[k - 1] as int)
    }
}

/// `picks` lists the first `limit` partitions in the order given by `up`,
/// or all of them where there are fewer.
pub open spec fn is_selection(sizes: Seq<usize>, up: bool, picks: Seq<usize>, limit: nat) -> bool {
    &&& picks.len() <= limit
    &&& forall|k: int|
        0 <= k < picks.len() ==> follows(sizes, up, before_place(picks, k), #[trigger] picks[k] as int)
    &&& picks.len() < limit ==> forall|j: int|
        !#[trigger] can_follow(sizes, up, before_place(picks, picks.len() as int), j)
}

/// The index of a partition that was picked, if one was.
pub open spec fn place_of(prev: Option<usize>) -> Option<int> {
    match prev {
        Some(l) => Some(l as int),
        None => None,
    }
}

/// Whether `a` comes before `b` in the order given by `up`.
fn comes_first(sizes: &Vec<usize>, up: bool, a: usize, b: usize) -> (r: bool)
    requires
        a < sizes@.len(),
        b < sizes@.len(),
    ensures
        r == precedes(sizes@, up, a as int, b as int),
{
    if up {
        sizes[a] < sizes[b] || (sizes[a] == sizes[b] && a < b)
    } else {
        sizes[b] < sizes[a] || (sizes[b] == sizes[a] && b < a)
    }
}

/// The partition that follows `prev` in a list, if any can.
fn next_pick(sizes: &Vec<usize>, up: bool, prev: Option<usize>) -> (r: Option<usize>)
    requires
        prev matches Some(l) ==> l < sizes@.len(),
    ensures
        match r {
            Some(i) => follows(sizes@, up, place_of(prev), i as int),
            None => forall|j: int| !#[trigger] can_follow(sizes@, up, place_of(prev), j),
        },
{
    let ghost before = place_of(prev);
    let mut best: Option<usize> = None;
    let mut i: usize = 0;
    while i < sizes.len()
        invariant
            0 <= i <= sizes@.len(),
            prev matches Some(l) ==> l < sizes@.len(),
            before == place_of(prev),
            match best {
                Some(b) => b < i && can_follow(sizes@, up, before, b as int) && forall|j: int|
                    0 <= j < i && #[trigger] can_follow(sizes@, up, before, j) ==> j == b
                        || precedes(sizes@, up, b as int, j),
                None => forall|j: int| 0 <= j < i ==> !#[trigger] can_follow(sizes@, up, before, j),
            },
        decreases sizes@.len() - i,
    {
        let can = match prev {
            Some(l) => comes_first(sizes, up, l, i),
            None => true,
        };
        if can {
            best = match best {
                Some(b) => if comes_first(sizes, up, i, b) {
                    Some(i)
                } else {
                    Some(b)
                },
                None => Some(i),
            };
        }
        i += 1;
    }
    best
}

/// The first `limit` partitions in the order given by `up`: from the
/// smallest if `up`, else from the largest.
pub fn select(sizes: &Vec<usize>, up: bool, limit: usize) -> (picks: Vec<usize>)
    ensures
        is_selection(sizes@, up, picks@, limit as nat),
        forall|k: int| 0 <= k < picks@.len() ==> #[trigger] picks@[k] < sizes@.len(),
{
    let mut picks: Vec<usize> = Vec::new();
    while picks.len() < limit
        invariant
            picks@.len() <= limit,
            forall|k: int| 0 <= k < picks@.len() ==> #[trigger] picks@[k] < sizes@.len(),
            forall|k: int|
                0 <= k < picks@.len() ==> follows(
                    sizes@,
                    up,
                    before_place(picks@, k),
                    #[trigger] picks@[k] as int,
                ),
        decreases limit - picks@.len(),
    {
        let prev = if picks.len() == 0 {
            None
        } else {
            Some(picks[picks.len() - 1])
        };
        let ghost held = picks@;
        match next_pick(sizes, up, prev) {
            Some(i) => {
                picks.push(i);
                assert forall|k: int| 0 <= k < picks@.len() implies follows(
                    sizes@,
                    up,
                    before_place(picks@, k),
                    #[trigger] picks@[k] as int,
                ) by {
                    if k < held.len() {
                        assert(picks@[k] == held[k]);
                        assert(before_place(picks@, k) == before_place(held, k));
                    }
                }
            },
            None => {
                return picks;
            },
        }
    }
    picks
}

/// The line of a summary that names one partition.
pub open spec fn row(size: usize, label: Seq<char>) -> Seq<char> {
    "  - "@ + decimal(size as nat) + " entries: "@ + label + "\n"@
}

/// The lines that name the partitions of a list.
pub open spec fn rows(sizes: Seq<usize>, labels: Seq<Seq<char>>, picks: Seq<usize>) -> Seq<char>
    decreases picks.len(),
{
    if picks.len() == 0 {
        Seq::empty()
    } else {
        rows(sizes, labels, picks.drop_last()) + row(
            sizes[picks.last() as int],
            labels[picks.last() as int],
        )
    }
}

/// The summary of a map with `total` entries, whose partitions have the
/// given sizes and labels, with the lists `top` and `bottom`.
pub open spec fn summary(
    total: usize,
    sizes: Seq<usize>,
    labels: Seq<Seq<char>>,
    top: Seq<usize>,
    bottom: Seq<usize>,
) -> Seq<char> {
    "Hierarchical map using "@ + decimal(total as nat) + " total keys and "@ + decimal(sizes.len())
        + " short keys:\n"@ + "* Overutilised short keys:\n"@ + rows(sizes, labels, top)
        + "* Underutilised short keys:\n"@ + rows(sizes, labels, bottom)
}

/// Appends the lines that name the partitions of a list.
fn push_rows(text: &mut String, sizes: &Vec<usize>, labels: &Vec<String>, picks: &Vec<usize>)
    requires
        labels@.len() == sizes@.len(),
        forall|k: int| 0 <= k < picks@.len() ==> #[trigger] picks@[k] < sizes@.len(),
    ensures
        final(text)@ == old(text)@ + rows(sizes@, texts(labels@), picks@),
{
    let ghost start = text@;
    let mut k: usize = 0;
    assert(picks@.take(0) =~= Seq::<usize>::empty());
    assert(start + Seq::<char>::empty() =~= start);
    while k < picks.len()
        invariant
            0 <= k <= picks@.len(),
            labels@.len() == sizes@.len(),
            forall|k: int| 0 <= k < picks@.len() ==> #[trigger] picks@[k] < sizes@.len(),
            text@ == start + rows(sizes@, texts(labels@), picks@.take(k as int)),
        decreases picks@.len() - k,
    {
        let at = picks[k];
        let ghost was = text@;
        push_text(text, "  - ");
        push_text(text, decimal_text(sizes[at] as u64).as_str());
        push_text(text, " entries: ");
        push_text(text, labels[at].as_str());
        push_text(text, "\n");
        proof {
            let taken = picks@.take(k + 1);
            assert(taken.drop_last() =~= picks@.take(k as int));
            assert(taken.last() == at);
            assert(texts(labels@)[at as int] == labels@[at as int]@);
            assert(text@ =~= was + row(sizes@[at as int], labels@[at as int]@));
            assert(text@ =~= start + rows(sizes@, texts(labels@), taken));
        }
        k += 1;
    }
    assert(picks@.take(k as int) =~= picks@);
}

/// The summary of a map with `total` entries whose partitions have the
/// given sizes and labels: the numbers of entries and of partitions, then
/// the five largest partitions from the largest, then the five smallest
/// from the smallest. Of two partitions of one size the one with the
/// smaller index counts as the smaller.
pub fn describe_partitions(total: usize, sizes: &Vec<usize>, labels: &Vec<String>) -> (text: String)
    requires
        labels@.len() == sizes@.len(),
    ensures
        exists|top: Seq<usize>, bottom: Seq<usize>|
            is_selection(sizes@, false, top, LISTED as nat) && is_selection(
                sizes@,
                true,
                bottom,
                LISTED as nat,
            ) && text@ == #[trigger] summary(total, sizes@, texts(labels@), top, bottom),
{
    let top = select(sizes, false, LISTED);
    let bottom = select(sizes, true, LISTED);
    let mut text = String::new();
    push_text(&mut text, "Hierarchical map using ");
    push_text(&mut text, decimal_text(total as u64).as_str());
    push_text(&mut text, " total keys and ");
    push_text(&mut text, decimal_text(sizes.len() as u64).as_str());
    push_text(&mut text, " short keys:\n");
    push_text(&mut text, "* Overutilised short keys:\n");
    push_rows(&mut text, sizes, labels, &top);
    push_text(&mut text, "* Underutilised short keys:\n");
    push_rows(&mut text, sizes, labels, &bottom);
    assert(text@ =~= summary(total, sizes@, texts(labels@), top@, bottom@));
    text
}

impl<K: Key, L: Key, V, F: Fn(&L) -> K> HierarchicalMap<K, L, V, F> {
    /// The numbers of entries of the partitions, in ascending order of the
    /// short keys.
    pub open spec fn is_sizes(&self, sizes: Seq<usize>) -> bool {
        &&& sizes.len() == self.short_keys().len()
        &&& forall|p: int|
            0 <= p < sizes.len() ==> sizes[p] == (
            #[trigger] self.partitions().value_seq()[p]).contents().len()
    }

    /// The number of entries, or `usize::MAX` where there are more.
    pub open spec fn counted(&self) -> usize {
        if self.entries().len() <= usize::MAX {
            self.entries().len() as usize
        } else {
            usize::MAX
        }
    }

    /// A summary of the map: how many entries and partitions it has, and
    /// which partitions hold the most and the fewest entries. `labels`
    /// names the short keys, in ascending order.
    pub fn describe(&self, labels: &Vec<String>) -> (text: String)
        requires
            self.wf(),
            labels@.len() == self.short_keys().len(),
        ensures
            exists|sizes: Seq<usize>, top: Seq<usize>, bottom: Seq<usize>|
                self.is_sizes(sizes) && is_selection(sizes, false, top, LISTED as nat)
                    && is_selection(sizes, true, bottom, LISTED as nat) && text@
                    == #[trigger] summary(self.counted(), sizes, texts(labels@), top, bottom),
    {
        let sizes = self.partition_sizes();
        let total = self.total_keys();
        let text = describe_partitions(total, &sizes, labels);
        proof {
            let (top, bottom) = choose|top: Seq<usize>, bottom: Seq<usize>|
                is_selection(sizes@, false, top, LISTED as nat) && is_selection(
                    sizes@,
                    true,
                    bottom,
                    LISTED as nat,
                ) && text@ == #[trigger] summary(total, sizes@, texts(labels@), top, bottom);
            assert(total == self.counted());
            assert(self.is_sizes(sizes@));
            assert(text@ == summary(self.counted(), sizes@, texts(labels@), top, bottom));
        }
        text
    }
}

} // verus!
