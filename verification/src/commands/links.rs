//! The link graph: for each article the articles it links to, and for each
//! article the articles that link to it.

use vstd::prelude::*;
use itertools::Itertools;
use crate::commands::shortest_path::links;
use crate::hierarchical_map::{is_shortener, HierarchicalMap};
use crate::keys::Key;
use crate::parse::wikitext::{find_links, link_views, links_from, root_of, Wikilink};
use crate::partition::{lemma_increasing_distinct, Partition};
use crate::titles::{
    can_canonicalise, canonical, id_short_key, is_interwiki, is_interwiki_link, is_text,
    namespace_split, split_namespace, TitleMap,
};

verus! {

/// The items of a sequence, each where it first occurs.
pub open spec fn firsts(s: Seq<u32>) -> Seq<u32>
    decreases s.len(),
{
    if s.len() == 0 {
        Seq::empty()
    } else if firsts(s.drop_last()).contains(s.last()) {
        firsts(s.drop_last())
    } else {
        firsts(s.drop_last()).push(s.last())
    }
}

/// The first occurrences hold every item once.
pub proof fn lemma_firsts(s: Seq<u32>)
    ensures
        firsts(s).no_duplicates(),
        forall|x: u32| firsts(s).contains(x) <==> s.contains(x),
    decreases s.len(),
{
    if s.len() > 0 {
        let init = s.drop_last();
        lemma_firsts(init);
        let f = firsts(s);
        assert forall|x: u32| f.contains(x) <==> s.contains(x) by {
            if f.contains(x) {
                let i = choose|i: int| 0 <= i < f.len() && f[i] == x;
                if i < firsts(init).len() {
                    assert(firsts(init)[i] == x);
                    assert(firsts(init).contains(x));
                    assert(init.contains(x));
                    let j = choose|j: int| 0 <= j < init.len() && init[j] == x;
                    assert(s[j] == x);
                } else {
                    assert(s[s.len() - 1] == x);
                }
            }
            if s.contains(x) {
                let j = choose|j: int| 0 <= j < s.len() && s[j] == x;
                if j < init.len() {
                    assert(init[j] == x);
                    assert(init.contains(x));
                    assert(firsts(init).contains(x));
                    let i = choose|i: int| 0 <= i < firsts(init).len() && firsts(init)[i] == x;
                    assert(f[i] == x);
                } else if !firsts(init).contains(x) {
                    assert(f[f.len() - 1] == x);
                } else {
                    let i = choose|i: int| 0 <= i < firsts(init).len() && firsts(init)[i] == x;
                    assert(f[i] == x);
                }
            }
        }
    }
}

/// The identifiers without those that occurred before.
///
/// Trusted: collects what `itertools::Itertools::unique` yields, which its
/// documentation describes as the items in their order, each where it is
/// first met.
#[verifier::external_body]
fn unique_ids(ids: Vec<u32>) -> (out: Vec<u32>)
    ensures
        out@ == firsts(ids@),
{
    ids.into_iter().unique().collect::<Vec<u32>>()
}

/// The identifiers without those that occurred before: each identifier
/// once, where it first occurs.
pub fn first_occurrences(ids: Vec<u32>) -> (out: Vec<u32>)
    ensures
        out@ == firsts(ids@),
        out@.no_duplicates(),
        forall|x: u32| out@.contains(x) <==> ids@.contains(x),
{
    proof {
        lemma_firsts(ids@);
    }
    unique_ids(ids)
}

/// The identifiers come in strictly increasing order.
pub open spec fn ascending(s: Seq<u32>) -> bool {
    forall|i: int, j: int| 0 <= i < j < s.len() ==> s[i] < s[j]
}

/// The identifiers in ascending order, each once.
pub fn sort_ids(ids: &Vec<u32>) -> (out: Vec<u32>)
    ensures
        ascending(out@),
        forall|x: u32| out@.contains(x) <==> ids@.contains(x),
{
    let mut out: Vec<u32> = Vec::new();
    let mut i: usize = 0;
    while i < ids.len()
        invariant
            0 <= i <= ids.len(),
            ascending(out@),
            forall|x: u32| out@.contains(x) <==> ids@.take(i as int).contains(x),
        decreases ids.len() - i,
    {
        let x = ids[i];
        let mut at: usize = 0;
        while at < out.len() && out[at] < x
            invariant
                0 <= at <= out.len(),
                ascending(out@),
                forall|k: int| 0 <= k < at ==> out@[k] < x,
            decreases out.len() - at,
        {
            at += 1;
        }
        let ghost before = out@;
        let ghost seen = ids@.take(i as int);
        let ghost seen2 = ids@.take(i + 1);
        assert(seen2 =~= seen.push(x));
        if at < out.len() && out[at] == x {
            assert forall|y: u32| out@.contains(y) <==> seen2.contains(y) by {
                if seen.contains(y) {
                    let k = choose|k: int| 0 <= k < seen.len() && seen[k] == y;
                    assert(seen2[k] == y);
                }
                if seen2.contains(y) {
                    let k = choose|k: int| 0 <= k < seen2.len() && seen2[k] == y;
                    if k < seen.len() {
                        assert(seen[k] == y);
                        assert(seen.contains(y));
                    } else {
                        assert(out@[at as int] == y);
                    }
                }
            }
        } else {
            out.insert(at, x);
            assert forall|a: int, b: int| 0 <= a < b < out@.len() implies out@[a] < out@[b] by {
                if a < at && b > at {
                    assert(before[a] < x);
                    assert(x < before[b - 1]) by {
                        assert(before[at as int] <= before[b - 1]) by {
                            if at < b - 1 {
                                assert(before[at as int] < before[b - 1]);
                            }
                        }
                    }
                } else if a < at && b < at {
                    assert(before[a] < before[b]);
                } else if a > at {
                    assert(before[a - 1] < before[b - 1]);
                } else if a == at {
                    assert(before[at as int] <= before[b - 1]) by {
                        if at < b - 1 {
                            assert(before[at as int] < before[b - 1]);
                        }
                    }
                }
            }
            assert forall|y: u32| out@.contains(y) <==> seen2.contains(y) by {
                if out@.contains(y) {
                    let k = choose|k: int| 0 <= k < out@.len() && out@[k] == y;
                    if k < at {
                        assert(before[k] == y);
                        assert(before.contains(y));
                        assert(seen.contains(y));
                        let m = choose|m: int| 0 <= m < seen.len() && seen[m] == y;
                        assert(seen2[m] == y);
                    } else if k == at {
                        assert(seen2[i as int] == y);
                    } else {
                        assert(before[k - 1] == y);
                        assert(before.contains(y));
                        assert(seen.contains(y));
                        let m = choose|m: int| 0 <= m < seen.len() && seen[m] == y;
                        assert(seen2[m] == y);
                    }
                }
                if seen2.contains(y) {
                    let m = choose|m: int| 0 <= m < seen2.len() && seen2[m] == y;
                    if m < seen.len() {
                        assert(seen[m] == y);
                        assert(seen.contains(y));
                        assert(before.contains(y));
                        let k = choose|k: int| 0 <= k < before.len() && before[k] == y;
                        if k < at {
                            assert(out@[k] == y);
                        } else {
                            assert(out@[k + 1] == y);
                        }
                    } else {
                        assert(out@[at as int] == y);
                    }
                }
            }
        }
        i += 1;
    }
    assert(ids@.take(i as int) =~= ids@);
    out
}

/// A link with the given canonical target is followed: it lies in no
/// namespace, in `Category` or in `Portal`, and does not lead to another wiki.
pub open spec fn permitted(root: Seq<char>, interwiki: Seq<String>) -> bool {
    let (namespace, rest) = namespace_split(root);
    &&& namespace is None || namespace == Some("Category"@) || namespace == Some("Portal"@)
    &&& !is_interwiki(rest, interwiki)
}

/// The article that a link with the given target leads to: the identifier
/// stored for the canonical form of the target without its anchor, where
/// the link is followed.
#[verifier::opaque]
pub open spec fn resolved<F: Fn(&u32) -> u8, G: Fn(&String) -> String>(
    titles: TitleMap<F, G>,
    interwiki: Seq<String>,
    target: Seq<char>,
) -> Option<u32> {
    if can_canonicalise(root_of(target)) && permitted(canonical(root_of(target)), interwiki) {
        titles.id_of(canonical(root_of(target)))
    } else {
        None
    }
}

/// A link with the given target is red: its target has no canonical form,
/// or it is followed and leads to no article.
#[verifier::opaque]
pub open spec fn is_red<F: Fn(&u32) -> u8, G: Fn(&String) -> String>(
    titles: TitleMap<F, G>,
    interwiki: Seq<String>,
    target: Seq<char>,
) -> bool {
    if can_canonicalise(root_of(target)) {
        permitted(canonical(root_of(target)), interwiki) && titles.id_of(
            canonical(root_of(target)),
        ) is None
    } else {
        true
    }
}

/// The number of red links among the given links.
pub open spec fn red_count<F: Fn(&u32) -> u8, G: Fn(&String) -> String>(
    titles: TitleMap<F, G>,
    interwiki: Seq<String>,
    found: Seq<(Seq<char>, Seq<char>)>,
) -> nat
    decreases found.len(),
{
    if found.len() == 0 {
        0
    } else {
        red_count(titles, interwiki, found.drop_last()) + if is_red(
            titles,
            interwiki,
            found.last().0,
        ) {
            1nat
        } else {
            0nat
        }
    }
}

/// `ids` are the articles that the links of a page lead to: in ascending
/// order, each once.
pub open spec fn is_link_list<F: Fn(&u32) -> u8, G: Fn(&String) -> String>(
    titles: TitleMap<F, G>,
    interwiki: Seq<String>,
    text: Seq<char>,
    ids: Seq<u32>,
) -> bool {
    &&& ascending(ids)
    &&& forall|id: u32|
        ids.contains(id) <==> exists|k: int|
            0 <= k < links_from(text, 0).len() && #[trigger] resolved(
                titles,
                interwiki,
                links_from(text, 0)[k].0,
            ) == Some(id)
}

/// The articles that the links of a page lead to.
pub open spec fn link_targets<F: Fn(&u32) -> u8, G: Fn(&String) -> String>(
    titles: TitleMap<F, G>,
    interwiki: Seq<String>,
    text: Seq<char>,
) -> Set<u32> {
    Set::new(
        |id: u32|
            exists|k: int|
                0 <= k < links_from(text, 0).len() && #[trigger] resolved(
                    titles,
                    interwiki,
                    links_from(text, 0)[k].0,
                ) == Some(id),
    )
}

/// A list of the articles that the links of a page lead to has as many
/// items as there are such articles.
pub proof fn lemma_link_list_len<F: Fn(&u32) -> u8, G: Fn(&String) -> String>(
    titles: TitleMap<F, G>,
    interwiki: Seq<String>,
    text: Seq<char>,
    ids: Seq<u32>,
)
    requires
        is_link_list(titles, interwiki, text, ids),
    ensures
        link_targets(titles, interwiki, text).finite(),
        ids.len() == link_targets(titles, interwiki, text).len(),
{
    assert(ids.no_duplicates()) by {
        assert forall|i: int, j: int| 0 <= i < ids.len() && 0 <= j < ids.len() && i != j implies ids[i]
            != ids[j] by {
            if i < j {
                assert(ids[i] < ids[j]);
            } else {
                assert(ids[j] < ids[i]);
            }
        }
    }
    ids.unique_seq_to_set();
    assert(ids.to_set() =~= link_targets(titles, interwiki, text)) by {
        assert forall|id: u32| ids.to_set().contains(id) <==> link_targets(
            titles,
            interwiki,
            text,
        ).contains(id) by {
            assert(ids.to_set().contains(id) <==> ids.contains(id));
        }
    }
}

/// The number of links stored for the first `n` pages.
pub open spec fn blue_upto<F: Fn(&u32) -> u8, G: Fn(&String) -> String>(
    titles: TitleMap<F, G>,
    interwiki: Seq<String>,
    pages: Seq<(u32, String)>,
    n: int,
) -> nat
    decreases n,
{
    if n <= 0 {
        0
    } else {
        blue_upto(titles, interwiki, pages, n - 1) + link_targets(
            titles,
            interwiki,
            pages[n - 1].1@,
        ).len()
    }
}

/// The number of red links of the first `n` pages.
pub open spec fn red_upto<F: Fn(&u32) -> u8, G: Fn(&String) -> String>(
    titles: TitleMap<F, G>,
    interwiki: Seq<String>,
    pages: Seq<(u32, String)>,
    n: int,
) -> nat
    decreases n,
{
    if n <= 0 {
        0
    } else {
        red_upto(titles, interwiki, pages, n - 1) + red_count(
            titles,
            interwiki,
            links_from(pages[n - 1].1@, 0),
        )
    }
}

/// The number, or `usize::MAX` where it is greater.
pub open spec fn capped(n: nat) -> int {
    if n <= usize::MAX {
        n as int
    } else {
        usize::MAX as int
    }
}

/// Whether a link with the given canonical target is followed.
fn is_permitted(root: &str, interwiki: &Vec<String>) -> (b: bool)
    ensures
        b == permitted(root@, interwiki@),
{
    let (namespace, rest) = split_namespace(root);
    let allowed = match namespace {
        None => true,
        Some(name) => is_text(&name, "Category") || is_text(&name, "Portal"),
    };
    allowed && !is_interwiki_link(rest.as_str(), interwiki)
}

/// The article that a link leads to, if any, and whether the link is red.
pub fn follow<F: Fn(&u32) -> u8, G: Fn(&String) -> String>(
    link: &Wikilink,
    titles: &TitleMap<F, G>,
    interwiki: &Vec<String>,
) -> (r: (Option<u32>, bool))
    requires
        titles.wf(),
    ensures
        r.0 == resolved(*titles, interwiki@, link.target@),
        r.1 == is_red(*titles, interwiki@, link.target@),
{
    reveal(resolved);
    reveal(is_red);
    match link.try_target_root() {
        Some(root) => {
            if is_permitted(root.as_str(), interwiki) {
                match titles.get_id(root.as_str()) {
                    Some(id) => (Some(id), false),
                    None => (None, true),
                }
            } else {
                (None, false)
            }
        },
        None => (None, true),
    }
}

/// The articles that the links of a page lead to, in ascending order and
/// each once, and the number of the red links of the page.
pub fn page_links<F: Fn(&u32) -> u8, G: Fn(&String) -> String>(
    text: &str,
    titles: &TitleMap<F, G>,
    interwiki: &Vec<String>,
) -> (r: (Vec<u32>, usize))
    requires
        titles.wf(),
    ensures
        is_link_list(*titles, interwiki@, text@, r.0@),
        r.1 == red_count(*titles, interwiki@, links_from(text@, 0)),
{
    let found = find_links(text);
    let ghost views = links_from(text@, 0);
    let mut ids: Vec<u32> = Vec::new();
    let mut red: usize = 0;
    let mut k: usize = 0;
    assert(views.take(0) =~= Seq::empty());
    while k < found.len()
        invariant
            0 <= k <= found.len(),
            titles.wf(),
            views == link_views(found@),
            red <= k,
            red == red_count(*titles, interwiki@, views.take(k as int)),
            forall|id: u32|
                ids@.contains(id) <==> exists|m: int|
                    0 <= m < k && #[trigger] resolved(*titles, interwiki@, views[m].0) == Some(id),
        decreases found.len() - k,
    {
        let ghost target = views[k as int].0;
        assert(target == found@[k as int].target@);
        let ghost before = ids@;
        proof {
            assert(views.take(k + 1).drop_last() =~= views.take(k as int));
            assert(views.take(k + 1).last() == views[k as int]);
        }
        let (hit, missed) = follow(&found[k], titles, interwiki);
        if missed {
            red += 1;
        }
        match hit {
            Some(id) => {
                ids.push(id);
            },
            None => {},
        }
        proof {
            assert forall|id: u32|
                ids@.contains(id) <==> exists|m: int|
                    0 <= m < k + 1 && #[trigger] resolved(*titles, interwiki@, views[m].0) == Some(
                        id,
                    ) by {
                if ids@.contains(id) {
                    let n = choose|n: int| 0 <= n < ids@.len() && ids@[n] == id;
                    if n < before.len() {
                        assert(before[n] == id);
                        assert(before.contains(id));
                    } else {
                        assert(resolved(*titles, interwiki@, views[k as int].0) == Some(id));
                    }
                }
                if exists|m: int|
                    0 <= m < k + 1 && #[trigger] resolved(*titles, interwiki@, views[m].0) == Some(
                        id,
                    ) {
                    let m = choose|m: int|
                        0 <= m < k + 1 && #[trigger] resolved(*titles, interwiki@, views[m].0)
                            == Some(id);
                    if m < k {
                        assert(before.contains(id));
                        let n = choose|n: int| 0 <= n < before.len() && before[n] == id;
                        assert(ids@[n] == id);
                    } else {
                        assert(ids@[ids@.len() - 1] == id);
                    }
                }
            }
        }
        k += 1;
    }
    assert(views.take(k as int) =~= views);
    let ghost collected = ids@;
    let once = first_occurrences(ids);
    let sorted = sort_ids(&once);
    proof {
        assert(views.len() == found@.len());
        assert forall|id: u32|
            sorted@.contains(id) <==> exists|m: int|
                0 <= m < views.len() && #[trigger] resolved(*titles, interwiki@, views[m].0)
                    == Some(id) by {
            assert(sorted@.contains(id) <==> once@.contains(id));
            assert(once@.contains(id) <==> collected.contains(id));
        }
    }
    (sorted, red)
}

/// The map of the outgoing links of the given pages: each page, by its
/// identifier, with the articles that its links lead to. The second result
/// is the number of links stored, the third the number of red links; both
/// stop at `usize::MAX`.
pub fn generate_outgoing_links<F: Fn(&u32) -> u8, G: Fn(&String) -> String>(
    pages: &Vec<(u32, String)>,
    titles: &TitleMap<F, G>,
    interwiki: &Vec<String>,
) -> (r: (HierarchicalMap<u8, u32, Vec<u32>, impl Fn(&u32) -> u8>, usize, usize))
    requires
        titles.wf(),
    ensures
        r.0.wf(),
        r.0.loaded(),
        r.1 == capped(blue_upto(*titles, interwiki@, pages@, pages@.len() as int)),
        r.2 == capped(red_upto(*titles, interwiki@, pages@, pages@.len() as int)),
        forall|i: int| 0 <= i < pages.len() ==> r.0.entries().contains_key(#[trigger] pages[i].0),
        forall|id: u32| #[trigger]
            r.0.entries().contains_key(id) ==> exists|i: int|
                0 <= i < pages.len() && #[trigger] pages[i].0 == id && is_link_list(
                    *titles,
                    interwiki@,
                    pages[i].1@,
                    r.0.entries()[id]@,
                ),
{
    assert(is_shortener::<u8, u32, _>(id_short_key));
    let mut map: HierarchicalMap<u8, u32, Vec<u32>, _> = HierarchicalMap::new(
        "outgoing_links".to_owned(),
        id_short_key,
    );
    let mut blue: usize = 0;
    let mut red: usize = 0;
    let mut i: usize = 0;
    while i < pages.len()
        invariant
            0 <= i <= pages.len(),
            titles.wf(),
            map.wf(),
            blue == capped(blue_upto(*titles, interwiki@, pages@, i as int)),
            red == capped(red_upto(*titles, interwiki@, pages@, i as int)),
            forall|n: int| 0 <= n < i ==> map.entries().contains_key(#[trigger] pages[n].0),
            forall|id: u32| #[trigger]
                map.entries().contains_key(id) ==> exists|n: int|
                    0 <= n < i && #[trigger] pages[n].0 == id && is_link_list(
                        *titles,
                        interwiki@,
                        pages[n].1@,
                        map.entries()[id]@,
                    ),
        decreases pages.len() - i,
    {
        let (ids, reds) = page_links(pages[i].1.as_str(), titles, interwiki);
        proof {
            lemma_link_list_len(*titles, interwiki@, pages@[i as int].1@, ids@);
        }
        blue = blue.saturating_add(ids.len());
        red = red.saturating_add(reds);
        let ghost before = map.entries();
        let ghost list = ids@;
        let _ = map.insert(pages[i].0, ids);
        proof {
            assert forall|id: u32| #[trigger] map.entries().contains_key(id) implies exists|n: int|
                0 <= n < i + 1 && #[trigger] pages[n].0 == id && is_link_list(
                    *titles,
                    interwiki@,
                    pages[n].1@,
                    map.entries()[id]@,
                ) by {
                if id == pages[i as int].0 {
                    assert(pages[i as int].0 == id && is_link_list(
                        *titles,
                        interwiki@,
                        pages[i as int].1@,
                        list,
                    ));
                } else {
                    assert(before.contains_key(id));
                    let n = choose|n: int|
                        0 <= n < i && #[trigger] pages[n].0 == id && is_link_list(
                            *titles,
                            interwiki@,
                            pages[n].1@,
                            before[id]@,
                        );
                    assert(pages[n].0 == id);
                }
            }
        }
        i += 1;
    }
    let ghost held = map.entries();
    map.mark_loaded();
    assert(map.entries() == held);
    (map, blue, red)
}

/// The place of a link in a sequence of partitions: the partition, the
/// entry in it, and the link in the entry.
pub open spec fn link_at(
    parts: Seq<Partition<u32, Vec<u32>>>,
    p: int,
    j: int,
    b: int,
    x: u32,
    y: u32,
) -> bool {
    &&& 0 <= p < parts.len()
    &&& 0 <= j < parts[p].key_seq().len()
    &&& 0 <= b < parts[p].value_seq()[j]@.len()
    &&& parts[p].key_seq()[j] == x
    &&& parts[p].value_seq()[j]@[b] == y
}

/// The link from `x` to `y` stands at a place before the place `(p, j, b)`.
pub open spec fn turned(
    parts: Seq<Partition<u32, Vec<u32>>>,
    p: int,
    j: int,
    b: int,
    x: u32,
    y: u32,
) -> bool {
    exists|q: int, r: int, c: int|
        #[trigger] link_at(parts, q, r, c, x, y) && (q < p || (q == p && (r < j || (r == j
            && c < b))))
}

/// How often `v` stands in `s`.
pub open spec fn occurrences(s: Seq<u32>, v: u32) -> nat
    decreases s.len(),
{
    if s.len() == 0 {
        0
    } else if s.last() == v {
        occurrences(s.drop_last(), v) + 1
    } else {
        occurrences(s.drop_last(), v)
    }
}

/// How often the adjacency map `m` lists `v` under `u`.
pub open spec fn times(m: Map<u32, Vec<u32>>, u: u32, v: u32) -> nat {
    if m.contains_key(u) {
        occurrences(m[u]@, v)
    } else {
        0
    }
}

/// One more item is one more occurrence of that item and of no other.
pub proof fn lemma_occurrences_push(s: Seq<u32>, w: u32, v: u32)
    ensures
        occurrences(s.push(w), v) == occurrences(s, v) + (if w == v {
            1nat
        } else {
            0nat
        }),
{
    assert(s.push(w).drop_last() =~= s);
}

/// The entry of `x` stands at the place `(q, r)`.
pub open spec fn entry_place(parts: Seq<Partition<u32, Vec<u32>>>, q: int, r: int, x: u32) -> bool {
    &&& 0 <= q < parts.len()
    &&& 0 <= r < parts[q].key_seq().len()
    &&& parts[q].key_seq()[r] == x
}

/// The entry of `x` stands at a place before the place `(p, j)`.
pub open spec fn passed(parts: Seq<Partition<u32, Vec<u32>>>, p: int, j: int, x: u32) -> bool {
    exists|q: int, r: int| #[trigger] entry_place(parts, q, r, x) && (q < p || (q == p && r < j))
}

/// How often the link from `x` to `y` stands at a place before the place
/// `(p, j, b)`, where `entries` holds the entries of `parts`.
pub open spec fn tally(
    parts: Seq<Partition<u32, Vec<u32>>>,
    entries: Map<u32, Vec<u32>>,
    p: int,
    j: int,
    b: int,
    x: u32,
    y: u32,
) -> nat {
    if passed(parts, p, j, x) {
        occurrences(entries[x]@, y)
    } else if entry_place(parts, p, j, x) {
        occurrences(parts[p].value_seq()[j]@.take(b), y)
    } else {
        0
    }
}

/// An entry stands at one place only, and the map holds it.
proof fn lemma_one_place<K: Key, F: Fn(&u32) -> K>(
    outgoing: &HierarchicalMap<K, u32, Vec<u32>, F>,
    q: int,
    r: int,
    p: int,
    j: int,
    x: u32,
)
    requires
        outgoing.wf(),
        entry_place(outgoing.partitions().value_seq(), q, r, x),
        entry_place(outgoing.partitions().value_seq(), p, j, x),
    ensures
        q == p,
        r == j,
        outgoing.entries().contains_key(x),
        outgoing.entries()[x] == outgoing.partitions().value_seq()[q].value_seq()[r],
{
    let parts = outgoing.partitions().value_seq();
    outgoing.lemma_partition_at(q);
    outgoing.lemma_partition_at(p);
    parts[q].lemma_entry_at(r);
    parts[p].lemma_entry_at(j);
    lemma_increasing_distinct::<K>(outgoing.short_keys(), q, p);
    lemma_increasing_distinct::<u32>(parts[q].key_seq(), r, j);
}

/// Lists, in `turned_map`, `x` under `y` for every `y` that `outgoing`
/// lists under `x`, once for each time.
fn turn_links<K: Key, F: Fn(&u32) -> K, H: Fn(&u32) -> u8>(
    outgoing: &HierarchicalMap<K, u32, Vec<u32>, F>,
    turned_map: &mut HierarchicalMap<u8, u32, Vec<u32>, H>,
)
    requires
        outgoing.wf(),
        old(turned_map).wf(),
        old(turned_map).entries() == Map::<u32, Vec<u32>>::empty(),
    ensures
        final(turned_map).wf(),
        final(turned_map).loaded() == old(turned_map).loaded(),
        final(turned_map).shortener() == old(turned_map).shortener(),
        final(turned_map).prefix_chars() == old(turned_map).prefix_chars(),
        forall|x: u32, y: u32| #[trigger]
            links(final(turned_map).entries(), y, x) <==> links(outgoing.entries(), x, y),
        forall|x: u32, y: u32| #[trigger]
            times(final(turned_map).entries(), y, x) == times(outgoing.entries(), x, y),
{
    let outer = outgoing.get_map();
    let ghost parts = outgoing.partitions().value_seq();
    let ghost ents = outgoing.entries();
    let mut p: usize = 0;
    proof {
        assert forall|x: u32, y: u32| #[trigger]
            times(turned_map.entries(), y, x) == tally(parts, ents, 0, 0, 0, x, y) by {
            if passed(parts, 0, 0, x) {
                let (q, r) = choose|q: int, r: int| #[trigger]
                    entry_place(parts, q, r, x) && (q < 0 || (q == 0 && r < 0));
            }
        }
    }
    while p < outer.len()
        invariant
            0 <= p <= parts.len(),
            outgoing.wf(),
            *outer == outgoing.partitions(),
            parts == outgoing.partitions().value_seq(),
            turned_map.wf(),
            turned_map.loaded() == old(turned_map).loaded(),
            turned_map.shortener() == old(turned_map).shortener(),
            turned_map.prefix_chars() == old(turned_map).prefix_chars(),
            forall|x: u32, y: u32| #[trigger]
                links(turned_map.entries(), y, x) <==> turned(parts, p as int, 0, 0, x, y),
            ents == outgoing.entries(),
            forall|x: u32, y: u32| #[trigger]
                times(turned_map.entries(), y, x) == tally(parts, ents, p as int, 0, 0, x, y),
        decreases parts.len() - p,
    {
        proof {
            outgoing.lemma_partition_at(p as int);
        }
        let part = outer.value_at(p);
        let mut j: usize = 0;
        while j < part.len()
            invariant
                0 <= p < parts.len(),
                0 <= j <= part.key_seq().len(),
                part.wf(),
                *part == parts[p as int],
                turned_map.wf(),
                turned_map.loaded() == old(turned_map).loaded(),
                turned_map.shortener() == old(turned_map).shortener(),
                turned_map.prefix_chars() == old(turned_map).prefix_chars(),
                forall|x: u32, y: u32| #[trigger]
                    links(turned_map.entries(), y, x) <==> turned(parts, p as int, j as int, 0, x, y),
                outgoing.wf(),
                parts == outgoing.partitions().value_seq(),
                ents == outgoing.entries(),
                forall|x: u32, y: u32| #[trigger]
                    times(turned_map.entries(), y, x) == tally(
                        parts,
                        ents,
                        p as int,
                        j as int,
                        0,
                        x,
                        y,
                    ),
            decreases part.key_seq().len() - j,
        {
            let id = *part.key_at(j);
            let list = part.value_at(j);
            let mut b: usize = 0;
            while b < list.len()
                invariant
                    0 <= p < parts.len(),
                    0 <= j < part.key_seq().len(),
                    0 <= b <= list@.len(),
                    part.wf(),
                    *part == parts[p as int],
                    id == part.key_seq()[j as int],
                    *list == part.value_seq()[j as int],
                    turned_map.wf(),
                    turned_map.loaded() == old(turned_map).loaded(),
                    turned_map.shortener() == old(turned_map).shortener(),
                    turned_map.prefix_chars() == old(turned_map).prefix_chars(),
                    forall|x: u32, y: u32| #[trigger]
                        links(turned_map.entries(), y, x) <==> turned(
                            parts,
                            p as int,
                            j as int,
                            b as int,
                            x,
                            y,
                        ),
                    outgoing.wf(),
                    parts == outgoing.partitions().value_seq(),
                    ents == outgoing.entries(),
                    forall|x: u32, y: u32| #[trigger]
                        times(turned_map.entries(), y, x) == tally(
                            parts,
                            ents,
                            p as int,
                            j as int,
                            b as int,
                            x,
                            y,
                        ),
                decreases list@.len() - b,
            {
                let link = list[b];
                let ghost before = turned_map.entries();
                let add = |held: Vec<u32>| -> (out: Vec<u32>)
                    ensures
                        out@ == held@.push(id),
                    {
                        let mut out = held;
                        out.push(id);
                        out
                    };
                turned_map.mutate_with_default(link, add);
                proof {
                    let (was, now) = choose|was: Vec<u32>, now: Vec<u32>|
                        {
                            &&& #[trigger] call_ensures(add, (was,), now)
                            &&& turned_map.entries() == before.insert(link, now)
                            &&& if before.contains_key(link) {
                                was == before[link]
                            } else {
                                call_ensures(Vec::<u32>::default, (), was)
                            }
                        };
                    assert(now@ == was@.push(id));
                    assert(link_at(parts, p as int, j as int, b as int, id, link));
                    assert(entry_place(parts, p as int, j as int, id));
                    assert forall|x: u32, y: u32| #[trigger]
                        times(turned_map.entries(), y, x) == tally(
                            parts,
                            ents,
                            p as int,
                            j as int,
                            b + 1,
                            x,
                            y,
                        ) by {
                        assert(times(before, y, x) == tally(
                            parts,
                            ents,
                            p as int,
                            j as int,
                            b as int,
                            x,
                            y,
                        ));
                        lemma_occurrences_push(was@, id, x);
                        if x == id {
                            if passed(parts, p as int, j as int, x) {
                                let (q, r) = choose|q: int, r: int| #[trigger]
                                    entry_place(parts, q, r, x) && (q < p || (q == p && r < j));
                                lemma_one_place(outgoing, q, r, p as int, j as int, x);
                            }
                            assert(list@.take(b + 1) =~= list@.take(b as int).push(link));
                            lemma_occurrences_push(list@.take(b as int), link, y);
                        }
                    }
                    assert forall|x: u32, y: u32| #[trigger]
                        links(turned_map.entries(), y, x) <==> turned(
                            parts,
                            p as int,
                            j as int,
                            b + 1,
                            x,
                            y,
                        ) by {
                        if links(turned_map.entries(), y, x) {
                            if y == link {
                                let n = choose|n: int| 0 <= n < now@.len() && now@[n] == x;
                                if n < was@.len() {
                                    assert(was@[n] == x);
                                    assert(before.contains_key(link));
                                    assert(links(before, y, x));
                                    assert(turned(parts, p as int, j as int, b as int, x, y));
                                } else {
                                    assert(x == id);
                                }
                            } else {
                                assert(links(before, y, x));
                                assert(turned(parts, p as int, j as int, b as int, x, y));
                            }
                        }
                        if turned(parts, p as int, j as int, b + 1, x, y) {
                            let (q, r, c) = choose|q: int, r: int, c: int|
                                #[trigger] link_at(parts, q, r, c, x, y) && (q < p || (q == p
                                    && (r < j || (r == j && c < b + 1))));
                            if q == p && r == j && c == b {
                                assert(now@[now@.len() - 1] == id);
                            } else {
                                assert(turned(parts, p as int, j as int, b as int, x, y));
                                assert(links(before, y, x));
                                if y == link {
                                    let n = choose|n: int| 0 <= n < was@.len() && was@[n] == x;
                                    assert(now@[n] == x);
                                }
                            }
                        }
                    }
                }
                b += 1;
            }
            proof {
                assert(list@.take(b as int) =~= list@);
                assert forall|x: u32, y: u32| #[trigger]
                    times(turned_map.entries(), y, x) == tally(
                        parts,
                        ents,
                        p as int,
                        j + 1,
                        0,
                        x,
                        y,
                    ) by {
                    assert(times(turned_map.entries(), y, x) == tally(
                        parts,
                        ents,
                        p as int,
                        j as int,
                        b as int,
                        x,
                        y,
                    ));
                    if passed(parts, p as int, j as int, x) {
                        let (q, r) = choose|q: int, r: int| #[trigger]
                            entry_place(parts, q, r, x) && (q < p || (q == p && r < j));
                        assert(entry_place(parts, q, r, x));
                    } else if x == id {
                        assert(entry_place(parts, p as int, j as int, x));
                        lemma_one_place(outgoing, p as int, j as int, p as int, j as int, x);
                    } else if passed(parts, p as int, j + 1, x) {
                        let (q, r) = choose|q: int, r: int| #[trigger]
                            entry_place(parts, q, r, x) && (q < p || (q == p && r < j + 1));
                        assert(entry_place(parts, q, r, x));
                    }
                }
                assert forall|x: u32, y: u32| #[trigger]
                    links(turned_map.entries(), y, x) <==> turned(parts, p as int, j + 1, 0, x, y) by {
                    if turned(parts, p as int, j as int, b as int, x, y) {
                        let (q, r, c) = choose|q: int, r: int, c: int|
                            #[trigger] link_at(parts, q, r, c, x, y) && (q < p || (q == p && (
                            r < j || (r == j && c < b))));
                        assert(link_at(parts, q, r, c, x, y));
                    }
                    if turned(parts, p as int, j + 1, 0, x, y) {
                        let (q, r, c) = choose|q: int, r: int, c: int|
                            #[trigger] link_at(parts, q, r, c, x, y) && (q < p || (q == p && (
                            r < j + 1 || (r == j + 1 && c < 0))));
                        assert(link_at(parts, q, r, c, x, y));
                    }
                }
            }
            j += 1;
        }
        proof {
            assert forall|x: u32, y: u32| #[trigger]
                times(turned_map.entries(), y, x) == tally(parts, ents, p + 1, 0, 0, x, y) by {
                assert(times(turned_map.entries(), y, x) == tally(
                    parts,
                    ents,
                    p as int,
                    j as int,
                    0,
                    x,
                    y,
                ));
                if passed(parts, p as int, j as int, x) {
                    let (q, r) = choose|q: int, r: int| #[trigger]
                        entry_place(parts, q, r, x) && (q < p || (q == p && r < j));
                    assert(entry_place(parts, q, r, x));
                } else if passed(parts, p + 1, 0, x) {
                    let (q, r) = choose|q: int, r: int| #[trigger]
                        entry_place(parts, q, r, x) && (q < p + 1 || (q == p + 1 && r < 0));
                    assert(entry_place(parts, q, r, x));
                }
            }
            assert forall|x: u32, y: u32| #[trigger]
                links(turned_map.entries(), y, x) <==> turned(parts, p + 1, 0, 0, x, y) by {
                if turned(parts, p as int, j as int, 0, x, y) {
                    let (q, r, c) = choose|q: int, r: int, c: int|
                        #[trigger] link_at(parts, q, r, c, x, y) && (q < p || (q == p && (r
                            < j || (r == j && c < 0))));
                    assert(link_at(parts, q, r, c, x, y));
                }
                if turned(parts, p + 1, 0, 0, x, y) {
                    let (q, r, c) = choose|q: int, r: int, c: int|
                        #[trigger] link_at(parts, q, r, c, x, y) && (q < p + 1 || (q == p + 1
                            && (r < 0 || (r == 0 && c < 0))));
                    assert(link_at(parts, q, r, c, x, y));
                }
            }
        }
        p += 1;
    }
    proof {
        assert forall|x: u32, y: u32| #[trigger]
            times(turned_map.entries(), y, x) == times(outgoing.entries(), x, y) by {
            assert(times(turned_map.entries(), y, x) == tally(parts, ents, p as int, 0, 0, x, y));
            if passed(parts, p as int, 0, x) {
                let (q, r) = choose|q: int, r: int| #[trigger]
                    entry_place(parts, q, r, x) && (q < p || (q == p && r < 0));
                lemma_one_place(outgoing, q, r, q, r, x);
            } else if outgoing.entries().contains_key(x) {
                let k = outgoing.short_key_of(x);
                let q = outgoing.short_keys().index_of(k);
                assert(outgoing.short_keys().contains(k));
                outgoing.lemma_partition_at(q);
                let r = parts[q].key_seq().index_of(x);
                assert(parts[q].key_seq().contains(x));
                assert(entry_place(parts, q, r, x));
            }
        }
        assert forall|x: u32, y: u32| #[trigger]
            links(turned_map.entries(), y, x) <==> links(outgoing.entries(), x, y) by {
            if turned(parts, p as int, 0, 0, x, y) {
                let (q, r, c) = choose|q: int, r: int, c: int|
                    #[trigger] link_at(parts, q, r, c, x, y) && (q < p || (q == p && (r < 0
                        || (r == 0 && c < 0))));
                outgoing.lemma_partition_at(q);
                parts[q].lemma_entry_at(r);
            }
            if links(outgoing.entries(), x, y) {
                let k = outgoing.short_key_of(x);
                let q = outgoing.short_keys().index_of(k);
                assert(outgoing.short_keys().contains(k));
                outgoing.lemma_partition_at(q);
                let r = parts[q].key_seq().index_of(x);
                assert(parts[q].key_seq().contains(x));
                parts[q].lemma_entry_at(r);
                let c = choose|c: int|
                    0 <= c < outgoing.entries()[x]@.len() && outgoing.entries()[x]@[c] == y;
                assert(link_at(parts, q, r, c, x, y));
            }
        }
    }
}

/// The map of the incoming links that belongs to a map of outgoing links:
/// it lists `x` under `y` exactly where the outgoing map lists `y` under
/// `x`, and as often. The outgoing map must be fully loaded. The new map is
/// partitioned by `shorten`.
pub fn generate_incoming_links<K: Key, F: Fn(&u32) -> K, H: Fn(&u32) -> u8>(
    outgoing: &HierarchicalMap<K, u32, Vec<u32>, F>,
    shorten: H,
) -> (incoming: HierarchicalMap<u8, u32, Vec<u32>, H>)
    requires
        outgoing.wf(),
        outgoing.loaded(),
        is_shortener::<u8, u32, H>(shorten),
    ensures
        incoming.wf(),
        incoming.loaded(),
        incoming.shortener() == shorten,
        forall|x: u32, y: u32| #[trigger]
            links(incoming.entries(), y, x) <==> links(outgoing.entries(), x, y),
        forall|x: u32, y: u32| #[trigger]
            times(incoming.entries(), y, x) == times(outgoing.entries(), x, y),
{
    let mut turned_map: HierarchicalMap<u8, u32, Vec<u32>, H> = HierarchicalMap::new(
        "incoming_links".to_owned(),
        shorten,
    );
    turn_links(outgoing, &mut turned_map);
    let ghost held = turned_map.entries();
    turned_map.mark_loaded();
    assert(turned_map.entries() == held);
    turned_map
}

} // verus!
