//! Shortest paths through the link graph, by a breadth-first search that
//! runs from both ends at once.

use vstd::prelude::*;
use std::collections::HashMap;
use vstd::std_specs::hash::spec_keys_iter;
use vstd::std_specs::iter::IteratorSpec;
use crate::keys::Key;
use crate::hierarchical_map::HierarchicalMap;
use crate::commands::graph::{
    chained, covered, explored, lemma_covered_finite, lemma_covered_push,
    lemma_explored_chained, lemma_meeting, lemma_node_count, lemma_reach_walk,
    lemma_shortest_walk, lemma_trail_walk, lemma_walk_converse, lemma_walk_join,
    lemma_walk_reach, next_layer, reach, root_of, seen_before, seen_from, trail, walk,
};

verus! {

broadcast use vstd::std_specs::hash::group_hash_axioms;

/// The adjacency map `m` lists `v` under `u`.
pub open spec fn links(m: Map<u32, Vec<u32>>, u: u32, v: u32) -> bool {
    m.contains_key(u) && m[u]@.contains(v)
}

/// The edge relation of an adjacency map.
pub open spec fn edges(m: Map<u32, Vec<u32>>) -> spec_fn(u32, u32) -> bool {
    |u: u32, v: u32| links(m, u, v)
}

/// What the solver assumes of the link graph: no article has the identifier
/// 0, which marks the end of a trail, and the incoming map lists `x` under
/// `y` exactly where the outgoing map lists `y` under `x`.
pub open spec fn consistent(
    outgoing: Map<u32, Vec<u32>>,
    incoming: Map<u32, Vec<u32>>,
    s: u32,
    t: u32,
) -> bool {
    &&& s != 0
    &&& t != 0
    &&& forall|x: u32, y: u32| #[trigger] links(outgoing, x, y) ==> x != 0 && y != 0
    &&& forall|x: u32, y: u32| #[trigger] links(incoming, y, x) <==> links(outgoing, x, y)
}

/// What a path that the solver returns rests on: no article has the
/// identifier 0, and the incoming map lists `x` under `y` only where the
/// outgoing map lists `y` under `x`. The incoming map may list less, or
/// nothing.
pub open spec fn traceable(
    outgoing: Map<u32, Vec<u32>>,
    incoming: Map<u32, Vec<u32>>,
    s: u32,
    t: u32,
) -> bool {
    &&& s != 0
    &&& t != 0
    &&& forall|x: u32, y: u32| #[trigger] links(outgoing, x, y) ==> x != 0 && y != 0
    &&& forall|x: u32, y: u32| #[trigger] links(incoming, y, x) ==> links(outgoing, x, y)
}

/// `p` leads from `s` to `t` along the links of `outgoing`.
pub open spec fn is_path(outgoing: Map<u32, Vec<u32>>, s: u32, t: u32, p: Seq<u32>) -> bool {
    &&& walk(edges(outgoing), p)
    &&& p[0] == s
    &&& p.last() == t
}

/// `p` is a path from `s` to `t` and no path from `s` to `t` is shorter.
pub open spec fn is_shortest_path(
    outgoing: Map<u32, Vec<u32>>,
    s: u32,
    t: u32,
    p: Seq<u32>,
) -> bool {
    &&& is_path(outgoing, s, t, p)
    &&& forall|q: Seq<u32>| #[trigger] is_path(outgoing, s, t, q) ==> p.len() <= q.len()
}

/// Every path from `s` to `t` has more than `n` nodes.
pub open spec fn none_within(outgoing: Map<u32, Vec<u32>>, s: u32, t: u32, n: int) -> bool {
    forall|q: Seq<u32>| #[trigger] is_path(outgoing, s, t, q) ==> q.len() > n
}

/// The views of the layers.
pub open spec fn layers_of(v: Seq<HashMap<u32, u32>>) -> Seq<Map<u32, u32>> {
    v.map_values(|m: HashMap<u32, u32>| m@)
}

/// `m` lies in the last layer of both searches.
pub open spec fn meets(fwd: Seq<Map<u32, u32>>, bwd: Seq<Map<u32, u32>>, m: u32) -> bool {
    fwd.last().contains_key(m) && bwd.last().contains_key(m)
}

/// The route through `m`: the forward trail from `m` turned round, then the
/// backward trail from `m` without `m` itself.
pub open spec fn route(fwd: Seq<Map<u32, u32>>, bwd: Seq<Map<u32, u32>>, m: u32) -> Seq<u32> {
    trail(fwd, fwd.len() - 1, m).reverse() + trail(bwd, bwd.len() - 1, m).drop_first()
}

/// Where every incoming link is an outgoing link turned round, the route
/// through a meeting point is a path from the source to the target with one
/// node for each layer but one.
pub proof fn lemma_route_is_path(
    outgoing: Map<u32, Vec<u32>>,
    incoming: Map<u32, Vec<u32>>,
    s: u32,
    t: u32,
    fwd: Seq<Map<u32, u32>>,
    bwd: Seq<Map<u32, u32>>,
    m: u32,
)
    requires
        traceable(outgoing, incoming, s, t),
        explored(edges(outgoing), s, fwd),
        explored(edges(incoming), t, bwd),
        meets(fwd, bwd, m),
    ensures
        is_path(outgoing, s, t, route(fwd, bwd, m)),
        route(fwd, bwd, m).len() == fwd.len() + bwd.len() - 1,
        !route(fwd, bwd, m).contains(0),
{
    let e = edges(outgoing);
    let r = edges(incoming);
    let against_e = |x: u32, y: u32| e(y, x);
    let against_r = |x: u32, y: u32| r(y, x);
    assert forall|x: u32, y: u32| #[trigger] e(x, y) implies y != 0 by {
        assert(links(outgoing, x, y));
    }
    assert forall|x: u32, y: u32| #[trigger] r(x, y) implies y != 0 by {
        assert(links(incoming, x, y));
        assert(links(outgoing, y, x));
    }
    lemma_trail_walk(e, against_e, s, fwd, fwd.len() - 1, m);
    lemma_trail_walk(r, against_r, t, bwd, bwd.len() - 1, m);
    let a = trail(fwd, fwd.len() - 1, m);
    let b = trail(bwd, bwd.len() - 1, m);
    lemma_walk_converse(e, against_e, a);
    assert(walk(e, b)) by {
        assert forall|i: int| 0 <= i < b.len() - 1 implies e(#[trigger] b[i], b[i + 1]) by {
            assert(against_r(b[i], b[i + 1]));
            assert(links(incoming, b[i + 1], b[i]));
        }
    }
    lemma_walk_join(e, a.reverse(), b);
    let p = route(fwd, bwd, m);
    if p.contains(0) {
        let i = p.index_of(0);
        if i < a.len() {
            assert(a[a.len() - 1 - i] == 0);
            assert(a.contains(0));
        } else {
            assert(b[i - a.len() + 1] == 0);
            assert(b.contains(0));
        }
    }
}

/// Where the last layers of the two searches hold no common node, no path
/// has exactly one node for each layer but one.
pub proof fn lemma_no_meeting(
    outgoing: Map<u32, Vec<u32>>,
    incoming: Map<u32, Vec<u32>>,
    s: u32,
    t: u32,
    fwd: Seq<Map<u32, u32>>,
    bwd: Seq<Map<u32, u32>>,
)
    requires
        consistent(outgoing, incoming, s, t),
        explored(edges(outgoing), s, fwd),
        explored(edges(incoming), t, bwd),
        none_within(outgoing, s, t, fwd.len() + bwd.len() - 2),
        forall|m: u32| !meets(fwd, bwd, m),
    ensures
        none_within(outgoing, s, t, fwd.len() + bwd.len() - 1),
{
    let e = edges(outgoing);
    let r = edges(incoming);
    assert forall|x: u32, y: u32| #[trigger] r(x, y) <==> e(y, x) by {
        assert(links(incoming, x, y) <==> links(outgoing, y, x));
    }
    assert forall|q: Seq<u32>| #[trigger] is_path(outgoing, s, t, q) implies q.len() > fwd.len()
        + bwd.len() - 1 by {
        if q.len() == fwd.len() + bwd.len() - 1 {
            let n = (q.len() - 1) as nat;
            lemma_walk_reach(e, q, q.len() - 1);
            assert forall|k: nat| k < n implies !reach(e, s, t, k) by {
                if reach(e, s, t, k) {
                    let w = lemma_reach_walk(e, s, t, k);
                    assert(is_path(outgoing, s, t, w));
                }
            }
            lemma_meeting(e, r, s, t, fwd, bwd, q);
            assert(meets(fwd, bwd, q[fwd.len() - 1]));
        }
    }
}

/// Where the last layer of one of the two searches is empty and no path has
/// fewer nodes than there are layers but one, there is no path at all.
pub proof fn lemma_exhausted(
    outgoing: Map<u32, Vec<u32>>,
    incoming: Map<u32, Vec<u32>>,
    s: u32,
    t: u32,
    fwd: Seq<Map<u32, u32>>,
    bwd: Seq<Map<u32, u32>>,
)
    requires
        consistent(outgoing, incoming, s, t),
        explored(edges(outgoing), s, fwd),
        explored(edges(incoming), t, bwd),
        none_within(outgoing, s, t, fwd.len() + bwd.len() - 2),
        fwd.last().dom() == Set::<u32>::empty() || bwd.last().dom() == Set::<u32>::empty(),
    ensures
        forall|q: Seq<u32>| !is_path(outgoing, s, t, q),
{
    let e = edges(outgoing);
    let r = edges(incoming);
    assert forall|x: u32, y: u32| #[trigger] r(x, y) <==> e(y, x) by {
        assert(links(incoming, x, y) <==> links(outgoing, y, x));
    }
    assert forall|q: Seq<u32>| !is_path(outgoing, s, t, q) by {
        if is_path(outgoing, s, t, q) {
            let w = lemma_shortest_walk(e, q);
            assert(is_path(outgoing, s, t, w));
            lemma_meeting(e, r, s, t, fwd, bwd, w);
            assert(fwd.last().dom().contains(w[fwd.len() - 1]));
            assert(bwd.last().dom().contains(w[w.len() - bwd.len()]));
        }
    }
}

/// The keys of a layer.
fn keys_of(m: &HashMap<u32, u32>) -> (v: Vec<u32>)
    ensures
        forall|k: u32| v@.contains(k) <==> m@.contains_key(k),
{
    let mut v: Vec<u32> = Vec::new();
    let ghost ks: Seq<u32> = spec_keys_iter(m).remaining().unref();
    for k in it: m.keys()
        invariant
            it.seq().unref() == ks,
            ks.to_set() == m@.dom(),
            v@ == ks.take(it.index() as int),
    {
        v.push(*k);
    }
    assert(v@ =~= ks);
    assert forall|k: u32| v@.contains(k) <==> m@.contains_key(k) by {
        assert(ks.to_set().contains(k) <==> m@.dom().contains(k));
    }
    v
}

/// Whether one of the layers holds `id`.
fn seen(layers: &Vec<HashMap<u32, u32>>, id: u32) -> (b: bool)
    ensures
        b == seen_before(layers_of(layers@), layers.len() as int, id),
{
    let mut i: usize = 0;
    while i < layers.len()
        invariant
            0 <= i <= layers.len(),
            !seen_before(layers_of(layers@), i as int, id),
        decreases layers.len() - i,
    {
        if layers[i].contains_key(&id) {
            assert(layers_of(layers@)[i as int].contains_key(id));
            return true;
        }
        i += 1;
    }
    false
}

/// The node that `layer` names for `node`, or 0 where it holds none.
fn named(layer: &HashMap<u32, u32>, node: u32) -> (pred: u32)
    ensures
        layer@.contains_key(node) ==> pred == layer@[node],
{
    match layer.get(&node) {
        Some(pred) => *pred,
        None => 0,
    }
}

/// Adds the layer that follows the last: the nodes that `links_map` lists
/// under a node of the last layer and that no layer holds yet.
fn expand<K: Key, F: Fn(&u32) -> K>(
    layers: &mut Vec<HashMap<u32, u32>>,
    links_map: &HierarchicalMap<K, u32, Vec<u32>, F>,
)
    requires
        links_map.wf(),
        explored(
            edges(links_map.entries()),
            root_of(layers_of(old(layers)@)),
            layers_of(old(layers)@),
        ),
    ensures
        final(layers)@.len() == old(layers)@.len() + 1,
        layers_of(final(layers)@).drop_last() == layers_of(old(layers)@),
        explored(
            edges(links_map.entries()),
            root_of(layers_of(old(layers)@)),
            layers_of(final(layers)@),
        ),
        forall|v: u32|
            layers_of(final(layers)@).last().contains_key(v) ==> !seen_before(
                layers_of(old(layers)@),
                old(layers)@.len() as int,
                v,
            ),
{
    let ghost ls = layers_of(layers@);
    let ghost m = links_map.entries();
    let ghost root = root_of(ls);
    let rank = layers.len();
    let frontier = keys_of(&layers[rank - 1]);
    let mut next: HashMap<u32, u32> = HashMap::new();
    let mut a: usize = 0;
    while a < frontier.len()
        invariant
            0 <= a <= frontier.len(),
            *layers == *old(layers),
            ls == layers_of(layers@),
            rank == layers.len(),
            rank >= 1,
            links_map.wf(),
            m == links_map.entries(),
            forall|k: u32| frontier@.contains(k) <==> ls[rank - 1].contains_key(k),
            forall|v: u32| #[trigger]
                next@.contains_key(v) ==> !seen_before(ls, rank as int, v) && ls[rank
                    - 1].contains_key(next@[v]) && links(m, next@[v], v),
            forall|a2: int, v: u32|
                0 <= a2 < a && #[trigger] links(m, frontier@[a2], v) && !seen_before(
                    ls,
                    rank as int,
                    v,
                ) ==> next@.contains_key(v),
        decreases frontier.len() - a,
    {
        let id = frontier[a];
        assert(frontier@.contains(id));
        match links_map.get(&id) {
            Some(list) => {
                let mut b: usize = 0;
                while b < list.len()
                    invariant
                        0 <= b <= list.len(),
                        0 <= a < frontier.len(),
                        id == frontier@[a as int],
                        *layers == *old(layers),
                        ls == layers_of(layers@),
                        rank == layers.len(),
                        rank >= 1,
                        m.contains_key(id),
                        *list == m[id],
                        ls[rank - 1].contains_key(id),
                        forall|v: u32| #[trigger]
                            next@.contains_key(v) ==> !seen_before(ls, rank as int, v) && ls[rank
                                - 1].contains_key(next@[v]) && links(m, next@[v], v),
                        forall|a2: int, v: u32|
                            0 <= a2 < a && #[trigger] links(m, frontier@[a2], v) && !seen_before(
                                ls,
                                rank as int,
                                v,
                            ) ==> next@.contains_key(v),
                        forall|b2: int|
                            0 <= b2 < b && !seen_before(ls, rank as int, #[trigger] list@[b2])
                                ==> next@.contains_key(list@[b2]),
                    decreases list.len() - b,
                {
                    let link = list[b];
                    // A node that an earlier layer holds was reached before.
                    if !seen(layers, link) {
                        assert(list@.contains(link));
                        next.insert(link, id);
                    }
                    b += 1;
                }
                assert forall|v: u32|
                    #[trigger] links(m, frontier@[a as int], v) && !seen_before(
                        ls,
                        rank as int,
                        v,
                    ) implies next@.contains_key(v) by {
                    let b2 = list@.index_of(v);
                    assert(list@[b2] == v);
                }
            },
            None => {},
        }
        a += 1;
    }
    layers.push(next);
    proof {
        let e = edges(m);
        let ls2 = layers_of(layers@);
        assert(ls2 =~= ls.push(next@));
        assert(ls2.drop_last() =~= ls);
        assert forall|i: int| 1 <= i < ls2.len() implies #[trigger] next_layer(e, ls2, i) by {
            if i < rank {
                assert(next_layer(e, ls, i));
                assert forall|v: u32| seen_before(ls2, i, v) <==> seen_before(ls, i, v) by {
                    if seen_before(ls2, i, v) {
                        let j = choose|j: int| 0 <= j < i && #[trigger] ls2[j].contains_key(v);
                        assert(ls[j].contains_key(v));
                    }
                    if seen_before(ls, i, v) {
                        let j = choose|j: int| 0 <= j < i && #[trigger] ls[j].contains_key(v);
                        assert(ls2[j].contains_key(v));
                    }
                }
            } else {
                assert forall|v: u32| seen_before(ls2, i, v) <==> seen_before(ls, i, v) by {
                    if seen_before(ls2, i, v) {
                        let j = choose|j: int| 0 <= j < i && #[trigger] ls2[j].contains_key(v);
                        assert(ls[j].contains_key(v));
                    }
                    if seen_before(ls, i, v) {
                        let j = choose|j: int| 0 <= j < i && #[trigger] ls[j].contains_key(v);
                        assert(ls2[j].contains_key(v));
                    }
                }
                assert forall|v: u32| #[trigger]
                    ls2[i].contains_key(v) <==> seen_from(e, ls2[i - 1], v) && !seen_before(
                        ls2,
                        i,
                        v,
                    ) by {
                    if ls2[i].contains_key(v) {
                        assert(ls[rank - 1].contains_key(next@[v]) && e(next@[v], v));
                    }
                    if seen_from(e, ls2[i - 1], v) && !seen_before(ls2, i, v) {
                        let u = choose|u: u32| #[trigger] ls2[i - 1].contains_key(u) && e(u, v);
                        assert(frontier@.contains(u));
                        let a2 = frontier@.index_of(u);
                        assert(links(m, frontier@[a2], v));
                    }
                }
            }
        }
        lemma_explored_chained(e, root, ls);
    }
}

/// What one round of the search did.
pub enum Round {
    /// The two searches met; the path through the meeting point.
    Found(Vec<u32>),
    /// One of the searches has no node left to go on from.
    Exhausted,
    /// The search from the source went one step further.
    Forward,
    /// The search from the target went one step further.
    Backward,
}

/// The state of a search from both ends: for each end the layers of nodes
/// reached so far, each node with the node it was reached from.
pub struct Solver {
    /// Layer `n` maps the nodes first reached in `n` steps from the start
    /// article to a node of layer `n - 1` that links to them. Layer 0 maps
    /// the start article to 0.
    start: Vec<HashMap<u32, u32>>,
    /// Layer `n` maps the nodes from which the end article is first reached
    /// in `n` steps to a node of layer `n - 1` that they link to. Layer 0
    /// maps the end article to 0.
    end: Vec<HashMap<u32, u32>>,
}

impl Solver {
    /// The layers of the search from the source.
    pub closed spec fn forward(&self) -> Seq<Map<u32, u32>> {
        layers_of(self.start@)
    }

    /// The layers of the search from the target.
    pub closed spec fn backward(&self) -> Seq<Map<u32, u32>> {
        layers_of(self.end@)
    }

    /// The article that paths start from.
    pub open spec fn source(&self) -> u32 {
        root_of(self.forward())
    }

    /// The article that paths lead to.
    pub open spec fn target(&self) -> u32 {
        root_of(self.backward())
    }

    /// The layers are those of breadth-first searches in the given graph:
    /// from the source along the outgoing links, and from the target along
    /// the incoming links.
    pub open spec fn inv(&self, outgoing: Map<u32, Vec<u32>>, incoming: Map<u32, Vec<u32>>) -> bool {
        &&& explored(edges(outgoing), self.source(), self.forward())
        &&& explored(edges(incoming), self.target(), self.backward())
    }

    /// A search that has not left its two ends yet.
    pub fn new(start: u32, end: u32) -> (s: Self)
        ensures
            s.source() == start,
            s.target() == end,
            s.forward() == seq![map![start => 0u32]],
            s.backward() == seq![map![end => 0u32]],
            forall|outgoing: Map<u32, Vec<u32>>, incoming: Map<u32, Vec<u32>>| #[trigger]
                s.inv(outgoing, incoming),
    {
        let mut first: HashMap<u32, u32> = HashMap::new();
        first.insert(start, 0);
        let mut last: HashMap<u32, u32> = HashMap::new();
        last.insert(end, 0);
        let mut from_start: Vec<HashMap<u32, u32>> = Vec::new();
        from_start.push(first);
        let mut from_end: Vec<HashMap<u32, u32>> = Vec::new();
        from_end.push(last);
        let s = Solver { start: from_start, end: from_end };
        proof {
            assert(s.forward() =~= seq![map![start => 0u32]]);
            assert(s.backward() =~= seq![map![end => 0u32]]);
            assert(s.forward()[0].dom().contains(start));
            assert(s.backward()[0].dom().contains(end));
        }
        s
    }

    /// How many layers each of the two searches has.
    pub fn depths(&self) -> (d: (usize, usize))
        ensures
            d.0 == self.forward().len(),
            d.1 == self.backward().len(),
    {
        (self.start.len(), self.end.len())
    }

    /// The nodes of the last layer of each search: those from which the
    /// next round goes on.
    pub fn frontiers(&self) -> (f: (Vec<u32>, Vec<u32>))
        requires
            self.forward().len() > 0,
            self.backward().len() > 0,
        ensures
            forall|v: u32| f.0@.contains(v) <==> self.forward().last().contains_key(v),
            forall|v: u32| f.1@.contains(v) <==> self.backward().last().contains_key(v),
    {
        let ahead = keys_of(&self.start[self.start.len() - 1]);
        let behind = keys_of(&self.end[self.end.len() - 1]);
        (ahead, behind)
    }

    /// Takes the search from the source one step further along the outgoing links.
    pub fn populate_forward<K: Key, F: Fn(&u32) -> K>(
        &mut self,
        outgoing_links: &HierarchicalMap<K, u32, Vec<u32>, F>,
    )
        requires
            outgoing_links.wf(),
            explored(edges(outgoing_links.entries()), old(self).source(), old(self).forward()),
        ensures
            final(self).forward().len() == old(self).forward().len() + 1,
            final(self).forward().drop_last() == old(self).forward(),
            final(self).backward() == old(self).backward(),
            final(self).source() == old(self).source(),
            explored(edges(outgoing_links.entries()), old(self).source(), final(self).forward()),
            forall|v: u32|
                final(self).forward().last().contains_key(v) ==> !seen_before(
                    old(self).forward(),
                    old(self).forward().len() as int,
                    v,
                ),
    {
        expand(&mut self.start, outgoing_links);
        proof {
            lemma_explored_chained(
                edges(outgoing_links.entries()),
                old(self).source(),
                self.forward(),
            );
        }
    }

    /// Takes the search from the target one step further along the incoming links.
    pub fn populate_backward<K: Key, F: Fn(&u32) -> K>(
        &mut self,
        incoming_links: &HierarchicalMap<K, u32, Vec<u32>, F>,
    )
        requires
            incoming_links.wf(),
            explored(edges(incoming_links.entries()), old(self).target(), old(self).backward()),
        ensures
            final(self).backward().len() == old(self).backward().len() + 1,
            final(self).backward().drop_last() == old(self).backward(),
            final(self).forward() == old(self).forward(),
            final(self).target() == old(self).target(),
            explored(edges(incoming_links.entries()), old(self).target(), final(self).backward()),
            forall|v: u32|
                final(self).backward().last().contains_key(v) ==> !seen_before(
                    old(self).backward(),
                    old(self).backward().len() as int,
                    v,
                ),
    {
        expand(&mut self.end, incoming_links);
        proof {
            lemma_explored_chained(
                edges(incoming_links.entries()),
                old(self).target(),
                self.backward(),
            );
        }
    }

    /// The route through a node that the last layers of both searches hold,
    /// if there is such a node.
    pub fn complete_path(&self) -> (r: Option<Vec<u32>>)
        requires
            chained(self.forward()),
            chained(self.backward()),
        ensures
            match r {
                Some(p) => exists|m: u32|
                    #[trigger] meets(self.forward(), self.backward(), m) && p@ == route(
                        self.forward(),
                        self.backward(),
                        m,
                    ),
                None => forall|m: u32| !meets(self.forward(), self.backward(), m),
            },
    {
        let ghost fwd = self.forward();
        let ghost bwd = self.backward();
        let top = self.start.len() - 1;
        let bottom = self.end.len() - 1;
        let candidates = keys_of(&self.start[top]);
        let mut c: usize = 0;
        while c < candidates.len()
            invariant
                0 <= c <= candidates.len(),
                fwd == self.forward(),
                bwd == self.backward(),
                top == self.start.len() - 1,
                bottom == self.end.len() - 1,
                chained(fwd),
                chained(bwd),
                forall|k: u32| candidates@.contains(k) <==> fwd[top as int].contains_key(k),
                forall|c2: int| 0 <= c2 < c ==> !bwd[bottom as int].contains_key(candidates@[c2]),
            decreases candidates.len() - c,
        {
            let connection = candidates[c];
            if self.end[bottom].contains_key(&connection) {
                assert(candidates@.contains(connection));
                assert(meets(fwd, bwd, connection));
                // From the meeting point back to the start.
                let mut back: Vec<u32> = Vec::new();
                let mut node = connection;
                let mut rank = top;
                loop
                    invariant_except_break
                        0 <= rank <= top,
                        fwd == self.forward(),
                        top == self.start.len() - 1,
                        chained(fwd),
                        fwd[rank as int].contains_key(node),
                        back@ + trail(fwd, rank as int, node) == trail(
                            fwd,
                            top as int,
                            connection,
                        ),
                    ensures
                        back@ == trail(fwd, top as int, connection),
                    decreases rank,
                {
                    let ghost before = back@;
                    back.push(node);
                    let pred = named(&self.start[rank], node);
                    if pred == 0 || rank == 0 {
                        assert(trail(fwd, rank as int, node) =~= seq![node]);
                        assert(before + seq![node] =~= back@);
                        break ;
                    }
                    assert(trail(fwd, rank as int, node) =~= seq![node] + trail(
                        fwd,
                        rank - 1,
                        pred,
                    ));
                    assert(back@ + trail(fwd, rank - 1, pred) =~= trail(
                        fwd,
                        top as int,
                        connection,
                    ));
                    node = pred;
                    rank -= 1;
                }
                let mut path: Vec<u32> = Vec::new();
                let mut k: usize = back.len();
                while k > 0
                    invariant
                        0 <= k <= back.len(),
                        path@ == back@.reverse().take(back.len() - k),
                    decreases k,
                {
                    k -= 1;
                    path.push(back[k]);
                    assert(path@ =~= back@.reverse().take(back.len() - k));
                }
                assert(path@ =~= back@.reverse());
                // From the meeting point on to the end.
                let mut node = connection;
                let mut rank = bottom;
                loop
                    invariant_except_break
                        0 <= rank <= bottom,
                        bwd == self.backward(),
                        bottom == self.end.len() - 1,
                        chained(bwd),
                        bwd[rank as int].contains_key(node),
                        path@ + trail(bwd, rank as int, node).drop_first() == route(
                            fwd,
                            bwd,
                            connection,
                        ),
                    ensures
                        path@ == route(fwd, bwd, connection),
                    decreases rank,
                {
                    let pred = named(&self.end[rank], node);
                    if pred == 0 || rank == 0 {
                        assert(trail(bwd, rank as int, node) =~= seq![node]);
                        assert(path@ + Seq::<u32>::empty() =~= path@);
                        assert(seq![node].drop_first() =~= Seq::<u32>::empty());
                        break ;
                    }
                    assert(trail(bwd, rank as int, node).drop_first() =~= trail(
                        bwd,
                        rank - 1,
                        pred,
                    ));
                    assert(trail(bwd, rank - 1, pred) =~= seq![pred] + trail(
                        bwd,
                        rank - 1,
                        pred,
                    ).drop_first());
                    path.push(pred);
                    assert(path@ + trail(bwd, rank - 1, pred).drop_first() =~= route(
                        fwd,
                        bwd,
                        connection,
                    ));
                    node = pred;
                    rank -= 1;
                }
                return Some(path);
            }
            c += 1;
        }
        assert forall|m: u32| !meets(fwd, bwd, m) by {
            if meets(fwd, bwd, m) {
                assert(candidates@.contains(m));
                let c2 = candidates@.index_of(m);
                assert(candidates@[c2] == m);
            }
        }
        None
    }

    /// One round of the search. Where the last layer of either search is
    /// empty, the search is exhausted. Else, where the last layers hold a
    /// common node, the route through it is found. Else the search whose last
    /// layer is the smaller goes one step further; of two equal ones, the
    /// search from the source.
    pub fn round<K1: Key, F1: Fn(&u32) -> K1, K2: Key, F2: Fn(&u32) -> K2>(
        &mut self,
        outgoing_links: &HierarchicalMap<K1, u32, Vec<u32>, F1>,
        incoming_links: &HierarchicalMap<K2, u32, Vec<u32>, F2>,
    ) -> (r: Round)
        requires
            outgoing_links.wf(),
            incoming_links.wf(),
            old(self).inv(outgoing_links.entries(), incoming_links.entries()),
        ensures
            final(self).inv(outgoing_links.entries(), incoming_links.entries()),
            final(self).source() == old(self).source(),
            final(self).target() == old(self).target(),
            match r {
                Round::Exhausted => {
                    &&& final(self).forward() == old(self).forward()
                    &&& final(self).backward() == old(self).backward()
                    &&& (old(self).forward().last().len() == 0 || old(
                        self,
                    ).backward().last().len() == 0)
                },
                Round::Found(p) => {
                    &&& final(self).forward() == old(self).forward()
                    &&& final(self).backward() == old(self).backward()
                    &&& old(self).forward().last().len() > 0
                    &&& old(self).backward().last().len() > 0
                    &&& exists|m: u32|
                        #[trigger] meets(old(self).forward(), old(self).backward(), m) && p@
                            == route(old(self).forward(), old(self).backward(), m)
                },
                Round::Forward => {
                    &&& final(self).forward().len() == old(self).forward().len() + 1
                    &&& final(self).forward().drop_last() == old(self).forward()
                    &&& final(self).backward() == old(self).backward()
                    &&& 0 < old(self).forward().last().len() <= old(self).backward().last().len()
                    &&& forall|m: u32| !meets(old(self).forward(), old(self).backward(), m)
                    &&& forall|v: u32|
                        final(self).forward().last().contains_key(v) ==> !seen_before(
                            old(self).forward(),
                            old(self).forward().len() as int,
                            v,
                        )
                },
                Round::Backward => {
                    &&& final(self).backward().len() == old(self).backward().len() + 1
                    &&& final(self).backward().drop_last() == old(self).backward()
                    &&& final(self).forward() == old(self).forward()
                    &&& 0 < old(self).backward().last().len() < old(self).forward().last().len()
                    &&& forall|m: u32| !meets(old(self).forward(), old(self).backward(), m)
                    &&& forall|v: u32|
                        final(self).backward().last().contains_key(v) ==> !seen_before(
                            old(self).backward(),
                            old(self).backward().len() as int,
                            v,
                        )
                },
            },
    {
        let top = self.start.len() - 1;
        let bottom = self.end.len() - 1;
        let ahead = self.start[top].len();
        let behind = self.end[bottom].len();
        if ahead == 0 || behind == 0 {
            return Round::Exhausted;
        }
        proof {
            lemma_explored_chained(
                edges(outgoing_links.entries()),
                self.source(),
                self.forward(),
            );
            lemma_explored_chained(
                edges(incoming_links.entries()),
                self.target(),
                self.backward(),
            );
        }
        match self.complete_path() {
            Some(path) => Round::Found(path),
            None => {
                if ahead <= behind {
                    self.populate_forward(outgoing_links);
                    Round::Forward
                } else {
                    self.populate_backward(incoming_links);
                    Round::Backward
                }
            },
        }
    }

    /// A bound on the rounds that the search can still take: twice the
    /// number of nodes that the layers do not hold yet, and one more while
    /// both last layers hold a node.
    pub open spec fn rounds_left(&self) -> int {
        2 * (0x2_0000_0000 - covered(self.forward()).len() - covered(self.backward()).len()) + (if self.forward().last().len()
            > 0 && self.backward().last().len() > 0 {
            1int
        } else {
            0int
        })
    }

    /// The layers hold no more nodes than there are.
    proof fn lemma_rounds_left(&self)
        requires
            self.forward().len() > 0,
            self.backward().len() > 0,
        ensures
            covered(self.forward()).finite(),
            covered(self.backward()).finite(),
            self.rounds_left() >= 0,
            forall|i: int| 0 <= i < self.forward().len() ==> (#[trigger] self.forward()[i]).dom().finite(),
            forall|i: int| 0 <= i < self.backward().len() ==> (#[trigger] self.backward()[i]).dom().finite(),
    {
        lemma_covered_finite(self.forward());
        lemma_covered_finite(self.backward());
        lemma_node_count(covered(self.forward()));
        lemma_node_count(covered(self.backward()));
    }

    /// Runs the search to its end. In a consistent graph, and from a search
    /// in which no path can have been missed yet (as in a new one), the
    /// result is a shortest path from the source to the target, or `None`
    /// where no path exists.
    ///
    /// Where the incoming map lists only some of the outgoing links turned
    /// round, or none, a path that is returned is still a path along the
    /// outgoing links; it need not be a shortest one, and `None` does not
    /// say that there is no path.
    pub fn solve<K1: Key, F1: Fn(&u32) -> K1, K2: Key, F2: Fn(&u32) -> K2>(
        self,
        outgoing_links: &HierarchicalMap<K1, u32, Vec<u32>, F1>,
        incoming_links: &HierarchicalMap<K2, u32, Vec<u32>, F2>,
    ) -> (r: Option<Vec<u32>>)
        requires
            outgoing_links.wf(),
            incoming_links.wf(),
            self.inv(outgoing_links.entries(), incoming_links.entries()),
        ensures
            consistent(
                outgoing_links.entries(),
                incoming_links.entries(),
                self.source(),
                self.target(),
            ) && none_within(
                outgoing_links.entries(),
                self.source(),
                self.target(),
                self.forward().len() + self.backward().len() - 2,
            ) ==> match r {
                Some(p) => is_shortest_path(
                    outgoing_links.entries(),
                    self.source(),
                    self.target(),
                    p@,
                ) && !p@.contains(0),
                None => forall|q: Seq<u32>|
                    !is_path(outgoing_links.entries(), self.source(), self.target(), q),
            },
            traceable(
                outgoing_links.entries(),
                incoming_links.entries(),
                self.source(),
                self.target(),
            ) ==> match r {
                Some(p) => is_path(
                    outgoing_links.entries(),
                    self.source(),
                    self.target(),
                    p@,
                ) && !p@.contains(0),
                None => true,
            },
    {
        let ghost out = outgoing_links.entries();
        let ghost inc = incoming_links.entries();
        let ghost s = self.source();
        let ghost t = self.target();
        let ghost sound = consistent(out, inc, s, t) && none_within(
            out,
            s,
            t,
            self.forward().len() + self.backward().len() - 2,
        );
        let mut search = self;
        loop
            invariant
                outgoing_links.wf(),
                incoming_links.wf(),
                out == outgoing_links.entries(),
                inc == incoming_links.entries(),
                search.inv(out, inc),
                search.source() == s,
                search.target() == t,
                s == self.source(),
                t == self.target(),
                sound <==> consistent(out, inc, s, t) && none_within(
                    out,
                    s,
                    t,
                    self.forward().len() + self.backward().len() - 2,
                ),
                sound ==> consistent(out, inc, s, t) && none_within(
                    out,
                    s,
                    t,
                    search.forward().len() + search.backward().len() - 2,
                ),
            decreases search.rounds_left(),
        {
            let ghost fwd = search.forward();
            let ghost bwd = search.backward();
            let ghost left = search.rounds_left();
            proof {
                search.lemma_rounds_left();
            }
            match search.round(outgoing_links, incoming_links) {
                Round::Found(path) => {
                    proof {
                        if traceable(out, inc, s, t) {
                            let m = choose|m: u32|
                                #[trigger] meets(fwd, bwd, m) && path@ == route(fwd, bwd, m);
                            lemma_route_is_path(out, inc, s, t, fwd, bwd, m);
                        }
                    }
                    return Some(path);
                },
                Round::Exhausted => {
                    proof {
                        if sound {
                            if fwd.last().len() == 0 {
                                fwd.last().dom().lemma_len0_is_empty();
                            } else {
                                bwd.last().dom().lemma_len0_is_empty();
                            }
                            lemma_exhausted(out, inc, s, t, fwd, bwd);
                        }
                    }
                    return None;
                },
                Round::Forward => {
                    proof {
                        if sound {
                            lemma_no_meeting(out, inc, s, t, fwd, bwd);
                        }
                        let next = search.forward().last();
                        assert(search.forward() =~= fwd.push(next));
                        lemma_covered_push(fwd, next);
                        search.lemma_rounds_left();
                    }
                },
                Round::Backward => {
                    proof {
                        if sound {
                            lemma_no_meeting(out, inc, s, t, fwd, bwd);
                        }
                        let next = search.backward().last();
                        assert(search.backward() =~= bwd.push(next));
                        lemma_covered_push(bwd, next);
                        search.lemma_rounds_left();
                    }
                },
            }
        }
    }
}

} // verus!
