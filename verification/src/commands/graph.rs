//! Reachability in a directed graph given by an edge relation, and the
//! layers of a breadth-first search.

use vstd::prelude::*;

verus! {

/// `p` is a walk along `e`: it has a first node, and each node is followed by
/// one that `e` relates it to.
pub open spec fn walk(e: spec_fn(u32, u32) -> bool, p: Seq<u32>) -> bool {
    &&& p.len() > 0
    &&& forall|i: int| 0 <= i < p.len() - 1 ==> e(#[trigger] p[i], p[i + 1])
}

/// `v` can be reached from `s` in exactly `n` steps along `e`.
pub open spec fn reach(e: spec_fn(u32, u32) -> bool, s: u32, v: u32, n: nat) -> bool
    decreases n,
{
    if n == 0 {
        v == s
    } else {
        exists|u: u32| reach(e, s, u, (n - 1) as nat) && #[trigger] e(u, v)
    }
}

/// `n` is the least number of steps in which `v` can be reached from `s`.
pub open spec fn distance_is(e: spec_fn(u32, u32) -> bool, s: u32, v: u32, n: nat) -> bool {
    &&& reach(e, s, v, n)
    &&& forall|k: nat| k < n ==> !reach(e, s, v, k)
}

/// Every node of a walk is reached from its first node in as many steps as
/// its index says.
pub proof fn lemma_walk_reach(e: spec_fn(u32, u32) -> bool, p: Seq<u32>, k: int)
    requires
        walk(e, p),
        0 <= k < p.len(),
    ensures
        reach(e, p[0], p[k], k as nat),
    decreases k,
{
    if k > 0 {
        lemma_walk_reach(e, p, k - 1);
        assert(e(p[k - 1], p[k - 1 + 1]));
    }
}

/// A node reached in `n` steps is the end of a walk of `n` steps.
pub proof fn lemma_reach_walk(e: spec_fn(u32, u32) -> bool, s: u32, v: u32, n: nat) -> (p: Seq<u32>)
    requires
        reach(e, s, v, n),
    ensures
        walk(e, p),
        p.len() == n + 1,
        p[0] == s,
        p.last() == v,
    decreases n,
{
    if n == 0 {
        seq![s]
    } else {
        let u = choose|u: u32| reach(e, s, u, (n - 1) as nat) && #[trigger] e(u, v);
        let q = lemma_reach_walk(e, s, u, (n - 1) as nat);
        let p = q.push(v);
        assert forall|i: int| 0 <= i < p.len() - 1 implies e(#[trigger] p[i], p[i + 1]) by {
            if i < q.len() - 1 {
                assert(e(q[i], q[i + 1]));
            }
        }
        p
    }
}

/// Steps add up.
pub proof fn lemma_reach_join(
    e: spec_fn(u32, u32) -> bool,
    s: u32,
    u: u32,
    v: u32,
    a: nat,
    b: nat,
)
    requires
        reach(e, s, u, a),
        reach(e, u, v, b),
    ensures
        reach(e, s, v, a + b),
    decreases b,
{
    if b > 0 {
        let w = choose|w: u32| reach(e, u, w, (b - 1) as nat) && #[trigger] e(w, v);
        lemma_reach_join(e, s, u, w, a, (b - 1) as nat);
        assert(reach(e, s, w, (a + b - 1) as nat));
    }
}

/// What is reached along `e` is reached, backwards, along its converse.
pub proof fn lemma_reach_converse(
    e: spec_fn(u32, u32) -> bool,
    r: spec_fn(u32, u32) -> bool,
    s: u32,
    v: u32,
    n: nat,
)
    requires
        forall|x: u32, y: u32| #[trigger] r(x, y) <==> e(y, x),
        reach(e, s, v, n),
    ensures
        reach(r, v, s, n),
    decreases n,
{
    if n > 0 {
        let u = choose|u: u32| reach(e, s, u, (n - 1) as nat) && #[trigger] e(u, v);
        lemma_reach_converse(e, r, s, u, (n - 1) as nat);
        assert(r(v, u));
        assert(reach(r, v, v, 0));
        assert(reach(r, v, u, 1));
        lemma_reach_join(r, v, u, s, 1, (n - 1) as nat);
    }
}

/// Among the numbers of steps in which a node can be reached there is a least.
pub proof fn lemma_least_distance(e: spec_fn(u32, u32) -> bool, s: u32, v: u32, n: nat) -> (d: nat)
    requires
        reach(e, s, v, n),
    ensures
        d <= n,
        distance_is(e, s, v, d),
    decreases n,
{
    if exists|k: nat| k < n && reach(e, s, v, k) {
        let k = choose|k: nat| k < n && reach(e, s, v, k);
        lemma_least_distance(e, s, v, k)
    } else {
        n
    }
}

/// On a walk that reaches its end in the least number of steps, every node
/// is reached in the least number of steps.
pub proof fn lemma_shortest_prefix(e: spec_fn(u32, u32) -> bool, p: Seq<u32>, k: int)
    requires
        walk(e, p),
        distance_is(e, p[0], p.last(), (p.len() - 1) as nat),
        0 <= k < p.len(),
    ensures
        distance_is(e, p[0], p[k], k as nat),
{
    lemma_walk_reach(e, p, k);
    let rest = p.skip(k);
    assert(walk(e, rest)) by {
        assert forall|i: int| 0 <= i < rest.len() - 1 implies e(#[trigger] rest[i], rest[i + 1]) by {
            assert(e(p[k + i], p[k + i + 1]));
        }
    }
    lemma_walk_reach(e, rest, rest.len() - 1);
    assert forall|j: nat| j < k implies !reach(e, p[0], p[k], j) by {
        if reach(e, p[0], p[k], j) {
            lemma_reach_join(e, p[0], p[k], p.last(), j, (rest.len() - 1) as nat);
            assert(reach(e, p[0], p.last(), (j + rest.len() - 1) as nat));
        }
    }
}

/// Among the walks from `s` to `t`, if there is one, there is a shortest.
pub proof fn lemma_shortest_walk(e: spec_fn(u32, u32) -> bool, p: Seq<u32>) -> (q: Seq<u32>)
    requires
        walk(e, p),
    ensures
        walk(e, q),
        q[0] == p[0],
        q.last() == p.last(),
        q.len() <= p.len(),
        distance_is(e, q[0], q.last(), (q.len() - 1) as nat),
{
    lemma_walk_reach(e, p, p.len() - 1);
    let d = lemma_least_distance(e, p[0], p.last(), (p.len() - 1) as nat);
    lemma_reach_walk(e, p[0], p.last(), d)
}

/// The layers of a breadth-first search from `root`: each layer maps the
/// nodes first seen at that depth to the node of the layer before from which
/// they were seen. The root is mapped to 0.
pub open spec fn explored(
    e: spec_fn(u32, u32) -> bool,
    root: u32,
    layers: Seq<Map<u32, u32>>,
) -> bool {
    &&& layers.len() > 0
    &&& layers[0] == map![root => 0u32]
    &&& forall|i: int| 1 <= i < layers.len() ==> #[trigger] next_layer(e, layers, i)
}

/// Layer `i` holds the nodes that `e` relates a node of layer `i - 1` to and
/// that no layer before holds, each with such a node of layer `i - 1`.
pub open spec fn next_layer(e: spec_fn(u32, u32) -> bool, layers: Seq<Map<u32, u32>>, i: int) -> bool {
    &&& forall|v: u32| #[trigger]
        layers[i].contains_key(v) <==> seen_from(e, layers[i - 1], v) && !seen_before(layers, i, v)
    &&& forall|v: u32| #[trigger]
        layers[i].contains_key(v) ==> layers[i - 1].contains_key(layers[i][v]) && e(
            layers[i][v],
            v,
        )
}

/// Some node of `layer` is related to `v`.
pub open spec fn seen_from(e: spec_fn(u32, u32) -> bool, layer: Map<u32, u32>, v: u32) -> bool {
    exists|u: u32| #[trigger] layer.contains_key(u) && e(u, v)
}

/// Some layer before the `i`th holds `v`.
pub open spec fn seen_before(layers: Seq<Map<u32, u32>>, i: int, v: u32) -> bool {
    exists|j: int| 0 <= j < i && #[trigger] layers[j].contains_key(v)
}

/// Layer `i` holds exactly the nodes at distance `i` from `root`.
pub open spec fn layer_is_distance(
    e: spec_fn(u32, u32) -> bool,
    root: u32,
    layers: Seq<Map<u32, u32>>,
    i: int,
) -> bool {
    forall|v: u32| #[trigger] layers[i].contains_key(v) <==> distance_is(e, root, v, i as nat)
}

/// Every layer of a breadth-first search holds exactly the nodes at the
/// distance of its index.
pub proof fn lemma_layer_is_distance(
    e: spec_fn(u32, u32) -> bool,
    root: u32,
    layers: Seq<Map<u32, u32>>,
    i: int,
)
    requires
        explored(e, root, layers),
        0 <= i < layers.len(),
    ensures
        layer_is_distance(e, root, layers, i),
    decreases i,
{
    if i == 0 {
    } else {
        assert(next_layer(e, layers, i));
        assert forall|j: int| 0 <= j < i implies #[trigger] layer_is_distance(e, root, layers, j) by {
            lemma_layer_is_distance(e, root, layers, j);
        }
        assert forall|v: u32| #[trigger] layers[i].contains_key(v) implies distance_is(
            e,
            root,
            v,
            i as nat,
        ) by {
            let u = layers[i][v];
            assert(layers[i - 1].contains_key(u));
            assert(layer_is_distance(e, root, layers, i - 1));
            assert(distance_is(e, root, u, (i - 1) as nat));
            assert(e(u, v));
            assert(reach(e, root, v, i as nat));
            assert forall|k: nat| k < i implies !reach(e, root, v, k) by {
                if reach(e, root, v, k) {
                    let d = lemma_least_distance(e, root, v, k);
                    assert(layer_is_distance(e, root, layers, d as int));
                    assert(layers[d as int].contains_key(v));
                    assert(seen_before(layers, i, v));
                }
            }
        }
        assert forall|v: u32| distance_is(e, root, v, i as nat) implies #[trigger]
            layers[i].contains_key(v) by {
            let u = choose|u: u32| reach(e, root, u, (i - 1) as nat) && #[trigger] e(u, v);
            assert forall|k: nat| k < i - 1 implies !reach(e, root, u, k) by {
                if reach(e, root, u, k) {
                    assert(reach(e, root, v, k + 1));
                }
            }
            assert(distance_is(e, root, u, (i - 1) as nat));
            assert(layer_is_distance(e, root, layers, i - 1));
            assert(layers[i - 1].contains_key(u));
            assert(seen_from(e, layers[i - 1], v));
            if seen_before(layers, i, v) {
                let j = choose|j: int| 0 <= j < i && #[trigger] layers[j].contains_key(v);
                assert(layer_is_distance(e, root, layers, j));
                assert(distance_is(e, root, v, j as nat));
            }
        }
    }
}

/// The converse of a walk is a walk along the converse relation.
pub proof fn lemma_walk_converse(
    e: spec_fn(u32, u32) -> bool,
    r: spec_fn(u32, u32) -> bool,
    p: Seq<u32>,
)
    requires
        forall|x: u32, y: u32| #[trigger] r(x, y) <==> e(y, x),
        walk(r, p),
    ensures
        walk(e, p.reverse()),
        p.reverse().len() == p.len(),
        p.reverse()[0] == p.last(),
        p.reverse().last() == p[0],
{
    let q = p.reverse();
    assert forall|i: int| 0 <= i < q.len() - 1 implies e(#[trigger] q[i], q[i + 1]) by {
        let k = p.len() - 2 - i;
        assert(r(p[k], p[k + 1]));
    }
}

/// Two walks of which the second starts where the first ends make one walk.
pub proof fn lemma_walk_join(e: spec_fn(u32, u32) -> bool, a: Seq<u32>, b: Seq<u32>)
    requires
        walk(e, a),
        walk(e, b),
        a.last() == b[0],
    ensures
        walk(e, a + b.drop_first()),
        (a + b.drop_first())[0] == a[0],
        (a + b.drop_first()).last() == b.last(),
        (a + b.drop_first()).len() == a.len() + b.len() - 1,
{
    let p = a + b.drop_first();
    assert forall|i: int| 0 <= i < p.len() - 1 implies e(#[trigger] p[i], p[i + 1]) by {
        if i < a.len() - 1 {
            assert(e(a[i], a[i + 1]));
        } else {
            let k = i - (a.len() - 1);
            assert(e(b[k], b[k + 1]));
        }
    }
}

/// The node that the first layer holds.
pub open spec fn root_of(layers: Seq<Map<u32, u32>>) -> u32 {
    layers[0].dom().choose()
}

/// Layers that start with one root and in which every node names a node of
/// the layer before.
pub open spec fn chained(layers: Seq<Map<u32, u32>>) -> bool {
    &&& layers.len() > 0
    &&& layers[0] == map![root_of(layers) => 0u32]
    &&& forall|i: int, v: u32|
        1 <= i < layers.len() && #[trigger] layers[i].contains_key(v) ==> layers[i
            - 1].contains_key(layers[i][v])
}

/// The layers of a search are chained, and their root is the root of the search.
pub proof fn lemma_explored_chained(
    e: spec_fn(u32, u32) -> bool,
    root: u32,
    layers: Seq<Map<u32, u32>>,
)
    requires
        explored(e, root, layers),
    ensures
        chained(layers),
        root_of(layers) == root,
{
    assert(layers[0].dom().contains(root));
    assert forall|i: int, v: u32|
        1 <= i < layers.len() && #[trigger] layers[i].contains_key(v) implies layers[i
        - 1].contains_key(layers[i][v]) by {
        assert(next_layer(e, layers, i));
    }
}

/// The nodes met when one goes from `node` in layer `rank` to the node it
/// names in the layer before, and so on, until a node names 0.
pub open spec fn trail(layers: Seq<Map<u32, u32>>, rank: int, node: u32) -> Seq<u32>
    decreases rank,
{
    if rank <= 0 || layers[rank][node] == 0 {
        seq![node]
    } else {
        seq![node] + trail(layers, rank - 1, layers[rank][node])
    }
}

/// Where no node is 0, the trail from a node of layer `rank` is a walk of
/// `rank` steps against `e` that ends in the root.
pub proof fn lemma_trail_walk(
    e: spec_fn(u32, u32) -> bool,
    r: spec_fn(u32, u32) -> bool,
    root: u32,
    layers: Seq<Map<u32, u32>>,
    rank: int,
    node: u32,
)
    requires
        explored(e, root, layers),
        forall|x: u32, y: u32| #[trigger] r(x, y) <==> e(y, x),
        root != 0,
        forall|x: u32, y: u32| #[trigger] e(x, y) ==> y != 0,
        0 <= rank < layers.len(),
        layers[rank].contains_key(node),
    ensures
        walk(r, trail(layers, rank, node)),
        trail(layers, rank, node).len() == rank + 1,
        trail(layers, rank, node)[0] == node,
        trail(layers, rank, node).last() == root,
        !trail(layers, rank, node).contains(0),
    decreases rank,
{
    let t = trail(layers, rank, node);
    if rank == 0 {
        assert(t =~= seq![node]);
    } else {
        assert(next_layer(e, layers, rank));
        let pred = layers[rank][node];
        assert(layers[rank - 1].contains_key(pred));
        assert(e(pred, node));
        if rank - 1 == 0 {
            assert(pred == root);
        } else {
            assert(next_layer(e, layers, rank - 1));
            assert(e(layers[rank - 1][pred], pred));
        }
        lemma_trail_walk(e, r, root, layers, rank - 1, pred);
        let rest = trail(layers, rank - 1, pred);
        assert(t =~= seq![node] + rest);
        assert forall|i: int| 0 <= i < t.len() - 1 implies r(#[trigger] t[i], t[i + 1]) by {
            if i == 0 {
                assert(r(node, pred));
            } else {
                assert(r(rest[i - 1], rest[i - 1 + 1]));
            }
        }
        assert(!t.contains(0)) by {
            if t.contains(0) {
                let i = t.index_of(0);
                if i > 0 {
                    assert(rest[i - 1] == 0);
                    assert(rest.contains(0));
                }
            }
        }
    }
}

/// On a shortest walk from `s` to `t`, the node `i` steps after `s` lies in
/// layer `i` of the search from `s`, and the node `j` steps before `t` lies
/// in layer `j` of the search from `t` against the edges.
pub proof fn lemma_meeting(
    e: spec_fn(u32, u32) -> bool,
    r: spec_fn(u32, u32) -> bool,
    s: u32,
    t: u32,
    fwd: Seq<Map<u32, u32>>,
    bwd: Seq<Map<u32, u32>>,
    q: Seq<u32>,
)
    requires
        explored(e, s, fwd),
        explored(r, t, bwd),
        forall|x: u32, y: u32| #[trigger] r(x, y) <==> e(y, x),
        walk(e, q),
        q[0] == s,
        q.last() == t,
        distance_is(e, s, t, (q.len() - 1) as nat),
    ensures
        fwd.len() <= q.len() ==> fwd.last().contains_key(q[fwd.len() - 1]),
        bwd.len() <= q.len() ==> bwd.last().contains_key(q[q.len() - bwd.len()]),
{
    if fwd.len() <= q.len() {
        let i = fwd.len() - 1;
        lemma_shortest_prefix(e, q, i);
        lemma_layer_is_distance(e, s, fwd, i);
    }
    if bwd.len() <= q.len() {
        let j = bwd.len() - 1;
        let n = (q.len() - 1) as nat;
        let back = q.reverse();
        assert(walk(r, back)) by {
            assert forall|i: int| 0 <= i < back.len() - 1 implies r(
                #[trigger] back[i],
                back[i + 1],
            ) by {
                let k = q.len() - 2 - i;
                assert(e(q[k], q[k + 1]));
            }
        }
        lemma_walk_reach(r, back, back.len() - 1);
        assert forall|k: nat| k < n implies !reach(r, t, s, k) by {
            if reach(r, t, s, k) {
                lemma_reach_converse(r, e, t, s, k);
            }
        }
        lemma_shortest_prefix(r, back, j);
        lemma_layer_is_distance(r, t, bwd, j);
    }
}

/// The nodes that the layers hold.
pub open spec fn covered(layers: Seq<Map<u32, u32>>) -> Set<u32>
    decreases layers.len(),
{
    if layers.len() == 0 {
        Set::empty()
    } else {
        covered(layers.drop_last()) + layers.last().dom()
    }
}

/// A node is covered when some layer holds it.
pub proof fn lemma_covered(layers: Seq<Map<u32, u32>>, v: u32)
    ensures
        covered(layers).contains(v) <==> seen_before(layers, layers.len() as int, v),
    decreases layers.len(),
{
    if layers.len() > 0 {
        let init = layers.drop_last();
        lemma_covered(init, v);
        if seen_before(init, init.len() as int, v) {
            let j = choose|j: int| 0 <= j < init.len() && #[trigger] init[j].contains_key(v);
            assert(layers[j].contains_key(v));
        }
        if seen_before(layers, layers.len() as int, v) {
            let j = choose|j: int| 0 <= j < layers.len() && #[trigger] layers[j].contains_key(v);
            if j < init.len() {
                assert(init[j].contains_key(v));
            }
        }
    }
}

/// Finitely many finite layers cover finitely many nodes.
pub proof fn lemma_covered_finite(layers: Seq<Map<u32, u32>>)
    requires
        forall|i: int| 0 <= i < layers.len() ==> (#[trigger] layers[i]).dom().finite(),
    ensures
        covered(layers).finite(),
    decreases layers.len(),
{
    if layers.len() > 0 {
        lemma_covered_finite(layers.drop_last());
    }
}

/// A further layer that holds new nodes only adds its size to the cover.
pub proof fn lemma_covered_push(layers: Seq<Map<u32, u32>>, next: Map<u32, u32>)
    requires
        forall|i: int| 0 <= i < layers.len() ==> (#[trigger] layers[i]).dom().finite(),
        next.dom().finite(),
        forall|v: u32| next.contains_key(v) ==> !seen_before(layers, layers.len() as int, v),
    ensures
        covered(layers.push(next)).finite(),
        covered(layers.push(next)).len() == covered(layers).len() + next.dom().len(),
{
    lemma_covered_finite(layers);
    assert(layers.push(next).drop_last() =~= layers);
    assert forall|v: u32| !(covered(layers).contains(v) && next.dom().contains(v)) by {
        lemma_covered(layers, v);
    }
    assert(covered(layers).disjoint(next.dom()));
    vstd::set_lib::lemma_set_disjoint_lens(covered(layers), next.dom());
}

/// There are no more than 2^32 nodes.
pub proof fn lemma_node_count(s: Set<u32>)
    requires
        s.finite(),
    ensures
        s.len() <= 0x1_0000_0000,
{
    let f = |x: u32| x as int;
    let image = s.map(f);
    let all = vstd::set_lib::set_int_range(0, 0x1_0000_0000);
    vstd::set_lib::lemma_int_range(0, 0x1_0000_0000);
    assert(image.subset_of(all));
    vstd::set_lib::lemma_len_subset(image, all);
    assert(vstd::relations::injective(f));
    vstd::set_lib::lemma_map_size(s, image, f);
}

} // verus!
