//! The mathematical model of a graph held as adjacency lists indexed by node id,
//! with bounded reachability and hop distance.
use vstd::prelude::*;

verus! {

/// The adjacency lists of `graph`, as sequences.
pub open spec fn adjacency(graph: &Vec<Vec<usize>>) -> Seq<Seq<usize>> {
    graph@.map_values(|v: Vec<usize>| v@)
}

/// Every id in every adjacency list names a node of the graph.
pub open spec fn well_formed(g: Seq<Seq<usize>>) -> bool {
    forall|u: int, i: int| 0 <= u < g.len() && 0 <= i < g[u].len() ==> #[trigger] g[u][i] < g.len()
}

/// `v` is listed among the neighbours of node `u`.
pub open spec fn edge(g: Seq<Seq<usize>>, u: int, v: int) -> bool {
    &&& 0 <= u < g.len()
    &&& exists|i: int| 0 <= i < g[u].len() && #[trigger] g[u][i] == v
}

/// `t` can be reached from `s` over at most `k` edges.
pub open spec fn within(g: Seq<Seq<usize>>, s: int, t: int, k: nat) -> bool
    decreases k,
{
    if k == 0 {
        s == t
    } else {
        ||| within(g, s, t, (k - 1) as nat)
        ||| exists|u: int| within(g, s, u, (k - 1) as nat) && #[trigger] edge(g, u, t)
    }
}

/// The hop distance from `s` to `t` is `k`: `k` edges suffice and fewer do not.
pub open spec fn is_distance(g: Seq<Seq<usize>>, s: int, t: int, k: nat) -> bool {
    &&& within(g, s, t, k)
    &&& (k == 0 || !within(g, s, t, (k - 1) as nat))
}

/// Some walk leads from `s` to `t`.
pub open spec fn reachable(g: Seq<Seq<usize>>, s: int, t: int) -> bool {
    exists|k: nat| #[trigger] within(g, s, t, k)
}

/// Reaching a node within `j` edges means reaching it within any larger bound.
pub proof fn lemma_within_mono(g: Seq<Seq<usize>>, s: int, t: int, j: nat, k: nat)
    requires
        j <= k,
        within(g, s, t, j),
    ensures
        within(g, s, t, k),
    decreases k - j,
{
    if j < k {
        lemma_within_mono(g, s, t, j, (k - 1) as nat);
    }
}

/// A hop distance is a lower bound of every bound within which the node is reached.
pub proof fn lemma_distance_le(g: Seq<Seq<usize>>, s: int, t: int, k: nat, j: nat)
    requires
        is_distance(g, s, t, k),
        within(g, s, t, j),
    ensures
        k <= j,
{
    if j < k {
        lemma_within_mono(g, s, t, j, (k - 1) as nat);
    }
}

/// A pair has at most one hop distance.
pub proof fn lemma_distance_unique(g: Seq<Seq<usize>>, s: int, t: int, j: nat, k: nat)
    requires
        is_distance(g, s, t, j),
        is_distance(g, s, t, k),
    ensures
        j == k,
{
    lemma_distance_le(g, s, t, j, k);
    lemma_distance_le(g, s, t, k, j);
}

/// In a well-formed graph, whatever is reached from a node is a node.
pub proof fn lemma_within_is_node(g: Seq<Seq<usize>>, s: int, t: int, k: nat)
    requires
        well_formed(g),
        0 <= s < g.len(),
        within(g, s, t, k),
    ensures
        0 <= t < g.len(),
    decreases k,
{
    if k > 0 {
        if within(g, s, t, (k - 1) as nat) {
            lemma_within_is_node(g, s, t, (k - 1) as nat);
        } else {
            let u = choose|u: int| within(g, s, u, (k - 1) as nat) && #[trigger] edge(g, u, t);
            let i = choose|i: int| 0 <= i < g[u].len() && #[trigger] g[u][i] == t;
            assert(g[u][i] < g.len());
        }
    }
}

proof fn lemma_no_layer_at(g: Seq<Seq<usize>>, s: int, d: nat, v: int, k: nat)
    requires
        forall|u: int| !#[trigger] is_distance(g, s, u, d),
        within(g, s, v, k),
    ensures
        within(g, s, v, d),
    decreases k,
{
    if k <= d {
        lemma_within_mono(g, s, v, k, d);
    } else if within(g, s, v, (k - 1) as nat) {
        lemma_no_layer_at(g, s, d, v, (k - 1) as nat);
    } else {
        let u = choose|u: int| within(g, s, u, (k - 1) as nat) && #[trigger] edge(g, u, v);
        lemma_no_layer_at(g, s, d, u, (k - 1) as nat);
        assert(!is_distance(g, s, u, d));
        assert(within(g, s, u, (d - 1) as nat) && edge(g, u, v));
    }
}

/// When no node lies at hop distance exactly `d`, every node that can be reached at
/// all is reached within `d` edges.
pub proof fn lemma_no_layer(g: Seq<Seq<usize>>, s: int, d: nat)
    requires
        forall|u: int| !#[trigger] is_distance(g, s, u, d),
    ensures
        forall|v: int, k: nat| #[trigger] within(g, s, v, k) ==> within(g, s, v, d),
{
    assert forall|v: int, k: nat| #[trigger] within(g, s, v, k) implies within(g, s, v, d) by {
        lemma_no_layer_at(g, s, d, v, k);
    }
}

/// `p` is a walk: each entry after the first is a neighbour of the one before it.
pub open spec fn is_walk(g: Seq<Seq<usize>>, p: Seq<int>) -> bool {
    &&& p.len() >= 1
    &&& forall|i: int| 0 <= i < p.len() - 1 ==> #[trigger] edge(g, p[i], p[i + 1])
}

/// `p` is a walk from `s` to `t`.
pub open spec fn is_walk_between(g: Seq<Seq<usize>>, p: Seq<int>, s: int, t: int) -> bool {
    &&& is_walk(g, p)
    &&& p[0] == s
    &&& p.last() == t
}

/// Every edge is matched by one in the opposite direction.
pub open spec fn symmetric(g: Seq<Seq<usize>>) -> bool {
    forall|u: int, v: int| #[trigger] edge(g, u, v) ==> edge(g, v, u)
}

/// A walk with `m` edges reaches its last node within `m` edges.
pub proof fn lemma_walk_within(g: Seq<Seq<usize>>, p: Seq<int>)
    requires
        is_walk(g, p),
    ensures
        within(g, p[0], p.last(), (p.len() - 1) as nat),
    decreases p.len(),
{
    if p.len() > 1 {
        let q = p.drop_last();
        assert forall|i: int| 0 <= i < q.len() - 1 implies #[trigger] edge(g, q[i], q[i + 1]) by {
            assert(edge(g, p[i], p[i + 1]));
        }
        lemma_walk_within(g, q);
        let i = p.len() - 2;
        assert(edge(g, p[i], p[i + 1]));
        assert(within(g, p[0], q.last(), (q.len() - 1) as nat));
    }
}

/// What is reached within `k` edges is reached by a walk of at most `k` edges.
pub proof fn lemma_within_walk(g: Seq<Seq<usize>>, s: int, t: int, k: nat) -> (p: Seq<int>)
    requires
        within(g, s, t, k),
    ensures
        is_walk_between(g, p, s, t),
        p.len() <= k + 1,
    decreases k,
{
    if k == 0 {
        seq![s]
    } else if within(g, s, t, (k - 1) as nat) {
        lemma_within_walk(g, s, t, (k - 1) as nat)
    } else {
        let u = choose|u: int| within(g, s, u, (k - 1) as nat) && #[trigger] edge(g, u, t);
        let q = lemma_within_walk(g, s, u, (k - 1) as nat);
        let p = q.push(t);
        assert forall|i: int| 0 <= i < p.len() - 1 implies #[trigger] edge(g, p[i], p[i + 1]) by {
            if i < q.len() - 1 {
                assert(edge(g, q[i], q[i + 1]));
            }
        }
        p
    }
}

/// A node is at hop distance zero from itself, whatever its own adjacency list holds.
pub proof fn lemma_distance_self(g: Seq<Seq<usize>>, x: int)
    ensures
        is_distance(g, x, x, 0),
        forall|k: nat| #[trigger] is_distance(g, x, x, k) ==> k == 0,
{
    assert forall|k: nat| #[trigger] is_distance(g, x, x, k) implies k == 0 by {
        lemma_distance_unique(g, x, x, k, 0);
    }
}

/// The hop distance is the number of edges of a shortest walk: some walk from `s` to
/// `t` has `k` edges, and none has fewer.
pub proof fn lemma_distance_is_shortest_walk(g: Seq<Seq<usize>>, s: int, t: int, k: nat)
    requires
        is_distance(g, s, t, k),
    ensures
        exists|p: Seq<int>| #[trigger] is_walk_between(g, p, s, t) && p.len() == k + 1,
        forall|p: Seq<int>| #[trigger] is_walk_between(g, p, s, t) ==> p.len() >= k + 1,
{
    let p = lemma_within_walk(g, s, t, k);
    lemma_walk_within(g, p);
    lemma_distance_le(g, s, t, k, (p.len() - 1) as nat);
    assert(is_walk_between(g, p, s, t) && p.len() == k + 1);
    assert forall|q: Seq<int>| #[trigger] is_walk_between(g, q, s, t) implies q.len() >= k + 1 by {
        lemma_walk_within(g, q);
        lemma_distance_le(g, s, t, k, (q.len() - 1) as nat);
    }
}

/// A node can be reached exactly when some walk leads to it.
pub proof fn lemma_reachable_iff_walk(g: Seq<Seq<usize>>, s: int, t: int)
    ensures
        reachable(g, s, t) <==> exists|p: Seq<int>| #[trigger] is_walk_between(g, p, s, t),
{
    if reachable(g, s, t) {
        let k = choose|k: nat| #[trigger] within(g, s, t, k);
        let p = lemma_within_walk(g, s, t, k);
        assert(is_walk_between(g, p, s, t));
    }
    if exists|p: Seq<int>| #[trigger] is_walk_between(g, p, s, t) {
        let p = choose|p: Seq<int>| #[trigger] is_walk_between(g, p, s, t);
        lemma_walk_within(g, p);
    }
}

proof fn lemma_symmetric_within(g: Seq<Seq<usize>>, x: int, y: int, k: nat)
    requires
        symmetric(g),
        within(g, x, y, k),
    ensures
        within(g, y, x, k),
{
    let p = lemma_within_walk(g, x, y, k);
    let l = p.len();
    let r = Seq::new(l, |i: int| p[l - 1 - i]);
    assert forall|i: int| 0 <= i < r.len() - 1 implies #[trigger] edge(g, r[i], r[i + 1]) by {
        assert(edge(g, p[l - 2 - i], p[l - 2 - i + 1]));
    }
    lemma_walk_within(g, r);
    lemma_within_mono(g, y, x, (l - 1) as nat, k);
}

/// Where every edge has its reverse, the hop distance from `x` to `y` is that from `y`
/// to `x`.
pub proof fn lemma_symmetric_distance(g: Seq<Seq<usize>>, x: int, y: int, k: nat)
    requires
        symmetric(g),
    ensures
        is_distance(g, x, y, k) <==> is_distance(g, y, x, k),
{
    if within(g, x, y, k) {
        lemma_symmetric_within(g, x, y, k);
    }
    if within(g, y, x, k) {
        lemma_symmetric_within(g, y, x, k);
    }
    if k > 0 {
        if within(g, x, y, (k - 1) as nat) {
            lemma_symmetric_within(g, x, y, (k - 1) as nat);
        }
        if within(g, y, x, (k - 1) as nat) {
            lemma_symmetric_within(g, y, x, (k - 1) as nat);
        }
    }
}

} // verus!
