//! Single-source breadth-first search, expanded one layer of the frontier at a time.
use vstd::prelude::*;
use crate::graph::{
    adjacency, edge, is_distance, lemma_within_is_node, lemma_distance_unique, lemma_no_layer,
    reachable, well_formed, within,
};

verus! {

/// What a search from `source` must hand back: for each node its hop distance, or
/// `None` exactly where the node cannot be reached.
pub open spec fn search_result(g: Seq<Seq<usize>>, source: int, r: Seq<Option<usize>>) -> bool {
    &&& r.len() == g.len()
    &&& forall|t: int|
        0 <= t < r.len() ==> match #[trigger] r[t] {
            Some(k) => is_distance(g, source, t, k as nat) && k < g.len(),
            None => !reachable(g, source, t),
        }
}

/// Hop distance from `source` to every node of `graph`.
pub fn distances_from(graph: &Vec<Vec<usize>>, source: usize) -> (r: Vec<Option<usize>>)
    requires
        well_formed(adjacency(graph)),
        source < graph.len(),
    ensures
        search_result(adjacency(graph), source as int, r@),
{
    let ghost g = adjacency(graph);
    let ghost s = source as int;
    let n = graph.len();
    let mut dist: Vec<Option<usize>> = Vec::new();
    let mut i: usize = 0;
    while i < n
        invariant
            i <= n,
            dist.len() == i,
            forall|v: int| 0 <= v < i ==> dist[v] is None,
        decreases n - i,
    {
        dist.push(None);
        i = i + 1;
    }
    dist.set(source, Some(0));
    let ghost mut seen: Set<int> = set![s];
    proof {
        vstd::set_lib::lemma_int_range(0, n as int);
        assert(seen.subset_of(vstd::set_lib::set_int_range(0, n as int)));
        vstd::set_lib::lemma_len_subset(seen, vstd::set_lib::set_int_range(0, n as int));
    }
    let mut frontier: Vec<usize> = vec![source];
    let mut depth: usize = 0;
    assert(frontier@.contains(source));
    while frontier.len() > 0
        invariant
            n == graph.len(),
            g == adjacency(graph),
            well_formed(g),
            s == source,
            source < n,
            dist.len() == n,
            seen.finite(),
            seen.len() <= n,
            forall|v: int| #[trigger] seen.contains(v) <==> 0 <= v < n && dist[v] is Some,
            forall|v: int|
                0 <= v < n && #[trigger] dist[v] is Some ==> dist[v]->0 <= depth && dist[v]->0 < n
                    && is_distance(g, s, v, dist[v]->0 as nat),
            forall|v: int| 0 <= v < n && #[trigger] within(g, s, v, depth as nat) ==> dist[v] is Some,
            forall|j: int|
                0 <= j < frontier.len() ==> #[trigger] frontier[j] < n && dist[frontier[j] as int]
                    == Some(depth),
            forall|v: int| 0 <= v < n && #[trigger] dist[v] == Some(depth) ==> frontier@.contains(v as usize),
            frontier.len() > 0 ==> depth + 1 <= seen.len(),
            depth <= n,
        decreases n + 1 - seen.len() - (if frontier.len() == 0 { 1int } else { 0int }),
    {
        let ghost seen0 = seen;
        let mut next: Vec<usize> = Vec::new();
        let mut i: usize = 0;
        while i < frontier.len()
            invariant
                n == graph.len(),
                g == adjacency(graph),
                well_formed(g),
                s == source,
                source < n,
                dist.len() == n,
                frontier.len() > 0,
                i <= frontier.len(),
                depth + 1 <= seen0.len(),
                depth < n,
                seen0.subset_of(seen),
                seen.finite(),
                seen.len() <= n,
                forall|v: int| #[trigger] seen.contains(v) <==> 0 <= v < n && dist[v] is Some,
                forall|v: int|
                    0 <= v < n && #[trigger] dist[v] is Some ==> dist[v]->0 <= depth + 1 && dist[v]->0 < n
                        && is_distance(g, s, v, dist[v]->0 as nat),
                forall|v: int|
                    0 <= v < n && #[trigger] within(g, s, v, depth as nat) ==> dist[v] is Some
                        && dist[v]->0 <= depth,
                forall|j: int|
                    0 <= j < frontier.len() ==> #[trigger] frontier[j] < n && dist[frontier[j] as int]
                        == Some(depth),
                forall|v: int| 0 <= v < n && #[trigger] dist[v] == Some(depth) ==> frontier@.contains(v as usize),
                forall|j: int|
                    0 <= j < next.len() ==> #[trigger] next[j] < n && dist[next[j] as int] == Some(
                        (depth + 1) as usize,
                    ),
                forall|v: int|
                    0 <= v < n && #[trigger] dist[v] == Some((depth + 1) as usize) ==> next@.contains(v as usize),
                next.len() > 0 ==> seen0.len() < seen.len(),
                forall|p: int, e: int|
                    0 <= p < i && 0 <= e < g[frontier[p] as int].len() ==> #[trigger] dist[g[frontier[p] as int][e] as int] is Some,
            decreases frontier.len() - i,
        {
            let u = frontier[i];
            let mut j: usize = 0;
            while j < graph[u].len()
                invariant
                    n == graph.len(),
                    g == adjacency(graph),
                    well_formed(g),
                    s == source,
                    source < n,
                    dist.len() == n,
                    i < frontier.len(),
                    u == frontier[i as int],
                    u < n,
                    dist[u as int] == Some(depth),
                    j <= g[u as int].len(),
                    depth + 1 <= seen0.len(),
                    depth < n,
                    seen0.subset_of(seen),
                    seen.finite(),
                    seen.len() <= n,
                    forall|v: int| #[trigger] seen.contains(v) <==> 0 <= v < n && dist[v] is Some,
                    forall|v: int|
                        0 <= v < n && #[trigger] dist[v] is Some ==> dist[v]->0 <= depth + 1 && dist[v]->0 < n
                            && is_distance(g, s, v, dist[v]->0 as nat),
                    forall|v: int|
                        0 <= v < n && #[trigger] within(g, s, v, depth as nat) ==> dist[v] is Some
                            && dist[v]->0 <= depth,
                    forall|jj: int|
                        0 <= jj < frontier.len() ==> #[trigger] frontier[jj] < n && dist[frontier[jj] as int]
                            == Some(depth),
                    forall|v: int| 0 <= v < n && #[trigger] dist[v] == Some(depth) ==> frontier@.contains(v as usize),
                    forall|jj: int|
                        0 <= jj < next.len() ==> #[trigger] next[jj] < n && dist[next[jj] as int] == Some(
                            (depth + 1) as usize,
                        ),
                    forall|v: int|
                        0 <= v < n && #[trigger] dist[v] == Some((depth + 1) as usize) ==> next@.contains(v as usize),
                    next.len() > 0 ==> seen0.len() < seen.len(),
                    forall|p: int, e: int|
                        0 <= p < i && 0 <= e < g[frontier[p] as int].len() ==> #[trigger] dist[g[frontier[p] as int][e] as int] is Some,
                    forall|e: int| 0 <= e < j ==> #[trigger] dist[g[u as int][e] as int] is Some,
                decreases g[u as int].len() - j,
            {
                let w = graph[u][j];
                assert(g[u as int][j as int] == w);
                if dist[w].is_none() {
                    proof {
                        assert(!seen.contains(w as int));
                        assert(is_distance(g, s, u as int, depth as nat));
                        assert(edge(g, u as int, w as int));
                        assert(within(g, s, w as int, (depth + 1) as nat));
                        assert(!within(g, s, w as int, depth as nat));
                        assert(is_distance(g, s, w as int, (depth + 1) as nat));
                        vstd::set_lib::lemma_len_subset(seen0, seen);
                        assert(seen.insert(w as int).subset_of(vstd::set_lib::set_int_range(0, n as int)));
                        vstd::set_lib::lemma_int_range(0, n as int);
                        vstd::set_lib::lemma_len_subset(seen.insert(w as int), vstd::set_lib::set_int_range(0, n as int));
                    }
                    let ghost dist_before = dist@;
                    let ghost next_before = next@;
                    assert(forall|v: int| 0 <= v < n && dist_before[v] == Some((depth + 1) as usize) ==> next_before.contains(v as usize));
                    dist.set(w, Some(depth + 1));
                    next.push(w);
                    proof {
                        seen = seen.insert(w as int);
                        assert(next@[next.len() - 1] == w);
                        assert forall|v: int|
                            0 <= v < n && #[trigger] dist[v] == Some((depth + 1) as usize) implies next@.contains(
                            v as usize,
                        ) by {
                            if v != w {
                                assert(dist_before[v] == dist[v]);
                                let k = choose|k: int| 0 <= k < next_before.len() && next_before[k] == v as usize;
                                assert(next@[k] == v as usize);
                            }
                        }
                    }
                }
                j = j + 1;
            }
            i = i + 1;
        }
        let ghost nd: nat = (depth + 1) as nat;
        proof {
            assert forall|v: int| 0 <= v < n && #[trigger] within(g, s, v, nd) implies dist[v] is Some by {
                if !within(g, s, v, depth as nat) {
                    let u = choose|u: int| within(g, s, u, depth as nat) && #[trigger] edge(g, u, v);
                    if depth > 0 && within(g, s, u, (depth - 1) as nat) {
                        assert(within(g, s, v, depth as nat));
                    }
                    assert(is_distance(g, s, u, depth as nat));
                    lemma_distance_unique(g, s, u, depth as nat, dist[u]->0 as nat);
                    let p = choose|p: int| 0 <= p < frontier.len() && frontier[p] == u as usize;
                    let e = choose|e: int| 0 <= e < g[u].len() && #[trigger] g[u][e] == v;
                    assert(dist[g[frontier[p] as int][e] as int] is Some);
                }
            }
            vstd::set_lib::lemma_len_subset(seen0, seen);
        }
        frontier = next;
        depth = depth + 1;
        assert(depth as nat == nd);
    }
    proof {
        assert forall|u: int| !#[trigger] is_distance(g, s, u, depth as nat) by {
            if is_distance(g, s, u, depth as nat) {
                lemma_within_is_node(g, s, u, depth as nat);
                lemma_distance_unique(g, s, u, depth as nat, dist[u]->0 as nat);
                assert(frontier@.contains(u as usize));
            }
        }
        lemma_no_layer(g, s, depth as nat);
    }
    dist
}

/// Hop distance from `start` to `end`: `None` when no walk leads there, as for an
/// `end` that is not a node.
pub fn bfs(graph: &Vec<Vec<usize>>, start: usize, end: usize) -> (r: Option<usize>)
    requires
        well_formed(adjacency(graph)),
        start < graph.len(),
    ensures
        match r {
            Some(k) => is_distance(adjacency(graph), start as int, end as int, k as nat),
            None => !reachable(adjacency(graph), start as int, end as int),
        },
{
    if start == end {
        return Some(0);
    }
    let dist = distances_from(graph, start);
    if end >= graph.len() {
        proof {
            if reachable(adjacency(graph), start as int, end as int) {
                let k = choose|k: nat| #[trigger] within(adjacency(graph), start as int, end as int, k);
                lemma_within_is_node(adjacency(graph), start as int, end as int, k);
            }
        }
        return None;
    }
    assert(match dist@[end as int] {
        Some(k) => is_distance(adjacency(graph), start as int, end as int, k as nat),
        None => !reachable(adjacency(graph), start as int, end as int),
    });
    dist[end]
}

} // verus!
