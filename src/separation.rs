//! Hop distances over every ordered pair of distinct nodes, gathered into a histogram.
use vstd::prelude::*;
use crate::bfs::{distances_from, search_result};
use crate::graph::{adjacency, is_distance, lemma_distance_unique, reachable, well_formed, within};
use crate::stats::{count_at, hist_sum, hist_total, DistanceStats};

verus! {

/// Number of nodes `t` in `0..m`, other than `s`, at hop distance `d` from `s`.
pub open spec fn row_at(g: Seq<Seq<usize>>, s: int, d: nat, m: int) -> nat
    decreases m,
{
    if m <= 0 {
        0
    } else {
        row_at(g, s, d, m - 1) + if m - 1 != s && is_distance(g, s, m - 1, d) {
            1nat
        } else {
            0nat
        }
    }
}

/// Number of ordered pairs of distinct nodes `(s, t)` with `s` in `0..m` at hop distance `d`.
pub open spec fn pairs_at(g: Seq<Seq<usize>>, d: nat, m: int) -> nat
    decreases m,
{
    if m <= 0 {
        0
    } else {
        pairs_at(g, d, m - 1) + row_at(g, m - 1, d, g.len() as int)
    }
}

/// Number of nodes `t` in `0..m`, other than `s`, that can be reached from `s`.
pub open spec fn row_reach(g: Seq<Seq<usize>>, s: int, m: int) -> nat
    decreases m,
{
    if m <= 0 {
        0
    } else {
        row_reach(g, s, m - 1) + if m - 1 != s && reachable(g, s, m - 1) {
            1nat
        } else {
            0nat
        }
    }
}

/// Number of ordered pairs of distinct nodes `(s, t)` with `s` in `0..m` where `t` can
/// be reached from `s`.
pub open spec fn valid_pairs(g: Seq<Seq<usize>>, m: int) -> nat
    decreases m,
{
    if m <= 0 {
        0
    } else {
        valid_pairs(g, m - 1) + row_reach(g, m - 1, g.len() as int)
    }
}

/// Runs one search from every node and records the distance of every ordered pair of
/// distinct nodes joined by a walk. The histogram holds, at each distance, the number
/// of pairs at that distance, and its counts add up to the number of such pairs.
pub fn separation_stats(graph: &Vec<Vec<usize>>) -> (r: DistanceStats)
    requires
        well_formed(adjacency(graph)),
        graph.len() * graph.len() * graph.len() <= u64::MAX,
    ensures
        r.wf(),
        forall|d: int|
            d >= 0 ==> #[trigger] count_at(r@, d) == pairs_at(adjacency(graph), d as nat, graph.len() as int),
        hist_total(r@) == valid_pairs(adjacency(graph), graph.len() as int),
{
    let ghost g = adjacency(graph);
    let n = graph.len();
    let mut stats = DistanceStats::new();
    let mut s: usize = 0;
    while s < n
        invariant
            g == adjacency(graph),
            well_formed(g),
            n == graph.len(),
            n * n * n <= u64::MAX,
            s <= n,
            stats.wf(),
            forall|d: int| d >= 0 ==> #[trigger] count_at(stats@, d) == pairs_at(g, d as nat, s as int),
            hist_total(stats@) == valid_pairs(g, s as int),
            hist_total(stats@) <= s * n,
            hist_sum(stats@) <= hist_total(stats@) * n,
        decreases n - s,
    {
        let dist = distances_from(graph, s);
        let mut t: usize = 0;
        while t < n
            invariant
                g == adjacency(graph),
                well_formed(g),
                n == graph.len(),
                n * n * n <= u64::MAX,
                s < n,
                t <= n,
                search_result(g, s as int, dist@),
                stats.wf(),
                forall|d: int|
                    d >= 0 ==> #[trigger] count_at(stats@, d) == pairs_at(g, d as nat, s as int) + row_at(
                        g,
                        s as int,
                        d as nat,
                        t as int,
                    ),
                hist_total(stats@) == valid_pairs(g, s as int) + row_reach(g, s as int, t as int),
                hist_total(stats@) <= s * n + t,
                hist_sum(stats@) <= hist_total(stats@) * n,
            decreases n - t,
        {
            let ghost before = stats@;
            let ghost here = dist@[t as int];
            assert(match here {
                Some(k) => is_distance(g, s as int, t as int, k as nat) && k < g.len(),
                None => !reachable(g, s as int, t as int),
            });
            if t != s {
                match dist[t] {
                    Some(k) => {
                        assert(k >= 1);
                        assert(reachable(g, s as int, t as int)) by {
                            assert(within(g, s as int, t as int, k as nat));
                        }
                        let ghost tot = hist_total(before);
                        let ghost sm = hist_sum(before);
                        assert(tot < u64::MAX && sm + k <= u64::MAX && sm + k <= (tot + 1) * n) by (nonlinear_arith)
                            requires
                                tot <= s * n + t,
                                sm <= tot * n,
                                s < n,
                                t < n,
                                k < n,
                                n * n * n <= u64::MAX,
                        ;
                        stats.record(k);
                        assert forall|d: int| d >= 0 implies #[trigger] count_at(stats@, d) == pairs_at(
                            g,
                            d as nat,
                            s as int,
                        ) + row_at(g, s as int, d as nat, t + 1) by {
                            if is_distance(g, s as int, t as int, d as nat) {
                                lemma_distance_unique(g, s as int, t as int, d as nat, k as nat);
                            }
                            assert(count_at(before, d) == pairs_at(g, d as nat, s as int) + row_at(
                                g,
                                s as int,
                                d as nat,
                                t as int,
                            ));
                        }
                    },
                    None => {
                        assert forall|d: int| d >= 0 implies #[trigger] count_at(stats@, d) == pairs_at(
                            g,
                            d as nat,
                            s as int,
                        ) + row_at(g, s as int, d as nat, t + 1) by {
                            if is_distance(g, s as int, t as int, d as nat) {
                                assert(within(g, s as int, t as int, d as nat));
                            }
                        }
                    },
                }
            }
            t = t + 1;
        }
        proof {
            assert(hist_total(stats@) <= (s + 1) * n) by (nonlinear_arith)
                requires
                    hist_total(stats@) <= s * n + n,
            ;
        }
        s = s + 1;
    }
    stats
}

/// A graph of at most one node has no pair of distinct nodes, so no pair at any
/// distance and no pair joined by a walk.
pub proof fn lemma_tiny_graph_has_no_pairs(g: Seq<Seq<usize>>)
    requires
        g.len() <= 1,
    ensures
        valid_pairs(g, g.len() as int) == 0,
        forall|d: nat| #[trigger] pairs_at(g, d, g.len() as int) == 0,
{
    if g.len() == 1 {
        assert(row_reach(g, 0, 0) == 0);
        assert(row_reach(g, 0, 1) == 0);
        assert(valid_pairs(g, 0) == 0);
        assert(valid_pairs(g, 1) == 0);
        assert forall|d: nat| #[trigger] pairs_at(g, d, g.len() as int) == 0 by {
            assert(row_at(g, 0, d, 0) == 0);
            assert(row_at(g, 0, d, 1) == 0);
            assert(pairs_at(g, d, 0) == 0);
        }
    }
}

} // verus!
