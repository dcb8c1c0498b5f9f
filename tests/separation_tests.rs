use separation::bfs::{bfs, distances_from};
use separation::separation::separation_stats;
use separation::loader::{parse_edge_list, split_row, LoadError};
use separation::stats::DistanceStats;

fn bidirectional(n: usize, edges: &[(usize, usize)]) -> Vec<Vec<usize>> {
    let mut g: Vec<Vec<usize>> = vec![Vec::new(); n];
    for &(a, b) in edges {
        g[a].push(b);
        g[b].push(a);
    }
    g
}

#[test]
fn check_self_connection() {
    let adjacency_test: Vec<Vec<usize>> = vec![vec![1], vec![0, 2], vec![1]];
    assert_eq!(bfs(&adjacency_test, 0, 0), Some(0));
}

#[test]
fn check_one_degree() {
    let adjacency_test: Vec<Vec<usize>> = vec![vec![1], vec![0, 2], vec![1]];
    assert_eq!(bfs(&adjacency_test, 0, 1), Some(1));
}

#[test]
fn check_no_connections() {
    let adjacency_test: Vec<Vec<usize>> = vec![vec![1], vec![0], vec![3], vec![2]];
    assert_eq!(bfs(&adjacency_test, 0, 3), None);
}

#[test]
fn check_valid_connections_count() {
    let adjacency_test: Vec<Vec<usize>> = vec![vec![1], vec![0, 2], vec![1, 3], vec![2]];
    let mut valid_connections = 0;
    let total_pairs = adjacency_test.len() * (adjacency_test.len() - 1);

    for i in 0..adjacency_test.len() {
        for j in 0..adjacency_test.len() {
            if i != j {
                if bfs(&adjacency_test, i, j).is_some() {
                    valid_connections += 1;
                }
            }
        }
    }

    assert_eq!(valid_connections, total_pairs);
}

#[test]
fn self_distance_ignores_self_loop() {
    let g: Vec<Vec<usize>> = vec![vec![0, 1], vec![0]];
    assert_eq!(bfs(&g, 0, 0), Some(0));
    assert_eq!(distances_from(&g, 0), vec![Some(0), Some(1)]);
}

#[test]
fn path_distances_from_one_end() {
    let g = bidirectional(4, &[(0, 1), (1, 2), (2, 3)]);
    assert_eq!(distances_from(&g, 0), vec![Some(0), Some(1), Some(2), Some(3)]);
    assert_eq!(bfs(&g, 0, 3), Some(3));
    assert_eq!(bfs(&g, 3, 0), Some(3));
}

#[test]
fn shortest_of_two_routes() {
    // 0 -> 1 -> 2 -> 3 and a shortcut 0 -> 3
    let g: Vec<Vec<usize>> = vec![vec![1, 3], vec![2], vec![3], vec![]];
    assert_eq!(bfs(&g, 0, 3), Some(1));
    assert_eq!(bfs(&g, 0, 2), Some(2));
}

#[test]
fn directed_edges_reach_one_way() {
    let g: Vec<Vec<usize>> = vec![vec![1], vec![]];
    assert_eq!(bfs(&g, 0, 1), Some(1));
    assert_eq!(bfs(&g, 1, 0), None);
    let stats = separation_stats(&g);
    assert_eq!(stats.total(), 1);
    assert_eq!(stats.count(1), 1);
}

#[test]
fn symmetric_graph_distances_agree() {
    let g = bidirectional(5, &[(0, 1), (1, 2), (2, 3), (1, 4)]);
    for x in 0..5 {
        for y in 0..5 {
            assert_eq!(bfs(&g, x, y), bfs(&g, y, x));
        }
    }
    assert_eq!(bfs(&g, 4, 3), Some(3));
}

#[test]
fn triangle_scenario() {
    let g = bidirectional(3, &[(0, 1), (1, 2), (2, 0)]);
    let stats = separation_stats(&g);
    assert_eq!(stats.count(1), 6);
    assert_eq!(stats.count(2), 0);
    assert_eq!(stats.total(), 6);
    assert_eq!(stats.sum(), 6);
    assert_eq!(stats.max_distance(), 1);
    assert_eq!(stats.count_within(6), 6);
    let mean = stats.sum() as f64 / stats.total() as f64;
    assert_eq!(mean, 1.0);
    let mut squares = 0.0;
    for d in 1..=stats.max_distance() {
        let diff = d as f64 - mean;
        squares += stats.count(d) as f64 * diff * diff;
    }
    assert_eq!((squares / stats.total() as f64).sqrt(), 0.0);
    assert_eq!(stats.count_within(6) as f64 / stats.total() as f64 * 100.0, 100.0);
}

#[test]
fn path_scenario() {
    let g = bidirectional(4, &[(0, 1), (1, 2), (2, 3)]);
    let stats = separation_stats(&g);
    assert_eq!(stats.count(1), 6);
    assert_eq!(stats.count(2), 4);
    assert_eq!(stats.count(3), 2);
    assert_eq!(stats.count(4), 0);
    assert_eq!(stats.total(), 12);
    assert_eq!(stats.sum(), 20);
    assert_eq!(stats.max_distance(), 3);
    let mean = stats.sum() as f64 / stats.total() as f64;
    assert!((mean - 20.0 / 12.0).abs() < 1e-12);
}

#[test]
fn disconnected_scenario() {
    let g = bidirectional(4, &[(0, 1), (2, 3)]);
    let stats = separation_stats(&g);
    assert_eq!(stats.total(), 4);
    assert_eq!(stats.count(1), 4);
    assert_eq!(stats.count_within(6), 4);
    assert_eq!(stats.max_distance(), 1);
    assert_eq!(bfs(&g, 0, 2), None);
}

#[test]
fn within_threshold_grows_and_reaches_total() {
    let g = bidirectional(4, &[(0, 1), (1, 2), (2, 3)]);
    let stats = separation_stats(&g);
    assert_eq!(stats.count_within(0), 0);
    assert_eq!(stats.count_within(1), 6);
    assert_eq!(stats.count_within(2), 10);
    assert_eq!(stats.count_within(3), 12);
    assert_eq!(stats.count_within(100), 12);
    let mut last = 0;
    for t in 0..8 {
        let c = stats.count_within(t);
        assert!(c >= last);
        last = c;
    }
    assert_eq!(stats.count_within(stats.max_distance()), stats.total());
}

#[test]
fn empty_and_single_node_graphs() {
    let empty: Vec<Vec<usize>> = Vec::new();
    let stats = separation_stats(&empty);
    assert_eq!(stats.total(), 0);
    assert_eq!(stats.sum(), 0);
    assert_eq!(stats.max_distance(), 0);
    let single: Vec<Vec<usize>> = vec![vec![0]];
    let stats = separation_stats(&single);
    assert_eq!(stats.total(), 0);
    assert_eq!(stats.max_distance(), 0);
    assert_eq!(stats.count_within(6), 0);
}

#[test]
fn nodes_without_edges() {
    let g: Vec<Vec<usize>> = vec![vec![], vec![], vec![]];
    let stats = separation_stats(&g);
    assert_eq!(stats.total(), 0);
    assert_eq!(distances_from(&g, 1), vec![None, Some(0), None]);
}

#[test]
fn record_updates_totals() {
    let mut stats = DistanceStats::new();
    assert_eq!(stats.total(), 0);
    stats.record(3);
    stats.record(1);
    stats.record(3);
    assert_eq!(stats.total(), 3);
    assert_eq!(stats.sum(), 7);
    assert_eq!(stats.count(3), 2);
    assert_eq!(stats.count(1), 1);
    assert_eq!(stats.count(2), 0);
    assert_eq!(stats.max_distance(), 3);
    assert_eq!(stats.count_within(2), 1);
}

fn lines(text: &[&str]) -> Vec<Vec<u8>> {
    text.iter().map(|l| l.as_bytes().to_vec()).collect()
}

#[test]
fn parse_assigns_ids_in_order_of_first_appearance() {
    let input = lines(&["from,to", "a,b", "b,c", "a,c", "c,a"]);
    let (labels, graph) = parse_edge_list(&input).unwrap();
    assert_eq!(labels, vec![b"a".to_vec(), b"b".to_vec(), b"c".to_vec()]);
    assert_eq!(graph, vec![vec![1, 2], vec![2], vec![0]]);
}

#[test]
fn parse_skips_header_and_accepts_self_loop() {
    let input = lines(&["anything at all", "7,7"]);
    let (labels, graph) = parse_edge_list(&input).unwrap();
    assert_eq!(labels, vec![b"7".to_vec()]);
    assert_eq!(graph, vec![vec![0]]);
    let (labels, graph) = parse_edge_list(&Vec::new()).unwrap();
    assert!(labels.is_empty() && graph.is_empty());
}

#[test]
fn parse_rejects_wrong_column_count() {
    assert_eq!(parse_edge_list(&lines(&["h", "a,b", "a,b,c"])), Err(LoadError::InvalidFormat));
    assert_eq!(parse_edge_list(&lines(&["h", "ab"])), Err(LoadError::InvalidFormat));
    assert_eq!(parse_edge_list(&lines(&["h", ""])), Err(LoadError::InvalidFormat));
}

#[test]
fn split_row_parts() {
    assert_eq!(split_row(&b"12,345".to_vec()), Some((b"12".to_vec(), b"345".to_vec())));
    assert_eq!(split_row(&b",".to_vec()), Some((Vec::new(), Vec::new())));
    assert_eq!(split_row(&b"1,2,3".to_vec()), None);
    assert_eq!(split_row(&b"12".to_vec()), None);
}

#[test]
fn parsed_graph_feeds_statistics() {
    let input = lines(&["u,v", "x,y", "y,x", "y,z", "z,y"]);
    let (_labels, graph) = parse_edge_list(&input).unwrap();
    let stats = separation_stats(&graph);
    assert_eq!(stats.total(), 6);
    assert_eq!(stats.count(1), 4);
    assert_eq!(stats.count(2), 2);
}
