use degrees_of_separation::average::{average_distance, bfs_all_nodes, AvgDistance};
use degrees_of_separation::graph::adjacency_list;
use degrees_of_separation::search::{bfs, traverse};
use degrees_of_separation::separation::{avg_degrees_of_separation, defined_averages};
use std::collections::HashMap;

fn map_of(entries: &[(u32, u32)]) -> HashMap<u32, u32> {
    let mut m = HashMap::new();
    for (k, v) in entries {
        m.insert(*k, *v);
    }
    m
}

fn as_float(avg: &AvgDistance) -> f64 {
    if avg.is_defined() {
        avg.total as f64 / avg.others as f64
    } else {
        f64::NAN
    }
}

fn mean_of(terms: &[AvgDistance]) -> f64 {
    if terms.is_empty() {
        return f64::NAN;
    }
    terms.iter().map(as_float).sum::<f64>() / terms.len() as f64
}

#[test]
fn single_edge() {
    let adj = adjacency_list(&[(1, 2)]);
    assert_eq!(adj.len(), 1);
    assert_eq!(adj[&1], vec![2]);
    assert!(!adj.contains_key(&2));

    assert_eq!(bfs(1, &adj), map_of(&[(1, 0), (2, 1)]));

    let per_node = bfs_all_nodes(&adj);
    assert_eq!(per_node.len(), 1);
    assert_eq!(per_node[&1], AvgDistance { total: 1, others: 1 });
    assert_eq!(as_float(&per_node[&1]), 1.0);
    assert!(!per_node.contains_key(&2));

    let mean = avg_degrees_of_separation(&[(1, 2)]);
    assert!(mean.is_defined());
    assert_eq!(mean.terms, vec![AvgDistance { total: 1, others: 1 }]);
    assert_eq!(mean_of(&mean.terms), 1.0);
}

#[test]
fn triangle_with_shortcut() {
    let edges = [(1, 2), (2, 3), (1, 3)];
    let adj = adjacency_list(&edges);
    assert_eq!(adj.len(), 2);
    assert_eq!(adj[&1], vec![2, 3]);
    assert_eq!(adj[&2], vec![3]);

    assert_eq!(bfs(1, &adj), map_of(&[(1, 0), (2, 1), (3, 1)]));
    assert_eq!(bfs(2, &adj), map_of(&[(2, 0), (3, 1)]));

    let per_node = bfs_all_nodes(&adj);
    assert_eq!(per_node.len(), 2);
    assert_eq!(per_node[&1], AvgDistance { total: 2, others: 2 });
    assert_eq!(per_node[&2], AvgDistance { total: 1, others: 1 });
    assert_eq!(as_float(&per_node[&1]), 1.0);
    assert_eq!(as_float(&per_node[&2]), 1.0);

    let mean = avg_degrees_of_separation(&edges);
    assert_eq!(mean.terms.len(), 2);
    assert_eq!(mean_of(&mean.terms), 1.0);
}

#[test]
fn self_loop_only() {
    let adj = adjacency_list(&[(1, 1)]);
    assert_eq!(adj.len(), 1);
    assert_eq!(adj[&1], vec![1]);

    assert_eq!(bfs(1, &adj), map_of(&[(1, 0)]));

    let per_node = bfs_all_nodes(&adj);
    assert_eq!(per_node.len(), 1);
    assert!(!per_node[&1].is_defined());
    assert_eq!(per_node[&1], AvgDistance { total: 0, others: 0 });
    assert!(as_float(&per_node[&1]).is_nan());

    let mean = avg_degrees_of_separation(&[(1, 1)]);
    assert!(!mean.is_defined());
    assert!(mean.terms.is_empty());
    assert!(mean_of(&mean.terms).is_nan());
}

#[test]
fn no_edges() {
    let adj = adjacency_list(&[]);
    assert!(adj.is_empty());
    assert!(bfs_all_nodes(&adj).is_empty());
    let mean = avg_degrees_of_separation(&[]);
    assert!(!mean.is_defined());
    assert!(mean.terms.is_empty());
}

#[test]
fn adjacency_keeps_order_duplicates_and_self_loops() {
    let adj = adjacency_list(&[(5, 9), (1, 5), (5, 5), (5, 9), (1, 2), (5, 1)]);
    assert_eq!(adj.len(), 2);
    assert_eq!(adj[&5], vec![9, 5, 9, 1]);
    assert_eq!(adj[&1], vec![5, 2]);
    assert!(!adj.contains_key(&9));
    assert!(!adj.contains_key(&2));
}

#[test]
fn source_without_entry_reaches_only_itself() {
    let adj = adjacency_list(&[(1, 2)]);
    assert_eq!(bfs(2, &adj), map_of(&[(2, 0)]));
    assert_eq!(bfs(7, &adj), map_of(&[(7, 0)]));
    let found = traverse(7, &adj);
    assert_eq!(found.order, vec![7]);
    assert_eq!(found.dist, map_of(&[(7, 0)]));
}

#[test]
fn distance_to_self_is_zero() {
    let edges = [(1, 2), (2, 1), (2, 3), (3, 3), (4, 1), (0, 4), (u32::MAX, 0)];
    let adj = adjacency_list(&edges);
    for node in [0, 1, 2, 3, 4, 5, u32::MAX] {
        assert_eq!(bfs(node, &adj)[&node], 0);
    }
}

#[test]
fn target_of_an_edge_is_at_most_one_step_away() {
    let edges = [(1, 2), (2, 1), (2, 3), (3, 3), (4, 1), (0, 4), (4, 3), (1, 1)];
    let adj = adjacency_list(&edges);
    for (from, to) in edges {
        let dist = bfs(from, &adj);
        let expected = if from == to { 0 } else { 1 };
        assert_eq!(dist[&to], expected);
    }
}

#[test]
fn chain_distances_grow_by_one() {
    let adj = adjacency_list(&[(1, 2), (2, 3), (3, 4)]);
    assert_eq!(bfs(1, &adj), map_of(&[(1, 0), (2, 1), (3, 2), (4, 3)]));
    assert_eq!(bfs(3, &adj), map_of(&[(3, 0), (4, 1)]));
    assert_eq!(bfs(4, &adj), map_of(&[(4, 0)]));
    let per_node = bfs_all_nodes(&adj);
    assert_eq!(per_node.len(), 3);
    assert_eq!(per_node[&1], AvgDistance { total: 6, others: 3 });
    assert_eq!(as_float(&per_node[&1]), 2.0);
    assert_eq!(per_node[&2], AvgDistance { total: 3, others: 2 });
    assert_eq!(as_float(&per_node[&2]), 1.5);
    assert_eq!(per_node[&3], AvgDistance { total: 1, others: 1 });
}

#[test]
fn shortest_walk_wins_over_longer_one() {
    // 1 -> 2 -> 3 -> 4 -> 5 and the shortcut 1 -> 4, listed last.
    let adj = adjacency_list(&[(1, 2), (2, 3), (3, 4), (4, 5), (1, 4)]);
    assert_eq!(bfs(1, &adj), map_of(&[(1, 0), (2, 1), (3, 2), (4, 1), (5, 2)]));
}

#[test]
fn cycle_reaches_every_node() {
    let adj = adjacency_list(&[(1, 2), (2, 3), (3, 1)]);
    assert_eq!(bfs(1, &adj), map_of(&[(1, 0), (2, 1), (3, 2)]));
    assert_eq!(bfs(2, &adj), map_of(&[(2, 0), (3, 1), (1, 2)]));
    assert_eq!(bfs(3, &adj), map_of(&[(3, 0), (1, 1), (2, 2)]));
    let mean = avg_degrees_of_separation(&[(1, 2), (2, 3), (3, 1)]);
    assert_eq!(mean.terms, vec![AvgDistance { total: 3, others: 2 }; 3]);
    assert_eq!(mean_of(&mean.terms), 1.5);
}

#[test]
fn unreachable_nodes_are_absent() {
    let adj = adjacency_list(&[(1, 2), (3, 4), (4, 3)]);
    let dist = bfs(1, &adj);
    assert_eq!(dist, map_of(&[(1, 0), (2, 1)]));
    assert!(!dist.contains_key(&3));
    assert!(!dist.contains_key(&4));
}

#[test]
fn discovery_follows_the_neighbour_lists() {
    let adj =
        adjacency_list(&[(1, 3), (1, 2), (1, 3), (3, 5), (2, 4), (3, 4), (2, 1), (4, 6), (5, 6)]);
    let found = traverse(1, &adj);
    assert_eq!(found.order, vec![1, 3, 2, 5, 4, 6]);
    assert_eq!(found.dist, map_of(&[(1, 0), (3, 1), (2, 1), (5, 2), (4, 2), (6, 3)]));
    assert_eq!(found.dist, bfs(1, &adj));
}

#[test]
fn distances_do_not_fall_along_the_discovery() {
    let edges = [
        (1, 2), (1, 3), (2, 4), (3, 4), (4, 5), (5, 1), (5, 6), (6, 7), (2, 7), (7, 8), (8, 2),
        (9, 1),
    ];
    let adj = adjacency_list(&edges);
    for source in 1..=9 {
        let found = traverse(source, &adj);
        assert_eq!(found.order[0], source);
        assert_eq!(found.order.len(), found.dist.len());
        for pair in found.order.windows(2) {
            assert!(found.dist[&pair[0]] <= found.dist[&pair[1]]);
        }
        for (i, node) in found.order.iter().enumerate() {
            assert!(!found.order[..i].contains(node));
        }
    }
}

#[test]
fn average_is_undefined_only_for_a_single_entry() {
    let edges = [(1, 2), (2, 3), (3, 3), (4, 4), (5, 6)];
    let adj = adjacency_list(&edges);
    let per_node = bfs_all_nodes(&adj);
    for (node, avg) in &per_node {
        let dist = bfs(*node, &adj);
        assert_eq!(avg.is_defined(), dist.len() != 1);
        assert_eq!(*avg, average_distance(&dist));
    }
    assert!(per_node[&1].is_defined());
    assert!(per_node[&2].is_defined());
    assert!(!per_node[&3].is_defined());
    assert!(!per_node[&4].is_defined());
    assert!(per_node[&5].is_defined());
}

#[test]
fn average_of_small_maps() {
    assert_eq!(average_distance(&map_of(&[])), AvgDistance { total: 0, others: 0 });
    assert_eq!(average_distance(&map_of(&[(4, 0)])), AvgDistance { total: 0, others: 0 });
    assert_eq!(
        average_distance(&map_of(&[(4, 0), (5, 1), (6, 2), (7, 2)])),
        AvgDistance { total: 5, others: 3 }
    );
}

#[test]
fn average_sum_does_not_wrap() {
    let avg = average_distance(&map_of(&[(0, u32::MAX), (1, u32::MAX), (2, 2)]));
    assert_eq!(avg, AvgDistance { total: 2 * (u32::MAX as u64) + 2, others: 2 });
}

#[test]
fn undefined_averages_are_left_out() {
    let mut per_node = HashMap::new();
    per_node.insert(1, AvgDistance { total: 0, others: 0 });
    per_node.insert(2, AvgDistance { total: 7, others: 4 });
    per_node.insert(3, AvgDistance { total: 0, others: 0 });
    per_node.insert(4, AvgDistance { total: 1, others: 1 });
    let mut terms = defined_averages(&per_node);
    terms.sort_by_key(|t| t.total);
    assert_eq!(
        terms,
        vec![AvgDistance { total: 1, others: 1 }, AvgDistance { total: 7, others: 4 }]
    );
    assert!(defined_averages(&HashMap::new()).is_empty());
}

#[test]
fn graph_average_counts_defined_sources_only() {
    // 1 reaches 2 and 3; 2 reaches 3; 3 reaches only itself.
    let edges = [(1, 2), (2, 3), (3, 3)];
    let mean = avg_degrees_of_separation(&edges);
    let mut terms = mean.terms.clone();
    terms.sort_by_key(|t| t.total);
    assert_eq!(
        terms,
        vec![AvgDistance { total: 1, others: 1 }, AvgDistance { total: 3, others: 2 }]
    );
    assert_eq!(mean_of(&mean.terms), 1.25);
}

#[test]
fn two_runs_agree() {
    let edges = [(1, 2), (2, 3), (3, 1), (3, 4), (5, 1), (4, 4), (2, 3)];
    let first = adjacency_list(&edges);
    let second = adjacency_list(&edges);
    assert_eq!(first, second);
    assert_eq!(bfs_all_nodes(&first), bfs_all_nodes(&second));
    let mut terms1 = avg_degrees_of_separation(&edges).terms;
    let mut terms2 = avg_degrees_of_separation(&edges).terms;
    terms1.sort_by_key(|t| (t.total, t.others));
    terms2.sort_by_key(|t| (t.total, t.others));
    assert_eq!(terms1, terms2);
    for node in 1..=5 {
        assert_eq!(traverse(node, &first).order, traverse(node, &second).order);
    }
}
