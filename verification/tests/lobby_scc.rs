use manifold::lobby::scc::{reachable_from, strongly_connected_components};

#[test]
fn components_partition_the_vertices_by_mutual_reachability() {
    // 0 -> 1 -> 2 -> 0, 2 -> 3, 3 -> 4 -> 3, 5 alone
    let adj: Vec<Vec<usize>> = vec![vec![1], vec![2], vec![0, 3], vec![4], vec![3], vec![]];
    let comps = strongly_connected_components(&adj);
    assert_eq!(comps, vec![vec![4, 3], vec![2, 1, 0], vec![5]]);
    for v in 0..adj.len() {
        assert_eq!(comps.iter().filter(|c| c.contains(&v)).count(), 1);
    }
}

#[test]
fn reachability_follows_edges_only_forward() {
    let adj: Vec<Vec<usize>> = vec![vec![1], vec![2], vec![], vec![0]];
    assert_eq!(reachable_from(&adj, 0), vec![true, true, true, false]);
    assert_eq!(reachable_from(&adj, 3), vec![true, true, true, true]);
    assert_eq!(reachable_from(&adj, 2), vec![false, false, true, false]);
}

#[test]
fn components_come_in_tarjan_order_sinks_first() {
    assert_eq!(strongly_connected_components(&vec![vec![1], vec![]]), vec![vec![1], vec![0]]);
    // 0 -> 1 -> 2, 3 -> 1
    let adj: Vec<Vec<usize>> = vec![vec![1], vec![2], vec![], vec![1]];
    let comps = strongly_connected_components(&adj);
    assert_eq!(comps, vec![vec![2], vec![1], vec![0], vec![3]]);
    let pos = |v: usize| comps.iter().position(|c| c.contains(&v)).unwrap();
    for u in 0..adj.len() {
        for &v in &adj[u] {
            assert!(pos(v) <= pos(u));
        }
    }
}
