use icecat::strong::kosaraju_labels;
use icecat::traversal::{hop_search, parent_path};
use icecat::{
    bfs, connected_components, degrees, from_edges, strongly_connected_components, weakly_connected_components, Edge,
    Error, ExecutionContext, Graph, NodeId,
};

fn ctx() -> ExecutionContext {
    ExecutionContext::default()
}

fn graph(n: usize, directed: bool, edges: &[(u64, u64)]) -> Graph {
    let edges: Vec<Edge> = edges.iter().map(|&(source, target)| Edge { source, target }).collect();
    from_edges(n, directed, true, &edges).unwrap()
}

fn prepared(g: &Graph) -> Graph {
    g.prepare_incoming(&ctx()).unwrap().0
}

#[test]
fn distances_components_and_isolates() {
    let g = prepared(&graph(5, true, &[(0, 1), (1, 2), (2, 0), (2, 3)]));
    assert_eq!(bfs(&g, NodeId(0), &ctx()).unwrap(), vec![Some(0), Some(1), Some(2), Some(3), None]);
    assert_eq!(strongly_connected_components(&g, &ctx()).unwrap(), vec![0, 0, 0, 3, 4]);
    assert_eq!(weakly_connected_components(&g, &ctx()).unwrap(), vec![0, 0, 0, 0, 4]);
    assert!(connected_components(&g, &ctx()).is_err());
}

#[test]
fn empty_invalid_options_missing_transpose_and_cancel() {
    let g = graph(2, true, &[(0, 1)]);
    assert!(matches!(strongly_connected_components(&g, &ctx()), Err(Error::MissingIncoming)));
    assert!(matches!(degrees(&g, true, &ctx()), Err(Error::MissingIncoming)));
    let c = ctx();
    c.cancel();
    assert!(matches!(bfs(&g, NodeId(0), &c), Err(Error::Cancelled)));
    let empty = graph(0, true, &[]);
    assert_eq!(weakly_connected_components(&empty, &ctx()).unwrap(), Vec::<u64>::new());
    assert_eq!(strongly_connected_components(&prepared(&empty), &ctx()).unwrap(), Vec::<u64>::new());
}

#[test]
fn bfs_rejects_unknown_source_and_respects_budget() {
    let g = graph(3, true, &[(0, 1)]);
    assert!(matches!(bfs(&g, NodeId(3), &ctx()), Err(Error::InvalidNode(3))));
    assert!(matches!(bfs(&g, NodeId(0), &ExecutionContext::new(10)), Err(Error::MemoryLimit { .. })));
    assert_eq!(bfs(&g, NodeId(2), &ctx()).unwrap(), vec![None, None, Some(0)]);
}

#[test]
fn bfs_takes_shortest_hops_over_longer_paths() {
    let g = graph(6, true, &[(0, 1), (1, 2), (2, 3), (3, 4), (0, 4), (4, 5)]);
    assert_eq!(bfs(&g, NodeId(0), &ctx()).unwrap(), vec![Some(0), Some(1), Some(2), Some(3), Some(1), Some(2)]);
}

#[test]
fn degrees_count_both_directions() {
    let g = prepared(&graph(3, true, &[(0, 1), (0, 2), (1, 2)]));
    assert_eq!(degrees(&g, false, &ctx()).unwrap(), vec![2, 1, 0]);
    assert_eq!(degrees(&g, true, &ctx()).unwrap(), vec![0, 1, 2]);
    let u = graph(3, false, &[(0, 1), (1, 1)]);
    assert_eq!(degrees(&u, true, &ctx()).unwrap(), vec![1, 2, 0]);
}

#[test]
fn undirected_components_label_by_smallest_vertex() {
    let g = graph(6, false, &[(5, 3), (3, 1), (2, 4)]);
    assert_eq!(connected_components(&g, &ctx()).unwrap(), vec![0, 1, 2, 1, 2, 1]);
    let c = ctx();
    c.cancel();
    assert!(matches!(connected_components(&g, &c), Err(Error::Cancelled)));
}

#[test]
fn strong_components_follow_mutual_reachability() {
    // Two cycles joined one way, a self-loop, and a chain.
    let g = prepared(&graph(8, true, &[(1, 3), (3, 5), (5, 1), (5, 0), (0, 2), (2, 0), (4, 4), (6, 7)]));
    assert_eq!(strongly_connected_components(&g, &ctx()).unwrap(), vec![0, 1, 0, 1, 4, 1, 6, 7]);
    assert_eq!(weakly_connected_components(&g, &ctx()).unwrap(), vec![0, 0, 0, 0, 4, 0, 6, 6]);
}

fn reach(n: usize, edges: &[(u64, u64)]) -> Vec<Vec<bool>> {
    let mut r = vec![vec![false; n]; n];
    for i in 0..n {
        r[i][i] = true;
    }
    for &(a, b) in edges {
        r[a as usize][b as usize] = true;
    }
    for k in 0..n {
        for i in 0..n {
            for j in 0..n {
                if r[i][k] && r[k][j] {
                    r[i][j] = true;
                }
            }
        }
    }
    r
}

#[test]
fn random_reachability_matches_floyd_warshall() {
    let mut seed: u64 = 0x2545F4914F6CDD1D;
    for round in 0..60 {
        let n = 1 + round % 11;
        let mut pairs = std::collections::BTreeSet::new();
        for _ in 0..(round % 40) {
            seed ^= seed << 13;
            seed ^= seed >> 7;
            seed ^= seed << 17;
            let a = seed % n as u64;
            let b = (seed >> 20) % n as u64;
            pairs.insert((a, b));
        }
        let edges: Vec<(u64, u64)> = pairs.into_iter().collect();
        let g = prepared(&graph(n, true, &edges));
        let r = reach(n, &edges);
        let labels = strongly_connected_components(&g, &ctx()).unwrap();
        for u in 0..n {
            let d = bfs(&g, NodeId(u as u64), &ctx()).unwrap();
            for v in 0..n {
                assert_eq!(d[v].is_some(), r[u][v]);
                assert_eq!(labels[u] == labels[v], r[u][v] && r[v][u]);
            }
            assert!(labels[u] as usize <= u);
        }
    }
}

#[test]
fn kernels_run_over_raw_rows_with_parallel_slots() {
    // Rows need not be sorted or unique for the kernels: 0 -> 1 twice, 1 -> 0.
    let offsets = [0u64, 2, 3];
    let targets = [1u64, 1, 0];
    assert_eq!(hop_search(&offsets, &targets, 1, &ctx()).unwrap(), vec![Some(1), Some(0)]);
    let in_offsets = [0u64, 1, 3];
    let in_targets = [1u64, 0, 0];
    assert_eq!(kosaraju_labels(&offsets, &targets, &in_offsets, &in_targets, &ctx()).unwrap(), vec![0, 0]);
}

#[test]
fn directed_graphs_are_refused_plain_components() {
    let g = graph(3, true, &[(0, 1)]);
    assert!(matches!(connected_components(&g, &ctx()), Err(Error::InvalidOption(_))));
    let u = graph(3, false, &[(0, 1)]);
    assert_eq!(connected_components(&u, &ctx()).unwrap(), vec![0, 0, 2]);
    let small = ExecutionContext::new(3 * 24 - 1);
    assert!(matches!(connected_components(&u, &small), Err(Error::MemoryLimit { .. })));
    assert_eq!(connected_components(&u, &ExecutionContext::new(3 * 24)).unwrap(), vec![0, 0, 2]);
}

#[test]
fn parent_links_give_source_first_paths() {
    // 0 -> 1 -> 3, 0 -> 2; vertex 4 unreached (points at itself), 5 points out of range.
    let parents = [0u64, 0, 0, 1, 4, 9];
    assert_eq!(parent_path(&parents, 0, 3), Some(vec![0, 1, 3]));
    assert_eq!(parent_path(&parents, 0, 2), Some(vec![0, 2]));
    assert_eq!(parent_path(&parents, 0, 0), Some(vec![0]));
    assert_eq!(parent_path(&parents, 0, 4), None);
    assert_eq!(parent_path(&parents, 0, 5), None);
}
