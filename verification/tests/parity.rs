use icecat::grustcat::Adjacency;
use icecat::{Error, ExecutionContext, GrustcatGraph};

#[test]
fn packed_adjacency_preserves_parallel_edges_and_row_identity() {
    // Nodes "z", "a", "isolated"; edges reverse a->z, expensive z->a, cheap z->a.
    let g = GrustcatGraph::new(3, &[(1, 0), (0, 1), (0, 1)], false);
    let ctx = ExecutionContext::default();
    assert_eq!(g.node_count(), 3);
    assert_eq!(g.outgoing().neighbors(0), &[1, 1]);
    assert_eq!(g.outgoing().slot_edges(), &[1, 2, 0]);
    assert_eq!(g.incoming().neighbors(1), &[0, 0]);
    assert_eq!(g.incoming().slot_edges(), &[0, 1, 2]);
    let bfs = g.bfs(0, &ctx).unwrap();
    assert_eq!(bfs[1], Some(1));
    assert_eq!(bfs[2], None);
    for labels in [g.weakly_connected_components(&ctx), g.strongly_connected_components(&ctx)] {
        assert_eq!(labels.unwrap(), vec![0, 0, 2]);
    }
}

#[test]
fn cancellation_and_overflow_still_fail() {
    let ctx = ExecutionContext::default();
    ctx.cancel();
    let empty = GrustcatGraph::new(0, &[], false);
    assert!(empty.weakly_connected_components(&ctx).is_err());
    assert!(empty.strongly_connected_components(&ctx).is_err());
    let g = GrustcatGraph::new(3, &[(0, 1), (1, 2)], false);
    assert!(matches!(g.bfs(0, &ctx), Err(Error::Cancelled)));
    assert!(matches!(g.bfs(3, &ExecutionContext::default()), Err(Error::InvalidNode(3))));
}

#[test]
fn pair_groups_slots_by_row_in_edge_order() {
    let (out, inc) = Adjacency::pair(4, &[(2, 3), (0, 1), (2, 0), (0, 1), (3, 3)]);
    assert_eq!(out.offsets(), &[0, 2, 2, 4, 5]);
    assert_eq!(out.targets(), &[1, 1, 3, 0, 3]);
    assert_eq!(out.slot_edges(), &[1, 3, 0, 2, 4]);
    assert_eq!(inc.offsets(), &[0, 1, 3, 3, 5]);
    assert_eq!(inc.targets(), &[2, 0, 0, 2, 3]);
    assert_eq!(inc.slot_edges(), &[2, 1, 3, 0, 4]);
    assert_eq!(out.range(2), 2..4);
    assert_eq!(out.node_count(), 4);
}

#[test]
fn grustcat_components_match_expected_labels() {
    let g = GrustcatGraph::new(6, &[(3, 1), (1, 3), (4, 5), (2, 2)], true);
    assert!(g.has_negative_weights());
    let ctx = ExecutionContext::default();
    assert_eq!(g.weakly_connected_components(&ctx).unwrap(), vec![0, 1, 2, 1, 4, 4]);
    assert_eq!(g.strongly_connected_components(&ctx).unwrap(), vec![0, 1, 2, 1, 4, 5]);
    assert_eq!(g.bfs(3, &ctx).unwrap(), vec![None, Some(1), None, Some(0), None, None]);
    assert!(g.check_source(5).is_ok());
    assert!(g.check_source(6).is_err());
}

#[test]
fn shared_layout_names_property_columns() {
    assert_eq!(icecat::grustcat::property_column("weight"), "property.weight");
    assert_eq!(icecat::grustcat::property_column(""), "property.");
}

#[test]
fn projection_and_csr_graph_agree_on_every_kernel() {
    let pairs = [(0usize, 1usize), (1, 2), (2, 0), (2, 3), (4, 3), (5, 5)];
    let projection = GrustcatGraph::new(6, &pairs, false);
    let edges: Vec<icecat::Edge> =
        pairs.iter().map(|&(s, t)| icecat::Edge { source: s as u64, target: t as u64 }).collect();
    let csr = icecat::from_edges(6, true, false, &edges).unwrap();
    let ctx = ExecutionContext::default();
    let (csr, _) = csr.prepare_incoming(&ctx).unwrap();
    for s in 0..6 {
        assert_eq!(projection.bfs(s, &ctx).unwrap(), icecat::bfs(&csr, icecat::NodeId(s as u64), &ctx).unwrap());
    }
    assert_eq!(
        projection.weakly_connected_components(&ctx).unwrap(),
        icecat::weakly_connected_components(&csr, &ctx).unwrap()
    );
    assert_eq!(
        projection.strongly_connected_components(&ctx).unwrap(),
        icecat::strongly_connected_components(&csr, &ctx).unwrap()
    );
    assert_eq!(projection.strongly_connected_components(&ctx).unwrap(), vec![0, 0, 0, 3, 4, 5]);
}

#[test]
fn negative_and_empty_graphs() {
    let ctx = ExecutionContext::default();
    let empty = GrustcatGraph::new(0, &[], false);
    assert_eq!(empty.node_count(), 0);
    assert!(matches!(empty.bfs(0, &ctx), Err(Error::InvalidNode(0))));
    assert_eq!(empty.weakly_connected_components(&ctx).unwrap(), Vec::<u64>::new());
    let negative = GrustcatGraph::new(3, &[(1, 2)], true);
    assert!(negative.has_negative_weights());
    assert!(negative.check_source(0).is_ok());
}
