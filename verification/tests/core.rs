use icecat::builder::build;
use icecat::keys::{graph_from_tables, KeyColumn, NodeIndex};
use icecat::{bytes_for, from_edges, CsrAdjacency, Edge, Error, ExecutionContext, Graph, InducedView, NodeId};

fn csr(n: usize, indices: Vec<u64>, offsets: Vec<u64>) -> Result<CsrAdjacency, Error> {
    CsrAdjacency::try_new(n, indices, offsets, false)
}

fn edge(source: u64, target: u64) -> Edge {
    Edge { source, target }
}

#[test]
fn rejects_invalid_csr() {
    for (n, indices, offsets) in [
        (1, vec![], vec![0]),
        (2, vec![0], vec![0, 2, 1]),
        (1, vec![0], vec![1, 1]),
        (1, vec![1], vec![0, 1]),
        (2, vec![1, 0], vec![0, 2, 2]),
        (2, vec![1, 1], vec![0, 2, 2]),
        (1, vec![0], vec![0, 0]),
    ] {
        assert!(csr(n, indices, offsets).is_err());
    }
    assert!(csr(2, vec![1, 0], vec![0, 1, 2]).is_ok());
}

#[test]
fn loops_empty_weighted_and_incoming_capabilities() {
    let graph = from_edges(2, false, true, &[edge(0, 0), edge(0, 1)]).unwrap();
    assert_eq!(
        (graph.edge_count(), graph.self_loop_count(), graph.outgoing().slot_count()),
        (2, 1, 3)
    );
    let empty = from_edges(0, true, true, &[]).unwrap();
    assert!(empty.is_weighted());
    assert!(matches!(empty.incoming(), Err(Error::MissingIncoming)));
    let (prepared, _) = empty.prepare_incoming(&ExecutionContext::default()).unwrap();
    assert_eq!(prepared.incoming().unwrap().slot_count(), 0);
    assert!(Graph::try_new(false, csr(2, vec![1], vec![0, 1, 1]).unwrap(), None).is_err());
    assert!(Graph::try_new(
        true,
        csr(2, vec![1], vec![0, 1, 1]).unwrap(),
        Some(csr(2, vec![1], vec![0, 1, 1]).unwrap())
    )
    .is_err());
}

#[test]
fn reservations_cancel_and_follow_prepared_graph_lifetime() {
    let graph = from_edges(2, true, false, &[edge(0, 1)]).unwrap();
    let small = ExecutionContext::new(1);
    assert!(matches!(graph.prepare_incoming(&small), Err(Error::MemoryLimit { .. })));
    assert_eq!(small.reserved_bytes(), 0);
    let ctx = ExecutionContext::new(1000);
    let (prepared, _) = graph.prepare_incoming(&ctx).unwrap();
    assert_eq!(ctx.reserved_bytes(), 32);
    let clone = prepared.clone();
    drop(prepared);
    assert_eq!(ctx.reserved_bytes(), 32);
    drop(clone);
    assert_eq!(ctx.reserved_bytes(), 0);
    ctx.cancel();
    assert!(matches!(graph.prepare_incoming(&ctx), Err(Error::Cancelled)));
}

fn text(values: &[&str]) -> KeyColumn {
    KeyColumn::Text(values.iter().map(|s| Some(s.to_string())).collect())
}

#[test]
fn table_properties_follow_slots_and_views() {
    let ctx = ExecutionContext::default();
    let index = NodeIndex::build(text(&["b", "a", "isolated"]), &ctx).unwrap();
    let graph = graph_from_tables(&index, &text(&["a", "b"]), &text(&["a", "a"]), false, true, &ctx).unwrap();
    assert_eq!(graph.slot_edge_ids().unwrap(), &[1, 1, 0]);
    assert_eq!(graph.node_property_rows(), Some(3));
    assert_eq!(graph.edge_property_rows(), Some(2));
    let view = InducedView::new(graph.clone(), vec![2, 1, 1]).unwrap();
    drop(graph);
    let materialized = view.materialize().unwrap();
    assert_eq!((materialized.graph.node_count(), materialized.graph.edge_count()), (2, 1));
    assert_eq!(materialized.property_rows.clone().unwrap(), vec![0]);
    assert_eq!(view.neighbors(NodeId(0)).unwrap(), vec![0]);
}

#[test]
fn node_keys_reject_nulls_duplicates_and_unknown_endpoints() {
    let ctx = ExecutionContext::default();
    assert!(matches!(
        NodeIndex::build(KeyColumn::Unsigned(vec![Some(1), None]), &ctx),
        Err(Error::InvalidGraph(_))
    ));
    assert!(matches!(
        NodeIndex::build(KeyColumn::Signed(vec![Some(-1), Some(3), Some(-1)]), &ctx),
        Err(Error::InvalidGraph(_))
    ));
    assert!(matches!(NodeIndex::build(KeyColumn::Unsupported(2), &ctx), Err(Error::InvalidGraph(_))));
    assert!(NodeIndex::build(KeyColumn::Unsupported(0), &ctx).is_ok());
    let index = NodeIndex::build(KeyColumn::Signed(vec![Some(-5), Some(7), Some(100)]), &ctx).unwrap();
    assert_eq!(index.node_count(), 3);
    let edges = index
        .resolve(&KeyColumn::Signed(vec![Some(7), Some(100)]), &KeyColumn::Signed(vec![Some(-5), Some(7)]), &ctx)
        .unwrap();
    assert_eq!(edges, vec![edge(1, 0), edge(2, 1)]);
    assert!(index
        .resolve(&KeyColumn::Signed(vec![Some(8)]), &KeyColumn::Signed(vec![Some(7)]), &ctx)
        .is_err());
    assert!(index
        .resolve(&KeyColumn::Unsigned(vec![Some(7)]), &KeyColumn::Unsigned(vec![Some(7)]), &ctx)
        .is_err());
    let cancelled = ExecutionContext::default();
    cancelled.cancel();
    assert!(matches!(
        NodeIndex::build(KeyColumn::Unsigned(vec![Some(1)]), &cancelled),
        Err(Error::Cancelled)
    ));
}

#[test]
fn tables_build_directed_graph_over_external_ids() {
    let ctx = ExecutionContext::default();
    let index = NodeIndex::build(KeyColumn::Unsigned(vec![Some(100), Some(200), Some(300)]), &ctx).unwrap();
    let graph = graph_from_tables(
        &index,
        &KeyColumn::Unsigned(vec![Some(100), Some(200)]),
        &KeyColumn::Unsigned(vec![Some(200), Some(100)]),
        true,
        false,
        &ctx,
    )
    .unwrap();
    assert_eq!(graph.node_count(), 3);
    assert_eq!(graph.edge_count(), 2);
    assert!(graph.has_edge(NodeId(0), NodeId(1)).unwrap());
    assert!(graph.has_edge(NodeId(1), NodeId(0)).unwrap());
    assert!(!graph.has_edge(NodeId(2), NodeId(0)).unwrap());
    let duplicate = graph_from_tables(
        &index,
        &KeyColumn::Unsigned(vec![Some(100), Some(100)]),
        &KeyColumn::Unsigned(vec![Some(200), Some(200)]),
        true,
        false,
        &ctx,
    );
    assert!(matches!(duplicate, Err(Error::InvalidGraph(_))));
}

#[test]
fn builder_reports_slot_edges_and_rejects_bad_input() {
    let (graph, ids) = build(3, true, false, &[edge(2, 0), edge(0, 1), edge(0, 2)]).unwrap();
    assert_eq!(graph.outgoing().offsets(), &[0, 2, 2, 3]);
    assert_eq!(graph.outgoing().targets(), &[1, 2, 0]);
    assert_eq!(ids, vec![1, 2, 0]);
    assert!(matches!(build(2, true, false, &[edge(0, 2)]), Err(Error::InvalidGraph(_))));
    assert!(matches!(build(2, false, false, &[edge(0, 1), edge(1, 0)]), Err(Error::InvalidGraph(_))));
    assert!(build(2, true, false, &[edge(0, 1), edge(1, 0)]).is_ok());
}

#[test]
fn csr_lookup_and_ranges() {
    let adj = csr(3, vec![1, 2, 0], vec![0, 2, 2, 3]).unwrap();
    assert_eq!(adj.node_count(), 3);
    assert_eq!(adj.range(NodeId(0)).unwrap(), 0..2);
    assert_eq!(adj.neighbors(NodeId(2)).unwrap(), &[0]);
    assert!(matches!(adj.neighbors(NodeId(3)), Err(Error::InvalidNode(3))));
    assert_eq!(adj.slot(0, 2), Some(1));
    assert_eq!(adj.slot(1, 0), None);
    assert!(matches!(csr(usize::MAX, vec![], vec![]), Err(Error::Overflow)));
}

#[test]
fn prepared_incoming_is_the_transpose() {
    let graph = from_edges(4, true, false, &[edge(0, 1), edge(0, 3), edge(2, 1), edge(3, 3)]).unwrap();
    let (prepared, order) = graph.prepare_incoming(&ExecutionContext::default()).unwrap();
    let incoming = prepared.incoming().unwrap();
    for u in 0..4u64 {
        for v in 0..4u64 {
            assert_eq!(
                graph.has_edge(NodeId(u), NodeId(v)).unwrap(),
                incoming.neighbors(NodeId(v)).unwrap().contains(&u)
            );
        }
    }
    assert_eq!(incoming.neighbors(NodeId(1)).unwrap(), &[0, 2]);
    assert_eq!(order.unwrap().len(), 4);
}

#[test]
fn execution_budget_and_cancellation() {
    assert!(matches!(bytes_for(usize::MAX, 2), Err(Error::Overflow)));
    assert_eq!(bytes_for(4, 8).unwrap(), 32);
    let ctx = ExecutionContext::new(100);
    let first = ctx.reserve(60).unwrap();
    assert_eq!(ctx.reserved_bytes(), 60);
    match ctx.reserve(50) {
        Err(Error::MemoryLimit { requested, available }) => assert_eq!((requested, available), (50, 40)),
        Err(other) => panic!("unexpected {other:?}"),
        Ok(_) => panic!("reservation over the budget succeeded"),
    }
    drop(first);
    assert_eq!(ctx.reserved_bytes(), 0);
    assert_eq!(ctx.peak_bytes(), 60);
    assert!(ctx.check().is_ok());
    let shared = ctx.clone();
    shared.cancel();
    assert!(matches!(ctx.check(), Err(Error::Cancelled)));
    assert!(matches!(ctx.check(), Err(Error::Cancelled)));
}

#[test]
fn induced_view_rows_match_materialized_graph() {
    let edges = [edge(0, 2), edge(2, 4), edge(4, 0), edge(1, 2), edge(2, 2)];
    let graph = from_edges(5, true, false, &edges).unwrap();
    let view = InducedView::new(graph, vec![4, 2, 0]).unwrap();
    assert_eq!(view.members(), &[0, 2, 4]);
    let compact = view.materialize().unwrap();
    for u in 0..3u64 {
        assert_eq!(view.neighbors(NodeId(u)).unwrap(), compact.graph.outgoing().neighbors(NodeId(u)).unwrap());
    }
    assert!(matches!(InducedView::new(from_edges(2, true, false, &[]).unwrap(), vec![5]), Err(Error::InvalidNode(5))));
}

#[test]
fn properties_require_matching_counts() {
    let graph = from_edges(3, true, false, &[edge(0, 1), edge(1, 2)]).unwrap();
    assert!(graph.with_properties(Some(3), None, None).is_ok());
    assert!(matches!(graph.with_properties(Some(2), None, None), Err(Error::InvalidGraph(_))));
    assert!(matches!(graph.with_properties(None, Some(2), None), Err(Error::InvalidGraph(_))));
    let with = graph.with_properties(Some(3), Some(2), Some(vec![1, 0])).unwrap();
    assert_eq!(with.slot_edge_ids().unwrap(), &[1, 0]);
}

#[test]
fn undirected_edges_count_once_and_loops_use_one_slot() {
    let graph = from_edges(3, false, false, &[edge(1, 1), edge(0, 2), edge(2, 1)]).unwrap();
    assert_eq!(
        (graph.edge_count(), graph.self_loop_count(), graph.outgoing().slot_count()),
        (3, 1, 5)
    );
    let (directed, ids) = build(3, true, false, &[edge(1, 1), edge(0, 2), edge(2, 1)]).unwrap();
    assert_eq!((directed.edge_count(), directed.self_loop_count()), (3, 1));
    assert_eq!(ids, vec![1, 0, 2]);
}

#[test]
fn undirected_tables_keep_one_property_row_per_edge() {
    let ctx = ExecutionContext::default();
    let index = NodeIndex::build(text(&["x", "y", "z"]), &ctx).unwrap();
    let graph = graph_from_tables(&index, &text(&["x", "y", "z"]), &text(&["y", "y", "x"]), false, false, &ctx).unwrap();
    assert_eq!(graph.edge_count(), 3);
    assert_eq!(graph.self_loop_count(), 1);
    assert_eq!(graph.edge_property_rows(), Some(3));
    assert_eq!(graph.slot_edge_ids().unwrap(), &[0, 2, 0, 1, 2]);
    let duplicate = graph_from_tables(&index, &text(&["x", "y"]), &text(&["y", "x"]), false, false, &ctx);
    assert!(matches!(duplicate, Err(Error::InvalidGraph(_))));
    assert!(graph_from_tables(&index, &text(&["x", "y"]), &text(&["y", "x"]), true, false, &ctx).is_ok());
}

#[test]
fn materialized_undirected_view_keeps_edge_rows() {
    let graph = from_edges(4, false, false, &[edge(0, 1), edge(1, 2), edge(2, 2), edge(2, 3)]).unwrap();
    let view = InducedView::new(graph, vec![2, 1]).unwrap();
    let compact = view.materialize().unwrap();
    assert_eq!(compact.graph.node_count(), 2);
    assert_eq!((compact.graph.edge_count(), compact.graph.self_loop_count()), (2, 1));
    assert_eq!(compact.edges, vec![edge(0, 1), edge(1, 1)]);
    assert_eq!(compact.edge_base_slots.len(), 2);
}

#[test]
fn rebuilt_topology_matches_its_source_graph() {
    let graph = from_edges(3, false, false, &[edge(0, 0), edge(0, 1), edge(1, 2)]).unwrap();
    let out = graph.outgoing();
    let rebuilt = Graph::try_new(
        false,
        CsrAdjacency::try_new(3, out.targets().to_vec(), out.offsets().to_vec(), false).unwrap(),
        None,
    )
    .unwrap();
    assert_eq!(
        (rebuilt.edge_count(), rebuilt.self_loop_count(), rebuilt.node_count()),
        (graph.edge_count(), graph.self_loop_count(), graph.node_count())
    );
    assert_eq!(rebuilt.outgoing().targets(), graph.outgoing().targets());
}

#[test]
fn duplicates_are_refused_before_size_overflow() {
    let repeated = [edge(0, 1), edge(0, 1)];
    assert!(matches!(build(usize::MAX, true, false, &repeated), Err(Error::InvalidGraph(_))));
    assert!(matches!(from_edges(usize::MAX, false, false, &[edge(0, 1), edge(1, 0)]), Err(Error::InvalidGraph(_))));
    assert!(matches!(from_edges(usize::MAX, true, false, &[edge(0, 1), edge(1, 0)]), Err(Error::Overflow)));
}

#[test]
fn prepared_graphs_come_back_unchanged_and_charge_the_limit() {
    let graph = from_edges(2, true, false, &[edge(0, 1)]).unwrap();
    let ctx = ExecutionContext::new(1000);
    let (prepared, order) = graph.prepare_incoming(&ctx).unwrap();
    assert_eq!(order, Some(vec![0]));
    let (again, none) = prepared.prepare_incoming(&ExecutionContext::new(0)).unwrap();
    assert!(none.is_none());
    assert_eq!(again.incoming().unwrap().targets(), &[0]);
    // 32 bytes are kept and 16 bytes of scratch are held at the same time.
    assert!(matches!(graph.prepare_incoming(&ExecutionContext::new(31)), Err(Error::MemoryLimit { .. })));
    assert!(matches!(graph.prepare_incoming(&ExecutionContext::new(47)), Err(Error::MemoryLimit { .. })));
    assert!(graph.prepare_incoming(&ExecutionContext::new(48)).is_ok());
}
