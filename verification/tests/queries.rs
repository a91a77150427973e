use icecat::cypher::{
    source, Algorithm, BinaryOp, Call, Clause, ExecuteError, Expr, Outcome, PathTotals, Projection, ProjectionItem,
    Query, QueryError, QueryPart, Source, Unwind, Yield,
};
use icecat::{ExecutionContext, GrustcatGraph, PreparedQuery};

fn var(name: &str) -> Expr {
    Expr::Variable(name.to_string())
}

fn func(name: &str, args: Vec<Expr>) -> Expr {
    Expr::Function { name: name.to_string(), distinct: false, star: false, args }
}

fn item(expr: Expr, alias: Option<&str>) -> ProjectionItem {
    ProjectionItem { expr, alias: alias.map(|a| a.to_string()) }
}

fn projection(items: Vec<ProjectionItem>) -> Projection {
    Projection { star: false, distinct: false, has_order_by: false, has_skip: false, has_limit: false, items }
}

fn call(name: &str, args: Vec<Expr>, yields: &[(&str, Option<&str>)]) -> Call {
    Call {
        name: name.to_string(),
        args,
        yields: yields.iter().map(|(f, a)| Yield { field: f.to_string(), alias: a.map(|a| a.to_string()) }).collect(),
        has_where: false,
    }
}

fn query(clauses: Vec<Clause>) -> Query {
    Query { parts: vec![QueryPart { clauses, has_union: false }] }
}

/// `CALL grustcat.wcc() YIELD node_id RETURN node_id`
fn wcc_query() -> Query {
    query(vec![
        Clause::Call(call("grustcat.wcc", vec![], &[("node_id", None)])),
        Clause::Return(projection(vec![item(var("node_id"), None)])),
    ])
}

/// `CALL grustcat.fullPaths($source) YIELD nodeIds,costs UNWIND range(0,size(nodeIds)-1) AS i
///  RETURN count(*) AS entries,sum(nodeIds[i]) AS nodes,sum(costs[i]) AS costs`
fn full_query(start: Expr, size_of: &str, index: Expr, count: Expr) -> Query {
    let range = func(
        "range",
        vec![
            start,
            Expr::Binary {
                op: BinaryOp::Subtract,
                lhs: Box::new(func("size", vec![var(size_of)])),
                rhs: Box::new(Expr::Integer(1)),
            },
        ],
    );
    let sum = |array: &str, index: Expr| {
        func("sum", vec![Expr::Index { base: Box::new(var(array)), index: Box::new(index) }])
    };
    query(vec![
        Clause::Call(call(
            "grustcat.fullPaths",
            vec![Expr::Parameter("source".to_string())],
            &[("nodeIds", None), ("costs", None)],
        )),
        Clause::Unwind(Unwind { expr: range, alias: "i".to_string() }),
        Clause::Return(projection(vec![
            item(count, Some("entries")),
            item(sum("nodeIds", index), Some("nodes")),
            item(sum("costs", var("i")), Some("costs")),
        ])),
    ])
}

fn count_star() -> Expr {
    Expr::Function { name: "count".to_string(), distinct: false, star: true, args: vec![] }
}

fn full() -> Query {
    full_query(Expr::Integer(0), "nodeIds", var("i"), count_star())
}

fn graph() -> GrustcatGraph {
    GrustcatGraph::new(5, &[(0, 1), (1, 0), (0, 2), (1, 2), (2, 3), (0, 3)], false)
}

#[test]
fn rejects_unsupported_or_unbound_query_parts() {
    let mut rejected = Vec::new();
    // CALL gds.wcc() YIELD node_id RETURN node_id
    let mut q = wcc_query();
    if let Clause::Call(c) = &mut q.parts[0].clauses[0] {
        c.name = "gds.wcc".to_string();
    }
    rejected.push((q, QueryError::Unsupported));
    // CALL grustcat.wcc(1) YIELD node_id RETURN node_id
    let mut q = wcc_query();
    if let Clause::Call(c) = &mut q.parts[0].clauses[0] {
        c.args = vec![Expr::Integer(1)];
    }
    rejected.push((q, QueryError::Unsupported));
    // CALL grustcat.wcc() YIELD nonexistent RETURN nonexistent
    rejected.push((
        query(vec![
            Clause::Call(call("grustcat.wcc", vec![], &[("nonexistent", None)])),
            Clause::Return(projection(vec![item(var("nonexistent"), None)])),
        ]),
        QueryError::UnknownYieldField("nonexistent".to_string()),
    ));
    // CALL grustcat.wcc() YIELD node_id RETURN absent
    rejected.push((
        query(vec![
            Clause::Call(call("grustcat.wcc", vec![], &[("node_id", None)])),
            Clause::Return(projection(vec![item(var("absent"), None)])),
        ]),
        QueryError::UnboundReturnVariable("absent".to_string()),
    ));
    // ... WHERE node_id > 1 ...
    let mut q = wcc_query();
    if let Clause::Call(c) = &mut q.parts[0].clauses[0] {
        c.has_where = true;
    }
    rejected.push((q, QueryError::Unsupported));
    // ... RETURN node_id LIMIT 1
    let mut q = wcc_query();
    if let Clause::Return(p) = &mut q.parts[0].clauses[1] {
        p.has_limit = true;
    }
    rejected.push((q, QueryError::Unsupported));
    // ... RETURN DISTINCT node_id
    let mut q = wcc_query();
    if let Clause::Return(p) = &mut q.parts[0].clauses[1] {
        p.distinct = true;
    }
    rejected.push((q, QueryError::Unsupported));
    // ... RETURN node_id AS x,node_id AS x
    rejected.push((
        query(vec![
            Clause::Call(call("grustcat.wcc", vec![], &[("node_id", None)])),
            Clause::Return(projection(vec![item(var("node_id"), Some("x")), item(var("node_id"), Some("x"))])),
        ]),
        QueryError::DuplicateOutputName,
    ));
    // ... UNION RETURN 1 AS node_id
    let mut q = wcc_query();
    q.parts[0].has_union = true;
    q.parts.push(QueryPart { clauses: vec![Clause::Other], has_union: false });
    rejected.push((q, QueryError::Unsupported));
    // CALL grustcat.dijkstra(0+1) YIELD distance RETURN distance
    rejected.push((
        query(vec![
            Clause::Call(call(
                "grustcat.dijkstra",
                vec![Expr::Binary { op: BinaryOp::Other, lhs: Box::new(Expr::Integer(0)), rhs: Box::new(Expr::Integer(1)) }],
                &[("distance", None)],
            )),
            Clause::Return(projection(vec![item(var("distance"), None)])),
        ]),
        QueryError::SourceNotIntegerOrParameter,
    ));
    // MATCH (n) RETURN n ; CREATE (n)
    rejected.push((query(vec![Clause::Other, Clause::Return(projection(vec![item(var("n"), None)]))]), QueryError::Unsupported));
    rejected.push((query(vec![Clause::Other]), QueryError::Unsupported));
    for (q, expected) in rejected {
        let got = PreparedQuery::parse(&q).unwrap_err();
        assert_eq!(format!("{got:?}"), format!("{expected:?}"), "{q:?}");
    }
    for q in [
        full_query(Expr::Integer(1), "nodeIds", var("i"), count_star()),
        full_query(Expr::Integer(0), "nodeIds", Expr::Integer(0), count_star()),
        full_query(
            Expr::Integer(0),
            "nodeIds",
            var("i"),
            Expr::Function { name: "count".to_string(), distinct: true, star: false, args: vec![var("i")] },
        ),
        full_query(Expr::Integer(0), "costs", var("i"), count_star()),
    ] {
        assert!(PreparedQuery::parse(&q).is_err(), "{q:?}");
    }
    assert!(PreparedQuery::parse(&full()).is_ok());
}

#[test]
fn algorithms_and_parameter_rebinding_match_direct_kernels() {
    let graph = graph();
    let ctx = ExecutionContext::default();
    for (name, field) in [("bfs", "distance"), ("dijkstra", "distance"), ("wcc", "component_id"), ("scc", "component_id"), ("pagerank", "score")] {
        let args = if name == "bfs" || name == "dijkstra" { vec![Expr::Parameter("source".to_string())] } else { vec![] };
        let q = query(vec![
            Clause::Call(call(&format!("grustcat.{name}"), args, &[("node_id", Some("n")), (field, Some("v"))])),
            Clause::Return(projection(vec![item(var("v"), Some("value")), item(var("n"), Some("id"))])),
        ]);
        let plan = PreparedQuery::parse(&q).unwrap();
        assert_eq!(plan.columns(), &[(1, "value".to_string()), (0, "id".to_string())]);
        for start in [0i64, 2, 4] {
            let outcome = plan.execute(&graph, Some(start), &ctx).unwrap();
            match (name, outcome) {
                ("bfs", Outcome::Distances(d)) => assert_eq!(d, graph.bfs(start as usize, &ctx).unwrap()),
                ("wcc", Outcome::Labels(l)) => assert_eq!(l, graph.weakly_connected_components(&ctx).unwrap()),
                ("scc", Outcome::Labels(l)) => assert_eq!(l, graph.strongly_connected_components(&ctx).unwrap()),
                ("dijkstra", Outcome::Weighted(Algorithm::Dijkstra, s)) => assert_eq!(s, Some(start as usize)),
                ("pagerank", Outcome::Weighted(Algorithm::PageRank, s)) => assert_eq!(s, None),
                (n, o) => panic!("{n} gave {o:?}"),
            }
        }
    }
}

#[test]
fn aliases_comments_cancellation_and_errors() {
    let graph = graph();
    let ctx = ExecutionContext::default();
    // CALL grustcat.fullPaths(0) YIELD costs AS c,nodeIds AS n UNWIND range(0,size(n)-1) AS j
    // RETURN sum(c[j]) AS total, count(*) AS entries,sum(n[j]) AS nodes
    let range = func(
        "RANGE",
        vec![
            Expr::Integer(0),
            Expr::Binary {
                op: BinaryOp::Subtract,
                lhs: Box::new(func("Size", vec![var("n")])),
                rhs: Box::new(Expr::Integer(1)),
            },
        ],
    );
    let sum = |array: &str| func("SUM", vec![Expr::Index { base: Box::new(var(array)), index: Box::new(var("j")) }]);
    let q = query(vec![
        Clause::Call(call("GRUSTCAT.FULLPATHS", vec![Expr::Integer(0)], &[("costs", Some("c")), ("nodeIds", Some("n"))])),
        Clause::Unwind(Unwind { expr: range, alias: "j".to_string() }),
        Clause::Return(projection(vec![
            item(sum("c"), Some("total")),
            item(count_star(), Some("entries")),
            item(sum("n"), Some("nodes")),
        ])),
    ]);
    let plan = PreparedQuery::parse(&q).unwrap();
    assert_eq!(plan.algorithm(), Algorithm::FullPaths);
    assert_eq!(plan.columns(), &[(2, "total".to_string()), (0, "entries".to_string()), (1, "nodes".to_string())]);
    assert!(matches!(plan.execute(&graph, None, &ctx), Ok(Outcome::Weighted(Algorithm::FullPaths, Some(0)))));
    let full = PreparedQuery::parse(&full()).unwrap();
    for value in [Some(-1i64), None] {
        assert!(full.execute(&graph, value, &ctx).is_err());
    }
    assert!(matches!(full.execute(&graph, None, &ctx), Err(ExecuteError::ParameterNotInteger(name)) if name == "source"));
    ctx.cancel();
    assert!(matches!(plan.execute(&graph, None, &ctx), Err(ExecuteError::Engine(icecat::Error::Cancelled))));
}

#[test]
fn unused_aggregates_do_not_introduce_overflow_errors() {
    // RETURN count(*) AS entries only: node-ID sums are never formed.
    let count_only = query(vec![
        Clause::Call(call("grustcat.fullPaths", vec![Expr::Integer(0)], &[("nodeIds", None), ("costs", None)])),
        Clause::Unwind(Unwind {
            expr: func(
                "range",
                vec![
                    Expr::Integer(0),
                    Expr::Binary {
                        op: BinaryOp::Subtract,
                        lhs: Box::new(func("size", vec![var("nodeIds")])),
                        rhs: Box::new(Expr::Integer(1)),
                    },
                ],
            ),
            alias: "i".to_string(),
        }),
        Clause::Return(projection(vec![item(count_star(), Some("entries"))])),
    ]);
    let plan = PreparedQuery::parse(&count_only).unwrap();
    let mut totals = PathTotals::new(&plan);
    for path in [vec![0u64], vec![0, u64::MAX], vec![0, u64::MAX]] {
        totals.visit(&path);
    }
    assert_eq!(totals.reachable(), 3);
    assert_eq!(totals.totals().unwrap(), (5, 0));
    let mut all = PathTotals::new(&PreparedQuery::parse(&full()).unwrap());
    for path in [vec![0u64], vec![0, 1u64 << 62], vec![0, 1u64 << 62]] {
        all.visit(&path);
    }
    assert!(matches!(all.totals(), Err(ExecuteError::AggregateOverflow)));
}

#[test]
fn sources_resolve_literals_and_parameters() {
    assert_eq!(source(&Source::Literal(4), None).unwrap(), 4);
    assert_eq!(source(&Source::Parameter("s".to_string()), Some(7)).unwrap(), 7);
    assert!(matches!(source(&Source::Literal(-3), None), Err(ExecuteError::SourceOutOfRange)));
    assert!(matches!(source(&Source::Parameter("s".to_string()), Some(-1)), Err(ExecuteError::SourceOutOfRange)));
    assert!(matches!(source(&Source::Parameter("s".to_string()), None), Err(ExecuteError::ParameterNotInteger(n)) if n == "s"));
}

#[test]
fn path_totals_sum_entries_and_node_ids() {
    let mut totals = PathTotals::new(&PreparedQuery::parse(&full()).unwrap());
    totals.visit(&[0]);
    totals.visit(&[0, 1]);
    totals.visit(&[0, 1, 2]);
    totals.visit(&[0, 3]);
    assert_eq!(totals.reachable(), 4);
    assert_eq!(totals.totals().unwrap(), (8, 7));
}

#[test]
fn bfs_plans_reject_out_of_range_sources() {
    let graph = graph();
    let q = query(vec![
        Clause::Call(call("grustcat.bfs", vec![Expr::Integer(9)], &[("distance", None)])),
        Clause::Return(projection(vec![item(var("distance"), None)])),
    ]);
    let plan = PreparedQuery::parse(&q).unwrap();
    assert!(matches!(
        plan.execute(&graph, None, &ExecutionContext::default()),
        Err(ExecuteError::Engine(icecat::Error::InvalidNode(9)))
    ));
}

#[test]
fn admission_rejects_bad_bindings_and_aggregates() {
    let mut rejected = Vec::new();
    // CALL grustcat.wcc() YIELD node_id AS x, component_id AS x RETURN x
    rejected.push((
        query(vec![
            Clause::Call(call("grustcat.wcc", vec![], &[("node_id", Some("x")), ("component_id", Some("x"))])),
            Clause::Return(projection(vec![item(var("x"), None)])),
        ]),
        QueryError::DuplicateYieldBinding,
    ));
    // ... YIELD nodeIds, costs UNWIND range(0, size(nodeIds)-1) AS costs ...
    let mut q = full();
    if let Clause::Unwind(u) = &mut q.parts[0].clauses[1] {
        u.alias = "costs".to_string();
    }
    rejected.push((q, QueryError::UnwindShadowsYield));
    // ... RETURN sum(nodeIds[j]) AS nodes ...
    rejected.push((full_query(Expr::Integer(0), "nodeIds", var("j"), count_star()), QueryError::UnboundArrayIndex));
    // ... RETURN sum(other[i]) AS nodes ...
    let mut q = full();
    if let Clause::Return(p) = &mut q.parts[0].clauses[2] {
        p.items[1].expr = func("sum", vec![Expr::Index { base: Box::new(var("other")), index: Box::new(var("i")) }]);
    }
    rejected.push((q, QueryError::UnboundArray));
    // ... RETURN count(*) ...
    let mut q = full();
    if let Clause::Return(p) = &mut q.parts[0].clauses[2] {
        p.items[0].alias = None;
    }
    rejected.push((q, QueryError::AggregateNeedsAlias));
    for (q, expected) in rejected {
        let got = PreparedQuery::parse(&q).unwrap_err();
        assert_eq!(format!("{got:?}"), format!("{expected:?}"), "{q:?}");
    }
}

#[test]
fn weighted_plans_reject_out_of_range_sources() {
    let graph = graph();
    let ctx = ExecutionContext::default();
    let plan = PreparedQuery::parse(&full()).unwrap();
    for (parameter, expected) in [(Some(5i64), "Engine(InvalidNode(5))"), (Some(-1), "SourceOutOfRange")] {
        let got = plan.execute(&graph, parameter, &ctx).unwrap_err();
        assert_eq!(format!("{got:?}"), expected);
    }
    assert!(matches!(plan.execute(&graph, None, &ctx), Err(ExecuteError::ParameterNotInteger(_))));
    assert!(matches!(plan.execute(&graph, Some(4), &ctx), Ok(Outcome::Weighted(Algorithm::FullPaths, Some(4)))));
    let q = query(vec![
        Clause::Call(call("grustcat.dijkstra", vec![Expr::Integer(5)], &[("distance", None)])),
        Clause::Return(projection(vec![item(var("distance"), None)])),
    ]);
    let dijkstra = PreparedQuery::parse(&q).unwrap();
    assert!(matches!(dijkstra.execute(&graph, None, &ctx), Err(ExecuteError::Engine(icecat::Error::InvalidNode(5)))));
    ctx.cancel();
    assert!(matches!(plan.execute(&graph, Some(4), &ctx), Err(ExecuteError::Engine(icecat::Error::Cancelled))));
}
