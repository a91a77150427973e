//! Admission of a narrow Cypher subset: one algorithm CALL with explicit YIELD and RETURN,
//! and the full-path aggregate shape, turned into a typed plan.
use crate::components::weak_component_labels;
use crate::error::Error;
use crate::execution::ExecutionContext;
use crate::grustcat::GrustcatGraph;
use crate::strong::strong_component_labels;
use crate::text::{same_ignoring_case, same_text, same_text_ignoring_case};
use crate::traversal::hop_distances;
use vstd::prelude::*;

verus! {

/// Binary operators of the expression tree; only subtraction is admitted anywhere.
#[derive(Debug)]
pub enum BinaryOp {
    Subtract,
    Other,
}

/// The parts of a parsed Cypher expression that admission inspects.
#[derive(Debug)]
pub enum Expr {
    Integer(i64),
    Parameter(String),
    Variable(String),
    Function { name: String, distinct: bool, star: bool, args: Vec<Expr> },
    Binary { op: BinaryOp, lhs: Box<Expr>, rhs: Box<Expr> },
    Index { base: Box<Expr>, index: Box<Expr> },
    Other,
}

/// One RETURN item.
#[derive(Debug)]
pub struct ProjectionItem {
    pub expr: Expr,
    pub alias: Option<String>,
}

/// A RETURN projection: its modifiers and items.
#[derive(Debug)]
pub struct Projection {
    pub star: bool,
    pub distinct: bool,
    pub has_order_by: bool,
    pub has_skip: bool,
    pub has_limit: bool,
    pub items: Vec<ProjectionItem>,
}

/// One YIELD field with its optional alias.
#[derive(Debug)]
pub struct Yield {
    pub field: String,
    pub alias: Option<String>,
}

/// A procedure CALL.
#[derive(Debug)]
pub struct Call {
    pub name: String,
    pub args: Vec<Expr>,
    pub yields: Vec<Yield>,
    pub has_where: bool,
}

/// An UNWIND clause.
#[derive(Debug)]
pub struct Unwind {
    pub expr: Expr,
    pub alias: String,
}

/// The clauses that admission distinguishes.
#[derive(Debug)]
pub enum Clause {
    Call(Call),
    Unwind(Unwind),
    Return(Projection),
    Other,
}

/// One single-query part and whether a UNION follows it.
#[derive(Debug)]
pub struct QueryPart {
    pub clauses: Vec<Clause>,
    pub has_union: bool,
}

/// A parsed and semantically analysed query.
#[derive(Debug)]
pub struct Query {
    pub parts: Vec<QueryPart>,
}

/// The admitted procedures.
#[derive(Debug, Clone, Copy, PartialEq, Eq, Structural)]
pub enum Algorithm {
    Bfs,
    Dijkstra,
    Wcc,
    Scc,
    PageRank,
    FullPaths,
}

/// Where the traversal source comes from.
#[derive(Debug)]
pub enum Source {
    Literal(i64),
    Parameter(String),
}

/// Why a query is not admitted.
#[derive(Debug)]
pub enum QueryError {
    /// Outside the admitted subset.
    Unsupported,
    SourceNotIntegerOrParameter,
    UnknownYieldField(String),
    DuplicateYieldBinding,
    UnwindShadowsYield,
    UnboundArrayIndex,
    UnboundArray,
    AggregateNeedsAlias,
    UnboundReturnVariable(String),
    DuplicateOutputName,
}

/// The procedure name that selects `a`, compared without regard to ASCII case.
pub open spec fn procedure_name(a: Algorithm) -> Seq<char> {
    match a {
        Algorithm::Bfs => "grustcat.bfs"@,
        Algorithm::Dijkstra => "grustcat.dijkstra"@,
        Algorithm::Wcc => "grustcat.wcc"@,
        Algorithm::Scc => "grustcat.scc"@,
        Algorithm::PageRank => "grustcat.pagerank"@,
        Algorithm::FullPaths => "grustcat.fullpaths"@,
    }
}

/// The procedure a CALL name selects.
pub open spec fn named(name: Seq<char>) -> Option<Algorithm> {
    if same_ignoring_case(name, procedure_name(Algorithm::Bfs)) {
        Some(Algorithm::Bfs)
    } else if same_ignoring_case(name, procedure_name(Algorithm::Dijkstra)) {
        Some(Algorithm::Dijkstra)
    } else if same_ignoring_case(name, procedure_name(Algorithm::Wcc)) {
        Some(Algorithm::Wcc)
    } else if same_ignoring_case(name, procedure_name(Algorithm::Scc)) {
        Some(Algorithm::Scc)
    } else if same_ignoring_case(name, procedure_name(Algorithm::PageRank)) {
        Some(Algorithm::PageRank)
    } else if same_ignoring_case(name, procedure_name(Algorithm::FullPaths)) {
        Some(Algorithm::FullPaths)
    } else {
        None
    }
}

/// The two YIELD fields of a procedure, in output order.
pub open spec fn yield_fields(a: Algorithm) -> (Seq<char>, Seq<char>) {
    match a {
        Algorithm::Bfs | Algorithm::Dijkstra => ("node_id"@, "distance"@),
        Algorithm::Wcc | Algorithm::Scc => ("node_id"@, "component_id"@),
        Algorithm::PageRank => ("node_id"@, "score"@),
        Algorithm::FullPaths => ("nodeIds"@, "costs"@),
    }
}

/// Whether the procedure takes a source argument.
pub open spec fn takes_source(a: Algorithm) -> bool {
    a == Algorithm::Bfs || a == Algorithm::Dijkstra || a == Algorithm::FullPaths
}

/// The index of a YIELD field of `a`.
pub open spec fn field_position(a: Algorithm, f: Seq<char>) -> Option<usize> {
    if f == yield_fields(a).0 {
        Some(0usize)
    } else if f == yield_fields(a).1 {
        Some(1usize)
    } else {
        None
    }
}

/// The field index bound to `name` by the latest binding of that name.
pub open spec fn bound(bs: Seq<(String, usize)>, name: Seq<char>) -> Option<usize>
    decreases bs.len(),
{
    if bs.len() == 0 {
        None
    } else if bs.last().0@ == name {
        Some(bs.last().1)
    } else {
        bound(bs.drop_last(), name)
    }
}

/// The name a YIELD item binds.
pub open spec fn binding_name(y: Yield) -> String {
    match y.alias {
        Some(a) => a,
        None => y.field,
    }
}

/// Bind the YIELD items in order, refusing unknown fields and repeated names.
pub open spec fn bind_yields(a: Algorithm, ys: Seq<Yield>) -> Result<Seq<(String, usize)>, QueryError>
    decreases ys.len(),
{
    if ys.len() == 0 {
        Ok(Seq::empty())
    } else {
        match bind_yields(a, ys.drop_last()) {
            Err(e) => Err(e),
            Ok(bs) => {
                let y = ys.last();
                match field_position(a, y.field@) {
                    None => Err(QueryError::UnknownYieldField(y.field)),
                    Some(i) => if bound(bs, binding_name(y)@) is Some {
                        Err(QueryError::DuplicateYieldBinding)
                    } else {
                        Ok(bs.push((binding_name(y), i)))
                    },
                }
            },
        }
    }
}

/// The source an admitted CALL carries.
pub open spec fn source_of(a: Algorithm, args: Seq<Expr>) -> Result<Option<Source>, QueryError> {
    if !takes_source(a) {
        Ok(None)
    } else {
        match args[0] {
            Expr::Integer(v) => Ok(Some(Source::Literal(v))),
            Expr::Parameter(p) => Ok(Some(Source::Parameter(p))),
            _ => Err(QueryError::SourceNotIntegerOrParameter),
        }
    }
}

/// A RETURN with no modifiers and at least one item.
pub open spec fn plain_projection(p: Projection) -> bool {
    !p.star && !p.distinct && !p.has_order_by && !p.has_skip && !p.has_limit && p.items.len() > 0
}

/// The name an item is output under: its alias, or its variable.
pub open spec fn output_name(it: ProjectionItem) -> Option<String> {
    match it.alias {
        Some(a) => Some(a),
        None => match it.expr {
            Expr::Variable(v) => Some(v),
            _ => None,
        },
    }
}

/// The arguments of a plain call of function `name`, compared without regard to ASCII case.
pub open spec fn function_args(e: Expr, name: Seq<char>) -> Option<Seq<Expr>> {
    match e {
        Expr::Function { name: n, distinct, star, args } => if !distinct && !star && same_ignoring_case(
            n@,
            name,
        ) {
            Some(args@)
        } else {
            None
        },
        _ => None,
    }
}

/// Columns of a variable-only RETURN over the YIELD bindings.
pub open spec fn variable_columns(bs: Seq<(String, usize)>, items: Seq<ProjectionItem>) -> Result<
    Seq<(usize, String)>,
    QueryError,
>
    decreases items.len(),
{
    if items.len() == 0 {
        Ok(Seq::empty())
    } else {
        match variable_columns(bs, items.drop_last()) {
            Err(e) => Err(e),
            Ok(cols) => {
                let it = items.last();
                match it.expr {
                    Expr::Variable(name) => match bound(bs, name@) {
                        None => Err(QueryError::UnboundReturnVariable(name)),
                        Some(i) => Ok(
                            cols.push(
                                (
                                    i,
                                    match it.alias {
                                        Some(a) => a,
                                        None => name,
                                    },
                                ),
                            ),
                        ),
                    },
                    _ => Err(QueryError::Unsupported),
                }
            },
        }
    }
}

/// `count(*)` without DISTINCT.
pub open spec fn is_count_star(e: Expr) -> bool {
    match e {
        Expr::Function { name, distinct, star, args } => !distinct && star && same_ignoring_case(
            name@,
            "count"@,
        ) && args.len() == 0,
        _ => false,
    }
}

/// The aggregate value an item selects: 0 for `count(*)`, 1 plus the field for
/// `sum(array[i])` with `i` the UNWIND variable.
pub open spec fn aggregate_index(bs: Seq<(String, usize)>, alias: Seq<char>, e: Expr) -> Result<usize, QueryError> {
    if is_count_star(e) {
        Ok(0usize)
    } else {
        match function_args(e, "sum"@) {
            None => Err(QueryError::Unsupported),
            Some(args) => if args.len() != 1 {
                Err(QueryError::Unsupported)
            } else {
                match args[0] {
                    Expr::Index { base, index } => match (*base, *index) {
                        (Expr::Variable(array), Expr::Variable(i)) => if i@ != alias {
                            Err(QueryError::UnboundArrayIndex)
                        } else {
                            match bound(bs, array@) {
                                None => Err(QueryError::UnboundArray),
                                Some(k) => Ok((k + 1) as usize),
                            }
                        },
                        _ => Err(QueryError::Unsupported),
                    },
                    _ => Err(QueryError::Unsupported),
                }
            },
        }
    }
}

/// Columns of an aggregate RETURN over the YIELD bindings and the UNWIND variable.
pub open spec fn aggregate_columns(bs: Seq<(String, usize)>, alias: Seq<char>, items: Seq<ProjectionItem>) -> Result<
    Seq<(usize, String)>,
    QueryError,
>
    decreases items.len(),
{
    if items.len() == 0 {
        Ok(Seq::empty())
    } else {
        match aggregate_columns(bs, alias, items.drop_last()) {
            Err(e) => Err(e),
            Ok(cols) => {
                let it = items.last();
                match aggregate_index(bs, alias, it.expr) {
                    Err(e) => Err(e),
                    Ok(i) => match output_name(it) {
                        None => Err(QueryError::AggregateNeedsAlias),
                        Some(name) => Ok(cols.push((i, name))),
                    },
                }
            },
        }
    }
}

/// `UNWIND range(0, size(nodes)-1) AS i` with `nodes` bound to the first field and `i` fresh.
pub open spec fn unwind_admitted(bs: Seq<(String, usize)>, u: Unwind) -> Result<(), QueryError> {
    if bound(bs, u.alias@) is Some {
        Err(QueryError::UnwindShadowsYield)
    } else {
        match function_args(u.expr, "range"@) {
            None => Err(QueryError::Unsupported),
            Some(args) => if args.len() == 2 && args[0] matches Expr::Integer(0) {
                match args[1] {
                    Expr::Binary { op: BinaryOp::Subtract, lhs, rhs } => if !(*rhs matches Expr::Integer(1)) {
                        Err(QueryError::Unsupported)
                    } else {
                        match function_args(*lhs, "size"@) {
                            Some(sargs) => if sargs.len() == 1 && (sargs[0] matches Expr::Variable(nodes)
                                && bound(bs, nodes@) == Some(0usize)) {
                                Ok(())
                            } else {
                                Err(QueryError::Unsupported)
                            },
                            None => Err(QueryError::Unsupported),
                        }
                    },
                    _ => Err(QueryError::Unsupported),
                }
            } else {
                Err(QueryError::Unsupported)
            },
        }
    }
}

/// The output columns after the CALL clause.
pub open spec fn plan_columns(a: Algorithm, bs: Seq<(String, usize)>, clauses: Seq<Clause>) -> Result<
    Seq<(usize, String)>,
    QueryError,
> {
    if a == Algorithm::FullPaths {
        if clauses.len() == 3 && clauses[1] is Unwind && clauses[2] is Return {
            let u = clauses[1]->Unwind_0;
            let p = clauses[2]->Return_0;
            match unwind_admitted(bs, u) {
                Err(e) => Err(e),
                Ok(_) => if !plain_projection(p) {
                    Err(QueryError::Unsupported)
                } else {
                    aggregate_columns(bs, u.alias@, p.items@)
                },
            }
        } else {
            Err(QueryError::Unsupported)
        }
    } else {
        if clauses.len() == 2 && clauses[1] is Return {
            let p = clauses[1]->Return_0;
            if !plain_projection(p) {
                Err(QueryError::Unsupported)
            } else {
                variable_columns(bs, p.items@)
            }
        } else {
            Err(QueryError::Unsupported)
        }
    }
}

/// No two columns share a name.
pub open spec fn distinct_names(cols: Seq<(usize, String)>) -> bool {
    forall|i: int, j: int| 0 <= i < j < cols.len() ==> #[trigger] cols[i].1@ != #[trigger] cols[j].1@
}

/// What admitting `q` gives: the plan that runs it, or why it is refused.
pub open spec fn admission(q: Query) -> Result<(Algorithm, Option<Source>, Seq<(usize, String)>), QueryError> {
    if q.parts.len() != 1 || q.parts[0].has_union {
        Err(QueryError::Unsupported)
    } else {
        let clauses = q.parts[0].clauses@;
        if clauses.len() == 0 || !(clauses[0] is Call) {
            Err(QueryError::Unsupported)
        } else {
            let call = clauses[0]->Call_0;
            match named(call.name@) {
                None => Err(QueryError::Unsupported),
                Some(a) => if call.has_where || call.args.len() != (if takes_source(a) { 1int } else { 0int })
                    || call.yields.len() == 0 {
                    Err(QueryError::Unsupported)
                } else {
                    match source_of(a, call.args@) {
                        Err(e) => Err(e),
                        Ok(src) => match bind_yields(a, call.yields@) {
                            Err(e) => Err(e),
                            Ok(bs) => match plan_columns(a, bs, clauses) {
                                Err(e) => Err(e),
                                Ok(cols) => if distinct_names(cols) {
                                    Ok((a, src, cols))
                                } else {
                                    Err(QueryError::DuplicateOutputName)
                                },
                            },
                        },
                    }
                },
            }
        }
    }
}

proof fn lemma_bound_in(bs: Seq<(String, usize)>, name: Seq<char>)
    ensures
        bound(bs, name) matches Some(k) ==> exists|i: int| 0 <= i < bs.len() && #[trigger] bs[i].1 == k,
    decreases bs.len(),
{
    if bs.len() > 0 {
        lemma_bound_in(bs.drop_last(), name);
        if let Some(k) = bound(bs, name) {
            if bs.last().0@ == name {
                assert(bs[bs.len() - 1].1 == k);
            } else {
                let i = choose|i: int| 0 <= i < bs.drop_last().len() && #[trigger] bs.drop_last()[i].1 == k;
                assert(bs[i].1 == k);
            }
        }
    }
}

proof fn lemma_bind_small(a: Algorithm, ys: Seq<Yield>)
    ensures
        bind_yields(a, ys) matches Ok(bs) ==> forall|i: int| 0 <= i < bs.len() ==> #[trigger] bs[i].1 <= 1,
    decreases ys.len(),
{
    if ys.len() > 0 {
        lemma_bind_small(a, ys.drop_last());
    }
}

proof fn lemma_bind_extend(a: Algorithm, ys: Seq<Yield>, k: int)
    requires
        0 <= k <= ys.len(),
        bind_yields(a, ys.subrange(0, k)) is Err,
    ensures
        bind_yields(a, ys) == bind_yields(a, ys.subrange(0, k)),
    decreases ys.len() - k,
{
    if k < ys.len() {
        assert(ys.subrange(0, k + 1).drop_last() == ys.subrange(0, k));
        lemma_bind_extend(a, ys, k + 1);
    } else {
        assert(ys.subrange(0, k) == ys);
    }
}

proof fn lemma_variable_extend(bs: Seq<(String, usize)>, items: Seq<ProjectionItem>, k: int)
    requires
        0 <= k <= items.len(),
        variable_columns(bs, items.subrange(0, k)) is Err,
    ensures
        variable_columns(bs, items) == variable_columns(bs, items.subrange(0, k)),
    decreases items.len() - k,
{
    if k < items.len() {
        assert(items.subrange(0, k + 1).drop_last() == items.subrange(0, k));
        lemma_variable_extend(bs, items, k + 1);
    } else {
        assert(items.subrange(0, k) == items);
    }
}

proof fn lemma_aggregate_extend(bs: Seq<(String, usize)>, alias: Seq<char>, items: Seq<ProjectionItem>, k: int)
    requires
        0 <= k <= items.len(),
        aggregate_columns(bs, alias, items.subrange(0, k)) is Err,
    ensures
        aggregate_columns(bs, alias, items) == aggregate_columns(bs, alias, items.subrange(0, k)),
    decreases items.len() - k,
{
    if k < items.len() {
        assert(items.subrange(0, k + 1).drop_last() == items.subrange(0, k));
        lemma_aggregate_extend(bs, alias, items, k + 1);
    } else {
        assert(items.subrange(0, k) == items);
    }
}

/// The procedure a CALL name selects.
fn procedure(name: &String) -> (r: Option<Algorithm>)
    ensures
        r == named(name@),
{
    let text = name.as_str();
    if same_text_ignoring_case(text, "grustcat.bfs") {
        Some(Algorithm::Bfs)
    } else if same_text_ignoring_case(text, "grustcat.dijkstra") {
        Some(Algorithm::Dijkstra)
    } else if same_text_ignoring_case(text, "grustcat.wcc") {
        Some(Algorithm::Wcc)
    } else if same_text_ignoring_case(text, "grustcat.scc") {
        Some(Algorithm::Scc)
    } else if same_text_ignoring_case(text, "grustcat.pagerank") {
        Some(Algorithm::PageRank)
    } else if same_text_ignoring_case(text, "grustcat.fullpaths") {
        Some(Algorithm::FullPaths)
    } else {
        None
    }
}

/// The index of YIELD field `f` of procedure `a`.
fn field_index(a: Algorithm, f: &String) -> (r: Option<usize>)
    ensures
        r == field_position(a, f@),
{
    let text = f.as_str();
    let (first, second) = match a {
        Algorithm::Bfs | Algorithm::Dijkstra => ("node_id", "distance"),
        Algorithm::Wcc | Algorithm::Scc => ("node_id", "component_id"),
        Algorithm::PageRank => ("node_id", "score"),
        Algorithm::FullPaths => ("nodeIds", "costs"),
    };
    if same_text(text, first) {
        Some(0)
    } else if same_text(text, second) {
        Some(1)
    } else {
        None
    }
}

/// The field index bound to `name`.
fn lookup(bs: &Vec<(String, usize)>, name: &String) -> (r: Option<usize>)
    ensures
        r == bound(bs@, name@),
{
    let mut i = bs.len();
    assert(bs@.subrange(0, i as int) == bs@);
    while i > 0
        invariant
            i <= bs@.len(),
            bound(bs@, name@) == bound(bs@.subrange(0, i as int), name@),
        decreases i,
    {
        let ghost pre = bs@.subrange(0, i as int);
        assert(pre.last() == bs@[i - 1]);
        assert(pre.drop_last() == bs@.subrange(0, i - 1));
        if bs[i - 1].0 == *name {
            return Some(bs[i - 1].1);
        }
        i = i - 1;
    }
    None
}

/// The arguments of a plain call of function `name`.
fn function_args_of<'a>(e: &'a Expr, name: &str) -> (r: Option<&'a Vec<Expr>>)
    ensures
        match function_args(*e, name@) {
            Some(args) => r matches Some(v) && v@ == args,
            None => r is None,
        },
        r is Some ==> (*e matches Expr::Function { distinct, star, .. } && !distinct && !star),
{
    match e {
        Expr::Function { name: n, distinct, star, args } => {
            if !*distinct && !*star && same_text_ignoring_case(n.as_str(), name) {
                Some(args)
            } else {
                None
            }
        },
        _ => None,
    }
}

/// A copy of `s` (`String::clone`).
fn copy_text(s: &String) -> (r: String)
    ensures
        r == *s,
{
    s.clone()
}

/// Bind the YIELD items.
fn bind(a: Algorithm, yields: &Vec<Yield>) -> (r: Result<Vec<(String, usize)>, QueryError>)
    ensures
        r matches Ok(v) ==> bind_yields(a, yields@) == Ok::<Seq<(String, usize)>, QueryError>(v@),
        r matches Err(e) ==> bind_yields(a, yields@) == Err::<Seq<(String, usize)>, QueryError>(e),
{
    let mut bs: Vec<(String, usize)> = Vec::new();
    let mut k: usize = 0;
    while k < yields.len()
        invariant
            k <= yields@.len(),
            bind_yields(a, yields@.subrange(0, k as int)) == Ok::<Seq<(String, usize)>, QueryError>(bs@),
        decreases yields@.len() - k,
    {
        let y = &yields[k];
        let ghost pre = yields@.subrange(0, k + 1);
        assert(pre.drop_last() == yields@.subrange(0, k as int));
        assert(pre.last() == yields@[k as int]);
        let index = match field_index(a, &y.field) {
            Some(i) => i,
            None => {
                proof {
                    lemma_bind_extend(a, yields@, k + 1);
                }
                return Err(QueryError::UnknownYieldField(copy_text(&y.field)));
            },
        };
        let name = match &y.alias {
            Some(al) => copy_text(al),
            None => copy_text(&y.field),
        };
        if lookup(&bs, &name).is_some() {
            proof {
                lemma_bind_extend(a, yields@, k + 1);
            }
            return Err(QueryError::DuplicateYieldBinding);
        }
        bs.push((name, index));
        k = k + 1;
    }
    proof {
        assert(yields@.subrange(0, yields@.len() as int) == yields@);
    }
    Ok(bs)
}

/// The source argument of an admitted CALL.
fn call_source(a: Algorithm, args: &Vec<Expr>) -> (r: Result<Option<Source>, QueryError>)
    requires
        takes_source(a) ==> args@.len() == 1,
    ensures
        r matches Ok(v) ==> source_of(a, args@) == Ok::<Option<Source>, QueryError>(v),
        r matches Err(e) ==> source_of(a, args@) == Err::<Option<Source>, QueryError>(e),
{
    let takes = match a {
        Algorithm::Bfs | Algorithm::Dijkstra | Algorithm::FullPaths => true,
        _ => false,
    };
    if !takes {
        return Ok(None);
    }
    match &args[0] {
        Expr::Integer(v) => Ok(Some(Source::Literal(*v))),
        Expr::Parameter(p) => Ok(Some(Source::Parameter(copy_text(p)))),
        _ => Err(QueryError::SourceNotIntegerOrParameter),
    }
}

/// Whether a RETURN has no modifiers and at least one item.
fn plain(p: &Projection) -> (r: bool)
    ensures
        r ==> !p.star && !p.distinct && !p.has_order_by && !p.has_skip && !p.has_limit && p.items.len() > 0,
        r == plain_projection(*p),
{
    !p.star && !p.distinct && !p.has_order_by && !p.has_skip && !p.has_limit && p.items.len() > 0
}

/// Columns of a variable-only RETURN.
fn variable_output(bs: &Vec<(String, usize)>, items: &Vec<ProjectionItem>) -> (r: Result<Vec<(usize, String)>, QueryError>)
    ensures
        r matches Ok(v) ==> variable_columns(bs@, items@) == Ok::<Seq<(usize, String)>, QueryError>(v@),
        r matches Err(e) ==> variable_columns(bs@, items@) == Err::<Seq<(usize, String)>, QueryError>(e),
{
    let mut cols: Vec<(usize, String)> = Vec::new();
    let mut k: usize = 0;
    while k < items.len()
        invariant
            k <= items@.len(),
            variable_columns(bs@, items@.subrange(0, k as int)) == Ok::<Seq<(usize, String)>, QueryError>(cols@),
        decreases items@.len() - k,
    {
        let it = &items[k];
        let ghost pre = items@.subrange(0, k + 1);
        assert(pre.drop_last() == items@.subrange(0, k as int));
        assert(pre.last() == items@[k as int]);
        match &it.expr {
            Expr::Variable(name) => {
                match lookup(bs, name) {
                    Some(i) => {
                        let out = match &it.alias {
                            Some(al) => copy_text(al),
                            None => copy_text(name),
                        };
                        cols.push((i, out));
                    },
                    None => {
                        proof {
                            lemma_variable_extend(bs@, items@, k + 1);
                        }
                        return Err(QueryError::UnboundReturnVariable(copy_text(name)));
                    },
                }
            },
            _ => {
                proof {
                    lemma_variable_extend(bs@, items@, k + 1);
                }
                return Err(QueryError::Unsupported);
            },
        }
        k = k + 1;
    }
    proof {
        assert(items@.subrange(0, items@.len() as int) == items@);
    }
    Ok(cols)
}

/// The aggregate value an item selects.
fn aggregate_of(bs: &Vec<(String, usize)>, alias: &String, e: &Expr) -> (r: Result<usize, QueryError>)
    requires
        forall|i: int| 0 <= i < bs@.len() ==> #[trigger] bs@[i].1 <= 1,
    ensures
        r matches Ok(v) ==> aggregate_index(bs@, alias@, *e) == Ok::<usize, QueryError>(v),
        r matches Err(x) ==> aggregate_index(bs@, alias@, *e) == Err::<usize, QueryError>(x),
{
    let counted = match e {
        Expr::Function { name, distinct, star, args } => !*distinct && *star && same_text_ignoring_case(
            name.as_str(),
            "count",
        ) && args.len() == 0,
        _ => false,
    };
    if counted {
        return Ok(0);
    }
    let args = match function_args_of(e, "sum") {
        Some(args) => args,
        None => return Err(QueryError::Unsupported),
    };
    if args.len() != 1 {
        return Err(QueryError::Unsupported);
    }
    match &args[0] {
        Expr::Index { base, index } => match (&**base, &**index) {
            (Expr::Variable(array), Expr::Variable(i)) => {
                if !same_text(i.as_str(), alias.as_str()) {
                    return Err(QueryError::UnboundArrayIndex);
                }
                match lookup(bs, array) {
                    Some(k) => {
                        proof {
                            lemma_bound_in(bs@, array@);
                        }
                        Ok(k + 1)
                    },
                    None => Err(QueryError::UnboundArray),
                }
            },
            _ => Err(QueryError::Unsupported),
        },
        _ => Err(QueryError::Unsupported),
    }
}

/// Columns of an aggregate RETURN.
fn aggregate_output(bs: &Vec<(String, usize)>, alias: &String, items: &Vec<ProjectionItem>) -> (r: Result<
    Vec<(usize, String)>,
    QueryError,
>)
    requires
        forall|i: int| 0 <= i < bs@.len() ==> #[trigger] bs@[i].1 <= 1,
    ensures
        r matches Ok(v) ==> aggregate_columns(bs@, alias@, items@) == Ok::<Seq<(usize, String)>, QueryError>(v@),
        r matches Err(e) ==> aggregate_columns(bs@, alias@, items@) == Err::<Seq<(usize, String)>, QueryError>(e),
{
    let mut cols: Vec<(usize, String)> = Vec::new();
    let mut k: usize = 0;
    while k < items.len()
        invariant
            k <= items@.len(),
            forall|i: int| 0 <= i < bs@.len() ==> #[trigger] bs@[i].1 <= 1,
            aggregate_columns(bs@, alias@, items@.subrange(0, k as int)) == Ok::<Seq<(usize, String)>, QueryError>(
                cols@,
            ),
        decreases items@.len() - k,
    {
        let it = &items[k];
        let ghost pre = items@.subrange(0, k + 1);
        assert(pre.drop_last() == items@.subrange(0, k as int));
        assert(pre.last() == items@[k as int]);
        let index = match aggregate_of(bs, alias, &it.expr) {
            Ok(i) => i,
            Err(e) => {
                proof {
                    lemma_aggregate_extend(bs@, alias@, items@, k + 1);
                }
                return Err(e);
            },
        };
        let out = match &it.alias {
            Some(al) => copy_text(al),
            None => match &it.expr {
                Expr::Variable(v) => copy_text(v),
                _ => {
                    proof {
                        lemma_aggregate_extend(bs@, alias@, items@, k + 1);
                    }
                    return Err(QueryError::AggregateNeedsAlias);
                },
            },
        };
        cols.push((index, out));
        k = k + 1;
    }
    proof {
        assert(items@.subrange(0, items@.len() as int) == items@);
    }
    Ok(cols)
}

/// Check the full-path UNWIND clause.
fn unwind_check(bs: &Vec<(String, usize)>, u: &Unwind) -> (r: Result<(), QueryError>)
    ensures
        r matches Ok(_) ==> unwind_admitted(bs@, *u) is Ok,
        r matches Err(e) ==> unwind_admitted(bs@, *u) == Err::<(), QueryError>(e),
{
    if lookup(bs, &u.alias).is_some() {
        return Err(QueryError::UnwindShadowsYield);
    }
    let args = match function_args_of(&u.expr, "range") {
        Some(args) => args,
        None => return Err(QueryError::Unsupported),
    };
    if args.len() != 2 {
        return Err(QueryError::Unsupported);
    }
    match &args[0] {
        Expr::Integer(0) => {},
        _ => return Err(QueryError::Unsupported),
    }
    match &args[1] {
        Expr::Binary { op: BinaryOp::Subtract, lhs, rhs } => {
            match &**rhs {
                Expr::Integer(1) => {},
                _ => return Err(QueryError::Unsupported),
            }
            let size = match function_args_of(&**lhs, "size") {
                Some(a) => a,
                None => return Err(QueryError::Unsupported),
            };
            if size.len() != 1 {
                return Err(QueryError::Unsupported);
            }
            match &size[0] {
                Expr::Variable(nodes) => {
                    match lookup(bs, nodes) {
                        Some(0) => Ok(()),
                        _ => Err(QueryError::Unsupported),
                    }
                },
                _ => Err(QueryError::Unsupported),
            }
        },
        _ => Err(QueryError::Unsupported),
    }
}

/// Whether no two columns share a name.
fn names_distinct(cols: &Vec<(usize, String)>) -> (r: bool)
    ensures
        r == distinct_names(cols@),
{
    let n = cols.len();
    let mut j: usize = 0;
    while j < n
        invariant
            n == cols@.len(),
            j <= n,
            forall|a: int, b: int| 0 <= a < b < j ==> #[trigger] cols@[a].1@ != #[trigger] cols@[b].1@,
        decreases n - j,
    {
        let mut i: usize = 0;
        while i < j
            invariant
                n == cols@.len(),
                i <= j < n,
                forall|a: int, b: int| 0 <= a < b < j ==> #[trigger] cols@[a].1@ != #[trigger] cols@[b].1@,
                forall|a: int| 0 <= a < i ==> #[trigger] cols@[a].1@ != cols@[j as int].1@,
            decreases j - i,
        {
            if cols[i].1 == cols[j].1 {
                return false;
            }
            i = i + 1;
        }
        j = j + 1;
    }
    true
}

/// Immutable validated plan. Private fields prevent bypassing admission.
#[derive(Debug)]
pub struct PreparedQuery {
    algorithm: Algorithm,
    source: Option<Source>,
    columns: Vec<(usize, String)>,
}

impl PreparedQuery {
    /// The admitted procedure.
    pub closed spec fn spec_algorithm(&self) -> Algorithm {
        self.algorithm
    }

    /// The source argument, for procedures that take one.
    pub closed spec fn spec_source(&self) -> Option<Source> {
        self.source
    }

    /// Output columns: the field (or aggregate) index and the output name.
    pub closed spec fn spec_columns(&self) -> Seq<(usize, String)> {
        self.columns@
    }

    /// A plan carries a source exactly when its procedure takes one.
    #[verifier::type_invariant]
    pub open spec fn shaped(&self) -> bool {
        self.spec_source() is Some <==> takes_source(self.spec_algorithm())
    }

    /// The admitted procedure.
    pub fn algorithm(&self) -> (r: Algorithm)
        ensures
            r == self.spec_algorithm(),
    {
        self.algorithm
    }

    /// The source argument, for procedures that take one.
    pub fn source(&self) -> (r: &Option<Source>)
        ensures
            *r == self.spec_source(),
    {
        &self.source
    }

    /// Output columns in order: the field (or aggregate) index and the output name.
    pub fn columns(&self) -> (r: &[(usize, String)])
        ensures
            r@ == self.spec_columns(),
    {
        self.columns.as_slice()
    }

    /// Admit the entire query AST, including argument, binding, projection and aggregate
    /// checks, and build the plan that runs it. No substring dispatch.
    pub fn parse(query: &Query) -> (r: Result<Self, QueryError>)
        ensures
            r matches Ok(p) ==> admission(*query) == Ok::<(Algorithm, Option<Source>, Seq<(usize, String)>), QueryError>(
                (p.spec_algorithm(), p.spec_source(), p.spec_columns()),
            ),
            r matches Err(e) ==> admission(*query) == Err::<
                (Algorithm, Option<Source>, Seq<(usize, String)>),
                QueryError,
            >(e),
    {
        if query.parts.len() != 1 || query.parts[0].has_union {
            return Err(QueryError::Unsupported);
        }
        let clauses = &query.parts[0].clauses;
        if clauses.len() == 0 {
            return Err(QueryError::Unsupported);
        }
        let call = match &clauses[0] {
            Clause::Call(call) => call,
            _ => return Err(QueryError::Unsupported),
        };
        let algorithm = match procedure(&call.name) {
            Some(a) => a,
            None => return Err(QueryError::Unsupported),
        };
        let has_source = match algorithm {
            Algorithm::Bfs | Algorithm::Dijkstra | Algorithm::FullPaths => true,
            _ => false,
        };
        let arity: usize = if has_source { 1 } else { 0 };
        if call.has_where || call.args.len() != arity || call.yields.len() == 0 {
            return Err(QueryError::Unsupported);
        }
        let source = call_source(algorithm, &call.args)?;
        let bindings = bind(algorithm, &call.yields)?;
        proof {
            lemma_bind_small(algorithm, call.yields@);
        }
        let columns = if has_source && algorithm == Algorithm::FullPaths {
            if clauses.len() != 3 {
                return Err(QueryError::Unsupported);
            }
            let unwind = match &clauses[1] {
                Clause::Unwind(u) => u,
                _ => return Err(QueryError::Unsupported),
            };
            let ret = match &clauses[2] {
                Clause::Return(p) => p,
                _ => return Err(QueryError::Unsupported),
            };
            unwind_check(&bindings, unwind)?;
            if !plain(ret) {
                return Err(QueryError::Unsupported);
            }
            aggregate_output(&bindings, &unwind.alias, &ret.items)?
        } else {
            if clauses.len() != 2 {
                return Err(QueryError::Unsupported);
            }
            let ret = match &clauses[1] {
                Clause::Return(p) => p,
                _ => return Err(QueryError::Unsupported),
            };
            if !plain(ret) {
                return Err(QueryError::Unsupported);
            }
            variable_output(&bindings, &ret.items)?
        };
        if !names_distinct(&columns) {
            return Err(QueryError::DuplicateOutputName);
        }
        Ok(PreparedQuery { algorithm, source, columns })
    }
}

/// Why an admitted plan failed to run.
#[derive(Debug)]
pub enum ExecuteError {
    /// A graph or resource error from the kernel.
    Engine(Error),
    /// The named parameter is missing or not an integer.
    ParameterNotInteger(String),
    /// The source is negative or does not fit `usize`.
    SourceOutOfRange,
    /// A full-path aggregate exceeded the signed 64-bit range.
    AggregateOverflow,
}

/// The source vertex a plan resolves to, given the value of its parameter if it names one
/// (`None` when the parameter is missing or not an integer).
pub open spec fn resolved_source(src: Source, parameter: Option<i64>) -> Result<usize, ExecuteError> {
    let value = match src {
        Source::Literal(v) => Some(v),
        Source::Parameter(_) => parameter,
    };
    match value {
        None => Err(ExecuteError::ParameterNotInteger(src->Parameter_0)),
        Some(v) => if 0 <= v <= usize::MAX {
            Ok(v as usize)
        } else {
            Err(ExecuteError::SourceOutOfRange)
        },
    }
}

/// Resolve a source argument to a vertex.
pub fn source(src: &Source, parameter: Option<i64>) -> (r: Result<usize, ExecuteError>)
    ensures
        r matches Ok(v) ==> resolved_source(*src, parameter) == Ok::<usize, ExecuteError>(v),
        r matches Err(e) ==> resolved_source(*src, parameter) == Err::<usize, ExecuteError>(e),
{
    let value = match src {
        Source::Literal(v) => *v,
        Source::Parameter(name) => match parameter {
            Some(v) => v,
            None => return Err(ExecuteError::ParameterNotInteger(copy_text(name))),
        },
    };
    if value < 0 || value as u128 > usize::MAX as u128 {
        Err(ExecuteError::SourceOutOfRange)
    } else {
        Ok(value as usize)
    }
}

/// What running an admitted plan gives: integer results computed here, or the procedure and
/// source of a weighted kernel that runs over the float weights.
#[derive(Debug)]
pub enum Outcome {
    Distances(Vec<Option<u64>>),
    Labels(Vec<u64>),
    Weighted(Algorithm, Option<usize>),
}

/// Running sums of the full-path aggregates: path entries and node-ID sums, each counted
/// only when a column needs it. A sum that passes `u64::MAX` sets the overflow flag.
pub struct PathTotals {
    count_entries: bool,
    count_nodes: bool,
    reachable: u64,
    entries: u64,
    nodes: u64,
    overflow: bool,
    entry_total: Ghost<int>,
    node_total: Ghost<int>,
}

/// Sum of a sequence of node IDs.
pub open spec fn id_sum(ids: Seq<u64>) -> int
    decreases ids.len(),
{
    if ids.len() == 0 {
        0
    } else {
        id_sum(ids.drop_last()) + ids.last()
    }
}

impl PathTotals {
    /// Paths visited.
    pub closed spec fn spec_reachable(&self) -> u64 {
        self.reachable
    }

    /// Exact total of path lengths over the visited paths (when counted).
    pub closed spec fn spec_entry_total(&self) -> int {
        self.entry_total@
    }

    /// Exact total of node IDs over the visited paths (when counted).
    pub closed spec fn spec_node_total(&self) -> int {
        self.node_total@
    }

    /// Whether path lengths are counted.
    pub closed spec fn spec_count_entries(&self) -> bool {
        self.count_entries
    }

    /// Whether node IDs are summed.
    pub closed spec fn spec_count_nodes(&self) -> bool {
        self.count_nodes
    }

    /// The stored sums equal the exact totals until one passes `u64::MAX`.
    #[verifier::type_invariant]
    spec fn consistent(&self) -> bool {
        &&& self.entry_total@ >= 0
        &&& self.node_total@ >= 0
        &&& self.overflow <==> (self.entry_total@ > u64::MAX || self.node_total@ > u64::MAX)
        &&& !self.overflow ==> self.entries == self.entry_total@ && self.nodes == self.node_total@
        &&& !self.count_entries ==> self.entry_total@ == 0
        &&& !self.count_nodes ==> self.node_total@ == 0
    }

    /// Start the sums for the columns of `plan`.
    pub fn new(plan: &PreparedQuery) -> (r: Self)
        ensures
            r.spec_reachable() == 0,
            r.spec_entry_total() == 0,
            r.spec_node_total() == 0,
            r.spec_count_entries() == exists|i: int| 0 <= i < plan.spec_columns().len() && #[trigger] plan.spec_columns()[i].0 == 0,
            r.spec_count_nodes() == exists|i: int| 0 <= i < plan.spec_columns().len() && #[trigger] plan.spec_columns()[i].0 == 1,
    {
        let mut count_entries = false;
        let mut count_nodes = false;
        let mut i: usize = 0;
        while i < plan.columns.len()
            invariant
                i <= plan.columns@.len(),
                count_entries == exists|k: int| 0 <= k < i && #[trigger] plan.columns@[k].0 == 0,
                count_nodes == exists|k: int| 0 <= k < i && #[trigger] plan.columns@[k].0 == 1,
            decreases plan.columns@.len() - i,
        {
            if plan.columns[i].0 == 0 {
                count_entries = true;
            }
            if plan.columns[i].0 == 1 {
                count_nodes = true;
            }
            i = i + 1;
        }
        proof {
            let cols = plan.spec_columns();
            if count_entries {
                let k = choose|k: int| 0 <= k < i && #[trigger] plan.columns@[k].0 == 0;
                assert(cols[k].0 == 0);
            }
            if count_nodes {
                let k = choose|k: int| 0 <= k < i && #[trigger] plan.columns@[k].0 == 1;
                assert(cols[k].0 == 1);
            }
        }
        PathTotals {
            count_entries,
            count_nodes,
            reachable: 0,
            entries: 0,
            nodes: 0,
            overflow: false,
            entry_total: Ghost(0),
            node_total: Ghost(0),
        }
    }

    /// Consume one source-first path of node IDs, without materialising a row per entry.
    pub fn visit(&mut self, ids: &[u64])
        requires
            old(self).spec_reachable() < u64::MAX,
        ensures
            final(self).spec_reachable() == old(self).spec_reachable() + 1,
            final(self).spec_count_entries() == old(self).spec_count_entries(),
            final(self).spec_count_nodes() == old(self).spec_count_nodes(),
            final(self).spec_entry_total() == old(self).spec_entry_total() + if old(self).spec_count_entries() {
                ids@.len() as int
            } else {
                0
            },
            final(self).spec_node_total() == old(self).spec_node_total() + if old(self).spec_count_nodes() {
                id_sum(ids@)
            } else {
                0
            },
    {
        proof {
            use_type_invariant(&*self);
        }
        let mut entries = self.entries;
        let mut nodes = self.nodes;
        let mut overflow = self.overflow;
        let ghost mut entry_total = self.entry_total@;
        let ghost mut node_total = self.node_total@;
        if self.count_entries {
            let len = ids.len() as u64;
            match entries.checked_add(len) {
                Some(x) => {
                    entries = x;
                },
                None => {
                    overflow = true;
                    entries = 0;
                },
            }
            proof {
                entry_total = entry_total + ids@.len();
            }
        }
        if self.count_nodes {
            let mut k: usize = 0;
            while k < ids.len()
                invariant
                    k <= ids@.len(),
                    entry_total >= 0,
                    node_total == self.node_total@ + id_sum(ids@.subrange(0, k as int)),
                    node_total >= self.node_total@,
                    overflow <==> (entry_total > u64::MAX || node_total > u64::MAX),
                    !overflow ==> entries == entry_total && nodes == node_total,
                    self.node_total@ >= 0,
                decreases ids@.len() - k,
            {
                proof {
                    assert(ids@.subrange(0, k + 1).drop_last() == ids@.subrange(0, k as int));
                }
                match nodes.checked_add(ids[k]) {
                    Some(x) => {
                        nodes = x;
                    },
                    None => {
                        overflow = true;
                        nodes = 0;
                    },
                }
                proof {
                    node_total = node_total + ids@[k as int];
                }
                k = k + 1;
            }
            proof {
                assert(ids@.subrange(0, ids@.len() as int) == ids@);
            }
        }
        *self = PathTotals {
            count_entries: self.count_entries,
            count_nodes: self.count_nodes,
            reachable: self.reachable + 1,
            entries,
            nodes,
            overflow,
            entry_total: Ghost(entry_total),
            node_total: Ghost(node_total),
        };
    }

    /// Paths visited.
    pub fn reachable(&self) -> (r: u64)
        ensures
            r == self.spec_reachable(),
    {
        self.reachable
    }

    /// The path-entry and node-ID sums, refused when either passes `i64::MAX`.
    pub fn totals(&self) -> (r: Result<(u64, u64), ExecuteError>)
        ensures
            r matches Ok((e, n)) ==> e == self.spec_entry_total() && n == self.spec_node_total(),
            r is Ok <==> self.spec_entry_total() <= i64::MAX && self.spec_node_total() <= i64::MAX,
            r is Err ==> r matches Err(ExecuteError::AggregateOverflow),
    {
        proof {
            use_type_invariant(self);
        }
        if self.overflow || self.entries > i64::MAX as u64 || self.nodes > i64::MAX as u64 {
            Err(ExecuteError::AggregateOverflow)
        } else {
            Ok((self.entries, self.nodes))
        }
    }
}

impl PreparedQuery {
    /// Run an admitted plan against an immutable projection. Unweighted kernels run here;
    /// weighted ones are handed back with their resolved source.
    pub fn execute(&self, graph: &GrustcatGraph, parameter: Option<i64>, ctx: &ExecutionContext) -> (r: Result<
        Outcome,
        ExecuteError,
    >)
        ensures
            r matches Ok(Outcome::Distances(d)) ==> self.spec_algorithm() == Algorithm::Bfs && (self.spec_source() matches Some(
                src,
            ) && resolved_source(src, parameter) matches Ok(s) && hop_distances(graph.spec_outgoing()@, s as int, d@)),
            r matches Ok(Outcome::Labels(l)) ==> (self.spec_algorithm() == Algorithm::Wcc && weak_component_labels(
                graph.spec_outgoing()@,
                l@,
            )) || (self.spec_algorithm() == Algorithm::Scc && strong_component_labels(graph.spec_outgoing()@, l@)),
            r matches Ok(Outcome::Weighted(a, s)) ==> a == self.spec_algorithm() && (a == Algorithm::Dijkstra || a
                == Algorithm::PageRank || a == Algorithm::FullPaths) && match self.spec_source() {
                Some(src) => resolved_source(src, parameter) matches Ok(v) && s == Some(v) && v
                    < graph.spec_outgoing()@.len(),
                None => s is None,
            },
            r matches Err(e) ==> e == ExecuteError::Engine(Error::Cancelled) || (self.spec_source() matches Some(src)
                && resolved_source(src, parameter) == Err::<usize, ExecuteError>(e)) || (self.spec_source() matches Some(
                src,
            ) && resolved_source(src, parameter) matches Ok(x) && x >= graph.spec_outgoing()@.len() && e
                == ExecuteError::Engine(Error::InvalidNode(x as u64))),
            self.spec_source() is Some && resolved_source(self.spec_source()->Some_0, parameter) is Err ==> (r
                == Err::<Outcome, ExecuteError>(resolved_source(self.spec_source()->Some_0, parameter)->Err_0) || r
                == Err::<Outcome, ExecuteError>(ExecuteError::Engine(Error::Cancelled))),
            self.spec_source() is Some && resolved_source(self.spec_source()->Some_0, parameter) is Ok
                && resolved_source(self.spec_source()->Some_0, parameter)->Ok_0 >= graph.spec_outgoing()@.len() ==> (r
                == Err::<Outcome, ExecuteError>(
                ExecuteError::Engine(
                    Error::InvalidNode(resolved_source(self.spec_source()->Some_0, parameter)->Ok_0 as u64),
                ),
            ) || r == Err::<Outcome, ExecuteError>(ExecuteError::Engine(Error::Cancelled))),
    {
        proof {
            use_type_invariant(self);
        }
        if let Err(e) = ctx.check() {
            return Err(ExecuteError::Engine(e));
        }
        let start = match &self.source {
            Some(src) => match source(src, parameter) {
                Ok(v) => Some(v),
                Err(e) => return Err(e),
            },
            None => None,
        };
        match self.algorithm {
            Algorithm::Bfs => {
                let s = match start {
                    Some(s) => s,
                    None => 0,
                };
                match graph.bfs(s, ctx) {
                    Ok(d) => Ok(Outcome::Distances(d)),
                    Err(e) => Err(ExecuteError::Engine(e)),
                }
            },
            Algorithm::Wcc => match graph.weakly_connected_components(ctx) {
                Ok(l) => Ok(Outcome::Labels(l)),
                Err(e) => Err(ExecuteError::Engine(e)),
            },
            Algorithm::Scc => match graph.strongly_connected_components(ctx) {
                Ok(l) => Ok(Outcome::Labels(l)),
                Err(e) => Err(ExecuteError::Engine(e)),
            },
            a => {
                if let Some(s) = start {
                    if let Err(e) = graph.check_source(s) {
                        return Err(ExecuteError::Engine(e));
                    }
                }
                Ok(Outcome::Weighted(a, start))
            },
        }
    }
}

} // verus!
