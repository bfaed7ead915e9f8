//! Running physical plans.

use crate::algebra::{
    aggregates_view, names, opt_expr_view, order_keys_view, patterns_view, rows_view, AggFunc,
    AggFuncView, Aggregate, AggregateView, DatasetSpec, DatasetView, Expr, ExprView, GraphScope,
    GraphScopeView, GraphSpec, GraphSpecView, OrderDir, PatternView, Term, TermView, TriplePattern,
    Var, PATH_DST_VAR, PATH_SRC_VAR,
};
use crate::collections::NameSet;
use crate::error::SparqlError;
use crate::exec::aggregate::count_view;
use crate::exec::batch::{row_binding, solutions, Batch, BatchView, Dict, Row, Slot, SlotView};
use crate::exec::bindings::{bindings_view, bound_to, lookup, Bindings};
use crate::exec::decode::{decode_row, decode_subset};
use crate::exec::executor::{binds, bound_to_their_names, Executor};
use crate::exec::group::{eval_group_native, group_batch};
use crate::exec::join::{
    join, join_batch, left_join, left_join_batch, minus, minus_batch,
};
use crate::exec::literal::integer_literal;
use crate::exec::number::Numbers;
use crate::exec::operators::{
    apply_extend, apply_filter, apply_project, distinct, distinct_batch, extend_batch, filter_batch,
    project_batch, slice, slice_batch, slice_rows, union, union_batch, value_slot, values_batch,
    values_rows,
};
use crate::exec::order::{
    arranged, compute_order_by, compute_top_k, order_batch, resolves_all, top_batch,
    top_rows_are_a_prefix_of_the_sort,
};
use crate::exec::path::{eval_path_closure, path_solutions};
use crate::exec::scope::{graphs_view, NamedGraphView, ScanScope, ScopeView};
use crate::exec::sort::{first_rows, merge_sorted, SortCol};
use crate::plan::passes::{endpoint_vars, endpoints};
use crate::plan::pushdown::{rewrite, rewritten};
use crate::plan::{PhysicalPlan, PhysicalView};
use crate::text::{same_text, Text};
use crate::DefaultGraphMode;
use vstd::prelude::*;

verus! {

// ── The graphs variables stand for ──────────────────────────────────────────

/// The graph each enclosing graph variable currently stands for.
pub struct GraphEnv {
    graphs: Vec<(String, String)>,
}

spec fn env_map(s: Seq<(String, String)>) -> Map<Text, Text>
    decreases s.len(),
{
    if s.len() == 0 {
        Map::empty()
    } else {
        env_map(s.drop_last()).insert(s.last().0@, s.last().1@)
    }
}

impl GraphEnv {
    pub closed spec fn view(&self) -> Map<Text, Text> {
        env_map(self.graphs@)
    }

    pub fn new() -> (r: GraphEnv)
        ensures
            r@ == Map::<Text, Text>::empty(),
    {
        GraphEnv { graphs: Vec::new() }
    }

    /// The same environment with one more variable bound.
    pub fn with(&self, var: &str, iri: &str) -> (r: GraphEnv)
        ensures
            r@ == self@.insert(var@, iri@),
    {
        let mut graphs: Vec<(String, String)> = Vec::new();
        let mut i: usize = 0;
        let ghost all = self.graphs@;
        assert(env_map(graphs@) =~= env_map(all.take(0)));
        while i < self.graphs.len()
            invariant
                i <= self.graphs@.len(),
                all == self.graphs@,
                env_map(graphs@) == env_map(all.take(i as int)),
            decreases self.graphs@.len() - i,
        {
            let ghost before = graphs@;
            graphs.push((self.graphs[i].0.clone(), self.graphs[i].1.clone()));
            proof {
                assert(graphs@.drop_last() =~= before);
                assert(all.take(i + 1).drop_last() =~= all.take(i as int));
                assert(all.take(i + 1).last() == all[i as int]);
            }
            i = i + 1;
        }
        let ghost before = graphs@;
        graphs.push((var.to_owned(), iri.to_owned()));
        proof {
            assert(graphs@.drop_last() =~= before);
            assert(all.take(all.len() as int) =~= all);
        }
        GraphEnv { graphs }
    }

    pub fn get(&self, var: &str) -> (r: Option<&String>)
        ensures
            match r {
                Some(g) => self@.contains_key(var@) && self@[var@] == g@,
                None => !self@.contains_key(var@),
            },
    {
        let ghost all = self.graphs@;
        let mut i: usize = self.graphs.len();
        assert(all.take(all.len() as int) =~= all);
        while i > 0
            invariant
                i <= self.graphs@.len(),
                all == self.graphs@,
                env_map(all).contains_key(var@) == env_map(all.take(i as int)).contains_key(var@),
                env_map(all).contains_key(var@) ==> env_map(all)[var@] == env_map(
                    all.take(i as int),
                )[var@],
            decreases i,
        {
            proof {
                assert(all.take(i as int).drop_last() =~= all.take(i - 1));
                assert(all.take(i as int).last() == all[i - 1]);
            }
            i = i - 1;
            if same_text(self.graphs[i].0.as_str(), var) {
                return Some(&self.graphs[i].1);
            }
        }
        assert(all.take(0).len() == 0);
        None
    }
}

/// The scope of a scan under the graphs its variables stand for.
pub open spec fn scope_in(env: Map<Text, Text>, scope: GraphScopeView) -> GraphScopeView {
    match scope {
        GraphScopeView::Named(GraphSpecView::Var(v)) => if env.contains_key(v) {
            GraphScopeView::Named(GraphSpecView::Iri(env[v]))
        } else {
            scope
        },
        _ => scope,
    }
}

fn resolve_scope(env: &GraphEnv, scope: &GraphScope) -> (r: GraphScope)
    ensures
        r@ == scope_in(env@, scope@),
{
    match scope {
        GraphScope::Named(GraphSpec::Var(v)) => match env.get(v.name()) {
            Some(g) => GraphScope::Named(GraphSpec::Iri(g.clone())),
            None => scope.clone(),
        },
        _ => scope.clone(),
    }
}

// ── What a plan yields ──────────────────────────────────────────────────────

/// The dataset clause and mode of a query.
#[allow(inconsistent_fields)]
#[verifier::ext_equal]
pub struct QueryView {
    pub dataset: DatasetView,
    pub mode: DefaultGraphMode,
}

impl QueryView {
    pub open spec fn scope(self, env: Map<Text, Text>, scope: GraphScopeView) -> ScopeView {
        ScopeView { graph: scope_in(env, scope), dataset: self.dataset, mode: self.mode }
    }
}

/// A single row with a count.
pub open spec fn count_batch(var: Text, n: nat) -> BatchView {
    BatchView { schema: seq![var], rows: seq![seq![SlotView::Term(count_view(n))]] }
}

/// One count of rows per variable.
pub open spec fn row_counts(vars: Seq<Text>) -> Seq<AggregateView> {
    Seq::new(
        vars.len(),
        |i: int|
            AggregateView { out: vars[i], func: AggFuncView::CountStar, distinct: false },
    )
}

/// A batch of one row, binding a variable to a graph.
pub open spec fn graph_batch(var: Text, binding: SlotView) -> BatchView {
    BatchView { schema: seq![var], rows: seq![seq![binding]] }
}

/// The rows of every graph, each with the graph variable bound to its graph.
pub open spec fn per_graph_batch(
    d: Dict,
    var: Text,
    graphs: Seq<NamedGraphView>,
    parts: Seq<BatchView>,
    n: int,
) -> BatchView
    decreases n,
{
    if n <= 0 {
        BatchView { schema: seq![var], rows: Seq::empty() }
    } else {
        union_batch(
            d,
            per_graph_batch(d, var, graphs, parts, n - 1),
            join_batch(d, parts[n - 1], graph_batch(var, graphs[n - 1].binding)),
        )
    }
}

/// The ends of the edges a batch holds.
pub open spec fn edge_maps(d: Dict, b: BatchView) -> Seq<Map<Text, TermView>> {
    Seq::new(
        b.rows.len(),
        |i: int|
            row_binding(d, b.schema, b.rows[i], set![PATH_SRC_VAR@, PATH_DST_VAR@]),
    )
}

/// Solution mappings as rows of terms.
pub open spec fn term_batch(vars: Seq<Text>, sols: Seq<Map<Text, TermView>>) -> BatchView {
    BatchView {
        schema: vars,
        rows: Seq::new(
            sols.len(),
            |k: int| Seq::new(vars.len(), |c: int| value_slot(bound_to(sols[k], vars[c]))),
        ),
    }
}

/// A record of a run: what a node yielded, the records of the nodes below it,
/// and what came from the store or the search for paths.
#[allow(inconsistent_fields)]
#[verifier::ext_equal]
pub struct Run {
    pub out: BatchView,
    pub below: Seq<Run>,
    pub scanned: BatchView,
    pub graphs: Seq<NamedGraphView>,
    pub found: Seq<Map<Text, TermView>>,
}

/// Is this a record of a run of a plan? The scans of the leaves and the
/// enumeration of graphs are the store's; everything above them is determined.
pub open spec fn is_run<E: Executor>(
    exec: &E,
    q: QueryView,
    env: Map<Text, Text>,
    plan: PhysicalView,
    run: Run,
) -> bool
    decreases plan,
{
    let d = exec.dict();
    let first = run.below[0];
    let second = run.below[1];
    match plan {
        PhysicalView::BgpScan { patterns, scope } => binds(patterns, run.out) && exec.scans(
            patterns,
            q.scope(env, scope),
            run.out,
        ),
        PhysicalView::CountScan { patterns, scope, out_var } => binds(patterns, run.scanned)
            && exec.scans(patterns, q.scope(env, scope), run.scanned) && run.out == count_batch(out_var, run.scanned.rows.len()),
        PhysicalView::GroupCountScan { patterns, scope, keys, out_vars } => binds(
            patterns,
            run.scanned,
        ) && exec.scans(patterns, q.scope(env, scope), run.scanned) && group_batch::<E::N>(
            d,
            run.scanned,
            keys,
            row_counts(out_vars),
            run.out,
        ),
        PhysicalView::Join { left, right } => is_run(exec, q, env, *left, first) && is_run(
            exec,
            q,
            env,
            *right,
            second,
        ) && run.out == join_batch(d, first.out, second.out),
        PhysicalView::LeftJoin { left, right, expr } => is_run(exec, q, env, *left, first)
            && is_run(exec, q, env, *right, second) && run.out == left_join_batch::<E::N>(
            d,
            first.out,
            second.out,
            expr,
        ),
        PhysicalView::Minus { left, right } => is_run(exec, q, env, *left, first) && is_run(
            exec,
            q,
            env,
            *right,
            second,
        ) && run.out == minus_batch(d, first.out, second.out),
        PhysicalView::Filter { expr, inner } => is_run(exec, q, env, *inner, first) && run.out
            == filter_batch::<E::N>(d, first.out, expr),
        PhysicalView::Union { left, right } => is_run(exec, q, env, *left, first) && is_run(
            exec,
            q,
            env,
            *right,
            second,
        ) && run.out == union_batch(d, first.out, second.out),
        PhysicalView::Project { vars, inner } => is_run(exec, q, env, *inner, first) && run.out
            == project_batch(first.out, vars),
        PhysicalView::Distinct { inner } => is_run(exec, q, env, *inner, first) && run.out
            == distinct_batch(first.out),
        PhysicalView::Slice { inner, start, length } => is_run(exec, q, env, *inner, first)
            && run.out == slice_batch(first.out, start as int, length),
        PhysicalView::OrderBy { inner, keys } => is_run(exec, q, env, *inner, first)
            && order_batch::<E::N>(d, first.out, keys, run.out),
        PhysicalView::Extend { inner, var, expr } => is_run(exec, q, env, *inner, first) && run.out
            == extend_batch::<E::N>(d, first.out, var, expr),
        PhysicalView::Values { vars, rows } => run.out == values_batch(vars, rows),
        PhysicalView::Group { inner, keys, aggregates } => is_run(exec, q, env, *inner, first)
            && group_batch::<E::N>(d, first.out, keys, aggregates, run.out),
        PhysicalView::PerGraph { var, inner } => bound_to_their_names(d, run.graphs)
            && exec.enumerates(q.dataset, run.graphs)
            && run.below.len() == run.graphs.len() && (forall|i: int|
            0 <= i < run.graphs.len() ==> is_run(
                exec,
                q,
                env.insert(var, run.graphs[i].iri),
                *inner,
                #[trigger] run.below[i],
            )) && run.out == per_graph_batch(
            d,
            var,
            run.graphs,
            outs(run.below),
            run.graphs.len() as int,
        ),
        PhysicalView::PathClosure { subject, object, edge, reflexive } => is_run(
            exec,
            q,
            env,
            *edge,
            first,
        ) && path_solutions(subject, object, edge_maps(d, first.out), reflexive, run.found)
            && run.out == term_batch(
            endpoint_vars(object, endpoint_vars(subject, Seq::empty())),
            run.found,
        ),
    }
}

pub open spec fn outs(runs: Seq<Run>) -> Seq<BatchView> {
    Seq::new(runs.len(), |i: int| runs[i].out)
}

/// May a plan yield a batch?
#[verifier::opaque]
pub open spec fn yields<E: Executor>(
    exec: &E,
    q: QueryView,
    env: Map<Text, Text>,
    plan: PhysicalView,
    out: BatchView,
) -> bool {
    exists|run: Run| #[trigger] is_run(exec, q, env, plan, run) && run.out == out
}

/// The record behind what a plan yielded.
spec fn record<E: Executor>(
    exec: &E,
    q: QueryView,
    env: Map<Text, Text>,
    plan: PhysicalView,
    out: BatchView,
) -> Run {
    choose|run: Run| #[trigger] is_run(exec, q, env, plan, run) && run.out == out
}

spec fn made_of(out: BatchView, below: Seq<Run>) -> Run {
    Run { out, below, scanned: out, graphs: Seq::empty(), found: Seq::empty() }
}

// The rules a run follows, node by node.

proof fn scan_yields<E: Executor>(
    exec: &E,
    q: QueryView,
    env: Map<Text, Text>,
    patterns: Seq<PatternView>,
    scope: GraphScopeView,
    out: BatchView,
)
    requires
        binds(patterns, out),
        exec.scans(patterns, q.scope(env, scope), out),
    ensures
        yields(exec, q, env, PhysicalView::BgpScan { patterns, scope }, out),
{
    reveal(yields);
    let plan = PhysicalView::BgpScan { patterns, scope };
    assert(is_run(exec, q, env, plan, made_of(out, Seq::empty())));
}

proof fn count_yields<E: Executor>(
    exec: &E,
    q: QueryView,
    env: Map<Text, Text>,
    patterns: Seq<PatternView>,
    scope: GraphScopeView,
    out_var: Text,
    c: BatchView,
)
    requires
        binds(patterns, c),
        exec.scans(patterns, q.scope(env, scope), c),
    ensures
        yields(
            exec,
            q,
            env,
            PhysicalView::CountScan { patterns, scope, out_var },
            count_batch(out_var, c.rows.len()),
        ),
{
    reveal(yields);
    let plan = PhysicalView::CountScan { patterns, scope, out_var };
    let out = count_batch(out_var, c.rows.len());
    let run = Run { out, below: Seq::empty(), scanned: c, graphs: Seq::empty(), found: Seq::empty() };
    assert(is_run(exec, q, env, plan, run));
}

proof fn group_count_yields<E: Executor>(
    exec: &E,
    q: QueryView,
    env: Map<Text, Text>,
    patterns: Seq<PatternView>,
    scope: GraphScopeView,
    keys: Seq<Text>,
    out_vars: Seq<Text>,
    c: BatchView,
    out: BatchView,
)
    requires
        binds(patterns, c),
        exec.scans(patterns, q.scope(env, scope), c),
        group_batch::<E::N>(exec.dict(), c, keys, row_counts(out_vars), out),
    ensures
        yields(
            exec,
            q,
            env,
            PhysicalView::GroupCountScan { patterns, scope, keys, out_vars },
            out,
        ),
{
    reveal(yields);
    let plan = PhysicalView::GroupCountScan { patterns, scope, keys, out_vars };
    let run = Run { out, below: Seq::empty(), scanned: c, graphs: Seq::empty(), found: Seq::empty() };
    assert(is_run(exec, q, env, plan, run));
}

proof fn join_yields<E: Executor>(
    exec: &E,
    q: QueryView,
    env: Map<Text, Text>,
    left: PhysicalView,
    right: PhysicalView,
    a: BatchView,
    b: BatchView,
)
    requires
        yields(exec, q, env, left, a),
        yields(exec, q, env, right, b),
    ensures
        yields(
            exec,
            q,
            env,
            PhysicalView::Join { left: Box::new(left), right: Box::new(right) },
            join_batch(exec.dict(), a, b),
        ),
{
    reveal(yields);
    let plan = PhysicalView::Join { left: Box::new(left), right: Box::new(right) };
    let (x, y) = (record(exec, q, env, left, a), record(exec, q, env, right, b));
    let run = made_of(join_batch(exec.dict(), a, b), seq![x, y]);
    assert(run.below[0] == x && run.below[1] == y);
    assert(is_run(exec, q, env, plan, run));
}

proof fn left_join_yields<E: Executor>(
    exec: &E,
    q: QueryView,
    env: Map<Text, Text>,
    left: PhysicalView,
    right: PhysicalView,
    expr: Option<ExprView>,
    a: BatchView,
    b: BatchView,
)
    requires
        yields(exec, q, env, left, a),
        yields(exec, q, env, right, b),
    ensures
        yields(
            exec,
            q,
            env,
            PhysicalView::LeftJoin { left: Box::new(left), right: Box::new(right), expr },
            left_join_batch::<E::N>(exec.dict(), a, b, expr),
        ),
{
    reveal(yields);
    let plan = PhysicalView::LeftJoin { left: Box::new(left), right: Box::new(right), expr };
    let (x, y) = (record(exec, q, env, left, a), record(exec, q, env, right, b));
    let run = made_of(left_join_batch::<E::N>(exec.dict(), a, b, expr), seq![x, y]);
    assert(run.below[0] == x && run.below[1] == y);
    assert(is_run(exec, q, env, plan, run));
}

proof fn minus_yields<E: Executor>(
    exec: &E,
    q: QueryView,
    env: Map<Text, Text>,
    left: PhysicalView,
    right: PhysicalView,
    a: BatchView,
    b: BatchView,
)
    requires
        yields(exec, q, env, left, a),
        yields(exec, q, env, right, b),
    ensures
        yields(
            exec,
            q,
            env,
            PhysicalView::Minus { left: Box::new(left), right: Box::new(right) },
            minus_batch(exec.dict(), a, b),
        ),
{
    reveal(yields);
    let plan = PhysicalView::Minus { left: Box::new(left), right: Box::new(right) };
    let (x, y) = (record(exec, q, env, left, a), record(exec, q, env, right, b));
    let run = made_of(minus_batch(exec.dict(), a, b), seq![x, y]);
    assert(run.below[0] == x && run.below[1] == y);
    assert(is_run(exec, q, env, plan, run));
}

proof fn union_yields<E: Executor>(
    exec: &E,
    q: QueryView,
    env: Map<Text, Text>,
    left: PhysicalView,
    right: PhysicalView,
    a: BatchView,
    b: BatchView,
)
    requires
        yields(exec, q, env, left, a),
        yields(exec, q, env, right, b),
    ensures
        yields(
            exec,
            q,
            env,
            PhysicalView::Union { left: Box::new(left), right: Box::new(right) },
            union_batch(exec.dict(), a, b),
        ),
{
    reveal(yields);
    let plan = PhysicalView::Union { left: Box::new(left), right: Box::new(right) };
    let (x, y) = (record(exec, q, env, left, a), record(exec, q, env, right, b));
    let run = made_of(union_batch(exec.dict(), a, b), seq![x, y]);
    assert(run.below[0] == x && run.below[1] == y);
    assert(is_run(exec, q, env, plan, run));
}

proof fn filter_yields<E: Executor>(
    exec: &E,
    q: QueryView,
    env: Map<Text, Text>,
    inner: PhysicalView,
    expr: ExprView,
    c: BatchView,
)
    requires
        yields(exec, q, env, inner, c),
    ensures
        yields(
            exec,
            q,
            env,
            PhysicalView::Filter { inner: Box::new(inner), expr },
            filter_batch::<E::N>(exec.dict(), c, expr),
        ),
{
    reveal(yields);
    let plan = PhysicalView::Filter { inner: Box::new(inner), expr };
    let x = record(exec, q, env, inner, c);
    let run = made_of(filter_batch::<E::N>(exec.dict(), c, expr), seq![x]);
    assert(run.below[0] == x);
    assert(is_run(exec, q, env, plan, run));
}

proof fn project_yields<E: Executor>(
    exec: &E,
    q: QueryView,
    env: Map<Text, Text>,
    inner: PhysicalView,
    vars: Seq<Text>,
    c: BatchView,
)
    requires
        yields(exec, q, env, inner, c),
    ensures
        yields(
            exec,
            q,
            env,
            PhysicalView::Project { inner: Box::new(inner), vars },
            project_batch(c, vars),
        ),
{
    reveal(yields);
    let plan = PhysicalView::Project { inner: Box::new(inner), vars };
    let x = record(exec, q, env, inner, c);
    let run = made_of(project_batch(c, vars), seq![x]);
    assert(run.below[0] == x);
    assert(is_run(exec, q, env, plan, run));
}

proof fn distinct_yields<E: Executor>(
    exec: &E,
    q: QueryView,
    env: Map<Text, Text>,
    inner: PhysicalView,
    c: BatchView,
)
    requires
        yields(exec, q, env, inner, c),
    ensures
        yields(
            exec,
            q,
            env,
            PhysicalView::Distinct { inner: Box::new(inner) },
            distinct_batch(c),
        ),
{
    reveal(yields);
    let plan = PhysicalView::Distinct { inner: Box::new(inner) };
    let x = record(exec, q, env, inner, c);
    let run = made_of(distinct_batch(c), seq![x]);
    assert(run.below[0] == x);
    assert(is_run(exec, q, env, plan, run));
}

proof fn slice_yields<E: Executor>(
    exec: &E,
    q: QueryView,
    env: Map<Text, Text>,
    inner: PhysicalView,
    start: usize,
    length: Option<usize>,
    c: BatchView,
)
    requires
        yields(exec, q, env, inner, c),
    ensures
        yields(
            exec,
            q,
            env,
            PhysicalView::Slice { inner: Box::new(inner), start, length },
            slice_batch(c, start as int, length),
        ),
{
    reveal(yields);
    let plan = PhysicalView::Slice { inner: Box::new(inner), start, length };
    let x = record(exec, q, env, inner, c);
    let run = made_of(slice_batch(c, start as int, length), seq![x]);
    assert(run.below[0] == x);
    assert(is_run(exec, q, env, plan, run));
}

proof fn order_yields<E: Executor>(
    exec: &E,
    q: QueryView,
    env: Map<Text, Text>,
    inner: PhysicalView,
    keys: Seq<(ExprView, OrderDir)>,
    c: BatchView,
    out: BatchView,
)
    requires
        yields(exec, q, env, inner, c),
        order_batch::<E::N>(exec.dict(), c, keys, out),
    ensures
        yields(
            exec,
            q,
            env,
            PhysicalView::OrderBy { inner: Box::new(inner), keys },
            out,
        ),
{
    reveal(yields);
    let plan = PhysicalView::OrderBy { inner: Box::new(inner), keys };
    let x = record(exec, q, env, inner, c);
    let run = made_of(out, seq![x]);
    assert(run.below[0] == x);
    assert(is_run(exec, q, env, plan, run));
}

proof fn extend_yields<E: Executor>(
    exec: &E,
    q: QueryView,
    env: Map<Text, Text>,
    inner: PhysicalView,
    var: Text,
    expr: ExprView,
    c: BatchView,
)
    requires
        yields(exec, q, env, inner, c),
    ensures
        yields(
            exec,
            q,
            env,
            PhysicalView::Extend { inner: Box::new(inner), var, expr },
            extend_batch::<E::N>(exec.dict(), c, var, expr),
        ),
{
    reveal(yields);
    let plan = PhysicalView::Extend { inner: Box::new(inner), var, expr };
    let x = record(exec, q, env, inner, c);
    let run = made_of(extend_batch::<E::N>(exec.dict(), c, var, expr), seq![x]);
    assert(run.below[0] == x);
    assert(is_run(exec, q, env, plan, run));
}

proof fn group_yields<E: Executor>(
    exec: &E,
    q: QueryView,
    env: Map<Text, Text>,
    inner: PhysicalView,
    keys: Seq<Text>,
    aggregates: Seq<AggregateView>,
    c: BatchView,
    out: BatchView,
)
    requires
        yields(exec, q, env, inner, c),
        group_batch::<E::N>(exec.dict(), c, keys, aggregates, out),
    ensures
        yields(
            exec,
            q,
            env,
            PhysicalView::Group { inner: Box::new(inner), keys, aggregates },
            out,
        ),
{
    reveal(yields);
    let plan = PhysicalView::Group { inner: Box::new(inner), keys, aggregates };
    let x = record(exec, q, env, inner, c);
    let run = made_of(out, seq![x]);
    assert(run.below[0] == x);
    assert(is_run(exec, q, env, plan, run));
}

proof fn values_yield<E: Executor>(
    exec: &E,
    q: QueryView,
    env: Map<Text, Text>,
    vars: Seq<Text>,
    rows: Seq<Seq<Option<TermView>>>,
)
    ensures
        yields(exec, q, env, PhysicalView::Values { vars, rows }, values_batch(vars, rows)),
{
    reveal(yields);
    let plan = PhysicalView::Values { vars, rows };
    assert(is_run(exec, q, env, plan, made_of(values_batch(vars, rows), Seq::empty())));
}

proof fn per_graph_yields<E: Executor>(
    exec: &E,
    q: QueryView,
    env: Map<Text, Text>,
    var: Text,
    inner: PhysicalView,
    gs: Seq<NamedGraphView>,
    parts: Seq<BatchView>,
)
    requires
        bound_to_their_names(exec.dict(), gs),
        exec.enumerates(q.dataset, gs),
        parts.len() == gs.len(),
        forall|i: int|
            0 <= i < gs.len() ==> yields(
                exec,
                q,
                env.insert(var, gs[i].iri),
                inner,
                #[trigger] parts[i],
            ),
    ensures
        yields(
            exec,
            q,
            env,
            PhysicalView::PerGraph { var, inner: Box::new(inner) },
            per_graph_batch(exec.dict(), var, gs, parts, gs.len() as int),
        ),
{
    reveal(yields);
    let plan = PhysicalView::PerGraph { var, inner: Box::new(inner) };
    let out = per_graph_batch(exec.dict(), var, gs, parts, gs.len() as int);
    let below = Seq::new(
        gs.len(),
        |i: int| record(exec, q, env.insert(var, gs[i].iri), inner, parts[i]),
    );
    let run = Run { out, below, scanned: out, graphs: gs, found: Seq::empty() };
    assert forall|i: int| 0 <= i < gs.len() implies is_run(
        exec,
        q,
        env.insert(var, gs[i].iri),
        inner,
        #[trigger] below[i],
    ) && below[i].out == parts[i] by {
        assert(yields(exec, q, env.insert(var, gs[i].iri), inner, parts[i]));
    }
    assert(outs(below) =~= parts);
    assert(is_run(exec, q, env, plan, run));
}

proof fn path_yields<E: Executor>(
    exec: &E,
    q: QueryView,
    env: Map<Text, Text>,
    subject: TermView,
    object: TermView,
    edge: PhysicalView,
    reflexive: bool,
    c: BatchView,
    sols: Seq<Map<Text, TermView>>,
)
    requires
        yields(exec, q, env, edge, c),
        path_solutions(subject, object, edge_maps(exec.dict(), c), reflexive, sols),
    ensures
        yields(
            exec,
            q,
            env,
            PhysicalView::PathClosure { subject, object, edge: Box::new(edge), reflexive },
            term_batch(endpoint_vars(object, endpoint_vars(subject, Seq::empty())), sols),
        ),
{
    reveal(yields);
    let plan = PhysicalView::PathClosure { subject, object, edge: Box::new(edge), reflexive };
    let out = term_batch(endpoint_vars(object, endpoint_vars(subject, Seq::empty())), sols);
    let x = record(exec, q, env, edge, c);
    let run = Run { out, below: seq![x], scanned: out, graphs: Seq::empty(), found: sols };
    assert(run.below[0] == x);
    assert(is_run(exec, q, env, plan, run));
}

/// Does every scan of a plan read graphs that are known when it runs?
pub open spec fn closed_plan(plan: PhysicalView, bound: Set<Text>) -> bool
    decreases plan,
{
    match plan {
        PhysicalView::BgpScan { scope, .. } => closed_scope(scope, bound),
        PhysicalView::CountScan { scope, .. } => closed_scope(scope, bound),
        PhysicalView::GroupCountScan { scope, .. } => closed_scope(scope, bound),
        PhysicalView::Join { left, right } => closed_plan(*left, bound) && closed_plan(
            *right,
            bound,
        ),
        PhysicalView::LeftJoin { left, right, .. } => closed_plan(*left, bound) && closed_plan(
            *right,
            bound,
        ),
        PhysicalView::Minus { left, right } => closed_plan(*left, bound) && closed_plan(
            *right,
            bound,
        ),
        PhysicalView::Union { left, right } => closed_plan(*left, bound) && closed_plan(
            *right,
            bound,
        ),
        PhysicalView::Filter { inner, .. } => closed_plan(*inner, bound),
        PhysicalView::Project { inner, .. } => closed_plan(*inner, bound),
        PhysicalView::Distinct { inner } => closed_plan(*inner, bound),
        PhysicalView::Slice { inner, .. } => closed_plan(*inner, bound),
        PhysicalView::OrderBy { inner, .. } => closed_plan(*inner, bound),
        PhysicalView::Extend { inner, .. } => closed_plan(*inner, bound),
        PhysicalView::Values { .. } => true,
        PhysicalView::Group { inner, .. } => closed_plan(*inner, bound),
        PhysicalView::PerGraph { var, inner } => closed_plan(*inner, bound.insert(var)),
        PhysicalView::PathClosure { edge, .. } => closed_plan(*edge, bound),
    }
}

pub open spec fn closed_scope(scope: GraphScopeView, bound: Set<Text>) -> bool {
    match scope {
        GraphScopeView::Named(GraphSpecView::Var(v)) => bound.contains(v),
        _ => true,
    }
}

// ── Running a plan ──────────────────────────────────────────────────────────

/// A query runtime over a store.
pub struct Runtime<'a, E: Executor> {
    pub store: &'a E,
    /// The query's dataset clause.
    pub dataset: DatasetSpec,
    pub mode: DefaultGraphMode,
}

fn count_rows(var: &Var, n: u64) -> (r: Batch)
    ensures
        r@ == count_batch(var@, n as nat),
        r@.wf(),
{
    let slots: Vec<Slot> = vec![Slot::Term(integer_literal(n as i64))];
    let row = Row(slots);
    assert(row@ =~= seq![SlotView::Term(count_view(n as nat))]);
    let rows: Vec<Row> = vec![row];
    let schema: Vec<Var> = vec![var.clone()];
    let b = Batch { schema, rows };
    assert(b@.schema =~= seq![var@]);
    assert(b@.rows =~= seq![seq![SlotView::Term(count_view(n as nat))]]);
    b
}

fn count_aggregates(vars: &Vec<Var>) -> (r: Vec<Aggregate>)
    ensures
        aggregates_view(r@) == row_counts(names(vars@)),
{
    let mut out: Vec<Aggregate> = Vec::new();
    let mut i: usize = 0;
    while i < vars.len()
        invariant
            i == out@.len(),
            i <= vars@.len(),
            forall|q: int|
                0 <= q < i ==> (#[trigger] out@[q])@ == row_counts(names(vars@))[q],
        decreases vars@.len() - i,
    {
        let a = Aggregate { out: vars[i].clone(), func: AggFunc::CountStar, distinct: false };
        assert(a@ == row_counts(names(vars@))[i as int]);
        out.push(a);
        i = i + 1;
    }
    assert(aggregates_view(out@) =~= row_counts(names(vars@)));
    out
}

fn graph_row(var: &Var, binding: &Slot) -> (r: Batch)
    ensures
        r@ == graph_batch(var@, binding@),
        r@.wf(),
{
    let slots: Vec<Slot> = vec![binding.clone()];
    let row = Row(slots);
    assert(row@ =~= seq![binding@]);
    let rows: Vec<Row> = vec![row];
    let schema: Vec<Var> = vec![var.clone()];
    let b = Batch { schema, rows };
    assert(b@.schema =~= seq![var@]);
    assert(b@.rows =~= seq![seq![binding@]]);
    b
}

/// The rows of some solution mappings.
fn term_rows(vars: Vec<Var>, sols: &Vec<Bindings>) -> (r: Batch)
    ensures
        r@ == term_batch(names(vars@), bindings_view(sols@)),
        r@.wf(),
{
    let ghost vv = names(vars@);
    let ghost goal = term_batch(vv, bindings_view(sols@));
    let mut rows: Vec<Row> = Vec::new();
    let mut k: usize = 0;
    while k < sols.len()
        invariant
            k == rows@.len(),
            k <= sols@.len(),
            vv == names(vars@),
            goal == term_batch(vv, bindings_view(sols@)),
            forall|q: int| 0 <= q < k ==> (#[trigger] rows@[q])@ == goal.rows[q],
        decreases sols@.len() - k,
    {
        let mut slots: Vec<Slot> = Vec::new();
        let mut c: usize = 0;
        while c < vars.len()
            invariant
                c == slots@.len(),
                c <= vars@.len(),
                k < sols@.len(),
                vv == names(vars@),
                forall|q: int|
                    0 <= q < c ==> (#[trigger] slots@[q])@ == value_slot(
                        bound_to(sols@[k as int]@, vv[q]),
                    ),
            decreases vars@.len() - c,
        {
            assert(vv[c as int] == vars@[c as int]@);
            match lookup(&sols[k], vars[c].name()) {
                Some(t) => slots.push(Slot::Term(t)),
                None => slots.push(Slot::Unbound),
            }
            c = c + 1;
        }
        let row = Row(slots);
        assert(row@ =~= goal.rows[k as int]);
        rows.push(row);
        k = k + 1;
    }
    let b = Batch { schema: vars, rows };
    assert(b@.rows =~= goal.rows);
    b
}

/// Decodes the ends of the edges of a batch.
fn decode_edges<E: Executor>(exec: &E, batch: &Batch) -> (r: Result<Vec<Bindings>, SparqlError>)
    requires
        batch@.wf(),
    ensures
        r matches Ok(v) ==> bindings_view(v@) == edge_maps(exec.dict(), batch@),
        exec.reliable() ==> r is Ok,
{
    let ghost bv = batch@;
    let mut want = NameSet::new();
    want.insert(PATH_SRC_VAR);
    want.insert(PATH_DST_VAR);
    assert(want@ =~= set![PATH_SRC_VAR@, PATH_DST_VAR@]);
    let mut out: Vec<Bindings> = Vec::new();
    let mut i: usize = 0;
    while i < batch.rows.len()
        invariant
            i == out@.len(),
            i <= batch.rows@.len(),
            bv == batch@,
            bv.wf(),
            want@ == set![PATH_SRC_VAR@, PATH_DST_VAR@],
            forall|q: int| 0 <= q < i ==> (#[trigger] out@[q])@ == edge_maps(exec.dict(), bv)[q],
        decreases batch.rows@.len() - i,
    {
        proof {
            assert(bv.rows[i as int] == batch.rows@[i as int]@);
            assert(bv.rows[i as int].len() == bv.schema.len());
        }
        match decode_subset(exec, &batch.rows[i], &batch.schema, &want) {
            Ok(b) => out.push(b),
            Err(e) => return Err(e),
        }
        i = i + 1;
    }
    assert(bindings_view(out@) =~= edge_maps(exec.dict(), bv));
    Ok(out)
}

/// The closure of an edge batch, matched against the endpoints of a query.
pub fn compute_path_closure<E: Executor>(
    exec: &E,
    edge_batch: &Batch,
    subject: &Term,
    object: &Term,
    reflexive: bool,
) -> (r: Result<Batch, SparqlError>)
    requires
        edge_batch@.wf(),
    ensures
        r matches Ok(b) ==> b@.wf() && exists|sols: Seq<Map<Text, TermView>>| #[trigger]
            path_solutions(
                subject@,
                object@,
                edge_maps(exec.dict(), edge_batch@),
                reflexive,
                sols,
            ) && b@ == term_batch(
                endpoint_vars(object@, endpoint_vars(subject@, Seq::empty())),
                sols,
            ),
        exec.reliable() ==> r is Ok,
{
    match decode_edges(exec, edge_batch) {
        Ok(rows) => {
            let sols = eval_path_closure(subject, object, &rows, reflexive);
            let vars = endpoints(subject, object);
            let b = term_rows(vars, &sols);
            assert(path_solutions(
                subject@,
                object@,
                edge_maps(exec.dict(), edge_batch@),
                reflexive,
                bindings_view(sols@),
            ));
            Ok(b)
        },
        Err(e) => Err(e),
    }
}

/// A window of the first rows of a sort is that window of the whole sort.
proof fn window_of_top_rows<N: Numbers>(
    d: Dict,
    c: BatchView,
    keys: Seq<(ExprView, OrderDir)>,
    start: usize,
    length: usize,
    top: BatchView,
) -> (full: BatchView)
    requires
        start + length > 0,
        c.rows.len() <= usize::MAX,
        top_batch::<N>(d, c, keys, start + length, top),
    ensures
        order_batch::<N>(d, c, keys, full),
        slice_batch(top, start as int, Some(length)) == slice_batch(
            full,
            start as int,
            Some(length),
        ),
{
    let n = start + length;
    let cols = choose|cols: Seq<(SortCol<N>, OrderDir)>| #[trigger]
        resolves_all::<N>(d, c, keys, cols) && top == (BatchView {
            schema: c.schema,
            rows: arranged(c.rows, first_rows(cols, c.rows.len() as int, n)),
        });
    let full = BatchView {
        schema: c.schema,
        rows: arranged(c.rows, merge_sorted(cols, 0, c.rows.len() as int)),
    };
    assert(order_batch::<N>(d, c, keys, full));
    top_rows_are_a_prefix_of_the_sort::<N>(d, c, keys, n, top, full);
    assert(slice_rows(top.rows, start as int, Some(length)) =~= slice_rows(
        full.rows,
        start as int,
        Some(length),
    ));
    full
}

impl<'a, E: Executor> Runtime<'a, E> {
    /// The dataset and mode of the runtime's query.
    pub open spec fn query(&self) -> QueryView {
        QueryView { dataset: self.dataset@, mode: self.mode }
    }

    /// A runtime for a query without a dataset clause.
    pub fn new(exec: &'a E) -> (r: Self)
        ensures
            r.store == exec,
            r.query() == (QueryView {
                dataset: DatasetView { default: None, named: None },
                mode: DefaultGraphMode::Union,
            }),
    {
        Runtime { store: exec, dataset: DatasetSpec::none(), mode: DefaultGraphMode::Union }
    }

    /// Attaches a query's dataset and default-graph mode.
    pub fn with_dataset(self, dataset: DatasetSpec, mode: DefaultGraphMode) -> (r: Self)
        ensures
            r.store == self.store,
            r.query() == (QueryView { dataset: dataset@, mode }),
    {
        Runtime { store: self.store, dataset, mode }
    }

    fn scan(&self, patterns: &Vec<TriplePattern>, scope: &GraphScope, env: &GraphEnv) -> (r: Result<
        Batch,
        SparqlError,
    >)
        ensures
            r matches Ok(b) ==> binds(patterns_view(patterns@), b@) && self.store.scans(
                patterns_view(patterns@),
                self.query().scope(env@, scope@),
                b@,
            ),
            self.store.reliable() && closed_scope(scope@, env@.dom()) ==> r is Ok,
    {
        let graph = resolve_scope(env, scope);
        let at = ScanScope::new(&graph, &self.dataset, self.mode);
        self.store.scan_bgp_ids(patterns, &at)
    }

    fn count(&self, patterns: &Vec<TriplePattern>, scope: &GraphScope, env: &GraphEnv) -> (r: Result<
        u64,
        SparqlError,
    >)
        ensures
            r matches Ok(n) ==> exists|c: BatchView|
                binds(patterns_view(patterns@), c) && #[trigger] self.store.scans(
                    patterns_view(patterns@),
                    self.query().scope(env@, scope@),
                    c,
                ) && c.rows.len() == n,
            self.store.reliable() && closed_scope(scope@, env@.dom()) ==> r is Ok,
    {
        let graph = resolve_scope(env, scope);
        let at = ScanScope::new(&graph, &self.dataset, self.mode);
        match self.store.count_bgp(patterns, &at) {
            Ok(Some(n)) => Ok(n),
            Ok(None) => match self.store.scan_bgp_ids(patterns, &at) {
                Ok(b) => {
                    let n: usize = b.rows.len();
                    assert(b@.rows.len() == n);
                    Ok(n as u64)
                },
                Err(e) => Err(e),
            },
            Err(e) => Err(e),
        }
    }

    /// Runs a plan under the graphs its graph variables stand for.
    pub fn eval(&self, plan: &PhysicalPlan, env: &GraphEnv) -> (r: Result<Batch, SparqlError>)
        ensures
            r matches Ok(b) ==> b@.wf() && yields(self.store, self.query(), env@, plan@, b@),
            self.store.reliable() && closed_plan(plan@, env@.dom()) ==> r is Ok,
        decreases plan, 0int,
    {
        match plan {
            PhysicalPlan::BgpScan { patterns, scope } => match self.scan(patterns, scope, env) {
                Ok(b) => {
                    proof {
                        scan_yields(
                            self.store,
                            self.query(),
                            env@,
                            patterns_view(patterns@),
                            scope@,
                            b@,
                        );
                    }
                    Ok(b)
                },
                Err(e) => Err(e),
            },
            PhysicalPlan::CountScan { patterns, scope, out_var } => self.eval_count(
                patterns,
                scope,
                out_var,
                env,
            ),
            PhysicalPlan::GroupCountScan { patterns, scope, keys, out_vars } => {
                let c = match self.scan(patterns, scope, env) {
                    Ok(c) => c,
                    Err(e) => return Err(e),
                };
                let aggs = count_aggregates(out_vars);
                match eval_group_native(self.store, &c, keys, &aggs) {
                    Ok(b) => {
                        proof {
                            group_count_yields(
                                self.store,
                                self.query(),
                                env@,
                                patterns_view(patterns@),
                                scope@,
                                names(keys@),
                                names(out_vars@),
                                c@,
                                b@,
                            );
                        }
                        Ok(b)
                    },
                    Err(e) => Err(e),
                }
            },
            PhysicalPlan::Join { left, right } => {
                let a = match self.eval(left, env) {
                    Ok(a) => a,
                    Err(e) => return Err(e),
                };
                let b = match self.eval(right, env) {
                    Ok(b) => b,
                    Err(e) => return Err(e),
                };
                proof {
                    join_yields(self.store, self.query(), env@, left@, right@, a@, b@);
                }
                join(self.store, &a, b)
            },
            PhysicalPlan::LeftJoin { left, right, expr } => {
                let a = match self.eval(left, env) {
                    Ok(a) => a,
                    Err(e) => return Err(e),
                };
                let b = match self.eval(right, env) {
                    Ok(b) => b,
                    Err(e) => return Err(e),
                };
                proof {
                    left_join_yields(
                        self.store,
                        self.query(),
                        env@,
                        left@,
                        right@,
                        opt_expr_view(*expr),
                        a@,
                        b@,
                    );
                }
                left_join(self.store, &a, b, expr)
            },
            PhysicalPlan::Minus { left, right } => {
                let a = match self.eval(left, env) {
                    Ok(a) => a,
                    Err(e) => return Err(e),
                };
                let b = match self.eval(right, env) {
                    Ok(b) => b,
                    Err(e) => return Err(e),
                };
                proof {
                    minus_yields(self.store, self.query(), env@, left@, right@, a@, b@);
                }
                minus(self.store, a, b)
            },
            PhysicalPlan::Filter { expr, inner } => match self.eval(inner, env) {
                Ok(c) => {
                    proof {
                        filter_yields(self.store, self.query(), env@, inner@, expr@, c@);
                    }
                    apply_filter(self.store, c, expr.clone())
                },
                Err(e) => Err(e),
            },
            PhysicalPlan::Union { left, right } => {
                let a = match self.eval(left, env) {
                    Ok(a) => a,
                    Err(e) => return Err(e),
                };
                let b = match self.eval(right, env) {
                    Ok(b) => b,
                    Err(e) => return Err(e),
                };
                proof {
                    union_yields(self.store, self.query(), env@, left@, right@, a@, b@);
                }
                union(self.store, &a, &b)
            },
            PhysicalPlan::Project { vars, inner } => match self.eval(inner, env) {
                Ok(c) => {
                    proof {
                        project_yields(self.store, self.query(), env@, inner@, names(vars@), c@);
                    }
                    Ok(apply_project(c, vars))
                },
                Err(e) => Err(e),
            },
            PhysicalPlan::Distinct { inner } => match self.eval(inner, env) {
                Ok(c) => {
                    proof {
                        distinct_yields(self.store, self.query(), env@, inner@, c@);
                    }
                    Ok(distinct(c))
                },
                Err(e) => Err(e),
            },
            PhysicalPlan::Slice { inner, start, length } => self.eval_slice(
                inner,
                *start,
                *length,
                env,
            ),
            PhysicalPlan::OrderBy { inner, keys } => self.eval_order(inner, keys, env),
            PhysicalPlan::Extend { inner, var, expr } => match self.eval(inner, env) {
                Ok(c) => {
                    proof {
                        extend_yields(self.store, self.query(), env@, inner@, var@, expr@, c@);
                    }
                    apply_extend(self.store, c, var, expr)
                },
                Err(e) => Err(e),
            },
            PhysicalPlan::Values { vars, rows } => {
                proof {
                    values_yield(
                        self.store,
                        self.query(),
                        env@,
                        names(vars@),
                        rows_view(rows@),
                    );
                }
                Ok(values_rows(vars, rows))
            },
            PhysicalPlan::Group { inner, keys, aggregates } => {
                let c = match self.eval(inner, env) {
                    Ok(c) => c,
                    Err(e) => return Err(e),
                };
                match eval_group_native(self.store, &c, keys, aggregates) {
                    Ok(b) => {
                        proof {
                            group_yields(
                                self.store,
                                self.query(),
                                env@,
                                inner@,
                                names(keys@),
                                aggregates_view(aggregates@),
                                c@,
                                b@,
                            );
                        }
                        Ok(b)
                    },
                    Err(e) => Err(e),
                }
            },
            PhysicalPlan::PerGraph { var, inner } => self.eval_per_graph(var, inner, env),
            PhysicalPlan::PathClosure { subject, object, edge, reflexive } => {
                let c = match self.eval(edge, env) {
                    Ok(c) => c,
                    Err(e) => return Err(e),
                };
                match compute_path_closure(self.store, &c, subject, object, *reflexive) {
                    Ok(b) => {
                        proof {
                            let sols = choose|sols: Seq<Map<Text, TermView>>| #[trigger]
                                path_solutions(
                                    subject@,
                                    object@,
                                    edge_maps(self.store.dict(), c@),
                                    *reflexive,
                                    sols,
                                ) && b@ == term_batch(
                                    endpoint_vars(
                                        object@,
                                        endpoint_vars(subject@, Seq::empty()),
                                    ),
                                    sols,
                                );
                            path_yields(
                                self.store,
                                self.query(),
                                env@,
                                subject@,
                                object@,
                                edge@,
                                *reflexive,
                                c@,
                                sols,
                            );
                        }
                        Ok(b)
                    },
                    Err(e) => Err(e),
                }
            },
        }
    }

    fn eval_count(
        &self,
        patterns: &Vec<TriplePattern>,
        scope: &GraphScope,
        out_var: &Var,
        env: &GraphEnv,
    ) -> (r: Result<Batch, SparqlError>)
        ensures
            r matches Ok(b) ==> b@.wf() && yields(
                self.store,
                self.query(),
                env@,
                PhysicalView::CountScan {
                    patterns: patterns_view(patterns@),
                    scope: scope@,
                    out_var: out_var@,
                },
                b@,
            ),
            self.store.reliable() && closed_scope(scope@, env@.dom()) ==> r is Ok,
    {
        match self.count(patterns, scope, env) {
            Ok(n) => {
                proof {
                    let c = choose|c: BatchView|
                        binds(patterns_view(patterns@), c) && #[trigger] self.store.scans(
                            patterns_view(patterns@),
                            self.query().scope(env@, scope@),
                            c,
                        ) && c.rows.len() == n;
                    count_yields(
                        self.store,
                        self.query(),
                        env@,
                        patterns_view(patterns@),
                        scope@,
                        out_var@,
                        c,
                    );
                }
                Ok(count_rows(out_var, n))
            },
            Err(e) => Err(e),
        }
    }

    fn eval_order(&self, inner: &PhysicalPlan, keys: &Vec<(Expr, OrderDir)>, env: &GraphEnv) -> (r:
        Result<Batch, SparqlError>)
        ensures
            r matches Ok(b) ==> b@.wf() && yields(
                self.store,
                self.query(),
                env@,
                PhysicalView::OrderBy { inner: Box::new(inner@), keys: order_keys_view(keys@) },
                b@,
            ),
            self.store.reliable() && closed_plan(inner@, env@.dom()) ==> r is Ok,
        decreases inner, 1int,
    {
        match self.eval(inner, env) {
            Ok(c) => {
                let ghost cv = c@;
                match compute_order_by(self.store, c, keys) {
                    Ok(b) => {
                        proof {
                            order_yields(
                                self.store,
                                self.query(),
                                env@,
                                inner@,
                                order_keys_view(keys@),
                                cv,
                                b@,
                            );
                        }
                        Ok(b)
                    },
                    Err(e) => Err(e),
                }
            },
            Err(e) => Err(e),
        }
    }

    /// Runs a window over a plan. A window over a sort sorts no more rows than
    /// it shows.
    fn eval_slice(
        &self,
        inner: &PhysicalPlan,
        start: usize,
        length: Option<usize>,
        env: &GraphEnv,
    ) -> (r: Result<Batch, SparqlError>)
        ensures
            r matches Ok(b) ==> b@.wf() && yields(
                self.store,
                self.query(),
                env@,
                PhysicalView::Slice { inner: Box::new(inner@), start, length },
                b@,
            ),
            self.store.reliable() && closed_plan(inner@, env@.dom()) ==> r is Ok,
        decreases inner, 1int,
    {
        match (inner, length) {
            (PhysicalPlan::OrderBy { inner: sorted, keys }, Some(l)) => {
                if l > 0 && l <= usize::MAX - start {
                    return self.eval_window(sorted, keys, start, l, env);
                }
            },
            _ => {},
        }
        match self.eval(inner, env) {
            Ok(c) => {
                proof {
                    slice_yields(self.store, self.query(), env@, inner@, start, length, c@);
                }
                Ok(slice(c, start, length))
            },
            Err(e) => Err(e),
        }
    }

    /// Runs a window over a sort.
    fn eval_window(
        &self,
        sorted: &PhysicalPlan,
        keys: &Vec<(Expr, OrderDir)>,
        start: usize,
        l: usize,
        env: &GraphEnv,
    ) -> (r: Result<Batch, SparqlError>)
        requires
            0 < l,
            start + l <= usize::MAX,
        ensures
            r matches Ok(b) ==> b@.wf() && yields(
                self.store,
                self.query(),
                env@,
                PhysicalView::Slice {
                    inner: Box::new(
                        PhysicalView::OrderBy {
                            inner: Box::new(sorted@),
                            keys: order_keys_view(keys@),
                        },
                    ),
                    start,
                    length: Some(l),
                },
                b@,
            ),
            self.store.reliable() && closed_plan(sorted@, env@.dom()) ==> r is Ok,
        decreases sorted, 1int,
    {
        let c = match self.eval(sorted, env) {
            Ok(c) => c,
            Err(e) => return Err(e),
        };
        let ghost cv = c@;
        let n: usize = c.rows.len();
        assert(cv.rows.len() == n);
        match compute_top_k(self.store, c, keys, start + l) {
            Ok(top) => {
                proof {
                    let kv = order_keys_view(keys@);
                    let full = window_of_top_rows::<E::N>(
                        self.store.dict(),
                        cv,
                        kv,
                        start,
                        l,
                        top@,
                    );
                    order_yields(self.store, self.query(), env@, sorted@, kv, cv, full);
                    slice_yields(
                        self.store,
                        self.query(),
                        env@,
                        PhysicalView::OrderBy { inner: Box::new(sorted@), keys: kv },
                        start,
                        Some(l),
                        full,
                    );
                }
                Ok(slice(top, start, Some(l)))
            },
            Err(e) => Err(e),
        }
    }

    /// Runs a plan once per named graph.
    fn eval_per_graph(&self, var: &Var, inner: &PhysicalPlan, env: &GraphEnv) -> (r: Result<
        Batch,
        SparqlError,
    >)
        ensures
            r matches Ok(b) ==> b@.wf() && yields(
                self.store,
                self.query(),
                env@,
                PhysicalView::PerGraph { var: var@, inner: Box::new(inner@) },
                b@,
            ),
            self.store.reliable() && closed_plan(inner@, env@.dom().insert(var@)) ==> r is Ok,
        decreases inner, 1int,
    {
        let ghost d = self.store.dict();
        let ghost q = self.query();
        let graphs = match self.store.named_graphs(&self.dataset) {
            Ok(g) => g,
            Err(e) => return Err(e),
        };
        let ghost gs = graphs_view(graphs@);
        let ghost mut parts: Seq<BatchView> = Seq::empty();
        let schema: Vec<Var> = vec![var.clone()];
        let rows: Vec<Row> = Vec::new();
        let mut out = Batch { schema, rows };
        assert(out@ =~= per_graph_batch(d, var@, gs, parts, 0)) by {
            assert(out@.schema =~= seq![var@]);
        }
        let mut i: usize = 0;
        while i < graphs.len()
            invariant
                i <= graphs@.len(),
                d == self.store.dict(),
                q == self.query(),
                gs == graphs_view(graphs@),
                parts.len() == i,
                out@.wf(),
                forall|k: int|
                    0 <= k < i ==> yields(
                        self.store,
                        q,
                        env@.insert(var@, gs[k].iri),
                        inner@,
                        #[trigger] parts[k],
                    ),
                out@ == per_graph_batch(d, var@, gs, parts, i as int),
            decreases graphs@.len() - i,
        {
            let g = &graphs[i];
            assert(gs[i as int] == g@);
            let here = env.with(var.name(), g.iri.as_str());
            assert(here@.dom() =~= env@.dom().insert(var@));
            let part = match self.eval(inner, &here) {
                Ok(p) => p,
                Err(e) => return Err(e),
            };
            let ghost pv = part@;
            let one = graph_row(var, &g.binding);
            let bound = match join(self.store, &part, one) {
                Ok(b) => b,
                Err(e) => return Err(e),
            };
            let ghost before = parts;
            let ghost prior = out@;
            out = match union(self.store, &out, &bound) {
                Ok(u) => u,
                Err(e) => return Err(e),
            };
            proof {
                parts = parts.push(pv);
                per_graph_prefix(d, var@, gs, before, parts, i as int);
                assert(parts[i as int] == pv);
                assert forall|k: int| 0 <= k < i + 1 implies yields(
                    self.store,
                    q,
                    env@.insert(var@, gs[k].iri),
                    inner@,
                    #[trigger] parts[k],
                ) by {
                    if k < i {
                        assert(parts[k] == before[k]);
                    }
                }
            }
            i = i + 1;
        }
        proof {
            per_graph_yields(self.store, q, env@, var@, inner@, gs, parts);
        }
        Ok(out)
    }
}

/// The rows of the first graphs do not depend on later ones.
proof fn per_graph_prefix(
    d: Dict,
    var: Text,
    gs: Seq<NamedGraphView>,
    a: Seq<BatchView>,
    b: Seq<BatchView>,
    n: int,
)
    requires
        0 <= n <= a.len(),
        n <= b.len(),
        forall|k: int| 0 <= k < n ==> a[k] == b[k],
    ensures
        per_graph_batch(d, var, gs, a, n) == per_graph_batch(d, var, gs, b, n),
    decreases n,
{
    if n > 0 {
        per_graph_prefix(d, var, gs, a, b, n - 1);
    }
}

// ── Streams of solutions ────────────────────────────────────────────────────

/// The most rows a stream hands out at once.
pub const BATCH_ROWS: usize = 1024;

/// A result, handed out chunk by chunk. Rows are decoded as they are asked
/// for.
pub struct BindingsStream<'a, E: Executor> {
    store: &'a E,
    batch: Batch,
    at: usize,
}

impl<'a, E: Executor> BindingsStream<'a, E> {
    /// The store the rows are decoded with.
    pub closed spec fn source(&self) -> &'a E {
        self.store
    }

    /// Is every row complete, and the position in range?
    pub closed spec fn valid(&self) -> bool {
        self.batch@.wf() && self.at <= self.batch@.rows.len()
    }

    /// The solutions not yet handed out.
    pub closed spec fn remaining(&self) -> Seq<Map<Text, TermView>> {
        solutions(self.store.dict(), self.batch@).skip(self.at as int)
    }

    /// The next solutions, at most [`BATCH_ROWS`] of them; `None` at the end.
    /// A chunk is never empty.
    pub fn next_chunk(&mut self) -> (r: Result<Option<Vec<Bindings>>, SparqlError>)
        requires
            old(self).valid(),
        ensures
            final(self).valid(),
            final(self).source() == old(self).source(),
            match r {
                Ok(Some(chunk)) => 0 < chunk@.len() <= BATCH_ROWS && old(self).remaining()
                    == bindings_view(chunk@) + final(self).remaining(),
                Ok(None) => old(self).remaining().len() == 0 && final(self).remaining().len() == 0,
                Err(_) => final(self).remaining() == old(self).remaining(),
            },
            old(self).source().reliable() ==> r is Ok,
    {
        let ghost d = self.store.dict();
        let ghost all = solutions(d, self.batch@);
        let from: usize = self.at;
        let n: usize = self.batch.rows.len();
        if from == n {
            return Ok(None);
        }
        let to: usize = if n - from > BATCH_ROWS {
            from + BATCH_ROWS
        } else {
            n
        };
        let mut out: Vec<Bindings> = Vec::new();
        let mut i: usize = from;
        while i < to
            invariant
                from <= i <= to <= n,
                n == self.batch@.rows.len(),
                self.batch@.wf(),
                d == self.store.dict(),
                all == solutions(d, self.batch@),
                *self == *old(self),
                self.valid(),
                out@.len() == i - from,
                forall|k: int| 0 <= k < out@.len() ==> (#[trigger] out@[k])@ == all[from + k],
            decreases to - i,
        {
            proof {
                assert(self.batch@.rows[i as int] == self.batch.rows@[i as int]@);
                assert(self.batch@.rows[i as int].len() == self.batch@.schema.len());
            }
            match decode_row(self.store, &self.batch.rows[i], &self.batch.schema) {
                Ok(b) => out.push(b),
                Err(e) => return Err(e),
            }
            i = i + 1;
        }
        self.at = to;
        assert(all.skip(from as int) =~= bindings_view(out@) + all.skip(to as int));
        Ok(Some(out))
    }

    /// The next solution; `None` at the end.
    pub fn next(&mut self) -> (r: Result<Option<Bindings>, SparqlError>)
        requires
            old(self).valid(),
        ensures
            final(self).valid(),
            final(self).source() == old(self).source(),
            match r {
                Ok(Some(b)) => old(self).remaining().len() > 0 && b@ == old(self).remaining()[0]
                    && final(self).remaining() == old(self).remaining().drop_first(),
                Ok(None) => old(self).remaining().len() == 0 && final(self).remaining().len() == 0,
                Err(_) => final(self).remaining() == old(self).remaining(),
            },
            old(self).source().reliable() ==> r is Ok,
    {
        let i: usize = self.at;
        if i == self.batch.rows.len() {
            return Ok(None);
        }
        let ghost all = solutions(self.store.dict(), self.batch@);
        proof {
            assert(self.batch@.rows[i as int] == self.batch.rows@[i as int]@);
            assert(self.batch@.rows[i as int].len() == self.batch@.schema.len());
        }
        match decode_row(self.store, &self.batch.rows[i], &self.batch.schema) {
            Ok(b) => {
                self.at = i + 1;
                assert(all.skip(i as int)[0] == all[i as int]);
                assert(all.skip(i as int).drop_first() =~= all.skip(i + 1));
                Ok(Some(b))
            },
            Err(e) => Err(e),
        }
    }
}

/// May these be the solutions of a plan against a store?
pub open spec fn answers_of<E: Executor>(
    store: &E,
    query: QueryView,
    plan: PhysicalView,
    out: Seq<Map<Text, TermView>>,
) -> bool {
    exists|b: BatchView| #[trigger]
        yields(store, query, Map::empty(), rewritten(plan), b) && out == solutions(store.dict(), b)
}

impl<'a, E: Executor> Runtime<'a, E> {
    /// May these be the solutions of a plan?
    pub open spec fn answers(&self, plan: PhysicalView, out: Seq<Map<Text, TermView>>) -> bool {
        answers_of(self.store, self.query(), plan, out)
    }

    /// Runs a plan, rewritten for execution, and hands back its solutions as a
    /// stream.
    pub fn run_stream(&self, plan: &PhysicalPlan) -> (r: Result<BindingsStream<'a, E>, SparqlError>)
        ensures
            r matches Ok(s) ==> s.valid() && s.source() == self.store && self.answers(
                plan@,
                s.remaining(),
            ),
            self.store.reliable() && closed_plan(rewritten(plan@), Set::empty()) ==> r is Ok,
    {
        let plan = match rewrite(plan) {
            Ok(p) => p,
            Err(e) => return Err(e),
        };
        let env = GraphEnv::new();
        assert(env@.dom() =~= Set::<Text>::empty());
        match self.eval(&plan, &env) {
            Ok(batch) => {
                let ghost all = solutions(self.store.dict(), batch@);
                assert(all.skip(0) =~= all);
                Ok(BindingsStream { store: self.store, batch, at: 0 })
            },
            Err(e) => Err(e),
        }
    }

    /// Runs a plan and returns all its solutions.
    pub fn run(&self, plan: &PhysicalPlan) -> (r: Result<Vec<Bindings>, SparqlError>)
        ensures
            r matches Ok(v) ==> self.answers(plan@, bindings_view(v@)),
            self.store.reliable() && closed_plan(rewritten(plan@), Set::empty()) ==> r is Ok,
    {
        let mut stream = match self.run_stream(plan) {
            Ok(s) => s,
            Err(e) => return Err(e),
        };
        let ghost all = stream.remaining();
        let mut out: Vec<Bindings> = Vec::new();
        assert(bindings_view(out@) + all =~= all);
        loop
            invariant
                stream.valid(),
                stream.source() == self.store,
                bindings_view(out@) + stream.remaining() == all,
                self.answers(plan@, all),
            ensures
                bindings_view(out@) == all,
            decreases stream.remaining().len(),
        {
            let ghost left = stream.remaining();
            match stream.next_chunk() {
                Ok(Some(chunk)) => {
                    let ghost before = bindings_view(out@);
                    append_bindings(&mut out, chunk);
                    assert(bindings_view(out@) + stream.remaining() =~= before + left);
                },
                Ok(None) => {
                    assert(bindings_view(out@) + left =~= bindings_view(out@));
                    break;
                },
                Err(e) => return Err(e),
            }
        }
        Ok(out)
    }
}

fn append_bindings(out: &mut Vec<Bindings>, more: Vec<Bindings>)
    ensures
        bindings_view(final(out)@) == bindings_view(old(out)@) + bindings_view(more@),
{
    let ghost base = bindings_view(out@);
    let ghost mv = bindings_view(more@);
    assert(base + mv.take(0) =~= base);
    for b in it: more
        invariant
            mv == bindings_view(it.seq()),
            bindings_view(out@) == base + mv.take(it.index() as int),
    {
        let ghost i = it.index() as int;
        let ghost before = bindings_view(out@);
        let ghost v = b@;
        out.push(b);
        assert(mv[i] == v);
        assert(bindings_view(out@) =~= before.push(v));
        assert(mv.take(i + 1) =~= mv.take(i).push(v));
        assert(bindings_view(out@) =~= base + mv.take(i + 1));
    }
    assert(mv.take(mv.len() as int) =~= mv);
}

}
