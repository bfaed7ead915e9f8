//! What the operators of a query do: the solutions of an algebra, told by those
//! of its parts.

use crate::algebra::{
    AggregateView, AlgebraView, ExprView, GraphScopeView, GraphSpecView, OrderDir, PatternView,
    TermView,
};
use crate::exec::batch::{solutions, BatchView, Dict};
use crate::exec::executor::Executor;
use crate::exec::expr::{truth, value};
use crate::exec::group::group_batch;
use crate::exec::operator_laws::{
    a_difference_takes_out_what_agrees, a_filter_keeps_what_satisfies, a_join_pairs_what_agrees,
    a_projection_keeps_its_variables, a_row_binds_its_columns, a_slice_is_a_window, a_union_has_both_sides, agree,
    an_extension_binds_the_value, an_optional_match_has_all_matches, apart, is_match, is_taken,
    matches_none, sound, together, Sol,
};
use crate::exec::operators::{distinct_batch, values_batch};
use crate::exec::order::order_batch;
use crate::exec::path::path_solutions;
use crate::exec::runtime::{edge_maps, is_run, term_batch, yields, QueryView, Run};
use crate::exec::scope::NamedGraphView;
use crate::plan::lower::{lower_view, physical_view};
use crate::text::Text;
use vstd::prelude::*;

verus! {

/// May an algebra have this for its answer, in a scope?
pub open spec fn may_answer<E: Executor>(
    exec: &E,
    q: QueryView,
    env: Map<Text, Text>,
    scope: GraphScopeView,
    alg: AlgebraView,
    out: BatchView,
) -> bool {
    yields(exec, q, env, physical_view(lower_view(alg, scope)), out)
}

proof fn record_of<E: Executor>(
    exec: &E,
    q: QueryView,
    env: Map<Text, Text>,
    scope: GraphScopeView,
    alg: AlgebraView,
    out: BatchView,
) -> (run: Run)
    requires
        may_answer(exec, q, env, scope, alg, out),
    ensures
        is_run(exec, q, env, physical_view(lower_view(alg, scope)), run),
        run.out == out,
{
    reveal(yields);
    choose|run: Run| #[trigger]
        is_run(exec, q, env, physical_view(lower_view(alg, scope)), run) && run.out == out
}

proof fn recorded<E: Executor>(
    exec: &E,
    q: QueryView,
    env: Map<Text, Text>,
    scope: GraphScopeView,
    alg: AlgebraView,
    run: Run,
)
    requires
        is_run(exec, q, env, physical_view(lower_view(alg, scope)), run),
    ensures
        may_answer(exec, q, env, scope, alg, run.out),
{
    reveal(yields);
}

/// `FILTER` has the solutions of its pattern of which the condition holds.
pub proof fn filters_select<E: Executor>(
    exec: &E,
    q: QueryView,
    env: Map<Text, Text>,
    scope: GraphScopeView,
    expr: ExprView,
    inner: AlgebraView,
    out: BatchView,
)
    requires
        may_answer(
            exec,
            q,
            env,
            scope,
            AlgebraView::Filter { expr, inner: Box::new(inner) },
            out,
        ),
    ensures
        exists|b: BatchView| #[trigger]
            may_answer(exec, q, env, scope, inner, b) && solutions(exec.dict(), out) == solutions(
                exec.dict(),
                b,
            ).filter(|m: Sol| truth::<E::N>(expr, m)),
{
    let run = record_of(
        exec,
        q,
        env,
        scope,
        AlgebraView::Filter { expr, inner: Box::new(inner) },
        out,
    );
    recorded(exec, q, env, scope, inner, run.below[0]);
    a_filter_keeps_what_satisfies::<E::N>(exec.dict(), run.below[0].out, expr);
}

/// `SELECT` has of the solutions of its pattern the variables that it names.
pub proof fn projections_name<E: Executor>(
    exec: &E,
    q: QueryView,
    env: Map<Text, Text>,
    scope: GraphScopeView,
    vars: Seq<Text>,
    inner: AlgebraView,
    out: BatchView,
)
    requires
        vars.len() > 0,
        may_answer(
            exec,
            q,
            env,
            scope,
            AlgebraView::Project { vars, inner: Box::new(inner) },
            out,
        ),
    ensures
        exists|b: BatchView| #[trigger]
            may_answer(exec, q, env, scope, inner, b) && (sound(b) ==> solutions(
                exec.dict(),
                out,
            ) == solutions(exec.dict(), b).map_values(|m: Sol| m.restrict(vars.to_set()))),
{
    let run = record_of(
        exec,
        q,
        env,
        scope,
        AlgebraView::Project { vars, inner: Box::new(inner) },
        out,
    );
    recorded(exec, q, env, scope, inner, run.below[0]);
    if sound(run.below[0].out) {
        a_projection_keeps_its_variables(exec.dict(), run.below[0].out, vars);
    }
}

/// `BIND` binds its variable to the value of its expression in every solution.
pub proof fn extensions_bind<E: Executor>(
    exec: &E,
    q: QueryView,
    env: Map<Text, Text>,
    scope: GraphScopeView,
    var: Text,
    expr: ExprView,
    inner: AlgebraView,
    out: BatchView,
)
    requires
        may_answer(
            exec,
            q,
            env,
            scope,
            AlgebraView::Extend { inner: Box::new(inner), var, expr },
            out,
        ),
    ensures
        exists|b: BatchView| #[trigger]
            may_answer(exec, q, env, scope, inner, b) && (sound(b) ==> solutions(
                exec.dict(),
                out,
            ) == solutions(exec.dict(), b).map_values(
                |m: Sol|
                    match value::<E::N>(expr, m) {
                        Some(t) => m.insert(var, t),
                        None => m.remove(var),
                    },
            )),
{
    let run = record_of(
        exec,
        q,
        env,
        scope,
        AlgebraView::Extend { inner: Box::new(inner), var, expr },
        out,
    );
    recorded(exec, q, env, scope, inner, run.below[0]);
    if sound(run.below[0].out) {
        an_extension_binds_the_value::<E::N>(exec.dict(), run.below[0].out, var, expr);
    }
}

/// `UNION` has the solutions of both its patterns.
pub proof fn unions_have_both<E: Executor>(
    exec: &E,
    q: QueryView,
    env: Map<Text, Text>,
    scope: GraphScopeView,
    left: AlgebraView,
    right: AlgebraView,
    out: BatchView,
)
    requires
        may_answer(
            exec,
            q,
            env,
            scope,
            AlgebraView::Union { left: Box::new(left), right: Box::new(right) },
            out,
        ),
    ensures
        exists|a: BatchView, b: BatchView|
            #![trigger may_answer(exec, q, env, scope, left, a), may_answer(exec, q, env, scope, right, b)]
            may_answer(exec, q, env, scope, left, a) && may_answer(exec, q, env, scope, right, b)
                && (sound(a) && sound(b) ==> solutions(exec.dict(), out)
                == solutions(exec.dict(), a) + solutions(exec.dict(), b)),
{
    let run = record_of(
        exec,
        q,
        env,
        scope,
        AlgebraView::Union { left: Box::new(left), right: Box::new(right) },
        out,
    );
    recorded(exec, q, env, scope, left, run.below[0]);
    recorded(exec, q, env, scope, right, run.below[1]);
    let (a, b) = (run.below[0].out, run.below[1].out);
    if sound(a) && sound(b) {
        a_union_has_both_sides(exec.dict(), a, b);
    }
}

/// Two patterns have together the pairs of their solutions that agree.
pub proof fn joins_pair<E: Executor>(
    exec: &E,
    q: QueryView,
    env: Map<Text, Text>,
    scope: GraphScopeView,
    left: AlgebraView,
    right: AlgebraView,
    out: BatchView,
    m: Sol,
)
    requires
        may_answer(
            exec,
            q,
            env,
            scope,
            AlgebraView::Join { left: Box::new(left), right: Box::new(right) },
            out,
        ),
    ensures
        exists|a: BatchView, b: BatchView|
            #![trigger may_answer(exec, q, env, scope, left, a), may_answer(exec, q, env, scope, right, b)]
            may_answer(exec, q, env, scope, left, a) && may_answer(exec, q, env, scope, right, b)
                && (sound(a) && sound(b) && apart(exec.dict(), a, b) ==> (solutions(
                exec.dict(),
                out,
            ).contains(m) <==> exists|i: int, j: int|
                0 <= i < a.rows.len() && 0 <= j < b.rows.len() && agree(
                    #[trigger] solutions(exec.dict(), a)[i],
                    #[trigger] solutions(exec.dict(), b)[j],
                ) && m == together(solutions(exec.dict(), a)[i], solutions(exec.dict(), b)[j]))),
{
    let run = record_of(
        exec,
        q,
        env,
        scope,
        AlgebraView::Join { left: Box::new(left), right: Box::new(right) },
        out,
    );
    recorded(exec, q, env, scope, left, run.below[0]);
    recorded(exec, q, env, scope, right, run.below[1]);
    let (a, b) = (run.below[0].out, run.below[1].out);
    if sound(a) && sound(b) && apart(exec.dict(), a, b) {
        a_join_pairs_what_agrees(exec.dict(), a, b, m);
    }
}

/// `OPTIONAL` has the solutions of its first pattern with what matches them of
/// the second, and by themselves where nothing does.
pub proof fn optionals_keep<E: Executor>(
    exec: &E,
    q: QueryView,
    env: Map<Text, Text>,
    scope: GraphScopeView,
    left: AlgebraView,
    right: AlgebraView,
    expr: Option<ExprView>,
    out: BatchView,
    m: Sol,
)
    requires
        may_answer(
            exec,
            q,
            env,
            scope,
            AlgebraView::LeftJoin { left: Box::new(left), right: Box::new(right), expr },
            out,
        ),
    ensures
        exists|a: BatchView, b: BatchView|
            #![trigger may_answer(exec, q, env, scope, left, a), may_answer(exec, q, env, scope, right, b)]
            may_answer(exec, q, env, scope, left, a) && may_answer(exec, q, env, scope, right, b)
                && (sound(a) && sound(b) && apart(exec.dict(), a, b) ==> (solutions(
                exec.dict(),
                out,
            ).contains(m) <==> is_optional_answer::<E>(
                solutions(exec.dict(), a),
                solutions(exec.dict(), b),
                expr,
                m,
            ))),
{
    let run = record_of(
        exec,
        q,
        env,
        scope,
        AlgebraView::LeftJoin { left: Box::new(left), right: Box::new(right), expr },
        out,
    );
    recorded(exec, q, env, scope, left, run.below[0]);
    recorded(exec, q, env, scope, right, run.below[1]);
    let (a, b) = (run.below[0].out, run.below[1].out);
    if sound(a) && sound(b) && apart(exec.dict(), a, b) {
        an_optional_match_has_all_matches::<E::N>(exec.dict(), a, b, expr, m);
    }
}

/// Is this a solution of the first pattern with one that matches it, or by
/// itself where none does?
pub open spec fn is_optional_answer<E: Executor>(
    xs: Seq<Sol>,
    ys: Seq<Sol>,
    expr: Option<ExprView>,
    m: Sol,
) -> bool {
    ||| exists|i: int| 0 <= i < xs.len() && is_match::<E::N>(#[trigger] xs[i], ys, expr, m)
    ||| exists|i: int|
        0 <= i < xs.len() && m == #[trigger] xs[i] && matches_none::<E::N>(xs[i], ys, expr)
}

/// `MINUS` has the solutions of its first pattern that none of the second takes
/// out.
pub proof fn differences_take_out<E: Executor>(
    exec: &E,
    q: QueryView,
    env: Map<Text, Text>,
    scope: GraphScopeView,
    left: AlgebraView,
    right: AlgebraView,
    out: BatchView,
)
    requires
        may_answer(
            exec,
            q,
            env,
            scope,
            AlgebraView::Minus { left: Box::new(left), right: Box::new(right) },
            out,
        ),
    ensures
        exists|a: BatchView, b: BatchView|
            #![trigger may_answer(exec, q, env, scope, left, a), may_answer(exec, q, env, scope, right, b)]
            may_answer(exec, q, env, scope, left, a) && may_answer(exec, q, env, scope, right, b)
                && (sound(a) && sound(b) && apart(exec.dict(), a, b) ==> solutions(exec.dict(), out)
                == solutions(exec.dict(), a).filter(
                |m: Sol| !is_taken(m, solutions(exec.dict(), b)),
            )),
{
    let run = record_of(
        exec,
        q,
        env,
        scope,
        AlgebraView::Minus { left: Box::new(left), right: Box::new(right) },
        out,
    );
    recorded(exec, q, env, scope, left, run.below[0]);
    recorded(exec, q, env, scope, right, run.below[1]);
    let (a, b) = (run.below[0].out, run.below[1].out);
    if sound(a) && sound(b) && apart(exec.dict(), a, b) {
        a_difference_takes_out_what_agrees(exec.dict(), a, b);
    }
}

/// `OFFSET` leaves out the first solutions, and `LIMIT` those behind as many.
pub proof fn slices_cut<E: Executor>(
    exec: &E,
    q: QueryView,
    env: Map<Text, Text>,
    scope: GraphScopeView,
    inner: AlgebraView,
    start: usize,
    length: Option<usize>,
    out: BatchView,
)
    requires
        may_answer(
            exec,
            q,
            env,
            scope,
            AlgebraView::Slice { inner: Box::new(inner), start, length },
            out,
        ),
    ensures
        exists|b: BatchView| #[trigger]
            may_answer(exec, q, env, scope, inner, b) && ({
                let (all, part) = (solutions(exec.dict(), b), solutions(exec.dict(), out));
                &&& part.len() <= all.len()
                &&& length matches Some(n) ==> part.len() <= n
                &&& forall|i: int| 0 <= i < part.len() ==> #[trigger] part[i] == all[start + i]
                &&& start + part.len() < all.len() ==> length == Some(part.len() as usize)
            }),
{
    let run = record_of(
        exec,
        q,
        env,
        scope,
        AlgebraView::Slice { inner: Box::new(inner), start, length },
        out,
    );
    recorded(exec, q, env, scope, inner, run.below[0]);
    a_slice_is_a_window(exec.dict(), run.below[0].out, start as int, length);
}

/// `DISTINCT`, `ORDER BY`, `GROUP BY` and inline data are answered by what each
/// makes of its pattern's answer.
pub proof fn modifiers_apply<E: Executor>(
    exec: &E,
    q: QueryView,
    env: Map<Text, Text>,
    scope: GraphScopeView,
    inner: AlgebraView,
    keys: Seq<(ExprView, OrderDir)>,
    by: Seq<Text>,
    aggregates: Seq<AggregateView>,
    rows: Seq<Seq<Option<TermView>>>,
    out: BatchView,
)
    ensures
        may_answer(exec, q, env, scope, AlgebraView::Distinct { inner: Box::new(inner) }, out)
            ==> exists|b: BatchView| #[trigger]
            may_answer(exec, q, env, scope, inner, b) && out == distinct_batch(b),
        may_answer(exec, q, env, scope, AlgebraView::OrderBy { inner: Box::new(inner), keys }, out)
            ==> exists|b: BatchView| #[trigger]
            may_answer(exec, q, env, scope, inner, b) && order_batch::<E::N>(
                exec.dict(),
                b,
                keys,
                out,
            ),
        may_answer(
            exec,
            q,
            env,
            scope,
            AlgebraView::Group { inner: Box::new(inner), keys: by, aggregates },
            out,
        ) ==> exists|b: BatchView| #[trigger]
            may_answer(exec, q, env, scope, inner, b) && group_batch::<E::N>(
                exec.dict(),
                b,
                by,
                aggregates,
                out,
            ),
        may_answer(exec, q, env, scope, AlgebraView::Values { vars: by, rows }, out) ==> out
            == values_batch(by, rows),
{
    let distinct = AlgebraView::Distinct { inner: Box::new(inner) };
    if may_answer(exec, q, env, scope, distinct, out) {
        let run = record_of(exec, q, env, scope, distinct, out);
        recorded(exec, q, env, scope, inner, run.below[0]);
    }
    let ordered = AlgebraView::OrderBy { inner: Box::new(inner), keys };
    if may_answer(exec, q, env, scope, ordered, out) {
        let run = record_of(exec, q, env, scope, ordered, out);
        recorded(exec, q, env, scope, inner, run.below[0]);
    }
    let grouped = AlgebraView::Group { inner: Box::new(inner), keys: by, aggregates };
    if may_answer(exec, q, env, scope, grouped, out) {
        let run = record_of(exec, q, env, scope, grouped, out);
        recorded(exec, q, env, scope, inner, run.below[0]);
    }
    let data = AlgebraView::Values { vars: by, rows };
    if may_answer(exec, q, env, scope, data, out) {
        let run = record_of(exec, q, env, scope, data, out);
    }
}

/// Patterns are matched in the graph they stand under: a block that names a
/// graph has its pattern matched there, and one that names a variable in each of
/// the graphs, with the variable standing for the graph.
pub proof fn graphs_scope_their_patterns<E: Executor>(
    exec: &E,
    q: QueryView,
    env: Map<Text, Text>,
    scope: GraphScopeView,
    iri: Text,
    v: Text,
    inner: AlgebraView,
    patterns: Seq<PatternView>,
    out: BatchView,
)
    ensures
        may_answer(
            exec,
            q,
            env,
            scope,
            AlgebraView::Graph { name: GraphSpecView::Iri(iri), inner: Box::new(inner) },
            out,
        ) <==> may_answer(
            exec,
            q,
            env,
            GraphScopeView::Named(GraphSpecView::Iri(iri)),
            inner,
            out,
        ),
        may_answer(exec, q, env, scope, AlgebraView::Bgp { patterns }, out) ==> exec.scans(
            patterns,
            q.scope(env, scope),
            out,
        ),
        may_answer(
            exec,
            q,
            env,
            scope,
            AlgebraView::Graph { name: GraphSpecView::Var(v), inner: Box::new(inner) },
            out,
        ) ==> exists|graphs: Seq<NamedGraphView>, parts: Seq<BatchView>|
            #![trigger exec.enumerates(q.dataset, graphs), parts.len()]
            exec.enumerates(q.dataset, graphs) && parts.len() == graphs.len() && (forall|i: int|
                0 <= i < graphs.len() ==> may_answer(
                    exec,
                    q,
                    env.insert(v, graphs[i].iri),
                    GraphScopeView::Named(GraphSpecView::Var(v)),
                    inner,
                    #[trigger] parts[i],
                )) && out == crate::exec::runtime::per_graph_batch(
                exec.dict(),
                v,
                graphs,
                parts,
                graphs.len() as int,
            ),
{
    let flat = AlgebraView::Bgp { patterns };
    if may_answer(exec, q, env, scope, flat, out) {
        let run = record_of(exec, q, env, scope, flat, out);
    }
    let each = AlgebraView::Graph { name: GraphSpecView::Var(v), inner: Box::new(inner) };
    if may_answer(exec, q, env, scope, each, out) {
        let run = record_of(exec, q, env, scope, each, out);
        let named = GraphScopeView::Named(GraphSpecView::Var(v));
        let parts = crate::exec::runtime::outs(run.below);
        assert forall|i: int| 0 <= i < run.graphs.len() implies may_answer(
            exec,
            q,
            env.insert(v, run.graphs[i].iri),
            named,
            inner,
            #[trigger] parts[i],
        ) by {
            assert(is_run(
                exec,
                q,
                env.insert(v, run.graphs[i].iri),
                physical_view(lower_view(inner, named)),
                run.below[i],
            ));
            recorded(exec, q, env.insert(v, run.graphs[i].iri), named, inner, run.below[i]);
        }
        assert(exec.enumerates(q.dataset, run.graphs) && parts.len() == run.graphs.len());
    }
}

/// A path has the ends that the search for paths finds among the edges its
/// pattern has.
pub proof fn paths_follow_their_edges<E: Executor>(
    exec: &E,
    q: QueryView,
    env: Map<Text, Text>,
    scope: GraphScopeView,
    subject: TermView,
    object: TermView,
    edge: AlgebraView,
    reflexive: bool,
    out: BatchView,
)
    requires
        may_answer(
            exec,
            q,
            env,
            scope,
            AlgebraView::PathClosure { subject, object, edge: Box::new(edge), reflexive },
            out,
        ),
    ensures
        exists|b: BatchView, found: Seq<Sol>|
            #![trigger may_answer(exec, q, env, scope, edge, b), found.len()]
            may_answer(exec, q, env, scope, edge, b) && path_solutions(
                subject,
                object,
                edge_maps(exec.dict(), b),
                reflexive,
                found,
            ) && out.rows.len() == found.len(),
{
    let run = record_of(
        exec,
        q,
        env,
        scope,
        AlgebraView::PathClosure { subject, object, edge: Box::new(edge), reflexive },
        out,
    );
    recorded(exec, q, env, scope, edge, run.below[0]);
    assert(run.out.rows.len() == run.found.len());
}

/// A pattern under a graph variable is matched in the graph that the variable
/// stands for, and one under a name or under none where it stands.
pub proof fn graph_variables_are_their_graphs(
    q: QueryView,
    env: Map<Text, Text>,
    v: Text,
    iri: Text,
)
    ensures
        q.scope(env.insert(v, iri), GraphScopeView::Named(GraphSpecView::Var(v))) == q.scope(
            env,
            GraphScopeView::Named(GraphSpecView::Iri(iri)),
        ),
        q.scope(env, GraphScopeView::Named(GraphSpecView::Iri(iri))).graph == GraphScopeView::Named(
            GraphSpecView::Iri(iri),
        ),
        q.scope(env, GraphScopeView::DefaultGraph).graph == GraphScopeView::DefaultGraph,
        q.scope(env, GraphScopeView::DefaultGraph).dataset == q.dataset,
        q.scope(env, GraphScopeView::DefaultGraph).mode == q.mode,
{
}

/// Solutions with variables among some columns are the solutions of their rows.
pub proof fn solutions_are_laid_out(d: Dict, vars: Seq<Text>, sols: Seq<Sol>, k: int)
    requires
        vars.no_duplicates(),
        0 <= k < sols.len(),
        forall|v: Text| #[trigger] sols[k].contains_key(v) ==> vars.contains(v),
    ensures
        solutions(d, term_batch(vars, sols)).len() == sols.len(),
        solutions(d, term_batch(vars, sols))[k] == sols[k],
{
    let b = term_batch(vars, sols);
    let x = solutions(d, b)[k];
    assert(sound(b));
    assert forall|v: Text| #[trigger]
        x.contains_key(v) == sols[k].contains_key(v) && (x.contains_key(v) ==> x[v]
        == sols[k][v]) by {
        a_row_binds_its_columns(d, b, k, v);
        if vars.contains(v) {
            let c = choose|c: int| 0 <= c < vars.len() && vars[c] == v;
            assert(b.schema[c] == v);
        }
    }
    assert(x =~= sols[k]);
}

}
