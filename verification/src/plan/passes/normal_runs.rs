//! Normalizing a plan changes none of its answers.

use crate::algebra::ExprView;
use crate::exec::batch::{solutions, BatchView};
use crate::exec::executor::Executor;
use crate::exec::invariance::{
    edges_agree, made_of, names_columns, per_graph_narrows, repeats_within, run_fits,
    same_solution,
    still_counts_columns,
};
use crate::exec::join::{join_batch, left_join_batch, minus_batch};
use crate::exec::narrow::{
    distinct_narrows, extend_narrows, filter_narrows, narrows, narrows_less, order_narrows,
    project_is_determined, slice_narrows,
};
use crate::exec::narrow_group::group_is_determined;
use crate::exec::narrow_join::{join_narrows, left_join_narrows, minus_narrows, union_narrows};
use crate::exec::operators::{
    distinct_batch, extend_batch, filter_batch, project_batch, slice_batch, union_batch,
    values_batch,
};
use crate::exec::refs::refs;
use crate::exec::runtime::{is_run, outs, per_graph_batch, yields, QueryView, Run};
use crate::plan::logical::LogicalView;
use crate::plan::lower::physical_view;
use crate::plan::passes::laws::{lowering_keeps_columns, normalizing_a_filter_keeps_the_rows};
use crate::plan::passes::normalize::{has_false, open_parts};
use crate::plan::passes::{
    conjoin_view, conjuncts_view, rewrite_view, schema_view, Rewrite,
};
use crate::plan::pushdown::output_view;
use crate::plan::types::infer_view;
use crate::text::Text;
use vstd::prelude::*;

verus! {

#[verifier::opaque]
spec fn normal(plan: LogicalView) -> LogicalView {
    rewrite_view(Rewrite::Normalize, plan)
}

/// How a node other than a filter is normalized.
proof fn normal_node(plan: LogicalView)
    ensures
        match plan {
            LogicalView::Bgp { .. } => normal(plan) == plan,
            LogicalView::Values { .. } => normal(plan) == plan,
            LogicalView::Join { left, right } => normal(plan) == (LogicalView::Join {
                left: Box::new(normal(*left)),
                right: Box::new(normal(*right)),
            }),
            LogicalView::LeftJoin { left, right, expr } => normal(plan) == (LogicalView::LeftJoin {
                left: Box::new(normal(*left)),
                right: Box::new(normal(*right)),
                expr,
            }),
            LogicalView::Minus { left, right } => normal(plan) == (LogicalView::Minus {
                left: Box::new(normal(*left)),
                right: Box::new(normal(*right)),
            }),
            LogicalView::Union { left, right } => normal(plan) == (LogicalView::Union {
                left: Box::new(normal(*left)),
                right: Box::new(normal(*right)),
            }),
            LogicalView::Filter { .. } => true,
            LogicalView::Project { vars, inner } => normal(plan) == (LogicalView::Project {
                vars,
                inner: Box::new(normal(*inner)),
            }),
            LogicalView::Distinct { inner } => normal(plan) == (LogicalView::Distinct {
                inner: Box::new(normal(*inner)),
            }),
            LogicalView::Slice { inner, start, length } => normal(plan) == (LogicalView::Slice {
                inner: Box::new(normal(*inner)),
                start,
                length,
            }),
            LogicalView::OrderBy { inner, keys } => normal(plan) == (LogicalView::OrderBy {
                inner: Box::new(normal(*inner)),
                keys,
            }),
            LogicalView::Extend { inner, var, expr } => normal(plan) == (LogicalView::Extend {
                inner: Box::new(normal(*inner)),
                var,
                expr,
            }),
            LogicalView::Group { inner, keys, aggregates } => normal(plan) == (LogicalView::Group {
                inner: Box::new(normal(*inner)),
                keys,
                aggregates,
            }),
            LogicalView::PerGraph { var, inner } => normal(plan) == (LogicalView::PerGraph {
                var,
                inner: Box::new(normal(*inner)),
            }),
            LogicalView::PathClosure { subject, object, edge, reflexive } => normal(plan) == (
            LogicalView::PathClosure {
                subject,
                object,
                edge: Box::new(normal(*edge)),
                reflexive,
            }),
        },
{
    reveal(normal);
}

/// Does a filter come to constant false once the plan below it is normalized?
pub open spec fn is_emptied(expr: ExprView, inner: LogicalView) -> bool {
    has_false(conjuncts_view(expr), infer_view(rewrite_view(Rewrite::Normalize, inner)))
}

/// Did every plan below a constant false filter yield all its columns?
pub open spec fn complete(plan: LogicalView, run: Run) -> bool
    decreases plan,
{
    match plan {
        LogicalView::Bgp { .. } => true,
        LogicalView::Values { .. } => true,
        LogicalView::Join { left, right } => complete(*left, run.below[0]) && complete(
            *right,
            run.below[1],
        ),
        LogicalView::LeftJoin { left, right, .. } => complete(*left, run.below[0]) && complete(
            *right,
            run.below[1],
        ),
        LogicalView::Minus { left, right } => complete(*left, run.below[0]) && complete(
            *right,
            run.below[1],
        ),
        LogicalView::Union { left, right } => complete(*left, run.below[0]) && complete(
            *right,
            run.below[1],
        ),
        LogicalView::Filter { expr, inner } => complete(*inner, run.below[0]) && (is_emptied(
            expr,
            *inner,
        ) ==> forall|n: Text| #[trigger]
            schema_view(*inner).contains(n) ==> run.below[0].out.schema.contains(n)),
        LogicalView::Project { inner, .. } => complete(*inner, run.below[0]),
        LogicalView::Distinct { inner } => complete(*inner, run.below[0]),
        LogicalView::Slice { inner, .. } => complete(*inner, run.below[0]),
        LogicalView::OrderBy { inner, .. } => complete(*inner, run.below[0]),
        LogicalView::Extend { inner, .. } => complete(*inner, run.below[0]),
        LogicalView::Group { inner, .. } => complete(*inner, run.below[0]),
        LogicalView::PerGraph { inner, .. } => forall|i: int|
            0 <= i < run.below.len() ==> complete(*inner, #[trigger] run.below[i]),
        LogicalView::PathClosure { edge, .. } => complete(*edge, run.below[0]),
    }
}

/// A normalized plan has the columns of the plan.
proof fn same_columns(plan: LogicalView)
    ensures
        schema_view(normal(plan)) == schema_view(plan),
    decreases plan,
{
    normal_node(plan);
    match plan {
        LogicalView::Join { left, right } => {
            same_columns(*left);
            same_columns(*right);
        },
        LogicalView::LeftJoin { left, right, .. } => {
            same_columns(*left);
            same_columns(*right);
        },
        LogicalView::Minus { left, .. } => same_columns(*left),
        LogicalView::Union { left, right } => {
            same_columns(*left);
            same_columns(*right);
        },
        LogicalView::Filter { inner, .. } => {
            same_columns(*inner);
            reveal(normal);
        },
        LogicalView::Distinct { inner } => same_columns(*inner),
        LogicalView::Slice { inner, .. } => same_columns(*inner),
        LogicalView::OrderBy { inner, .. } => same_columns(*inner),
        LogicalView::Extend { inner, .. } => same_columns(*inner),
        LogicalView::PerGraph { inner, .. } => same_columns(*inner),
        _ => {},
    }
}

/// A lowered plan has the columns of the plan, normalized or not.
proof fn same_output(plan: LogicalView)
    ensures
        output_view(physical_view(normal(plan))) == output_view(physical_view(plan)),
{
    same_columns(plan);
    lowering_keeps_columns(plan);
    lowering_keeps_columns(normal(plan));
}

/// A normalized plan names its columns as the plan does.
proof fn normal_names_columns(plan: LogicalView)
    requires
        names_columns(physical_view(plan)),
    ensures
        names_columns(physical_view(normal(plan))),
    decreases plan,
{
    normal_node(plan);
    match plan {
        LogicalView::Bgp { .. } => {},
        LogicalView::Values { .. } => {},
        LogicalView::Join { left, right } => {
            normal_names_columns(*left);
            normal_names_columns(*right);
        },
        LogicalView::LeftJoin { left, right, .. } => {
            normal_names_columns(*left);
            normal_names_columns(*right);
        },
        LogicalView::Minus { left, right } => {
            normal_names_columns(*left);
            normal_names_columns(*right);
        },
        LogicalView::Union { left, right } => {
            normal_names_columns(*left);
            normal_names_columns(*right);
        },
        LogicalView::Filter { inner, .. } => {
            normal_names_columns(*inner);
            reveal(normal);
        },
        LogicalView::Project { inner, .. } => normal_names_columns(*inner),
        LogicalView::Distinct { inner } => normal_names_columns(*inner),
        LogicalView::Slice { inner, .. } => normal_names_columns(*inner),
        LogicalView::OrderBy { inner, .. } => normal_names_columns(*inner),
        LogicalView::Extend { inner, .. } => {
            normal_names_columns(*inner);
            same_output(*inner);
        },
        LogicalView::Group { inner, .. } => {
            normal_names_columns(*inner);
            same_output(*inner);
        },
        LogicalView::PerGraph { inner, .. } => normal_names_columns(*inner),
        LogicalView::PathClosure { edge, .. } => normal_names_columns(*edge),
    }
}

/// Is a run of the normalized plan one that agrees with a run of the plan?
spec fn replaces<E: Executor>(
    exec: &E,
    q: QueryView,
    env: Map<Text, Text>,
    plan: LogicalView,
    run: Run,
    w: Run,
) -> bool {
    is_run(exec, q, env, physical_view(normal(plan)), w) && narrows(run.out, w.out, Set::full())
}

/// A run of a plan that ends in a filter has its counterpart.
proof fn normal_filter<E: Executor>(
    exec: &E,
    q: QueryView,
    env: Map<Text, Text>,
    expr: ExprView,
    inner: LogicalView,
    run: Run,
    below: Run,
) -> (w: Run)
    requires
        names_columns(physical_view(inner)),
        is_run(exec, q, env, physical_view(LogicalView::Filter { expr, inner: Box::new(inner) }), run),
        complete(LogicalView::Filter { expr, inner: Box::new(inner) }, run),
        replaces(exec, q, env, inner, run.below[0], below),
    ensures
        replaces(exec, q, env, LogicalView::Filter { expr, inner: Box::new(inner) }, run, w),
{
    let d = exec.dict();
    let all = Set::<Text>::full();
    let plan = LogicalView::Filter { expr, inner: Box::new(inner) };
    let under = normal(inner);
    reveal(normal);
    let parts = conjuncts_view(expr);
    let types = infer_view(under);
    let x = run.below[0];
    filter_narrows::<E::N>(d, x.out, below.out, all, expr);
    normalizing_a_filter_keeps_the_rows::<E::N>(d, below.out, expr, types);
    if has_false(parts, types) {
        let w = made_of(values_batch(schema_view(under), Seq::empty()), Seq::empty());
        assert(normal(plan) == LogicalView::Values {
            vars: schema_view(under),
            rows: Seq::empty(),
        });
        assert(is_run(exec, q, env, physical_view(normal(plan)), w));
        same_columns(inner);
        normal_names_columns(inner);
        lowering_keeps_columns(under);
        lowering_keeps_columns(inner);
        run_fits(exec, q, env, physical_view(inner), x);
        assert(is_emptied(expr, inner));
        assert forall|n: Text| #[trigger] run.out.schema.contains(n) implies w.out.schema.contains(
            n,
        ) by {
            assert(schema_view(inner).contains(n));
            assert(schema_view(under).contains(n));
        }
        assert forall|n: Text| all.contains(n) && #[trigger] w.out.schema.contains(
            n,
        ) implies run.out.schema.contains(n) by {
            assert(schema_view(under).contains(n));
            assert(schema_view(inner).contains(n));
        }
        w
    } else {
        match conjoin_view(open_parts(parts, types)) {
            Some(f) => {
                let w = made_of(filter_batch::<E::N>(d, below.out, f), seq![below]);
                assert(w.below[0] == below);
                assert(normal(plan) == LogicalView::Filter { expr: f, inner: Box::new(under) });
                assert(is_run(exec, q, env, physical_view(normal(plan)), w));
                assert(w.out == filter_batch::<E::N>(d, below.out, expr));
                w
            },
            None => {
                assert(normal(plan) == under);
                assert(below.out == filter_batch::<E::N>(d, below.out, expr));
                below
            },
        }
    }
}

/// A run of a plan has its counterpart in the normalized plan.
proof fn normal_run<E: Executor>(
    exec: &E,
    q: QueryView,
    env: Map<Text, Text>,
    plan: LogicalView,
    run: Run,
) -> (w: Run)
    requires
        names_columns(physical_view(plan)),
        is_run(exec, q, env, physical_view(plan), run),
        complete(plan, run),
    ensures
        replaces(exec, q, env, plan, run, w),
    decreases plan, 1int,
{
    normal_node(plan);
    match plan {
        LogicalView::Bgp { .. } => {
            run_fits(exec, q, env, physical_view(plan), run);
            run
        },
        LogicalView::Values { .. } => {
            run_fits(exec, q, env, physical_view(plan), run);
            run
        },
        LogicalView::Join { .. } => normal_join(exec, q, env, plan, run),
        LogicalView::LeftJoin { .. } => normal_left_join(exec, q, env, plan, run),
        LogicalView::Minus { .. } => normal_difference(exec, q, env, plan, run),
        LogicalView::Union { .. } => normal_union(exec, q, env, plan, run),
        LogicalView::Filter { expr, inner } => {
            let x = normal_run(exec, q, env, *inner, run.below[0]);
            normal_filter(exec, q, env, expr, *inner, run, x)
        },
        LogicalView::Project { .. } => normal_projection(exec, q, env, plan, run),
        LogicalView::Distinct { .. } => normal_distinct(exec, q, env, plan, run),
        LogicalView::Slice { .. } => normal_slice(exec, q, env, plan, run),
        LogicalView::OrderBy { .. } => normal_order(exec, q, env, plan, run),
        LogicalView::Extend { .. } => normal_extension(exec, q, env, plan, run),
        LogicalView::Group { .. } => normal_group(exec, q, env, plan, run),
        LogicalView::PerGraph { .. } => normal_graphs(exec, q, env, plan, run),
        LogicalView::PathClosure { .. } => normal_path(exec, q, env, plan, run),
    }
}

proof fn normal_join<E: Executor>(
    exec: &E,
    q: QueryView,
    env: Map<Text, Text>,
    plan: LogicalView,
    run: Run,
) -> (w: Run)
    requires
        plan is Join,
        names_columns(physical_view(plan)),
        is_run(exec, q, env, physical_view(plan), run),
        complete(plan, run),
    ensures
        replaces(exec, q, env, plan, run, w),
    decreases plan, 0int,
{
    let d = exec.dict();
    let all = Set::<Text>::full();
    let first = run.below[0];
    let second = run.below[1];
    let node = physical_view(normal(plan));
    normal_node(plan);
    match plan {
        LogicalView::Join { left, right } => {
            let x = normal_run(exec, q, env, *left, first);
            let y = normal_run(exec, q, env, *right, second);
            let w = made_of(join_batch(d, x.out, y.out), seq![x, y]);
            assert(w.below[0] == x && w.below[1] == y);
            assert(is_run(exec, q, env, node, w));
            join_narrows(d, first.out, second.out, x.out, y.out, all);
            w
        },
        _ => run,
    }
}

proof fn normal_left_join<E: Executor>(
    exec: &E,
    q: QueryView,
    env: Map<Text, Text>,
    plan: LogicalView,
    run: Run,
) -> (w: Run)
    requires
        plan is LeftJoin,
        names_columns(physical_view(plan)),
        is_run(exec, q, env, physical_view(plan), run),
        complete(plan, run),
    ensures
        replaces(exec, q, env, plan, run, w),
    decreases plan, 0int,
{
    let d = exec.dict();
    let all = Set::<Text>::full();
    let first = run.below[0];
    let second = run.below[1];
    let node = physical_view(normal(plan));
    normal_node(plan);
    match plan {
        LogicalView::LeftJoin { left, right, expr } => {
            let x = normal_run(exec, q, env, *left, first);
            let y = normal_run(exec, q, env, *right, second);
            let w = made_of(left_join_batch::<E::N>(d, x.out, y.out, expr), seq![x, y]);
            assert(w.below[0] == x && w.below[1] == y);
            assert(is_run(exec, q, env, node, w));
            left_join_narrows::<E::N>(d, first.out, second.out, x.out, y.out, all, expr);
            w
        },
        _ => run,
    }
}

proof fn normal_difference<E: Executor>(
    exec: &E,
    q: QueryView,
    env: Map<Text, Text>,
    plan: LogicalView,
    run: Run,
) -> (w: Run)
    requires
        plan is Minus,
        names_columns(physical_view(plan)),
        is_run(exec, q, env, physical_view(plan), run),
        complete(plan, run),
    ensures
        replaces(exec, q, env, plan, run, w),
    decreases plan, 0int,
{
    let d = exec.dict();
    let first = run.below[0];
    let second = run.below[1];
    let node = physical_view(normal(plan));
    normal_node(plan);
    match plan {
        LogicalView::Minus { left, right } => {
            let x = normal_run(exec, q, env, *left, first);
            let y = normal_run(exec, q, env, *right, second);
            let w = made_of(minus_batch(d, x.out, y.out), seq![x, y]);
            assert(w.below[0] == x && w.below[1] == y);
            assert(is_run(exec, q, env, node, w));
            minus_narrows(d, first.out, second.out, x.out, y.out);
            w
        },
        _ => run,
    }
}

proof fn normal_union<E: Executor>(
    exec: &E,
    q: QueryView,
    env: Map<Text, Text>,
    plan: LogicalView,
    run: Run,
) -> (w: Run)
    requires
        plan is Union,
        names_columns(physical_view(plan)),
        is_run(exec, q, env, physical_view(plan), run),
        complete(plan, run),
    ensures
        replaces(exec, q, env, plan, run, w),
    decreases plan, 0int,
{
    let d = exec.dict();
    let all = Set::<Text>::full();
    let first = run.below[0];
    let second = run.below[1];
    let node = physical_view(normal(plan));
    normal_node(plan);
    match plan {
        LogicalView::Union { left, right } => {
            let x = normal_run(exec, q, env, *left, first);
            let y = normal_run(exec, q, env, *right, second);
            let w = made_of(union_batch(d, x.out, y.out), seq![x, y]);
            assert(w.below[0] == x && w.below[1] == y);
            assert(is_run(exec, q, env, node, w));
            union_narrows(d, first.out, second.out, x.out, y.out, all);
            w
        },
        _ => run,
    }
}

proof fn normal_projection<E: Executor>(
    exec: &E,
    q: QueryView,
    env: Map<Text, Text>,
    plan: LogicalView,
    run: Run,
) -> (w: Run)
    requires
        plan is Project,
        names_columns(physical_view(plan)),
        is_run(exec, q, env, physical_view(plan), run),
        complete(plan, run),
    ensures
        replaces(exec, q, env, plan, run, w),
    decreases plan, 0int,
{
    let all = Set::<Text>::full();
    let first = run.below[0];
    let node = physical_view(normal(plan));
    normal_node(plan);
    match plan {
        LogicalView::Project { vars, inner } => {
            let x = normal_run(exec, q, env, *inner, first);
            narrows_less(first.out, x.out, all, vars.to_set());
            project_is_determined(first.out, x.out, vars);
            let w = made_of(project_batch(x.out, vars), seq![x]);
            assert(w.below[0] == x);
            assert(is_run(exec, q, env, node, w));
            run_fits(exec, q, env, physical_view(plan), run);
            w
        },
        _ => run,
    }
}

proof fn normal_distinct<E: Executor>(
    exec: &E,
    q: QueryView,
    env: Map<Text, Text>,
    plan: LogicalView,
    run: Run,
) -> (w: Run)
    requires
        plan is Distinct,
        names_columns(physical_view(plan)),
        is_run(exec, q, env, physical_view(plan), run),
        complete(plan, run),
    ensures
        replaces(exec, q, env, plan, run, w),
    decreases plan, 0int,
{
    let first = run.below[0];
    let node = physical_view(normal(plan));
    normal_node(plan);
    match plan {
        LogicalView::Distinct { inner } => {
            let x = normal_run(exec, q, env, *inner, first);
            let w = made_of(distinct_batch(x.out), seq![x]);
            assert(w.below[0] == x);
            assert(is_run(exec, q, env, node, w));
            distinct_narrows(first.out, x.out);
            w
        },
        _ => run,
    }
}

proof fn normal_slice<E: Executor>(
    exec: &E,
    q: QueryView,
    env: Map<Text, Text>,
    plan: LogicalView,
    run: Run,
) -> (w: Run)
    requires
        plan is Slice,
        names_columns(physical_view(plan)),
        is_run(exec, q, env, physical_view(plan), run),
        complete(plan, run),
    ensures
        replaces(exec, q, env, plan, run, w),
    decreases plan, 0int,
{
    let all = Set::<Text>::full();
    let first = run.below[0];
    let node = physical_view(normal(plan));
    normal_node(plan);
    match plan {
        LogicalView::Slice { inner, start, length } => {
            let x = normal_run(exec, q, env, *inner, first);
            let w = made_of(slice_batch(x.out, start as int, length), seq![x]);
            assert(w.below[0] == x);
            assert(is_run(exec, q, env, node, w));
            slice_narrows(first.out, x.out, all, start as int, length);
            w
        },
        _ => run,
    }
}

proof fn normal_order<E: Executor>(
    exec: &E,
    q: QueryView,
    env: Map<Text, Text>,
    plan: LogicalView,
    run: Run,
) -> (w: Run)
    requires
        plan is OrderBy,
        names_columns(physical_view(plan)),
        is_run(exec, q, env, physical_view(plan), run),
        complete(plan, run),
    ensures
        replaces(exec, q, env, plan, run, w),
    decreases plan, 0int,
{
    let d = exec.dict();
    let all = Set::<Text>::full();
    let first = run.below[0];
    let node = physical_view(normal(plan));
    normal_node(plan);
    match plan {
        LogicalView::OrderBy { inner, keys } => {
            let x = normal_run(exec, q, env, *inner, first);
            let y = order_narrows::<E::N>(d, first.out, x.out, all, keys, run.out);
            let w = made_of(y, seq![x]);
            assert(w.below[0] == x);
            assert(is_run(exec, q, env, node, w));
            w
        },
        _ => run,
    }
}

proof fn normal_extension<E: Executor>(
    exec: &E,
    q: QueryView,
    env: Map<Text, Text>,
    plan: LogicalView,
    run: Run,
) -> (w: Run)
    requires
        plan is Extend,
        names_columns(physical_view(plan)),
        is_run(exec, q, env, physical_view(plan), run),
        complete(plan, run),
    ensures
        replaces(exec, q, env, plan, run, w),
    decreases plan, 0int,
{
    let d = exec.dict();
    let all = Set::<Text>::full();
    let first = run.below[0];
    let node = physical_view(normal(plan));
    normal_node(plan);
    match plan {
        LogicalView::Extend { inner, var, expr } => {
            let x = normal_run(exec, q, env, *inner, first);
            let w = made_of(extend_batch::<E::N>(d, x.out, var, expr), seq![x]);
            assert(w.below[0] == x);
            assert(is_run(exec, q, env, node, w));
            narrows_less(first.out, x.out, all, all.remove(var).union(refs(expr)));
            normal_names_columns(*inner);
            same_output(*inner);
            run_fits(exec, q, env, physical_view(*inner), first);
            run_fits(exec, q, env, physical_view(normal(*inner)), x);
            reveal(repeats_within);
            extend_narrows::<E::N>(d, first.out, x.out, all, var, expr);
            w
        },
        _ => run,
    }
}

proof fn normal_group<E: Executor>(
    exec: &E,
    q: QueryView,
    env: Map<Text, Text>,
    plan: LogicalView,
    run: Run,
) -> (w: Run)
    requires
        plan is Group,
        names_columns(physical_view(plan)),
        is_run(exec, q, env, physical_view(plan), run),
        complete(plan, run),
    ensures
        replaces(exec, q, env, plan, run, w),
    decreases plan, 0int,
{
    let d = exec.dict();
    let all = Set::<Text>::full();
    let first = run.below[0];
    let node = physical_view(normal(plan));
    normal_node(plan);
    match plan {
        LogicalView::Group { inner, keys, aggregates } => {
            let x = normal_run(exec, q, env, *inner, first);
            normal_names_columns(*inner);
            same_output(*inner);
            run_fits(exec, q, env, physical_view(*inner), first);
            run_fits(exec, q, env, physical_view(normal(*inner)), x);
            let columns = output_view(physical_view(*inner));
            still_counts_columns(first.out.schema, columns, aggregates);
            still_counts_columns(x.out.schema, columns, aggregates);
            group_is_determined::<E::N>(d, first.out, x.out, all, keys, aggregates, run.out);
            let w = made_of(run.out, seq![x]);
            assert(w.below[0] == x);
            assert(is_run(exec, q, env, node, w));
            run_fits(exec, q, env, physical_view(plan), run);
            w
        },
        _ => run,
    }
}

proof fn normal_graphs<E: Executor>(
    exec: &E,
    q: QueryView,
    env: Map<Text, Text>,
    plan: LogicalView,
    run: Run,
) -> (w: Run)
    requires
        plan is PerGraph,
        names_columns(physical_view(plan)),
        is_run(exec, q, env, physical_view(plan), run),
        complete(plan, run),
    ensures
        replaces(exec, q, env, plan, run, w),
    decreases plan, 0int,
{
    let d = exec.dict();
    let all = Set::<Text>::full();
    let node = physical_view(normal(plan));
    normal_node(plan);
    match plan {
        LogicalView::PerGraph { var, inner } => {
            let n = run.graphs.len();
            let below = Seq::new(
                n,
                |i: int|
                    choose|w: Run|
                        replaces(
                            exec,
                            q,
                            env.insert(var, run.graphs[i].iri),
                            *inner,
                            run.below[i],
                            w,
                        ),
            );
            let (x, y) = (outs(run.below), outs(below));
            assert forall|i: int| 0 <= i < n implies replaces(
                exec,
                q,
                env.insert(var, run.graphs[i].iri),
                *inner,
                run.below[i],
                #[trigger] below[i],
            ) by {
                let at = env.insert(var, run.graphs[i].iri);
                assert(is_run(exec, q, at, physical_view(*inner), run.below[i]));
                assert(complete(*inner, run.below[i]));
                let w = normal_run(exec, q, at, *inner, run.below[i]);
                assert(replaces(exec, q, at, *inner, run.below[i], w));
            }
            assert forall|i: int| 0 <= i < n implies narrows(#[trigger] x[i], y[i], all) by {
                let at = env.insert(var, run.graphs[i].iri);
                assert(replaces(exec, q, at, *inner, run.below[i], below[i]));
            }
            per_graph_narrows(d, var, run.graphs, x, y, n as int);
            let w = Run {
                out: per_graph_batch(d, var, run.graphs, y, n as int),
                below,
                scanned: run.scanned,
                graphs: run.graphs,
                found: run.found,
            };
            assert(is_run(exec, q, env, node, w));
            w
        },
        _ => run,
    }
}

proof fn normal_path<E: Executor>(
    exec: &E,
    q: QueryView,
    env: Map<Text, Text>,
    plan: LogicalView,
    run: Run,
) -> (w: Run)
    requires
        plan is PathClosure,
        names_columns(physical_view(plan)),
        is_run(exec, q, env, physical_view(plan), run),
        complete(plan, run),
    ensures
        replaces(exec, q, env, plan, run, w),
    decreases plan, 0int,
{
    let d = exec.dict();
    let first = run.below[0];
    let node = physical_view(normal(plan));
    normal_node(plan);
    match plan {
        LogicalView::PathClosure { edge, .. } => {
            let x = normal_run(exec, q, env, *edge, first);
            edges_agree(d, first.out, x.out);
            let w = Run {
                out: run.out,
                below: seq![x],
                scanned: run.scanned,
                graphs: run.graphs,
                found: run.found,
            };
            assert(w.below[0] == x);
            assert(is_run(exec, q, env, node, w));
            run_fits(exec, q, env, physical_view(plan), run);
            w
        },
        _ => run,
    }
}

/// Normalization changes no answer: what a plan yields, row by row and in
/// order, the normalized plan yields. Every name of the plan is to stand for one
/// column, and for a lone one where its distinct values are counted; and what
/// stood below a filter that is constant false is to have all its columns.
pub proof fn normalizing_keeps_the_answers<E: Executor>(
    exec: &E,
    q: QueryView,
    env: Map<Text, Text>,
    plan: LogicalView,
    run: Run,
) -> (b: BatchView)
    requires
        names_columns(physical_view(plan)),
        is_run(exec, q, env, physical_view(plan), run),
        complete(plan, run),
    ensures
        yields(exec, q, env, physical_view(rewrite_view(Rewrite::Normalize, plan)), b),
        solutions(exec.dict(), b) == solutions(exec.dict(), run.out),
{
    reveal(yields);
    reveal(normal);
    let d = exec.dict();
    let w = normal_run(exec, q, env, plan, run);
    assert forall|i: int| 0 <= i < run.out.rows.len() implies solutions(d, run.out)[i]
        == solutions(d, w.out)[i] by {
        same_solution(d, run.out, w.out, i);
    }
    assert(solutions(d, run.out) =~= solutions(d, w.out));
    assert(is_run(exec, q, env, physical_view(normal(plan)), w));
    w.out
}

}
