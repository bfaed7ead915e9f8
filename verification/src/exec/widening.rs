//! Rewriting a plan for execution loses none of its answers.

use crate::exec::batch::{solutions, BatchView};
use crate::exec::executor::Executor;
use crate::exec::invariance::{
    agrees_throughout, count_is_a_group, counted_names_columns, counts_in_runs, edges_agree, gives, group_reads,
    kept_names, made_of, names_columns, over, per_graph_narrows,
    pruned_names_columns, pruned_repeats, reads_what_it_has, repeats_within, restriction_changes_nothing, run_fits, same_solution,
    shared_is_read, stands_for,
};
use crate::exec::join::{join_batch, left_join_batch, minus_batch};
use crate::exec::narrow::{
    distinct_narrows, extend_narrows, filter_narrows, narrows, narrows_less, order_widens,
    project_is_determined, restrict_narrows, slice_narrows,
};
use crate::exec::narrow_join::{join_narrows, left_join_narrows, minus_narrows, union_narrows};
use crate::exec::operators::{
    distinct_batch, extend_batch, filter_batch, project_batch, slice_batch, union_batch,
};
use crate::exec::refs::refs;
use crate::exec::runtime::{is_run, outs, per_graph_batch, yields, QueryView, Run};
use crate::plan::passes::bgp_vars;
use crate::plan::passes::projection_pushdown::{
    group_demand, keep, opt_refs, order_refs, with_shared,
};
use crate::plan::pushdown::{
    counts_solutions, is_narrowed, narrowed_view, output_view, prune_view, push_aggregates_view,
    restrict_view, rewritten,
};
use crate::plan::PhysicalView;
use crate::text::Text;
use vstd::prelude::*;

verus! {

// ── Pruning ─────────────────────────────────────────────────────────────────

/// A run of a node, restricted to what is demanded.
proof fn restricted<E: Executor>(
    exec: &E,
    q: QueryView,
    env: Map<Text, Text>,
    node: PhysicalView,
    want: Set<Text>,
    under: Run,
) -> (run: Run)
    requires
        names_columns(node),
        is_run(exec, q, env, node, under),
    ensures
        is_run(exec, q, env, restrict_view(node, want), run),
        forall|b: BatchView| #[trigger] narrows(under.out, b, want) ==> narrows(run.out, b, want),
{
    let natural = output_view(node);
    let kept = keep(natural, want);
    if kept.len() < natural.len() && kept.len() > 0 {
        kept_names(natural, want);
        run_fits(exec, q, env, node, under);
        let run = made_of(project_batch(under.out, kept), seq![under]);
        assert(run.below[0] == under);
        assert(is_run(exec, q, env, restrict_view(node, want), run));
        assert forall|b: BatchView| #[trigger] narrows(under.out, b, want) implies narrows(
            run.out,
            b,
            want,
        ) by {
            restrict_narrows(under.out, b, want, kept);
        }
        run
    } else {
        under
    }
}

/// Is a run of a pruned plan one that agrees with a run of the plan?
spec fn comes_of<E: Executor>(
    exec: &E,
    q: QueryView,
    env: Map<Text, Text>,
    plan: PhysicalView,
    want: Set<Text>,
    run: Run,
    pruned: Run,
) -> bool {
    is_run(exec, q, env, prune_view(plan, want), pruned) && narrows(pruned.out, run.out, want)
}

/// A run of a plan agrees, on what is demanded, with a run of the pruned plan.
proof fn kept_run<E: Executor>(
    exec: &E,
    q: QueryView,
    env: Map<Text, Text>,
    plan: PhysicalView,
    want: Set<Text>,
    run: Run,
) -> (pruned: Run)
    requires
        names_columns(plan),
        is_run(exec, q, env, plan, run),
    ensures
        comes_of(exec, q, env, plan, want, run, pruned),
    decreases plan, 1int,
{
    let all = Set::<Text>::full();
    pruned_names_columns(plan, want);
    match plan {
        PhysicalView::BgpScan { .. } => {
            run_fits(exec, q, env, plan, run);
            narrows_less(run.out, run.out, all, want);
            restricted(exec, q, env, plan, want, run)
        },
        PhysicalView::Values { .. } => {
            run_fits(exec, q, env, plan, run);
            narrows_less(run.out, run.out, all, want);
            restricted(exec, q, env, plan, want, run)
        },
        PhysicalView::CountScan { .. } => {
            run_fits(exec, q, env, plan, run);
            narrows_less(run.out, run.out, all, want);
            run
        },
        PhysicalView::GroupCountScan { .. } => {
            run_fits(exec, q, env, plan, run);
            narrows_less(run.out, run.out, all, want);
            run
        },
        PhysicalView::Project { .. } => kept_projection(exec, q, env, plan, want, run),
        PhysicalView::Filter { .. } => kept_filter(exec, q, env, plan, want, run),
        PhysicalView::Join { .. } => kept_join(exec, q, env, plan, want, run),
        PhysicalView::LeftJoin { .. } => kept_left_join(exec, q, env, plan, want, run),
        PhysicalView::Minus { .. } => kept_difference(exec, q, env, plan, want, run),
        PhysicalView::Union { .. } => kept_union(exec, q, env, plan, want, run),
        PhysicalView::Distinct { .. } => kept_distinct(exec, q, env, plan, want, run),
        PhysicalView::Slice { .. } => kept_slice(exec, q, env, plan, want, run),
        PhysicalView::OrderBy { .. } => kept_order(exec, q, env, plan, want, run),
        PhysicalView::Extend { .. } => kept_extension(exec, q, env, plan, want, run),
        PhysicalView::Group { .. } => kept_group(exec, q, env, plan, want, run),
        PhysicalView::PerGraph { .. } => kept_graphs(exec, q, env, plan, want, run),
        PhysicalView::PathClosure { .. } => kept_path(exec, q, env, plan, want, run),
    }
}

proof fn kept_projection<E: Executor>(
    exec: &E,
    q: QueryView,
    env: Map<Text, Text>,
    plan: PhysicalView,
    want: Set<Text>,
    run: Run,
) -> (pruned: Run)
    requires
        plan is Project,
        names_columns(plan),
        is_run(exec, q, env, plan, run),
    ensures
        comes_of(exec, q, env, plan, want, run, pruned),
    decreases plan, 0int,
{
    let all = Set::<Text>::full();
    let w = run.below[0];
    match plan {
        PhysicalView::Project { vars, inner } => if is_narrowed(vars, *inner, want) {
            let x = kept_run(exec, q, env, *inner, want, w);
            assert(stands_for(exec, q, env, *inner, want, x, w));
            restriction_changes_nothing(exec, q, env, vars, *inner, want, x, w);
            x
        } else {
            let x = kept_run(exec, q, env, *inner, vars.to_set(), w);
            project_is_determined(x.out, w.out, vars);
            let pruned = made_of(project_batch(x.out, vars), seq![x]);
            assert(pruned.below[0] == x);
            assert(is_run(exec, q, env, prune_view(plan, want), pruned));
            run_fits(exec, q, env, plan, run);
            narrows_less(run.out, run.out, all, want);
            pruned
        },
        _ => run,
    }
}

proof fn kept_filter<E: Executor>(
    exec: &E,
    q: QueryView,
    env: Map<Text, Text>,
    plan: PhysicalView,
    want: Set<Text>,
    run: Run,
) -> (pruned: Run)
    requires
        plan is Filter,
        names_columns(plan),
        is_run(exec, q, env, plan, run),
    ensures
        comes_of(exec, q, env, plan, want, run, pruned),
    decreases plan, 0int,
{
    let d = exec.dict();
    let w = run.below[0];
    match plan {
        PhysicalView::Filter { expr, inner } => {
            let read = want.union(refs(expr));
            let node = PhysicalView::Filter { expr, inner: Box::new(prune_view(*inner, read)) };
            pruned_names_columns(*inner, read);
            let x = kept_run(exec, q, env, *inner, read, w);
            let under = made_of(filter_batch::<E::N>(d, x.out, expr), seq![x]);
            assert(under.below[0] == x);
            assert(is_run(exec, q, env, node, under));
            filter_narrows::<E::N>(d, x.out, w.out, read, expr);
            narrows_less(under.out, run.out, read, want);
            restricted(exec, q, env, node, want, under)
        },
        _ => run,
    }
}

proof fn kept_join<E: Executor>(
    exec: &E,
    q: QueryView,
    env: Map<Text, Text>,
    plan: PhysicalView,
    want: Set<Text>,
    run: Run,
) -> (pruned: Run)
    requires
        plan is Join,
        names_columns(plan),
        is_run(exec, q, env, plan, run),
    ensures
        comes_of(exec, q, env, plan, want, run, pruned),
    decreases plan, 0int,
{
    let d = exec.dict();
    let (v, w) = (run.below[0], run.below[1]);
    match plan {
        PhysicalView::Join { left, right } => {
            let (lo, ro) = (output_view(*left), output_view(*right));
            let base = with_shared(want, lo, ro);
            let (f, g) = (base.intersect(lo.to_set()), base.intersect(ro.to_set()));
            let node = PhysicalView::Join {
                left: Box::new(prune_view(*left, f)),
                right: Box::new(prune_view(*right, g)),
            };
            pruned_names_columns(*left, f);
            pruned_names_columns(*right, g);
            let x = kept_run(exec, q, env, *left, f, v);
            let y = kept_run(exec, q, env, *right, g, w);
            let under = made_of(join_batch(d, x.out, y.out), seq![x, y]);
            assert(under.below[0] == x && under.below[1] == y);
            assert(is_run(exec, q, env, node, under));
            run_fits(exec, q, env, *left, v);
            run_fits(exec, q, env, *right, w);
            reads_what_it_has(x.out, v.out, base, lo);
            reads_what_it_has(y.out, w.out, base, ro);
            shared_is_read(v.out.schema, w.out.schema, lo, ro, base);
            join_narrows(d, x.out, y.out, v.out, w.out, base);
            narrows_less(under.out, run.out, base, want);
            restricted(exec, q, env, node, want, under)
        },
        _ => run,
    }
}

proof fn kept_left_join<E: Executor>(
    exec: &E,
    q: QueryView,
    env: Map<Text, Text>,
    plan: PhysicalView,
    want: Set<Text>,
    run: Run,
) -> (pruned: Run)
    requires
        plan is LeftJoin,
        names_columns(plan),
        is_run(exec, q, env, plan, run),
    ensures
        comes_of(exec, q, env, plan, want, run, pruned),
    decreases plan, 0int,
{
    let d = exec.dict();
    let (v, w) = (run.below[0], run.below[1]);
    match plan {
        PhysicalView::LeftJoin { left, right, expr } => {
            let (lo, ro) = (output_view(*left), output_view(*right));
            let base = with_shared(want, lo, ro).union(opt_refs(expr));
            let (f, g) = (base.intersect(lo.to_set()), base.intersect(ro.to_set()));
            let node = PhysicalView::LeftJoin {
                left: Box::new(prune_view(*left, f)),
                right: Box::new(prune_view(*right, g)),
                expr,
            };
            pruned_names_columns(*left, f);
            pruned_names_columns(*right, g);
            let x = kept_run(exec, q, env, *left, f, v);
            let y = kept_run(exec, q, env, *right, g, w);
            let under = made_of(left_join_batch::<E::N>(d, x.out, y.out, expr), seq![x, y]);
            assert(under.below[0] == x && under.below[1] == y);
            assert(is_run(exec, q, env, node, under));
            run_fits(exec, q, env, *left, v);
            run_fits(exec, q, env, *right, w);
            reads_what_it_has(x.out, v.out, base, lo);
            reads_what_it_has(y.out, w.out, base, ro);
            shared_is_read(v.out.schema, w.out.schema, lo, ro, base);
            left_join_narrows::<E::N>(d, x.out, y.out, v.out, w.out, base, expr);
            narrows_less(under.out, run.out, base, want);
            restricted(exec, q, env, node, want, under)
        },
        _ => run,
    }
}

proof fn kept_difference<E: Executor>(
    exec: &E,
    q: QueryView,
    env: Map<Text, Text>,
    plan: PhysicalView,
    want: Set<Text>,
    run: Run,
) -> (pruned: Run)
    requires
        plan is Minus,
        names_columns(plan),
        is_run(exec, q, env, plan, run),
    ensures
        comes_of(exec, q, env, plan, want, run, pruned),
    decreases plan, 0int,
{
    let d = exec.dict();
    let all = Set::<Text>::full();
    let (v, w) = (run.below[0], run.below[1]);
    match plan {
        PhysicalView::Minus { left, right } => {
            let (lo, ro) = (output_view(*left), output_view(*right));
            let x = kept_run(exec, q, env, *left, lo.to_set(), v);
            let y = kept_run(exec, q, env, *right, ro.to_set(), w);
            let pruned = made_of(minus_batch(d, x.out, y.out), seq![x, y]);
            assert(pruned.below[0] == x && pruned.below[1] == y);
            assert(is_run(exec, q, env, prune_view(plan, want), pruned));
            agrees_throughout(exec, q, env, *left, x, v);
            agrees_throughout(exec, q, env, *right, y, w);
            minus_narrows(d, x.out, y.out, v.out, w.out);
            narrows_less(pruned.out, run.out, all, want);
            pruned
        },
        _ => run,
    }
}

proof fn kept_union<E: Executor>(
    exec: &E,
    q: QueryView,
    env: Map<Text, Text>,
    plan: PhysicalView,
    want: Set<Text>,
    run: Run,
) -> (pruned: Run)
    requires
        plan is Union,
        names_columns(plan),
        is_run(exec, q, env, plan, run),
    ensures
        comes_of(exec, q, env, plan, want, run, pruned),
    decreases plan, 0int,
{
    let d = exec.dict();
    let (v, w) = (run.below[0], run.below[1]);
    match plan {
        PhysicalView::Union { left, right } => {
            let x = kept_run(exec, q, env, *left, want, v);
            let y = kept_run(exec, q, env, *right, want, w);
            let pruned = made_of(union_batch(d, x.out, y.out), seq![x, y]);
            assert(pruned.below[0] == x && pruned.below[1] == y);
            assert(is_run(exec, q, env, prune_view(plan, want), pruned));
            union_narrows(d, x.out, y.out, v.out, w.out, want);
            pruned
        },
        _ => run,
    }
}

proof fn kept_distinct<E: Executor>(
    exec: &E,
    q: QueryView,
    env: Map<Text, Text>,
    plan: PhysicalView,
    want: Set<Text>,
    run: Run,
) -> (pruned: Run)
    requires
        plan is Distinct,
        names_columns(plan),
        is_run(exec, q, env, plan, run),
    ensures
        comes_of(exec, q, env, plan, want, run, pruned),
    decreases plan, 0int,
{
    let all = Set::<Text>::full();
    let w = run.below[0];
    match plan {
        PhysicalView::Distinct { inner } => {
            let x = kept_run(exec, q, env, *inner, output_view(*inner).to_set(), w);
            let pruned = made_of(distinct_batch(x.out), seq![x]);
            assert(pruned.below[0] == x);
            assert(is_run(exec, q, env, prune_view(plan, want), pruned));
            agrees_throughout(exec, q, env, *inner, x, w);
            distinct_narrows(x.out, w.out);
            narrows_less(pruned.out, run.out, all, want);
            pruned
        },
        _ => run,
    }
}

proof fn kept_slice<E: Executor>(
    exec: &E,
    q: QueryView,
    env: Map<Text, Text>,
    plan: PhysicalView,
    want: Set<Text>,
    run: Run,
) -> (pruned: Run)
    requires
        plan is Slice,
        names_columns(plan),
        is_run(exec, q, env, plan, run),
    ensures
        comes_of(exec, q, env, plan, want, run, pruned),
    decreases plan, 0int,
{
    let w = run.below[0];
    match plan {
        PhysicalView::Slice { inner, start, length } => {
            let x = kept_run(exec, q, env, *inner, want, w);
            let pruned = made_of(slice_batch(x.out, start as int, length), seq![x]);
            assert(pruned.below[0] == x);
            assert(is_run(exec, q, env, prune_view(plan, want), pruned));
            slice_narrows(x.out, w.out, want, start as int, length);
            pruned
        },
        _ => run,
    }
}

proof fn kept_order<E: Executor>(
    exec: &E,
    q: QueryView,
    env: Map<Text, Text>,
    plan: PhysicalView,
    want: Set<Text>,
    run: Run,
) -> (pruned: Run)
    requires
        plan is OrderBy,
        names_columns(plan),
        is_run(exec, q, env, plan, run),
    ensures
        comes_of(exec, q, env, plan, want, run, pruned),
    decreases plan, 0int,
{
    let d = exec.dict();
    let w = run.below[0];
    match plan {
        PhysicalView::OrderBy { inner, keys } => {
            let read = want.union(order_refs(keys));
            let node = PhysicalView::OrderBy { inner: Box::new(prune_view(*inner, read)), keys };
            pruned_names_columns(*inner, read);
            let x = kept_run(exec, q, env, *inner, read, w);
            let y = order_widens::<E::N>(d, x.out, w.out, read, keys, run.out);
            let under = made_of(y, seq![x]);
            assert(under.below[0] == x);
            assert(is_run(exec, q, env, node, under));
            narrows_less(under.out, run.out, read, want);
            restricted(exec, q, env, node, want, under)
        },
        _ => run,
    }
}

proof fn kept_extension<E: Executor>(
    exec: &E,
    q: QueryView,
    env: Map<Text, Text>,
    plan: PhysicalView,
    want: Set<Text>,
    run: Run,
) -> (pruned: Run)
    requires
        plan is Extend,
        names_columns(plan),
        is_run(exec, q, env, plan, run),
    ensures
        comes_of(exec, q, env, plan, want, run, pruned),
    decreases plan, 0int,
{
    let d = exec.dict();
    let w = run.below[0];
    match plan {
        PhysicalView::Extend { inner, var, expr } => {
            let read = want.remove(var).union(refs(expr));
            let node = PhysicalView::Extend {
                inner: Box::new(prune_view(*inner, read)),
                var,
                expr,
            };
            pruned_names_columns(*inner, read);
            let x = kept_run(exec, q, env, *inner, read, w);
            let under = made_of(extend_batch::<E::N>(d, x.out, var, expr), seq![x]);
            assert(under.below[0] == x);
            assert(is_run(exec, q, env, node, under));
            pruned_repeats(*inner, read);
            reveal(repeats_within);
            run_fits(exec, q, env, prune_view(*inner, read), x);
            run_fits(exec, q, env, *inner, w);
            extend_narrows::<E::N>(d, x.out, w.out, want, var, expr);
            restricted(exec, q, env, node, want, under)
        },
        _ => run,
    }
}

proof fn kept_group<E: Executor>(
    exec: &E,
    q: QueryView,
    env: Map<Text, Text>,
    plan: PhysicalView,
    want: Set<Text>,
    run: Run,
) -> (pruned: Run)
    requires
        plan is Group,
        names_columns(plan),
        is_run(exec, q, env, plan, run),
    ensures
        comes_of(exec, q, env, plan, want, run, pruned),
    decreases plan, 0int,
{
    let all = Set::<Text>::full();
    let w = run.below[0];
    match plan {
        PhysicalView::Group { inner, keys, aggregates } => {
            let read = group_demand(output_view(*inner), keys, aggregates);
            let x = kept_run(exec, q, env, *inner, read, w);
            assert(stands_for(exec, q, env, *inner, read, x, w));
            counts_in_runs(exec, q, env, *inner, read, aggregates, x, w);
            group_reads(exec, q, env, *inner, keys, aggregates, x, w);
            let pruned = made_of(run.out, seq![x]);
            assert(pruned.below[0] == x);
            assert(is_run(exec, q, env, prune_view(plan, want), pruned));
            run_fits(exec, q, env, plan, run);
            narrows_less(run.out, run.out, all, want);
            pruned
        },
        _ => run,
    }
}

proof fn kept_graphs<E: Executor>(
    exec: &E,
    q: QueryView,
    env: Map<Text, Text>,
    plan: PhysicalView,
    want: Set<Text>,
    run: Run,
) -> (pruned: Run)
    requires
        plan is PerGraph,
        names_columns(plan),
        is_run(exec, q, env, plan, run),
    ensures
        comes_of(exec, q, env, plan, want, run, pruned),
    decreases plan, 0int,
{
    let d = exec.dict();
    let all = Set::<Text>::full();
    match plan {
        PhysicalView::PerGraph { var, inner } => {
            let n = run.graphs.len();
            let natural = output_view(*inner).to_set();
            let below = Seq::new(
                n,
                |i: int|
                    choose|x: Run|
                        comes_of(
                            exec,
                            q,
                            env.insert(var, run.graphs[i].iri),
                            *inner,
                            natural,
                            run.below[i],
                            x,
                        ),
            );
            let (x, y) = (outs(below), outs(run.below));
            assert forall|i: int| 0 <= i < n implies comes_of(
                exec,
                q,
                env.insert(var, run.graphs[i].iri),
                *inner,
                natural,
                run.below[i],
                #[trigger] below[i],
            ) by {
                let at = env.insert(var, run.graphs[i].iri);
                assert(is_run(exec, q, at, *inner, run.below[i]));
                let x = kept_run(exec, q, at, *inner, natural, run.below[i]);
                assert(comes_of(exec, q, at, *inner, natural, run.below[i], x));
            }
            assert forall|i: int| 0 <= i < n implies narrows(#[trigger] x[i], y[i], all) by {
                let at = env.insert(var, run.graphs[i].iri);
                assert(comes_of(exec, q, at, *inner, natural, run.below[i], below[i]));
                assert(is_run(exec, q, at, *inner, run.below[i]));
                assert(stands_for(exec, q, at, *inner, natural, below[i], run.below[i]));
                agrees_throughout(exec, q, at, *inner, below[i], run.below[i]);
            }
            per_graph_narrows(d, var, run.graphs, x, y, n as int);
            let pruned = Run {
                out: per_graph_batch(d, var, run.graphs, x, n as int),
                below,
                scanned: run.scanned,
                graphs: run.graphs,
                found: run.found,
            };
            assert(is_run(exec, q, env, prune_view(plan, want), pruned));
            narrows_less(pruned.out, run.out, all, want);
            pruned
        },
        _ => run,
    }
}

proof fn kept_path<E: Executor>(
    exec: &E,
    q: QueryView,
    env: Map<Text, Text>,
    plan: PhysicalView,
    want: Set<Text>,
    run: Run,
) -> (pruned: Run)
    requires
        plan is PathClosure,
        names_columns(plan),
        is_run(exec, q, env, plan, run),
    ensures
        comes_of(exec, q, env, plan, want, run, pruned),
    decreases plan, 0int,
{
    let d = exec.dict();
    let all = Set::<Text>::full();
    let w = run.below[0];
    match plan {
        PhysicalView::PathClosure { subject, object, edge, reflexive } => {
            let x = kept_run(exec, q, env, *edge, output_view(*edge).to_set(), w);
            agrees_throughout(exec, q, env, *edge, x, w);
            edges_agree(d, x.out, w.out);
            let pruned = over(run, seq![x]);
            assert(pruned.below[0] == x);
            assert(is_run(exec, q, env, prune_view(plan, want), pruned));
            run_fits(exec, q, env, plan, run);
            narrows_less(run.out, run.out, all, want);
            pruned
        },
        _ => run,
    }
}

// ── Counts ──────────────────────────────────────────────────────────────────

/// A run of a plan is, in what it yields, a run of the plan with its counts
/// pushed down.
#[verifier::rlimit(100)]
#[verifier::spinoff_prover]
proof fn counting_run<E: Executor>(
    exec: &E,
    q: QueryView,
    env: Map<Text, Text>,
    plan: PhysicalView,
    run: Run,
) -> (counted: Run)
    requires
        is_run(exec, q, env, plan, run),
    ensures
        gives(exec, q, env, push_aggregates_view(plan), run.out, counted),
    decreases plan, 1int,
{
    let first = run.below[0];
    let second = run.below[1];
    match plan {
        PhysicalView::BgpScan { .. } => run,
        PhysicalView::CountScan { .. } => run,
        PhysicalView::GroupCountScan { .. } => run,
        PhysicalView::Values { .. } => run,
        PhysicalView::Join { left, right, .. } => {
            let v = counting_run(exec, q, env, *left, first);
            let w = counting_run(exec, q, env, *right, second);
            let counted = over(run, seq![v, w]);
            assert(counted.below[0] == v && counted.below[1] == w);
            counted
        },
        PhysicalView::LeftJoin { left, right, .. } => {
            let v = counting_run(exec, q, env, *left, first);
            let w = counting_run(exec, q, env, *right, second);
            let counted = over(run, seq![v, w]);
            assert(counted.below[0] == v && counted.below[1] == w);
            counted
        },
        PhysicalView::Minus { left, right, .. } => {
            let v = counting_run(exec, q, env, *left, first);
            let w = counting_run(exec, q, env, *right, second);
            let counted = over(run, seq![v, w]);
            assert(counted.below[0] == v && counted.below[1] == w);
            counted
        },
        PhysicalView::Union { left, right, .. } => {
            let v = counting_run(exec, q, env, *left, first);
            let w = counting_run(exec, q, env, *right, second);
            let counted = over(run, seq![v, w]);
            assert(counted.below[0] == v && counted.below[1] == w);
            counted
        },
        PhysicalView::Filter { inner, .. } => {
            let w = counting_run(exec, q, env, *inner, first);
            let counted = over(run, seq![w]);
            assert(counted.below[0] == w);
            counted
        },
        PhysicalView::Project { inner, .. } => {
            let w = counting_run(exec, q, env, *inner, first);
            let counted = over(run, seq![w]);
            assert(counted.below[0] == w);
            counted
        },
        PhysicalView::Distinct { inner, .. } => {
            let w = counting_run(exec, q, env, *inner, first);
            let counted = over(run, seq![w]);
            assert(counted.below[0] == w);
            counted
        },
        PhysicalView::Slice { inner, .. } => {
            let w = counting_run(exec, q, env, *inner, first);
            let counted = over(run, seq![w]);
            assert(counted.below[0] == w);
            counted
        },
        PhysicalView::OrderBy { inner, .. } => {
            let w = counting_run(exec, q, env, *inner, first);
            let counted = over(run, seq![w]);
            assert(counted.below[0] == w);
            counted
        },
        PhysicalView::Extend { inner, .. } => {
            let w = counting_run(exec, q, env, *inner, first);
            let counted = over(run, seq![w]);
            assert(counted.below[0] == w);
            counted
        },
        PhysicalView::Group { .. } => counting_group(exec, q, env, plan, run),
        PhysicalView::PerGraph { .. } => counting_graphs(exec, q, env, plan, run),
        PhysicalView::PathClosure { edge, .. } => {
            let w = counting_run(exec, q, env, *edge, first);
            let counted = over(run, seq![w]);
            assert(counted.below[0] == w);
            counted
        },
    }
}

proof fn counting_group<E: Executor>(
    exec: &E,
    q: QueryView,
    env: Map<Text, Text>,
    plan: PhysicalView,
    run: Run,
) -> (counted: Run)
    requires
        plan is Group,
        is_run(exec, q, env, plan, run),
    ensures
        gives(exec, q, env, push_aggregates_view(plan), run.out, counted),
    decreases plan, 0int,
{
    let first = run.below[0];
    match plan {
        PhysicalView::Group { inner, keys, aggregates } => {
            if let PhysicalView::BgpScan { patterns, scope } = *inner {
                if keys.len() == 0 && aggregates.len() == 1 && counts_solutions(
                    aggregates[0],
                    bgp_vars(patterns),
                ) {
                    assert(is_run(exec, q, env, *inner, first));
                    reveal_with_fuel(is_run, 2);
                    count_is_a_group(exec, patterns, aggregates[0], first.out);
                    assert(keys =~= Seq::empty());
                    assert(aggregates =~= seq![aggregates[0]]);
                    Run {
                        out: run.out,
                        below: Seq::empty(),
                        scanned: first.out,
                        graphs: run.graphs,
                        found: run.found,
                    }
                } else {
                    run
                }
            } else {
                let w = counting_run(exec, q, env, *inner, first);
                let counted = over(run, seq![w]);
                assert(counted.below[0] == w);
                counted
            }
        },
        _ => run,
    }
}

proof fn counting_graphs<E: Executor>(
    exec: &E,
    q: QueryView,
    env: Map<Text, Text>,
    plan: PhysicalView,
    run: Run,
) -> (counted: Run)
    requires
        plan is PerGraph,
        is_run(exec, q, env, plan, run),
    ensures
        gives(exec, q, env, push_aggregates_view(plan), run.out, counted),
    decreases plan, 0int,
{
    match plan {
        PhysicalView::PerGraph { var, inner } => {
            let n = run.graphs.len();
            let pushed = push_aggregates_view(*inner);
            let below = Seq::new(
                n,
                |i: int|
                    choose|w: Run|
                        gives(
                            exec,
                            q,
                            env.insert(var, run.graphs[i].iri),
                            pushed,
                            run.below[i].out,
                            w,
                        ),
            );
            assert forall|i: int| 0 <= i < n implies gives(
                exec,
                q,
                env.insert(var, run.graphs[i].iri),
                pushed,
                run.below[i].out,
                #[trigger] below[i],
            ) by {
                let at = env.insert(var, run.graphs[i].iri);
                assert(is_run(exec, q, at, *inner, run.below[i]));
                let w = counting_run(exec, q, at, *inner, run.below[i]);
                assert(gives(exec, q, at, pushed, run.below[i].out, w));
            }
            let counted = over(run, below);
            assert(outs(counted.below) =~= outs(run.below));
            assert forall|i: int| 0 <= i < n implies is_run(
                exec,
                q,
                env.insert(var, counted.graphs[i].iri),
                pushed,
                #[trigger] counted.below[i],
            ) by {
                assert(gives(
                    exec,
                    q,
                    env.insert(var, run.graphs[i].iri),
                    pushed,
                    run.below[i].out,
                    below[i],
                ));
            }
            counted
        },
        _ => run,
    }
}

// ── The law ─────────────────────────────────────────────────────────────────

/// Pruning loses no answer: what a plan yields, row by row and in order, the
/// narrowed plan yields.
pub proof fn pruning_loses_no_answer<E: Executor>(
    exec: &E,
    q: QueryView,
    env: Map<Text, Text>,
    plan: PhysicalView,
    b: BatchView,
) -> (out: BatchView)
    requires
        names_columns(plan),
        yields(exec, q, env, plan, b),
    ensures
        yields(exec, q, env, narrowed_view(plan), out),
        solutions(exec.dict(), out) == solutions(exec.dict(), b),
{
    reveal(yields);
    let want = output_view(plan).to_set();
    let all = Set::<Text>::full();
    let run = choose|run: Run| #[trigger] is_run(exec, q, env, plan, run) && run.out == b;
    let pruned = match plan {
        PhysicalView::Project { vars, inner } => {
            let x = kept_run(exec, q, env, *inner, vars.to_set(), run.below[0]);
            project_is_determined(x.out, run.below[0].out, vars);
            let pruned = made_of(project_batch(x.out, vars), seq![x]);
            assert(pruned.below[0] == x);
            assert(is_run(exec, q, env, narrowed_view(plan), pruned));
            run_fits(exec, q, env, plan, run);
            pruned
        },
        _ => {
            let pruned = kept_run(exec, q, env, plan, want, run);
            assert(stands_for(exec, q, env, plan, want, pruned, run));
            agrees_throughout(exec, q, env, plan, pruned, run);
            pruned
        },
    };
    assert(narrows(pruned.out, b, all));
    let d = exec.dict();
    assert forall|i: int| 0 <= i < b.rows.len() implies solutions(d, pruned.out)[i] == solutions(
        d,
        b,
    )[i] by {
        same_solution(d, pruned.out, b, i);
    }
    assert(solutions(d, pruned.out) =~= solutions(d, b));
    assert(is_run(exec, q, env, narrowed_view(plan), pruned));
    pruned.out
}

/// The rewrite before execution loses no answer: the solutions that a plan
/// yields, row by row and in order, are solutions that the rewritten plan
/// yields. Every name of the plan is to stand for one column, and for a lone one
/// where its distinct values are counted.
pub proof fn rewriting_loses_no_answer<E: Executor>(
    exec: &E,
    q: QueryView,
    env: Map<Text, Text>,
    plan: PhysicalView,
    b: BatchView,
) -> (out: BatchView)
    requires
        names_columns(plan),
        yields(exec, q, env, plan, b),
    ensures
        yields(exec, q, env, rewritten(plan), out),
        solutions(exec.dict(), out) == solutions(exec.dict(), b),
{
    let pushed = push_aggregates_view(plan);
    counted_names_columns(plan);
    assert(yields(exec, q, env, pushed, b)) by {
        reveal(yields);
        let run = choose|run: Run| #[trigger] is_run(exec, q, env, plan, run) && run.out == b;
        let counted = counting_run(exec, q, env, plan, run);
        assert(gives(exec, q, env, pushed, b, counted));
    }
    pruning_loses_no_answer(exec, q, env, pushed, b)
}

}
