//! What the passes leave unchanged.

use crate::algebra::{ExprView, TermView};
use crate::exec::batch::{solutions, BatchView, Dict, SlotView};
use crate::exec::executor::Executor;
use crate::exec::expr::{truth, value};
use crate::exec::invariance::{kept_names, names_columns, pruning_keeps_the_answers};
use crate::exec::join::satisfying;
use crate::exec::number::Numbers;
use crate::exec::operators::filter_batch;
use crate::exec::refs::refs;
use crate::exec::runtime::{yields, QueryView};
use crate::exec::widening::pruning_loses_no_answer;
use crate::plan::logical::{join_view, LogicalView};
use crate::plan::lower::physical_view;
use crate::plan::passes::normalize::{
    const_bool_view, const_eq_view, has_false, open_parts, reduce_view,
};
use crate::plan::passes::projection_pushdown as logical;
use crate::plan::passes::{
    chain_view, conjoin_view, conjuncts_view, rewrite_view, schema_view, Rewrite,
};
use crate::plan::pruning::{
    added_agree, all_columns_agree, columns_agree, narrow_columns, one_added_agrees,
    pruned_columns, pruning_again_changes_nothing, side_agrees,
};
use crate::plan::pushdown as physical;
use crate::plan::types::{infer_view, TypeMask};
use crate::plan::validate::{dangling, missing, schema_is_what_is_inferred};
use crate::text::Text;
use vstd::prelude::*;

verus! {

// ── Projection pushdown ─────────────────────────────────────────────────────

/// Lowering keeps the output columns.
pub proof fn lowering_keeps_columns(plan: LogicalView)
    ensures
        physical::output_view(physical_view(plan)) == schema_view(plan),
    decreases plan,
{
    match plan {
        LogicalView::Bgp { .. } => {},
        LogicalView::Join { left, right } => {
            lowering_keeps_columns(*left);
            lowering_keeps_columns(*right);
        },
        LogicalView::LeftJoin { left, right, .. } => {
            lowering_keeps_columns(*left);
            lowering_keeps_columns(*right);
        },
        LogicalView::Union { left, right } => {
            lowering_keeps_columns(*left);
            lowering_keeps_columns(*right);
        },
        LogicalView::Minus { left, .. } => lowering_keeps_columns(*left),
        LogicalView::Filter { inner, .. } => lowering_keeps_columns(*inner),
        LogicalView::Distinct { inner } => lowering_keeps_columns(*inner),
        LogicalView::Slice { inner, .. } => lowering_keeps_columns(*inner),
        LogicalView::OrderBy { inner, .. } => lowering_keeps_columns(*inner),
        LogicalView::Project { .. } => {},
        LogicalView::Extend { inner, .. } => lowering_keeps_columns(*inner),
        LogicalView::Values { .. } => {},
        LogicalView::Group { .. } => {},
        LogicalView::PerGraph { inner, .. } => lowering_keeps_columns(*inner),
        LogicalView::PathClosure { .. } => {},
    }
}

proof fn lowering_restricts(node: LogicalView, want: Set<Text>)
    ensures
        physical_view(logical::restrict_view(node, want)) == physical::restrict_view(
            physical_view(node),
            want,
        ),
{
    lowering_keeps_columns(node);
}

/// Lowering a pruned plan is pruning the lowered plan.
proof fn lowering_prunes(plan: LogicalView, want: Set<Text>)
    ensures
        physical_view(logical::prune_view(plan, want)) == physical::prune_view(
            physical_view(plan),
            want,
        ),
    decreases plan,
{
    match plan {
        LogicalView::Bgp { .. } => lowering_restricts(plan, want),
        LogicalView::Values { .. } => lowering_restricts(plan, want),
        LogicalView::Project { vars, inner } => {
            lowering_keeps_columns(*inner);
            lowering_prunes(*inner, want);
            lowering_prunes(*inner, vars.to_set());
        },
        LogicalView::Filter { expr, inner } => {
            let read = want.union(refs(expr));
            lowering_prunes(*inner, read);
            lowering_restricts(
                LogicalView::Filter { expr, inner: Box::new(logical::prune_view(*inner, read)) },
                want,
            );
        },
        LogicalView::Join { left, right } => {
            let (lo, ro) = (schema_view(*left), schema_view(*right));
            let base = logical::with_shared(want, lo, ro);
            let (f, g) = (base.intersect(lo.to_set()), base.intersect(ro.to_set()));
            lowering_keeps_columns(*left);
            lowering_keeps_columns(*right);
            lowering_prunes(*left, f);
            lowering_prunes(*right, g);
            lowering_restricts(
                LogicalView::Join {
                    left: Box::new(logical::prune_view(*left, f)),
                    right: Box::new(logical::prune_view(*right, g)),
                },
                want,
            );
        },
        LogicalView::LeftJoin { left, right, expr } => {
            let (lo, ro) = (schema_view(*left), schema_view(*right));
            let base = logical::with_shared(want, lo, ro).union(logical::opt_refs(expr));
            let (f, g) = (base.intersect(lo.to_set()), base.intersect(ro.to_set()));
            lowering_keeps_columns(*left);
            lowering_keeps_columns(*right);
            lowering_prunes(*left, f);
            lowering_prunes(*right, g);
            lowering_restricts(
                LogicalView::LeftJoin {
                    left: Box::new(logical::prune_view(*left, f)),
                    right: Box::new(logical::prune_view(*right, g)),
                    expr,
                },
                want,
            );
        },
        LogicalView::Minus { left, right } => {
            lowering_keeps_columns(*left);
            lowering_keeps_columns(*right);
            lowering_prunes(*left, schema_view(*left).to_set());
            lowering_prunes(*right, schema_view(*right).to_set());
        },
        LogicalView::Union { left, right } => {
            lowering_prunes(*left, want);
            lowering_prunes(*right, want);
        },
        LogicalView::Distinct { inner } => {
            lowering_keeps_columns(*inner);
            lowering_prunes(*inner, schema_view(*inner).to_set());
        },
        LogicalView::Slice { inner, .. } => lowering_prunes(*inner, want),
        LogicalView::OrderBy { inner, keys } => {
            let read = want.union(logical::order_refs(keys));
            lowering_prunes(*inner, read);
            lowering_restricts(
                LogicalView::OrderBy { inner: Box::new(logical::prune_view(*inner, read)), keys },
                want,
            );
        },
        LogicalView::Extend { inner, var, expr } => {
            let read = want.remove(var).union(refs(expr));
            lowering_prunes(*inner, read);
            lowering_restricts(
                LogicalView::Extend {
                    inner: Box::new(logical::prune_view(*inner, read)),
                    var,
                    expr,
                },
                want,
            );
        },
        LogicalView::Group { inner, keys, aggregates } => {
            lowering_keeps_columns(*inner);
            lowering_prunes(*inner, logical::group_demand(schema_view(*inner), keys, aggregates));
        },
        LogicalView::PerGraph { inner, .. } => {
            lowering_keeps_columns(*inner);
            lowering_prunes(*inner, schema_view(*inner).to_set());
        },
        LogicalView::PathClosure { edge, .. } => {
            lowering_keeps_columns(*edge);
            lowering_prunes(*edge, schema_view(*edge).to_set());
        },
    }
}

/// Projection pushdown changes no answer: what the narrowed plan yields, row
/// by row and in order, the plan itself yields. Every name of the plan is to
/// stand for one column, and for a lone one where its distinct values are
/// counted.
pub proof fn projection_pushdown_keeps_the_answers<E: Executor>(
    exec: &E,
    q: QueryView,
    env: Map<Text, Text>,
    plan: LogicalView,
    out: BatchView,
) -> (b: BatchView)
    requires
        names_columns(physical_view(plan)),
        yields(
            exec,
            q,
            env,
            physical_view(logical::narrowed_view(plan)),
            out,
        ),
    ensures
        yields(exec, q, env, physical_view(plan), b),
        solutions(exec.dict(), out) == solutions(exec.dict(), b),
{
    lowering_narrows(plan);
    pruning_keeps_the_answers(exec, q, env, physical_view(plan), out)
}

/// Projection pushdown loses no answer: what the plan yields, row by row and in
/// order, the narrowed plan yields. Every name of the plan is to stand for one
/// column, and for a lone one where its distinct values are counted.
pub proof fn projection_pushdown_loses_no_answer<E: Executor>(
    exec: &E,
    q: QueryView,
    env: Map<Text, Text>,
    plan: LogicalView,
    b: BatchView,
) -> (out: BatchView)
    requires
        names_columns(physical_view(plan)),
        yields(exec, q, env, physical_view(plan), b),
    ensures
        yields(exec, q, env, physical_view(logical::narrowed_view(plan)), out),
        solutions(exec.dict(), out) == solutions(exec.dict(), b),
{
    lowering_narrows(plan);
    pruning_loses_no_answer(exec, q, env, physical_view(plan), b)
}

/// Lowering a narrowed plan is narrowing the lowered plan.
proof fn lowering_narrows(plan: LogicalView)
    ensures
        physical_view(logical::narrowed_view(plan)) == physical::narrowed_view(
            physical_view(plan),
        ),
{
    lowering_keeps_columns(plan);
    match plan {
        LogicalView::Project { vars, inner } => lowering_prunes(*inner, vars.to_set()),
        _ => lowering_prunes(plan, schema_view(plan).to_set()),
    }
}

/// No two plans are lowered to one.
proof fn lowering_is_injective(a: LogicalView, b: LogicalView)
    requires
        physical_view(a) == physical_view(b),
    ensures
        a == b,
    decreases a,
{
    match (a, b) {
        (LogicalView::Join { left, right }, LogicalView::Join { left: l, right: r }) => {
            lowering_is_injective(*left, *l);
            lowering_is_injective(*right, *r);
        },
        (LogicalView::LeftJoin { left, right, .. }, LogicalView::LeftJoin { left: l, right: r, .. })
            => {
            lowering_is_injective(*left, *l);
            lowering_is_injective(*right, *r);
        },
        (LogicalView::Minus { left, right }, LogicalView::Minus { left: l, right: r }) => {
            lowering_is_injective(*left, *l);
            lowering_is_injective(*right, *r);
        },
        (LogicalView::Union { left, right }, LogicalView::Union { left: l, right: r }) => {
            lowering_is_injective(*left, *l);
            lowering_is_injective(*right, *r);
        },
        (LogicalView::Filter { inner, .. }, LogicalView::Filter { inner: i, .. }) =>
            lowering_is_injective(*inner, *i),
        (LogicalView::Project { inner, .. }, LogicalView::Project { inner: i, .. }) =>
            lowering_is_injective(*inner, *i),
        (LogicalView::Distinct { inner }, LogicalView::Distinct { inner: i }) =>
            lowering_is_injective(*inner, *i),
        (LogicalView::Slice { inner, .. }, LogicalView::Slice { inner: i, .. }) =>
            lowering_is_injective(*inner, *i),
        (LogicalView::OrderBy { inner, .. }, LogicalView::OrderBy { inner: i, .. }) =>
            lowering_is_injective(*inner, *i),
        (LogicalView::Extend { inner, .. }, LogicalView::Extend { inner: i, .. }) =>
            lowering_is_injective(*inner, *i),
        (LogicalView::Group { inner, .. }, LogicalView::Group { inner: i, .. }) =>
            lowering_is_injective(*inner, *i),
        (LogicalView::PerGraph { inner, .. }, LogicalView::PerGraph { inner: i, .. }) =>
            lowering_is_injective(*inner, *i),
        (LogicalView::PathClosure { edge, .. }, LogicalView::PathClosure { edge: e, .. }) =>
            lowering_is_injective(*edge, *e),
        _ => {},
    }
}

/// Projection pushdown is idempotent.
pub proof fn narrowing_again_changes_nothing(plan: LogicalView)
    ensures
        logical::narrowed_view(logical::narrowed_view(plan)) == logical::narrowed_view(plan),
{
    let once = logical::narrowed_view(plan);
    lowering_narrows(plan);
    lowering_narrows(once);
    pruning_again_changes_nothing(physical_view(plan));
    lowering_is_injective(logical::narrowed_view(once), once);
}

/// What pruning keeps: the demanded columns, and no more dangling references.
spec fn keeps(pruned: LogicalView, plan: LogicalView, want: Set<Text>) -> bool {
    &&& columns_agree(schema_view(pruned), schema_view(plan), want)
    &&& dangling(pruned).subset_of(dangling(plan))
}

/// Where the columns agree on what is used, nothing more is missing.
proof fn nothing_more_is_missing(
    kind: Text,
    used: Set<Text>,
    pruned: LogicalView,
    plan: LogicalView,
    want: Set<Text>,
)
    requires
        keeps(pruned, plan, want),
        used.subset_of(want),
    ensures
        missing(kind, used, infer_view(pruned)).subset_of(missing(kind, used, infer_view(plan))),
{
    schema_is_what_is_inferred(pruned);
    schema_is_what_is_inferred(plan);
    assert forall|t: Text| missing(kind, used, infer_view(pruned)).contains(t) implies missing(
        kind,
        used,
        infer_view(plan),
    ).contains(t) by {
        let v = choose|v: Text| #[trigger]
            used.contains(v) && !infer_view(pruned).contains_key(v) && t == kind + v;
        if infer_view(plan).contains_key(v) {
            assert(schema_view(plan).to_set().contains(v));
            assert(schema_view(plan).contains(v));
            assert(want.contains(v));
            assert(schema_view(pruned).contains(v));
            assert(schema_view(pruned).to_set().contains(v));
        }
    }
}

proof fn restriction_keeps(node: LogicalView, plan: LogicalView, want: Set<Text>)
    requires
        keeps(node, plan, want),
    ensures
        keeps(logical::restrict_view(node, want), plan, want),
{
    let natural = schema_view(node);
    let kept = logical::keep(natural, want);
    kept_names(natural, want);
    if kept.len() < natural.len() && kept.len() > 0 {
        let p = logical::restrict_view(node, want);
        schema_is_what_is_inferred(node);
        assert(missing("Project:?"@, kept.to_set(), infer_view(node)) =~= Set::empty()) by {
            assert forall|t: Text| !missing("Project:?"@, kept.to_set(), infer_view(node)).contains(
                t,
            ) by {
                if missing("Project:?"@, kept.to_set(), infer_view(node)).contains(t) {
                    let v = choose|v: Text| #[trigger]
                        kept.to_set().contains(v) && !infer_view(node).contains_key(v) && t
                            == "Project:?"@ + v;
                    assert(kept.contains(v));
                    assert(natural.to_set().contains(v));
                }
            }
        }
        assert(dangling(p) =~= dangling(node));
    }
}

/// Projection pushdown keeps the demanded columns and adds no reference that
/// nothing backs.
pub proof fn pruning_adds_no_dangling_reference(plan: LogicalView, want: Set<Text>)
    ensures
        forall|n: Text|
            want.contains(n) ==> #[trigger] schema_view(logical::prune_view(plan, want)).contains(n)
                == schema_view(plan).contains(n),
        dangling(logical::prune_view(plan, want)).subset_of(dangling(plan)),
{
    pruning_keeps(plan, want);
}

#[verifier::rlimit(30)]
proof fn pruning_keeps(plan: LogicalView, want: Set<Text>)
    ensures
        keeps(logical::prune_view(plan, want), plan, want),
    decreases plan,
{
    match plan {
        LogicalView::Bgp { .. } => restriction_keeps(plan, plan, want),
        LogicalView::Values { .. } => restriction_keeps(plan, plan, want),
        LogicalView::Project { vars, inner } => if logical::is_narrowed(vars, *inner, want) {
            pruning_keeps(*inner, want);
            lowering_keeps_columns(*inner);
            lowering_keeps_columns(logical::prune_view(*inner, want));
            lowering_prunes(*inner, want);
            pruned_columns(physical_view(*inner), want);
            narrow_columns(physical_view(*inner), want);
            kept_names(schema_view(*inner), want);
        } else {
            pruning_keeps(*inner, vars.to_set());
            nothing_more_is_missing(
                "Project:?"@,
                vars.to_set(),
                logical::prune_view(*inner, vars.to_set()),
                *inner,
                vars.to_set(),
            );
        },
        LogicalView::Filter { expr, inner } => {
            let read = want.union(refs(expr));
            let p = logical::prune_view(*inner, read);
            pruning_keeps(*inner, read);
            nothing_more_is_missing("Filter:?"@, refs(expr), p, *inner, read);
            let node = LogicalView::Filter { expr, inner: Box::new(p) };
            assert(keeps(node, plan, want));
            restriction_keeps(node, plan, want);
        },
        LogicalView::Join { left, right } => {
            let (lo, ro) = (schema_view(*left), schema_view(*right));
            let base = logical::with_shared(want, lo, ro);
            let (f, g) = (base.intersect(lo.to_set()), base.intersect(ro.to_set()));
            let (x, y) = (logical::prune_view(*left, f), logical::prune_view(*right, g));
            pruning_keeps(*left, f);
            pruning_keeps(*right, g);
            side_agrees(schema_view(x), lo, base);
            side_agrees(schema_view(y), ro, base);
            added_agree(schema_view(x), lo, schema_view(y), ro, base);
            let node = LogicalView::Join { left: Box::new(x), right: Box::new(y) };
            assert(keeps(node, plan, want));
            restriction_keeps(node, plan, want);
        },
        LogicalView::LeftJoin { left, right, expr } => {
            let (lo, ro) = (schema_view(*left), schema_view(*right));
            let base = logical::with_shared(want, lo, ro).union(logical::opt_refs(expr));
            let (f, g) = (base.intersect(lo.to_set()), base.intersect(ro.to_set()));
            let (x, y) = (logical::prune_view(*left, f), logical::prune_view(*right, g));
            pruning_keeps(*left, f);
            pruning_keeps(*right, g);
            side_agrees(schema_view(x), lo, base);
            side_agrees(schema_view(y), ro, base);
            added_agree(schema_view(x), lo, schema_view(y), ro, base);
            let node = LogicalView::LeftJoin { left: Box::new(x), right: Box::new(y), expr };
            assert(keeps(node, plan, want));
            restriction_keeps(node, plan, want);
        },
        LogicalView::Minus { left, right } => {
            pruning_keeps(*left, schema_view(*left).to_set());
            pruning_keeps(*right, schema_view(*right).to_set());
            all_columns_agree(
                schema_view(logical::prune_view(*left, schema_view(*left).to_set())),
                schema_view(*left),
                want,
            );
        },
        LogicalView::Union { left, right } => {
            let (x, y) = (logical::prune_view(*left, want), logical::prune_view(*right, want));
            pruning_keeps(*left, want);
            pruning_keeps(*right, want);
            added_agree(
                schema_view(x),
                schema_view(*left),
                schema_view(y),
                schema_view(*right),
                want,
            );
        },
        LogicalView::Distinct { inner } => {
            pruning_keeps(*inner, schema_view(*inner).to_set());
            all_columns_agree(
                schema_view(logical::prune_view(*inner, schema_view(*inner).to_set())),
                schema_view(*inner),
                want,
            );
        },
        LogicalView::Slice { inner, .. } => pruning_keeps(*inner, want),
        LogicalView::OrderBy { inner, keys } => {
            let read = want.union(logical::order_refs(keys));
            let p = logical::prune_view(*inner, read);
            pruning_keeps(*inner, read);
            let node = LogicalView::OrderBy { inner: Box::new(p), keys };
            assert(keeps(node, plan, want));
            restriction_keeps(node, plan, want);
        },
        LogicalView::Extend { inner, var, expr } => {
            let read = want.remove(var).union(refs(expr));
            let p = logical::prune_view(*inner, read);
            pruning_keeps(*inner, read);
            one_added_agrees(schema_view(p), schema_view(*inner), var, read, want);
            let node = LogicalView::Extend { inner: Box::new(p), var, expr };
            assert(keeps(node, plan, want));
            restriction_keeps(node, plan, want);
        },
        LogicalView::Group { inner, keys, aggregates } => pruning_keeps(
            *inner,
            logical::group_demand(schema_view(*inner), keys, aggregates),
        ),
        LogicalView::PerGraph { var, inner } => {
            let all = schema_view(*inner).to_set();
            let p = logical::prune_view(*inner, all);
            pruning_keeps(*inner, all);
            all_columns_agree(schema_view(p), schema_view(*inner), want.remove(var));
            one_added_agrees(schema_view(p), schema_view(*inner), var, want.remove(var), want);
        },
        LogicalView::PathClosure { edge, .. } => pruning_keeps(*edge, schema_view(*edge).to_set()),
    }
}

// ── Coalescing ──────────────────────────────────────────────────────────────

/// Is no join left between flat patterns of one scope?
pub open spec fn coalesced(plan: LogicalView) -> bool
    decreases plan,
{
    match plan {
        LogicalView::Bgp { .. } => true,
        LogicalView::Values { .. } => true,
        LogicalView::Join { left, right } => coalesced(*left) && coalesced(*right) && join_view(
            *left,
            *right,
        ) == plan,
        LogicalView::LeftJoin { left, right, .. } => coalesced(*left) && coalesced(*right),
        LogicalView::Minus { left, right } => coalesced(*left) && coalesced(*right),
        LogicalView::Union { left, right } => coalesced(*left) && coalesced(*right),
        LogicalView::Filter { inner, .. } => coalesced(*inner),
        LogicalView::Project { inner, .. } => coalesced(*inner),
        LogicalView::Distinct { inner } => coalesced(*inner),
        LogicalView::Slice { inner, .. } => coalesced(*inner),
        LogicalView::OrderBy { inner, .. } => coalesced(*inner),
        LogicalView::Extend { inner, .. } => coalesced(*inner),
        LogicalView::Group { inner, .. } => coalesced(*inner),
        LogicalView::PerGraph { inner, .. } => coalesced(*inner),
        LogicalView::PathClosure { edge, .. } => coalesced(*edge),
    }
}

/// Coalescing leaves no join of two scans of one scope.
pub proof fn coalescing_coalesces(plan: LogicalView)
    ensures
        coalesced(rewrite_view(Rewrite::Coalesce, plan)),
    decreases plan,
{
    match plan {
        LogicalView::Bgp { .. } => {},
        LogicalView::Values { .. } => {},
        LogicalView::Join { left, right } => {
            coalescing_coalesces(*left);
            coalescing_coalesces(*right);
        },
        LogicalView::LeftJoin { left, right, .. } => {
            coalescing_coalesces(*left);
            coalescing_coalesces(*right);
        },
        LogicalView::Minus { left, right } => {
            coalescing_coalesces(*left);
            coalescing_coalesces(*right);
        },
        LogicalView::Union { left, right } => {
            coalescing_coalesces(*left);
            coalescing_coalesces(*right);
        },
        LogicalView::Filter { inner, .. } => coalescing_coalesces(*inner),
        LogicalView::Project { inner, .. } => coalescing_coalesces(*inner),
        LogicalView::Distinct { inner } => coalescing_coalesces(*inner),
        LogicalView::Slice { inner, .. } => coalescing_coalesces(*inner),
        LogicalView::OrderBy { inner, .. } => coalescing_coalesces(*inner),
        LogicalView::Extend { inner, .. } => coalescing_coalesces(*inner),
        LogicalView::Group { inner, .. } => coalescing_coalesces(*inner),
        LogicalView::PerGraph { inner, .. } => coalescing_coalesces(*inner),
        LogicalView::PathClosure { edge, .. } => coalescing_coalesces(*edge),
    }
}

proof fn coalesced_plans_stay(plan: LogicalView)
    requires
        coalesced(plan),
    ensures
        rewrite_view(Rewrite::Coalesce, plan) == plan,
    decreases plan,
{
    match plan {
        LogicalView::Bgp { .. } => {},
        LogicalView::Values { .. } => {},
        LogicalView::Join { left, right } => {
            coalesced_plans_stay(*left);
            coalesced_plans_stay(*right);
        },
        LogicalView::LeftJoin { left, right, .. } => {
            coalesced_plans_stay(*left);
            coalesced_plans_stay(*right);
        },
        LogicalView::Minus { left, right } => {
            coalesced_plans_stay(*left);
            coalesced_plans_stay(*right);
        },
        LogicalView::Union { left, right } => {
            coalesced_plans_stay(*left);
            coalesced_plans_stay(*right);
        },
        LogicalView::Filter { inner, .. } => coalesced_plans_stay(*inner),
        LogicalView::Project { inner, .. } => coalesced_plans_stay(*inner),
        LogicalView::Distinct { inner } => coalesced_plans_stay(*inner),
        LogicalView::Slice { inner, .. } => coalesced_plans_stay(*inner),
        LogicalView::OrderBy { inner, .. } => coalesced_plans_stay(*inner),
        LogicalView::Extend { inner, .. } => coalesced_plans_stay(*inner),
        LogicalView::Group { inner, .. } => coalesced_plans_stay(*inner),
        LogicalView::PerGraph { inner, .. } => coalesced_plans_stay(*inner),
        LogicalView::PathClosure { edge, .. } => coalesced_plans_stay(*edge),
    }
}

/// Coalescing is idempotent.
pub proof fn coalescing_again_changes_nothing(plan: LogicalView)
    ensures
        ({
            let once = rewrite_view(Rewrite::Coalesce, plan);
            rewrite_view(Rewrite::Coalesce, once) == once
        }),
{
    coalescing_coalesces(plan);
    coalesced_plans_stay(rewrite_view(Rewrite::Coalesce, plan));
}

// ── Normalization ───────────────────────────────────────────────────────────

/// Does every one of some conditions hold?
pub open spec fn all_hold<N: Numbers>(parts: Seq<ExprView>, m: Map<Text, TermView>) -> bool {
    forall|i: int| 0 <= i < parts.len() ==> truth::<N>(#[trigger] parts[i], m)
}

/// A conjunction holds where all its conjuncts do.
pub proof fn conjuncts_decide<N: Numbers>(e: ExprView, m: Map<Text, TermView>)
    ensures
        truth::<N>(e, m) == all_hold::<N>(conjuncts_view(e), m),
    decreases e,
{
    match e {
        ExprView::And(a, b) => {
            conjuncts_decide::<N>(*a, m);
            conjuncts_decide::<N>(*b, m);
            let (x, y) = (conjuncts_view(*a), conjuncts_view(*b));
            let all = conjuncts_view(e);
            assert(all == x + y);
            if all_hold::<N>(all, m) {
                assert forall|i: int| 0 <= i < x.len() implies truth::<N>(#[trigger] x[i], m) by {
                    assert(all[i] == x[i]);
                }
                assert forall|i: int| 0 <= i < y.len() implies truth::<N>(#[trigger] y[i], m) by {
                    assert(all[x.len() + i] == y[i]);
                }
            }
            if all_hold::<N>(x, m) && all_hold::<N>(y, m) {
                assert forall|i: int| 0 <= i < all.len() implies truth::<N>(#[trigger] all[i], m) by {
                    if i < x.len() {
                        assert(all[i] == x[i]);
                    } else {
                        assert(all[i] == y[i - x.len()]);
                    }
                }
            }
        },
        _ => {
            let one = conjuncts_view(e);
            assert(one == seq![e]);
            if all_hold::<N>(one, m) {
                assert(truth::<N>(one[0], m));
            }
        },
    }
}

/// A chain of conditions holds where all of them do.
pub proof fn chain_decides<N: Numbers>(parts: Seq<ExprView>, m: Map<Text, TermView>)
    requires
        parts.len() > 0,
    ensures
        truth::<N>(chain_view(parts), m) == all_hold::<N>(parts, m),
    decreases parts.len(),
{
    if parts.len() == 1 {
        if truth::<N>(parts[0], m) {
            assert forall|i: int| 0 <= i < parts.len() implies truth::<N>(#[trigger] parts[i], m) by {
                assert(i == 0);
            }
        }
    } else {
        let rest = parts.drop_first();
        chain_decides::<N>(rest, m);
        if all_hold::<N>(parts, m) {
            assert(truth::<N>(parts[0], m));
            assert forall|i: int| 0 <= i < rest.len() implies truth::<N>(#[trigger] rest[i], m) by {
                assert(rest[i] == parts[i + 1]);
            }
        }
        if truth::<N>(parts[0], m) && all_hold::<N>(rest, m) {
            assert forall|i: int| 0 <= i < parts.len() implies truth::<N>(#[trigger] parts[i], m) by {
                if i > 0 {
                    assert(rest[i - 1] == parts[i]);
                }
            }
        }
    }
}

/// Reducing equalities changes the truth of no condition.
pub proof fn reducing_keeps_the_truth<N: Numbers>(
    e: ExprView,
    types: Map<Text, TypeMask>,
    m: Map<Text, TermView>,
)
    ensures
        truth::<N>(reduce_view(e, types), m) == truth::<N>(e, m),
    decreases e,
{
    match e {
        ExprView::And(a, b) => {
            reducing_keeps_the_truth::<N>(*a, types, m);
            reducing_keeps_the_truth::<N>(*b, types, m);
        },
        ExprView::Or(a, b) => {
            reducing_keeps_the_truth::<N>(*a, types, m);
            reducing_keeps_the_truth::<N>(*b, types, m);
        },
        ExprView::Not(a) => reducing_keeps_the_truth::<N>(*a, types, m),
        _ => {},
    }
}

/// A condition that is decided without a solution has that truth in all.
pub proof fn decided_conditions_are_constant<N: Numbers>(e: ExprView, m: Map<Text, TermView>)
    ensures
        const_bool_view(e) matches Some(v) ==> truth::<N>(e, m) == v,
    decreases e,
{
    match e {
        ExprView::Eq(a, b) => ground_equality::<N>(*a, *b, m),
        ExprView::SameTerm(a, b) => ground_equality::<N>(*a, *b, m),
        ExprView::Ne(a, b) => ground_equality::<N>(*a, *b, m),
        ExprView::And(a, b) => {
            decided_conditions_are_constant::<N>(*a, m);
            decided_conditions_are_constant::<N>(*b, m);
        },
        ExprView::Or(a, b) => {
            decided_conditions_are_constant::<N>(*a, m);
            decided_conditions_are_constant::<N>(*b, m);
        },
        ExprView::Not(a) => decided_conditions_are_constant::<N>(*a, m),
        _ => {},
    }
}

proof fn ground_equality<N: Numbers>(a: ExprView, b: ExprView, m: Map<Text, TermView>)
    ensures
        const_eq_view(a, b) matches Some(v) ==> (value::<N>(a, m)
            == value::<N>(b, m)) == v,
{
}

/// The conditions left open hold where all do, given that none is decided to
/// be false.
proof fn open_parts_decide<N: Numbers>(
    parts: Seq<ExprView>,
    types: Map<Text, TypeMask>,
    m: Map<Text, TermView>,
)
    requires
        !has_false(parts, types),
    ensures
        all_hold::<N>(open_parts(parts, types), m) == all_hold::<N>(parts, m),
    decreases parts.len(),
{
    if parts.len() > 0 {
        let rest = parts.drop_last();
        let e = parts.last();
        let last = reduce_view(e, types);
        let kept = open_parts(rest, types);
        let all = open_parts(parts, types);
        assert(parts[parts.len() - 1] == e);
        assert(!has_false(rest, types)) by {
            if has_false(rest, types) {
                let i = choose|i: int|
                    0 <= i < rest.len() && const_bool_view(reduce_view(#[trigger] rest[i], types))
                        == Some(false);
                assert(parts[i] == rest[i]);
            }
        }
        open_parts_decide::<N>(rest, types, m);
        reducing_keeps_the_truth::<N>(e, types, m);
        decided_conditions_are_constant::<N>(last, m);
        if all_hold::<N>(parts, m) {
            assert forall|i: int| 0 <= i < rest.len() implies truth::<N>(#[trigger] rest[i], m) by {
                assert(rest[i] == parts[i]);
            }
            assert forall|i: int| 0 <= i < all.len() implies truth::<N>(#[trigger] all[i], m) by {
                if i < kept.len() {
                    assert(all[i] == kept[i]);
                }
            }
        }
        if all_hold::<N>(all, m) {
            assert forall|i: int| 0 <= i < kept.len() implies truth::<N>(#[trigger] kept[i], m) by {
                assert(all[i] == kept[i]);
            }
            if const_bool_view(last) is None {
                assert(all[kept.len() as int] == last);
            }
            assert forall|i: int| 0 <= i < parts.len() implies truth::<N>(#[trigger] parts[i], m) by {
                if i < rest.len() {
                    assert(rest[i] == parts[i]);
                }
            }
        }
    }
}

/// Conditions with the same truth in every solution keep the same rows.
pub proof fn same_truth_same_rows<N: Numbers>(
    d: Dict,
    b: BatchView,
    e: ExprView,
    f: ExprView,
)
    requires
        forall|m: Map<Text, TermView>| #[trigger] truth::<N>(e, m) == truth::<N>(f, m),
    ensures
        filter_batch::<N>(d, b, e) == filter_batch::<N>(d, b, f),
{
    same_rows::<N>(d, b.schema, b.rows, e, f);
}

proof fn same_rows<N: Numbers>(
    d: Dict,
    schema: Seq<Text>,
    rows: Seq<Seq<SlotView>>,
    e: ExprView,
    f: ExprView,
)
    requires
        forall|m: Map<Text, TermView>| #[trigger] truth::<N>(e, m) == truth::<N>(f, m),
    ensures
        satisfying::<N>(d, schema, rows, Some(e)) == satisfying::<N>(d, schema, rows, Some(f)),
    decreases rows.len(),
{
    if rows.len() > 0 {
        same_rows::<N>(d, schema, rows.drop_last(), e, f);
    }
}

proof fn decided_rows<N: Numbers>(
    d: Dict,
    schema: Seq<Text>,
    rows: Seq<Seq<SlotView>>,
    e: ExprView,
    v: bool,
)
    requires
        forall|m: Map<Text, TermView>| #[trigger] truth::<N>(e, m) == v,
    ensures
        satisfying::<N>(d, schema, rows, Some(e)) == (if v {
            rows
        } else {
            Seq::empty()
        }),
    decreases rows.len(),
{
    let out = satisfying::<N>(d, schema, rows, Some(e));
    if rows.len() > 0 {
        decided_rows::<N>(d, schema, rows.drop_last(), e, v);
        assert(rows.drop_last().push(rows.last()) =~= rows);
    } else {
        assert(out =~= rows);
    }
}

/// Normalizing a filter keeps the rows it keeps: none where a conjunct is
/// decided to be false, all where every conjunct is decided to be true, and
/// otherwise those of the conjuncts left open.
pub proof fn normalizing_a_filter_keeps_the_rows<N: Numbers>(
    d: Dict,
    b: BatchView,
    e: ExprView,
    types: Map<Text, TypeMask>,
)
    ensures
        ({
            let parts = conjuncts_view(e);
            let rows = filter_batch::<N>(d, b, e).rows;
            if has_false(parts, types) {
                rows.len() == 0
            } else {
                match conjoin_view(open_parts(parts, types)) {
                    Some(f) => rows == filter_batch::<N>(d, b, f).rows,
                    None => rows == b.rows,
                }
            }
        }),
{
    let parts = conjuncts_view(e);
    if has_false(parts, types) {
        let i = choose|i: int|
            0 <= i < parts.len() && const_bool_view(reduce_view(#[trigger] parts[i], types))
                == Some(false);
        assert forall|m: Map<Text, TermView>| #[trigger] truth::<N>(e, m) == false by {
            conjuncts_decide::<N>(e, m);
            reducing_keeps_the_truth::<N>(parts[i], types, m);
            decided_conditions_are_constant::<N>(reduce_view(parts[i], types), m);
            if all_hold::<N>(parts, m) {
                assert(truth::<N>(parts[i], m));
            }
        }
        decided_rows::<N>(d, b.schema, b.rows, e, false);
    } else {
        let left = open_parts(parts, types);
        if left.len() > 0 {
            let f = chain_view(left);
            assert forall|m: Map<Text, TermView>| #[trigger] truth::<N>(e, m) == truth::<N>(f, m) by {
                conjuncts_decide::<N>(e, m);
                open_parts_decide::<N>(parts, types, m);
                chain_decides::<N>(left, m);
            }
            same_rows::<N>(d, b.schema, b.rows, e, f);
        } else {
            assert forall|m: Map<Text, TermView>| #[trigger] truth::<N>(e, m) == true by {
                conjuncts_decide::<N>(e, m);
                open_parts_decide::<N>(parts, types, m);
                assert(all_hold::<N>(left, m));
            }
            decided_rows::<N>(d, b.schema, b.rows, e, true);
        }
    }
}

}
