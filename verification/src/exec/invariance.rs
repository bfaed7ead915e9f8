//! Rewriting a plan for execution changes none of its answers.

use crate::algebra::{
    AggFuncView, AggregateView, ExprView, PATH_DST_VAR, PATH_SRC_VAR, PatternView, TermView,
};
use crate::exec::aggregate::{count_view, deduped, present_values};
use crate::exec::batch::{
    binding_is_restriction, solution, solutions, BatchView, Dict, KeyView, SlotView,
};
use crate::exec::executor::{binds, Executor};
use crate::exec::group::{
    agg_cell, group_batch, group_id, group_ids, group_list, group_row, group_rows_of, group_schema, members,
    row_solutions,
};
use crate::exec::join::{bound_in, cell, join_batch, left_join_batch, minus_batch};
use crate::exec::narrow::{
    cell_is_some, distinct_narrows, extend_narrows, extended_names, filter_narrows, narrows,
    narrows_all, narrows_itself, narrows_less, one_valued, order_narrows, project_is_determined,
    project_keeps_cells, projected_names, repeated, restrict_narrows, rows_agree, slice_narrows,
    solution_of_cell,
};
use crate::exec::narrow_group::{
    counts_columns, counts_one_column, group_is_determined, reads_of_group,
};
use crate::exec::narrow_join::{
    added_names, join_narrows, left_join_narrows, minus_narrows, union_narrows,
};
use crate::exec::number::Numbers;
use crate::exec::operators::{
    distinct_batch, extend_batch, filter_batch, project_batch, slice_batch, union_batch,
};
use crate::exec::order::arranged;
use crate::exec::refs::refs;
use crate::exec::runtime::{
    count_batch, edge_maps, graph_batch, is_run, outs, per_graph_batch, row_counts, yields,
    QueryView, Run,
};
use crate::exec::scope::NamedGraphView;
use crate::exec::sort::enumerates_rows;
use crate::plan::passes::projection_pushdown::{
    counts_distinct_rows, group_demand, keep, opt_refs, order_refs, with_shared,
};
use crate::plan::passes::{add_all_unique, add_unique, agg_outs, bgp_vars, endpoint_vars};
use crate::plan::pruning::{narrow_columns, pruned_columns};
use crate::plan::pushdown::{
    counts_solutions, is_narrowed, narrowed_view, output_view, prune_view, push_aggregates_view,
    restrict_view, rewritten,
};
use crate::plan::PhysicalView;
use crate::text::Text;
use vstd::prelude::*;

verus! {

// ── Columns ─────────────────────────────────────────────────────────────────

/// Are the outputs of aggregates named apart from each other and from the keys?
pub open spec fn outputs_apart(keys: Seq<Text>, aggs: Seq<AggregateView>) -> bool {
    &&& agg_outs(aggs).no_duplicates()
    &&& forall|n: Text| #[trigger] agg_outs(aggs).contains(n) ==> !keys.contains(n)
}

/// Does every name stand for one thing in the rows of a plan? Projections and
/// keys may repeat a name. A projection names at least one column, the columns
/// of values and the outputs of aggregates have names of their own, and no
/// column whose name is repeated is computed anew.
pub open spec fn tells_columns(plan: PhysicalView) -> bool
    decreases plan,
{
    match plan {
        PhysicalView::BgpScan { .. } => true,
        PhysicalView::CountScan { .. } => true,
        PhysicalView::GroupCountScan { keys, out_vars, .. } => (keys + out_vars).no_duplicates(),
        PhysicalView::Join { left, right } => tells_columns(*left) && tells_columns(*right),
        PhysicalView::LeftJoin { left, right, .. } => tells_columns(*left) && tells_columns(*right),
        PhysicalView::Minus { left, right } => tells_columns(*left) && tells_columns(*right),
        PhysicalView::Union { left, right } => tells_columns(*left) && tells_columns(*right),
        PhysicalView::Filter { inner, .. } => tells_columns(*inner),
        PhysicalView::Project { vars, inner } => vars.len() > 0 && tells_columns(*inner),
        PhysicalView::Distinct { inner } => tells_columns(*inner),
        PhysicalView::Slice { inner, .. } => tells_columns(*inner),
        PhysicalView::OrderBy { inner, .. } => tells_columns(*inner),
        PhysicalView::Extend { inner, var, .. } => tells_columns(*inner) && !repeated(
            output_view(*inner),
            var,
        ),
        PhysicalView::Values { vars, rows } => vars.no_duplicates() || rows.len() == 0,
        PhysicalView::Group { inner, keys, aggregates } => tells_columns(*inner) && outputs_apart(
            keys,
            aggregates,
        ),
        PhysicalView::PerGraph { inner, .. } => tells_columns(*inner),
        PhysicalView::PathClosure { edge, .. } => tells_columns(*edge),
    }
}

/// Are the distinct values of no column counted whose name is repeated?
pub open spec fn counts_lone_columns(plan: PhysicalView) -> bool
    decreases plan,
{
    match plan {
        PhysicalView::BgpScan { .. } => true,
        PhysicalView::CountScan { .. } => true,
        PhysicalView::GroupCountScan { .. } => true,
        PhysicalView::Values { .. } => true,
        PhysicalView::Join { left, right } => counts_lone_columns(*left) && counts_lone_columns(
            *right,
        ),
        PhysicalView::LeftJoin { left, right, .. } => counts_lone_columns(*left)
            && counts_lone_columns(*right),
        PhysicalView::Minus { left, right } => counts_lone_columns(*left) && counts_lone_columns(
            *right,
        ),
        PhysicalView::Union { left, right } => counts_lone_columns(*left) && counts_lone_columns(
            *right,
        ),
        PhysicalView::Filter { inner, .. } => counts_lone_columns(*inner),
        PhysicalView::Project { inner, .. } => counts_lone_columns(*inner),
        PhysicalView::Distinct { inner } => counts_lone_columns(*inner),
        PhysicalView::Slice { inner, .. } => counts_lone_columns(*inner),
        PhysicalView::OrderBy { inner, .. } => counts_lone_columns(*inner),
        PhysicalView::Extend { inner, .. } => counts_lone_columns(*inner),
        PhysicalView::Group { inner, aggregates, .. } => counts_lone_columns(*inner)
            && counts_columns(output_view(*inner), aggregates),
        PhysicalView::PerGraph { inner, .. } => counts_lone_columns(*inner),
        PhysicalView::PathClosure { edge, .. } => counts_lone_columns(*edge),
    }
}

/// Does every name of a plan stand for one column, and for a lone one where its
/// distinct values are counted?
pub open spec fn names_columns(plan: PhysicalView) -> bool {
    tells_columns(plan) && counts_lone_columns(plan)
}

/// Adding a name adds it where it is new.
pub proof fn add_unique_names(s: Seq<Text>, v: Text)
    ensures
        s.no_duplicates() ==> add_unique(s, v).no_duplicates(),
        forall|n: Text| #[trigger] repeated(add_unique(s, v), n) <==> repeated(s, n),
        forall|n: Text| #[trigger] add_unique(s, v).contains(n) <==> s.contains(n) || n == v,
{
    assert(seq![v].drop_last() =~= Seq::<Text>::empty());
    assert(add_all_unique(s, seq![v]) == add_unique(add_all_unique(s, seq![v].drop_last()), v));
    added_names(s, seq![v]);
    assert(seq![v][0] == v);
}

/// The ends of a path, where they are variables.
proof fn endpoints_distinct(subject: TermView, object: TermView)
    ensures
        endpoint_vars(object, endpoint_vars(subject, Seq::empty())).no_duplicates(),
{
    let s = endpoint_vars(subject, Seq::empty());
    if let TermView::Var(v) = subject {
        add_unique_names(Seq::empty(), v);
    }
    if let TermView::Var(v) = object {
        add_unique_names(s, v);
    }
}

proof fn counts_apart(keys: Seq<Text>, vars: Seq<Text>)
    requires
        (keys + vars).no_duplicates(),
    ensures
        outputs_apart(keys, row_counts(vars)),
{
    outs_are_counts(vars);
    let all = keys + vars;
    assert forall|i: int, j: int| 0 <= i < vars.len() && 0 <= j < vars.len() && i != j implies vars[i]
        != vars[j] by {
        assert(all[keys.len() + i] == vars[i] && all[keys.len() + j] == vars[j]);
    }
    assert forall|n: Text| #[trigger] vars.contains(n) implies !keys.contains(n) by {
        let i = choose|i: int| 0 <= i < vars.len() && vars[i] == n;
        if keys.contains(n) {
            let j = choose|j: int| 0 <= j < keys.len() && keys[j] == n;
            assert(all[keys.len() + i] == n && all[j] == n);
        }
    }
}

proof fn outs_are_counts(vars: Seq<Text>)
    ensures
        agg_outs(row_counts(vars)) == vars,
{
    assert(agg_outs(row_counts(vars)) =~= vars);
}

/// What is kept of some names: those that are demanded.
pub proof fn kept_names(s: Seq<Text>, want: Set<Text>)
    ensures
        forall|n: Text| #[trigger] keep(s, want).contains(n) <==> s.contains(n) && want.contains(n),
        forall|n: Text| #[trigger] repeated(keep(s, want), n) <==> repeated(s, n) && want.contains(
            n,
        ),
    decreases s.len(),
{
    if s.len() > 0 {
        let rest = s.drop_last();
        let k = keep(rest, want);
        let out = keep(s, want);
        kept_names(rest, want);
        assert forall|n: Text| #[trigger] out.contains(n) <==> s.contains(n) && want.contains(n) by {
            if s.contains(n) && want.contains(n) {
                let i = choose|i: int| 0 <= i < s.len() && s[i] == n;
                if i < rest.len() {
                    assert(rest[i] == n);
                    assert(k.contains(n));
                    let j = choose|j: int| 0 <= j < k.len() && k[j] == n;
                    assert(out[j] == n);
                } else {
                    assert(out[k.len() as int] == n);
                }
            }
            if out.contains(n) {
                let j = choose|j: int| 0 <= j < out.len() && out[j] == n;
                if j < k.len() {
                    assert(k[j] == n);
                    assert(k.contains(n));
                    let i = choose|i: int| 0 <= i < rest.len() && rest[i] == n;
                    assert(s[i] == n);
                } else {
                    assert(s[s.len() - 1] == n);
                }
            }
        }
        assert forall|n: Text| #[trigger] repeated(out, n) <==> repeated(s, n) && want.contains(n) by {
            if repeated(s, n) && want.contains(n) {
                let (i, j) = choose|i: int, j: int|
                    0 <= i < j < s.len() && #[trigger] s[i] == n && #[trigger] s[j] == n;
                assert(rest[i] == n);
                if j < rest.len() {
                    assert(rest[j] == n);
                    assert(repeated(rest, n));
                    assert(repeated(k, n));
                    let (e, f) = choose|e: int, f: int|
                        0 <= e < f < k.len() && #[trigger] k[e] == n && #[trigger] k[f] == n;
                    assert(out[e] == n && out[f] == n);
                } else {
                    assert(rest.contains(n));
                    assert(k.contains(n));
                    let e = choose|e: int| 0 <= e < k.len() && k[e] == n;
                    assert(out[e] == n && out[k.len() as int] == n);
                }
            }
            if repeated(out, n) {
                let (i, j) = choose|i: int, j: int|
                    0 <= i < j < out.len() && #[trigger] out[i] == n && #[trigger] out[j] == n;
                assert(k[i] == n);
                assert(k.contains(n));
                if j < k.len() {
                    assert(k[j] == n);
                    assert(repeated(k, n));
                    let (e, f) = choose|e: int, f: int|
                        0 <= e < f < rest.len() && #[trigger] rest[e] == n && #[trigger] rest[f]
                            == n;
                    assert(s[e] == n && s[f] == n);
                } else {
                    let e = choose|e: int| 0 <= e < rest.len() && rest[e] == n;
                    assert(s[e] == n && s[s.len() - 1] == n);
                }
            }
        }
    }
}

proof fn restrict_names_columns(node: PhysicalView, want: Set<Text>)
    requires
        names_columns(node),
    ensures
        names_columns(restrict_view(node, want)),
{
}

/// Is every name that some names repeat repeated by others?
#[verifier::opaque]
pub open spec fn repeats_within(s: Seq<Text>, t: Seq<Text>) -> bool {
    forall|n: Text| #[trigger] repeated(s, n) ==> repeated(t, n)
}

proof fn added_repeats(s: Seq<Text>, u: Seq<Text>, t: Seq<Text>, v: Seq<Text>)
    requires
        repeats_within(s, t),
    ensures
        repeats_within(add_all_unique(s, u), add_all_unique(t, v)),
{
    reveal(repeats_within);
    added_names(s, u);
    added_names(t, v);
}

proof fn one_added_repeats(s: Seq<Text>, t: Seq<Text>, v: Text)
    requires
        repeats_within(s, t),
    ensures
        repeats_within(add_unique(s, v), add_unique(t, v)),
{
    reveal(repeats_within);
    add_unique_names(s, v);
    add_unique_names(t, v);
}

proof fn same_repeats(s: Seq<Text>)
    ensures
        repeats_within(s, s),
{
    reveal(repeats_within);
}

proof fn restrict_repeats(node: PhysicalView, t: Seq<Text>, want: Set<Text>)
    requires
        repeats_within(output_view(node), t),
    ensures
        repeats_within(output_view(restrict_view(node, want)), t),
{
    reveal(repeats_within);
    kept_names(output_view(node), want);
}

proof fn narrowed_repeats(vars: Seq<Text>, inner: PhysicalView, want: Set<Text>)
    requires
        is_narrowed(vars, inner, want),
        repeats_within(output_view(prune_view(inner, want)), output_view(inner)),
    ensures
        repeats_within(output_view(prune_view(inner, want)), vars),
{
    reveal(repeats_within);
    pruned_columns(inner, want);
    narrow_columns(inner, want);
    kept_names(output_view(inner), want);
    let p = output_view(prune_view(inner, want));
    assert forall|n: Text| #[trigger] repeated(p, n) implies repeated(vars, n) by {
        let (i, j) = choose|i: int, j: int|
            0 <= i < j < p.len() && #[trigger] p[i] == n && #[trigger] p[j] == n;
        assert(p.contains(p[i]));
        assert(repeated(output_view(inner), n));
        assert(want.contains(n));
    }
}

/// A pruned plan repeats no name that the plan does not.
pub proof fn pruned_repeats(plan: PhysicalView, want: Set<Text>)
    ensures
        repeats_within(output_view(prune_view(plan, want)), output_view(plan)),
    decreases plan,
{
    let out = output_view(plan);
    same_repeats(out);
    match plan {
        PhysicalView::BgpScan { .. } => restrict_repeats(plan, out, want),
        PhysicalView::CountScan { .. } => {},
        PhysicalView::GroupCountScan { .. } => {},
        PhysicalView::Values { .. } => restrict_repeats(plan, out, want),
        PhysicalView::Project { vars, inner } => if is_narrowed(vars, *inner, want) {
            pruned_repeats(*inner, want);
            narrowed_repeats(vars, *inner, want);
        },
        PhysicalView::Filter { expr, inner } => {
            let read = want.union(refs(expr));
            pruned_repeats(*inner, read);
            restrict_repeats(
                PhysicalView::Filter { expr, inner: Box::new(prune_view(*inner, read)) },
                out,
                want,
            );
        },
        PhysicalView::Join { left, right } => {
            let (lo, ro) = (output_view(*left), output_view(*right));
            let base = with_shared(want, lo, ro);
            let (f, g) = (base.intersect(lo.to_set()), base.intersect(ro.to_set()));
            let (x, y) = (prune_view(*left, f), prune_view(*right, g));
            pruned_repeats(*left, f);
            added_repeats(output_view(x), output_view(y), lo, ro);
            restrict_repeats(
                PhysicalView::Join { left: Box::new(x), right: Box::new(y) },
                out,
                want,
            );
        },
        PhysicalView::LeftJoin { left, right, expr } => {
            let (lo, ro) = (output_view(*left), output_view(*right));
            let base = with_shared(want, lo, ro).union(opt_refs(expr));
            let (f, g) = (base.intersect(lo.to_set()), base.intersect(ro.to_set()));
            let (x, y) = (prune_view(*left, f), prune_view(*right, g));
            pruned_repeats(*left, f);
            added_repeats(output_view(x), output_view(y), lo, ro);
            restrict_repeats(
                PhysicalView::LeftJoin { left: Box::new(x), right: Box::new(y), expr },
                out,
                want,
            );
        },
        PhysicalView::Minus { left, .. } => pruned_repeats(*left, output_view(*left).to_set()),
        PhysicalView::Union { left, right } => {
            pruned_repeats(*left, want);
            added_repeats(
                output_view(prune_view(*left, want)),
                output_view(prune_view(*right, want)),
                output_view(*left),
                output_view(*right),
            );
        },
        PhysicalView::Distinct { inner } => pruned_repeats(*inner, output_view(*inner).to_set()),
        PhysicalView::Slice { inner, .. } => pruned_repeats(*inner, want),
        PhysicalView::OrderBy { inner, keys } => {
            let read = want.union(order_refs(keys));
            pruned_repeats(*inner, read);
            restrict_repeats(
                PhysicalView::OrderBy { inner: Box::new(prune_view(*inner, read)), keys },
                out,
                want,
            );
        },
        PhysicalView::Extend { inner, var, expr } => {
            let read = want.remove(var).union(refs(expr));
            let p = prune_view(*inner, read);
            pruned_repeats(*inner, read);
            one_added_repeats(output_view(p), output_view(*inner), var);
            restrict_repeats(PhysicalView::Extend { inner: Box::new(p), var, expr }, out, want);
        },
        PhysicalView::Group { .. } => {},
        PhysicalView::PerGraph { var, inner } => {
            let all = output_view(*inner).to_set();
            pruned_repeats(*inner, all);
            one_added_repeats(output_view(prune_view(*inner, all)), output_view(*inner), var);
        },
        PhysicalView::PathClosure { .. } => {},
    }
}

/// Columns that are counted are still named once among columns that repeat no
/// other name.
pub proof fn still_counts_columns(s: Seq<Text>, t: Seq<Text>, aggs: Seq<AggregateView>)
    requires
        counts_columns(t, aggs),
        repeats_within(s, t),
    ensures
        counts_columns(s, aggs),
{
    reveal(repeats_within);
    assert forall|i: int| 0 <= i < aggs.len() implies counts_one_column(s, #[trigger] aggs[i]) by {
        assert(counts_one_column(t, aggs[i]));
    }
}

/// A pruned plan names its columns.
pub proof fn pruned_names_columns(plan: PhysicalView, want: Set<Text>)
    requires
        names_columns(plan),
    ensures
        names_columns(prune_view(plan, want)),
    decreases plan,
{
    match plan {
        PhysicalView::BgpScan { .. } => restrict_names_columns(plan, want),
        PhysicalView::CountScan { .. } => {},
        PhysicalView::GroupCountScan { .. } => {},
        PhysicalView::Values { .. } => restrict_names_columns(plan, want),
        PhysicalView::Project { vars, inner } => {
            pruned_names_columns(*inner, want);
            pruned_names_columns(*inner, vars.to_set());
        },
        PhysicalView::Filter { expr, inner } => {
            let read = want.union(refs(expr));
            pruned_names_columns(*inner, read);
            restrict_names_columns(
                PhysicalView::Filter { expr, inner: Box::new(prune_view(*inner, read)) },
                want,
            );
        },
        PhysicalView::Join { left, right } => {
            let (lo, ro) = (output_view(*left), output_view(*right));
            let base = with_shared(want, lo, ro);
            let (f, g) = (base.intersect(lo.to_set()), base.intersect(ro.to_set()));
            pruned_names_columns(*left, f);
            pruned_names_columns(*right, g);
            restrict_names_columns(
                PhysicalView::Join {
                    left: Box::new(prune_view(*left, f)),
                    right: Box::new(prune_view(*right, g)),
                },
                want,
            );
        },
        PhysicalView::LeftJoin { left, right, expr } => {
            let (lo, ro) = (output_view(*left), output_view(*right));
            let base = with_shared(want, lo, ro).union(opt_refs(expr));
            let (f, g) = (base.intersect(lo.to_set()), base.intersect(ro.to_set()));
            pruned_names_columns(*left, f);
            pruned_names_columns(*right, g);
            restrict_names_columns(
                PhysicalView::LeftJoin {
                    left: Box::new(prune_view(*left, f)),
                    right: Box::new(prune_view(*right, g)),
                    expr,
                },
                want,
            );
        },
        PhysicalView::Minus { left, right } => {
            pruned_names_columns(*left, output_view(*left).to_set());
            pruned_names_columns(*right, output_view(*right).to_set());
        },
        PhysicalView::Union { left, right } => {
            pruned_names_columns(*left, want);
            pruned_names_columns(*right, want);
        },
        PhysicalView::Distinct { inner } => pruned_names_columns(
            *inner,
            output_view(*inner).to_set(),
        ),
        PhysicalView::Slice { inner, .. } => pruned_names_columns(*inner, want),
        PhysicalView::OrderBy { inner, keys } => {
            let read = want.union(order_refs(keys));
            pruned_names_columns(*inner, read);
            restrict_names_columns(
                PhysicalView::OrderBy { inner: Box::new(prune_view(*inner, read)), keys },
                want,
            );
        },
        PhysicalView::Extend { inner, var, expr } => {
            let read = want.remove(var).union(refs(expr));
            pruned_names_columns(*inner, read);
            pruned_repeats(*inner, read);
            reveal(repeats_within);
            restrict_names_columns(
                PhysicalView::Extend { inner: Box::new(prune_view(*inner, read)), var, expr },
                want,
            );
        },
        PhysicalView::Group { inner, keys, aggregates } => {
            let read = group_demand(output_view(*inner), keys, aggregates);
            pruned_names_columns(*inner, read);
            pruned_repeats(*inner, read);
            still_counts_columns(
                output_view(prune_view(*inner, read)),
                output_view(*inner),
                aggregates,
            );
        },
        PhysicalView::PerGraph { inner, .. } => pruned_names_columns(
            *inner,
            output_view(*inner).to_set(),
        ),
        PhysicalView::PathClosure { edge, .. } => pruned_names_columns(
            *edge,
            output_view(*edge).to_set(),
        ),
    }
}

// ── The columns of a run ────────────────────────────────────────────────────

/// Does a batch hold one thing under one name, all its columns output columns of
/// a plan and repeated only where they are?
pub open spec fn fits(plan: PhysicalView, b: BatchView) -> bool {
    &&& narrows(b, b, Set::full())
    &&& repeats_within(b.schema, output_view(plan))
    &&& forall|n: Text| #[trigger] b.schema.contains(n) ==> output_view(plan).contains(n)
}

/// The output of an aggregate shares its name with no other column.
proof fn output_stands_alone(keys: Seq<Text>, aggs: Seq<AggregateView>, i: int, j: int)
    requires
        outputs_apart(keys, aggs),
        keys.len() <= i < group_schema(keys, aggs).len(),
        0 <= j < group_schema(keys, aggs).len(),
        i != j,
    ensures
        group_schema(keys, aggs)[i] != group_schema(keys, aggs)[j],
{
    let o = agg_outs(aggs);
    assert(o.contains(o[i - keys.len()]));
    if j < keys.len() {
        assert(keys.contains(keys[j]));
    } else {
        assert(o[i - keys.len()] != o[j - keys.len()]);
    }
}

/// The columns of a grouping.
pub proof fn group_fits<N: Numbers>(
    d: Dict,
    b: BatchView,
    keys: Seq<Text>,
    aggs: Seq<AggregateView>,
    out: BatchView,
)
    requires
        group_batch::<N>(d, b, keys, aggs, out),
        outputs_apart(keys, aggs),
    ensures
        narrows(out, out, Set::full()),
        forall|n: Text| #[trigger] repeated(out.schema, n) ==> repeated(keys, n),
        forall|n: Text| #[trigger] out.schema.contains(n) ==> keys.contains(n) || agg_outs(
            aggs,
        ).contains(n),
{
    let order = choose|order: Seq<usize>| #[trigger]
        enumerates_rows(order, 0, group_list(b, keys).len() as int) && out == (BatchView {
            schema: group_schema(keys, aggs),
            rows: arranged(group_rows_of::<N>(d, b, keys, aggs), order),
        });
    let s = group_schema(keys, aggs);
    assert forall|i: int, j: int|
        0 <= i < s.len() && 0 <= j < s.len() && i != j && #[trigger] s[i] == #[trigger] s[j] implies i
        < keys.len() && j < keys.len() by {
        if i >= keys.len() {
            output_stands_alone(keys, aggs, i, j);
        }
        if j >= keys.len() {
            output_stands_alone(keys, aggs, j, i);
        }
    }
    assert forall|n: Text| #[trigger] repeated(s, n) implies repeated(keys, n) by {
        let (i, j) = choose|i: int, j: int|
            0 <= i < j < s.len() && #[trigger] s[i] == n && #[trigger] s[j] == n;
        assert(keys[i] == n && keys[j] == n);
    }
    assert forall|k: int| 0 <= k < out.rows.len() implies (#[trigger] out.rows[k]).len()
        == out.schema.len() && one_valued(out.schema, out.rows[k]) by {
        assert(order.contains(order[k]));
        let id = group_list(b, keys)[order[k] as int];
        let row = group_row::<N>(d, b, keys, aggs, id);
        assert(out.rows[k] == row);
        assert forall|i: int, j: int|
            0 <= i < s.len() && 0 <= j < s.len() && #[trigger] s[i] == #[trigger] s[j] implies row[i]
            == row[j] by {
            if i != j {
                assert(keys[i] == keys[j]);
            }
        }
    }
    narrows_itself(out);
    assert forall|n: Text| #[trigger] out.schema.contains(n) implies keys.contains(n) || agg_outs(
        aggs,
    ).contains(n) by {
        let i = choose|i: int| 0 <= i < out.schema.len() && out.schema[i] == n;
        if i < keys.len() {
            assert(keys[i] == n);
        } else {
            assert(agg_outs(aggs)[i - keys.len()] == n);
        }
    }
}

/// The columns of the rows of every graph.
proof fn per_graph_fits(
    d: Dict,
    inner: PhysicalView,
    var: Text,
    graphs: Seq<NamedGraphView>,
    parts: Seq<BatchView>,
    n: int,
)
    requires
        n <= parts.len(),
        forall|i: int| 0 <= i < n ==> fits(inner, #[trigger] parts[i]),
    ensures
        ({
            let b = per_graph_batch(d, var, graphs, parts, n);
            &&& narrows(b, b, Set::full())
            &&& forall|m: Text| !#[trigger] repeated(b.schema, m)
            &&& forall|m: Text| #[trigger] b.schema.contains(m) ==> output_view(inner).contains(m)
                || m == var
        }),
    decreases n,
{
    let b = per_graph_batch(d, var, graphs, parts, n);
    if n <= 0 {
        narrows_itself(b);
    } else {
        let rest = per_graph_batch(d, var, graphs, parts, n - 1);
        let part = parts[n - 1];
        let g = graph_batch(var, graphs[n - 1].binding);
        per_graph_fits(d, inner, var, graphs, parts, n - 1);
        assert(fits(inner, part));
        narrows_itself(g);
        join_narrows(d, part, g, part, g, Set::full());
        union_narrows(d, rest, join_batch(d, part, g), rest, join_batch(d, part, g), Set::full());
        added_names(part.schema, g.schema);
        added_names(rest.schema, join_batch(d, part, g).schema);
    }
}

/// A run of a plan that names its columns yields no other.
pub proof fn run_fits<E: Executor>(
    exec: &E,
    q: QueryView,
    env: Map<Text, Text>,
    plan: PhysicalView,
    run: Run,
)
    requires
        tells_columns(plan),
        is_run(exec, q, env, plan, run),
    ensures
        fits(plan, run.out),
    decreases plan,
{
    reveal(repeats_within);
    let d = exec.dict();
    let first = run.below[0];
    let second = run.below[1];
    match plan {
        PhysicalView::BgpScan { patterns, .. } => {
            narrows_itself(run.out);
            assert forall|n: Text| #[trigger] run.out.schema.contains(n) implies output_view(
                plan,
            ).contains(n) by {
                let i = choose|i: int| 0 <= i < run.out.schema.len() && run.out.schema[i] == n;
                assert(bgp_vars(patterns).contains(run.out.schema[i]));
            }
        },
        PhysicalView::CountScan { .. } => narrows_itself(run.out),
        PhysicalView::GroupCountScan { keys, out_vars, .. } => {
            let aggs = row_counts(out_vars);
            outs_are_counts(out_vars);
            assert(group_schema(keys, aggs) =~= keys + out_vars);
            counts_apart(keys, out_vars);
            group_fits::<E::N>(d, run.scanned, keys, aggs, run.out);
            added_names(Seq::empty(), keys);
            added_names(add_all_unique(Seq::empty(), keys), out_vars);
            assert forall|n: Text| !#[trigger] repeated(run.out.schema, n) by {
                assert(run.out.schema.no_duplicates());
            }
        },
        PhysicalView::Join { left, right } => {
            run_fits(exec, q, env, *left, first);
            run_fits(exec, q, env, *right, second);
            join_narrows(d, first.out, second.out, first.out, second.out, Set::full());
            added_names(first.out.schema, second.out.schema);
            added_names(output_view(*left), output_view(*right));
        },
        PhysicalView::LeftJoin { left, right, expr } => {
            run_fits(exec, q, env, *left, first);
            run_fits(exec, q, env, *right, second);
            left_join_narrows::<E::N>(
                d,
                first.out,
                second.out,
                first.out,
                second.out,
                Set::full(),
                expr,
            );
            added_names(first.out.schema, second.out.schema);
            added_names(output_view(*left), output_view(*right));
        },
        PhysicalView::Minus { left, right } => {
            run_fits(exec, q, env, *left, first);
            run_fits(exec, q, env, *right, second);
            minus_narrows(d, first.out, second.out, first.out, second.out);
        },
        PhysicalView::Union { left, right } => {
            run_fits(exec, q, env, *left, first);
            run_fits(exec, q, env, *right, second);
            union_narrows(d, first.out, second.out, first.out, second.out, Set::full());
            added_names(first.out.schema, second.out.schema);
            added_names(output_view(*left), output_view(*right));
        },
        PhysicalView::Filter { expr, inner } => {
            run_fits(exec, q, env, *inner, first);
            filter_narrows::<E::N>(d, first.out, first.out, Set::full(), expr);
        },
        PhysicalView::Project { vars, inner } => {
            run_fits(exec, q, env, *inner, first);
            projected_names(first.out.schema, vars);
            assert forall|k: int| 0 <= k < run.out.rows.len() implies (#[trigger] run.out.rows[k]).len()
                == run.out.schema.len() && one_valued(run.out.schema, run.out.rows[k]) by {
                project_keeps_cells(first.out, vars, k);
            }
            narrows_itself(run.out);
        },
        PhysicalView::Distinct { inner } => {
            run_fits(exec, q, env, *inner, first);
            distinct_narrows(first.out, first.out);
        },
        PhysicalView::Slice { inner, start, length } => {
            run_fits(exec, q, env, *inner, first);
            slice_narrows(first.out, first.out, Set::full(), start as int, length);
        },
        PhysicalView::OrderBy { inner, keys } => {
            run_fits(exec, q, env, *inner, first);
            let y = order_narrows::<E::N>(d, first.out, first.out, Set::full(), keys, run.out);
            assert forall|k: int| 0 <= k < run.out.rows.len() implies (#[trigger] run.out.rows[k]).len()
                == run.out.schema.len() && one_valued(run.out.schema, run.out.rows[k]) by {
                assert(rows_agree(
                    run.out.schema,
                    run.out.rows[k],
                    y.schema,
                    y.rows[k],
                    Set::full(),
                ));
            }
            narrows_itself(run.out);
        },
        PhysicalView::Extend { inner, var, expr } => {
            run_fits(exec, q, env, *inner, first);
            let all = Set::<Text>::full();
            narrows_less(first.out, first.out, all, all.remove(var).union(refs(expr)));
            extend_narrows::<E::N>(d, first.out, first.out, all, var, expr);
            extended_names::<E::N>(d, first.out, var, expr, run.out);
            add_unique_names(output_view(*inner), var);
        },
        PhysicalView::Values { vars, rows } => narrows_itself(run.out),
        PhysicalView::Group { inner, keys, aggregates } => {
            group_fits::<E::N>(d, first.out, keys, aggregates, run.out);
            added_names(keys, agg_outs(aggregates));
        },
        PhysicalView::PerGraph { var, inner } => {
            let parts = outs(run.below);
            let n = run.graphs.len() as int;
            assert forall|i: int| 0 <= i < n implies fits(*inner, #[trigger] parts[i]) by {
                assert(is_run(exec, q, env.insert(var, run.graphs[i].iri), *inner, run.below[i]));
                run_fits(
                    exec,
                    q,
                    env.insert(var, run.graphs[i].iri),
                    *inner,
                    run.below[i],
                );
            }
            per_graph_fits(d, *inner, var, run.graphs, parts, n);
            add_unique_names(output_view(*inner), var);
        },
        PhysicalView::PathClosure { subject, object, .. } => {
            endpoints_distinct(subject, object);
            narrows_itself(run.out);
        },
    }
}

/// A run of a plan that names its columns yields rows of one width, with one
/// thing under one name.
pub proof fn run_columns<E: Executor>(
    exec: &E,
    q: QueryView,
    env: Map<Text, Text>,
    plan: PhysicalView,
    run: Run,
)
    requires
        tells_columns(plan),
        is_run(exec, q, env, plan, run),
    ensures
        run.out.wf(),
        forall|k: int|
            0 <= k < run.out.rows.len() ==> one_valued(run.out.schema, #[trigger] run.out.rows[k]),
        repeats_within(run.out.schema, output_view(plan)),
        forall|n: Text| #[trigger] run.out.schema.contains(n) ==> output_view(plan).contains(n),
{
    run_fits(exec, q, env, plan, run);
    assert forall|k: int| 0 <= k < run.out.rows.len() implies (#[trigger] run.out.rows[k]).len()
        == run.out.schema.len() && one_valued(run.out.schema, run.out.rows[k]) by {
        assert(rows_agree(
            run.out.schema,
            run.out.rows[k],
            run.out.schema,
            run.out.rows[k],
            Set::full(),
        ));
    }
}

// ── Pruned runs ─────────────────────────────────────────────────────────────

/// The run of a node below the projection that restricts it, if there is one.
proof fn unrestricted<E: Executor>(
    exec: &E,
    q: QueryView,
    env: Map<Text, Text>,
    node: PhysicalView,
    want: Set<Text>,
    run: Run,
) -> (under: Run)
    requires
        names_columns(node),
        is_run(exec, q, env, restrict_view(node, want), run),
    ensures
        is_run(exec, q, env, node, under),
        forall|b: BatchView| #[trigger] narrows(under.out, b, want) ==> narrows(run.out, b, want),
{
    let natural = output_view(node);
    let kept = keep(natural, want);
    if kept.len() < natural.len() && kept.len() > 0 {
        let under = run.below[0];
        kept_names(natural, want);
        run_fits(exec, q, env, node, under);
        assert forall|b: BatchView| #[trigger] narrows(under.out, b, want) implies narrows(
            run.out,
            b,
            want,
        ) by {
            restrict_narrows(under.out, b, want, kept);
        }
        under
    } else {
        run
    }
}

/// What a batch agrees with under the columns a join demands of it, it agrees
/// with under those the join reads.
pub proof fn reads_what_it_has(
    a: BatchView,
    b: BatchView,
    base: Set<Text>,
    natural: Seq<Text>,
)
    requires
        narrows(a, b, base.intersect(natural.to_set())),
        forall|n: Text| #[trigger] b.schema.contains(n) ==> natural.contains(n),
    ensures
        narrows(a, b, base),
{
    let want = base.intersect(natural.to_set());
    assert forall|n: Text| base.contains(n) && #[trigger] b.schema.contains(n) implies a.schema.contains(
        n,
    ) by {
        assert(natural.contains(n));
        assert(want.contains(n));
    }
    assert forall|k: int| 0 <= k < a.rows.len() implies rows_agree(
        a.schema,
        #[trigger] a.rows[k],
        b.schema,
        b.rows[k],
        base,
    ) by {
        assert(rows_agree(a.schema, a.rows[k], b.schema, b.rows[k], want));
        assert forall|n: Text| base.contains(n) implies #[trigger] cell(a.schema, a.rows[k], n)
            == cell(b.schema, b.rows[k], n) by {
            cell_is_some(a.schema, a.rows[k], n);
            cell_is_some(b.schema, b.rows[k], n);
            if b.schema.contains(n) {
                assert(natural.contains(n));
                assert(want.contains(n));
            }
        }
    }
}

/// The rows of every graph, from parts that agree on every name.
pub proof fn per_graph_narrows(
    d: Dict,
    var: Text,
    graphs: Seq<NamedGraphView>,
    a: Seq<BatchView>,
    b: Seq<BatchView>,
    n: int,
)
    requires
        n <= a.len(),
        n <= b.len(),
        forall|i: int| 0 <= i < n ==> narrows(#[trigger] a[i], b[i], Set::full()),
    ensures
        narrows(
            per_graph_batch(d, var, graphs, a, n),
            per_graph_batch(d, var, graphs, b, n),
            Set::full(),
        ),
    decreases n,
{
    if n <= 0 {
        narrows_itself(per_graph_batch(d, var, graphs, a, n));
    } else {
        per_graph_narrows(d, var, graphs, a, b, n - 1);
        let g = graph_batch(var, graphs[n - 1].binding);
        narrows_itself(g);
        assert(narrows(a[n - 1], b[n - 1], Set::full()));
        join_narrows(d, a[n - 1], g, b[n - 1], g, Set::full());
        union_narrows(
            d,
            per_graph_batch(d, var, graphs, a, n - 1),
            join_batch(d, a[n - 1], g),
            per_graph_batch(d, var, graphs, b, n - 1),
            join_batch(d, b[n - 1], g),
            Set::full(),
        );
    }
}

/// Batches that agree on every name have the same edges.
pub proof fn edges_agree(d: Dict, a: BatchView, b: BatchView)
    requires
        narrows(a, b, Set::full()),
    ensures
        edge_maps(d, a) == edge_maps(d, b),
{
    assert forall|i: int| 0 <= i < a.rows.len() implies edge_maps(d, a)[i] == edge_maps(d, b)[i] by {
        let ends = set![PATH_SRC_VAR@, PATH_DST_VAR@];
        same_solution(d, a, b, i);
        binding_is_restriction(d, a.schema, a.rows[i], ends);
        binding_is_restriction(d, b.schema, b.rows[i], ends);
    }
    assert(edge_maps(d, a) =~= edge_maps(d, b));
}

pub proof fn same_solution(d: Dict, a: BatchView, b: BatchView, i: int)
    requires
        narrows(a, b, Set::full()),
        0 <= i < a.rows.len(),
    ensures
        solution(d, a.schema, a.rows[i]) == solution(d, b.schema, b.rows[i]),
{
    assert(rows_agree(a.schema, a.rows[i], b.schema, b.rows[i], Set::full()));
    let (x, y) = (solution(d, a.schema, a.rows[i]), solution(d, b.schema, b.rows[i]));
    assert forall|n: Text| #[trigger] x.contains_key(n) == y.contains_key(n) && (x.contains_key(n)
        ==> x[n] == y[n]) by {
        solution_of_cell(d, a.schema, a.rows[i], n);
        solution_of_cell(d, b.schema, b.rows[i], n);
        assert(Set::<Text>::full().contains(n));
        assert(cell(a.schema, a.rows[i], n) == cell(b.schema, b.rows[i], n));
    }
    assert(x =~= y);
}

/// The record of a node over the records below it.
pub open spec fn made_of(out: BatchView, below: Seq<Run>) -> Run {
    Run { out, below, scanned: out, graphs: Seq::empty(), found: Seq::empty() }
}

/// Is a run of a plan one that a pruned run agrees with?
pub open spec fn stands_for<E: Executor>(
    exec: &E,
    q: QueryView,
    env: Map<Text, Text>,
    plan: PhysicalView,
    want: Set<Text>,
    pruned: Run,
    run: Run,
) -> bool {
    is_run(exec, q, env, plan, run) && narrows(pruned.out, run.out, want)
}

/// A run of a pruned plan agrees, on what is demanded, with a run of the plan.
proof fn pruned_run<E: Executor>(
    exec: &E,
    q: QueryView,
    env: Map<Text, Text>,
    plan: PhysicalView,
    want: Set<Text>,
    pruned: Run,
) -> (run: Run)
    requires
        names_columns(plan),
        is_run(exec, q, env, prune_view(plan, want), pruned),
    ensures
        stands_for(exec, q, env, plan, want, pruned, run),
    decreases plan, 1int,
{
    let all = Set::<Text>::full();
    pruned_names_columns(plan, want);
    match plan {
        PhysicalView::BgpScan { .. } => {
            let run = unrestricted(exec, q, env, plan, want, pruned);
            run_fits(exec, q, env, plan, run);
            narrows_less(run.out, run.out, all, want);
            run
        },
        PhysicalView::Values { .. } => {
            let run = unrestricted(exec, q, env, plan, want, pruned);
            run_fits(exec, q, env, plan, run);
            narrows_less(run.out, run.out, all, want);
            run
        },
        PhysicalView::CountScan { .. } => {
            run_fits(exec, q, env, plan, pruned);
            narrows_less(pruned.out, pruned.out, all, want);
            pruned
        },
        PhysicalView::GroupCountScan { .. } => {
            run_fits(exec, q, env, plan, pruned);
            narrows_less(pruned.out, pruned.out, all, want);
            pruned
        },
        PhysicalView::Project { vars, inner } => if is_narrowed(vars, *inner, want) {
            let w = pruned_run(exec, q, env, *inner, want, pruned);
            let run = made_of(project_batch(w.out, vars), seq![w]);
            assert(run.below[0] == w);
            assert(is_run(exec, q, env, plan, run));
            restriction_changes_nothing(exec, q, env, vars, *inner, want, pruned, w);
            run
        } else {
            let w = pruned_run(exec, q, env, *inner, vars.to_set(), pruned.below[0]);
            project_is_determined(pruned.below[0].out, w.out, vars);
            let run = made_of(project_batch(w.out, vars), seq![w]);
            assert(run.below[0] == w);
            assert(is_run(exec, q, env, plan, run));
            run_fits(exec, q, env, plan, run);
            narrows_less(run.out, run.out, all, want);
            run
        },
        PhysicalView::Filter { .. } => pruned_filter(exec, q, env, plan, want, pruned),
        PhysicalView::Join { .. } => pruned_join(exec, q, env, plan, want, pruned),
        PhysicalView::LeftJoin { .. } => pruned_left_join(exec, q, env, plan, want, pruned),
        PhysicalView::Minus { .. } => pruned_difference(exec, q, env, plan, want, pruned),
        PhysicalView::Union { .. } => pruned_union(exec, q, env, plan, want, pruned),
        PhysicalView::Distinct { inner } => {
            let x = pruned.below[0];
            let w = pruned_run(exec, q, env, *inner, output_view(*inner).to_set(), x);
            let run = made_of(distinct_batch(w.out), seq![w]);
            assert(run.below[0] == w);
            assert(is_run(exec, q, env, plan, run));
            agrees_throughout(exec, q, env, *inner, x, w);
            distinct_narrows(x.out, w.out);
            narrows_less(pruned.out, run.out, all, want);
            run
        },
        PhysicalView::Slice { inner, start, length } => {
            let x = pruned.below[0];
            let w = pruned_run(exec, q, env, *inner, want, x);
            let run = made_of(slice_batch(w.out, start as int, length), seq![w]);
            assert(run.below[0] == w);
            assert(is_run(exec, q, env, plan, run));
            slice_narrows(x.out, w.out, want, start as int, length);
            run
        },
        PhysicalView::OrderBy { .. } => pruned_order(exec, q, env, plan, want, pruned),
        PhysicalView::Extend { .. } => pruned_extension(exec, q, env, plan, want, pruned),
        PhysicalView::Group { .. } => pruned_group(exec, q, env, plan, want, pruned),
        PhysicalView::PerGraph { .. } => pruned_graphs(exec, q, env, plan, want, pruned),
        PhysicalView::PathClosure { .. } => pruned_path(exec, q, env, plan, want, pruned),
    }
}

/// A projection to the demanded columns changes nothing for who demands them.
pub proof fn restriction_changes_nothing<E: Executor>(
    exec: &E,
    q: QueryView,
    env: Map<Text, Text>,
    vars: Seq<Text>,
    inner: PhysicalView,
    want: Set<Text>,
    pruned: Run,
    w: Run,
)
    requires
        names_columns(inner),
        is_narrowed(vars, inner, want),
        is_run(exec, q, env, prune_view(inner, want), pruned),
        stands_for(exec, q, env, inner, want, pruned, w),
    ensures
        narrows(pruned.out, project_batch(w.out, vars), want),
{
    let p = project_batch(w.out, vars);
    let a = pruned.out;
    pruned_names_columns(inner, want);
    run_fits(exec, q, env, prune_view(inner, want), pruned);
    run_fits(exec, q, env, inner, w);
    pruned_columns(inner, want);
    narrow_columns(inner, want);
    kept_names(output_view(inner), want);
    projected_names(w.out.schema, vars);
    assert forall|n: Text| #[trigger] a.schema.contains(n) implies p.schema.contains(n) by {
        assert(output_view(prune_view(inner, want)).contains(n));
        assert(output_view(inner).contains(n));
        assert(vars.contains(n));
    }
    assert forall|k: int| 0 <= k < a.rows.len() implies rows_agree(
        a.schema,
        #[trigger] a.rows[k],
        p.schema,
        p.rows[k],
        want,
    ) by {
        assert(rows_agree(a.schema, a.rows[k], w.out.schema, w.out.rows[k], want));
        project_keeps_cells(w.out, vars, k);
        assert forall|n: Text| want.contains(n) implies #[trigger] cell(a.schema, a.rows[k], n)
            == cell(p.schema, p.rows[k], n) by {
            cell_is_some(p.schema, p.rows[k], n);
            cell_is_some(w.out.schema, w.out.rows[k], n);
            if !vars.contains(n) {
                assert(!output_view(inner).contains(n));
                assert(!w.out.schema.contains(n));
            }
        }
    }
}

proof fn pruned_filter<E: Executor>(
    exec: &E,
    q: QueryView,
    env: Map<Text, Text>,
    plan: PhysicalView,
    want: Set<Text>,
    pruned: Run,
) -> (run: Run)
    requires
        plan is Filter,
        names_columns(plan),
        is_run(exec, q, env, prune_view(plan, want), pruned),
    ensures
        stands_for(exec, q, env, plan, want, pruned, run),
    decreases plan, 0int,
{
    let d = exec.dict();
    match plan {
        PhysicalView::Filter { expr, inner } => {
            let read = want.union(refs(expr));
            let node = PhysicalView::Filter { expr, inner: Box::new(prune_view(*inner, read)) };
            pruned_names_columns(*inner, read);
            let under = unrestricted(exec, q, env, node, want, pruned);
            let w = pruned_run(exec, q, env, *inner, read, under.below[0]);
            let run = made_of(filter_batch::<E::N>(d, w.out, expr), seq![w]);
            assert(run.below[0] == w);
            assert(is_run(exec, q, env, plan, run));
            filter_narrows::<E::N>(d, under.below[0].out, w.out, read, expr);
            narrows_less(under.out, run.out, read, want);
            run
        },
        _ => pruned,
    }
}

proof fn pruned_join<E: Executor>(
    exec: &E,
    q: QueryView,
    env: Map<Text, Text>,
    plan: PhysicalView,
    want: Set<Text>,
    pruned: Run,
) -> (run: Run)
    requires
        plan is Join,
        names_columns(plan),
        is_run(exec, q, env, prune_view(plan, want), pruned),
    ensures
        stands_for(exec, q, env, plan, want, pruned, run),
    decreases plan, 0int,
{
    let d = exec.dict();
    match plan {
        PhysicalView::Join { left, right } => {
            let (lo, ro) = (output_view(*left), output_view(*right));
            let base = with_shared(want, lo, ro);
            let (f, g) = (base.intersect(lo.to_set()), base.intersect(ro.to_set()));
            let node = PhysicalView::Join {
                left: Box::new(prune_view(*left, f)),
                right: Box::new(prune_view(*right, g)),
            };
            pruned_names_columns(*left, f);
            pruned_names_columns(*right, g);
            let under = unrestricted(exec, q, env, node, want, pruned);
            let (x, y) = (under.below[0], under.below[1]);
            let v = pruned_run(exec, q, env, *left, f, x);
            let w = pruned_run(exec, q, env, *right, g, y);
            let run = made_of(join_batch(d, v.out, w.out), seq![v, w]);
            assert(run.below[0] == v && run.below[1] == w);
            assert(is_run(exec, q, env, plan, run));
            run_fits(exec, q, env, *left, v);
            run_fits(exec, q, env, *right, w);
            reads_what_it_has(x.out, v.out, base, lo);
            reads_what_it_has(y.out, w.out, base, ro);
            shared_is_read(v.out.schema, w.out.schema, lo, ro, base);
            join_narrows(d, x.out, y.out, v.out, w.out, base);
            narrows_less(under.out, run.out, base, want);
            run
        },
        _ => pruned,
    }
}

proof fn pruned_left_join<E: Executor>(
    exec: &E,
    q: QueryView,
    env: Map<Text, Text>,
    plan: PhysicalView,
    want: Set<Text>,
    pruned: Run,
) -> (run: Run)
    requires
        plan is LeftJoin,
        names_columns(plan),
        is_run(exec, q, env, prune_view(plan, want), pruned),
    ensures
        stands_for(exec, q, env, plan, want, pruned, run),
    decreases plan, 0int,
{
    let d = exec.dict();
    match plan {
        PhysicalView::LeftJoin { left, right, expr } => {
            let (lo, ro) = (output_view(*left), output_view(*right));
            let base = with_shared(want, lo, ro).union(opt_refs(expr));
            let (f, g) = (base.intersect(lo.to_set()), base.intersect(ro.to_set()));
            let node = PhysicalView::LeftJoin {
                left: Box::new(prune_view(*left, f)),
                right: Box::new(prune_view(*right, g)),
                expr,
            };
            pruned_names_columns(*left, f);
            pruned_names_columns(*right, g);
            let under = unrestricted(exec, q, env, node, want, pruned);
            let (x, y) = (under.below[0], under.below[1]);
            let v = pruned_run(exec, q, env, *left, f, x);
            let w = pruned_run(exec, q, env, *right, g, y);
            let run = made_of(left_join_batch::<E::N>(d, v.out, w.out, expr), seq![v, w]);
            assert(run.below[0] == v && run.below[1] == w);
            assert(is_run(exec, q, env, plan, run));
            run_fits(exec, q, env, *left, v);
            run_fits(exec, q, env, *right, w);
            reads_what_it_has(x.out, v.out, base, lo);
            reads_what_it_has(y.out, w.out, base, ro);
            shared_is_read(v.out.schema, w.out.schema, lo, ro, base);
            left_join_narrows::<E::N>(d, x.out, y.out, v.out, w.out, base, expr);
            narrows_less(under.out, run.out, base, want);
            run
        },
        _ => pruned,
    }
}

proof fn pruned_difference<E: Executor>(
    exec: &E,
    q: QueryView,
    env: Map<Text, Text>,
    plan: PhysicalView,
    want: Set<Text>,
    pruned: Run,
) -> (run: Run)
    requires
        plan is Minus,
        names_columns(plan),
        is_run(exec, q, env, prune_view(plan, want), pruned),
    ensures
        stands_for(exec, q, env, plan, want, pruned, run),
    decreases plan, 0int,
{
    let d = exec.dict();
    let all = Set::<Text>::full();
    match plan {
        PhysicalView::Minus { left, right } => {
            let (lo, ro) = (output_view(*left), output_view(*right));
            let (x, y) = (pruned.below[0], pruned.below[1]);
            let v = pruned_run(exec, q, env, *left, lo.to_set(), x);
            let w = pruned_run(exec, q, env, *right, ro.to_set(), y);
            let run = made_of(minus_batch(d, v.out, w.out), seq![v, w]);
            assert(run.below[0] == v && run.below[1] == w);
            assert(is_run(exec, q, env, plan, run));
            agrees_throughout(exec, q, env, *left, x, v);
            agrees_throughout(exec, q, env, *right, y, w);
            minus_narrows(d, x.out, y.out, v.out, w.out);
            narrows_less(pruned.out, run.out, all, want);
            run
        },
        _ => pruned,
    }
}

proof fn pruned_union<E: Executor>(
    exec: &E,
    q: QueryView,
    env: Map<Text, Text>,
    plan: PhysicalView,
    want: Set<Text>,
    pruned: Run,
) -> (run: Run)
    requires
        plan is Union,
        names_columns(plan),
        is_run(exec, q, env, prune_view(plan, want), pruned),
    ensures
        stands_for(exec, q, env, plan, want, pruned, run),
    decreases plan, 0int,
{
    let d = exec.dict();
    match plan {
        PhysicalView::Union { left, right } => {
            let (x, y) = (pruned.below[0], pruned.below[1]);
            let v = pruned_run(exec, q, env, *left, want, x);
            let w = pruned_run(exec, q, env, *right, want, y);
            let run = made_of(union_batch(d, v.out, w.out), seq![v, w]);
            assert(run.below[0] == v && run.below[1] == w);
            assert(is_run(exec, q, env, plan, run));
            union_narrows(d, x.out, y.out, v.out, w.out, want);
            run
        },
        _ => pruned,
    }
}

proof fn pruned_order<E: Executor>(
    exec: &E,
    q: QueryView,
    env: Map<Text, Text>,
    plan: PhysicalView,
    want: Set<Text>,
    pruned: Run,
) -> (run: Run)
    requires
        plan is OrderBy,
        names_columns(plan),
        is_run(exec, q, env, prune_view(plan, want), pruned),
    ensures
        stands_for(exec, q, env, plan, want, pruned, run),
    decreases plan, 0int,
{
    let d = exec.dict();
    match plan {
        PhysicalView::OrderBy { inner, keys } => {
            let read = want.union(order_refs(keys));
            let node = PhysicalView::OrderBy { inner: Box::new(prune_view(*inner, read)), keys };
            pruned_names_columns(*inner, read);
            let under = unrestricted(exec, q, env, node, want, pruned);
            let w = pruned_run(exec, q, env, *inner, read, under.below[0]);
            let y = order_narrows::<E::N>(d, under.below[0].out, w.out, read, keys, under.out);
            let run = made_of(y, seq![w]);
            assert(run.below[0] == w);
            assert(is_run(exec, q, env, plan, run));
            narrows_less(under.out, run.out, read, want);
            run
        },
        _ => pruned,
    }
}

proof fn pruned_extension<E: Executor>(
    exec: &E,
    q: QueryView,
    env: Map<Text, Text>,
    plan: PhysicalView,
    want: Set<Text>,
    pruned: Run,
) -> (run: Run)
    requires
        plan is Extend,
        names_columns(plan),
        is_run(exec, q, env, prune_view(plan, want), pruned),
    ensures
        stands_for(exec, q, env, plan, want, pruned, run),
    decreases plan, 0int,
{
    let d = exec.dict();
    match plan {
        PhysicalView::Extend { inner, var, expr } => {
            let read = want.remove(var).union(refs(expr));
            let node = PhysicalView::Extend {
                inner: Box::new(prune_view(*inner, read)),
                var,
                expr,
            };
            pruned_names_columns(*inner, read);
            pruned_repeats(*inner, read);
            reveal(repeats_within);
            let under = unrestricted(exec, q, env, node, want, pruned);
            let w = pruned_run(exec, q, env, *inner, read, under.below[0]);
            let run = made_of(extend_batch::<E::N>(d, w.out, var, expr), seq![w]);
            assert(run.below[0] == w);
            assert(is_run(exec, q, env, plan, run));
            run_fits(exec, q, env, prune_view(*inner, read), under.below[0]);
            run_fits(exec, q, env, *inner, w);
            extend_narrows::<E::N>(d, under.below[0].out, w.out, want, var, expr);
            run
        },
        _ => pruned,
    }
}

proof fn pruned_group<E: Executor>(
    exec: &E,
    q: QueryView,
    env: Map<Text, Text>,
    plan: PhysicalView,
    want: Set<Text>,
    pruned: Run,
) -> (run: Run)
    requires
        plan is Group,
        names_columns(plan),
        is_run(exec, q, env, prune_view(plan, want), pruned),
    ensures
        stands_for(exec, q, env, plan, want, pruned, run),
    decreases plan, 0int,
{
    let all = Set::<Text>::full();
    match plan {
        PhysicalView::Group { inner, keys, aggregates } => {
            let x = pruned.below[0];
            let natural = output_view(*inner);
            let read = group_demand(natural, keys, aggregates);
            let w = pruned_run(exec, q, env, *inner, read, x);
            counts_in_runs(exec, q, env, *inner, read, aggregates, x, w);
            group_reads(exec, q, env, *inner, keys, aggregates, x, w);
            let run = made_of(pruned.out, seq![w]);
            assert(run.below[0] == w);
            assert(is_run(exec, q, env, plan, run));
            run_fits(exec, q, env, plan, run);
            narrows_less(run.out, run.out, all, want);
            run
        },
        _ => pruned,
    }
}

proof fn pruned_graphs<E: Executor>(
    exec: &E,
    q: QueryView,
    env: Map<Text, Text>,
    plan: PhysicalView,
    want: Set<Text>,
    pruned: Run,
) -> (run: Run)
    requires
        plan is PerGraph,
        names_columns(plan),
        is_run(exec, q, env, prune_view(plan, want), pruned),
    ensures
        stands_for(exec, q, env, plan, want, pruned, run),
    decreases plan, 0int,
{
    let d = exec.dict();
    let all = Set::<Text>::full();
    match plan {
        PhysicalView::PerGraph { var, inner } => {
            let n = pruned.graphs.len();
            let natural = output_view(*inner).to_set();
            let below = Seq::new(
                n,
                |i: int|
                    choose|w: Run|
                        stands_for(
                            exec,
                            q,
                            env.insert(var, pruned.graphs[i].iri),
                            *inner,
                            natural,
                            pruned.below[i],
                            w,
                        ),
            );
            let (x, y) = (outs(pruned.below), outs(below));
            assert forall|i: int| 0 <= i < n implies stands_for(
                exec,
                q,
                env.insert(var, pruned.graphs[i].iri),
                *inner,
                natural,
                pruned.below[i],
                #[trigger] below[i],
            ) by {
                let at = env.insert(var, pruned.graphs[i].iri);
                assert(is_run(exec, q, at, prune_view(*inner, natural), pruned.below[i]));
                let w = pruned_run(exec, q, at, *inner, natural, pruned.below[i]);
                assert(stands_for(exec, q, at, *inner, natural, pruned.below[i], w));
            }
            assert forall|i: int| 0 <= i < n implies narrows(#[trigger] x[i], y[i], all) by {
                let at = env.insert(var, pruned.graphs[i].iri);
                assert(stands_for(exec, q, at, *inner, natural, pruned.below[i], below[i]));
                agrees_throughout(exec, q, at, *inner, pruned.below[i], below[i]);
            }
            per_graph_narrows(d, var, pruned.graphs, x, y, n as int);
            let run = Run {
                out: per_graph_batch(d, var, pruned.graphs, y, n as int),
                below,
                scanned: pruned.scanned,
                graphs: pruned.graphs,
                found: pruned.found,
            };
            assert(is_run(exec, q, env, plan, run));
            narrows_less(pruned.out, run.out, all, want);
            run
        },
        _ => pruned,
    }
}

proof fn pruned_path<E: Executor>(
    exec: &E,
    q: QueryView,
    env: Map<Text, Text>,
    plan: PhysicalView,
    want: Set<Text>,
    pruned: Run,
) -> (run: Run)
    requires
        plan is PathClosure,
        names_columns(plan),
        is_run(exec, q, env, prune_view(plan, want), pruned),
    ensures
        stands_for(exec, q, env, plan, want, pruned, run),
    decreases plan, 0int,
{
    let d = exec.dict();
    let all = Set::<Text>::full();
    match plan {
        PhysicalView::PathClosure { subject, object, edge, reflexive } => {
            let x = pruned.below[0];
            let w = pruned_run(exec, q, env, *edge, output_view(*edge).to_set(), x);
            agrees_throughout(exec, q, env, *edge, x, w);
            edges_agree(d, x.out, w.out);
            let run = Run {
                out: pruned.out,
                below: seq![w],
                scanned: pruned.scanned,
                graphs: pruned.graphs,
                found: pruned.found,
            };
            assert(run.below[0] == w);
            assert(is_run(exec, q, env, plan, run));
            run_fits(exec, q, env, plan, run);
            narrows_less(run.out, run.out, all, want);
            run
        },
        _ => pruned,
    }
}

/// The columns two sides of a join share are read.
pub proof fn shared_is_read(
    s: Seq<Text>,
    t: Seq<Text>,
    lo: Seq<Text>,
    ro: Seq<Text>,
    base: Set<Text>,
)
    requires
        forall|n: Text| #[trigger] s.contains(n) ==> lo.contains(n),
        forall|n: Text| #[trigger] t.contains(n) ==> ro.contains(n),
        lo.to_set().intersect(ro.to_set()).subset_of(base),
    ensures
        forall|n: Text| #[trigger] s.contains(n) && t.contains(n) ==> base.contains(n),
{
    assert forall|n: Text| #[trigger] s.contains(n) && t.contains(n) implies base.contains(n) by {
        assert(lo.to_set().intersect(ro.to_set()).contains(n));
    }
}

/// A run that agrees with another on every output column of the plan agrees
/// with it throughout.
pub proof fn agrees_throughout<E: Executor>(
    exec: &E,
    q: QueryView,
    env: Map<Text, Text>,
    plan: PhysicalView,
    pruned: Run,
    run: Run,
)
    requires
        names_columns(plan),
        stands_for(exec, q, env, plan, output_view(plan).to_set(), pruned, run),
    ensures
        narrows(pruned.out, run.out, Set::full()),
{
    run_fits(exec, q, env, plan, run);
    assert forall|n: Text| #[trigger] run.out.schema.to_set().contains(n) implies output_view(
        plan,
    ).to_set().contains(n) by {
        assert(run.out.schema.contains(n));
    }
    narrows_all(pruned.out, run.out, output_view(plan).to_set());
}

/// In a pruned run and in a run of the plan, columns that are counted are named
/// once.
pub proof fn counts_in_runs<E: Executor>(
    exec: &E,
    q: QueryView,
    env: Map<Text, Text>,
    inner: PhysicalView,
    want: Set<Text>,
    aggs: Seq<AggregateView>,
    pruned: Run,
    run: Run,
)
    requires
        names_columns(inner),
        counts_columns(output_view(inner), aggs),
        is_run(exec, q, env, prune_view(inner, want), pruned),
        is_run(exec, q, env, inner, run),
    ensures
        counts_columns(pruned.out.schema, aggs),
        counts_columns(run.out.schema, aggs),
{
    pruned_names_columns(inner, want);
    pruned_repeats(inner, want);
    run_fits(exec, q, env, prune_view(inner, want), pruned);
    run_fits(exec, q, env, inner, run);
    still_counts_columns(output_view(prune_view(inner, want)), output_view(inner), aggs);
    still_counts_columns(pruned.out.schema, output_view(prune_view(inner, want)), aggs);
    still_counts_columns(run.out.schema, output_view(inner), aggs);
}

/// The groupings of a pruned run are those of the run it stands for.
pub proof fn group_reads<E: Executor>(
    exec: &E,
    q: QueryView,
    env: Map<Text, Text>,
    inner: PhysicalView,
    keys: Seq<Text>,
    aggs: Seq<AggregateView>,
    pruned: Run,
    run: Run,
)
    requires
        names_columns(inner),
        counts_columns(pruned.out.schema, aggs),
        counts_columns(run.out.schema, aggs),
        stands_for(
            exec,
            q,
            env,
            inner,
            group_demand(output_view(inner), keys, aggs),
            pruned,
            run,
        ),
    ensures
        forall|out: BatchView| #[trigger]
            group_batch::<E::N>(exec.dict(), pruned.out, keys, aggs, out) == group_batch::<E::N>(
                exec.dict(),
                run.out,
                keys,
                aggs,
                out,
            ),
{
    let read = if counts_distinct_rows(aggs) {
        agrees_throughout(exec, q, env, inner, pruned, run);
        Set::<Text>::full()
    } else {
        group_demand(output_view(inner), keys, aggs)
    };
    assert(reads_of_group(keys, aggs, read));
    assert forall|out: BatchView| #[trigger]
        group_batch::<E::N>(exec.dict(), pruned.out, keys, aggs, out) == group_batch::<E::N>(
        exec.dict(),
        run.out,
        keys,
        aggs,
        out,
    ) by {
        group_is_determined::<E::N>(exec.dict(), pruned.out, run.out, read, keys, aggs, out);
    }
}

// ── Counts ──────────────────────────────────────────────────────────────────

/// Equal items make one distinct item.
proof fn equal_items<A>(s: Seq<A>, x: A)
    requires
        s.len() > 0,
        forall|i: int| 0 <= i < s.len() ==> #[trigger] s[i] == x,
    ensures
        deduped(s) == seq![x],
    decreases s.len(),
{
    let rest = s.drop_last();
    assert(s[s.len() - 1] == x);
    if rest.len() > 0 {
        assert forall|i: int| 0 <= i < rest.len() implies #[trigger] rest[i] == x by {
            assert(rest[i] == s[i]);
        }
        equal_items(rest, x);
        assert(seq![x][0] == x);
    } else {
        assert(deduped(rest) =~= Seq::empty());
    }
    assert(deduped(s) =~= seq![x]);
}

/// Without keys every row is a member of the one group.
proof fn lone_group_members(b: BatchView, n: int)
    requires
        0 <= n <= b.rows.len(),
    ensures
        members(b, Seq::empty(), Seq::empty(), n) == b.rows.take(n),
    decreases n,
{
    let m = members(b, Seq::empty(), Seq::empty(), n);
    if n > 0 {
        lone_group_members(b, n - 1);
        assert(group_id(b, Seq::empty(), n - 1) =~= Seq::empty());
        assert(b.rows.take(n - 1).push(b.rows[n - 1]) =~= b.rows.take(n));
    } else {
        assert(m =~= b.rows.take(n));
    }
}

/// A variable that every member binds has as many values as there are members.
proof fn every_value_is_present<N: Numbers>(v: Text, sols: Seq<Map<Text, TermView>>)
    requires
        forall|i: int| 0 <= i < sols.len() ==> (#[trigger] sols[i]).contains_key(v),
    ensures
        present_values::<N>(ExprView::Term(TermView::Var(v)), sols).len() == sols.len(),
    decreases sols.len(),
{
    if sols.len() > 0 {
        let rest = sols.drop_last();
        assert forall|i: int| 0 <= i < rest.len() implies (#[trigger] rest[i]).contains_key(v) by {
            assert(rest[i] == sols[i]);
        }
        every_value_is_present::<N>(v, rest);
        assert(sols[sols.len() - 1].contains_key(v));
    }
}

/// A count of solutions counts every row.
proof fn counts_every_row<E: Executor>(
    exec: &E,
    patterns: Seq<PatternView>,
    agg: AggregateView,
    c: BatchView,
)
    requires
        binds(patterns, c),
        counts_solutions(agg, bgp_vars(patterns)),
    ensures
        agg_cell::<E::N>(exec.dict(), c.schema, c.rows, agg) == Some(count_view(c.rows.len())),
{
    let d = exec.dict();
    if let AggFuncView::Count(e) = agg.func {
        let v = e->Term_0->Var_0;
        assert(e == ExprView::Term(TermView::Var(v)));
        let sols = row_solutions(d, c.schema, c.rows);
        assert forall|i: int| 0 <= i < sols.len() implies (#[trigger] sols[i]).contains_key(v) by {
            assert(bound_in(c.schema, c.rows[i], v));
            assert(one_valued(c.schema, c.rows[i]));
            solution_of_cell(d, c.schema, c.rows[i], v);
        }
        every_value_is_present::<E::N>(v, sols);
    }
}

/// Counting the solutions of a pattern is counting its rows.
pub proof fn count_is_a_group<E: Executor>(
    exec: &E,
    patterns: Seq<PatternView>,
    agg: AggregateView,
    c: BatchView,
)
    requires
        binds(patterns, c),
        counts_solutions(agg, bgp_vars(patterns)),
    ensures
        group_batch::<E::N>(
            exec.dict(),
            c,
            Seq::empty(),
            seq![agg],
            count_batch(agg.out, c.rows.len()),
        ),
        forall|out: BatchView| #[trigger]
            group_batch::<E::N>(exec.dict(), c, Seq::empty(), seq![agg], out) ==> out
                == count_batch(agg.out, c.rows.len()),
{
    let d = exec.dict();
    let keys = Seq::<Text>::empty();
    let aggs = seq![agg];
    let n = c.rows.len() as int;
    let id = Seq::<KeyView>::empty();
    let out = count_batch(agg.out, c.rows.len());
    if n > 0 {
        let ids = group_ids(c, keys, n);
        assert forall|k: int| 0 <= k < ids.len() implies #[trigger] ids[k] == id by {
            assert(ids[k] =~= id);
        }
        equal_items(ids, id);
    }
    assert(group_list(c, keys) =~= seq![id]);
    lone_group_members(c, n);
    assert(c.rows.take(n) =~= c.rows);
    let ms = members(c, keys, id, n);
    assert(ms == c.rows);
    counts_every_row(exec, patterns, agg, c);
    assert(group_row::<E::N>(d, c, keys, aggs, id) =~= seq![
        SlotView::Term(count_view(c.rows.len())),
    ]);
    let order = seq![0usize];
    assert(order[0] == 0usize);
    assert(enumerates_rows(order, 0, group_list(c, keys).len() as int));
    assert(group_schema(keys, aggs) =~= seq![agg.out]);
    assert(arranged(group_rows_of::<E::N>(d, c, keys, aggs), order) =~= out.rows);
    assert(out == (BatchView {
        schema: group_schema(keys, aggs),
        rows: arranged(group_rows_of::<E::N>(d, c, keys, aggs), order),
    }));
    assert forall|other: BatchView| #[trigger]
        group_batch::<E::N>(d, c, keys, aggs, other) implies other == out by {
        let by = choose|by: Seq<usize>| #[trigger]
            enumerates_rows(by, 0, group_list(c, keys).len() as int) && other == (BatchView {
                schema: group_schema(keys, aggs),
                rows: arranged(group_rows_of::<E::N>(d, c, keys, aggs), by),
            });
        assert(by.contains(by[0]));
        assert(by =~= order);
    }
}

/// A plan with its counts pushed down names its columns, the same as before.
pub proof fn counted_names_columns(plan: PhysicalView)
    requires
        names_columns(plan),
    ensures
        names_columns(push_aggregates_view(plan)),
        output_view(push_aggregates_view(plan)) == output_view(plan),
    decreases plan,
{
    match plan {
        PhysicalView::BgpScan { .. } => {},
        PhysicalView::CountScan { .. } => {},
        PhysicalView::GroupCountScan { .. } => {},
        PhysicalView::Values { .. } => {},
        PhysicalView::Join { left, right } => {
            counted_names_columns(*left);
            counted_names_columns(*right);
        },
        PhysicalView::LeftJoin { left, right, .. } => {
            counted_names_columns(*left);
            counted_names_columns(*right);
        },
        PhysicalView::Minus { left, right } => {
            counted_names_columns(*left);
            counted_names_columns(*right);
        },
        PhysicalView::Union { left, right } => {
            counted_names_columns(*left);
            counted_names_columns(*right);
        },
        PhysicalView::Filter { inner, .. } => counted_names_columns(*inner),
        PhysicalView::Project { inner, .. } => counted_names_columns(*inner),
        PhysicalView::Distinct { inner } => counted_names_columns(*inner),
        PhysicalView::Slice { inner, .. } => counted_names_columns(*inner),
        PhysicalView::OrderBy { inner, .. } => counted_names_columns(*inner),
        PhysicalView::Extend { inner, .. } => counted_names_columns(*inner),
        PhysicalView::Group { inner, keys, aggregates } => {
            counted_names_columns(*inner);
            if keys.len() == 0 && aggregates.len() == 1 {
                let o = agg_outs(aggregates);
                assert(keys =~= Seq::empty());
                assert(o.drop_last() =~= Seq::empty());
                assert(add_all_unique(keys, o.drop_last()) =~= Seq::empty());
                assert(add_all_unique(keys, o) =~= seq![aggregates[0].out]);
            }
        },
        PhysicalView::PerGraph { inner, .. } => counted_names_columns(*inner),
        PhysicalView::PathClosure { edge, .. } => counted_names_columns(*edge),
    }
}

/// Is a run of a plan one with a given output?
pub open spec fn gives<E: Executor>(
    exec: &E,
    q: QueryView,
    env: Map<Text, Text>,
    plan: PhysicalView,
    out: BatchView,
    run: Run,
) -> bool {
    is_run(exec, q, env, plan, run) && run.out == out
}

/// The same run over other records.
pub open spec fn over(run: Run, below: Seq<Run>) -> Run {
    Run { out: run.out, below, scanned: run.scanned, graphs: run.graphs, found: run.found }
}

/// A run of a plan with its counts pushed down is, in what it yields, a run of
/// the plan.
#[verifier::rlimit(100)]
#[verifier::spinoff_prover]
proof fn counted_run<E: Executor>(
    exec: &E,
    q: QueryView,
    env: Map<Text, Text>,
    plan: PhysicalView,
    counted: Run,
) -> (run: Run)
    requires
        is_run(exec, q, env, push_aggregates_view(plan), counted),
    ensures
        gives(exec, q, env, plan, counted.out, run),
    decreases plan,
{
    let first = counted.below[0];
    let second = counted.below[1];
    match plan {
        PhysicalView::BgpScan { .. } => counted,
        PhysicalView::CountScan { .. } => counted,
        PhysicalView::GroupCountScan { .. } => counted,
        PhysicalView::Values { .. } => counted,
        PhysicalView::Join { left, right } => {
            let v = counted_run(exec, q, env, *left, first);
            let w = counted_run(exec, q, env, *right, second);
            let run = over(counted, seq![v, w]);
            assert(run.below[0] == v && run.below[1] == w);
            run
        },
        PhysicalView::LeftJoin { left, right, .. } => {
            let v = counted_run(exec, q, env, *left, first);
            let w = counted_run(exec, q, env, *right, second);
            let run = over(counted, seq![v, w]);
            assert(run.below[0] == v && run.below[1] == w);
            run
        },
        PhysicalView::Minus { left, right } => {
            let v = counted_run(exec, q, env, *left, first);
            let w = counted_run(exec, q, env, *right, second);
            let run = over(counted, seq![v, w]);
            assert(run.below[0] == v && run.below[1] == w);
            run
        },
        PhysicalView::Union { left, right } => {
            let v = counted_run(exec, q, env, *left, first);
            let w = counted_run(exec, q, env, *right, second);
            let run = over(counted, seq![v, w]);
            assert(run.below[0] == v && run.below[1] == w);
            run
        },
        PhysicalView::Filter { inner, .. } => {
            let w = counted_run(exec, q, env, *inner, first);
            let run = over(counted, seq![w]);
            assert(run.below[0] == w);
            run
        },
        PhysicalView::Project { inner, .. } => {
            let w = counted_run(exec, q, env, *inner, first);
            let run = over(counted, seq![w]);
            assert(run.below[0] == w);
            run
        },
        PhysicalView::Distinct { inner } => {
            let w = counted_run(exec, q, env, *inner, first);
            let run = over(counted, seq![w]);
            assert(run.below[0] == w);
            run
        },
        PhysicalView::Slice { inner, .. } => {
            let w = counted_run(exec, q, env, *inner, first);
            let run = over(counted, seq![w]);
            assert(run.below[0] == w);
            run
        },
        PhysicalView::OrderBy { inner, .. } => {
            let w = counted_run(exec, q, env, *inner, first);
            let run = over(counted, seq![w]);
            assert(run.below[0] == w);
            run
        },
        PhysicalView::Extend { inner, .. } => {
            let w = counted_run(exec, q, env, *inner, first);
            let run = over(counted, seq![w]);
            assert(run.below[0] == w);
            run
        },
        PhysicalView::Group { inner, keys, aggregates } => {
            if let PhysicalView::BgpScan { patterns, scope } = *inner {
                if keys.len() == 0 && aggregates.len() == 1 && counts_solutions(
                    aggregates[0],
                    bgp_vars(patterns),
                ) {
                    let c = counted.scanned;
                    let w = made_of(c, Seq::empty());
                    assert(is_run(exec, q, env, *inner, w));
                    count_is_a_group(exec, patterns, aggregates[0], c);
                    assert(keys =~= Seq::empty());
                    assert(aggregates =~= seq![aggregates[0]]);
                    let run = over(counted, seq![w]);
                    assert(run.below[0] == w);
                    run
                } else {
                    counted
                }
            } else {
                let w = counted_run(exec, q, env, *inner, first);
                let run = over(counted, seq![w]);
                assert(run.below[0] == w);
                run
            }
        },
        PhysicalView::PerGraph { var, inner } => {
            let n = counted.graphs.len();
            let below = Seq::new(
                n,
                |i: int|
                    choose|w: Run|
                        gives(
                            exec,
                            q,
                            env.insert(var, counted.graphs[i].iri),
                            *inner,
                            counted.below[i].out,
                            w,
                        ),
            );
            assert forall|i: int| 0 <= i < n implies gives(
                exec,
                q,
                env.insert(var, counted.graphs[i].iri),
                *inner,
                counted.below[i].out,
                #[trigger] below[i],
            ) by {
                let at = env.insert(var, counted.graphs[i].iri);
                assert(is_run(exec, q, at, push_aggregates_view(*inner), counted.below[i]));
                let w = counted_run(exec, q, at, *inner, counted.below[i]);
                assert(gives(exec, q, at, *inner, counted.below[i].out, w));
            }
            let run = over(counted, below);
            assert(outs(run.below) =~= outs(counted.below));
            assert forall|i: int| 0 <= i < n implies is_run(
                exec,
                q,
                env.insert(var, run.graphs[i].iri),
                *inner,
                #[trigger] run.below[i],
            ) by {
                assert(gives(
                    exec,
                    q,
                    env.insert(var, counted.graphs[i].iri),
                    *inner,
                    counted.below[i].out,
                    below[i],
                ));
            }
            run
        },
        PhysicalView::PathClosure { edge, .. } => {
            let w = counted_run(exec, q, env, *edge, first);
            let run = over(counted, seq![w]);
            assert(run.below[0] == w);
            run
        },
    }
}

// ── The law ─────────────────────────────────────────────────────────────────

/// Pruning changes no answer: what a narrowed plan yields, row by row and in
/// order, the plan itself yields.
pub proof fn pruning_keeps_the_answers<E: Executor>(
    exec: &E,
    q: QueryView,
    env: Map<Text, Text>,
    plan: PhysicalView,
    out: BatchView,
) -> (b: BatchView)
    requires
        names_columns(plan),
        yields(exec, q, env, narrowed_view(plan), out),
    ensures
        yields(exec, q, env, plan, b),
        solutions(exec.dict(), out) == solutions(exec.dict(), b),
{
    reveal(yields);
    let want = output_view(plan).to_set();
    let all = Set::<Text>::full();
    let pruned = choose|run: Run| #[trigger]
        is_run(exec, q, env, narrowed_view(plan), run) && run.out == out;
    let run = match plan {
        PhysicalView::Project { vars, inner } => {
            let w = pruned_run(exec, q, env, *inner, vars.to_set(), pruned.below[0]);
            project_is_determined(pruned.below[0].out, w.out, vars);
            let run = made_of(project_batch(w.out, vars), seq![w]);
            assert(run.below[0] == w);
            assert(is_run(exec, q, env, plan, run));
            run_fits(exec, q, env, plan, run);
            run
        },
        _ => {
            let run = pruned_run(exec, q, env, plan, want, pruned);
            agrees_throughout(exec, q, env, plan, pruned, run);
            run
        },
    };
    assert(narrows(out, run.out, all));
    let d = exec.dict();
    assert forall|i: int| 0 <= i < out.rows.len() implies solutions(d, out)[i] == solutions(
        d,
        run.out,
    )[i] by {
        same_solution(d, out, run.out, i);
    }
    assert(solutions(d, out) =~= solutions(d, run.out));
    assert(is_run(exec, q, env, plan, run));
    run.out
}

/// The rewrite before execution changes no answer: the solutions that the
/// rewritten plan yields, row by row and in order, are solutions that the plan
/// itself yields. Every name of the plan is to stand for one column, and for a
/// lone one where its distinct values are counted.
pub proof fn rewriting_keeps_the_answers<E: Executor>(
    exec: &E,
    q: QueryView,
    env: Map<Text, Text>,
    plan: PhysicalView,
    out: BatchView,
) -> (b: BatchView)
    requires
        names_columns(plan),
        yields(exec, q, env, rewritten(plan), out),
    ensures
        yields(exec, q, env, plan, b),
        solutions(exec.dict(), out) == solutions(exec.dict(), b),
{
    let counted = push_aggregates_view(plan);
    counted_names_columns(plan);
    let wide = pruning_keeps_the_answers(exec, q, env, counted, out);
    reveal(yields);
    let run = counted_run(
        exec,
        q,
        env,
        plan,
        choose|run: Run| #[trigger] is_run(exec, q, env, counted, run) && run.out == wide,
    );
    assert(is_run(exec, q, env, plan, run));
    run.out
}

}
