//! The physical rewrite that runs before execution: counts over a bare scan
//! become count leaves, and columns no ancestor reads are dropped.
//!
//! The root demands its own full output, so it is never narrowed. `DISTINCT`,
//! `MINUS`, the per-graph node and a path closure are barriers: their children
//! keep every column. A node that reads more columns than its parent demands
//! evaluates wide and is then projected back.

use crate::algebra::{
    aggregates_view, clone_vars, names, opt_expr_view, AggFunc, AggFuncView, Aggregate,
    AggregateView, Expr, ExprView, Term, TermView, Var,
};
use crate::collections::NameSet;
use crate::error::SparqlError;
use crate::exec::refs::{referenced_vars, refs};
use crate::plan::passes::projection_pushdown::{
    add_order_refs, add_shared_keys, demand_of_group, group_demand, intersect, keep, kept_vars,
    narrows_to, opt_refs, order_refs, restricts, with_shared,
};
use crate::plan::passes::{
    add_all_unique, add_unique, agg_outs, bgp_vars, endpoint_vars, endpoints, group_vars, has_var,
    patterns_vars, push_all_unique, push_unique,
};
use crate::plan::{PhysicalPlan, PhysicalView};
use crate::text::Text;
use vstd::prelude::*;

verus! {

/// A node's natural output columns, in a fixed order.
pub open spec fn output_view(node: PhysicalView) -> Seq<Text>
    decreases node,
{
    match node {
        PhysicalView::BgpScan { patterns, .. } => bgp_vars(patterns),
        PhysicalView::CountScan { out_var, .. } => seq![out_var],
        PhysicalView::GroupCountScan { keys, out_vars, .. } => add_all_unique(
            add_all_unique(Seq::empty(), keys),
            out_vars,
        ),
        PhysicalView::Join { left, right } => add_all_unique(
            output_view(*left),
            output_view(*right),
        ),
        PhysicalView::LeftJoin { left, right, .. } => add_all_unique(
            output_view(*left),
            output_view(*right),
        ),
        PhysicalView::Union { left, right } => add_all_unique(
            output_view(*left),
            output_view(*right),
        ),
        PhysicalView::Minus { left, .. } => output_view(*left),
        PhysicalView::Filter { inner, .. } => output_view(*inner),
        PhysicalView::Distinct { inner } => output_view(*inner),
        PhysicalView::Slice { inner, .. } => output_view(*inner),
        PhysicalView::OrderBy { inner, .. } => output_view(*inner),
        PhysicalView::Project { vars, .. } => vars,
        PhysicalView::Extend { inner, var, .. } => add_unique(output_view(*inner), var),
        PhysicalView::Values { vars, .. } => vars,
        PhysicalView::Group { keys, aggregates, .. } => add_all_unique(keys, agg_outs(aggregates)),
        PhysicalView::PerGraph { var, inner } => add_unique(output_view(*inner), var),
        PhysicalView::PathClosure { subject, object, .. } => endpoint_vars(
            object,
            endpoint_vars(subject, Seq::empty()),
        ),
    }
}

/// A node's natural output variables.
pub fn output_vars(node: &PhysicalPlan) -> (out: Vec<Var>)
    ensures
        names(out@) == output_view(node@),
    decreases node,
{
    match node {
        PhysicalPlan::BgpScan { patterns, .. } => patterns_vars(patterns),
        PhysicalPlan::CountScan { out_var, .. } => {
            let out = vec![out_var.clone()];
            assert(names(out@) =~= seq![out_var@]);
            out
        },
        PhysicalPlan::GroupCountScan { keys, out_vars, .. } => {
            let mut out: Vec<Var> = Vec::new();
            assert(names(out@) =~= Seq::<Text>::empty());
            push_all_unique(&mut out, keys);
            push_all_unique(&mut out, out_vars);
            out
        },
        PhysicalPlan::Join { left, right } | PhysicalPlan::LeftJoin { left, right, .. }
        | PhysicalPlan::Union { left, right } => {
            let mut out = output_vars(left);
            let r = output_vars(right);
            push_all_unique(&mut out, &r);
            out
        },
        PhysicalPlan::Minus { left, .. } => output_vars(left),
        PhysicalPlan::Filter { inner, .. } | PhysicalPlan::Distinct { inner } | PhysicalPlan::Slice {
            inner,
            ..
        } | PhysicalPlan::OrderBy { inner, .. } => output_vars(inner),
        PhysicalPlan::Project { vars, .. } => clone_vars(vars),
        PhysicalPlan::Extend { inner, var, .. } => {
            let mut out = output_vars(inner);
            push_unique(&mut out, var);
            out
        },
        PhysicalPlan::Values { vars, .. } => clone_vars(vars),
        PhysicalPlan::Group { keys, aggregates, .. } => group_vars(keys, aggregates),
        PhysicalPlan::PerGraph { var, inner } => {
            let mut out = output_vars(inner);
            push_unique(&mut out, var);
            out
        },
        PhysicalPlan::PathClosure { subject, object, .. } => endpoints(subject, object),
    }
}

// ── Counts over a bare scan ─────────────────────────────────────────────────

/// Does the aggregate count every solution of a pattern with the given
/// variables? A pattern binds each of its variables in every solution, so
/// counting one of them counts the solutions.
pub open spec fn counts_solutions(agg: AggregateView, vars: Seq<Text>) -> bool {
    !agg.distinct && match agg.func {
        AggFuncView::CountStar => true,
        AggFuncView::Count(ExprView::Term(TermView::Var(v))) => vars.contains(v),
        _ => false,
    }
}

/// A plan with every ungrouped count over a bare scan turned into a count
/// leaf.
pub open spec fn push_aggregates_view(plan: PhysicalView) -> PhysicalView
    decreases plan, 1int,
{
    match plan {
        PhysicalView::Group { inner, keys, aggregates } => match *inner {
            PhysicalView::BgpScan { patterns, scope } => if keys.len() == 0 && aggregates.len() == 1
                && counts_solutions(aggregates[0], bgp_vars(patterns)) {
                PhysicalView::CountScan { patterns, scope, out_var: aggregates[0].out }
            } else {
                plan
            },
            _ => map_children_view(plan),
        },
        _ => map_children_view(plan),
    }
}

/// A node with its children rewritten.
pub open spec fn map_children_view(node: PhysicalView) -> PhysicalView
    decreases node, 0int,
{
    match node {
        PhysicalView::BgpScan { .. } => node,
        PhysicalView::CountScan { .. } => node,
        PhysicalView::GroupCountScan { .. } => node,
        PhysicalView::Values { .. } => node,
        PhysicalView::Join { left, right } => PhysicalView::Join {
            left: Box::new(push_aggregates_view(*left)),
            right: Box::new(push_aggregates_view(*right)),
        },
        PhysicalView::Minus { left, right } => PhysicalView::Minus {
            left: Box::new(push_aggregates_view(*left)),
            right: Box::new(push_aggregates_view(*right)),
        },
        PhysicalView::Union { left, right } => PhysicalView::Union {
            left: Box::new(push_aggregates_view(*left)),
            right: Box::new(push_aggregates_view(*right)),
        },
        PhysicalView::LeftJoin { left, right, expr } => PhysicalView::LeftJoin {
            left: Box::new(push_aggregates_view(*left)),
            right: Box::new(push_aggregates_view(*right)),
            expr,
        },
        PhysicalView::Filter { expr, inner } => PhysicalView::Filter {
            expr,
            inner: Box::new(push_aggregates_view(*inner)),
        },
        PhysicalView::Project { vars, inner } => PhysicalView::Project {
            vars,
            inner: Box::new(push_aggregates_view(*inner)),
        },
        PhysicalView::Distinct { inner } => PhysicalView::Distinct {
            inner: Box::new(push_aggregates_view(*inner)),
        },
        PhysicalView::Slice { inner, start, length } => PhysicalView::Slice {
            inner: Box::new(push_aggregates_view(*inner)),
            start,
            length,
        },
        PhysicalView::OrderBy { inner, keys } => PhysicalView::OrderBy {
            inner: Box::new(push_aggregates_view(*inner)),
            keys,
        },
        PhysicalView::Extend { inner, var, expr } => PhysicalView::Extend {
            inner: Box::new(push_aggregates_view(*inner)),
            var,
            expr,
        },
        PhysicalView::Group { inner, keys, aggregates } => PhysicalView::Group {
            inner: Box::new(push_aggregates_view(*inner)),
            keys,
            aggregates,
        },
        PhysicalView::PerGraph { var, inner } => PhysicalView::PerGraph {
            var,
            inner: Box::new(push_aggregates_view(*inner)),
        },
        PhysicalView::PathClosure { subject, object, edge, reflexive } => PhysicalView::PathClosure {
            subject,
            object,
            edge: Box::new(push_aggregates_view(*edge)),
            reflexive,
        },
    }
}


fn is_solution_count(agg: &Aggregate, vars: &Vec<Var>) -> (r: bool)
    ensures
        r == counts_solutions(agg@, names(vars@)),
{
    !agg.distinct && match &agg.func {
        AggFunc::CountStar => true,
        AggFunc::Count(e) => match &**e {
            Expr::Term(Term::Var(v)) => has_var(vars, v),
            _ => false,
        },
        _ => false,
    }
}

/// Turns every ungrouped count over a bare scan into a count leaf.
pub fn push_aggregates(plan: PhysicalPlan) -> (r: PhysicalPlan)
    ensures
        r@ == push_aggregates_view(plan@),
    decreases plan, 1int,
{
    match plan {
        PhysicalPlan::Group { inner, keys, aggregates } => match *inner {
            PhysicalPlan::BgpScan { patterns, scope } => {
                let vars = patterns_vars(&patterns);
                proof {
                    reveal_with_fuel(PhysicalPlan::view, 3);
                }
                assert(names(keys@).len() == keys@.len());
                let ghost av = aggregates_view(aggregates@);
                assert(av.len() == aggregates@.len());
                assert(aggregates@.len() == 1 ==> av[0] == aggregates@[0]@);
                if keys.len() == 0 && aggregates.len() == 1 && is_solution_count(
                    &aggregates[0],
                    &vars,
                ) {
                    let out_var = aggregates[0].out.clone();
                    PhysicalPlan::CountScan { patterns, scope, out_var }
                } else {
                    PhysicalPlan::Group {
                        inner: Box::new(PhysicalPlan::BgpScan { patterns, scope }),
                        keys,
                        aggregates,
                    }
                }
            },
            other => {
                let inner = Box::new(push_aggregates(other));
                PhysicalPlan::Group { inner, keys, aggregates }
            },
        },
        other => map_children(other),
    }
}

/// Rewrites each direct child of `node` and rebuilds `node` around them.
fn map_children(node: PhysicalPlan) -> (r: PhysicalPlan)
    ensures
        r@ == map_children_view(node@),
    decreases node, 0int,
{
    match node {
        PhysicalPlan::BgpScan { patterns, scope } => PhysicalPlan::BgpScan { patterns, scope },
        PhysicalPlan::CountScan { patterns, scope, out_var } => PhysicalPlan::CountScan {
            patterns,
            scope,
            out_var,
        },
        PhysicalPlan::GroupCountScan { patterns, scope, keys, out_vars } =>
            PhysicalPlan::GroupCountScan { patterns, scope, keys, out_vars },
        PhysicalPlan::Values { vars, rows } => PhysicalPlan::Values { vars, rows },
        PhysicalPlan::Join { left, right } => PhysicalPlan::Join {
            left: Box::new(push_aggregates(*left)),
            right: Box::new(push_aggregates(*right)),
        },
        PhysicalPlan::Minus { left, right } => PhysicalPlan::Minus {
            left: Box::new(push_aggregates(*left)),
            right: Box::new(push_aggregates(*right)),
        },
        PhysicalPlan::Union { left, right } => PhysicalPlan::Union {
            left: Box::new(push_aggregates(*left)),
            right: Box::new(push_aggregates(*right)),
        },
        PhysicalPlan::LeftJoin { left, right, expr } => PhysicalPlan::LeftJoin {
            left: Box::new(push_aggregates(*left)),
            right: Box::new(push_aggregates(*right)),
            expr,
        },
        PhysicalPlan::Filter { expr, inner } => PhysicalPlan::Filter {
            expr,
            inner: Box::new(push_aggregates(*inner)),
        },
        PhysicalPlan::Project { vars, inner } => PhysicalPlan::Project {
            vars,
            inner: Box::new(push_aggregates(*inner)),
        },
        PhysicalPlan::Distinct { inner } => PhysicalPlan::Distinct {
            inner: Box::new(push_aggregates(*inner)),
        },
        PhysicalPlan::Slice { inner, start, length } => PhysicalPlan::Slice {
            inner: Box::new(push_aggregates(*inner)),
            start,
            length,
        },
        PhysicalPlan::OrderBy { inner, keys } => PhysicalPlan::OrderBy {
            inner: Box::new(push_aggregates(*inner)),
            keys,
        },
        PhysicalPlan::Extend { inner, var, expr } => PhysicalPlan::Extend {
            inner: Box::new(push_aggregates(*inner)),
            var,
            expr,
        },
        PhysicalPlan::Group { inner, keys, aggregates } => PhysicalPlan::Group {
            inner: Box::new(push_aggregates(*inner)),
            keys,
            aggregates,
        },
        PhysicalPlan::PerGraph { var, inner } => PhysicalPlan::PerGraph {
            var,
            inner: Box::new(push_aggregates(*inner)),
        },
        PhysicalPlan::PathClosure { subject, object, edge, reflexive } => PhysicalPlan::PathClosure {
            subject,
            object,
            edge: Box::new(push_aggregates(*edge)),
            reflexive,
        },
    }
}


// ── Column pruning ──────────────────────────────────────────────────────────

/// `node` restricted to its demanded columns, where that drops some column
/// and keeps at least one: an empty projection would mean every column.
pub open spec fn restrict_view(node: PhysicalView, demanded: Set<Text>) -> PhysicalView {
    let natural = output_view(node);
    let kept = keep(natural, demanded);
    if kept.len() < natural.len() && kept.len() > 0 {
        PhysicalView::Project { vars: kept, inner: Box::new(node) }
    } else {
        node
    }
}

/// Can a projection be put on a node to drop columns that are not demanded?
pub open spec fn can_narrow(node: PhysicalView) -> bool {
    node is BgpScan || node is Values || node is Filter || node is Join || node is LeftJoin
        || node is OrderBy || node is Extend
}

/// Is a projection of `inner` the one that restricts it to the demanded
/// columns?
pub open spec fn is_narrowed(vars: Seq<Text>, inner: PhysicalView, demanded: Set<Text>) -> bool {
    can_narrow(inner) && narrows_to(output_view(inner), demanded, vars)
}

/// A plan narrowed to the demanded columns. A projection that restricts a node
/// to just these is not put twice.
pub open spec fn prune_view(node: PhysicalView, demanded: Set<Text>) -> PhysicalView
    decreases node,
{
    match node {
        PhysicalView::BgpScan { .. } => restrict_view(node, demanded),
        PhysicalView::CountScan { .. } => node,
        PhysicalView::GroupCountScan { .. } => node,
        PhysicalView::Values { .. } => restrict_view(node, demanded),
        PhysicalView::Project { vars, inner } => if is_narrowed(vars, *inner, demanded) {
            prune_view(*inner, demanded)
        } else {
            PhysicalView::Project { vars, inner: Box::new(prune_view(*inner, vars.to_set())) }
        },
        PhysicalView::Filter { expr, inner } => restrict_view(
            PhysicalView::Filter {
                expr,
                inner: Box::new(prune_view(*inner, demanded.union(refs(expr)))),
            },
            demanded,
        ),
        PhysicalView::Join { left, right } => {
            let (lo, ro) = (output_view(*left), output_view(*right));
            let base = with_shared(demanded, lo, ro);
            restrict_view(
                PhysicalView::Join {
                    left: Box::new(prune_view(*left, base.intersect(lo.to_set()))),
                    right: Box::new(prune_view(*right, base.intersect(ro.to_set()))),
                },
                demanded,
            )
        },
        PhysicalView::LeftJoin { left, right, expr } => {
            let (lo, ro) = (output_view(*left), output_view(*right));
            let base = with_shared(demanded, lo, ro).union(opt_refs(expr));
            restrict_view(
                PhysicalView::LeftJoin {
                    left: Box::new(prune_view(*left, base.intersect(lo.to_set()))),
                    right: Box::new(prune_view(*right, base.intersect(ro.to_set()))),
                    expr,
                },
                demanded,
            )
        },
        PhysicalView::Minus { left, right } => PhysicalView::Minus {
            left: Box::new(prune_view(*left, output_view(*left).to_set())),
            right: Box::new(prune_view(*right, output_view(*right).to_set())),
        },
        PhysicalView::Union { left, right } => PhysicalView::Union {
            left: Box::new(prune_view(*left, demanded)),
            right: Box::new(prune_view(*right, demanded)),
        },
        PhysicalView::Distinct { inner } => PhysicalView::Distinct {
            inner: Box::new(prune_view(*inner, output_view(*inner).to_set())),
        },
        PhysicalView::Slice { inner, start, length } => PhysicalView::Slice {
            inner: Box::new(prune_view(*inner, demanded)),
            start,
            length,
        },
        PhysicalView::OrderBy { inner, keys } => restrict_view(
            PhysicalView::OrderBy {
                inner: Box::new(prune_view(*inner, demanded.union(order_refs(keys)))),
                keys,
            },
            demanded,
        ),
        PhysicalView::Extend { inner, var, expr } => restrict_view(
            PhysicalView::Extend {
                inner: Box::new(prune_view(*inner, demanded.remove(var).union(refs(expr)))),
                var,
                expr,
            },
            demanded,
        ),
        PhysicalView::Group { inner, keys, aggregates } => PhysicalView::Group {
            inner: Box::new(
                prune_view(*inner, group_demand(output_view(*inner), keys, aggregates)),
            ),
            keys,
            aggregates,
        },
        PhysicalView::PerGraph { var, inner } => PhysicalView::PerGraph {
            var,
            inner: Box::new(prune_view(*inner, output_view(*inner).to_set())),
        },
        PhysicalView::PathClosure { subject, object, edge, reflexive } => PhysicalView::PathClosure {
            subject,
            object,
            edge: Box::new(prune_view(*edge, output_view(*edge).to_set())),
            reflexive,
        },
    }
}


/// A plan narrowed below its root, which demands its own full output and is
/// itself never narrowed.
pub open spec fn narrowed_view(plan: PhysicalView) -> PhysicalView {
    match plan {
        PhysicalView::Project { vars, inner } => PhysicalView::Project {
            vars,
            inner: Box::new(prune_view(*inner, vars.to_set())),
        },
        _ => prune_view(plan, output_view(plan).to_set()),
    }
}

fn narrowable(node: &PhysicalPlan) -> (r: bool)
    ensures
        r == can_narrow(node@),
{
    match node {
        PhysicalPlan::BgpScan { .. } | PhysicalPlan::Values { .. } | PhysicalPlan::Filter { .. }
        | PhysicalPlan::Join { .. } | PhysicalPlan::LeftJoin { .. } | PhysicalPlan::OrderBy { .. }
        | PhysicalPlan::Extend { .. } => true,
        _ => false,
    }
}

fn wrap_if_wider(node: PhysicalPlan, demanded: &NameSet) -> (r: PhysicalPlan)
    ensures
        r@ == restrict_view(node@, demanded@),
{
    let natural = output_vars(&node);
    let kept = kept_vars(&natural, demanded);
    assert(names(kept@).len() == kept@.len());
    assert(names(natural@).len() == natural@.len());
    if kept.len() < natural.len() && kept.len() > 0 {
        PhysicalPlan::Project { vars: kept, inner: Box::new(node) }
    } else {
        node
    }
}

fn prune(node: PhysicalPlan, demanded: &NameSet) -> (r: PhysicalPlan)
    ensures
        r@ == prune_view(node@, demanded@),
    decreases node,
{
    match node {
        PhysicalPlan::BgpScan { patterns, scope } => wrap_if_wider(
            PhysicalPlan::BgpScan { patterns, scope },
            demanded,
        ),
        PhysicalPlan::CountScan { patterns, scope, out_var } => PhysicalPlan::CountScan {
            patterns,
            scope,
            out_var,
        },
        PhysicalPlan::GroupCountScan { patterns, scope, keys, out_vars } =>
            PhysicalPlan::GroupCountScan { patterns, scope, keys, out_vars },
        PhysicalPlan::Values { vars, rows } => wrap_if_wider(
            PhysicalPlan::Values { vars, rows },
            demanded,
        ),
        PhysicalPlan::Project { vars, inner } => {
            if narrowable(&inner) && restricts(&output_vars(&inner), demanded, &vars) {
                prune(*inner, demanded)
            } else {
                let want = NameSet::of_vars(&vars);
                PhysicalPlan::Project { vars, inner: Box::new(prune(*inner, &want)) }
            }
        },
        PhysicalPlan::Filter { expr, inner } => {
            let mut d = demanded.clone();
            referenced_vars(&expr, &mut d);
            let pi = prune(*inner, &d);
            wrap_if_wider(PhysicalPlan::Filter { expr, inner: Box::new(pi) }, demanded)
        },
        PhysicalPlan::Join { left, right } => {
            let lo = output_vars(&left);
            let ro = output_vars(&right);
            let base = add_shared_keys(demanded, &lo, &ro);
            let pl = prune(*left, &intersect(&base, &lo));
            let pr = prune(*right, &intersect(&base, &ro));
            wrap_if_wider(PhysicalPlan::Join { left: Box::new(pl), right: Box::new(pr) }, demanded)
        },
        PhysicalPlan::LeftJoin { left, right, expr } => {
            let lo = output_vars(&left);
            let ro = output_vars(&right);
            let mut base = add_shared_keys(demanded, &lo, &ro);
            if let Some(e) = &expr {
                referenced_vars(e, &mut base);
            }
            assert(base@ =~= with_shared(demanded@, names(lo@), names(ro@)).union(
                opt_refs(opt_expr_view(expr)),
            ));
            let pl = prune(*left, &intersect(&base, &lo));
            let pr = prune(*right, &intersect(&base, &ro));
            wrap_if_wider(
                PhysicalPlan::LeftJoin { left: Box::new(pl), right: Box::new(pr), expr },
                demanded,
            )
        },
        PhysicalPlan::Minus { left, right } => {
            let lo = NameSet::of_vars(&output_vars(&left));
            let ro = NameSet::of_vars(&output_vars(&right));
            PhysicalPlan::Minus {
                left: Box::new(prune(*left, &lo)),
                right: Box::new(prune(*right, &ro)),
            }
        },
        PhysicalPlan::Union { left, right } => PhysicalPlan::Union {
            left: Box::new(prune(*left, demanded)),
            right: Box::new(prune(*right, demanded)),
        },
        PhysicalPlan::Distinct { inner } => {
            let all = NameSet::of_vars(&output_vars(&inner));
            PhysicalPlan::Distinct { inner: Box::new(prune(*inner, &all)) }
        },
        PhysicalPlan::Slice { inner, start, length } => PhysicalPlan::Slice {
            inner: Box::new(prune(*inner, demanded)),
            start,
            length,
        },
        PhysicalPlan::OrderBy { inner, keys } => {
            let mut d = demanded.clone();
            add_order_refs(&keys, &mut d);
            let pi = prune(*inner, &d);
            wrap_if_wider(PhysicalPlan::OrderBy { inner: Box::new(pi), keys }, demanded)
        },
        PhysicalPlan::Extend { inner, var, expr } => {
            let mut d = demanded.clone();
            d.remove(var.name());
            referenced_vars(&expr, &mut d);
            let pi = prune(*inner, &d);
            wrap_if_wider(PhysicalPlan::Extend { inner: Box::new(pi), var, expr }, demanded)
        },
        PhysicalPlan::Group { inner, keys, aggregates } => {
            let all = output_vars(&inner);
            let d = demand_of_group(&all, &keys, &aggregates);
            PhysicalPlan::Group { inner: Box::new(prune(*inner, &d)), keys, aggregates }
        },
        PhysicalPlan::PerGraph { var, inner } => {
            let all = NameSet::of_vars(&output_vars(&inner));
            PhysicalPlan::PerGraph { var, inner: Box::new(prune(*inner, &all)) }
        },
        PhysicalPlan::PathClosure { subject, object, edge, reflexive } => {
            let all = NameSet::of_vars(&output_vars(&edge));
            PhysicalPlan::PathClosure {
                subject,
                object,
                edge: Box::new(prune(*edge, &all)),
                reflexive,
            }
        },
    }
}

/// The plan that is executed in place of `plan`.
pub open spec fn rewritten(plan: PhysicalView) -> PhysicalView {
    narrowed_view(push_aggregates_view(plan))
}

/// Rewrites a plan for execution. The rewrite never fails.
pub fn rewrite(plan: &PhysicalPlan) -> (r: Result<PhysicalPlan, SparqlError>)
    ensures
        r matches Ok(p) && p@ == rewritten(plan@),
{
    match push_aggregates(plan.clone()) {
        PhysicalPlan::Project { vars, inner } => {
            let want = NameSet::of_vars(&vars);
            Ok(PhysicalPlan::Project { vars, inner: Box::new(prune(*inner, &want)) })
        },
        counted => {
            let demanded = NameSet::of_vars(&output_vars(&counted));
            Ok(prune(counted, &demanded))
        },
    }
}

}
