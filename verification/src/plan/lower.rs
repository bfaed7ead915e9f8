//! Lowering: algebra tree to logical plan, and logical plan to physical plan.
//!
//! Lowering the algebra is one-to-one: no coalescing and no folding. It is
//! also where the `GRAPH` scope lands. A `GRAPH` block replaces the scope for
//! its whole subtree, so every scan leaf beneath it is built already scoped
//! and a nested block overrides the outer one. A ground block leaves no node
//! behind; a variable block leaves one per-graph node.

use crate::algebra::{
    clone_aggregates, clone_opt_expr, clone_order_keys, clone_patterns, clone_rows, clone_vars,
    Algebra, AlgebraView, GraphScope, GraphScopeView, GraphSpec, GraphSpecView,
};
use crate::error::SparqlError;
use crate::plan::logical::{LogicalPlan, LogicalView};
use crate::plan::{PhysicalPlan, PhysicalView};
use vstd::prelude::*;

verus! {

/// The logical plan of an algebra tree under a graph scope.
pub open spec fn lower_view(alg: AlgebraView, scope: GraphScopeView) -> LogicalView
    decreases alg,
{
    match alg {
        AlgebraView::Bgp { patterns } => LogicalView::Bgp { patterns, scope },
        AlgebraView::Join { left, right } => LogicalView::Join {
            left: Box::new(lower_view(*left, scope)),
            right: Box::new(lower_view(*right, scope)),
        },
        AlgebraView::Minus { left, right } => LogicalView::Minus {
            left: Box::new(lower_view(*left, scope)),
            right: Box::new(lower_view(*right, scope)),
        },
        AlgebraView::Union { left, right } => LogicalView::Union {
            left: Box::new(lower_view(*left, scope)),
            right: Box::new(lower_view(*right, scope)),
        },
        AlgebraView::LeftJoin { left, right, expr } => LogicalView::LeftJoin {
            left: Box::new(lower_view(*left, scope)),
            right: Box::new(lower_view(*right, scope)),
            expr,
        },
        AlgebraView::Filter { expr, inner } => LogicalView::Filter {
            expr,
            inner: Box::new(lower_view(*inner, scope)),
        },
        AlgebraView::Project { vars, inner } => LogicalView::Project {
            vars,
            inner: Box::new(lower_view(*inner, scope)),
        },
        AlgebraView::Distinct { inner } => LogicalView::Distinct {
            inner: Box::new(lower_view(*inner, scope)),
        },
        AlgebraView::Slice { inner, start, length } => LogicalView::Slice {
            inner: Box::new(lower_view(*inner, scope)),
            start,
            length,
        },
        AlgebraView::OrderBy { inner, keys } => LogicalView::OrderBy {
            inner: Box::new(lower_view(*inner, scope)),
            keys,
        },
        AlgebraView::Extend { inner, var, expr } => LogicalView::Extend {
            inner: Box::new(lower_view(*inner, scope)),
            var,
            expr,
        },
        AlgebraView::Values { vars, rows } => LogicalView::Values { vars, rows },
        AlgebraView::Group { inner, keys, aggregates } => LogicalView::Group {
            inner: Box::new(lower_view(*inner, scope)),
            keys,
            aggregates,
        },
        AlgebraView::PathClosure { subject, object, edge, reflexive } => LogicalView::PathClosure {
            subject,
            object,
            edge: Box::new(lower_view(*edge, scope)),
            reflexive,
        },
        AlgebraView::Graph { name, inner } => {
            let lowered = lower_view(*inner, GraphScopeView::Named(name));
            match name {
                GraphSpecView::Iri(_) => lowered,
                GraphSpecView::Var(v) => LogicalView::PerGraph { var: v, inner: Box::new(lowered) },
            }
        },
    }
}

/// Lowers an algebra tree, starting from the query's default graph. Lowering
/// never fails.
pub fn lower_algebra(alg: &Algebra) -> (r: Result<LogicalPlan, SparqlError>)
    ensures
        r matches Ok(p) && p@ == lower_view(alg@, GraphScopeView::DefaultGraph),
{
    Ok(lower_scoped(alg, &GraphScope::DefaultGraph))
}

fn lower_scoped(alg: &Algebra, scope: &GraphScope) -> (r: LogicalPlan)
    ensures
        r@ == lower_view(alg@, scope@),
    decreases alg,
{
    match alg {
        Algebra::Bgp { patterns } => LogicalPlan::Bgp {
            patterns: clone_patterns(patterns),
            scope: scope.clone(),
        },
        Algebra::Join { left, right } => LogicalPlan::Join {
            left: Box::new(lower_scoped(left, scope)),
            right: Box::new(lower_scoped(right, scope)),
        },
        Algebra::LeftJoin { left, right, expr } => LogicalPlan::LeftJoin {
            left: Box::new(lower_scoped(left, scope)),
            right: Box::new(lower_scoped(right, scope)),
            expr: clone_opt_expr(expr),
        },
        Algebra::Minus { left, right } => LogicalPlan::Minus {
            left: Box::new(lower_scoped(left, scope)),
            right: Box::new(lower_scoped(right, scope)),
        },
        Algebra::Filter { expr, inner } => LogicalPlan::Filter {
            expr: expr.clone(),
            inner: Box::new(lower_scoped(inner, scope)),
        },
        Algebra::Union { left, right } => LogicalPlan::Union {
            left: Box::new(lower_scoped(left, scope)),
            right: Box::new(lower_scoped(right, scope)),
        },
        Algebra::Project { vars, inner } => LogicalPlan::Project {
            vars: clone_vars(vars),
            inner: Box::new(lower_scoped(inner, scope)),
        },
        Algebra::Distinct { inner } => LogicalPlan::Distinct {
            inner: Box::new(lower_scoped(inner, scope)),
        },
        Algebra::Slice { inner, start, length } => LogicalPlan::Slice {
            inner: Box::new(lower_scoped(inner, scope)),
            start: *start,
            length: *length,
        },
        Algebra::OrderBy { inner, keys } => LogicalPlan::OrderBy {
            inner: Box::new(lower_scoped(inner, scope)),
            keys: clone_order_keys(keys),
        },
        Algebra::Extend { inner, var, expr } => LogicalPlan::Extend {
            inner: Box::new(lower_scoped(inner, scope)),
            var: var.clone(),
            expr: expr.clone(),
        },
        Algebra::Values { vars, rows } => LogicalPlan::Values {
            vars: clone_vars(vars),
            rows: clone_rows(rows),
        },
        Algebra::Group { inner, keys, aggregates } => LogicalPlan::Group {
            inner: Box::new(lower_scoped(inner, scope)),
            keys: clone_vars(keys),
            aggregates: clone_aggregates(aggregates),
        },
        Algebra::PathClosure { subject, object, edge, reflexive } => LogicalPlan::PathClosure {
            subject: subject.clone(),
            object: object.clone(),
            edge: Box::new(lower_scoped(edge, scope)),
            reflexive: *reflexive,
        },
        Algebra::Graph { name, inner } => {
            let scope = GraphScope::Named(name.clone());
            let lowered = lower_scoped(inner, &scope);
            match name {
                GraphSpec::Iri(_) => lowered,
                GraphSpec::Var(v) => LogicalPlan::PerGraph {
                    var: v.clone(),
                    inner: Box::new(lowered),
                },
            }
        },
    }
}

/// The physical plan of a logical plan: node for node.
pub open spec fn physical_view(plan: LogicalView) -> PhysicalView
    decreases plan,
{
    match plan {
        LogicalView::Bgp { patterns, scope } => PhysicalView::BgpScan { patterns, scope },
        LogicalView::Join { left, right } => PhysicalView::Join {
            left: Box::new(physical_view(*left)),
            right: Box::new(physical_view(*right)),
        },
        LogicalView::Minus { left, right } => PhysicalView::Minus {
            left: Box::new(physical_view(*left)),
            right: Box::new(physical_view(*right)),
        },
        LogicalView::Union { left, right } => PhysicalView::Union {
            left: Box::new(physical_view(*left)),
            right: Box::new(physical_view(*right)),
        },
        LogicalView::LeftJoin { left, right, expr } => PhysicalView::LeftJoin {
            left: Box::new(physical_view(*left)),
            right: Box::new(physical_view(*right)),
            expr,
        },
        LogicalView::Filter { expr, inner } => PhysicalView::Filter {
            expr,
            inner: Box::new(physical_view(*inner)),
        },
        LogicalView::Project { vars, inner } => PhysicalView::Project {
            vars,
            inner: Box::new(physical_view(*inner)),
        },
        LogicalView::Distinct { inner } => PhysicalView::Distinct {
            inner: Box::new(physical_view(*inner)),
        },
        LogicalView::Slice { inner, start, length } => PhysicalView::Slice {
            inner: Box::new(physical_view(*inner)),
            start,
            length,
        },
        LogicalView::OrderBy { inner, keys } => PhysicalView::OrderBy {
            inner: Box::new(physical_view(*inner)),
            keys,
        },
        LogicalView::Extend { inner, var, expr } => PhysicalView::Extend {
            inner: Box::new(physical_view(*inner)),
            var,
            expr,
        },
        LogicalView::Values { vars, rows } => PhysicalView::Values { vars, rows },
        LogicalView::Group { inner, keys, aggregates } => PhysicalView::Group {
            inner: Box::new(physical_view(*inner)),
            keys,
            aggregates,
        },
        LogicalView::PerGraph { var, inner } => PhysicalView::PerGraph {
            var,
            inner: Box::new(physical_view(*inner)),
        },
        LogicalView::PathClosure { subject, object, edge, reflexive } => PhysicalView::PathClosure {
            subject,
            object,
            edge: Box::new(physical_view(*edge)),
            reflexive,
        },
    }
}

/// Lowers a logical plan to the physical plan the runtime executes.
pub fn lower_physical(plan: LogicalPlan) -> (r: PhysicalPlan)
    ensures
        r@ == physical_view(plan@),
    decreases plan,
{
    match plan {
        LogicalPlan::Bgp { patterns, scope } => PhysicalPlan::BgpScan { patterns, scope },
        LogicalPlan::Join { left, right } => PhysicalPlan::Join {
            left: Box::new(lower_physical(*left)),
            right: Box::new(lower_physical(*right)),
        },
        LogicalPlan::Minus { left, right } => PhysicalPlan::Minus {
            left: Box::new(lower_physical(*left)),
            right: Box::new(lower_physical(*right)),
        },
        LogicalPlan::Union { left, right } => PhysicalPlan::Union {
            left: Box::new(lower_physical(*left)),
            right: Box::new(lower_physical(*right)),
        },
        LogicalPlan::LeftJoin { left, right, expr } => PhysicalPlan::LeftJoin {
            left: Box::new(lower_physical(*left)),
            right: Box::new(lower_physical(*right)),
            expr,
        },
        LogicalPlan::Filter { expr, inner } => PhysicalPlan::Filter {
            expr,
            inner: Box::new(lower_physical(*inner)),
        },
        LogicalPlan::Project { vars, inner } => PhysicalPlan::Project {
            vars,
            inner: Box::new(lower_physical(*inner)),
        },
        LogicalPlan::Distinct { inner } => PhysicalPlan::Distinct {
            inner: Box::new(lower_physical(*inner)),
        },
        LogicalPlan::Slice { inner, start, length } => PhysicalPlan::Slice {
            inner: Box::new(lower_physical(*inner)),
            start,
            length,
        },
        LogicalPlan::OrderBy { inner, keys } => PhysicalPlan::OrderBy {
            inner: Box::new(lower_physical(*inner)),
            keys,
        },
        LogicalPlan::Extend { inner, var, expr } => PhysicalPlan::Extend {
            inner: Box::new(lower_physical(*inner)),
            var,
            expr,
        },
        LogicalPlan::Values { vars, rows } => PhysicalPlan::Values { vars, rows },
        LogicalPlan::Group { inner, keys, aggregates } => PhysicalPlan::Group {
            inner: Box::new(lower_physical(*inner)),
            keys,
            aggregates,
        },
        LogicalPlan::PerGraph { var, inner } => PhysicalPlan::PerGraph {
            var,
            inner: Box::new(lower_physical(*inner)),
        },
        LogicalPlan::PathClosure { subject, object, edge, reflexive } => PhysicalPlan::PathClosure {
            subject,
            object,
            edge: Box::new(lower_physical(*edge)),
            reflexive,
        },
    }
}

}
