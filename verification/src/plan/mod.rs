//! Query plans: the logical tree the passes rewrite and the physical tree the
//! runtime executes.

pub mod closure_route;
pub mod explain;
pub mod explain_laws;
pub mod logical;
pub mod lower;
pub mod pass;
pub mod passes;
pub mod planner;
pub mod pruning;
pub mod pushdown;
pub mod reasoning_catalog;
pub mod types;
pub mod validate;

use crate::algebra::{
    aggregates_view, clone_aggregates, clone_opt_expr, clone_order_keys, clone_patterns, clone_rows,
    clone_vars, names, opt_expr_view, order_keys_view, patterns_view, rows_view, Aggregate,
    AggregateView, Expr, ExprView, GraphScope, GraphScopeView, OrderDir, PatternView, Term,
    TermView, TriplePattern, Var,
};
use crate::text::Text;
use vstd::prelude::*;

verus! {

/// A physical query plan node: one work unit of the runtime.
#[allow(inconsistent_fields)]
#[derive(Debug, PartialEq)]
pub enum PhysicalPlan {
    /// Leaf: scan a basic graph pattern.
    BgpScan { patterns: Vec<TriplePattern>, scope: GraphScope },
    /// A count over a basic graph pattern: one row binding `out_var`.
    CountScan { patterns: Vec<TriplePattern>, scope: GraphScope, out_var: Var },
    /// Grouped counts over a basic graph pattern: one row per group.
    GroupCountScan {
        patterns: Vec<TriplePattern>,
        scope: GraphScope,
        keys: Vec<Var>,
        out_vars: Vec<Var>,
    },
    Join { left: Box<PhysicalPlan>, right: Box<PhysicalPlan> },
    LeftJoin { left: Box<PhysicalPlan>, right: Box<PhysicalPlan>, expr: Option<Expr> },
    Minus { left: Box<PhysicalPlan>, right: Box<PhysicalPlan> },
    Filter { expr: Expr, inner: Box<PhysicalPlan> },
    Union { left: Box<PhysicalPlan>, right: Box<PhysicalPlan> },
    Project { vars: Vec<Var>, inner: Box<PhysicalPlan> },
    Distinct { inner: Box<PhysicalPlan> },
    Slice { inner: Box<PhysicalPlan>, start: usize, length: Option<usize> },
    OrderBy { inner: Box<PhysicalPlan>, keys: Vec<(Expr, OrderDir)> },
    Extend { inner: Box<PhysicalPlan>, var: Var, expr: Expr },
    Values { vars: Vec<Var>, rows: Vec<Vec<Option<Term>>> },
    Group { inner: Box<PhysicalPlan>, keys: Vec<Var>, aggregates: Vec<Aggregate> },
    /// Evaluate `inner` once per named graph and bind `var` to that graph.
    PerGraph { var: Var, inner: Box<PhysicalPlan> },
    /// The transitive (and, when `reflexive`, reflexive) closure of `edge`.
    PathClosure { subject: Term, object: Term, edge: Box<PhysicalPlan>, reflexive: bool },
}

#[allow(inconsistent_fields)]
#[verifier::ext_equal]
pub enum PhysicalView {
    BgpScan { patterns: Seq<PatternView>, scope: GraphScopeView },
    CountScan { patterns: Seq<PatternView>, scope: GraphScopeView, out_var: Text },
    GroupCountScan {
        patterns: Seq<PatternView>,
        scope: GraphScopeView,
        keys: Seq<Text>,
        out_vars: Seq<Text>,
    },
    Join { left: Box<PhysicalView>, right: Box<PhysicalView> },
    LeftJoin { left: Box<PhysicalView>, right: Box<PhysicalView>, expr: Option<ExprView> },
    Minus { left: Box<PhysicalView>, right: Box<PhysicalView> },
    Filter { expr: ExprView, inner: Box<PhysicalView> },
    Union { left: Box<PhysicalView>, right: Box<PhysicalView> },
    Project { vars: Seq<Text>, inner: Box<PhysicalView> },
    Distinct { inner: Box<PhysicalView> },
    Slice { inner: Box<PhysicalView>, start: usize, length: Option<usize> },
    OrderBy { inner: Box<PhysicalView>, keys: Seq<(ExprView, OrderDir)> },
    Extend { inner: Box<PhysicalView>, var: Text, expr: ExprView },
    Values { vars: Seq<Text>, rows: Seq<Seq<Option<TermView>>> },
    Group { inner: Box<PhysicalView>, keys: Seq<Text>, aggregates: Seq<AggregateView> },
    PerGraph { var: Text, inner: Box<PhysicalView> },
    PathClosure { subject: TermView, object: TermView, edge: Box<PhysicalView>, reflexive: bool },
}

impl PhysicalPlan {
    pub open spec fn view(&self) -> PhysicalView
        decreases self,
    {
        match *self {
            PhysicalPlan::BgpScan { patterns, scope } => PhysicalView::BgpScan {
                patterns: patterns_view(patterns@),
                scope: scope@,
            },
            PhysicalPlan::CountScan { patterns, scope, out_var } => PhysicalView::CountScan {
                patterns: patterns_view(patterns@),
                scope: scope@,
                out_var: out_var@,
            },
            PhysicalPlan::GroupCountScan { patterns, scope, keys, out_vars } =>
                PhysicalView::GroupCountScan {
                    patterns: patterns_view(patterns@),
                    scope: scope@,
                    keys: names(keys@),
                    out_vars: names(out_vars@),
                },
            PhysicalPlan::Join { left, right } => PhysicalView::Join {
                left: Box::new(left.view()),
                right: Box::new(right.view()),
            },
            PhysicalPlan::LeftJoin { left, right, expr } => PhysicalView::LeftJoin {
                left: Box::new(left.view()),
                right: Box::new(right.view()),
                expr: opt_expr_view(expr),
            },
            PhysicalPlan::Minus { left, right } => PhysicalView::Minus {
                left: Box::new(left.view()),
                right: Box::new(right.view()),
            },
            PhysicalPlan::Filter { expr, inner } => PhysicalView::Filter {
                expr: expr@,
                inner: Box::new(inner.view()),
            },
            PhysicalPlan::Union { left, right } => PhysicalView::Union {
                left: Box::new(left.view()),
                right: Box::new(right.view()),
            },
            PhysicalPlan::Project { vars, inner } => PhysicalView::Project {
                vars: names(vars@),
                inner: Box::new(inner.view()),
            },
            PhysicalPlan::Distinct { inner } => PhysicalView::Distinct {
                inner: Box::new(inner.view()),
            },
            PhysicalPlan::Slice { inner, start, length } => PhysicalView::Slice {
                inner: Box::new(inner.view()),
                start,
                length,
            },
            PhysicalPlan::OrderBy { inner, keys } => PhysicalView::OrderBy {
                inner: Box::new(inner.view()),
                keys: order_keys_view(keys@),
            },
            PhysicalPlan::Extend { inner, var, expr } => PhysicalView::Extend {
                inner: Box::new(inner.view()),
                var: var@,
                expr: expr@,
            },
            PhysicalPlan::Values { vars, rows } => PhysicalView::Values {
                vars: names(vars@),
                rows: rows_view(rows@),
            },
            PhysicalPlan::Group { inner, keys, aggregates } => PhysicalView::Group {
                inner: Box::new(inner.view()),
                keys: names(keys@),
                aggregates: aggregates_view(aggregates@),
            },
            PhysicalPlan::PerGraph { var, inner } => PhysicalView::PerGraph {
                var: var@,
                inner: Box::new(inner.view()),
            },
            PhysicalPlan::PathClosure { subject, object, edge, reflexive } =>
                PhysicalView::PathClosure {
                    subject: subject@,
                    object: object@,
                    edge: Box::new(edge.view()),
                    reflexive,
                },
        }
    }
}

impl Clone for PhysicalPlan {
    fn clone(&self) -> (r: PhysicalPlan)
        ensures
            r@ == self@,
        decreases self,
    {
        match self {
            PhysicalPlan::BgpScan { patterns, scope } => PhysicalPlan::BgpScan {
                patterns: clone_patterns(patterns),
                scope: scope.clone(),
            },
            PhysicalPlan::CountScan { patterns, scope, out_var } => PhysicalPlan::CountScan {
                patterns: clone_patterns(patterns),
                scope: scope.clone(),
                out_var: out_var.clone(),
            },
            PhysicalPlan::GroupCountScan { patterns, scope, keys, out_vars } =>
                PhysicalPlan::GroupCountScan {
                    patterns: clone_patterns(patterns),
                    scope: scope.clone(),
                    keys: clone_vars(keys),
                    out_vars: clone_vars(out_vars),
                },
            PhysicalPlan::Join { left, right } => PhysicalPlan::Join {
                left: Box::new((&**left).clone()),
                right: Box::new((&**right).clone()),
            },
            PhysicalPlan::Minus { left, right } => PhysicalPlan::Minus {
                left: Box::new((&**left).clone()),
                right: Box::new((&**right).clone()),
            },
            PhysicalPlan::Union { left, right } => PhysicalPlan::Union {
                left: Box::new((&**left).clone()),
                right: Box::new((&**right).clone()),
            },
            PhysicalPlan::LeftJoin { left, right, expr } => PhysicalPlan::LeftJoin {
                left: Box::new((&**left).clone()),
                right: Box::new((&**right).clone()),
                expr: clone_opt_expr(expr),
            },
            PhysicalPlan::Filter { expr, inner } => PhysicalPlan::Filter {
                expr: expr.clone(),
                inner: Box::new((&**inner).clone()),
            },
            PhysicalPlan::Project { vars, inner } => PhysicalPlan::Project {
                vars: clone_vars(vars),
                inner: Box::new((&**inner).clone()),
            },
            PhysicalPlan::Distinct { inner } => PhysicalPlan::Distinct {
                inner: Box::new((&**inner).clone()),
            },
            PhysicalPlan::Slice { inner, start, length } => PhysicalPlan::Slice {
                inner: Box::new((&**inner).clone()),
                start: *start,
                length: *length,
            },
            PhysicalPlan::OrderBy { inner, keys } => PhysicalPlan::OrderBy {
                inner: Box::new((&**inner).clone()),
                keys: clone_order_keys(keys),
            },
            PhysicalPlan::Extend { inner, var, expr } => PhysicalPlan::Extend {
                inner: Box::new((&**inner).clone()),
                var: var.clone(),
                expr: expr.clone(),
            },
            PhysicalPlan::Values { vars, rows } => PhysicalPlan::Values {
                vars: clone_vars(vars),
                rows: clone_rows(rows),
            },
            PhysicalPlan::Group { inner, keys, aggregates } => PhysicalPlan::Group {
                inner: Box::new((&**inner).clone()),
                keys: clone_vars(keys),
                aggregates: clone_aggregates(aggregates),
            },
            PhysicalPlan::PerGraph { var, inner } => PhysicalPlan::PerGraph {
                var: var.clone(),
                inner: Box::new((&**inner).clone()),
            },
            PhysicalPlan::PathClosure { subject, object, edge, reflexive } =>
                PhysicalPlan::PathClosure {
                    subject: subject.clone(),
                    object: object.clone(),
                    edge: Box::new((&**edge).clone()),
                    reflexive: *reflexive,
                },
        }
    }
}

}
