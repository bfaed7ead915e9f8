//! The logical plan: the tree the optimizer passes rewrite. A basic graph
//! pattern is one flat set of triple patterns, not a tree of binary joins.

use crate::algebra::{
    aggregates_view, clone_aggregates, clone_opt_expr, clone_order_keys, clone_patterns, clone_rows,
    clone_vars, names, opt_expr_view, order_keys_view, patterns_view, rows_view, Aggregate,
    AggregateView, Expr, ExprView, GraphScope, GraphScopeView, OrderDir, PatternView, Term,
    TermView, TriplePattern, Var,
};
use crate::text::{same_text, Text};
use vstd::prelude::*;

verus! {

/// A logical query plan node.
#[allow(inconsistent_fields)]
#[derive(Debug, PartialEq)]
pub enum LogicalPlan {
    /// A flat, n-ary basic graph pattern: all patterns read one graph scope.
    Bgp { patterns: Vec<TriplePattern>, scope: GraphScope },
    Join { left: Box<LogicalPlan>, right: Box<LogicalPlan> },
    LeftJoin { left: Box<LogicalPlan>, right: Box<LogicalPlan>, expr: Option<Expr> },
    Minus { left: Box<LogicalPlan>, right: Box<LogicalPlan> },
    Filter { expr: Expr, inner: Box<LogicalPlan> },
    Union { left: Box<LogicalPlan>, right: Box<LogicalPlan> },
    Project { vars: Vec<Var>, inner: Box<LogicalPlan> },
    Distinct { inner: Box<LogicalPlan> },
    Slice { inner: Box<LogicalPlan>, start: usize, length: Option<usize> },
    OrderBy { inner: Box<LogicalPlan>, keys: Vec<(Expr, OrderDir)> },
    Extend { inner: Box<LogicalPlan>, var: Var, expr: Expr },
    Values { vars: Vec<Var>, rows: Vec<Vec<Option<Term>>> },
    Group { inner: Box<LogicalPlan>, keys: Vec<Var>, aggregates: Vec<Aggregate> },
    /// Evaluate `inner` once per named graph and bind `var` to that graph.
    PerGraph { var: Var, inner: Box<LogicalPlan> },
    /// The transitive (and, when `reflexive`, reflexive) closure of `edge`.
    PathClosure { subject: Term, object: Term, edge: Box<LogicalPlan>, reflexive: bool },
}

#[allow(inconsistent_fields)]
#[verifier::ext_equal]
pub enum LogicalView {
    Bgp { patterns: Seq<PatternView>, scope: GraphScopeView },
    Join { left: Box<LogicalView>, right: Box<LogicalView> },
    LeftJoin { left: Box<LogicalView>, right: Box<LogicalView>, expr: Option<ExprView> },
    Minus { left: Box<LogicalView>, right: Box<LogicalView> },
    Filter { expr: ExprView, inner: Box<LogicalView> },
    Union { left: Box<LogicalView>, right: Box<LogicalView> },
    Project { vars: Seq<Text>, inner: Box<LogicalView> },
    Distinct { inner: Box<LogicalView> },
    Slice { inner: Box<LogicalView>, start: usize, length: Option<usize> },
    OrderBy { inner: Box<LogicalView>, keys: Seq<(ExprView, OrderDir)> },
    Extend { inner: Box<LogicalView>, var: Text, expr: ExprView },
    Values { vars: Seq<Text>, rows: Seq<Seq<Option<TermView>>> },
    Group { inner: Box<LogicalView>, keys: Seq<Text>, aggregates: Seq<AggregateView> },
    PerGraph { var: Text, inner: Box<LogicalView> },
    PathClosure { subject: TermView, object: TermView, edge: Box<LogicalView>, reflexive: bool },
}

impl LogicalPlan {
    pub open spec fn view(&self) -> LogicalView
        decreases self,
    {
        match *self {
            LogicalPlan::Bgp { patterns, scope } => LogicalView::Bgp {
                patterns: patterns_view(patterns@),
                scope: scope@,
            },
            LogicalPlan::Join { left, right } => LogicalView::Join {
                left: Box::new(left.view()),
                right: Box::new(right.view()),
            },
            LogicalPlan::LeftJoin { left, right, expr } => LogicalView::LeftJoin {
                left: Box::new(left.view()),
                right: Box::new(right.view()),
                expr: opt_expr_view(expr),
            },
            LogicalPlan::Minus { left, right } => LogicalView::Minus {
                left: Box::new(left.view()),
                right: Box::new(right.view()),
            },
            LogicalPlan::Filter { expr, inner } => LogicalView::Filter {
                expr: expr@,
                inner: Box::new(inner.view()),
            },
            LogicalPlan::Union { left, right } => LogicalView::Union {
                left: Box::new(left.view()),
                right: Box::new(right.view()),
            },
            LogicalPlan::Project { vars, inner } => LogicalView::Project {
                vars: names(vars@),
                inner: Box::new(inner.view()),
            },
            LogicalPlan::Distinct { inner } => LogicalView::Distinct {
                inner: Box::new(inner.view()),
            },
            LogicalPlan::Slice { inner, start, length } => LogicalView::Slice {
                inner: Box::new(inner.view()),
                start,
                length,
            },
            LogicalPlan::OrderBy { inner, keys } => LogicalView::OrderBy {
                inner: Box::new(inner.view()),
                keys: order_keys_view(keys@),
            },
            LogicalPlan::Extend { inner, var, expr } => LogicalView::Extend {
                inner: Box::new(inner.view()),
                var: var@,
                expr: expr@,
            },
            LogicalPlan::Values { vars, rows } => LogicalView::Values {
                vars: names(vars@),
                rows: rows_view(rows@),
            },
            LogicalPlan::Group { inner, keys, aggregates } => LogicalView::Group {
                inner: Box::new(inner.view()),
                keys: names(keys@),
                aggregates: aggregates_view(aggregates@),
            },
            LogicalPlan::PerGraph { var, inner } => LogicalView::PerGraph {
                var: var@,
                inner: Box::new(inner.view()),
            },
            LogicalPlan::PathClosure { subject, object, edge, reflexive } =>
                LogicalView::PathClosure {
                    subject: subject@,
                    object: object@,
                    edge: Box::new(edge.view()),
                    reflexive,
                },
        }
    }
}

/// The join of two subtrees: flat patterns of equal scope merge into one flat
/// pattern, every other pair keeps a join node.
pub open spec fn join_view(left: LogicalView, right: LogicalView) -> LogicalView {
    match (left, right) {
        (
            LogicalView::Bgp { patterns: l, scope: ls },
            LogicalView::Bgp { patterns: r, scope: rs },
        ) if ls == rs => LogicalView::Bgp { patterns: l + r, scope: ls },
        _ => LogicalView::Join { left: Box::new(left), right: Box::new(right) },
    }
}

/// Is the expression the constant `true`, bare or as a typed literal?
pub open spec fn constant_true(e: ExprView) -> bool {
    match e {
        ExprView::Term(TermView::Literal(s)) => s == "true"@ || s
            == "\"true\"^^<http://www.w3.org/2001/XMLSchema#boolean>"@,
        _ => false,
    }
}

impl LogicalPlan {
    /// A flat pattern over the query's default graph.
    pub fn bgp(patterns: Vec<TriplePattern>) -> (r: LogicalPlan)
        ensures
            r@ == (LogicalView::Bgp {
                patterns: patterns_view(patterns@),
                scope: GraphScopeView::DefaultGraph,
            }),
    {
        LogicalPlan::Bgp { patterns, scope: GraphScope::DefaultGraph }
    }

    /// Joins two subtrees; adjacent flat patterns of equal scope coalesce.
    /// Patterns of different scopes stay apart: one flat pattern is scanned in
    /// one graph.
    pub fn join(left: LogicalPlan, right: LogicalPlan) -> (r: LogicalPlan)
        ensures
            r@ == join_view(left@, right@),
    {
        match (left, right) {
            (
                LogicalPlan::Bgp { patterns: l, scope: ls },
                LogicalPlan::Bgp { patterns: r, scope: rs },
            ) => {
                if ls.same(&rs) {
                    let mut merged = l;
                    let mut tail = r;
                    merged.append(&mut tail);
                    assert(patterns_view(merged@) =~= patterns_view(l@) + patterns_view(r@));
                    LogicalPlan::Bgp { patterns: merged, scope: ls }
                } else {
                    LogicalPlan::Join {
                        left: Box::new(LogicalPlan::Bgp { patterns: l, scope: ls }),
                        right: Box::new(LogicalPlan::Bgp { patterns: r, scope: rs }),
                    }
                }
            },
            (left, right) => LogicalPlan::Join { left: Box::new(left), right: Box::new(right) },
        }
    }

    /// Filters a subtree; a constant-true predicate leaves the subtree as it is.
    pub fn filter(expr: Expr, inner: LogicalPlan) -> (r: LogicalPlan)
        ensures
            r@ == (if constant_true(expr@) {
                inner@
            } else {
                LogicalView::Filter { expr: expr@, inner: Box::new(inner@) }
            }),
    {
        if is_constant_true(&expr) {
            inner
        } else {
            LogicalPlan::Filter { expr, inner: Box::new(inner) }
        }
    }

    pub fn union(left: LogicalPlan, right: LogicalPlan) -> (r: LogicalPlan)
        ensures
            r@ == (LogicalView::Union { left: Box::new(left@), right: Box::new(right@) }),
    {
        LogicalPlan::Union { left: Box::new(left), right: Box::new(right) }
    }
}

fn is_constant_true(expr: &Expr) -> (r: bool)
    ensures
        r == constant_true(expr@),
{
    match expr {
        Expr::Term(Term::Literal(s)) => same_text(s.as_str(), "true") || same_text(
            s.as_str(),
            "\"true\"^^<http://www.w3.org/2001/XMLSchema#boolean>",
        ),
        _ => false,
    }
}

impl Clone for LogicalPlan {
    fn clone(&self) -> (r: LogicalPlan)
        ensures
            r@ == self@,
        decreases self,
    {
        match self {
            LogicalPlan::Bgp { patterns, scope } => LogicalPlan::Bgp {
                patterns: clone_patterns(patterns),
                scope: scope.clone(),
            },
            LogicalPlan::Join { left, right } => LogicalPlan::Join {
                left: Box::new((&**left).clone()),
                right: Box::new((&**right).clone()),
            },
            LogicalPlan::Minus { left, right } => LogicalPlan::Minus {
                left: Box::new((&**left).clone()),
                right: Box::new((&**right).clone()),
            },
            LogicalPlan::Union { left, right } => LogicalPlan::Union {
                left: Box::new((&**left).clone()),
                right: Box::new((&**right).clone()),
            },
            LogicalPlan::LeftJoin { left, right, expr } => LogicalPlan::LeftJoin {
                left: Box::new((&**left).clone()),
                right: Box::new((&**right).clone()),
                expr: clone_opt_expr(expr),
            },
            LogicalPlan::Filter { expr, inner } => LogicalPlan::Filter {
                expr: expr.clone(),
                inner: Box::new((&**inner).clone()),
            },
            LogicalPlan::Project { vars, inner } => LogicalPlan::Project {
                vars: clone_vars(vars),
                inner: Box::new((&**inner).clone()),
            },
            LogicalPlan::Distinct { inner } => LogicalPlan::Distinct {
                inner: Box::new((&**inner).clone()),
            },
            LogicalPlan::Slice { inner, start, length } => LogicalPlan::Slice {
                inner: Box::new((&**inner).clone()),
                start: *start,
                length: *length,
            },
            LogicalPlan::OrderBy { inner, keys } => LogicalPlan::OrderBy {
                inner: Box::new((&**inner).clone()),
                keys: clone_order_keys(keys),
            },
            LogicalPlan::Extend { inner, var, expr } => LogicalPlan::Extend {
                inner: Box::new((&**inner).clone()),
                var: var.clone(),
                expr: expr.clone(),
            },
            LogicalPlan::Values { vars, rows } => LogicalPlan::Values {
                vars: clone_vars(vars),
                rows: clone_rows(rows),
            },
            LogicalPlan::Group { inner, keys, aggregates } => LogicalPlan::Group {
                inner: Box::new((&**inner).clone()),
                keys: clone_vars(keys),
                aggregates: clone_aggregates(aggregates),
            },
            LogicalPlan::PerGraph { var, inner } => LogicalPlan::PerGraph {
                var: var.clone(),
                inner: Box::new((&**inner).clone()),
            },
            LogicalPlan::PathClosure { subject, object, edge, reflexive } =>
                LogicalPlan::PathClosure {
                    subject: subject.clone(),
                    object: object.clone(),
                    edge: Box::new((&**edge).clone()),
                    reflexive: *reflexive,
                },
        }
    }
}

}
