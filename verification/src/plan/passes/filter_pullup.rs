//! Filter pull-up: filters directly on the arms of an inner join are hoisted
//! above it and merged into one. Every other node is a boundary.

use crate::algebra::{exprs_view, Expr, ExprView};
use crate::plan::logical::{LogicalPlan, LogicalView};
use crate::plan::pass::{LogicalPass, PassId, PlanCtx};
use crate::plan::passes::{
    conjoin, conjoin_view, conjuncts, conjuncts_view, rewrite, rewrite_view, Rewrite,
};
use vstd::prelude::*;

verus! {

pub struct FilterPullup;

/// A plan without the filters stacked directly on top of it.
pub open spec fn stripped(node: LogicalView) -> LogicalView
    decreases node,
{
    match node {
        LogicalView::Filter { inner, .. } => stripped(*inner),
        _ => node,
    }
}

/// The conjuncts of the filters stacked directly on top of a plan, outermost
/// filter first.
pub open spec fn strip_parts(node: LogicalView) -> Seq<ExprView>
    decreases node,
{
    match node {
        LogicalView::Filter { expr, inner } => conjuncts_view(expr) + strip_parts(*inner),
        _ => Seq::empty(),
    }
}

/// A join with the filters of both arms merged above it.
pub open spec fn pullup_join_view(left: LogicalView, right: LogicalView) -> LogicalView {
    let join = LogicalView::Join {
        left: Box::new(stripped(left)),
        right: Box::new(stripped(right)),
    };
    match conjoin_view(strip_parts(left) + strip_parts(right)) {
        Some(expr) => LogicalView::Filter { expr, inner: Box::new(join) },
        None => join,
    }
}

/// Peels the filters stacked on top of `node` off it and collects their
/// conjuncts.
fn strip_filter(node: LogicalPlan) -> (r: (LogicalPlan, Vec<Expr>))
    ensures
        r.0@ == stripped(node@),
        exprs_view(r.1@) == strip_parts(node@),
{
    let mut parts: Vec<Expr> = Vec::new();
    let mut node = node;
    let ghost start = node@;
    let mut done = false;
    assert(exprs_view(parts@) + strip_parts(node@) =~= strip_parts(node@));
    while !done
        invariant
            stripped(node@) == stripped(start),
            exprs_view(parts@) + strip_parts(node@) == strip_parts(start),
            done ==> !(node@ is Filter),
        decreases (if done { 0int } else { 1int }), node,
    {
        match node {
            LogicalPlan::Filter { expr, inner } => {
                let ghost before = exprs_view(parts@);
                let ghost e = expr@;
                conjuncts(expr, &mut parts);
                node = *inner;
                assert(exprs_view(parts@) + strip_parts(node@) =~= before + (conjuncts_view(e)
                    + strip_parts(node@)));
            },
            other => {
                node = other;
                done = true;
            },
        }
    }
    assert(exprs_view(parts@) + strip_parts(node@) =~= exprs_view(parts@));
    (node, parts)
}

pub fn pullup_join(left: LogicalPlan, right: LogicalPlan) -> (r: LogicalPlan)
    ensures
        r@ == pullup_join_view(left@, right@),
{
    let (l, lparts) = strip_filter(left);
    let (r, rparts) = strip_filter(right);
    let mut parts = lparts;
    let mut more = rparts;
    parts.append(&mut more);
    assert(exprs_view(parts@) =~= strip_parts(left@) + strip_parts(right@)) by {
        assert(parts@ =~= lparts@ + rparts@);
    }
    let join = LogicalPlan::Join { left: Box::new(l), right: Box::new(r) };
    match conjoin(parts) {
        Some(expr) => LogicalPlan::Filter { expr, inner: Box::new(join) },
        None => join,
    }
}

impl LogicalPass for FilterPullup {
    open spec fn id_view(&self) -> PassId {
        PassId::FilterPullup
    }

    open spec fn run_view(&self, plan: LogicalView) -> LogicalView {
        rewrite_view(Rewrite::Pullup, plan)
    }

    open spec fn after(&self) -> Seq<PassId> {
        seq![PassId::Normalize]
    }

    fn id(&self) -> PassId {
        PassId::FilterPullup
    }

    fn run(&self, plan: LogicalPlan, _ctx: &PlanCtx) -> LogicalPlan {
        rewrite(Rewrite::Pullup, plan)
    }

    fn must_follow(&self) -> &'static [PassId] {
        let r: &'static [PassId] = &[PassId::Normalize];
        assert(r@ =~= seq![PassId::Normalize]);
        r
    }
}

}
