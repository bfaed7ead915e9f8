//! Filter push-down: each conjunct of a filter sinks to the deepest subtree
//! that provably binds all of its variables. Conjuncts that land at the same
//! place share one filter node.

use crate::algebra::{exprs_view, Expr, ExprView};
use crate::collections::NameSet;
use crate::exec::refs::{referenced_vars, refs};
use crate::plan::logical::{LogicalPlan, LogicalView};
use crate::plan::pass::{LogicalPass, PassId, PlanCtx};
use crate::plan::passes::{
    bound_vars, bound_view, chain_view, conjoin, conjoin_view, conjuncts, conjuncts_view, rewrite,
    rewrite_view, Rewrite,
};
use vstd::prelude::*;

verus! {

pub struct FilterPushdown;

/// May a conjunct move onto `arm`: does the arm bind all it reads?
pub open spec fn legal_view(c: ExprView, arm: LogicalView) -> bool {
    refs(c).subset_of(bound_view(arm))
}

/// The plan after `c` has been sunk into `node`, or `None` where `node` is
/// no sink for it.
///
/// A join takes the conjunct on its left arm before its right arm. A left join
/// takes it on its mandatory arm only: on the optional arm it would drop the
/// rows the join exists to keep. A projection is a scope boundary: only a
/// conjunct over columns it shows passes through. A flat pattern always takes
/// it. A filter lets it pass where something below takes it, and merges it
/// otherwise, as it does directly above a flat pattern.
pub open spec fn push_one_view(c: ExprView, node: LogicalView) -> Option<LogicalView>
    decreases node, 0int,
{
    match node {
        LogicalView::Join { left, right } => if legal_view(c, *left) {
            Some(LogicalView::Join { left: Box::new(wrap_view(c, *left)), right })
        } else if legal_view(c, *right) {
            Some(LogicalView::Join { left, right: Box::new(wrap_view(c, *right)) })
        } else {
            None
        },
        LogicalView::LeftJoin { left, right, expr } => if legal_view(c, *left) {
            Some(LogicalView::LeftJoin { left: Box::new(wrap_view(c, *left)), right, expr })
        } else {
            None
        },
        LogicalView::Project { vars, inner } => if legal_view(c, node) {
            Some(LogicalView::Project { vars, inner: Box::new(wrap_view(c, *inner)) })
        } else {
            None
        },
        LogicalView::Bgp { .. } => Some(LogicalView::Filter { expr: c, inner: Box::new(node) }),
        LogicalView::Filter { expr, inner } => Some(
            match push_below_view(c, *inner) {
                Some(sunk) => LogicalView::Filter { expr, inner: Box::new(sunk) },
                None => LogicalView::Filter {
                    expr: chain_view(conjuncts_view(expr).push(c)),
                    inner,
                },
            },
        ),
        _ => None,
    }
}

/// The plan below a filter after `c` has been sunk into it. On a flat pattern
/// it would stand where the filter stands, so it does not sink there.
pub open spec fn push_below_view(c: ExprView, node: LogicalView) -> Option<LogicalView>
    decreases node, 1int,
{
    if node is Bgp {
        None
    } else {
        push_one_view(c, node)
    }
}

/// `node` with `c` sunk into it, or filtered by `c` where it is no sink.
pub open spec fn wrap_view(c: ExprView, node: LogicalView) -> LogicalView
    decreases node, 1int,
{
    match push_one_view(c, node) {
        Some(sunk) => sunk,
        None => LogicalView::Filter { expr: c, inner: Box::new(node) },
    }
}

/// The plan after as many of `parts` as possible have been sunk, in order.
pub open spec fn sunk_plan(parts: Seq<ExprView>, inner: LogicalView) -> LogicalView
    decreases parts.len(),
{
    if parts.len() == 0 {
        inner
    } else {
        let cur = sunk_plan(parts.drop_last(), inner);
        match push_one_view(parts.last(), cur) {
            Some(sunk) => sunk,
            None => cur,
        }
    }
}

/// The conjuncts among `parts` that found no sink, in order.
pub open spec fn residual_parts(parts: Seq<ExprView>, inner: LogicalView) -> Seq<ExprView>
    decreases parts.len(),
{
    if parts.len() == 0 {
        Seq::empty()
    } else {
        let done = residual_parts(parts.drop_last(), inner);
        if push_one_view(parts.last(), sunk_plan(parts.drop_last(), inner)) is Some {
            done
        } else {
            done.push(parts.last())
        }
    }
}

/// A filter over `inner` with every conjunct sunk as deep as it may go.
pub open spec fn push_filter_view(expr: ExprView, inner: LogicalView) -> LogicalView {
    let parts = conjuncts_view(expr);
    let plan = sunk_plan(parts, inner);
    match conjoin_view(residual_parts(parts, inner)) {
        Some(e) => LogicalView::Filter { expr: e, inner: Box::new(plan) },
        None => plan,
    }
}

fn legal(refs: &NameSet, arm: &LogicalPlan) -> (r: bool)
    ensures
        r == refs@.subset_of(bound_view(arm@)),
{
    let bound = bound_vars(arm);
    refs.subset_of(&bound)
}

/// Sinks `c` into `node`, or hands both back unchanged.
fn push_one(c: Expr, node: LogicalPlan) -> (r: Result<LogicalPlan, (Expr, LogicalPlan)>)
    ensures
        match r {
            Ok(p) => push_one_view(c@, node@) == Some(p@),
            Err((e, p)) => push_one_view(c@, node@) is None && e@ == c@ && p@ == node@,
        },
    decreases node, 0int,
{
    let mut reads = NameSet::new();
    referenced_vars(&c, &mut reads);
    assert(reads@ =~= refs(c@));
    match node {
        LogicalPlan::Join { left, right } => {
            if legal(&reads, &left) {
                Ok(LogicalPlan::Join { left: Box::new(wrap(c, *left)), right })
            } else if legal(&reads, &right) {
                Ok(LogicalPlan::Join { left, right: Box::new(wrap(c, *right)) })
            } else {
                Err((c, LogicalPlan::Join { left, right }))
            }
        },
        LogicalPlan::LeftJoin { left, right, expr } => {
            if legal(&reads, &left) {
                Ok(LogicalPlan::LeftJoin { left: Box::new(wrap(c, *left)), right, expr })
            } else {
                Err((c, LogicalPlan::LeftJoin { left, right, expr }))
            }
        },
        LogicalPlan::Project { vars, inner } => {
            let whole = LogicalPlan::Project { vars, inner };
            if legal(&reads, &whole) {
                match whole {
                    LogicalPlan::Project { vars, inner } => Ok(
                        LogicalPlan::Project { vars, inner: Box::new(wrap(c, *inner)) },
                    ),
                    other => Err((c, other)),
                }
            } else {
                Err((c, whole))
            }
        },
        LogicalPlan::Bgp { patterns, scope } => Ok(
            LogicalPlan::Filter { expr: c, inner: Box::new(LogicalPlan::Bgp { patterns, scope }) },
        ),
        LogicalPlan::Filter { expr, inner } => {
            let (c, inner) = match push_below(c, *inner) {
                Ok(sunk) => {
                    return Ok(LogicalPlan::Filter { expr, inner: Box::new(sunk) });
                },
                Err((c, unchanged)) => (c, Box::new(unchanged)),
            };
            let mut parts: Vec<Expr> = Vec::new();
            let ghost cv = conjuncts_view(expr@);
            conjuncts(expr, &mut parts);
            assert(exprs_view(parts@) =~= cv);
            parts.push(c);
            assert(exprs_view(parts@) =~= cv.push(c@));
            match conjoin(parts) {
                Some(merged) => Ok(LogicalPlan::Filter { expr: merged, inner }),
                None => {
                    proof {
                        assert(false);
                    }
                    Ok(*inner)
                },
            }
        },
        other => Err((c, other)),
    }
}

/// Sinks `c` into the plan below a filter, or hands both back unchanged.
fn push_below(c: Expr, node: LogicalPlan) -> (r: Result<LogicalPlan, (Expr, LogicalPlan)>)
    ensures
        match r {
            Ok(p) => push_below_view(c@, node@) == Some(p@),
            Err((e, p)) => push_below_view(c@, node@) is None && e@ == c@ && p@ == node@,
        },
    decreases node, 1int,
{
    match node {
        LogicalPlan::Bgp { patterns, scope } => Err((c, LogicalPlan::Bgp { patterns, scope })),
        other => push_one(c, other),
    }
}

fn wrap(c: Expr, node: LogicalPlan) -> (r: LogicalPlan)
    ensures
        r@ == wrap_view(c@, node@),
    decreases node, 1int,
{
    match push_one(c, node) {
        Ok(sunk) => sunk,
        Err((c, unchanged)) => LogicalPlan::Filter { expr: c, inner: Box::new(unchanged) },
    }
}

/// Sinks every conjunct of `expr` into `inner`; those without a sink stay
/// behind in a filter, in their order.
pub fn push_filter(expr: Expr, inner: LogicalPlan) -> (r: LogicalPlan)
    ensures
        r@ == push_filter_view(expr@, inner@),
{
    let ghost parts_v = conjuncts_view(expr@);
    let ghost start = inner@;
    let mut parts: Vec<Expr> = Vec::new();
    conjuncts(expr, &mut parts);
    assert(exprs_view(parts@) =~= parts_v);
    let mut cur = inner;
    let mut residual: Vec<Expr> = Vec::new();
    let ghost mut done: int = 0;
    assert(exprs_view(residual@) =~= Seq::<ExprView>::empty());
    let ghost all = parts@;
    for c in it: parts
        invariant
            parts_v == exprs_view(it.seq()),
            cur@ == sunk_plan(parts_v.take(it.index() as int), start),
            exprs_view(residual@) == residual_parts(parts_v.take(it.index() as int), start),
    {
        let ghost i = it.index() as int;
        proof {
            assert(parts_v.take(i + 1).drop_last() =~= parts_v.take(i));
            assert(parts_v.take(i + 1).last() == c@);
        }
        match push_one(c, cur) {
            Ok(sunk) => {
                cur = sunk;
            },
            Err((c, unchanged)) => {
                let ghost before = residual@;
                residual.push(c);
                assert(exprs_view(residual@) =~= exprs_view(before).push(c@));
                cur = unchanged;
            },
        }
    }
    assert(parts_v.take(parts_v.len() as int) =~= parts_v);
    match conjoin(residual) {
        Some(expr) => LogicalPlan::Filter { expr, inner: Box::new(cur) },
        None => cur,
    }
}

impl LogicalPass for FilterPushdown {
    open spec fn id_view(&self) -> PassId {
        PassId::FilterPushdown
    }

    open spec fn run_view(&self, plan: LogicalView) -> LogicalView {
        rewrite_view(Rewrite::Pushdown, plan)
    }

    open spec fn after(&self) -> Seq<PassId> {
        seq![PassId::FilterPullup]
    }

    fn id(&self) -> PassId {
        PassId::FilterPushdown
    }

    fn run(&self, plan: LogicalPlan, _ctx: &PlanCtx) -> LogicalPlan {
        rewrite(Rewrite::Pushdown, plan)
    }

    fn must_follow(&self) -> &'static [PassId] {
        let r: &'static [PassId] = &[PassId::FilterPullup];
        assert(r@ =~= seq![PassId::FilterPullup]);
        r
    }
}

}
