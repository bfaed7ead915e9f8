//! The variables an expression reads.

use crate::algebra::{exprs_view, AggFunc, AggFuncView, Aggregate, Expr, ExprView, Term, TermView};
use crate::collections::NameSet;
use crate::text::Text;
use vstd::prelude::*;

verus! {

/// The names of the variables an expression reads.
pub open spec fn refs(e: ExprView) -> Set<Text>
    decreases e,
{
    match e {
        ExprView::Term(TermView::Var(v)) => set![v],
        ExprView::Term(_) => Set::empty(),
        ExprView::Bound(v) => set![v],
        ExprView::Eq(a, b) => refs(*a).union(refs(*b)),
        ExprView::SameTerm(a, b) => refs(*a).union(refs(*b)),
        ExprView::Ne(a, b) => refs(*a).union(refs(*b)),
        ExprView::Lt(a, b) => refs(*a).union(refs(*b)),
        ExprView::Gt(a, b) => refs(*a).union(refs(*b)),
        ExprView::Le(a, b) => refs(*a).union(refs(*b)),
        ExprView::Ge(a, b) => refs(*a).union(refs(*b)),
        ExprView::And(a, b) => refs(*a).union(refs(*b)),
        ExprView::Or(a, b) => refs(*a).union(refs(*b)),
        ExprView::Add(a, b) => refs(*a).union(refs(*b)),
        ExprView::Sub(a, b) => refs(*a).union(refs(*b)),
        ExprView::Mul(a, b) => refs(*a).union(refs(*b)),
        ExprView::Div(a, b) => refs(*a).union(refs(*b)),
        ExprView::Not(a) => refs(*a),
        ExprView::Neg(a) => refs(*a),
        ExprView::If(a, b, c) => refs(*a).union(refs(*b)).union(refs(*c)),
        ExprView::In(a, list) => refs(*a).union(refs_all(list)),
        ExprView::Coalesce(args) => refs_all(args),
        ExprView::Func(_, args) => refs_all(args),
    }
}

/// The names of the variables a list of expressions reads.
pub open spec fn refs_all(es: Seq<ExprView>) -> Set<Text>
    decreases es,
{
    if es.len() == 0 {
        Set::empty()
    } else {
        refs_all(es.drop_last()).union(refs(es.last()))
    }
}

/// Adds the names of the variables `e` reads to `out`.
pub fn referenced_vars(e: &Expr, out: &mut NameSet)
    ensures
        final(out)@ == old(out)@.union(refs(e@)),
    decreases e,
{
    match e {
        Expr::Term(Term::Var(v)) => {
            out.insert(v.name());
        },
        Expr::Term(_) => {},
        Expr::Bound(v) => {
            out.insert(v.name());
        },
        Expr::Eq(a, b)
        | Expr::SameTerm(a, b)
        | Expr::Ne(a, b)
        | Expr::Lt(a, b)
        | Expr::Gt(a, b)
        | Expr::Le(a, b)
        | Expr::Ge(a, b)
        | Expr::And(a, b)
        | Expr::Or(a, b)
        | Expr::Add(a, b)
        | Expr::Sub(a, b)
        | Expr::Mul(a, b)
        | Expr::Div(a, b) => {
            referenced_vars(a, out);
            referenced_vars(b, out);
        },
        Expr::Not(a) | Expr::Neg(a) => referenced_vars(a, out),
        Expr::If(a, b, c) => {
            referenced_vars(a, out);
            referenced_vars(b, out);
            referenced_vars(c, out);
        },
        Expr::In(a, list) => {
            referenced_vars(a, out);
            referenced_in_list(list, out);
        },
        Expr::Coalesce(args) => referenced_in_list(args, out),
        Expr::Func(_, args) => referenced_in_list(args, out),
    }
    assert(out@ =~= old(out)@.union(refs(e@)));
}

fn referenced_in_list(es: &Vec<Expr>, out: &mut NameSet)
    ensures
        final(out)@ == old(out)@.union(refs_all(exprs_view(es@))),
    decreases es,
{
    let ghost ev = exprs_view(es@);
    let mut i: usize = 0;
    proof {
        assert(out@ =~= old(out)@.union(refs_all(ev.take(0))));
    }
    while i < es.len()
        invariant
            i <= es@.len(),
            ev == exprs_view(es@),
            out@ == old(out)@.union(refs_all(ev.take(i as int))),
        decreases es@.len() - i,
    {
        referenced_vars(&es[i], out);
        proof {
            assert(ev.take(i + 1).drop_last() =~= ev.take(i as int));
            assert(ev.take(i + 1).last() == ev[i as int]);
            assert(out@ =~= old(out)@.union(refs_all(ev.take(i + 1))));
        }
        i = i + 1;
    }
    assert(ev.take(es@.len() as int) =~= ev);
}

/// The expression an aggregate evaluates over its members; a count of whole
/// rows has none.
pub open spec fn agg_operand(f: AggFuncView) -> Option<ExprView> {
    match f {
        AggFuncView::CountStar => None,
        AggFuncView::Count(e) => Some(e),
        AggFuncView::Sum(e) => Some(e),
        AggFuncView::Avg(e) => Some(e),
        AggFuncView::Min(e) => Some(e),
        AggFuncView::Max(e) => Some(e),
        AggFuncView::Sample(e) => Some(e),
        AggFuncView::GroupConcat { expr, .. } => Some(expr),
    }
}

/// The inner expressions an aggregate evaluates over its members.
pub fn agg_inner_exprs(agg: &Aggregate) -> (r: Vec<&Expr>)
    ensures
        match agg_operand(agg.func@) {
            None => r@.len() == 0,
            Some(e) => r@.len() == 1 && r@[0]@ == e,
        },
{
    match &agg.func {
        AggFunc::CountStar => Vec::new(),
        AggFunc::Count(e)
        | AggFunc::Sum(e)
        | AggFunc::Avg(e)
        | AggFunc::Min(e)
        | AggFunc::Max(e)
        | AggFunc::Sample(e) => vec![&**e],
        AggFunc::GroupConcat { expr, .. } => vec![&**expr],
    }
}

/// The names of the variables an aggregate reads.
pub open spec fn agg_refs(f: AggFuncView) -> Set<Text> {
    match agg_operand(f) {
        None => Set::empty(),
        Some(e) => refs(e),
    }
}

/// Adds the names of the variables an aggregate reads.
pub fn agg_referenced_vars(agg: &Aggregate, out: &mut NameSet)
    ensures
        final(out)@ == old(out)@.union(agg_refs(agg.func@)),
{
    let inner = agg_inner_exprs(agg);
    if inner.len() > 0 {
        referenced_vars(inner[0], out);
    }
    assert(out@ =~= old(out)@.union(agg_refs(agg.func@)));
}

}
