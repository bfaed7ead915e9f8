//! Normalization: equalities over provably non-literal terms become term
//! identities, constant conjuncts fold, and a filter that can never hold
//! becomes an empty relation with the same columns.

use crate::algebra::{exprs_view, rows_view, Expr, ExprView, Term, TermView};
use crate::plan::logical::{LogicalPlan, LogicalView};
use crate::plan::pass::{LogicalPass, PassId, PlanCtx};
use crate::plan::passes::{
    conjoin, conjoin_view, conjuncts, conjuncts_view, rewrite, rewrite_view, schema, schema_view,
    Rewrite,
};
use crate::plan::types::{infer, infer_view, TypeMask, VarTypes};
use crate::text::Text;
use vstd::prelude::*;

verus! {

pub struct Normalize;

/// Is the term an IRI in every solution?
pub open spec fn provably_iri_view(t: TermView, types: Map<Text, TypeMask>) -> bool {
    match t {
        TermView::Iri(_) => true,
        TermView::Var(v) => types.contains_key(v) && types[v].bits == TypeMask::NAMED_NODE,
        _ => false,
    }
}

/// Is the term a blank node in every solution?
pub open spec fn provably_blank_view(t: TermView, types: Map<Text, TypeMask>) -> bool {
    match t {
        TermView::BlankNode(_) => true,
        TermView::Var(v) => types.contains_key(v) && types[v].bits == TypeMask::BLANK_NODE,
        _ => false,
    }
}

/// Are both operands terms that are provably of the same non-literal kind?
pub open spec fn same_kind_view(a: ExprView, b: ExprView, types: Map<Text, TypeMask>) -> bool {
    match (a, b) {
        (ExprView::Term(s), ExprView::Term(t)) => (provably_iri_view(s, types)
            && provably_iri_view(t, types)) || (provably_blank_view(s, types)
            && provably_blank_view(t, types)),
        _ => false,
    }
}

/// An expression with its provable equalities reduced, below boolean
/// connectives only.
pub open spec fn reduce_view(e: ExprView, types: Map<Text, TypeMask>) -> ExprView
    decreases e,
{
    match e {
        ExprView::And(a, b) => ExprView::And(
            Box::new(reduce_view(*a, types)),
            Box::new(reduce_view(*b, types)),
        ),
        ExprView::Or(a, b) => ExprView::Or(
            Box::new(reduce_view(*a, types)),
            Box::new(reduce_view(*b, types)),
        ),
        ExprView::Not(a) => ExprView::Not(Box::new(reduce_view(*a, types))),
        ExprView::Eq(a, b) => if same_kind_view(*a, *b, types) {
            ExprView::SameTerm(a, b)
        } else {
            e
        },
        _ => e,
    }
}

pub open spec fn const_term(t: TermView) -> bool {
    t is Iri || t is BlankNode || t is Literal
}

/// The truth of an equality of two ground terms.
pub open spec fn const_eq_view(a: ExprView, b: ExprView) -> Option<bool> {
    match (a, b) {
        (ExprView::Term(s), ExprView::Term(t)) => if const_term(s) && const_term(t) {
            Some(s == t)
        } else {
            None
        },
        _ => None,
    }
}

/// The truth of an expression over ground terms, where it is already decided.
pub open spec fn const_bool_view(e: ExprView) -> Option<bool>
    decreases e,
{
    match e {
        ExprView::Eq(a, b) => const_eq_view(*a, *b),
        ExprView::SameTerm(a, b) => const_eq_view(*a, *b),
        ExprView::Ne(a, b) => match const_eq_view(*a, *b) {
            Some(v) => Some(!v),
            None => None,
        },
        ExprView::And(a, b) => {
            let (x, y) = (const_bool_view(*a), const_bool_view(*b));
            if x == Some(false) || y == Some(false) {
                Some(false)
            } else if x == Some(true) && y == Some(true) {
                Some(true)
            } else {
                None
            }
        },
        ExprView::Or(a, b) => {
            let (x, y) = (const_bool_view(*a), const_bool_view(*b));
            if x == Some(true) || y == Some(true) {
                Some(true)
            } else if x == Some(false) && y == Some(false) {
                Some(false)
            } else {
                None
            }
        },
        ExprView::Not(a) => match const_bool_view(*a) {
            Some(v) => Some(!v),
            None => None,
        },
        _ => None,
    }
}

/// Does one of the conjuncts reduce to a constant false?
pub open spec fn has_false(parts: Seq<ExprView>, types: Map<Text, TypeMask>) -> bool {
    exists|i: int|
        0 <= i < parts.len() && const_bool_view(reduce_view(#[trigger] parts[i], types)) == Some(
            false,
        )
}

/// The reduced conjuncts whose truth is still open, in order.
pub open spec fn open_parts(parts: Seq<ExprView>, types: Map<Text, TypeMask>) -> Seq<ExprView>
    decreases parts.len(),
{
    if parts.len() == 0 {
        Seq::empty()
    } else {
        let kept = open_parts(parts.drop_last(), types);
        let last = reduce_view(parts.last(), types);
        if const_bool_view(last) is None {
            kept.push(last)
        } else {
            kept
        }
    }
}

/// A filter over an already normalized plan, normalized.
pub open spec fn normalize_filter_view(expr: ExprView, inner: LogicalView) -> LogicalView {
    let parts = conjuncts_view(expr);
    let types = infer_view(inner);
    if has_false(parts, types) {
        LogicalView::Values { vars: schema_view(inner), rows: Seq::empty() }
    } else {
        match conjoin_view(open_parts(parts, types)) {
            Some(e) => LogicalView::Filter { expr: e, inner: Box::new(inner) },
            None => inner,
        }
    }
}

fn provably_iri(t: &Term, types: &VarTypes) -> (r: bool)
    ensures
        r == provably_iri_view(t@, types@),
{
    match t {
        Term::Iri(_) => true,
        Term::Var(v) => match types.get(v) {
            Some(m) => m.is_named_node(),
            None => false,
        },
        _ => false,
    }
}

fn provably_blank(t: &Term, types: &VarTypes) -> (r: bool)
    ensures
        r == provably_blank_view(t@, types@),
{
    match t {
        Term::BlankNode(_) => true,
        Term::Var(v) => match types.get(v) {
            Some(m) => m.is_blank_node(),
            None => false,
        },
        _ => false,
    }
}

fn same_nonliteral_kind(a: &Expr, b: &Expr, types: &VarTypes) -> (r: bool)
    ensures
        r == same_kind_view(a@, b@, types@),
{
    match (a, b) {
        (Expr::Term(a), Expr::Term(b)) => (provably_iri(a, types) && provably_iri(b, types)) || (
        provably_blank(a, types) && provably_blank(b, types)),
        _ => false,
    }
}

fn reduce_expr(expr: Expr, types: &VarTypes) -> (r: Expr)
    ensures
        r@ == reduce_view(expr@, types@),
    decreases expr,
{
    match expr {
        Expr::And(a, b) => Expr::And(
            Box::new(reduce_expr(*a, types)),
            Box::new(reduce_expr(*b, types)),
        ),
        Expr::Or(a, b) => Expr::Or(
            Box::new(reduce_expr(*a, types)),
            Box::new(reduce_expr(*b, types)),
        ),
        Expr::Not(a) => Expr::Not(Box::new(reduce_expr(*a, types))),
        Expr::Eq(a, b) => if same_nonliteral_kind(&a, &b, types) {
            Expr::SameTerm(a, b)
        } else {
            Expr::Eq(a, b)
        },
        other => other,
    }
}

fn is_const_term(t: &Term) -> (r: bool)
    ensures
        r == const_term(t@),
{
    match t {
        Term::Iri(_) => true,
        Term::BlankNode(_) => true,
        Term::Literal(_) => true,
        _ => false,
    }
}

fn const_term_eq(a: &Expr, b: &Expr) -> (r: Option<bool>)
    ensures
        r == const_eq_view(a@, b@),
{
    match (a, b) {
        (Expr::Term(a), Expr::Term(b)) => if is_const_term(a) && is_const_term(b) {
            Some(a.same(b))
        } else {
            None
        },
        _ => None,
    }
}

fn const_bool(e: &Expr) -> (r: Option<bool>)
    ensures
        r == const_bool_view(e@),
    decreases e,
{
    match e {
        Expr::Eq(a, b) => const_term_eq(a, b),
        Expr::SameTerm(a, b) => const_term_eq(a, b),
        Expr::Ne(a, b) => match const_term_eq(a, b) {
            Some(v) => Some(!v),
            None => None,
        },
        Expr::And(a, b) => match (const_bool(a), const_bool(b)) {
            (Some(false), _) | (_, Some(false)) => Some(false),
            (Some(true), Some(true)) => Some(true),
            _ => None,
        },
        Expr::Or(a, b) => match (const_bool(a), const_bool(b)) {
            (Some(true), _) | (_, Some(true)) => Some(true),
            (Some(false), Some(false)) => Some(false),
            _ => None,
        },
        Expr::Not(a) => match const_bool(a) {
            Some(v) => Some(!v),
            None => None,
        },
        _ => None,
    }
}

/// Normalizes a filter over an already normalized plan.
pub fn normalize_filter(expr: Expr, inner: LogicalPlan) -> (r: LogicalPlan)
    ensures
        r@ == normalize_filter_view(expr@, inner@),
{
    let types = infer(&inner);
    let ghost parts_v = conjuncts_view(expr@);
    let mut parts: Vec<Expr> = Vec::new();
    conjuncts(expr, &mut parts);
    assert(exprs_view(parts@) =~= parts_v);
    let mut kept: Vec<Expr> = Vec::new();
    assert(exprs_view(kept@) =~= Seq::<ExprView>::empty());
    for part in it: parts
        invariant
            parts_v == exprs_view(it.seq()),
            types@ == infer_view(inner@),
            parts_v == conjuncts_view(expr@),
            exprs_view(kept@) == open_parts(parts_v.take(it.index() as int), types@),
            forall|i: int|
                0 <= i < it.index() ==> const_bool_view(reduce_view(#[trigger] parts_v[i], types@))
                    != Some(false),
    {
        let ghost i = it.index() as int;
        proof {
            assert(parts_v.take(i + 1).drop_last() =~= parts_v.take(i));
            assert(parts_v.take(i + 1).last() == parts_v[i]);
            assert(parts_v[i] == part@);
        }
        let reduced = reduce_expr(part, &types);
        match const_bool(&reduced) {
            Some(true) => {},
            Some(false) => {
                let rows: Vec<Vec<Option<Term>>> = Vec::new();
                proof {
                    assert(has_false(parts_v, types@));
                    assert(rows_view(rows@) =~= Seq::<Seq<Option<TermView>>>::empty());
                }
                return LogicalPlan::Values { vars: schema(&inner), rows };
            },
            None => {
                let ghost before = kept@;
                kept.push(reduced);
                assert(exprs_view(kept@) =~= exprs_view(before).push(reduced@));
            },
        }
    }
    assert(parts_v.take(parts_v.len() as int) =~= parts_v);
    match conjoin(kept) {
        Some(expr) => LogicalPlan::Filter { expr, inner: Box::new(inner) },
        None => inner,
    }
}

impl LogicalPass for Normalize {
    open spec fn id_view(&self) -> PassId {
        PassId::Normalize
    }

    open spec fn run_view(&self, plan: LogicalView) -> LogicalView {
        rewrite_view(Rewrite::Normalize, plan)
    }

    open spec fn after(&self) -> Seq<PassId> {
        seq![PassId::CoalesceBgp]
    }

    fn id(&self) -> PassId {
        PassId::Normalize
    }

    fn run(&self, plan: LogicalPlan, _ctx: &PlanCtx) -> LogicalPlan {
        rewrite(Rewrite::Normalize, plan)
    }

    fn must_follow(&self) -> &'static [PassId] {
        let r: &'static [PassId] = &[PassId::CoalesceBgp];
        assert(r@ =~= seq![PassId::CoalesceBgp]);
        r
    }
}

}
