//! Evaluating expressions against a solution mapping.
//!
//! An expression error is the absence of a value. In a boolean context it
//! counts as false.

use crate::algebra::{
    cells_view, exprs_view, opt_term_view, Expr, ExprView, Func, Term, TermView,
};
use crate::exec::bindings::{bound_to, lookup, Bindings};
use crate::exec::builtin::{apply_func, arith, binary_value, func_value, negate, unary_value};
use crate::exec::literal::{
    bool_typed_literal, bool_view, literal_value, number_of, numeric_value, value_of,
};
use crate::exec::number::{Arith, Numbers, Unary};
use crate::exec::refs::{refs, refs_all};
use crate::exec::strings::{ebv, truth_of};
use crate::text::{compare_text, text_order, Order, Text};
use vstd::prelude::*;

verus! {

/// How two terms compare: as numbers where both read as numbers, otherwise by
/// their lexical values. Date-times in one notation sort correctly as texts.
pub open spec fn term_order<N: Numbers>(x: TermView, y: TermView) -> Order {
    match (number_of::<N>(x), number_of::<N>(y)) {
        (Some(a), Some(b)) => N::order(a, b),
        _ => text_order(value_of(x), value_of(y)),
    }
}

pub fn compare_terms<N: Numbers>(x: &Term, y: &Term) -> (r: Order)
    ensures
        r == term_order::<N>(x@, y@),
{
    match (numeric_value::<N>(x), numeric_value::<N>(y)) {
        (Some(a), Some(b)) => N::compare(&a, &b),
        _ => {
            let lx = literal_value(x);
            let ly = literal_value(y);
            compare_text(lx.as_str(), ly.as_str())
        },
    }
}

/// What an expression comes to: a truth value, or a value that may be absent.
#[verifier::ext_equal]
pub enum OutcomeView {
    Flag(bool),
    Value(Option<TermView>),
}

/// Does a value occur in a list of values, equal as a term or in the order?
pub open spec fn occurs_in<N: Numbers>(x: TermView, vs: Seq<Option<TermView>>) -> bool {
    exists|i: int|
        0 <= i < vs.len() && (#[trigger] vs[i]) is Some && (x == vs[i]->0 || term_order::<N>(
            x,
            vs[i]->0,
        ) == Order::Equal)
}

/// The first value that is present.
pub open spec fn first_value(vs: Seq<Option<TermView>>) -> Option<TermView>
    decreases vs.len(),
{
    if vs.len() == 0 {
        None
    } else if vs[0] is Some {
        vs[0]
    } else {
        first_value(vs.drop_first())
    }
}

/// How the values of two expressions compare, where both have one.
pub open spec fn values_order<N: Numbers>(a: Option<TermView>, b: Option<TermView>) -> Option<
    Order,
> {
    match (a, b) {
        (Some(x), Some(y)) => Some(term_order::<N>(x, y)),
        _ => None,
    }
}

/// What an expression comes to under a solution mapping.
pub open spec fn outcome<N: Numbers>(e: ExprView, b: Map<Text, TermView>) -> OutcomeView
    decreases e, 0int,
{
    match e {
        ExprView::Term(TermView::Var(v)) => OutcomeView::Value(bound_to(b, v)),
        ExprView::Term(t) => OutcomeView::Value(Some(t)),
        ExprView::Bound(v) => OutcomeView::Flag(b.contains_key(v)),
        ExprView::Eq(x, y) => OutcomeView::Flag(value::<N>(*x, b) == value::<N>(*y, b)),
        ExprView::SameTerm(x, y) => OutcomeView::Flag(value::<N>(*x, b) == value::<N>(*y, b)),
        ExprView::Ne(x, y) => OutcomeView::Flag(value::<N>(*x, b) != value::<N>(*y, b)),
        ExprView::Lt(x, y) => OutcomeView::Flag(
            values_order::<N>(value::<N>(*x, b), value::<N>(*y, b)) == Some(Order::Less),
        ),
        ExprView::Gt(x, y) => OutcomeView::Flag(
            values_order::<N>(value::<N>(*x, b), value::<N>(*y, b)) == Some(Order::Greater),
        ),
        ExprView::Le(x, y) => OutcomeView::Flag(
            values_order::<N>(value::<N>(*x, b), value::<N>(*y, b)) == Some(Order::Less)
                || values_order::<N>(value::<N>(*x, b), value::<N>(*y, b)) == Some(Order::Equal),
        ),
        ExprView::Ge(x, y) => OutcomeView::Flag(
            values_order::<N>(value::<N>(*x, b), value::<N>(*y, b)) == Some(Order::Greater)
                || values_order::<N>(value::<N>(*x, b), value::<N>(*y, b)) == Some(Order::Equal),
        ),
        ExprView::And(x, y) => OutcomeView::Flag(truth::<N>(*x, b) && truth::<N>(*y, b)),
        ExprView::Or(x, y) => OutcomeView::Flag(truth::<N>(*x, b) || truth::<N>(*y, b)),
        ExprView::Not(x) => OutcomeView::Flag(!truth::<N>(*x, b)),
        ExprView::In(x, list) => OutcomeView::Flag(
            match value::<N>(*x, b) {
                Some(t) => occurs_in::<N>(t, values::<N>(list, b)),
                None => false,
            },
        ),
        ExprView::Add(x, y) => OutcomeView::Value(
            binary_value::<N>(Arith::Plus, value::<N>(*x, b), value::<N>(*y, b)),
        ),
        ExprView::Sub(x, y) => OutcomeView::Value(
            binary_value::<N>(Arith::Minus, value::<N>(*x, b), value::<N>(*y, b)),
        ),
        ExprView::Mul(x, y) => OutcomeView::Value(
            binary_value::<N>(Arith::Times, value::<N>(*x, b), value::<N>(*y, b)),
        ),
        ExprView::Div(x, y) => OutcomeView::Value(
            binary_value::<N>(Arith::Over, value::<N>(*x, b), value::<N>(*y, b)),
        ),
        ExprView::Neg(x) => OutcomeView::Value(unary_value::<N>(Unary::Negate, value::<N>(*x, b))),
        ExprView::If(c, x, y) => OutcomeView::Value(
            if truth::<N>(*c, b) {
                value::<N>(*x, b)
            } else {
                value::<N>(*y, b)
            },
        ),
        ExprView::Coalesce(args) => OutcomeView::Value(first_value(values::<N>(args, b))),
        ExprView::Func(f, args) => OutcomeView::Value(func_value::<N>(f, values::<N>(args, b))),
    }
}

/// The truth value of an expression in a boolean context.
pub open spec fn truth<N: Numbers>(e: ExprView, b: Map<Text, TermView>) -> bool
    decreases e, 1int,
{
    match outcome::<N>(e, b) {
        OutcomeView::Flag(v) => v,
        OutcomeView::Value(Some(t)) => truth_of::<N>(t),
        OutcomeView::Value(None) => false,
    }
}

/// The value of an expression; a truth value becomes a boolean literal.
pub open spec fn value<N: Numbers>(e: ExprView, b: Map<Text, TermView>) -> Option<TermView>
    decreases e, 1int,
{
    match outcome::<N>(e, b) {
        OutcomeView::Flag(v) => Some(bool_view(v)),
        OutcomeView::Value(v) => v,
    }
}

/// The values of a list of expressions.
pub open spec fn values<N: Numbers>(es: Seq<ExprView>, b: Map<Text, TermView>) -> Seq<
    Option<TermView>,
>
    decreases es, 2int,
{
    Seq::new(
        es.len(),
        |i: int|
            if 0 <= i < es.len() {
                value::<N>(es[i], b)
            } else {
                None
            },
    )
}

/// What an expression comes to.
enum Outcome {
    Flag(bool),
    Value(Option<Term>),
}

impl Outcome {
    spec fn view(&self) -> OutcomeView {
        match *self {
            Outcome::Flag(v) => OutcomeView::Flag(v),
            Outcome::Value(t) => OutcomeView::Value(opt_term_view(t)),
        }
    }
}

fn same_value(a: &Option<Term>, b: &Option<Term>) -> (r: bool)
    ensures
        r == (opt_term_view(*a) == opt_term_view(*b)),
{
    match (a, b) {
        (Some(x), Some(y)) => x.same(y),
        (None, None) => true,
        _ => false,
    }
}

fn compare_values<N: Numbers>(a: &Option<Term>, b: &Option<Term>) -> (r: Option<Order>)
    ensures
        r == values_order::<N>(opt_term_view(*a), opt_term_view(*b)),
{
    match (a, b) {
        (Some(x), Some(y)) => Some(compare_terms::<N>(x, y)),
        _ => None,
    }
}

fn find_value<N: Numbers>(x: &Term, vs: &Vec<Option<Term>>) -> (r: bool)
    ensures
        r == occurs_in::<N>(x@, cells_view(vs@)),
{
    let ghost vv = cells_view(vs@);
    let mut i: usize = 0;
    while i < vs.len()
        invariant
            i <= vs@.len(),
            vv == cells_view(vs@),
            forall|j: int|
                0 <= j < i ==> !((#[trigger] vv[j]) is Some && (x@ == vv[j]->0 || term_order::<N>(
                    x@,
                    vv[j]->0,
                ) == Order::Equal)),
        decreases vs@.len() - i,
    {
        assert(vv[i as int] == opt_term_view(vs@[i as int]));
        match &vs[i] {
            Some(y) => {
                if x.same(y) || compare_terms::<N>(x, y) == Order::Equal {
                    return true;
                }
            },
            None => {},
        }
        i = i + 1;
    }
    false
}

fn take_first(vs: &Vec<Option<Term>>) -> (r: Option<Term>)
    ensures
        opt_term_view(r) == first_value(cells_view(vs@)),
{
    let ghost vv = cells_view(vs@);
    let mut i: usize = 0;
    assert(vv.skip(0) =~= vv);
    while i < vs.len()
        invariant
            i <= vs@.len(),
            vv == cells_view(vs@),
            first_value(vv) == first_value(vv.skip(i as int)),
        decreases vs@.len() - i,
    {
        assert(vv.skip(i as int)[0] == vv[i as int]);
        assert(vv.skip(i as int).drop_first() =~= vv.skip(i + 1));
        match &vs[i] {
            Some(t) => return Some(t.clone()),
            None => {},
        }
        i = i + 1;
    }
    None
}

fn eval_outcome<N: Numbers>(e: &Expr, b: &Bindings) -> (r: Outcome)
    ensures
        r@ == outcome::<N>(e@, b@),
    decreases e, 0int,
{
    match e {
        Expr::Term(Term::Var(v)) => Outcome::Value(lookup(b, v.name())),
        Expr::Term(t) => Outcome::Value(Some(t.clone())),
        Expr::Bound(v) => Outcome::Flag(b.get(v.name()).is_some()),
        Expr::Eq(x, y) => Outcome::Flag(
            same_value(&eval_expr_to_term::<N>(x, b), &eval_expr_to_term::<N>(y, b)),
        ),
        Expr::SameTerm(x, y) => Outcome::Flag(
            same_value(&eval_expr_to_term::<N>(x, b), &eval_expr_to_term::<N>(y, b)),
        ),
        Expr::Ne(x, y) => Outcome::Flag(
            !same_value(&eval_expr_to_term::<N>(x, b), &eval_expr_to_term::<N>(y, b)),
        ),
        Expr::Lt(x, y) => Outcome::Flag(
            match compare_values::<N>(&eval_expr_to_term::<N>(x, b), &eval_expr_to_term::<N>(y, b)) {
                Some(Order::Less) => true,
                _ => false,
            },
        ),
        Expr::Gt(x, y) => Outcome::Flag(
            match compare_values::<N>(&eval_expr_to_term::<N>(x, b), &eval_expr_to_term::<N>(y, b)) {
                Some(Order::Greater) => true,
                _ => false,
            },
        ),
        Expr::Le(x, y) => Outcome::Flag(
            match compare_values::<N>(&eval_expr_to_term::<N>(x, b), &eval_expr_to_term::<N>(y, b)) {
                Some(Order::Less) | Some(Order::Equal) => true,
                _ => false,
            },
        ),
        Expr::Ge(x, y) => Outcome::Flag(
            match compare_values::<N>(&eval_expr_to_term::<N>(x, b), &eval_expr_to_term::<N>(y, b)) {
                Some(Order::Greater) | Some(Order::Equal) => true,
                _ => false,
            },
        ),
        Expr::And(x, y) => Outcome::Flag(eval_expr::<N>(x, b) && eval_expr::<N>(y, b)),
        Expr::Or(x, y) => Outcome::Flag(eval_expr::<N>(x, b) || eval_expr::<N>(y, b)),
        Expr::Not(x) => Outcome::Flag(!eval_expr::<N>(x, b)),
        Expr::In(x, list) => Outcome::Flag(
            match eval_expr_to_term::<N>(x, b) {
                Some(t) => {
                    let vs = eval_list::<N>(list, b);
                    find_value::<N>(&t, &vs)
                },
                None => false,
            },
        ),
        Expr::Add(x, y) => Outcome::Value(
            arith::<N>(Arith::Plus, &eval_expr_to_term::<N>(x, b), &eval_expr_to_term::<N>(y, b)),
        ),
        Expr::Sub(x, y) => Outcome::Value(
            arith::<N>(Arith::Minus, &eval_expr_to_term::<N>(x, b), &eval_expr_to_term::<N>(y, b)),
        ),
        Expr::Mul(x, y) => Outcome::Value(
            arith::<N>(Arith::Times, &eval_expr_to_term::<N>(x, b), &eval_expr_to_term::<N>(y, b)),
        ),
        Expr::Div(x, y) => Outcome::Value(
            arith::<N>(Arith::Over, &eval_expr_to_term::<N>(x, b), &eval_expr_to_term::<N>(y, b)),
        ),
        Expr::Neg(x) => Outcome::Value(negate::<N>(&eval_expr_to_term::<N>(x, b))),
        Expr::If(c, x, y) => if eval_expr::<N>(c, b) {
            Outcome::Value(eval_expr_to_term::<N>(x, b))
        } else {
            Outcome::Value(eval_expr_to_term::<N>(y, b))
        },
        Expr::Coalesce(args) => {
            let vs = eval_list::<N>(args, b);
            Outcome::Value(take_first(&vs))
        },
        Expr::Func(f, args) => Outcome::Value(eval_func::<N>(*f, args, b)),
    }
}

/// Evaluates an expression in a boolean context.
pub fn eval_expr<N: Numbers>(e: &Expr, b: &Bindings) -> (r: bool)
    ensures
        r == truth::<N>(e@, b@),
    decreases e, 1int,
{
    match eval_outcome::<N>(e, b) {
        Outcome::Flag(v) => v,
        Outcome::Value(Some(t)) => ebv::<N>(&t),
        Outcome::Value(None) => false,
    }
}

/// Evaluates an expression to a term; `None` is an expression error.
pub fn eval_expr_to_term<N: Numbers>(e: &Expr, b: &Bindings) -> (r: Option<Term>)
    ensures
        opt_term_view(r) == value::<N>(e@, b@),
    decreases e, 1int,
{
    match eval_outcome::<N>(e, b) {
        Outcome::Flag(v) => Some(bool_typed_literal(v)),
        Outcome::Value(v) => v,
    }
}

fn eval_list<N: Numbers>(es: &Vec<Expr>, b: &Bindings) -> (r: Vec<Option<Term>>)
    ensures
        cells_view(r@) == values::<N>(exprs_view(es@), b@),
    decreases es, 2int,
{
    let ghost ev = exprs_view(es@);
    let mut out: Vec<Option<Term>> = Vec::new();
    let mut i: usize = 0;
    while i < es.len()
        invariant
            i <= es@.len(),
            i == out@.len(),
            ev == exprs_view(es@),
            forall|j: int|
                0 <= j < i ==> opt_term_view(#[trigger] out@[j]) == value::<N>(ev[j], b@),
        decreases es@.len() - i,
    {
        out.push(eval_expr_to_term::<N>(&es[i], b));
        i = i + 1;
    }
    assert(cells_view(out@) =~= values::<N>(ev, b@));
    out
}

/// Evaluates a builtin function call.
pub fn eval_func<N: Numbers>(f: Func, args: &Vec<Expr>, b: &Bindings) -> (r: Option<Term>)
    ensures
        opt_term_view(r) == func_value::<N>(f, values::<N>(exprs_view(args@), b@)),
    decreases args, 3int,
{
    let vs = eval_list::<N>(args, b);
    apply_func::<N>(f, &vs)
}

/// Do two mappings bind the variables of a set alike?
pub open spec fn agree_on(a: Map<Text, TermView>, b: Map<Text, TermView>, s: Set<Text>) -> bool {
    forall|v: Text| #[trigger] s.contains(v) ==> bound_to(a, v) == bound_to(b, v)
}

/// Mappings that agree on a set agree on its parts.
pub proof fn agree_part(a: Map<Text, TermView>, b: Map<Text, TermView>, s: Set<Text>, t: Set<Text>)
    requires
        agree_on(a, b, s),
        t.subset_of(s),
    ensures
        agree_on(a, b, t),
{
    assert forall|v: Text| #[trigger] t.contains(v) implies bound_to(a, v) == bound_to(b, v) by {
        assert(s.contains(v));
    }
}

/// Evaluation reads no variable an expression does not name: under two
/// mappings that bind the named variables alike, it comes to the same.
pub proof fn evaluation_reads_only_refs<N: Numbers>(
    e: ExprView,
    a: Map<Text, TermView>,
    b: Map<Text, TermView>,
)
    requires
        agree_on(a, b, refs(e)),
    ensures
        outcome::<N>(e, a) == outcome::<N>(e, b),
        truth::<N>(e, a) == truth::<N>(e, b),
        value::<N>(e, a) == value::<N>(e, b),
    decreases e,
{
    match e {
        ExprView::Term(TermView::Var(v)) => {
            assert(refs(e).contains(v));
        },
        ExprView::Term(_) => {},
        ExprView::Bound(v) => {
            assert(refs(e).contains(v));
        },
        ExprView::Eq(x, y)
        | ExprView::SameTerm(x, y)
        | ExprView::Ne(x, y)
        | ExprView::Lt(x, y)
        | ExprView::Gt(x, y)
        | ExprView::Le(x, y)
        | ExprView::Ge(x, y)
        | ExprView::And(x, y)
        | ExprView::Or(x, y)
        | ExprView::Add(x, y)
        | ExprView::Sub(x, y)
        | ExprView::Mul(x, y)
        | ExprView::Div(x, y) => {
            assert(refs(e) == refs(*x).union(refs(*y)));
            agree_part(a, b, refs(e), refs(*x));
            agree_part(a, b, refs(e), refs(*y));
            evaluation_reads_only_refs::<N>(*x, a, b);
            evaluation_reads_only_refs::<N>(*y, a, b);
        },
        ExprView::Not(x) | ExprView::Neg(x) => {
            assert(refs(e) == refs(*x));
            evaluation_reads_only_refs::<N>(*x, a, b);
        },
        ExprView::If(c, x, y) => {
            assert(refs(e) == refs(*c).union(refs(*x)).union(refs(*y)));
            agree_part(a, b, refs(e), refs(*c));
            agree_part(a, b, refs(e), refs(*x));
            agree_part(a, b, refs(e), refs(*y));
            evaluation_reads_only_refs::<N>(*c, a, b);
            evaluation_reads_only_refs::<N>(*x, a, b);
            evaluation_reads_only_refs::<N>(*y, a, b);
        },
        ExprView::In(x, list) => {
            assert(refs(e) == refs(*x).union(refs_all(list)));
            agree_part(a, b, refs(e), refs(*x));
            agree_part(a, b, refs(e), refs_all(list));
            evaluation_reads_only_refs::<N>(*x, a, b);
            list_reads_only_refs::<N>(list, a, b);
        },
        ExprView::Coalesce(args) => {
            assert(refs(e) == refs_all(args));
            list_reads_only_refs::<N>(args, a, b);
        },
        ExprView::Func(_, args) => {
            assert(refs(e) == refs_all(args));
            list_reads_only_refs::<N>(args, a, b);
        },
    }
}

proof fn list_reads_only_refs<N: Numbers>(
    es: Seq<ExprView>,
    a: Map<Text, TermView>,
    b: Map<Text, TermView>,
)
    requires
        agree_on(a, b, refs_all(es)),
    ensures
        values::<N>(es, a) == values::<N>(es, b),
    decreases es,
{
    assert forall|i: int| 0 <= i < es.len() implies value::<N>(#[trigger] es[i], a) == value::<N>(
        es[i],
        b,
    ) by {
        refs_of_member(es, i);
        agree_part(a, b, refs_all(es), refs(es[i]));
        evaluation_reads_only_refs::<N>(es[i], a, b);
    }
    assert(values::<N>(es, a) =~= values::<N>(es, b));
}

/// A list reads what each of its members reads.
pub proof fn refs_of_member(es: Seq<ExprView>, i: int)
    requires
        0 <= i < es.len(),
    ensures
        refs(es[i]).subset_of(refs_all(es)),
    decreases es.len(),
{
    if i < es.len() - 1 {
        refs_of_member(es.drop_last(), i);
        assert(es.drop_last()[i] == es[i]);
    }
}

}
