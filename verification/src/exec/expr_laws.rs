//! What expressions come to, by what their parts come to.

use crate::algebra::{ExprView, TermView};
use crate::exec::expr::{
    first_value, occurs_in, outcome, term_order, truth, value, values, OutcomeView,
};
use crate::exec::literal::{
    integer_view, number_of, plain_literal_round_trips, plain_view, typed_of, value_of,
};
use crate::exec::number::{Numbers, WholeNumbers};
use crate::exec::strings::truth_of;
use crate::exec::value_laws::{
    integer_literal_round_trips, integer_literals_differ, truth_literal_round_trips,
};
use crate::text::{text_order, text_order_laws, trimmed, Order, Text};
use vstd::prelude::*;

verus! {

// ── Comparisons ─────────────────────────────────────────────────────────────

pub open spec fn lt(x: ExprView, y: ExprView) -> ExprView {
    ExprView::Lt(Box::new(x), Box::new(y))
}

pub open spec fn le(x: ExprView, y: ExprView) -> ExprView {
    ExprView::Le(Box::new(x), Box::new(y))
}

pub open spec fn gt(x: ExprView, y: ExprView) -> ExprView {
    ExprView::Gt(Box::new(x), Box::new(y))
}

pub open spec fn ge(x: ExprView, y: ExprView) -> ExprView {
    ExprView::Ge(Box::new(x), Box::new(y))
}

pub open spec fn eq(x: ExprView, y: ExprView) -> ExprView {
    ExprView::Eq(Box::new(x), Box::new(y))
}

pub open spec fn ne(x: ExprView, y: ExprView) -> ExprView {
    ExprView::Ne(Box::new(x), Box::new(y))
}

pub open spec fn not(x: ExprView) -> ExprView {
    ExprView::Not(Box::new(x))
}

pub open spec fn and(x: ExprView, y: ExprView) -> ExprView {
    ExprView::And(Box::new(x), Box::new(y))
}

pub open spec fn or(x: ExprView, y: ExprView) -> ExprView {
    ExprView::Or(Box::new(x), Box::new(y))
}

/// Of two values the first is at most the second just where it is not greater,
/// and at least where it is not less; one that is less is at most; and it is
/// both at most and at least where it is neither less nor greater. Without two
/// values no comparison holds.
pub proof fn comparisons_agree<N: Numbers>(x: ExprView, y: ExprView, b: Map<Text, TermView>)
    ensures
        value::<N>(x, b) is Some && value::<N>(y, b) is Some ==> {
            &&& truth::<N>(le(x, y), b) <==> !truth::<N>(gt(x, y), b)
            &&& truth::<N>(ge(x, y), b) <==> !truth::<N>(lt(x, y), b)
            &&& truth::<N>(lt(x, y), b) ==> truth::<N>(le(x, y), b)
            &&& truth::<N>(gt(x, y), b) ==> truth::<N>(ge(x, y), b)
            &&& truth::<N>(le(x, y), b) && truth::<N>(ge(x, y), b) <==> !truth::<N>(lt(x, y), b)
                && !truth::<N>(gt(x, y), b)
            &&& truth::<N>(le(x, y), b) && truth::<N>(ge(x, y), b) <==> term_order::<N>(
                value::<N>(x, b)->0,
                value::<N>(y, b)->0,
            ) == Order::Equal
        },
        value::<N>(x, b) is None || value::<N>(y, b) is None ==> {
            &&& !truth::<N>(lt(x, y), b) && !truth::<N>(gt(x, y), b)
            &&& !truth::<N>(le(x, y), b) && !truth::<N>(ge(x, y), b)
        },
{
}

/// Where two values have an order, comparing them the other way round exchanges
/// less and greater.
pub proof fn comparisons_turn_round<N: Numbers>(x: ExprView, y: ExprView, b: Map<Text, TermView>)
    requires
        value::<N>(x, b) matches Some(s) ==> number_of::<N>(s) matches Some(n) ==> !N::unordered(n),
        value::<N>(y, b) matches Some(s) ==> number_of::<N>(s) matches Some(n) ==> !N::unordered(n),
    ensures
        truth::<N>(lt(x, y), b) <==> truth::<N>(gt(y, x), b),
        truth::<N>(le(x, y), b) <==> truth::<N>(ge(y, x), b),
{
    if let (Some(s), Some(t)) = (value::<N>(x, b), value::<N>(y, b)) {
        if let (Some(m), Some(n)) = (number_of::<N>(s), number_of::<N>(t)) {
            N::order_laws(m, n, m);
        } else {
            text_order_laws(value_of(s), value_of(t), value_of(s));
        }
    }
}

/// Values that read as numbers compare as numbers.
pub proof fn numbers_compare_as_numbers<N: Numbers>(
    x: ExprView,
    y: ExprView,
    b: Map<Text, TermView>,
    s: TermView,
    t: TermView,
    m: N::Num,
    n: N::Num,
)
    requires
        value::<N>(x, b) == Some(s),
        value::<N>(y, b) == Some(t),
        number_of::<N>(s) == Some(m),
        number_of::<N>(t) == Some(n),
    ensures
        truth::<N>(lt(x, y), b) <==> N::order(m, n) == Order::Less,
        truth::<N>(gt(x, y), b) <==> N::order(m, n) == Order::Greater,
{
}

/// Integers compare as integers.
pub proof fn integers_compare(x: ExprView, y: ExprView, b: Map<Text, TermView>, m: i64, n: i64)
    requires
        value::<WholeNumbers>(x, b) == Some(integer_view(m as int)),
        value::<WholeNumbers>(y, b) == Some(integer_view(n as int)),
    ensures
        truth::<WholeNumbers>(lt(x, y), b) <==> m < n,
        truth::<WholeNumbers>(le(x, y), b) <==> m <= n,
        truth::<WholeNumbers>(gt(x, y), b) <==> m > n,
        truth::<WholeNumbers>(ge(x, y), b) <==> m >= n,
        truth::<WholeNumbers>(eq(x, y), b) <==> m == n,
        truth::<WholeNumbers>(ne(x, y), b) <==> m != n,
{
    integer_literal_round_trips(m);
    integer_literal_round_trips(n);
    integer_literals_differ(m, n);
}

/// Texts one of which is no number compare by their first difference.
pub proof fn texts_compare<N: Numbers>(
    x: ExprView,
    y: ExprView,
    b: Map<Text, TermView>,
    s: Text,
    t: Text,
)
    requires
        value::<N>(x, b) == Some(plain_view(s)),
        value::<N>(y, b) == Some(plain_view(t)),
        N::parsed(trimmed(s)) is None || N::parsed(trimmed(t)) is None,
    ensures
        truth::<N>(lt(x, y), b) <==> text_order(s, t) == Order::Less,
        truth::<N>(gt(x, y), b) <==> text_order(s, t) == Order::Greater,
        truth::<N>(eq(x, y), b) <==> s == t,
{
    plain_literal_round_trips(s);
    plain_literal_round_trips(t);
}

/// Equality is that of the values, `sameTerm` is equality, and inequality holds
/// just where equality does not. It is an equivalence.
pub proof fn equality_is_of_values<N: Numbers>(
    x: ExprView,
    y: ExprView,
    z: ExprView,
    b: Map<Text, TermView>,
)
    ensures
        value::<N>(x, b) matches Some(s) ==> value::<N>(y, b) matches Some(t) ==> (truth::<N>(
            eq(x, y),
            b,
        ) <==> s == t),
        (value::<N>(x, b) is Some) != (value::<N>(y, b) is Some) ==> !truth::<N>(eq(x, y), b),
        truth::<N>(ne(x, y), b) <==> !truth::<N>(eq(x, y), b),
        truth::<N>(ExprView::SameTerm(Box::new(x), Box::new(y)), b) <==> truth::<N>(eq(x, y), b),
        truth::<N>(eq(x, x), b),
        truth::<N>(eq(x, y), b) ==> truth::<N>(eq(y, x), b),
        truth::<N>(eq(x, y), b) && truth::<N>(eq(y, z), b) ==> truth::<N>(eq(x, z), b),
{
}

// ── Logic ───────────────────────────────────────────────────────────────────

/// A conjunction holds where both parts do, a disjunction where one does, and a
/// negation where its part does not.
pub proof fn connectives<N: Numbers>(x: ExprView, y: ExprView, b: Map<Text, TermView>)
    ensures
        truth::<N>(and(x, y), b) <==> truth::<N>(x, b) && truth::<N>(y, b),
        truth::<N>(or(x, y), b) <==> truth::<N>(x, b) || truth::<N>(y, b),
        truth::<N>(not(x), b) <==> !truth::<N>(x, b),
        truth::<N>(not(and(x, y)), b) <==> truth::<N>(or(not(x), not(y)), b),
        truth::<N>(not(or(x, y)), b) <==> truth::<N>(and(not(x), not(y)), b),
        truth::<N>(not(not(x)), b) <==> truth::<N>(x, b),
{
    reveal_with_fuel(truth, 4);
    reveal_with_fuel(outcome, 4);
}

/// The truth of an expression is that of its value; without a value it does not
/// hold.
pub proof fn truth_goes_by_the_value<N: Numbers>(e: ExprView, b: Map<Text, TermView>)
    ensures
        truth::<N>(e, b) <==> (value::<N>(e, b) matches Some(t) && truth_of::<N>(t)),
{
    if let OutcomeView::Flag(v) = outcome::<N>(e, b) {
        truth_literal_round_trips::<N>(v);
    }
}

/// A variable has the value it is bound to and none where it is not bound, which
/// is what `BOUND` tells; another term has itself for its value.
pub proof fn variables_have_their_bindings<N: Numbers>(t: TermView, v: Text, b: Map<Text, TermView>)
    ensures
        b.contains_key(v) ==> value::<N>(ExprView::Term(TermView::Var(v)), b) == Some(b[v]),
        !b.contains_key(v) ==> value::<N>(ExprView::Term(TermView::Var(v)), b) is None,
        truth::<N>(ExprView::Bound(v), b) <==> b.contains_key(v),
        !(t is Var) ==> value::<N>(ExprView::Term(t), b) == Some(t),
{
}

/// A value is in a list where it equals a value of the list, or is neither less
/// nor greater than it.
pub proof fn membership_is_some_equality<N: Numbers>(
    x: ExprView,
    list: Seq<ExprView>,
    b: Map<Text, TermView>,
)
    ensures
        truth::<N>(ExprView::In(Box::new(x), list), b) <==> value::<N>(x, b) is Some && exists|
            i: int,
        |
            0 <= i < list.len() && value::<N>(#[trigger] list[i], b) is Some && (truth::<N>(
                eq(x, list[i]),
                b,
            ) || (truth::<N>(le(x, list[i]), b) && truth::<N>(ge(x, list[i]), b))),
{
    let vs = values::<N>(list, b);
    let e = ExprView::In(Box::new(x), list);
    if let Some(t) = value::<N>(x, b) {
        assert(truth::<N>(e, b) == occurs_in::<N>(t, vs));
        if occurs_in::<N>(t, vs) {
            let i = choose|i: int|
                0 <= i < vs.len() && (#[trigger] vs[i]) is Some && (t == vs[i]->0 || term_order::<
                    N,
                >(t, vs[i]->0) == Order::Equal);
            assert(vs[i] == value::<N>(list[i], b));
            comparisons_agree::<N>(x, list[i], b);
            equality_is_of_values::<N>(x, list[i], x, b);
        }
        if exists|i: int|
            0 <= i < list.len() && value::<N>(#[trigger] list[i], b) is Some && (truth::<N>(
                eq(x, list[i]),
                b,
            ) || (truth::<N>(le(x, list[i]), b) && truth::<N>(ge(x, list[i]), b))) {
            let i = choose|i: int|
                0 <= i < list.len() && value::<N>(#[trigger] list[i], b) is Some && (truth::<N>(
                    eq(x, list[i]),
                    b,
                ) || (truth::<N>(le(x, list[i]), b) && truth::<N>(ge(x, list[i]), b)));
            comparisons_agree::<N>(x, list[i], b);
            equality_is_of_values::<N>(x, list[i], x, b);
            assert(vs[i] == value::<N>(list[i], b));
        }
    } else {
        assert(!truth::<N>(e, b));
    }
}

/// `IF` has the value of the branch its condition selects.
pub proof fn a_condition_selects<N: Numbers>(
    c: ExprView,
    x: ExprView,
    y: ExprView,
    b: Map<Text, TermView>,
)
    ensures
        truth::<N>(c, b) ==> value::<N>(ExprView::If(Box::new(c), Box::new(x), Box::new(y)), b)
            == value::<N>(x, b),
        !truth::<N>(c, b) ==> value::<N>(ExprView::If(Box::new(c), Box::new(x), Box::new(y)), b)
            == value::<N>(y, b),
{
}

proof fn first_value_facts(vs: Seq<Option<TermView>>)
    ensures
        first_value(vs) is None ==> forall|i: int| 0 <= i < vs.len() ==> (#[trigger] vs[i]) is None,
        first_value(vs) is Some ==> exists|i: int|
            0 <= i < vs.len() && #[trigger] vs[i] == first_value(vs) && forall|j: int|
                0 <= j < i ==> (#[trigger] vs[j]) is None,
    decreases vs.len(),
{
    if vs.len() > 0 {
        if vs[0] is Some {
            assert(vs[0] == first_value(vs));
        } else {
            let rest = vs.drop_first();
            first_value_facts(rest);
            if first_value(rest) is Some {
                let i = choose|i: int|
                    0 <= i < rest.len() && #[trigger] rest[i] == first_value(rest) && forall|
                        j: int,
                    |
                        0 <= j < i ==> (#[trigger] rest[j]) is None;
                assert(vs[i + 1] == first_value(vs));
                assert forall|j: int| 0 <= j < i + 1 implies (#[trigger] vs[j]) is None by {
                    if j > 0 {
                        assert(rest[j - 1] == vs[j]);
                    }
                }
            } else {
                assert forall|i: int| 0 <= i < vs.len() implies (#[trigger] vs[i]) is None by {
                    if i > 0 {
                        assert(rest[i - 1] == vs[i]);
                    }
                }
            }
        }
    }
}

/// `COALESCE` has the value of the first argument that has one.
pub proof fn the_first_value_counts<N: Numbers>(args: Seq<ExprView>, b: Map<Text, TermView>)
    ensures
        value::<N>(ExprView::Coalesce(args), b) is None ==> forall|i: int|
            0 <= i < args.len() ==> value::<N>(#[trigger] args[i], b) is None,
        value::<N>(ExprView::Coalesce(args), b) is Some ==> exists|i: int|
            0 <= i < args.len() && value::<N>(#[trigger] args[i], b) == value::<N>(
                ExprView::Coalesce(args),
                b,
            ) && forall|j: int| 0 <= j < i ==> value::<N>(#[trigger] args[j], b) is None,
{
    let vs = values::<N>(args, b);
    let e = ExprView::Coalesce(args);
    first_value_facts(vs);
    assert(value::<N>(e, b) == first_value(vs));
    if first_value(vs) is Some {
        let i = choose|i: int|
            0 <= i < vs.len() && #[trigger] vs[i] == first_value(vs) && forall|j: int|
                0 <= j < i ==> (#[trigger] vs[j]) is None;
        assert(value::<N>(args[i], b) == vs[i]);
        assert forall|j: int| 0 <= j < i implies value::<N>(#[trigger] args[j], b) is None by {
            assert(vs[j] == value::<N>(args[j], b));
        }
    } else {
        assert forall|i: int| 0 <= i < args.len() implies value::<N>(#[trigger] args[i], b) is None by {
            assert(vs[i] == value::<N>(args[i], b));
        }
    }
}

// ── Arithmetic ──────────────────────────────────────────────────────────────

/// Arithmetic on integers is that of integers, where the result fits 64 bits:
/// a sum, a difference, a product and an opposite are these, and a quotient is
/// the integer that multiplied by the divisor makes the dividend.
pub proof fn integers_calculate(x: ExprView, y: ExprView, b: Map<Text, TermView>, m: i64, n: i64)
    requires
        value::<WholeNumbers>(x, b) == Some(integer_view(m as int)),
        value::<WholeNumbers>(y, b) == Some(integer_view(n as int)),
    ensures
        i64::MIN <= m + n <= i64::MAX ==> value::<WholeNumbers>(
            ExprView::Add(Box::new(x), Box::new(y)),
            b,
        ) == Some(integer_view(m + n)),
        i64::MIN <= m - n <= i64::MAX ==> value::<WholeNumbers>(
            ExprView::Sub(Box::new(x), Box::new(y)),
            b,
        ) == Some(integer_view(m - n)),
        i64::MIN <= m * n <= i64::MAX ==> value::<WholeNumbers>(
            ExprView::Mul(Box::new(x), Box::new(y)),
            b,
        ) == Some(integer_view(m * n)),
        forall|q: i64|
            n != 0 && q * n == m ==> value::<WholeNumbers>(
                ExprView::Div(Box::new(x), Box::new(y)),
                b,
            ) == Some(#[trigger] integer_view(q as int)),
        n == 0 ==> value::<WholeNumbers>(ExprView::Div(Box::new(x), Box::new(y)), b) is None,
        m != i64::MIN ==> value::<WholeNumbers>(ExprView::Neg(Box::new(x)), b) == Some(
            integer_view(-m),
        ),
{
    integer_literal_round_trips(m);
    integer_literal_round_trips(n);
    assert forall|q: i64| n != 0 && q * n == m implies value::<WholeNumbers>(
        ExprView::Div(Box::new(x), Box::new(y)),
        b,
    ) == Some(#[trigger] integer_view(q as int)) by {
        let (p, d, r) = (m as int, n as int, q as int);
        assert(p % d == 0 && p / d == r) by (nonlinear_arith)
            requires
                d != 0,
                r * d == p,
        ;
    }
}

/// Arithmetic has a value only on literals that are numbers.
pub proof fn only_numbers_calculate<N: Numbers>(x: ExprView, y: ExprView, b: Map<Text, TermView>)
    requires
        value::<N>(x, b) is None || typed_of::<N>(value::<N>(x, b)->0) is None || value::<N>(y, b)
            is None || typed_of::<N>(value::<N>(y, b)->0) is None,
    ensures
        value::<N>(ExprView::Add(Box::new(x), Box::new(y)), b) is None,
        value::<N>(ExprView::Sub(Box::new(x), Box::new(y)), b) is None,
        value::<N>(ExprView::Mul(Box::new(x), Box::new(y)), b) is None,
        value::<N>(ExprView::Div(Box::new(x), Box::new(y)), b) is None,
{
}

}
