//! Aggregates over the members of a group.

use crate::algebra::{opt_term_view, AggFunc, AggFuncView, Aggregate, AggregateView, Expr, ExprView, Term, TermView};
use crate::exec::bindings::{bindings_view, Bindings};
use crate::exec::expr::{eval_expr_to_term, value};
use crate::exec::literal::{
    integer_literal, integer_view, lex, lex_of, literal_value, number_of, numeric_of, numeric_value,
    typed_of, value_of,
};
use crate::exec::number::{Arith, Numbers};
use crate::text::{chars_of, compare_text, push_char, text_order, Order, Text};
use vstd::prelude::*;
use vstd::string::*;

verus! {

/// The terms of a sequence, as views.
pub open spec fn term_list(s: Seq<Term>) -> Seq<TermView> {
    Seq::new(s.len(), |i: int| s[i]@)
}

/// The values an expression has over the members of a group, in order.
pub open spec fn present_values<N: Numbers>(e: ExprView, members: Seq<Map<Text, TermView>>) -> Seq<
    TermView,
>
    decreases members.len(),
{
    if members.len() == 0 {
        Seq::empty()
    } else {
        let rest = present_values::<N>(e, members.drop_last());
        match value::<N>(e, members.last()) {
            Some(t) => rest.push(t),
            None => rest,
        }
    }
}

/// A sequence without repetitions: each item where it first occurs.
pub open spec fn deduped<A>(s: Seq<A>) -> Seq<A>
    decreases s.len(),
{
    if s.len() == 0 {
        Seq::empty()
    } else {
        let rest = deduped(s.drop_last());
        if rest.contains(s.last()) {
            rest
        } else {
            rest.push(s.last())
        }
    }
}

/// Removing repetitions keeps the members, each once.
pub proof fn deduped_facts<A>(s: Seq<A>)
    ensures
        deduped(s).no_duplicates(),
        forall|x: A| #[trigger] deduped(s).contains(x) <==> s.contains(x),
    decreases s.len(),
{
    if s.len() > 0 {
        let p = s.drop_last();
        let rest = deduped(p);
        deduped_facts(p);
        assert forall|x: A| #[trigger] deduped(s).contains(x) <==> s.contains(x) by {
            if s.contains(x) {
                let k = choose|k: int| 0 <= k < s.len() && s[k] == x;
                if k < p.len() {
                    assert(p[k] == x);
                    assert(p.contains(x));
                    assert(rest.contains(x));
                    let j = choose|j: int| 0 <= j < rest.len() && rest[j] == x;
                    if !rest.contains(s.last()) {
                        assert(rest.push(s.last())[j] == x);
                    }
                } else if !rest.contains(s.last()) {
                    assert(rest.push(s.last())[rest.len() as int] == x);
                }
            }
            if deduped(s).contains(x) {
                if rest.contains(x) {
                    assert(p.contains(x));
                    let k = choose|k: int| 0 <= k < p.len() && p[k] == x;
                    assert(s[k] == x);
                } else {
                    let k = choose|k: int| 0 <= k < deduped(s).len() && deduped(s)[k] == x;
                    if k < rest.len() {
                        assert(rest[k] == x);
                    }
                    assert(x == s.last());
                    assert(s[s.len() - 1] == x);
                }
            }
        }
    }
}

/// The sum of typed numbers; a term that is none, or an overflow, is in error.
pub open spec fn sum_of<N: Numbers>(vals: Seq<TermView>) -> Option<N::Typed>
    decreases vals.len(),
{
    if vals.len() == 0 {
        Some(N::typed_integer(0))
    } else {
        match (sum_of::<N>(vals.drop_last()), typed_of::<N>(vals.last())) {
            (Some(a), Some(b)) => N::binary(Arith::Plus, a, b),
            _ => None,
        }
    }
}

pub open spec fn all_numbers<N: Numbers>(vals: Seq<TermView>) -> bool {
    forall|i: int| 0 <= i < vals.len() ==> number_of::<N>(#[trigger] vals[i]) is Some
}

/// Does `a` replace `b` as the least (or greatest) value?
pub open spec fn better<N: Numbers>(a: TermView, b: TermView, numeric: bool, min: bool) -> bool {
    let o = if numeric {
        N::order(number_of::<N>(a)->0, number_of::<N>(b)->0)
    } else {
        text_order(lex_of(a), lex_of(b))
    };
    if min {
        o == Order::Less
    } else {
        o == Order::Greater
    }
}

/// The first of the least (or greatest) values.
pub open spec fn best_of<N: Numbers>(vals: Seq<TermView>, numeric: bool, min: bool) -> Option<
    TermView,
>
    decreases vals.len(),
{
    if vals.len() == 0 {
        None
    } else {
        match best_of::<N>(vals.drop_last(), numeric, min) {
            None => Some(vals.last()),
            Some(b) => if better::<N>(vals.last(), b, numeric, min) {
                Some(vals.last())
            } else {
                Some(b)
            },
        }
    }
}

/// The extreme of a multiset: by number where all values are numbers, else by
/// lexical form.
pub open spec fn extreme_of<N: Numbers>(vals: Seq<TermView>, min: bool) -> Option<TermView> {
    best_of::<N>(vals, all_numbers::<N>(vals), min)
}

/// The lexical values, with a separator between them.
pub open spec fn joined(vals: Seq<TermView>, separator: Text) -> Text
    decreases vals.len(),
{
    if vals.len() == 0 {
        Seq::empty()
    } else if vals.len() == 1 {
        value_of(vals[0])
    } else {
        joined(vals.drop_last(), separator) + separator + value_of(vals.last())
    }
}

/// A text with every quote escaped.
pub open spec fn quotes_escaped(s: Text) -> Text
    decreases s.len(),
{
    if s.len() == 0 {
        Seq::empty()
    } else {
        quotes_escaped(s.drop_last()) + (if s.last() == '"' {
            seq!['\\', '"']
        } else {
            seq![s.last()]
        })
    }
}

/// The values an aggregate is over.
pub open spec fn agg_input<N: Numbers>(
    e: ExprView,
    distinct: bool,
    members: Seq<Map<Text, TermView>>,
) -> Seq<TermView> {
    if distinct {
        deduped(present_values::<N>(e, members))
    } else {
        present_values::<N>(e, members)
    }
}

pub open spec fn count_view(n: nat) -> TermView {
    integer_view(n as i64 as int)
}

pub open spec fn average_of<N: Numbers>(vals: Seq<TermView>) -> Option<TermView> {
    if vals.len() == 0 {
        Some(integer_view(0))
    } else {
        match sum_of::<N>(vals) {
            Some(s) => match N::binary(Arith::Over, s, N::typed_integer(vals.len() as i64)) {
                Some(q) => Some(TermView::Literal(N::literal(q))),
                None => None,
            },
            None => None,
        }
    }
}

/// The value of an aggregate over the members of a group.
pub open spec fn agg_value<N: Numbers>(
    agg: AggregateView,
    members: Seq<Map<Text, TermView>>,
) -> Option<TermView> {
    match agg.func {
        AggFuncView::CountStar => Some(
            count_view(
                if agg.distinct {
                    deduped(members).len()
                } else {
                    members.len()
                },
            ),
        ),
        AggFuncView::Count(e) => Some(count_view(agg_input::<N>(e, agg.distinct, members).len())),
        AggFuncView::Sum(e) => match sum_of::<N>(agg_input::<N>(e, agg.distinct, members)) {
            Some(s) => Some(TermView::Literal(N::literal(s))),
            None => None,
        },
        AggFuncView::Avg(e) => average_of::<N>(agg_input::<N>(e, agg.distinct, members)),
        AggFuncView::Min(e) => extreme_of::<N>(agg_input::<N>(e, agg.distinct, members), true),
        AggFuncView::Max(e) => extreme_of::<N>(agg_input::<N>(e, agg.distinct, members), false),
        AggFuncView::Sample(e) => {
            let vals = agg_input::<N>(e, agg.distinct, members);
            if vals.len() > 0 {
                Some(vals[0])
            } else {
                None
            }
        },
        AggFuncView::GroupConcat { expr, separator } => Some(
            TermView::Literal(
                "\""@ + quotes_escaped(
                    joined(agg_input::<N>(expr, agg.distinct, members), separator),
                ) + "\""@,
            ),
        ),
    }
}

/// Is a term among others?
fn holds_term(ts: &Vec<Term>, t: &Term) -> (r: bool)
    ensures
        r == term_list(ts@).contains(t@),
{
    let ghost tv = term_list(ts@);
    let mut i: usize = 0;
    while i < ts.len()
        invariant
            i <= ts@.len(),
            tv == term_list(ts@),
            forall|j: int| 0 <= j < i ==> tv[j] != t@,
        decreases ts@.len() - i,
    {
        if ts[i].same(t) {
            assert(tv[i as int] == t@);
            return true;
        }
        i = i + 1;
    }
    false
}

/// Removes repeated terms, keeping the first of each.
pub fn dedup_terms(vals: Vec<Term>) -> (r: Vec<Term>)
    ensures
        term_list(r@) == deduped(term_list(vals@)),
{
    let ghost vv = term_list(vals@);
    let mut out: Vec<Term> = Vec::new();
    assert(term_list(out@) =~= deduped(vv.take(0)));
    for t in it: vals
        invariant
            vv == term_list(it.seq()),
            term_list(out@) == deduped(vv.take(it.index() as int)),
    {
        let ghost i = it.index() as int;
        proof {
            assert(vv.take(i + 1).drop_last() =~= vv.take(i));
            assert(vv.take(i + 1).last() == vv[i]);
            assert(vv[i] == t@);
        }
        let ghost before = term_list(out@);
        if !holds_term(&out, &t) {
            out.push(t);
            assert(term_list(out@) =~= before.push(t@));
        }
    }
    assert(vv.take(vv.len() as int) =~= vv);
    out
}

fn collect_values<N: Numbers>(e: &Expr, distinct: bool, members: &Vec<Bindings>) -> (r: Vec<Term>)
    ensures
        term_list(r@) == agg_input::<N>(e@, distinct, bindings_view(members@)),
{
    let ghost mv = bindings_view(members@);
    let mut out: Vec<Term> = Vec::new();
    let mut i: usize = 0;
    assert(term_list(out@) =~= present_values::<N>(e@, mv.take(0)));
    while i < members.len()
        invariant
            i <= members@.len(),
            mv == bindings_view(members@),
            term_list(out@) == present_values::<N>(e@, mv.take(i as int)),
        decreases members@.len() - i,
    {
        proof {
            assert(mv.take(i + 1).drop_last() =~= mv.take(i as int));
            assert(mv.take(i + 1).last() == mv[i as int]);
        }
        let ghost before = term_list(out@);
        match eval_expr_to_term::<N>(e, &members[i]) {
            Some(t) => {
                out.push(t);
                assert(term_list(out@) =~= before.push(t@));
            },
            None => {},
        }
        i = i + 1;
    }
    assert(mv.take(mv.len() as int) =~= mv);
    if distinct {
        dedup_terms(out)
    } else {
        out
    }
}

/// Folds terms into their numeric sum.
pub fn numeric_sum<N: Numbers>(vals: &Vec<Term>) -> (r: Option<N::Typed>)
    ensures
        r == sum_of::<N>(term_list(vals@)),
{
    let ghost vv = term_list(vals@);
    let mut sum: Option<N::Typed> = Some(N::from_integer(0));
    let mut i: usize = 0;
    while i < vals.len()
        invariant
            i <= vals@.len(),
            vv == term_list(vals@),
            sum == sum_of::<N>(vv.take(i as int)),
        decreases vals@.len() - i,
    {
        proof {
            assert(vv.take(i + 1).drop_last() =~= vv.take(i as int));
            assert(vv.take(i + 1).last() == vv[i as int]);
        }
        sum = match (sum, numeric_of::<N>(&vals[i])) {
            (Some(a), Some(b)) => N::apply_binary(Arith::Plus, a, b),
            _ => None,
        };
        i = i + 1;
    }
    assert(vv.take(vv.len() as int) =~= vv);
    sum
}

fn is_better<N: Numbers>(a: &Term, b: &Term, numeric: bool, min: bool) -> (r: bool)
    requires
        numeric ==> number_of::<N>(a@) is Some && number_of::<N>(b@) is Some,
    ensures
        r == better::<N>(a@, b@, numeric, min),
{
    let o = if numeric {
        match (numeric_value::<N>(a), numeric_value::<N>(b)) {
            (Some(x), Some(y)) => N::compare(&x, &y),
            _ => Order::Equal,
        }
    } else {
        let x = lex(a);
        let y = lex(b);
        compare_text(x.as_str(), y.as_str())
    };
    if min {
        o == Order::Less
    } else {
        o == Order::Greater
    }
}

/// The least (or greatest) of some terms.
pub fn aggregate_extreme<N: Numbers>(vals: &Vec<Term>, min: bool) -> (r: Option<Term>)
    ensures
        opt_term_view(r) == extreme_of::<N>(term_list(vals@), min),
{
    let ghost vv = term_list(vals@);
    if vals.len() == 0 {
        return None;
    }
    let mut numeric = true;
    let mut i: usize = 0;
    while i < vals.len()
        invariant
            i <= vals@.len(),
            vv == term_list(vals@),
            numeric <==> forall|j: int| 0 <= j < i ==> number_of::<N>(#[trigger] vv[j]) is Some,
        decreases vals@.len() - i,
    {
        match numeric_value::<N>(&vals[i]) {
            Some(_) => {},
            None => {
                assert(number_of::<N>(vv[i as int]) is None);
                numeric = false;
            },
        }
        i = i + 1;
    }
    assert(numeric == all_numbers::<N>(vv));
    let mut best: usize = 0;
    let mut k: usize = 1;
    assert(vv.take(1).drop_last() =~= Seq::<TermView>::empty());
    assert(vv.take(1).last() == vv[0]);
    assert(best_of::<N>(vv.take(1).drop_last(), numeric, min) is None);
    while k < vals.len()
        invariant
            1 <= k <= vals@.len(),
            best < vals@.len(),
            vv == term_list(vals@),
            numeric ==> forall|j: int| 0 <= j < vv.len() ==> number_of::<N>(#[trigger] vv[j]) is Some,
            best_of::<N>(vv.take(k as int), numeric, min) == Some(vv[best as int]),
        decreases vals@.len() - k,
    {
        proof {
            assert(vv.take(k + 1).drop_last() =~= vv.take(k as int));
            assert(vv.take(k + 1).last() == vv[k as int]);
            assert(vv[k as int] == vals@[k as int]@);
            assert(vv[best as int] == vals@[best as int]@);
        }
        if is_better::<N>(&vals[k], &vals[best], numeric, min) {
            best = k;
        }
        k = k + 1;
    }
    assert(vv.take(vv.len() as int) =~= vv);
    Some(vals[best].clone())
}

/// The lexical values of some terms, with a separator between them.
fn join_values(vals: &Vec<Term>, separator: &str) -> (r: String)
    ensures
        r@ == joined(term_list(vals@), separator@),
{
    let ghost vv = term_list(vals@);
    let mut out = String::new();
    let mut i: usize = 0;
    while i < vals.len()
        invariant
            i <= vals@.len(),
            vv == term_list(vals@),
            out@ == joined(vv.take(i as int), separator@),
        decreases vals@.len() - i,
    {
        proof {
            assert(vv.take(i + 1).drop_last() =~= vv.take(i as int));
            assert(vv.take(i + 1).last() == vv[i as int]);
            assert(vv.take(i + 1)[0] == vv[0]);
        }
        if i > 0 {
            out.append(separator);
        }
        let v = literal_value(&vals[i]);
        out.append(v.as_str());
        i = i + 1;
        assert(out@ =~= joined(vv.take(i as int), separator@));
    }
    assert(vv.take(vv.len() as int) =~= vv);
    out
}

fn escape_quotes(s: &str) -> (r: String)
    ensures
        r@ == quotes_escaped(s@),
{
    let cs = chars_of(s);
    let mut out = String::new();
    let mut i: usize = 0;
    assert(out@ =~= quotes_escaped(cs@.take(0)));
    while i < cs.len()
        invariant
            i <= cs@.len(),
            out@ == quotes_escaped(cs@.take(i as int)),
        decreases cs@.len() - i,
    {
        proof {
            assert(cs@.take(i + 1).drop_last() =~= cs@.take(i as int));
            assert(cs@.take(i + 1).last() == cs@[i as int]);
        }
        let ghost before = out@;
        if cs[i] == '"' {
            push_char(&mut out, '\\');
            push_char(&mut out, '"');
            assert(out@ =~= before + seq!['\\', '"']);
        } else {
            push_char(&mut out, cs[i]);
            assert(out@ =~= before + seq![cs@[i as int]]);
        }
        i = i + 1;
    }
    assert(cs@.take(cs@.len() as int) =~= cs@);
    out
}

/// The number of distinct solution mappings.
fn count_distinct(members: &Vec<Bindings>) -> (r: usize)
    ensures
        r == deduped(bindings_view(members@)).len(),
{
    let ghost mv = bindings_view(members@);
    let mut firsts: Vec<usize> = Vec::new();
    let ghost mut kept: Seq<Map<Text, TermView>> = Seq::empty();
    let mut i: usize = 0;
    while i < members.len()
        invariant
            i <= members@.len(),
            mv == bindings_view(members@),
            kept == deduped(mv.take(i as int)),
            kept.len() == firsts@.len(),
            forall|k: int|
                0 <= k < firsts@.len() ==> #[trigger] firsts@[k] < members@.len()
                    && mv[firsts@[k] as int] == kept[k],
        decreases members@.len() - i,
    {
        proof {
            assert(mv.take(i + 1).drop_last() =~= mv.take(i as int));
            assert(mv.take(i + 1).last() == mv[i as int]);
        }
        let mut found = false;
        let mut k: usize = 0;
        while k < firsts.len() && !found
            invariant
                i < members@.len(),
                mv == bindings_view(members@),
                k <= firsts@.len(),
                kept.len() == firsts@.len(),
                forall|k: int|
                    0 <= k < firsts@.len() ==> #[trigger] firsts@[k] < members@.len()
                        && mv[firsts@[k] as int] == kept[k],
                found ==> kept.contains(mv[i as int]),
                !found ==> forall|q: int| 0 <= q < k ==> kept[q] != mv[i as int],
            decreases firsts@.len() - k,
        {
            let f: usize = firsts[k];
            if members[f].same(&members[i]) {
                found = true;
                assert(kept[k as int] == mv[i as int]);
            }
            k = k + 1;
        }
        if !found {
            assert(!kept.contains(mv[i as int]));
            firsts.push(i);
            proof {
                kept = kept.push(mv[i as int]);
            }
        }
        i = i + 1;
    }
    assert(mv.take(mv.len() as int) =~= mv);
    firsts.len()
}

fn typed_term<N: Numbers>(n: Option<N::Typed>) -> (r: Option<Term>)
    ensures
        opt_term_view(r) == (match n {
            Some(v) => Some(TermView::Literal(N::literal(v))),
            None => None,
        }),
{
    match n {
        Some(v) => Some(Term::Literal(N::to_literal(v))),
        None => None,
    }
}

/// The average of some terms.
pub fn average<N: Numbers>(vals: &Vec<Term>) -> (r: Option<Term>)
    ensures
        opt_term_view(r) == average_of::<N>(term_list(vals@)),
{
    if vals.len() == 0 {
        return Some(integer_literal(0));
    }
    match numeric_sum::<N>(vals) {
        Some(s) => typed_term::<N>(
            N::apply_binary(Arith::Over, s, N::from_integer(vals.len() as i64)),
        ),
        None => None,
    }
}

/// The value of one aggregate over a group's members.
pub fn eval_aggregate<N: Numbers>(agg: &Aggregate, members: &Vec<Bindings>) -> (r: Option<Term>)
    ensures
        opt_term_view(r) == agg_value::<N>(agg@, bindings_view(members@)),
{
    match &agg.func {
        AggFunc::CountStar => {
            let n: usize = if agg.distinct {
                count_distinct(members)
            } else {
                members.len()
            };
            Some(integer_literal(n as i64))
        },
        AggFunc::Count(e) => {
            let vals = collect_values::<N>(e, agg.distinct, members);
            assert(term_list(vals@).len() == vals@.len());
            Some(integer_literal(vals.len() as i64))
        },
        AggFunc::Sum(e) => {
            let vals = collect_values::<N>(e, agg.distinct, members);
            typed_term::<N>(numeric_sum::<N>(&vals))
        },
        AggFunc::Avg(e) => {
            let vals = collect_values::<N>(e, agg.distinct, members);
            average::<N>(&vals)
        },
        AggFunc::Min(e) => {
            let vals = collect_values::<N>(e, agg.distinct, members);
            aggregate_extreme::<N>(&vals, true)
        },
        AggFunc::Max(e) => {
            let vals = collect_values::<N>(e, agg.distinct, members);
            aggregate_extreme::<N>(&vals, false)
        },
        AggFunc::Sample(e) => {
            let vals = collect_values::<N>(e, agg.distinct, members);
            assert(term_list(vals@).len() == vals@.len());
            if vals.len() > 0 {
                Some(vals[0].clone())
            } else {
                None
            }
        },
        AggFunc::GroupConcat { expr, separator } => {
            let vals = collect_values::<N>(expr, agg.distinct, members);
            let text = join_values(&vals, separator.as_str());
            let body = escape_quotes(text.as_str());
            let mut out = "\"".to_owned();
            out.append(body.as_str());
            out.append("\"");
            Some(Term::Literal(out))
        },
    }
}

}
