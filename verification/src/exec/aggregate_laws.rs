//! What aggregates are, by the values they are over.

use crate::algebra::{AggFuncView, AggregateView, ExprView, TermView};
use crate::exec::aggregate::{
    agg_input, agg_value, all_numbers, best_of, better, deduped, deduped_facts, extreme_of, joined,
    present_values, quotes_escaped, sum_of,
};
use crate::exec::expr::value;
use crate::exec::literal::{
    closing_quote, integer_view, lex_of, number_of, trimmed_tight, typed_of, unescaped, value_of,
};
use crate::exec::number::{Numbers, WholeNumbers};
use crate::exec::value_laws::integer_literal_round_trips;
use crate::text::{text_order, text_order_laws, Order, Text};
use vstd::prelude::*;

verus! {

// ── The values ──────────────────────────────────────────────────────────────

/// The aggregate of a function, with or without `DISTINCT`.
pub open spec fn plain_aggregate(func: AggFuncView, distinct: bool, out: Text) -> AggregateView {
    AggregateView { func, distinct, out }
}

/// Does a member of a group have a value?
pub open spec fn is_value<N: Numbers>(
    e: ExprView,
    members: Seq<Map<Text, TermView>>,
    t: TermView,
) -> bool {
    exists|i: int| 0 <= i < members.len() && #[trigger] value::<N>(e, members[i]) == Some(t)
}

proof fn present_are_values<N: Numbers>(e: ExprView, members: Seq<Map<Text, TermView>>, t: TermView)
    ensures
        present_values::<N>(e, members).contains(t) == is_value::<N>(e, members, t),
    decreases members.len(),
{
    if members.len() > 0 {
        let rest = members.drop_last();
        let (all, before) = (present_values::<N>(e, members), present_values::<N>(e, rest));
        present_are_values::<N>(e, rest, t);
        if all.contains(t) {
            let k = choose|k: int| 0 <= k < all.len() && all[k] == t;
            if k < before.len() {
                assert(before[k] == t);
                let i = choose|i: int|
                    0 <= i < rest.len() && #[trigger] value::<N>(e, rest[i]) == Some(t);
                assert(value::<N>(e, members[i]) == Some(t));
            } else {
                assert(value::<N>(e, members[members.len() - 1]) == Some(t));
            }
        }
        if is_value::<N>(e, members, t) {
            let i = choose|i: int|
                0 <= i < members.len() && #[trigger] value::<N>(e, members[i]) == Some(t);
            if i < rest.len() {
                assert(value::<N>(e, rest[i]) == Some(t));
                let k = choose|k: int| 0 <= k < before.len() && before[k] == t;
                assert(all[k] == t);
            } else {
                assert(all[before.len() as int] == t);
            }
        }
    }
}

/// An aggregate is over the values of the members, with or without `DISTINCT`.
proof fn input_is_values<N: Numbers>(
    e: ExprView,
    distinct: bool,
    members: Seq<Map<Text, TermView>>,
    t: TermView,
)
    ensures
        agg_input::<N>(e, distinct, members).contains(t) == is_value::<N>(e, members, t),
{
    present_are_values::<N>(e, members, t);
    deduped_facts(present_values::<N>(e, members));
}

// ── Extremes ────────────────────────────────────────────────────────────────

proof fn best_is_one<N: Numbers>(vals: Seq<TermView>, numeric: bool, min: bool)
    ensures
        best_of::<N>(vals, numeric, min) is None <==> vals.len() == 0,
        best_of::<N>(vals, numeric, min) matches Some(t) ==> vals.contains(t),
    decreases vals.len(),
{
    if vals.len() > 0 {
        let rest = vals.drop_last();
        best_is_one::<N>(rest, numeric, min);
        assert(vals[vals.len() - 1] == vals.last());
        if let Some(b) = best_of::<N>(rest, numeric, min) {
            let k = choose|k: int| 0 <= k < rest.len() && rest[k] == b;
            assert(vals[k] == b);
        }
    }
}

proof fn best_text_is_extreme<N: Numbers>(vals: Seq<TermView>, min: bool, i: int)
    requires
        0 <= i < vals.len(),
    ensures
        ({
            let b = best_of::<N>(vals, false, min)->0;
            if min {
                text_order(lex_of(vals[i]), lex_of(b)) != Order::Less
            } else {
                text_order(lex_of(vals[i]), lex_of(b)) != Order::Greater
            }
        }),
    decreases vals.len(),
{
    let rest = vals.drop_last();
    best_is_one::<N>(rest, false, min);
    let last = lex_of(vals.last());
    text_order_laws(last, last, last);
    if let Some(c) = best_of::<N>(rest, false, min) {
        let (x, y) = (lex_of(vals[i]), lex_of(c));
        if i < rest.len() {
            assert(rest[i] == vals[i]);
            best_text_is_extreme::<N>(rest, min, i);
            text_order_laws(x, y, last);
            text_order_laws(x, last, y);
            text_order_laws(y, last, x);
            text_order_laws(y, x, last);
            text_order_laws(last, y, x);
            text_order_laws(last, x, y);
        }
    }
}

proof fn best_number_is_extreme<N: Numbers>(vals: Seq<TermView>, min: bool, i: int)
    requires
        0 <= i < vals.len(),
        forall|k: int|
            0 <= k < vals.len() ==> number_of::<N>(#[trigger] vals[k]) is Some && !N::unordered(
                number_of::<N>(vals[k])->0,
            ),
    ensures
        ({
            let b = best_of::<N>(vals, true, min)->0;
            let o = N::order(number_of::<N>(vals[i])->0, number_of::<N>(b)->0);
            if min {
                o != Order::Less
            } else {
                o != Order::Greater
            }
        }),
    decreases vals.len(),
{
    let rest = vals.drop_last();
    best_is_one::<N>(rest, true, min);
    assert(vals[vals.len() - 1] == vals.last());
    let last = number_of::<N>(vals.last())->0;
    N::order_laws(last, last, last);
    if let Some(c) = best_of::<N>(rest, true, min) {
        assert forall|k: int| 0 <= k < rest.len() implies number_of::<N>(#[trigger] rest[k]) is Some
            && !N::unordered(number_of::<N>(rest[k])->0) by {
            assert(rest[k] == vals[k]);
        }
        let k = choose|k: int| 0 <= k < rest.len() && rest[k] == c;
        assert(rest[k] == vals[k]);
        let (x, y) = (number_of::<N>(vals[i])->0, number_of::<N>(c)->0);
        if i < rest.len() {
            assert(rest[i] == vals[i]);
            best_number_is_extreme::<N>(rest, min, i);
            N::order_laws(x, y, last);
            N::order_laws(x, last, y);
            N::order_laws(y, last, x);
            N::order_laws(y, x, last);
            N::order_laws(last, y, x);
            N::order_laws(last, x, y);
        }
    }
}

/// `MIN` and `MAX` are values of the group, and have none where it has none.
pub proof fn an_extreme_is_a_value<N: Numbers>(
    e: ExprView,
    distinct: bool,
    out: Text,
    members: Seq<Map<Text, TermView>>,
    least: bool,
)
    ensures
        ({
            let func = if least {
                AggFuncView::Min(e)
            } else {
                AggFuncView::Max(e)
            };
            let m = agg_value::<N>(plain_aggregate(func, distinct, out), members);
            &&& m matches Some(t) ==> is_value::<N>(e, members, t)
            &&& m is None ==> forall|t: TermView| !#[trigger] is_value::<N>(e, members, t)
        }),
{
    let vals = agg_input::<N>(e, distinct, members);
    let m = extreme_of::<N>(vals, least);
    best_is_one::<N>(vals, all_numbers::<N>(vals), least);
    if let Some(t) = m {
        input_is_values::<N>(e, distinct, members, t);
    } else {
        assert forall|t: TermView| !#[trigger] is_value::<N>(e, members, t) by {
            input_is_values::<N>(e, distinct, members, t);
        }
    }
}

/// Where some value is no number, no value comes before the `MIN` of a group in
/// the order of lexical forms, and none after its `MAX`.
pub proof fn an_extreme_of_texts_bounds_them<N: Numbers>(
    e: ExprView,
    distinct: bool,
    out: Text,
    members: Seq<Map<Text, TermView>>,
    t: TermView,
    other: TermView,
)
    requires
        is_value::<N>(e, members, t),
        is_value::<N>(e, members, other),
        number_of::<N>(other) is None,
    ensures
        agg_value::<N>(plain_aggregate(AggFuncView::Min(e), distinct, out), members) matches Some(m)
            && text_order(lex_of(t), lex_of(m)) != Order::Less,
        agg_value::<N>(plain_aggregate(AggFuncView::Max(e), distinct, out), members) matches Some(m)
            && text_order(lex_of(t), lex_of(m)) != Order::Greater,
{
    let vals = agg_input::<N>(e, distinct, members);
    input_is_values::<N>(e, distinct, members, t);
    input_is_values::<N>(e, distinct, members, other);
    let i = choose|i: int| 0 <= i < vals.len() && vals[i] == t;
    let j = choose|j: int| 0 <= j < vals.len() && vals[j] == other;
    assert(number_of::<N>(vals[j]) is None);
    assert(!all_numbers::<N>(vals));
    best_is_one::<N>(vals, false, true);
    best_is_one::<N>(vals, false, false);
    best_text_is_extreme::<N>(vals, true, i);
    best_text_is_extreme::<N>(vals, false, i);
}

/// Where all values are numbers, no value is less than the `MIN` of a group, and
/// none greater than its `MAX`.
pub proof fn an_extreme_of_numbers_bounds_them<N: Numbers>(
    e: ExprView,
    distinct: bool,
    out: Text,
    members: Seq<Map<Text, TermView>>,
    t: TermView,
)
    requires
        is_value::<N>(e, members, t),
        forall|x: TermView| #[trigger]
            is_value::<N>(e, members, x) ==> number_of::<N>(x) is Some && !N::unordered(
                number_of::<N>(x)->0,
            ),
    ensures
        agg_value::<N>(plain_aggregate(AggFuncView::Min(e), distinct, out), members) matches Some(m)
            && number_of::<N>(m) is Some && N::order(
            number_of::<N>(t)->0,
            number_of::<N>(m)->0,
        ) != Order::Less,
        agg_value::<N>(plain_aggregate(AggFuncView::Max(e), distinct, out), members) matches Some(m)
            && number_of::<N>(m) is Some && N::order(
            number_of::<N>(t)->0,
            number_of::<N>(m)->0,
        ) != Order::Greater,
{
    let vals = agg_input::<N>(e, distinct, members);
    input_is_values::<N>(e, distinct, members, t);
    let i = choose|i: int| 0 <= i < vals.len() && vals[i] == t;
    assert forall|k: int| 0 <= k < vals.len() implies number_of::<N>(#[trigger] vals[k]) is Some
        && !N::unordered(number_of::<N>(vals[k])->0) by {
        input_is_values::<N>(e, distinct, members, vals[k]);
        assert(vals.contains(vals[k]));
    }
    assert(all_numbers::<N>(vals));
    best_is_one::<N>(vals, true, true);
    best_is_one::<N>(vals, true, false);
    best_number_is_extreme::<N>(vals, true, i);
    best_number_is_extreme::<N>(vals, false, i);
}

// ── Counts ──────────────────────────────────────────────────────────────────

/// The positions of the members that have a value.
pub open spec fn valued<N: Numbers>(e: ExprView, members: Seq<Map<Text, TermView>>) -> Set<int> {
    Set::new(|i: int| 0 <= i < members.len() && value::<N>(e, members[i]) is Some)
}

/// The values of the members.
pub open spec fn value_set<N: Numbers>(e: ExprView, members: Seq<Map<Text, TermView>>) -> Set<
    TermView,
> {
    Set::new(|t: TermView| is_value::<N>(e, members, t))
}

proof fn as_many_values<N: Numbers>(e: ExprView, members: Seq<Map<Text, TermView>>)
    ensures
        valued::<N>(e, members).finite(),
        valued::<N>(e, members).len() == present_values::<N>(e, members).len(),
    decreases members.len(),
{
    let here = valued::<N>(e, members);
    if members.len() == 0 {
        assert(here =~= Set::empty());
    } else {
        let rest = members.drop_last();
        let before = valued::<N>(e, rest);
        as_many_values::<N>(e, rest);
        let last = members.len() - 1;
        if value::<N>(e, members.last()) is Some {
            assert(here =~= before.insert(last));
            assert(!before.contains(last));
        } else {
            assert(here =~= before);
        }
    }
}

/// `COUNT(*)` is the number of members, `COUNT(e)` that of the members on which
/// `e` has a value, and under `DISTINCT` that of the values.
pub proof fn a_count_is_how_many<N: Numbers>(
    e: ExprView,
    out: Text,
    members: Seq<Map<Text, TermView>>,
)
    requires
        members.len() <= i64::MAX,
    ensures
        agg_value::<N>(plain_aggregate(AggFuncView::CountStar, false, out), members) == Some(
            integer_view(members.len() as int),
        ),
        agg_value::<N>(plain_aggregate(AggFuncView::CountStar, true, out), members) == Some(
            integer_view(members.to_set().len() as int),
        ),
        agg_value::<N>(plain_aggregate(AggFuncView::Count(e), false, out), members) == Some(
            integer_view(valued::<N>(e, members).len() as int),
        ),
        agg_value::<N>(plain_aggregate(AggFuncView::Count(e), true, out), members) == Some(
            integer_view(value_set::<N>(e, members).len() as int),
        ),
{
    let vals = present_values::<N>(e, members);
    as_many_values::<N>(e, members);
    fewer_values::<N>(e, members);
    deduped_facts(vals);
    deduped_facts(members);
    dedup_shortens(vals);
    dedup_shortens(members);
    deduped(vals).unique_seq_to_set();
    deduped(members).unique_seq_to_set();
    assert(deduped(members).to_set() =~= members.to_set()) by {
        assert forall|x: Map<Text, TermView>| deduped(members).contains(x) == members.contains(
            x,
        ) by {}
    }
    assert(deduped(vals).to_set() =~= value_set::<N>(e, members)) by {
        assert forall|t: TermView| #[trigger] deduped(vals).to_set().contains(t) == value_set::<N>(
            e,
            members,
        ).contains(t) by {
            present_are_values::<N>(e, members, t);
            assert(deduped(vals).contains(t) == vals.contains(t));
        }
    }
}

proof fn fewer_values<N: Numbers>(e: ExprView, members: Seq<Map<Text, TermView>>)
    ensures
        present_values::<N>(e, members).len() <= members.len(),
    decreases members.len(),
{
    if members.len() > 0 {
        fewer_values::<N>(e, members.drop_last());
    }
}

pub proof fn dedup_shortens<A>(s: Seq<A>)
    ensures
        deduped(s).len() <= s.len(),
    decreases s.len(),
{
    if s.len() > 0 {
        dedup_shortens(s.drop_last());
    }
}

// ── Sums ────────────────────────────────────────────────────────────────────

/// The literals of integers.
pub open spec fn integer_terms(ns: Seq<i64>) -> Seq<TermView> {
    Seq::new(ns.len(), |i: int| integer_view(ns[i] as int))
}

pub open spec fn total(ns: Seq<i64>) -> int
    decreases ns.len(),
{
    if ns.len() == 0 {
        0
    } else {
        total(ns.drop_last()) + ns.last()
    }
}

/// Do the sums of all beginnings fit 64 bits?
pub open spec fn fits_throughout(ns: Seq<i64>) -> bool {
    forall|k: int| 0 <= k <= ns.len() ==> i64::MIN <= total(#[trigger] ns.take(k)) <= i64::MAX
}

proof fn sum_of_integers(ns: Seq<i64>)
    requires
        fits_throughout(ns),
    ensures
        sum_of::<WholeNumbers>(integer_terms(ns)) == Some(total(ns) as i64),
        i64::MIN <= total(ns) <= i64::MAX,
    decreases ns.len(),
{
    assert(ns.take(ns.len() as int) =~= ns);
    let vals = integer_terms(ns);
    if ns.len() > 0 {
        let rest = ns.drop_last();
        assert forall|k: int| 0 <= k <= rest.len() implies i64::MIN <= total(#[trigger] rest.take(k))
            <= i64::MAX by {
            assert(rest.take(k) =~= ns.take(k));
        }
        sum_of_integers(rest);
        assert(vals.drop_last() =~= integer_terms(rest));
        integer_literal_round_trips(ns.last());
        assert(vals.last() == integer_view(ns.last() as int));
    }
}

/// `SUM` over whole numbers is their sum, and `AVG` the number that multiplied
/// by how many they are makes that sum; both are zero for none.
pub proof fn a_sum_adds_up(e: ExprView, out: Text, members: Seq<Map<Text, TermView>>, ns: Seq<i64>)
    requires
        ns.len() <= i64::MAX,
        fits_throughout(ns),
        present_values::<WholeNumbers>(e, members) == integer_terms(ns),
    ensures
        agg_value::<WholeNumbers>(plain_aggregate(AggFuncView::Sum(e), false, out), members)
            == Some(integer_view(total(ns))),
        forall|m: i64|
            ns.len() > 0 && m * ns.len() == total(ns) ==> agg_value::<WholeNumbers>(
                plain_aggregate(AggFuncView::Avg(e), false, out),
                members,
            ) == Some(#[trigger] integer_view(m as int)),
        ns.len() == 0 ==> agg_value::<WholeNumbers>(
            plain_aggregate(AggFuncView::Avg(e), false, out),
            members,
        ) == Some(integer_view(0)),
{
    sum_of_integers(ns);
    assert forall|m: i64|
        ns.len() > 0 && m * ns.len() == total(ns) implies agg_value::<WholeNumbers>(
        plain_aggregate(AggFuncView::Avg(e), false, out),
        members,
    ) == Some(#[trigger] integer_view(m as int)) by {
        let n = ns.len() as int;
        let s = total(ns);
        assert(s % n == 0 && s / n == m) by (nonlinear_arith)
            requires
                n > 0,
                m * n == s,
        ;
        assert(ns.len() as i64 == n);
    }
}

/// Values that are numbers add up in order: a group with one more member has the
/// sum of the others plus its value, and no sum where that is no number.
pub proof fn a_sum_grows<N: Numbers>(
    e: ExprView,
    out: Text,
    members: Seq<Map<Text, TermView>>,
    more: Map<Text, TermView>,
)
    ensures
        value::<N>(e, more) is None ==> agg_value::<N>(
            plain_aggregate(AggFuncView::Sum(e), false, out),
            members.push(more),
        ) == agg_value::<N>(plain_aggregate(AggFuncView::Sum(e), false, out), members),
        value::<N>(e, more) matches Some(t) ==> typed_of::<N>(t) is None ==> agg_value::<N>(
            plain_aggregate(AggFuncView::Sum(e), false, out),
            members.push(more),
        ) is None,
{
    let all = members.push(more);
    assert(all.drop_last() =~= members);
    let (x, y) = (present_values::<N>(e, members), present_values::<N>(e, all));
    if let Some(t) = value::<N>(e, more) {
        assert(y == x.push(t));
        assert(y.drop_last() =~= x);
    }
}

// ── Samples and concatenations ──────────────────────────────────────────────

/// `SAMPLE` is a value of the group, and has none where it has none.
pub proof fn a_sample_is_a_value<N: Numbers>(
    e: ExprView,
    distinct: bool,
    out: Text,
    members: Seq<Map<Text, TermView>>,
)
    ensures
        ({
            let m = agg_value::<N>(plain_aggregate(AggFuncView::Sample(e), distinct, out), members);
            &&& m matches Some(t) ==> is_value::<N>(e, members, t)
            &&& m is None ==> forall|t: TermView| !#[trigger] is_value::<N>(e, members, t)
        }),
{
    let vals = agg_input::<N>(e, distinct, members);
    if vals.len() > 0 {
        assert(vals.contains(vals[0]));
        input_is_values::<N>(e, distinct, members, vals[0]);
    } else {
        assert forall|t: TermView| !#[trigger] is_value::<N>(e, members, t) by {
            input_is_values::<N>(e, distinct, members, t);
        }
    }
}

proof fn joined_parts(a: Seq<TermView>, b: Seq<TermView>, separator: Text)
    requires
        a.len() > 0,
        b.len() > 0,
    ensures
        joined(a + b, separator) == joined(a, separator) + separator + joined(b, separator),
    decreases b.len(),
{
    let all = a + b;
    assert(all.last() == b.last());
    if b.len() == 1 {
        assert(all.drop_last() =~= a);
        assert(joined(b, separator) == value_of(b[0]));
    } else {
        let rest = b.drop_last();
        joined_parts(a, rest, separator);
        assert(all.drop_last() =~= a + rest);
        assert(joined(a, separator) + separator + joined(rest, separator) + separator + value_of(
            b.last(),
        ) =~= joined(a, separator) + separator + (joined(rest, separator) + separator + value_of(
            b.last(),
        )));
    }
}

/// What a concatenation is of: its text, with every quote escaped, in quotes.
pub open spec fn concatenation<N: Numbers>(
    e: ExprView,
    separator: Text,
    out: Text,
    members: Seq<Map<Text, TermView>>,
) -> Option<TermView> {
    agg_value::<N>(
        plain_aggregate(AggFuncView::GroupConcat { expr: e, separator }, false, out),
        members,
    )
}

/// Is a character neither a quote nor a backslash, throughout?
pub open spec fn unquoted(s: Text) -> bool {
    forall|i: int| 0 <= i < s.len() ==> #[trigger] s[i] != '"' && s[i] != '\\'
}

proof fn unquoted_stays(s: Text)
    requires
        unquoted(s),
    ensures
        quotes_escaped(s) == s,
        unescaped(s) == s,
    decreases s.len(),
{
    if s.len() > 0 {
        let rest = s.drop_last();
        assert forall|i: int| 0 <= i < rest.len() implies #[trigger] rest[i] != '"' && rest[i]
            != '\\' by {
            assert(rest[i] == s[i]);
        }
        unquoted_stays(rest);
        assert(s[s.len() - 1] != '"');
        assert(quotes_escaped(s) =~= s);
        let tail = s.drop_first();
        assert forall|i: int| 0 <= i < tail.len() implies #[trigger] tail[i] != '"' && tail[i]
            != '\\' by {
            assert(tail[i] == s[i + 1]);
        }
        unquoted_stays(tail);
        assert(s[0] != '\\');
        assert(unescaped(s) =~= s);
    } else {
        assert(quotes_escaped(s) =~= s);
        assert(unescaped(s) =~= s);
    }
}

proof fn unquoted_closes(s: Text, i: int)
    requires
        unquoted(s),
        0 <= i <= s.len(),
    ensures
        closing_quote(seq!['"'] + s + seq!['"'], 1 + i) == Some(1 + s.len() as int),
    decreases s.len() - i,
{
    let q = seq!['"'] + s + seq!['"'];
    if i < s.len() {
        unquoted_closes(s, i + 1);
        assert(q[1 + i] == s[i]);
        assert(s[i] != '"' && s[i] != '\\');
    } else {
        assert(q[1 + i] == '"');
    }
}

/// A concatenation of none is empty, and of one value it is the value's text;
/// of two groups of values it is that of the first, the separator and that of
/// the second. Here for texts that hold neither quotes nor backslashes.
pub proof fn a_concatenation_joins<N: Numbers>(
    e: ExprView,
    separator: Text,
    out: Text,
    a: Seq<Map<Text, TermView>>,
    b: Seq<Map<Text, TermView>>,
)
    requires
        unquoted(joined(present_values::<N>(e, a), separator)),
        unquoted(joined(present_values::<N>(e, b), separator)),
        unquoted(separator),
    ensures
        concatenation::<N>(e, separator, out, a) is Some,
        concatenation::<N>(e, separator, out, a + b) is Some,
        ({
            let (x, y) = (present_values::<N>(e, a), present_values::<N>(e, b));
            let (s, t) = (
                value_of(concatenation::<N>(e, separator, out, a)->0),
                value_of(concatenation::<N>(e, separator, out, b)->0),
            );
            let both = value_of(concatenation::<N>(e, separator, out, a + b)->0);
            &&& x.len() == 0 ==> s.len() == 0 && both == t
            &&& x.len() == 1 ==> s == value_of(x[0])
            &&& y.len() == 0 ==> both == s
            &&& x.len() > 0 && y.len() > 0 ==> both == s + separator + t
        }),
{
    let (x, y) = (present_values::<N>(e, a), present_values::<N>(e, b));
    present_append::<N>(e, a, b);
    concatenation_reads_back::<N>(e, separator, out, a);
    concatenation_reads_back::<N>(e, separator, out, b);
    if x.len() == 0 {
        assert(x + y =~= y);
    } else if y.len() == 0 {
        assert(x + y =~= x);
    } else {
        joined_parts(x, y, separator);
        let (s, t) = (joined(x, separator), joined(y, separator));
        assert(unquoted(s + separator + t)) by {
            let all = s + separator + t;
            assert forall|i: int| 0 <= i < all.len() implies #[trigger] all[i] != '"' && all[i]
                != '\\' by {
                if i < s.len() {
                    assert(all[i] == s[i]);
                } else if i < s.len() + separator.len() {
                    assert(all[i] == separator[i - s.len()]);
                } else {
                    assert(all[i] == t[i - s.len() - separator.len()]);
                }
            }
        }
    }
    concatenation_reads_back::<N>(e, separator, out, a + b);
}

proof fn present_append<N: Numbers>(
    e: ExprView,
    a: Seq<Map<Text, TermView>>,
    b: Seq<Map<Text, TermView>>,
)
    ensures
        present_values::<N>(e, a + b) == present_values::<N>(e, a) + present_values::<N>(e, b),
    decreases b.len(),
{
    let all = a + b;
    if b.len() == 0 {
        assert(all =~= a);
        assert(present_values::<N>(e, a) + present_values::<N>(e, b) =~= present_values::<N>(e, a));
    } else {
        present_append::<N>(e, a, b.drop_last());
        assert(all.drop_last() =~= a + b.drop_last());
        assert(all.last() == b.last());
        assert(present_values::<N>(e, all) =~= present_values::<N>(e, a) + present_values::<N>(
            e,
            b,
        ));
    }
}

proof fn concatenation_reads_back<N: Numbers>(
    e: ExprView,
    separator: Text,
    out: Text,
    members: Seq<Map<Text, TermView>>,
)
    requires
        unquoted(joined(present_values::<N>(e, members), separator)),
    ensures
        concatenation::<N>(e, separator, out, members) is Some,
        value_of(concatenation::<N>(e, separator, out, members)->0) == joined(
            present_values::<N>(e, members),
            separator,
        ),
{
    let s = joined(present_values::<N>(e, members), separator);
    reveal_strlit("\"");
    unquoted_stays(s);
    let raw = "\""@ + s + "\""@;
    assert(raw =~= seq!['"'] + s + seq!['"']);
    unquoted_closes(s, 0);
    assert(raw[0] == '"' && raw.last() == '"');
    trimmed_tight(raw);
    assert(raw.subrange(1, 1 + s.len() as int) =~= s);
}

/// `SAMPLE` is the value of the first member that has one.
pub proof fn a_sample_is_the_first_value<N: Numbers>(
    e: ExprView,
    out: Text,
    before: Seq<Map<Text, TermView>>,
    m: Map<Text, TermView>,
    behind: Seq<Map<Text, TermView>>,
)
    requires
        forall|i: int| 0 <= i < before.len() ==> value::<N>(e, #[trigger] before[i]) is None,
        value::<N>(e, m) is Some,
    ensures
        agg_value::<N>(
            plain_aggregate(AggFuncView::Sample(e), false, out),
            before + seq![m] + behind,
        ) == value::<N>(e, m),
{
    first_present::<N>(e, before, m, behind);
}

proof fn first_present<N: Numbers>(
    e: ExprView,
    before: Seq<Map<Text, TermView>>,
    m: Map<Text, TermView>,
    behind: Seq<Map<Text, TermView>>,
)
    requires
        forall|i: int| 0 <= i < before.len() ==> value::<N>(e, #[trigger] before[i]) is None,
        value::<N>(e, m) is Some,
    ensures
        present_values::<N>(e, before + seq![m] + behind).len() > 0,
        present_values::<N>(e, before + seq![m] + behind)[0] == value::<N>(e, m)->0,
    decreases behind.len(),
{
    let all = before + seq![m] + behind;
    if behind.len() > 0 {
        first_present::<N>(e, before, m, behind.drop_last());
        assert(all.drop_last() =~= before + seq![m] + behind.drop_last());
    } else {
        nothing_present::<N>(e, before);
        assert(all.drop_last() =~= before);
        assert(all.last() == m);
    }
}

proof fn nothing_present<N: Numbers>(e: ExprView, members: Seq<Map<Text, TermView>>)
    requires
        forall|i: int| 0 <= i < members.len() ==> value::<N>(e, #[trigger] members[i]) is None,
    ensures
        present_values::<N>(e, members).len() == 0,
    decreases members.len(),
{
    if members.len() > 0 {
        let rest = members.drop_last();
        assert forall|i: int| 0 <= i < rest.len() implies value::<N>(
            e,
            #[trigger] rest[i],
        ) is None by {
            assert(rest[i] == members[i]);
        }
        nothing_present::<N>(e, rest);
        assert(value::<N>(e, members[members.len() - 1]) is None);
    }
}

/// The number that a term reads as.
pub open spec fn whole(t: TermView) -> int {
    number_of::<WholeNumbers>(t)->0 as int
}

proof fn the_first_best(vals: Seq<TermView>, min: bool)
    requires
        vals.len() > 0,
    ensures
        best_of::<WholeNumbers>(vals, true, min) matches Some(r) && exists|k: int|
            0 <= k < vals.len() && #[trigger] vals[k] == r && (forall|i: int|
                0 <= i < k ==> if min {
                    whole(#[trigger] vals[i]) > whole(r)
                } else {
                    whole(vals[i]) < whole(r)
                }) && (forall|i: int|
                0 <= i < vals.len() ==> if min {
                    whole(#[trigger] vals[i]) >= whole(r)
                } else {
                    whole(vals[i]) <= whole(r)
                }),
    decreases vals.len(),
{
    if vals.len() == 1 {
        assert(best_of::<WholeNumbers>(vals.drop_last(), true, min) is None);
        assert(vals[0] == vals.last());
    } else {
        let rest = vals.drop_last();
        the_first_best(rest, min);
        let b = best_of::<WholeNumbers>(rest, true, min)->0;
        let k = choose|k: int|
            0 <= k < rest.len() && #[trigger] rest[k] == b && (forall|i: int|
                0 <= i < k ==> if min {
                    whole(#[trigger] rest[i]) > whole(b)
                } else {
                    whole(rest[i]) < whole(b)
                }) && (forall|i: int|
                0 <= i < rest.len() ==> if min {
                    whole(#[trigger] rest[i]) >= whole(b)
                } else {
                    whole(rest[i]) <= whole(b)
                });
        let n = vals.len() - 1;
        let r = best_of::<WholeNumbers>(vals, true, min)->0;
        assert forall|i: int| 0 <= i < rest.len() implies #[trigger] vals[i] == rest[i] by {}
        if r == b && !better::<WholeNumbers>(vals.last(), b, true, min) {
            assert(vals[k] == r);
            assert forall|i: int| 0 <= i < k implies if min {
                whole(#[trigger] vals[i]) > whole(r)
            } else {
                whole(vals[i]) < whole(r)
            } by {
                assert(vals[i] == rest[i]);
            }
            assert forall|i: int| 0 <= i < vals.len() implies if min {
                whole(#[trigger] vals[i]) >= whole(r)
            } else {
                whole(vals[i]) <= whole(r)
            } by {
                if i < n {
                    assert(vals[i] == rest[i]);
                }
            }
        } else {
            assert(vals[n] == r);
            assert forall|i: int| 0 <= i < n implies if min {
                whole(#[trigger] vals[i]) > whole(r)
            } else {
                whole(vals[i]) < whole(r)
            } by {
                assert(vals[i] == rest[i]);
            }
        }
    }
}

/// Of values that are the same number, `MIN` and `MAX` are the first.
pub proof fn the_first_of_equals_is_the_extreme(vals: Seq<TermView>, min: bool)
    requires
        vals.len() > 0,
        forall|i: int|
            0 <= i < vals.len() ==> number_of::<WholeNumbers>(#[trigger] vals[i]) is Some,
    ensures
        extreme_of::<WholeNumbers>(vals, min) matches Some(r) && exists|k: int|
            0 <= k < vals.len() && #[trigger] vals[k] == r && forall|i: int|
                0 <= i < k ==> whole(#[trigger] vals[i]) != whole(r),
{
    the_first_best(vals, min);
    let r = best_of::<WholeNumbers>(vals, true, min)->0;
    let k = choose|k: int|
        0 <= k < vals.len() && #[trigger] vals[k] == r && (forall|i: int|
            0 <= i < k ==> if min {
                whole(#[trigger] vals[i]) > whole(r)
            } else {
                whole(vals[i]) < whole(r)
            }) && (forall|i: int|
            0 <= i < vals.len() ==> if min {
                whole(#[trigger] vals[i]) >= whole(r)
            } else {
                whole(vals[i]) <= whole(r)
            });
    assert(vals[k] == r);
    assert(all_numbers::<WholeNumbers>(vals));
    assert forall|i: int| 0 <= i < k implies whole(#[trigger] vals[i]) != whole(r) by {}
}

}
