//! A filter sinks into the sides of a join.

use crate::algebra::ExprView;
use crate::exec::batch::{position_facts, solution, solutions, BatchView, Dict, SlotView};
use crate::exec::bindings::bound_to;
use crate::exec::boundness::bound_throughout;
use crate::exec::expr::{agree_on, evaluation_reads_only_refs, truth};
use crate::exec::join::{
    as_term, bound_in, candidates, cell, force_rows, forced_columns, join_batch, joined_rows,
    left_join_batch, left_joined_rows, merge_all_append, optional_rows, satisfying, split,
    unbound_row, Sides,
};
use crate::exec::narrow::{cell_is_some, solution_of_cell};
use crate::exec::narrow_join::{added_names, merged, merged_cell};
use crate::exec::number::Numbers;
use crate::exec::operators::filter_batch;
use crate::exec::refs::refs;
use crate::text::Text;
use vstd::multiset::*;
use vstd::prelude::*;
use vstd::seq_lib::*;

verus! {

// ── Decoding changes no solution ────────────────────────────────────────────

spec fn decoded(d: Dict, row: Seq<SlotView>, columns: Seq<bool>) -> Seq<SlotView> {
    Seq::new(
        row.len(),
        |c: int|
            if 0 <= c < columns.len() && columns[c] {
                as_term(d, row[c])
            } else {
                row[c]
            },
    )
}

proof fn decoding_keeps_the_solution(
    d: Dict,
    s: Seq<Text>,
    row: Seq<SlotView>,
    columns: Seq<bool>,
)
    requires
        s.no_duplicates(),
        row.len() == s.len(),
    ensures
        solution(d, s, decoded(d, row, columns)) == solution(d, s, row),
{
    let x = decoded(d, row, columns);
    let (f, g) = (solution(d, s, x), solution(d, s, row));
    assert forall|n: Text| #[trigger] f.contains_key(n) == g.contains_key(n) && (f.contains_key(n)
        ==> f[n] == g[n]) by {
        solution_of_cell(d, s, x, n);
        solution_of_cell(d, s, row, n);
        position_facts(s, n);
    }
    assert(f =~= g);
}

spec fn even(rows: Seq<Seq<SlotView>>, width: nat) -> bool {
    forall|k: int| 0 <= k < rows.len() ==> (#[trigger] rows[k]).len() == width
}

/// Rows are kept or dropped alike before and after decoding.
proof fn decoding_keeps_the_rows<N: Numbers>(
    d: Dict,
    s: Seq<Text>,
    rows: Seq<Seq<SlotView>>,
    columns: Seq<bool>,
    e: ExprView,
)
    requires
        s.no_duplicates(),
        even(rows, s.len()),
    ensures
        satisfying::<N>(d, s, force_rows(d, rows, columns), Some(e)) == force_rows(
            d,
            satisfying::<N>(d, s, rows, Some(e)),
            columns,
        ),
    decreases rows.len(),
{
    let f = force_rows(d, rows, columns);
    if rows.len() > 0 {
        let rest = rows.drop_last();
        assert forall|k: int| 0 <= k < rest.len() implies (#[trigger] rest[k]).len() == s.len() by {
            assert(rest[k] == rows[k]);
        }
        decoding_keeps_the_rows::<N>(d, s, rest, columns, e);
        assert(f.drop_last() =~= force_rows(d, rest, columns));
        assert(f.last() =~= decoded(d, rows.last(), columns));
        assert(rows[rows.len() - 1].len() == s.len());
        decoding_keeps_the_solution(d, s, rows.last(), columns);
        let kept = satisfying::<N>(d, s, rest, Some(e));
        assert(force_rows(d, kept.push(rows.last()), columns) =~= force_rows(
            d,
            kept,
            columns,
        ).push(f.last()));
    } else {
        assert(satisfying::<N>(d, s, f, Some(e)) =~= force_rows(
            d,
            satisfying::<N>(d, s, rows, Some(e)),
            columns,
        ));
    }
}

/// Decoded rows have the solutions of the rows.
proof fn decoding_keeps_the_solutions(
    d: Dict,
    s: Seq<Text>,
    rows: Seq<Seq<SlotView>>,
    f: Seq<bool>,
    g: Seq<bool>,
)
    requires
        s.no_duplicates(),
        even(rows, s.len()),
    ensures
        solutions(d, BatchView { schema: s, rows: force_rows(d, rows, f) }) == solutions(
            d,
            BatchView { schema: s, rows: force_rows(d, rows, g) },
        ),
{
    let x = BatchView { schema: s, rows: force_rows(d, rows, f) };
    let y = BatchView { schema: s, rows: force_rows(d, rows, g) };
    assert forall|k: int| 0 <= k < rows.len() implies solutions(d, x)[k] == solutions(d, y)[k] by {
        assert(rows[k].len() == s.len());
        assert(x.rows[k] =~= decoded(d, rows[k], f));
        assert(y.rows[k] =~= decoded(d, rows[k], g));
        decoding_keeps_the_solution(d, s, rows[k], f);
        decoding_keeps_the_solution(d, s, rows[k], g);
    }
    assert(solutions(d, x) =~= solutions(d, y));
}

// ── What a left row decides ─────────────────────────────────────────────────

/// Are all the names an expression reads bound in a row?
spec fn reads_bound(e: ExprView, s: Seq<Text>, row: Seq<SlotView>) -> bool {
    forall|n: Text| #[trigger] refs(e).contains(n) ==> bound_in(s, row, n)
}

/// A merged row holds what the left row holds, wherever that is bound.
proof fn merge_keeps_the_left(
    d: Dict,
    s: Sides,
    a: Seq<SlotView>,
    b: Seq<SlotView>,
    e: ExprView,
)
    requires
        s.left.no_duplicates(),
        s.compatible(d, a, b),
        reads_bound(e, s.left, a),
    ensures
        agree_on(solution(d, s.out(), s.merge(d, a, b)->0), solution(d, s.left, a), refs(e)),
{
    added_names(s.left, s.right);
    let m = s.merge(d, a, b)->0;
    assert forall|n: Text| #[trigger] refs(e).contains(n) implies bound_to(
        solution(d, s.out(), m),
        n,
    ) == bound_to(solution(d, s.left, a), n) by {
        assert(bound_in(s.left, a, n));
        merged_cell(d, s, a, b, n);
        cell_is_some(s.left, a, n);
        assert(s.out().contains(n));
        let c = choose|c: int| 0 <= c < s.out().len() && s.out()[c] == n;
        assert(s.slot(d, a, b, c) is Some);
        assert(merged(d, s, a, b, n) == cell(s.left, a, n));
        solution_of_cell(d, s.out(), m, n);
        solution_of_cell(d, s.left, a, n);
    }
}

/// Does a condition come to the same on each of some rows?
spec fn decides<N: Numbers>(
    d: Dict,
    s: Seq<Text>,
    rows: Seq<Seq<SlotView>>,
    e: ExprView,
    v: bool,
) -> bool {
    forall|k: int|
        0 <= k < rows.len() ==> truth::<N>(e, solution(d, s, #[trigger] rows[k])) == v
}

proof fn merges_decide<N: Numbers>(
    d: Dict,
    s: Sides,
    a: Seq<SlotView>,
    rows: Seq<Seq<SlotView>>,
    e: ExprView,
)
    requires
        s.left.no_duplicates(),
        reads_bound(e, s.left, a),
    ensures
        decides::<N>(
            d,
            s.out(),
            s.merge_all(d, a, rows),
            e,
            truth::<N>(e, solution(d, s.left, a)),
        ),
        even(s.merge_all(d, a, rows), s.out().len()),
    decreases rows.len(),
{
    if rows.len() > 0 {
        merges_decide::<N>(d, s, a, rows.drop_last(), e);
        if s.compatible(d, a, rows.last()) {
            merge_keeps_the_left(d, s, a, rows.last(), e);
            evaluation_reads_only_refs::<N>(
                e,
                solution(d, s.out(), s.merge(d, a, rows.last())->0),
                solution(d, s.left, a),
            );
        }
    }
}

/// A condition that comes to the same on all rows keeps all or none.
proof fn decided_rows<N: Numbers>(
    d: Dict,
    s: Seq<Text>,
    rows: Seq<Seq<SlotView>>,
    e: ExprView,
    v: bool,
)
    requires
        decides::<N>(d, s, rows, e, v),
    ensures
        satisfying::<N>(d, s, rows, Some(e)) == (if v {
            rows
        } else {
            Seq::empty()
        }),
    decreases rows.len(),
{
    if rows.len() > 0 {
        let rest = rows.drop_last();
        assert forall|k: int| 0 <= k < rest.len() implies truth::<N>(
            e,
            solution(d, s, #[trigger] rest[k]),
        ) == v by {
            assert(rest[k] == rows[k]);
        }
        decided_rows::<N>(d, s, rest, e, v);
        assert(truth::<N>(e, solution(d, s, rows[rows.len() - 1])) == v);
        assert(rest.push(rows.last()) =~= rows);
    } else {
        assert(satisfying::<N>(d, s, rows, Some(e)) =~= rows);
    }
}

proof fn satisfying_joins<N: Numbers>(
    d: Dict,
    s: Seq<Text>,
    a: Seq<Seq<SlotView>>,
    b: Seq<Seq<SlotView>>,
    e: ExprView,
)
    ensures
        satisfying::<N>(d, s, a + b, Some(e)) == satisfying::<N>(d, s, a, Some(e)) + satisfying::<N>(
            d,
            s,
            b,
            Some(e),
        ),
    decreases b.len(),
{
    if b.len() == 0 {
        assert(a + b =~= a);
        assert(satisfying::<N>(d, s, b, Some(e)) =~= Seq::empty());
        assert(satisfying::<N>(d, s, a, Some(e)) + Seq::empty() =~= satisfying::<N>(
            d,
            s,
            a,
            Some(e),
        ));
    } else {
        satisfying_joins::<N>(d, s, a, b.drop_last(), e);
        assert((a + b).drop_last() =~= a + b.drop_last());
        assert((a + b).last() == b.last());
        let (x, y) = (
            satisfying::<N>(d, s, a, Some(e)),
            satisfying::<N>(d, s, b.drop_last(), Some(e)),
        );
        assert((x + y).push(b.last()) =~= x + y.push(b.last()));
    }
}

// ── Joins ───────────────────────────────────────────────────────────────────

/// Only the rows up to a point count for their joins.
proof fn joined_prefix(d: Dict, x: BatchView, y: BatchView, right: BatchView, n: int)
    requires
        x.schema == y.schema,
        n <= x.rows.len(),
        n <= y.rows.len(),
        forall|k: int| 0 <= k < n ==> #[trigger] x.rows[k] == y.rows[k],
    ensures
        joined_rows(d, x, right, n) == joined_rows(d, y, right, n),
    decreases n,
{
    if n > 0 {
        joined_prefix(d, x, y, right, n - 1);
        assert(x.rows[n - 1] == y.rows[n - 1]);
    }
}

spec fn kept<N: Numbers>(d: Dict, left: BatchView, e: ExprView, n: int) -> BatchView {
    filter_batch::<N>(d, BatchView { schema: left.schema, rows: left.rows.take(n) }, e)
}

proof fn kept_step<N: Numbers>(d: Dict, left: BatchView, e: ExprView, n: int)
    requires
        0 < n <= left.rows.len(),
    ensures
        kept::<N>(d, left, e, n).rows == (if truth::<N>(
            e,
            solution(d, left.schema, left.rows[n - 1]),
        ) {
            kept::<N>(d, left, e, n - 1).rows.push(left.rows[n - 1])
        } else {
            kept::<N>(d, left, e, n - 1).rows
        }),
{
    assert(left.rows.take(n).drop_last() =~= left.rows.take(n - 1));
    assert(left.rows.take(n).last() == left.rows[n - 1]);
}

proof fn filtered_joins<N: Numbers>(
    d: Dict,
    left: BatchView,
    right: BatchView,
    e: ExprView,
    n: int,
)
    requires
        left.schema.no_duplicates(),
        0 <= n <= left.rows.len(),
        forall|k: int|
            0 <= k < left.rows.len() ==> reads_bound(e, left.schema, #[trigger] left.rows[k]),
    ensures
        ({
            let s = Sides { left: left.schema, right: right.schema };
            let k = kept::<N>(d, left, e, n);
            &&& satisfying::<N>(d, s.out(), joined_rows(d, left, right, n), Some(e))
                == joined_rows(d, k, right, k.rows.len() as int)
            &&& even(joined_rows(d, left, right, n), s.out().len())
        }),
    decreases n,
{
    let s = Sides { left: left.schema, right: right.schema };
    let now = kept::<N>(d, left, e, n);
    if n == 0 {
        assert(left.rows.take(0) =~= Seq::empty());
        assert(now.rows =~= Seq::empty());
        assert(joined_rows(d, left, right, 0) =~= Seq::empty());
    } else {
        let a = left.rows[n - 1];
        let v = truth::<N>(e, solution(d, left.schema, a));
        let before = kept::<N>(d, left, e, n - 1);
        let rest = joined_rows(d, left, right, n - 1);
        let made = s.merge_all(d, a, candidates(left.schema, right, a));
        filtered_joins::<N>(d, left, right, e, n - 1);
        kept_step::<N>(d, left, e, n);
        assert(reads_bound(e, left.schema, a));
        merges_decide::<N>(d, s, a, candidates(left.schema, right, a), e);
        decided_rows::<N>(d, s.out(), made, e, v);
        satisfying_joins::<N>(d, s.out(), rest, made, e);
        let m = before.rows.len() as int;
        joined_prefix(d, before, now, right, m);
        if v {
            assert(now.rows[m] == a);
        } else {
            assert(joined_rows(d, before, right, m) + Seq::empty() =~= joined_rows(
                d,
                before,
                right,
                m,
            ));
        }
        assert forall|k: int| 0 <= k < (rest + made).len() implies (#[trigger] (rest + made)[k]).len()
            == s.out().len() by {
            if k < rest.len() {
                assert((rest + made)[k] == rest[k]);
            } else {
                assert((rest + made)[k] == made[k - rest.len()]);
            }
        }
    }
}

/// A filter on what the left side of a join binds throughout may come before
/// the join: the solutions are the same, in the same order.
pub proof fn a_filter_sinks_into_the_left_side<N: Numbers>(
    d: Dict,
    left: BatchView,
    right: BatchView,
    e: ExprView,
)
    requires
        left.schema.no_duplicates(),
        forall|n: Text| #[trigger] refs(e).contains(n) ==> bound_throughout(left, n),
    ensures
        solutions(d, filter_batch::<N>(d, join_batch(d, left, right), e)) == solutions(
            d,
            join_batch(d, filter_batch::<N>(d, left, e), right),
        ),
{
    let s = Sides { left: left.schema, right: right.schema };
    let m = left.rows.len() as int;
    added_names(left.schema, right.schema);
    assert(left.rows.take(m) =~= left.rows);
    assert forall|k: int| 0 <= k < left.rows.len() implies reads_bound(
        e,
        left.schema,
        #[trigger] left.rows[k],
    ) by {
        assert forall|n: Text| #[trigger] refs(e).contains(n) implies bound_in(
            left.schema,
            left.rows[k],
            n,
        ) by {
            assert(bound_throughout(left, n));
        }
    }
    filtered_joins::<N>(d, left, right, e, m);
    let all = joined_rows(d, left, right, m);
    let f = filter_batch::<N>(d, left, e);
    let some = joined_rows(d, f, right, f.rows.len() as int);
    assert(f == kept::<N>(d, left, e, m));
    decoding_keeps_the_rows::<N>(d, s.out(), all, forced_columns(left, right), e);
    satisfying_even::<N>(d, s.out(), all, e);
    decoding_keeps_the_solutions(
        d,
        s.out(),
        some,
        forced_columns(left, right),
        forced_columns(f, right),
    );
}

proof fn satisfying_even<N: Numbers>(
    d: Dict,
    s: Seq<Text>,
    rows: Seq<Seq<SlotView>>,
    e: ExprView,
)
    requires
        even(rows, s.len()),
    ensures
        even(satisfying::<N>(d, s, rows, Some(e)), s.len()),
    decreases rows.len(),
{
    if rows.len() > 0 {
        let rest = rows.drop_last();
        assert forall|k: int| 0 <= k < rest.len() implies (#[trigger] rest[k]).len() == s.len() by {
            assert(rest[k] == rows[k]);
        }
        satisfying_even::<N>(d, s, rest, e);
        assert(rows[rows.len() - 1].len() == s.len());
    }
}

// ── Optional matches ────────────────────────────────────────────────────────

proof fn left_joined_prefix<N: Numbers>(
    d: Dict,
    x: BatchView,
    y: BatchView,
    right: BatchView,
    cond: Option<ExprView>,
    n: int,
)
    requires
        x.schema == y.schema,
        n <= x.rows.len(),
        n <= y.rows.len(),
        forall|k: int| 0 <= k < n ==> #[trigger] x.rows[k] == y.rows[k],
    ensures
        left_joined_rows::<N>(d, x, right, cond, n) == left_joined_rows::<N>(d, y, right, cond, n),
    decreases n,
{
    if n > 0 {
        left_joined_prefix::<N>(d, x, y, right, cond, n - 1);
        assert(x.rows[n - 1] == y.rows[n - 1]);
    }
}

proof fn some_decide<N: Numbers>(
    d: Dict,
    s: Seq<Text>,
    rows: Seq<Seq<SlotView>>,
    cond: Option<ExprView>,
    e: ExprView,
    v: bool,
)
    requires
        decides::<N>(d, s, rows, e, v),
        even(rows, s.len()),
    ensures
        decides::<N>(d, s, satisfying::<N>(d, s, rows, cond), e, v),
        even(satisfying::<N>(d, s, rows, cond), s.len()),
    decreases rows.len(),
{
    if rows.len() > 0 {
        let rest = rows.drop_last();
        assert forall|k: int| 0 <= k < rest.len() implies truth::<N>(
            e,
            solution(d, s, #[trigger] rest[k]),
        ) == v by {
            assert(rest[k] == rows[k]);
        }
        assert forall|k: int| 0 <= k < rest.len() implies (#[trigger] rest[k]).len() == s.len() by {
            assert(rest[k] == rows[k]);
        }
        some_decide::<N>(d, s, rest, cond, e, v);
        assert(truth::<N>(e, solution(d, s, rows[rows.len() - 1])) == v);
        assert(rows[rows.len() - 1].len() == s.len());
    }
}

proof fn optional_decides<N: Numbers>(
    d: Dict,
    left: Seq<Text>,
    right: BatchView,
    a: Seq<SlotView>,
    cond: Option<ExprView>,
    e: ExprView,
)
    requires
        left.no_duplicates(),
        reads_bound(e, left, a),
    ensures
        ({
            let s = Sides { left, right: right.schema };
            let made = optional_rows::<N>(d, left, right, a, cond);
            &&& decides::<N>(d, s.out(), made, e, truth::<N>(e, solution(d, left, a)))
            &&& even(made, s.out().len())
        }),
{
    let s = Sides { left, right: right.schema };
    let v = truth::<N>(e, solution(d, left, a));
    let c = candidates(left, right, a);
    let u = unbound_row(right.schema.len());
    merges_decide::<N>(d, s, a, c, e);
    some_decide::<N>(d, s.out(), s.merge_all(d, a, c), cond, e, v);
    assert(s.compatible(d, a, u)) by {
        assert forall|i: int| 0 <= i < s.out().len() implies (#[trigger] s.slot(d, a, u, i)) is Some by {
            position_facts(s.right, s.out()[i]);
        }
    }
    merge_keeps_the_left(d, s, a, u, e);
    evaluation_reads_only_refs::<N>(
        e,
        solution(d, s.out(), s.merge(d, a, u)->0),
        solution(d, left, a),
    );
}

proof fn filtered_left_joins<N: Numbers>(
    d: Dict,
    left: BatchView,
    right: BatchView,
    cond: Option<ExprView>,
    e: ExprView,
    n: int,
)
    requires
        left.schema.no_duplicates(),
        0 <= n <= left.rows.len(),
        forall|k: int|
            0 <= k < left.rows.len() ==> reads_bound(e, left.schema, #[trigger] left.rows[k]),
    ensures
        ({
            let s = Sides { left: left.schema, right: right.schema };
            let k = kept::<N>(d, left, e, n);
            let all = left_joined_rows::<N>(d, left, right, cond, n);
            &&& satisfying::<N>(d, s.out(), all, Some(e)) == left_joined_rows::<N>(
                d,
                k,
                right,
                cond,
                k.rows.len() as int,
            )
            &&& even(all, s.out().len())
        }),
    decreases n,
{
    let s = Sides { left: left.schema, right: right.schema };
    let now = kept::<N>(d, left, e, n);
    if n == 0 {
        assert(left.rows.take(0) =~= Seq::empty());
        assert(now.rows =~= Seq::empty());
        assert(left_joined_rows::<N>(d, left, right, cond, 0) =~= Seq::empty());
    } else {
        let a = left.rows[n - 1];
        let v = truth::<N>(e, solution(d, left.schema, a));
        let before = kept::<N>(d, left, e, n - 1);
        let rest = left_joined_rows::<N>(d, left, right, cond, n - 1);
        let made = optional_rows::<N>(d, left.schema, right, a, cond);
        filtered_left_joins::<N>(d, left, right, cond, e, n - 1);
        kept_step::<N>(d, left, e, n);
        assert(reads_bound(e, left.schema, a));
        optional_decides::<N>(d, left.schema, right, a, cond, e);
        decided_rows::<N>(d, s.out(), made, e, v);
        satisfying_joins::<N>(d, s.out(), rest, made, e);
        let m = before.rows.len() as int;
        left_joined_prefix::<N>(d, before, now, right, cond, m);
        let done = left_joined_rows::<N>(d, before, right, cond, m);
        if v {
            assert(now.rows[m] == a);
        } else {
            assert(done + Seq::empty() =~= done);
        }
        assert forall|k: int| 0 <= k < (rest + made).len() implies (#[trigger] (rest + made)[k]).len()
            == s.out().len() by {
            if k < rest.len() {
                assert((rest + made)[k] == rest[k]);
            } else {
                assert((rest + made)[k] == made[k - rest.len()]);
            }
        }
    }
}

/// A filter on what the mandatory side of an optional match binds throughout
/// may come before the match: the solutions are the same, in the same order.
pub proof fn a_filter_sinks_into_the_mandatory_side<N: Numbers>(
    d: Dict,
    left: BatchView,
    right: BatchView,
    cond: Option<ExprView>,
    e: ExprView,
)
    requires
        left.schema.no_duplicates(),
        forall|n: Text| #[trigger] refs(e).contains(n) ==> bound_throughout(left, n),
    ensures
        solutions(d, filter_batch::<N>(d, left_join_batch::<N>(d, left, right, cond), e))
            == solutions(
            d,
            left_join_batch::<N>(d, filter_batch::<N>(d, left, e), right, cond),
        ),
{
    let s = Sides { left: left.schema, right: right.schema };
    let m = left.rows.len() as int;
    added_names(left.schema, right.schema);
    assert(left.rows.take(m) =~= left.rows);
    assert forall|k: int| 0 <= k < left.rows.len() implies reads_bound(
        e,
        left.schema,
        #[trigger] left.rows[k],
    ) by {
        assert forall|n: Text| #[trigger] refs(e).contains(n) implies bound_in(
            left.schema,
            left.rows[k],
            n,
        ) by {
            assert(bound_throughout(left, n));
        }
    }
    filtered_left_joins::<N>(d, left, right, cond, e, m);
    let all = left_joined_rows::<N>(d, left, right, cond, m);
    let f = filter_batch::<N>(d, left, e);
    let some = left_joined_rows::<N>(d, f, right, cond, f.rows.len() as int);
    assert(f == kept::<N>(d, left, e, m));
    decoding_keeps_the_rows::<N>(d, s.out(), all, forced_columns(left, right), e);
    satisfying_even::<N>(d, s.out(), all, e);
    decoding_keeps_the_solutions(
        d,
        s.out(),
        some,
        forced_columns(left, right),
        forced_columns(f, right),
    );
}

// ── The right side ──────────────────────────────────────────────────────────

/// A merged row holds what the right row holds, wherever that is bound.
proof fn merge_keeps_the_right(
    d: Dict,
    s: Sides,
    a: Seq<SlotView>,
    b: Seq<SlotView>,
    e: ExprView,
)
    requires
        s.left.no_duplicates(),
        s.right.no_duplicates(),
        s.compatible(d, a, b),
        reads_bound(e, s.right, b),
    ensures
        agree_on(solution(d, s.out(), s.merge(d, a, b)->0), solution(d, s.right, b), refs(e)),
{
    added_names(s.left, s.right);
    let m = s.merge(d, a, b)->0;
    assert forall|n: Text| #[trigger] refs(e).contains(n) implies bound_to(
        solution(d, s.out(), m),
        n,
    ) == bound_to(solution(d, s.right, b), n) by {
        assert(bound_in(s.right, b, n));
        merged_cell(d, s, a, b, n);
        cell_is_some(s.right, b, n);
        assert(s.out().contains(n));
        let c = choose|c: int| 0 <= c < s.out().len() && s.out()[c] == n;
        assert(s.slot(d, a, b, c) is Some);
        solution_of_cell(d, s.out(), m, n);
        solution_of_cell(d, s.right, b, n);
    }
}

/// What is kept of the merges are the merges of what is kept.
proof fn merges_of_the_kept<N: Numbers>(
    d: Dict,
    s: Sides,
    a: Seq<SlotView>,
    rows: Seq<Seq<SlotView>>,
    e: ExprView,
)
    requires
        s.left.no_duplicates(),
        s.right.no_duplicates(),
        forall|k: int| 0 <= k < rows.len() ==> reads_bound(e, s.right, #[trigger] rows[k]),
    ensures
        satisfying::<N>(d, s.out(), s.merge_all(d, a, rows), Some(e)) == s.merge_all(
            d,
            a,
            satisfying::<N>(d, s.right, rows, Some(e)),
        ),
        even(s.merge_all(d, a, rows), s.out().len()),
    decreases rows.len(),
{
    let made = s.merge_all(d, a, rows);
    if rows.len() > 0 {
        let rest = rows.drop_last();
        let b = rows.last();
        assert forall|k: int| 0 <= k < rest.len() implies reads_bound(
            e,
            s.right,
            #[trigger] rest[k],
        ) by {
            assert(rest[k] == rows[k]);
        }
        merges_of_the_kept::<N>(d, s, a, rest, e);
        assert(reads_bound(e, s.right, rows[rows.len() - 1]));
        let kept = satisfying::<N>(d, s.right, rest, Some(e));
        assert(kept.push(b).drop_last() =~= kept);
        if s.compatible(d, a, b) {
            let m = s.merge(d, a, b)->0;
            merge_keeps_the_right(d, s, a, b, e);
            evaluation_reads_only_refs::<N>(
                e,
                solution(d, s.out(), m),
                solution(d, s.right, b),
            );
            assert(made.drop_last() =~= s.merge_all(d, a, rest));
            assert(made.last() == m);
        }
    } else {
        assert(satisfying::<N>(d, s.out(), made, Some(e)) =~= Seq::empty());
    }
}

/// How often a row is kept.
proof fn kept_counts<N: Numbers>(d: Dict, s: Seq<Text>, rows: Seq<Seq<SlotView>>, e: ExprView)
    ensures
        forall|r: Seq<SlotView>|
            #![trigger satisfying::<N>(d, s, rows, Some(e)).to_multiset().count(r)]
            satisfying::<N>(d, s, rows, Some(e)).to_multiset().count(r) == (if truth::<N>(
                e,
                solution(d, s, r),
            ) {
                rows.to_multiset().count(r)
            } else {
                0
            }),
    decreases rows.len(),
{
    broadcast use vstd::seq_lib::group_to_multiset_ensures;

    if rows.len() > 0 {
        let rest = rows.drop_last();
        kept_counts::<N>(d, s, rest, e);
        assert(rest.push(rows.last()) =~= rows);
        assert(rows.to_multiset() =~= rest.to_multiset().insert(rows.last()));
        assert forall|r: Seq<SlotView>|
            #![trigger satisfying::<N>(d, s, rows, Some(e)).to_multiset().count(r)]
            satisfying::<N>(d, s, rows, Some(e)).to_multiset().count(r) == (if truth::<N>(
                e,
                solution(d, s, r),
            ) {
                rows.to_multiset().count(r)
            } else {
                0
            }) by {
            assert(satisfying::<N>(d, s, rest, Some(e)).to_multiset().count(r) == (if truth::<N>(
                e,
                solution(d, s, r),
            ) {
                rest.to_multiset().count(r)
            } else {
                0
            }));
        }
    } else {
        assert(satisfying::<N>(d, s, rows, Some(e)) =~= rows);
        assert forall|r: Seq<SlotView>| #[trigger] rows.to_multiset().count(r) == 0 by {
            assert(!rows.contains(r));
        }
    }
}

/// The split of the right side changes only the order of the merges.
proof fn split_merges(d: Dict, s: Sides, a: Seq<SlotView>, right: BatchView, n: int)
    requires
        0 <= n <= right.rows.len(),
    ensures
        (s.merge_all(d, a, split(s.left, right, n, true)) + s.merge_all(
            d,
            a,
            split(s.left, right, n, false),
        )).to_multiset() == s.merge_all(d, a, right.rows.take(n)).to_multiset(),
    decreases n,
{
    broadcast use vstd::seq_lib::group_to_multiset_ensures;

    let t = s.merge_all(d, a, split(s.left, right, n, true));
    let f = s.merge_all(d, a, split(s.left, right, n, false));
    let all = s.merge_all(d, a, right.rows.take(n));
    lemma_multiset_commutative(t, f);
    if n > 0 {
        let b = right.rows[n - 1];
        let before = right.rows.take(n - 1);
        let (t0, f0) = (split(s.left, right, n - 1, true), split(s.left, right, n - 1, false));
        split_merges(d, s, a, right, n - 1);
        lemma_multiset_commutative(s.merge_all(d, a, t0), s.merge_all(d, a, f0));
        assert(right.rows.take(n).drop_last() =~= before);
        assert(right.rows.take(n).last() == b);
        assert(t0.push(b).drop_last() =~= t0);
        assert(f0.push(b).drop_last() =~= f0);
        assert((t + f).to_multiset() =~= all.to_multiset());
    } else {
        assert(right.rows.take(n) =~= Seq::empty());
        assert(t + f =~= all);
    }
}

/// The right rows are merged with a left row as they come, up to their order.
proof fn candidates_merge(d: Dict, s: Sides, a: Seq<SlotView>, right: BatchView)
    ensures
        s.merge_all(d, a, candidates(s.left, right, a)).to_multiset() == s.merge_all(
            d,
            a,
            right.rows,
        ).to_multiset(),
{
    let n = right.rows.len() as int;
    split_merges(d, s, a, right, n);
    merge_all_append(s, d, a, split(s.left, right, n, true), split(s.left, right, n, false));
    assert(right.rows.take(n) =~= right.rows);
}

proof fn joins_with_the_kept<N: Numbers>(
    d: Dict,
    left: BatchView,
    right: BatchView,
    e: ExprView,
    n: int,
)
    requires
        left.schema.no_duplicates(),
        right.schema.no_duplicates(),
        0 <= n <= left.rows.len(),
        forall|k: int|
            0 <= k < right.rows.len() ==> reads_bound(e, right.schema, #[trigger] right.rows[k]),
    ensures
        ({
            let s = Sides { left: left.schema, right: right.schema };
            let all = joined_rows(d, left, right, n);
            &&& satisfying::<N>(d, s.out(), all, Some(e)).to_multiset() == joined_rows(
                d,
                left,
                filter_batch::<N>(d, right, e),
                n,
            ).to_multiset()
            &&& even(all, s.out().len())
            &&& even(joined_rows(d, left, filter_batch::<N>(d, right, e), n), s.out().len())
        }),
    decreases n,
{
    let s = Sides { left: left.schema, right: right.schema };
    let f = filter_batch::<N>(d, right, e);
    let all = joined_rows(d, left, right, n);
    let some = joined_rows(d, left, f, n);
    if n == 0 {
        assert(satisfying::<N>(d, s.out(), all, Some(e)) =~= some);
    } else {
        let a = left.rows[n - 1];
        let made = s.merge_all(d, a, candidates(left.schema, right, a));
        let kept = s.merge_all(d, a, candidates(left.schema, f, a));
        let rest = joined_rows(d, left, right, n - 1);
        let others = joined_rows(d, left, f, n - 1);
        joins_with_the_kept::<N>(d, left, right, e, n - 1);
        candidates_merge(d, s, a, right);
        candidates_merge(d, s, a, f);
        merges_of_the_kept::<N>(d, s, a, right.rows, e);
        let whole = s.merge_all(d, a, right.rows);
        kept_counts::<N>(d, s.out(), made, e);
        kept_counts::<N>(d, s.out(), whole, e);
        assert(satisfying::<N>(d, s.out(), made, Some(e)).to_multiset() =~= satisfying::<N>(
            d,
            s.out(),
            whole,
            Some(e),
        ).to_multiset());
        satisfying_joins::<N>(d, s.out(), rest, made, e);
        lemma_multiset_commutative(
            satisfying::<N>(d, s.out(), rest, Some(e)),
            satisfying::<N>(d, s.out(), made, Some(e)),
        );
        lemma_multiset_commutative(others, kept);
        merges_are_even(d, s, a, candidates(left.schema, right, a));
        merges_are_even(d, s, a, candidates(left.schema, f, a));
        even_together(rest, made, s.out().len());
        even_together(others, kept, s.out().len());
    }
}

proof fn merges_are_even(d: Dict, s: Sides, a: Seq<SlotView>, rows: Seq<Seq<SlotView>>)
    ensures
        even(s.merge_all(d, a, rows), s.out().len()),
    decreases rows.len(),
{
    if rows.len() > 0 {
        merges_are_even(d, s, a, rows.drop_last());
    }
}

proof fn even_together(x: Seq<Seq<SlotView>>, y: Seq<Seq<SlotView>>, n: nat)
    requires
        even(x, n),
        even(y, n),
    ensures
        even(x + y, n),
{
    assert forall|k: int| 0 <= k < (x + y).len() implies (#[trigger] (x + y)[k]).len() == n by {
        if k < x.len() {
            assert((x + y)[k] == x[k]);
        } else {
            assert((x + y)[k] == y[k - x.len()]);
        }
    }
}

/// The same rows, however often each, have the same solutions.
proof fn same_rows_same_solutions(
    d: Dict,
    s: Seq<Text>,
    x: Seq<Seq<SlotView>>,
    y: Seq<Seq<SlotView>>,
)
    requires
        x.to_multiset() == y.to_multiset(),
    ensures
        solutions(d, BatchView { schema: s, rows: x }).to_multiset() == solutions(
            d,
            BatchView { schema: s, rows: y },
        ).to_multiset(),
    decreases x.len(),
{
    broadcast use vstd::seq_lib::group_to_multiset_ensures;

    let (f, g) = (
        solutions(d, BatchView { schema: s, rows: x }),
        solutions(d, BatchView { schema: s, rows: y }),
    );
    assert(x.len() == x.to_multiset().len() && y.len() == y.to_multiset().len());
    if x.len() > 0 {
        let last = x.len() - 1;
        assert(x[last] == x.last() && x.contains(x.last()));
        assert(y.to_multiset().count(x.last()) > 0);
        let j = choose|j: int| 0 <= j < y.len() && y[j] == x.last();
        assert(x.remove(last) =~= x.drop_last());
        same_rows_same_solutions(d, s, x.drop_last(), y.remove(j));
        assert(solutions(d, BatchView { schema: s, rows: x.drop_last() }) =~= f.remove(last));
        assert(solutions(d, BatchView { schema: s, rows: y.remove(j) }) =~= g.remove(j));
        assert(f[last] == g[j]);
        assert(f.contains(f[last]) && g.contains(g[j]));
        assert(f.to_multiset() =~= f.to_multiset().remove(f[last]).insert(f[last]));
        assert(g.to_multiset() =~= g.to_multiset().remove(g[j]).insert(g[j]));
    } else {
        assert(f =~= g);
    }
}

proof fn decoded_solutions(
    d: Dict,
    s: Seq<Text>,
    rows: Seq<Seq<SlotView>>,
    columns: Seq<bool>,
)
    requires
        s.no_duplicates(),
        even(rows, s.len()),
    ensures
        solutions(d, BatchView { schema: s, rows: force_rows(d, rows, columns) }) == solutions(
            d,
            BatchView { schema: s, rows },
        ),
{
    let x = BatchView { schema: s, rows: force_rows(d, rows, columns) };
    let y = BatchView { schema: s, rows };
    assert forall|k: int| 0 <= k < rows.len() implies solutions(d, x)[k] == solutions(d, y)[k] by {
        assert(rows[k].len() == s.len());
        assert(x.rows[k] =~= decoded(d, rows[k], columns));
        decoding_keeps_the_solution(d, s, rows[k], columns);
    }
    assert(solutions(d, x) =~= solutions(d, y));
}

/// A filter on what the right side of a join binds throughout may come before
/// the join: the solutions are the same and each is found as often, though
/// their order may be another.
pub proof fn a_filter_sinks_into_the_right_side<N: Numbers>(
    d: Dict,
    left: BatchView,
    right: BatchView,
    e: ExprView,
)
    requires
        left.schema.no_duplicates(),
        right.schema.no_duplicates(),
        forall|n: Text| #[trigger] refs(e).contains(n) ==> bound_throughout(right, n),
    ensures
        solutions(d, filter_batch::<N>(d, join_batch(d, left, right), e)).to_multiset()
            == solutions(d, join_batch(d, left, filter_batch::<N>(d, right, e))).to_multiset(),
{
    let s = Sides { left: left.schema, right: right.schema };
    let m = left.rows.len() as int;
    added_names(left.schema, right.schema);
    assert forall|k: int| 0 <= k < right.rows.len() implies reads_bound(
        e,
        right.schema,
        #[trigger] right.rows[k],
    ) by {
        assert forall|n: Text| #[trigger] refs(e).contains(n) implies bound_in(
            right.schema,
            right.rows[k],
            n,
        ) by {
            assert(bound_throughout(right, n));
        }
    }
    joins_with_the_kept::<N>(d, left, right, e, m);
    let f = filter_batch::<N>(d, right, e);
    let all = joined_rows(d, left, right, m);
    let some = joined_rows(d, left, f, m);
    let kept = satisfying::<N>(d, s.out(), all, Some(e));
    decoding_keeps_the_rows::<N>(d, s.out(), all, forced_columns(left, right), e);
    satisfying_even::<N>(d, s.out(), all, e);
    decoded_solutions(d, s.out(), kept, forced_columns(left, right));
    decoded_solutions(d, s.out(), some, forced_columns(left, f));
    same_rows_same_solutions(d, s.out(), kept, some);
}

}
