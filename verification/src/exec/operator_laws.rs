//! What the operators do to solutions, told over the solutions alone.

use crate::algebra::{ExprView, TermView};
use crate::exec::batch::{
    position, position_facts, slot_term, solution, solutions, BatchView, Dict, SlotView,
};
use crate::exec::executor::bound_to_their_names;
use crate::exec::expr::{truth, value};
use crate::exec::join::{
    candidates, cell, excluded, force_rows, forced_columns, join_batch, joined_rows,
    left_join_batch, left_joined_rows, minus_batch, optional_rows, remaining_rows, satisfying,
    slots_equal, split, unbound_row, Sides,
};
use crate::exec::narrow::{
    cell_is_some, extended_cells, one_valued, project_keeps_cells, projected_names,
    solution_of_cell,
};
use crate::exec::narrow_join::{added_names, merged_cell};
use crate::exec::number::Numbers;
use crate::exec::operators::{
    distinct_batch, distinct_rows_are_distinct, distinct_slot_rows, extend_batch, filter_batch,
    laid_out, laid_out_all, mixed_columns, project_batch, repeats, slice_batch, union_batch,
    values_batch,
};
use crate::exec::runtime::{graph_batch, per_graph_batch};
use crate::exec::scope::NamedGraphView;
use crate::text::Text;
use vstd::prelude::*;

verus! {

/// A solution.
pub type Sol = Map<Text, TermView>;

/// Is a batch sound: its columns distinct and its rows even?
pub open spec fn sound(b: BatchView) -> bool {
    b.wf() && b.schema.no_duplicates()
}

/// Do the ids of two rows stand for different terms where they differ?
pub open spec fn apart_rows(d: Dict, a: Seq<SlotView>, b: Seq<SlotView>) -> bool {
    forall|i: int, j: int|
        0 <= i < a.len() && 0 <= j < b.len() && (#[trigger] a[i]) is Id && (#[trigger] b[j]) is Id
            && d[a[i]->Id_0] == d[b[j]->Id_0] ==> a[i] == b[j]
}

/// Do the ids of two batches stand for different terms where they differ?
pub open spec fn apart(d: Dict, a: BatchView, b: BatchView) -> bool {
    forall|i: int, j: int|
        0 <= i < a.rows.len() && 0 <= j < b.rows.len() ==> apart_rows(
            d,
            #[trigger] a.rows[i],
            #[trigger] b.rows[j],
        )
}

/// Do two solutions agree on what both bind?
pub open spec fn agree(x: Sol, y: Sol) -> bool {
    forall|v: Text| #[trigger] x.contains_key(v) && #[trigger] y.contains_key(v) ==> x[v] == y[v]
}

/// Do two solutions bind a variable in common?
pub open spec fn share(x: Sol, y: Sol) -> bool {
    exists|v: Text| #[trigger] x.contains_key(v) && #[trigger] y.contains_key(v)
}

/// Two solutions together.
pub open spec fn together(x: Sol, y: Sol) -> Sol {
    x.union_prefer_right(y)
}

// ── Rows and solutions ──────────────────────────────────────────────────────

proof fn told_by_terms(d: Dict, s: Seq<Text>, r: Seq<SlotView>, q: Seq<SlotView>)
    requires
        forall|i: int| 0 <= i < s.len() ==> #[trigger] slot_term(d, r[i]) == slot_term(d, q[i]),
    ensures
        solution(d, s, r) == solution(d, s, q),
    decreases s.len(),
{
    if s.len() > 0 {
        let n = s.len() - 1;
        told_by_terms(d, s.drop_last(), r, q);
        assert(slot_term(d, r[n]) == slot_term(d, q[n]));
    }
}

proof fn forcing_keeps_solutions(
    d: Dict,
    s: Seq<Text>,
    rows: Seq<Seq<SlotView>>,
    columns: Seq<bool>,
    k: int,
)
    requires
        0 <= k < rows.len(),
        rows[k].len() == s.len(),
    ensures
        force_rows(d, rows, columns)[k].len() == s.len(),
        solution(d, s, force_rows(d, rows, columns)[k]) == solution(d, s, rows[k]),
{
    told_by_terms(d, s, force_rows(d, rows, columns)[k], rows[k]);
}

proof fn distinct_columns_hold_one(s: Seq<Text>, r: Seq<SlotView>)
    requires
        s.no_duplicates(),
    ensures
        one_valued(s, r),
{
}

/// A row binds a variable to the term in its column, and no other variable.
pub proof fn a_row_binds_its_columns(d: Dict, b: BatchView, k: int, v: Text)
    requires
        sound(b),
        0 <= k < b.rows.len(),
    ensures
        forall|c: int|
            0 <= c < b.schema.len() && #[trigger] b.schema[c] == v ==> match b.rows[k][c] {
                SlotView::Unbound => !solutions(d, b)[k].contains_key(v),
                SlotView::Term(t) => solutions(d, b)[k].contains_key(v) && solutions(d, b)[k][v]
                    == t,
                SlotView::Id(id) => solutions(d, b)[k].contains_key(v) && solutions(d, b)[k][v]
                    == d[id],
            },
        !b.schema.contains(v) ==> !solutions(d, b)[k].contains_key(v),
{
    let (s, r) = (b.schema, b.rows[k]);
    distinct_columns_hold_one(s, r);
    solution_of_cell(d, s, r, v);
    cell_is_some(s, r, v);
    position_facts(s, v);
    assert(solutions(d, b)[k] == solution(d, s, r));
}

// ── Filters, projections, extensions ────────────────────────────────────────

proof fn satisfying_is_filter<N: Numbers>(
    d: Dict,
    s: Seq<Text>,
    rows: Seq<Seq<SlotView>>,
    e: ExprView,
)
    ensures
        Seq::new(
            satisfying::<N>(d, s, rows, Some(e)).len(),
            |i: int| solution(d, s, satisfying::<N>(d, s, rows, Some(e))[i]),
        ) == Seq::new(rows.len(), |i: int| solution(d, s, rows[i])).filter(
            |m: Sol| truth::<N>(e, m),
        ),
    decreases rows.len(),
{
    reveal(Seq::filter);
    let kept = satisfying::<N>(d, s, rows, Some(e));
    let all = Seq::new(rows.len(), |i: int| solution(d, s, rows[i]));
    let holds = |m: Sol| truth::<N>(e, m);
    let out = Seq::new(kept.len(), |i: int| solution(d, s, kept[i]));
    if rows.len() == 0 {
        assert(out =~= all.filter(holds));
    } else {
        let rest = rows.drop_last();
        satisfying_is_filter::<N>(d, s, rest, e);
        let before = Seq::new(rest.len(), |i: int| solution(d, s, rest[i]));
        let kept_before = satisfying::<N>(d, s, rest, Some(e));
        let out_before = Seq::new(kept_before.len(), |i: int| solution(d, s, kept_before[i]));
        assert(all.drop_last() =~= before);
        assert(all.last() == solution(d, s, rows.last()));
        assert(out_before == before.filter(holds));
        if truth::<N>(e, solution(d, s, rows.last())) {
            assert(out =~= out_before.push(all.last()));
        } else {
            assert(out =~= out_before);
        }
    }
}

/// A filter keeps the solutions of which the condition holds, in order, and no
/// others.
pub proof fn a_filter_keeps_what_satisfies<N: Numbers>(d: Dict, b: BatchView, e: ExprView)
    ensures
        solutions(d, filter_batch::<N>(d, b, e)) == solutions(d, b).filter(
            |m: Sol| truth::<N>(e, m),
        ),
{
    satisfying_is_filter::<N>(d, b.schema, b.rows, e);
    assert(solutions(d, b) =~= Seq::new(b.rows.len(), |i: int| solution(d, b.schema, b.rows[i])));
    let out = filter_batch::<N>(d, b, e);
    assert(solutions(d, out) =~= Seq::new(
        out.rows.len(),
        |i: int| solution(d, b.schema, out.rows[i]),
    ));
}

/// A projection keeps of every solution the variables it names; one that names
/// none keeps all.
pub proof fn a_projection_keeps_its_variables(d: Dict, b: BatchView, vars: Seq<Text>)
    requires
        sound(b),
    ensures
        vars.len() == 0 ==> project_batch(b, vars) == b,
        vars.len() > 0 ==> solutions(d, project_batch(b, vars)) == solutions(d, b).map_values(
            |m: Sol| m.restrict(vars.to_set()),
        ),
{
    if vars.len() > 0 {
        let p = project_batch(b, vars);
        let want = solutions(d, b).map_values(|m: Sol| m.restrict(vars.to_set()));
        assert forall|k: int| 0 <= k < b.rows.len() implies #[trigger] solutions(d, p)[k]
            == want[k] by {
            project_keeps_cells(b, vars, k);
            projected_names(b.schema, vars);
            distinct_columns_hold_one(b.schema, b.rows[k]);
            let (x, y) = (solution(d, p.schema, p.rows[k]), solution(d, b.schema, b.rows[k]));
            assert forall|n: Text| #[trigger]
                x.contains_key(n) == y.restrict(vars.to_set()).contains_key(n) && (x.contains_key(n)
                ==> x[n] == y[n]) by {
                solution_of_cell(d, p.schema, p.rows[k], n);
                solution_of_cell(d, b.schema, b.rows[k], n);
                cell_is_some(p.schema, p.rows[k], n);
                cell_is_some(b.schema, b.rows[k], n);
                if vars.contains(n) {
                    assert(cell(p.schema, p.rows[k], n) == cell(b.schema, b.rows[k], n));
                } else {
                    assert(!p.schema.contains(n));
                }
            }
            assert(x =~= y.restrict(vars.to_set()));
        }
        assert(solutions(d, p) =~= want);
    }
}

/// An extension binds its variable to the value of its expression in every
/// solution, or leaves it unbound where there is none, and changes nothing else.
pub proof fn an_extension_binds_the_value<N: Numbers>(
    d: Dict,
    b: BatchView,
    var: Text,
    e: ExprView,
)
    requires
        sound(b),
    ensures
        solutions(d, extend_batch::<N>(d, b, var, e)) == solutions(d, b).map_values(
            |m: Sol|
                match value::<N>(e, m) {
                    Some(t) => m.insert(var, t),
                    None => m.remove(var),
                },
        ),
{
    let x = extend_batch::<N>(d, b, var, e);
    let want = solutions(d, b).map_values(
        |m: Sol|
            match value::<N>(e, m) {
                Some(t) => m.insert(var, t),
                None => m.remove(var),
            },
    );
    assert forall|k: int| 0 <= k < b.rows.len() implies #[trigger] solutions(d, x)[k]
        == want[k] by {
        distinct_columns_hold_one(b.schema, b.rows[k]);
        extended_cells::<N>(d, b, var, e, k);
        let (m, n) = (solution(d, b.schema, b.rows[k]), solution(d, x.schema, x.rows[k]));
        let w = match value::<N>(e, m) {
            Some(t) => m.insert(var, t),
            None => m.remove(var),
        };
        assert forall|v: Text| #[trigger]
            n.contains_key(v) == w.contains_key(v) && (n.contains_key(v) ==> n[v] == w[v]) by {
            solution_of_cell(d, x.schema, x.rows[k], v);
            solution_of_cell(d, b.schema, b.rows[k], v);
        }
        assert(n =~= w);
    }
    assert(solutions(d, x) =~= want);
}

// ── Unions, slices, inline data ─────────────────────────────────────────────

proof fn laid_out_binds_alike(d: Dict, s: Seq<Text>, r: Seq<SlotView>, t: Seq<Text>)
    requires
        s.no_duplicates(),
        t.no_duplicates(),
        forall|n: Text| #[trigger] s.contains(n) ==> t.contains(n),
    ensures
        solution(d, t, laid_out(s, r, t)) == solution(d, s, r),
{
    let q = laid_out(s, r, t);
    distinct_columns_hold_one(s, r);
    distinct_columns_hold_one(t, q);
    let (x, y) = (solution(d, t, q), solution(d, s, r));
    assert forall|n: Text| #[trigger]
        x.contains_key(n) == y.contains_key(n) && (x.contains_key(n) ==> x[n] == y[n]) by {
        solution_of_cell(d, t, q, n);
        solution_of_cell(d, s, r, n);
        cell_is_some(t, q, n);
        cell_is_some(s, r, n);
        position_facts(t, n);
    }
    assert(x =~= y);
}

/// A union has the solutions of both sides, one side's behind the other's.
pub proof fn a_union_has_both_sides(d: Dict, a: BatchView, b: BatchView)
    requires
        sound(a),
        sound(b),
    ensures
        solutions(d, union_batch(d, a, b)) == solutions(d, a) + solutions(d, b),
{
    let u = union_batch(d, a, b);
    let s = u.schema;
    added_names(a.schema, b.schema);
    let rows = laid_out_all(a, s) + laid_out_all(b, s);
    let want = solutions(d, a) + solutions(d, b);
    assert forall|k: int| 0 <= k < rows.len() implies #[trigger] solutions(d, u)[k] == want[k] by {
        forcing_keeps_solutions(d, s, rows, mixed_columns(rows, s.len()), k);
        if k < a.rows.len() {
            laid_out_binds_alike(d, a.schema, a.rows[k], s);
            assert(rows[k] == laid_out(a.schema, a.rows[k], s));
        } else {
            let j = k - a.rows.len();
            laid_out_binds_alike(d, b.schema, b.rows[j], s);
            assert(rows[k] == laid_out(b.schema, b.rows[j], s));
        }
    }
    assert(solutions(d, u) =~= want);
}

/// A slice leaves out as many solutions as it starts behind, and has as many of
/// the others as it may.
pub proof fn a_slice_is_a_window(d: Dict, b: BatchView, start: int, length: Option<usize>)
    requires
        0 <= start,
    ensures
        ({
            let (all, part) = (solutions(d, b), solutions(d, slice_batch(b, start, length)));
            let rest = if start < all.len() {
                all.len() - start
            } else {
                0
            };
            &&& length is None ==> part.len() == rest
            &&& length matches Some(n) ==> part.len() == (if n < rest {
                n as int
            } else {
                rest
            })
            &&& forall|i: int| 0 <= i < part.len() ==> #[trigger] part[i] == all[start + i]
        }),
{
}

/// Inline data binds each variable to the term in its place, where there is
/// one.
pub proof fn inline_data_is_as_written(
    d: Dict,
    vars: Seq<Text>,
    rows: Seq<Seq<Option<TermView>>>,
    k: int,
    v: Text,
)
    requires
        vars.no_duplicates(),
        0 <= k < rows.len(),
    ensures
        solutions(d, values_batch(vars, rows)).len() == rows.len(),
        forall|c: int|
            0 <= c < vars.len() && #[trigger] vars[c] == v ==> {
                let m = solutions(d, values_batch(vars, rows))[k];
                let given = c < rows[k].len() && rows[k][c] is Some;
                m.contains_key(v) == given && (given ==> m[v] == rows[k][c]->0)
            },
        !vars.contains(v) ==> !solutions(d, values_batch(vars, rows))[k].contains_key(v),
{
    let b = values_batch(vars, rows);
    a_row_binds_its_columns(d, b, k, v);
}

/// Without repetitions every row that is left was there, each identity is left
/// once, and rows of ids are told apart by their ids.
pub proof fn repetitions_are_removed(b: BatchView)
    ensures
        distinct_batch(b).schema == b.schema,
        forall|row: Seq<SlotView>| #[trigger]
            distinct_batch(b).rows.contains(row) ==> b.rows.contains(row),
        distinct_batch(b).rows.no_duplicates(),
        (forall|k: int, c: int|
            0 <= k < b.rows.len() && 0 <= c < b.rows[k].len() ==> (#[trigger] b.rows[k][c]) is Id)
            ==> forall|row: Seq<SlotView>| #[trigger]
            b.rows.contains(row) ==> distinct_batch(b).rows.contains(row),
{
    let out = distinct_slot_rows(b.rows);
    distinct_rows_are_distinct(b.rows);
    distinct_rows_are_rows(b.rows);
    if forall|k: int, c: int|
        0 <= k < b.rows.len() && 0 <= c < b.rows[k].len() ==> (#[trigger] b.rows[k][c]) is Id {
        assert forall|row: Seq<SlotView>| #[trigger] b.rows.contains(row) implies out.contains(
            row,
        ) by {
            let k = choose|k: int| 0 <= k < b.rows.len() && b.rows[k] == row;
            assert(repeats(out, b.rows[k]));
            let j = choose|j: int|
                0 <= j < out.len() && crate::exec::batch::row_key(#[trigger] out[j])
                    == crate::exec::batch::row_key(row);
            assert(out.contains(out[j]));
            assert(b.rows.contains(out[j]));
            let i = choose|i: int| 0 <= i < b.rows.len() && b.rows[i] == out[j];
            let (x, y) = (
                crate::exec::batch::row_key(out[j]),
                crate::exec::batch::row_key(row),
            );
            assert(x.len() == out[j].len() && y.len() == row.len());
            assert forall|c: int| 0 <= c < row.len() implies out[j][c] == row[c] by {
                assert(x[c] == y[c]);
                assert(b.rows[i][c] is Id && b.rows[k][c] is Id);
            }
            assert(out[j] =~= row);
        }
    }
}

proof fn distinct_rows_are_rows(rows: Seq<Seq<SlotView>>)
    ensures
        forall|row: Seq<SlotView>| #[trigger]
            distinct_slot_rows(rows).contains(row) ==> rows.contains(row),
    decreases rows.len(),
{
    if rows.len() > 0 {
        let rest = rows.drop_last();
        distinct_rows_are_rows(rest);
        let (a, b) = (distinct_slot_rows(rest), distinct_slot_rows(rows));
        assert forall|row: Seq<SlotView>| #[trigger] b.contains(row) implies rows.contains(row) by {
            let i = choose|i: int| 0 <= i < b.len() && b[i] == row;
            if i < a.len() {
                assert(a.contains(row));
                let k = choose|k: int| 0 <= k < rest.len() && rest[k] == row;
                assert(rows[k] == row);
            } else {
                assert(rows[rows.len() - 1] == row);
            }
        }
    }
}

// ── Joins ───────────────────────────────────────────────────────────────────

proof fn merging_is_of_solutions(d: Dict, s: Sides, a: Seq<SlotView>, b: Seq<SlotView>)
    requires
        apart_rows(d, a, b),
        s.left.no_duplicates(),
        s.right.no_duplicates(),
        a.len() == s.left.len(),
        b.len() == s.right.len(),
    ensures
        s.compatible(d, a, b) <==> agree(solution(d, s.left, a), solution(d, s.right, b)),
        s.compatible(d, a, b) ==> solution(d, s.out(), s.merge(d, a, b)->0) == together(
            solution(d, s.left, a),
            solution(d, s.right, b),
        ),
{
    let (x, y) = (solution(d, s.left, a), solution(d, s.right, b));
    distinct_columns_hold_one(s.left, a);
    distinct_columns_hold_one(s.right, b);
    added_names(s.left, s.right);
    if s.compatible(d, a, b) {
        assert forall|v: Text| #[trigger]
            x.contains_key(v) && #[trigger] y.contains_key(v) implies x[v] == y[v] by {
            solution_of_cell(d, s.left, a, v);
            solution_of_cell(d, s.right, b, v);
            cell_is_some(s.left, a, v);
            assert(s.out().contains(v));
            let c = choose|c: int| 0 <= c < s.out().len() && s.out()[c] == v;
            assert(s.slot(d, a, b, c) is Some);
        }
        let m = s.merge(d, a, b)->0;
        let z = solution(d, s.out(), m);
        distinct_columns_hold_one(s.out(), m);
        assert forall|v: Text| #[trigger]
            z.contains_key(v) == together(x, y).contains_key(v) && (z.contains_key(v) ==> z[v]
            == together(x, y)[v]) by {
            merged_cell(d, s, a, b, v);
            solution_of_cell(d, s.out(), m, v);
            solution_of_cell(d, s.left, a, v);
            solution_of_cell(d, s.right, b, v);
            cell_is_some(s.left, a, v);
            cell_is_some(s.right, b, v);
            if s.out().contains(v) {
                let c = choose|c: int| 0 <= c < s.out().len() && s.out()[c] == v;
                assert(s.slot(d, a, b, c) is Some);
            }
        }
        assert(z =~= together(x, y));
    }
    if agree(x, y) {
        assert forall|c: int| 0 <= c < s.out().len() implies (
        #[trigger] s.slot(d, a, b, c)) is Some by {
            let v = s.out()[c];
            solution_of_cell(d, s.left, a, v);
            solution_of_cell(d, s.right, b, v);
            position_facts(s.left, v);
            position_facts(s.right, v);
            let (p, q) = (cell(s.left, a, v), cell(s.right, b, v));
            if p is Some && q is Some && !(p->0 is Unbound) && !(q->0 is Unbound) {
                assert(x.contains_key(v) && y.contains_key(v));
                let (i, j) = (position(s.left, v)->0, position(s.right, v)->0);
                assert(p->0 == a[i] && q->0 == b[j]);
                assert(slots_equal(d, p->0, q->0));
            }
        }
    }
}

proof fn merges_are_of_rows(
    d: Dict,
    s: Sides,
    a: Seq<SlotView>,
    rows: Seq<Seq<SlotView>>,
    m: Seq<SlotView>,
)
    ensures
        s.merge_all(d, a, rows).contains(m) <==> exists|k: int|
            0 <= k < rows.len() && s.merge(d, a, #[trigger] rows[k]) == Some(m),
    decreases rows.len(),
{
    if rows.len() > 0 {
        let rest = rows.drop_last();
        merges_are_of_rows(d, s, a, rest, m);
        let (before, all) = (s.merge_all(d, a, rest), s.merge_all(d, a, rows));
        if all.contains(m) {
            let i = choose|i: int| 0 <= i < all.len() && all[i] == m;
            if i < before.len() {
                assert(before.contains(m));
                let k = choose|k: int|
                    0 <= k < rest.len() && s.merge(d, a, #[trigger] rest[k]) == Some(m);
                assert(rows[k] == rest[k]);
            } else {
                assert(s.merge(d, a, rows[rows.len() - 1]) == Some(m));
            }
        }
        if exists|k: int| 0 <= k < rows.len() && s.merge(d, a, #[trigger] rows[k]) == Some(m) {
            let k = choose|k: int|
                0 <= k < rows.len() && s.merge(d, a, #[trigger] rows[k]) == Some(m);
            if k < rest.len() {
                assert(rest[k] == rows[k]);
                let i = choose|i: int| 0 <= i < before.len() && before[i] == m;
                assert(all[i] == m);
            } else {
                assert(all.last() == m);
            }
        }
    } else {
        assert(!s.merge_all(d, a, rows).contains(m));
    }
}

proof fn split_is_of_rows(left: Seq<Text>, right: BatchView, n: int, r: Seq<SlotView>)
    requires
        0 <= n <= right.rows.len(),
    ensures
        split(left, right, n, true).contains(r) || split(left, right, n, false).contains(r)
            <==> exists|k: int| 0 <= k < n && #[trigger] right.rows[k] == r,
    decreases n,
{
    if n > 0 {
        split_is_of_rows(left, right, n - 1, r);
        let row = right.rows[n - 1];
        let (t, f) = (split(left, right, n - 1, true), split(left, right, n - 1, false));
        let (tt, ff) = (split(left, right, n, true), split(left, right, n, false));
        assert(tt == t.push(row) && ff == f || ff == f.push(row) && tt == t);
        assert(t.push(row).contains(r) <==> t.contains(r) || row == r) by {
            pushed(t, row, r);
        }
        assert(f.push(row).contains(r) <==> f.contains(r) || row == r) by {
            pushed(f, row, r);
        }
    } else {
        assert(!split(left, right, n, true).contains(r));
        assert(!split(left, right, n, false).contains(r));
    }
}

proof fn pushed(s: Seq<Seq<SlotView>>, x: Seq<SlotView>, r: Seq<SlotView>)
    ensures
        s.push(x).contains(r) <==> s.contains(r) || x == r,
{
    let t = s.push(x);
    if t.contains(r) {
        let i = choose|i: int| 0 <= i < t.len() && t[i] == r;
        if i < s.len() {
            assert(s[i] == r);
        }
    }
    if s.contains(r) {
        let i = choose|i: int| 0 <= i < s.len() && s[i] == r;
        assert(t[i] == r);
    }
    assert(t[s.len() as int] == x);
}

proof fn candidates_are_the_rows(
    left: Seq<Text>,
    right: BatchView,
    a: Seq<SlotView>,
    r: Seq<SlotView>,
)
    ensures
        candidates(left, right, a).contains(r) <==> right.rows.contains(r),
{
    let n = right.rows.len() as int;
    split_is_of_rows(left, right, n, r);
    let (t, f) = (split(left, right, n, true), split(left, right, n, false));
    assert((t + f).contains(r) <==> t.contains(r) || f.contains(r)) by {
        if (t + f).contains(r) {
            let i = choose|i: int| 0 <= i < (t + f).len() && (t + f)[i] == r;
            if i < t.len() {
                assert(t[i] == r);
            } else {
                assert(f[i - t.len()] == r);
            }
        }
        if t.contains(r) {
            let i = choose|i: int| 0 <= i < t.len() && t[i] == r;
            assert((t + f)[i] == r);
        }
        if f.contains(r) {
            let i = choose|i: int| 0 <= i < f.len() && f[i] == r;
            assert((t + f)[t.len() + i] == r);
        }
    }
}

/// The merges of a left row with the right side are those with its rows.
proof fn merges_of_a_row(
    d: Dict,
    left: BatchView,
    right: BatchView,
    a: Seq<SlotView>,
    m: Seq<SlotView>,
)
    ensures
        ({
            let s = Sides { left: left.schema, right: right.schema };
            s.merge_all(d, a, candidates(left.schema, right, a)).contains(m) <==> exists|j: int|
                0 <= j < right.rows.len() && s.merge(d, a, #[trigger] right.rows[j]) == Some(m)
        }),
{
    let s = Sides { left: left.schema, right: right.schema };
    let cs = candidates(left.schema, right, a);
    merges_are_of_rows(d, s, a, cs, m);
    if exists|k: int| 0 <= k < cs.len() && s.merge(d, a, #[trigger] cs[k]) == Some(m) {
        let k = choose|k: int| 0 <= k < cs.len() && s.merge(d, a, #[trigger] cs[k]) == Some(m);
        candidates_are_the_rows(left.schema, right, a, cs[k]);
        assert(cs.contains(cs[k]));
        let j = choose|j: int| 0 <= j < right.rows.len() && right.rows[j] == cs[k];
        assert(s.merge(d, a, right.rows[j]) == Some(m));
    }
    if exists|j: int| 0 <= j < right.rows.len() && s.merge(d, a, #[trigger] right.rows[j]) == Some(
        m,
    ) {
        let j = choose|j: int|
            0 <= j < right.rows.len() && s.merge(d, a, #[trigger] right.rows[j]) == Some(m);
        candidates_are_the_rows(left.schema, right, a, right.rows[j]);
        assert(right.rows.contains(right.rows[j]));
        let k = choose|k: int| 0 <= k < cs.len() && cs[k] == right.rows[j];
        assert(s.merge(d, a, cs[k]) == Some(m));
    }
}

proof fn joined_are_merges(d: Dict, left: BatchView, right: BatchView, n: int, m: Seq<SlotView>)
    requires
        0 <= n <= left.rows.len(),
    ensures
        ({
            let s = Sides { left: left.schema, right: right.schema };
            joined_rows(d, left, right, n).contains(m) <==> exists|i: int, j: int|
                0 <= i < n && 0 <= j < right.rows.len() && s.merge(
                    d,
                    #[trigger] left.rows[i],
                    #[trigger] right.rows[j],
                ) == Some(m)
        }),
    decreases n,
{
    let s = Sides { left: left.schema, right: right.schema };
    if n > 0 {
        joined_are_merges(d, left, right, n - 1, m);
        let a = left.rows[n - 1];
        merges_of_a_row(d, left, right, a, m);
        let (x, y) = (
            joined_rows(d, left, right, n - 1),
            s.merge_all(d, a, candidates(left.schema, right, a)),
        );
        end_to_end(x, y, m);
        if joined_rows(d, left, right, n).contains(m) {
            if y.contains(m) {
                let j = choose|j: int|
                    0 <= j < right.rows.len() && s.merge(d, a, #[trigger] right.rows[j]) == Some(m);
                assert(s.merge(d, left.rows[n - 1], right.rows[j]) == Some(m));
            }
        }
    } else {
        assert(!joined_rows(d, left, right, n).contains(m));
    }
}

proof fn end_to_end(x: Seq<Seq<SlotView>>, y: Seq<Seq<SlotView>>, m: Seq<SlotView>)
    ensures
        (x + y).contains(m) <==> x.contains(m) || y.contains(m),
{
    if (x + y).contains(m) {
        let i = choose|i: int| 0 <= i < (x + y).len() && (x + y)[i] == m;
        if i < x.len() {
            assert(x[i] == m);
        } else {
            assert(y[i - x.len()] == m);
        }
    }
    if x.contains(m) {
        let i = choose|i: int| 0 <= i < x.len() && x[i] == m;
        assert((x + y)[i] == m);
    }
    if y.contains(m) {
        let i = choose|i: int| 0 <= i < y.len() && y[i] == m;
        assert((x + y)[x.len() + i] == m);
    }
}

/// A join pairs the solutions of its sides that agree, each with each, and has
/// what the two bind together.
pub proof fn a_join_pairs_what_agrees(d: Dict, left: BatchView, right: BatchView, m: Sol)
    requires
        sound(left),
        sound(right),
        apart(d, left, right),
    ensures
        solutions(d, join_batch(d, left, right)).contains(m) <==> exists|i: int, j: int|
            0 <= i < left.rows.len() && 0 <= j < right.rows.len() && agree(
                #[trigger] solutions(d, left)[i],
                #[trigger] solutions(d, right)[j],
            ) && m == together(solutions(d, left)[i], solutions(d, right)[j]),
{
    let s = Sides { left: left.schema, right: right.schema };
    let n = left.rows.len() as int;
    let rows = joined_rows(d, left, right, n);
    let columns = forced_columns(left, right);
    let out = solutions(d, join_batch(d, left, right));
    if out.contains(m) {
        let k = choose|k: int| 0 <= k < out.len() && out[k] == m;
        joined_are_merges(d, left, right, n, rows[k]);
        assert(rows.contains(rows[k]));
        let (i, j) = choose|i: int, j: int|
            0 <= i < n && 0 <= j < right.rows.len() && s.merge(
                d,
                #[trigger] left.rows[i],
                #[trigger] right.rows[j],
            ) == Some(rows[k]);
        forcing_keeps_solutions(d, s.out(), rows, columns, k);
        merging_is_of_solutions(d, s, left.rows[i], right.rows[j]);
        assert(agree(solutions(d, left)[i], solutions(d, right)[j]));
    }
    if exists|i: int, j: int|
        0 <= i < left.rows.len() && 0 <= j < right.rows.len() && agree(
            #[trigger] solutions(d, left)[i],
            #[trigger] solutions(d, right)[j],
        ) && m == together(solutions(d, left)[i], solutions(d, right)[j]) {
        let (i, j) = choose|i: int, j: int|
            0 <= i < left.rows.len() && 0 <= j < right.rows.len() && agree(
                #[trigger] solutions(d, left)[i],
                #[trigger] solutions(d, right)[j],
            ) && m == together(solutions(d, left)[i], solutions(d, right)[j]);
        merging_is_of_solutions(d, s, left.rows[i], right.rows[j]);
        let r = s.merge(d, left.rows[i], right.rows[j])->0;
        joined_are_merges(d, left, right, n, r);
        assert(s.merge(d, left.rows[i], right.rows[j]) == Some(r));
        assert(rows.contains(r));
        let k = choose|k: int| 0 <= k < rows.len() && rows[k] == r;
        forcing_keeps_solutions(d, s.out(), rows, columns, k);
        assert(out[k] == m);
    }
}

/// How many solutions agree with one.
pub open spec fn agreeing(x: Sol, ys: Seq<Sol>) -> nat {
    ys.filter(|y: Sol| agree(x, y)).len()
}

/// How many pairs of solutions agree.
pub open spec fn agreeing_pairs(xs: Seq<Sol>, ys: Seq<Sol>) -> nat
    decreases xs.len(),
{
    if xs.len() == 0 {
        0
    } else {
        agreeing_pairs(xs.drop_last(), ys) + agreeing(xs.last(), ys)
    }
}

spec fn compatible_rows(d: Dict, s: Sides, a: Seq<SlotView>, rows: Seq<Seq<SlotView>>) -> nat
    decreases rows.len(),
{
    if rows.len() == 0 {
        0
    } else {
        compatible_rows(d, s, a, rows.drop_last()) + (if s.compatible(d, a, rows.last()) {
            1nat
        } else {
            0nat
        })
    }
}

proof fn merges_count(d: Dict, s: Sides, a: Seq<SlotView>, rows: Seq<Seq<SlotView>>)
    ensures
        s.merge_all(d, a, rows).len() == compatible_rows(d, s, a, rows),
    decreases rows.len(),
{
    if rows.len() > 0 {
        merges_count(d, s, a, rows.drop_last());
    }
}

proof fn counts_add(
    d: Dict,
    s: Sides,
    a: Seq<SlotView>,
    x: Seq<Seq<SlotView>>,
    y: Seq<Seq<SlotView>>,
)
    ensures
        compatible_rows(d, s, a, x + y) == compatible_rows(d, s, a, x) + compatible_rows(
            d,
            s,
            a,
            y,
        ),
    decreases y.len(),
{
    if y.len() == 0 {
        assert(x + y =~= x);
    } else {
        counts_add(d, s, a, x, y.drop_last());
        assert((x + y).drop_last() =~= x + y.drop_last());
        assert((x + y).last() == y.last());
    }
}

proof fn split_counts(d: Dict, s: Sides, right: BatchView, a: Seq<SlotView>, n: int)
    requires
        0 <= n <= right.rows.len(),
    ensures
        compatible_rows(d, s, a, split(s.left, right, n, true)) + compatible_rows(
            d,
            s,
            a,
            split(s.left, right, n, false),
        ) == compatible_rows(d, s, a, right.rows.take(n)),
    decreases n,
{
    if n > 0 {
        split_counts(d, s, right, a, n - 1);
        let row = right.rows[n - 1];
        let (t, f) = (split(s.left, right, n - 1, true), split(s.left, right, n - 1, false));
        assert(right.rows.take(n).drop_last() =~= right.rows.take(n - 1));
        assert(t.push(row).drop_last() =~= t);
        assert(f.push(row).drop_last() =~= f);
    }
}

proof fn compatible_is_agreeing(d: Dict, left: BatchView, right: BatchView, i: int, n: int)
    requires
        sound(left),
        sound(right),
        apart(d, left, right),
        0 <= i < left.rows.len(),
        0 <= n <= right.rows.len(),
    ensures
        compatible_rows(
            d,
            Sides { left: left.schema, right: right.schema },
            left.rows[i],
            right.rows.take(n),
        ) == agreeing(solutions(d, left)[i], solutions(d, right).take(n)),
    decreases n,
{
    reveal(Seq::filter);
    let s = Sides { left: left.schema, right: right.schema };
    let ys = solutions(d, right);
    if n > 0 {
        compatible_is_agreeing(d, left, right, i, n - 1);
        assert(right.rows.take(n).drop_last() =~= right.rows.take(n - 1));
        assert(ys.take(n).drop_last() =~= ys.take(n - 1));
        merging_is_of_solutions(d, s, left.rows[i], right.rows[n - 1]);
        assert(ys.take(n).last() == ys[n - 1]);
    }
}

proof fn joined_count(d: Dict, left: BatchView, right: BatchView, n: int)
    requires
        sound(left),
        sound(right),
        apart(d, left, right),
        0 <= n <= left.rows.len(),
    ensures
        joined_rows(d, left, right, n).len() == agreeing_pairs(
            solutions(d, left).take(n),
            solutions(d, right),
        ),
    decreases n,
{
    if n > 0 {
        joined_count(d, left, right, n - 1);
        let s = Sides { left: left.schema, right: right.schema };
        let a = left.rows[n - 1];
        let (xs, ys) = (solutions(d, left), solutions(d, right));
        let all = right.rows.len() as int;
        let cs = candidates(left.schema, right, a);
        merges_count(d, s, a, cs);
        split_counts(d, s, right, a, all);
        counts_add(
            d,
            s,
            a,
            split(left.schema, right, all, true),
            split(left.schema, right, all, false),
        );
        assert(right.rows.take(all) =~= right.rows);
        assert(ys.take(all) =~= ys);
        compatible_is_agreeing(d, left, right, n - 1, all);
        assert(xs.take(n).drop_last() =~= xs.take(n - 1));
        assert(xs.take(n).last() == xs[n - 1]);
    }
}

/// A join has a solution for every pair that agrees.
pub proof fn a_join_has_one_for_each_pair(d: Dict, left: BatchView, right: BatchView)
    requires
        sound(left),
        sound(right),
        apart(d, left, right),
    ensures
        solutions(d, join_batch(d, left, right)).len() == agreeing_pairs(
            solutions(d, left),
            solutions(d, right),
        ),
{
    let n = left.rows.len() as int;
    joined_count(d, left, right, n);
    assert(solutions(d, left).take(n) =~= solutions(d, left));
}

/// Does a solution of the right side match one of the left side, under the
/// condition?
pub open spec fn matches_under<N: Numbers>(x: Sol, y: Sol, cond: Option<ExprView>) -> bool {
    agree(x, y) && (cond is None || truth::<N>(cond->0, together(x, y)))
}

/// Does none of the right solutions match?
pub open spec fn matches_none<N: Numbers>(x: Sol, ys: Seq<Sol>, cond: Option<ExprView>) -> bool {
    forall|j: int| 0 <= j < ys.len() ==> !matches_under::<N>(x, #[trigger] ys[j], cond)
}

/// Is this a left solution together with one that matches it?
pub open spec fn is_match<N: Numbers>(x: Sol, ys: Seq<Sol>, cond: Option<ExprView>, m: Sol) -> bool {
    exists|j: int|
        0 <= j < ys.len() && matches_under::<N>(x, #[trigger] ys[j], cond) && m == together(
            x,
            ys[j],
        )
}

proof fn satisfying_contains<N: Numbers>(
    d: Dict,
    s: Seq<Text>,
    rows: Seq<Seq<SlotView>>,
    cond: Option<ExprView>,
    m: Seq<SlotView>,
)
    ensures
        satisfying::<N>(d, s, rows, cond).contains(m) <==> rows.contains(m) && (cond is None
            || truth::<N>(cond->0, solution(d, s, m))),
    decreases rows.len(),
{
    if rows.len() > 0 {
        let rest = rows.drop_last();
        satisfying_contains::<N>(d, s, rest, cond, m);
        pushed(satisfying::<N>(d, s, rest, cond), rows.last(), m);
        pushed(rest, rows.last(), m);
        assert(rest.push(rows.last()) =~= rows);
    } else {
        assert(!satisfying::<N>(d, s, rows, cond).contains(m));
    }
}

proof fn unbound_binds_nothing(d: Dict, s: Seq<Text>, n: nat)
    requires
        n == s.len(),
    ensures
        solution(d, s, unbound_row(n)) == Sol::empty(),
    decreases s.len(),
{
    if s.len() > 0 {
        let less = unbound_row((n - 1) as nat);
        unbound_binds_nothing(d, s.drop_last(), (n - 1) as nat);
        told_by_terms(d, s.drop_last(), unbound_row(n), less);
        assert(slot_term(d, unbound_row(n)[n - 1]) is None);
    }
}

/// What an optional match makes of one left row.
proof fn optional_of_a_row<N: Numbers>(
    d: Dict,
    left: BatchView,
    right: BatchView,
    cond: Option<ExprView>,
    i: int,
    r: Seq<SlotView>,
)
    requires
        sound(left),
        sound(right),
        apart(d, left, right),
        0 <= i < left.rows.len(),
        optional_rows::<N>(d, left.schema, right, left.rows[i], cond).contains(r),
    ensures
        ({
            let s = Sides { left: left.schema, right: right.schema };
            let (x, ys, m) = (solutions(d, left)[i], solutions(d, right), solution(d, s.out(), r));
            &&& r.len() == s.out().len()
            &&& is_match::<N>(x, ys, cond, m) || (m == x && matches_none::<N>(x, ys, cond))
        }),
{
    let s = Sides { left: left.schema, right: right.schema };
    let a = left.rows[i];
    let (x, ys) = (solutions(d, left)[i], solutions(d, right));
    let all = s.merge_all(d, a, candidates(left.schema, right, a));
    let found = satisfying::<N>(d, s.out(), all, cond);
    if found.len() > 0 {
        satisfying_contains::<N>(d, s.out(), all, cond, r);
        merges_of_a_row(d, left, right, a, r);
        let j = choose|j: int|
            0 <= j < right.rows.len() && s.merge(d, a, #[trigger] right.rows[j]) == Some(r);
        merging_is_of_solutions(d, s, a, right.rows[j]);
        assert(ys[j] == solution(d, right.schema, right.rows[j]));
        assert(matches_under::<N>(x, ys[j], cond));
        assert(solution(d, s.out(), r) == together(x, ys[j]));
        assert(is_match::<N>(x, ys, cond, solution(d, s.out(), r)));
        assert(r.len() == s.out().len());
    } else {
        let none = unbound_row(right.schema.len());
        merging_is_of_solutions(d, s, a, none);
        unbound_binds_nothing(d, right.schema, right.schema.len());
        assert(agree(x, Sol::empty()));
        assert(together(x, Sol::empty()) =~= x);
        assert(r == s.merge(d, a, none)->0);
        assert(r.len() == s.out().len());
        assert(solution(d, s.out(), r) == x);
        assert forall|j: int| 0 <= j < ys.len() implies !matches_under::<N>(
            x,
            #[trigger] ys[j],
            cond,
        ) by {
            if matches_under::<N>(x, ys[j], cond) {
                merging_is_of_solutions(d, s, a, right.rows[j]);
                let m = s.merge(d, a, right.rows[j])->0;
                merges_of_a_row(d, left, right, a, m);
                assert(s.merge(d, a, right.rows[j]) == Some(m));
                satisfying_contains::<N>(d, s.out(), all, cond, m);
                assert(found.contains(m));
            }
        }
        assert(matches_none::<N>(x, ys, cond));
    }
}

proof fn optional_has_every_match<N: Numbers>(
    d: Dict,
    left: BatchView,
    right: BatchView,
    cond: Option<ExprView>,
    i: int,
    j: int,
) -> (r: Seq<SlotView>)
    requires
        sound(left),
        sound(right),
        apart(d, left, right),
        0 <= i < left.rows.len(),
        0 <= j < right.rows.len(),
        matches_under::<N>(solutions(d, left)[i], solutions(d, right)[j], cond),
    ensures
        optional_rows::<N>(d, left.schema, right, left.rows[i], cond).contains(r),
        solution(d, (Sides { left: left.schema, right: right.schema }).out(), r) == together(
            solutions(d, left)[i],
            solutions(d, right)[j],
        ),
{
    let s = Sides { left: left.schema, right: right.schema };
    let a = left.rows[i];
    merging_is_of_solutions(d, s, a, right.rows[j]);
    let m = s.merge(d, a, right.rows[j])->0;
    merges_of_a_row(d, left, right, a, m);
    assert(s.merge(d, a, right.rows[j]) == Some(m));
    let all = s.merge_all(d, a, candidates(left.schema, right, a));
    satisfying_contains::<N>(d, s.out(), all, cond, m);
    m
}

proof fn left_joined_by_row<N: Numbers>(
    d: Dict,
    left: BatchView,
    right: BatchView,
    cond: Option<ExprView>,
    n: int,
    r: Seq<SlotView>,
)
    requires
        0 <= n <= left.rows.len(),
    ensures
        left_joined_rows::<N>(d, left, right, cond, n).contains(r) <==> exists|i: int|
            0 <= i < n && optional_rows::<N>(
                d,
                left.schema,
                right,
                #[trigger] left.rows[i],
                cond,
            ).contains(r),
    decreases n,
{
    if n > 0 {
        left_joined_by_row::<N>(d, left, right, cond, n - 1, r);
        let a = left.rows[n - 1];
        end_to_end(
            left_joined_rows::<N>(d, left, right, cond, n - 1),
            optional_rows::<N>(d, left.schema, right, a, cond),
            r,
        );
        if optional_rows::<N>(d, left.schema, right, a, cond).contains(r) {
            assert(optional_rows::<N>(d, left.schema, right, left.rows[n - 1], cond).contains(r));
        }
    } else {
        assert(!left_joined_rows::<N>(d, left, right, cond, n).contains(r));
    }
}

/// An optional match has, for each left solution, what it is together with the
/// right ones that match it, and the left solution itself where none does.
pub proof fn an_optional_match_has_all_matches<N: Numbers>(
    d: Dict,
    left: BatchView,
    right: BatchView,
    cond: Option<ExprView>,
    m: Sol,
)
    requires
        sound(left),
        sound(right),
        apart(d, left, right),
    ensures
        ({
            let (xs, ys) = (solutions(d, left), solutions(d, right));
            solutions(d, left_join_batch::<N>(d, left, right, cond)).contains(m) <==> ({
                ||| exists|i: int| 0 <= i < xs.len() && is_match::<N>(#[trigger] xs[i], ys, cond, m)
                ||| exists|i: int|
                    0 <= i < xs.len() && m == #[trigger] xs[i] && matches_none::<N>(
                        xs[i],
                        ys,
                        cond,
                    )
            })
        }),
{
    let s = Sides { left: left.schema, right: right.schema };
    let (xs, ys) = (solutions(d, left), solutions(d, right));
    let n = left.rows.len() as int;
    let rows = left_joined_rows::<N>(d, left, right, cond, n);
    let columns = forced_columns(left, right);
    let out = solutions(d, left_join_batch::<N>(d, left, right, cond));
    if out.contains(m) {
        let k = choose|k: int| 0 <= k < out.len() && out[k] == m;
        left_joined_by_row::<N>(d, left, right, cond, n, rows[k]);
        assert(rows.contains(rows[k]));
        let i = choose|i: int|
            0 <= i < n && optional_rows::<N>(
                d,
                left.schema,
                right,
                #[trigger] left.rows[i],
                cond,
            ).contains(rows[k]);
        optional_of_a_row::<N>(d, left, right, cond, i, rows[k]);
        forcing_keeps_solutions(d, s.out(), rows, columns, k);
        assert(m == solution(d, s.out(), rows[k]));
        assert(is_match::<N>(xs[i], ys, cond, m) || (m == xs[i] && matches_none::<N>(
            xs[i],
            ys,
            cond,
        )));
    }
    if exists|i: int| 0 <= i < xs.len() && is_match::<N>(#[trigger] xs[i], ys, cond, m) {
        let i = choose|i: int|
            0 <= i < xs.len() && is_match::<N>(#[trigger] xs[i], ys, cond, m);
        let j = choose|j: int|
            0 <= j < ys.len() && matches_under::<N>(xs[i], #[trigger] ys[j], cond) && m == together(
                xs[i],
                ys[j],
            );
        let r = optional_has_every_match::<N>(d, left, right, cond, i, j);
        left_joined_by_row::<N>(d, left, right, cond, n, r);
        assert(optional_rows::<N>(d, left.schema, right, left.rows[i], cond).contains(r));
        let k = choose|k: int| 0 <= k < rows.len() && rows[k] == r;
        optional_of_a_row::<N>(d, left, right, cond, i, r);
        forcing_keeps_solutions(d, s.out(), rows, columns, k);
        assert(out[k] == m);
    }
    if exists|i: int|
        0 <= i < xs.len() && m == #[trigger] xs[i] && matches_none::<N>(xs[i], ys, cond) {
        let i = choose|i: int|
            0 <= i < xs.len() && m == #[trigger] xs[i] && matches_none::<N>(xs[i], ys, cond);
        crate::exec::narrow_join::an_optional_match_keeps_every_left_row::<N>(d, left, right, cond);
        let some = optional_rows::<N>(d, left.schema, right, left.rows[i], cond);
        assert(some.len() > 0);
        let r = some[0];
        assert(some.contains(r));
        optional_of_a_row::<N>(d, left, right, cond, i, r);
        left_joined_by_row::<N>(d, left, right, cond, n, r);
        let k = choose|k: int| 0 <= k < rows.len() && rows[k] == r;
        forcing_keeps_solutions(d, s.out(), rows, columns, k);
        assert(out[k] == m);
    }
}

proof fn exclusion_is_of_solutions(d: Dict, s: Sides, a: Seq<SlotView>, b: Seq<SlotView>)
    requires
        apart_rows(d, a, b),
        s.left.no_duplicates(),
        s.right.no_duplicates(),
        a.len() == s.left.len(),
        b.len() == s.right.len(),
    ensures
        s.excludes(d, a, b) <==> agree(solution(d, s.left, a), solution(d, s.right, b)) && share(
            solution(d, s.left, a),
            solution(d, s.right, b),
        ),
{
    let (x, y) = (solution(d, s.left, a), solution(d, s.right, b));
    merging_is_of_solutions(d, s, a, b);
    distinct_columns_hold_one(s.left, a);
    distinct_columns_hold_one(s.right, b);
    added_names(s.left, s.right);
    assert forall|c: int| 0 <= c < s.out().len() implies (s.slot(d, a, b, c) is Some
        <==> #[trigger] s.agrees(d, a, b, c)) by {}
    if s.compatible(d, a, b) {
        assert forall|c: int| 0 <= c < s.out().len() implies #[trigger] s.agrees(d, a, b, c) by {
            assert(s.slot(d, a, b, c) is Some);
        }
    }
    if exists|c: int| 0 <= c < s.out().len() && #[trigger] s.both_bound(a, b, c) {
        let c = choose|c: int| 0 <= c < s.out().len() && #[trigger] s.both_bound(a, b, c);
        solution_of_cell(d, s.left, a, s.out()[c]);
        solution_of_cell(d, s.right, b, s.out()[c]);
        assert(x.contains_key(s.out()[c]) && y.contains_key(s.out()[c]));
    }
    if share(x, y) {
        let v = choose|v: Text| #[trigger] x.contains_key(v) && #[trigger] y.contains_key(v);
        solution_of_cell(d, s.left, a, v);
        solution_of_cell(d, s.right, b, v);
        cell_is_some(s.left, a, v);
        assert(s.out().contains(v));
        let c = choose|c: int| 0 <= c < s.out().len() && s.out()[c] == v;
        assert(s.both_bound(a, b, c));
    }
    if s.excludes(d, a, b) {
        assert forall|c: int| 0 <= c < s.out().len() implies (
        #[trigger] s.slot(d, a, b, c)) is Some by {
            assert(s.agrees(d, a, b, c));
        }
        assert(s.compatible(d, a, b));
    }
}

/// Does a solution of the right side take one of the left side out?
pub open spec fn is_taken(x: Sol, ys: Seq<Sol>) -> bool {
    exists|j: int| 0 <= j < ys.len() && agree(x, #[trigger] ys[j]) && share(x, ys[j])
}

proof fn remaining_is_filter(d: Dict, left: BatchView, right: BatchView, n: int)
    requires
        sound(left),
        sound(right),
        apart(d, left, right),
        0 <= n <= left.rows.len(),
    ensures
        ({
            let kept = remaining_rows(d, left, right, n);
            Seq::new(kept.len(), |i: int| solution(d, left.schema, kept[i])) == solutions(
                d,
                left,
            ).take(n).filter(|m: Sol| !is_taken(m, solutions(d, right)))
        }),
    decreases n,
{
    reveal(Seq::filter);
    let kept = remaining_rows(d, left, right, n);
    let out = Seq::new(kept.len(), |i: int| solution(d, left.schema, kept[i]));
    let (xs, ys) = (solutions(d, left), solutions(d, right));
    let stays = |m: Sol| !is_taken(m, ys);
    if n == 0 {
        assert(out =~= xs.take(n).filter(stays));
    } else {
        remaining_is_filter(d, left, right, n - 1);
        let before = remaining_rows(d, left, right, n - 1);
        let out_before = Seq::new(before.len(), |i: int| solution(d, left.schema, before[i]));
        let s = Sides { left: left.schema, right: right.schema };
        let a = left.rows[n - 1];
        assert(xs.take(n).drop_last() =~= xs.take(n - 1));
        assert(xs.take(n).last() == solution(d, left.schema, a));
        assert(excluded(d, left.schema, right, a) <==> is_taken(xs[n - 1], ys)) by {
            if excluded(d, left.schema, right, a) {
                let k = choose|k: int|
                    0 <= k < right.rows.len() && s.excludes(d, a, #[trigger] right.rows[k]);
                exclusion_is_of_solutions(d, s, a, right.rows[k]);
                assert(agree(xs[n - 1], ys[k]));
            }
            if is_taken(xs[n - 1], ys) {
                let k = choose|k: int|
                    0 <= k < ys.len() && agree(xs[n - 1], #[trigger] ys[k]) && share(
                        xs[n - 1],
                        ys[k],
                    );
                exclusion_is_of_solutions(d, s, a, right.rows[k]);
                assert(s.excludes(d, a, right.rows[k]));
            }
        }
        if excluded(d, left.schema, right, a) {
            assert(out =~= out_before);
        } else {
            assert(out =~= out_before.push(xs[n - 1]));
        }
    }
}

/// A difference keeps the left solutions, in order, but for those that some
/// right one agrees with and shares a variable with.
pub proof fn a_difference_takes_out_what_agrees(d: Dict, left: BatchView, right: BatchView)
    requires
        sound(left),
        sound(right),
        apart(d, left, right),
    ensures
        solutions(d, minus_batch(d, left, right)) == solutions(d, left).filter(
            |m: Sol| !is_taken(m, solutions(d, right)),
        ),
{
    let n = left.rows.len() as int;
    remaining_is_filter(d, left, right, n);
    assert(solutions(d, left).take(n) =~= solutions(d, left));
    let kept = remaining_rows(d, left, right, n);
    assert(solutions(d, minus_batch(d, left, right)) =~= Seq::new(
        kept.len(),
        |i: int| solution(d, left.schema, kept[i]),
    ));
}

// ── Graphs ──────────────────────────────────────────────────────────────────

proof fn joins_are_sound(d: Dict, left: BatchView, right: BatchView)
    requires
        sound(left),
        sound(right),
    ensures
        sound(join_batch(d, left, right)),
{
    let s = Sides { left: left.schema, right: right.schema };
    let n = left.rows.len() as int;
    added_names(left.schema, right.schema);
    let rows = joined_rows(d, left, right, n);
    let out = join_batch(d, left, right);
    assert forall|k: int| 0 <= k < out.rows.len() implies (#[trigger] out.rows[k]).len()
        == out.schema.len() by {
        joined_are_merges(d, left, right, n, rows[k]);
        assert(rows.contains(rows[k]));
    }
}

proof fn unions_are_sound(d: Dict, a: BatchView, b: BatchView)
    requires
        sound(a),
        sound(b),
    ensures
        sound(union_batch(d, a, b)),
{
    added_names(a.schema, b.schema);
}

/// A solution of a pattern in a graph, with the graph's name for the variable.
pub open spec fn in_graph(x: Sol, var: Text, iri: Text) -> Sol {
    x.insert(var, TermView::Iri(iri))
}

/// Is this a solution of one of the patterns, with the name of its graph for
/// the variable?
pub open spec fn is_of_a_graph(
    d: Dict,
    var: Text,
    graphs: Seq<NamedGraphView>,
    parts: Seq<BatchView>,
    n: int,
    m: Sol,
) -> bool {
    exists|i: int, k: int|
        0 <= i < n && 0 <= k < parts[i].rows.len() && is_of(
            #[trigger] solutions(d, parts[i])[k],
            var,
            graphs[i].iri,
            m,
        )
}

/// Is this a solution with the name of a graph for the variable, where it does
/// not have another for it?
pub open spec fn is_of(x: Sol, var: Text, iri: Text, m: Sol) -> bool {
    (x.contains_key(var) ==> x[var] == TermView::Iri(iri)) && m == in_graph(x, var, iri)
}

/// A graph variable stands for each graph in turn: the solutions are those of
/// the pattern in each graph, with the graph's name for the variable.
pub proof fn a_graph_variable_stands_for_each_graph(
    d: Dict,
    var: Text,
    graphs: Seq<NamedGraphView>,
    parts: Seq<BatchView>,
    n: int,
    m: Sol,
)
    requires
        0 <= n <= graphs.len(),
        n <= parts.len(),
        bound_to_their_names(d, graphs),
        forall|i: int|
            0 <= i < n ==> sound(#[trigger] parts[i]) && apart(
                d,
                parts[i],
                graph_batch(var, graphs[i].binding),
            ),
    ensures
        sound(per_graph_batch(d, var, graphs, parts, n)),
        solutions(d, per_graph_batch(d, var, graphs, parts, n)).contains(m) <==> is_of_a_graph(
            d,
            var,
            graphs,
            parts,
            n,
            m,
        ),
    decreases n,
{
    let all = per_graph_batch(d, var, graphs, parts, n);
    if n == 0 {
        assert(!solutions(d, all).contains(m));
    } else {
        a_graph_variable_stands_for_each_graph(d, var, graphs, parts, n - 1, m);
        let before = per_graph_batch(d, var, graphs, parts, n - 1);
        let (part, g) = (parts[n - 1], graph_batch(var, graphs[n - 1].binding));
        let here = join_batch(d, part, g);
        assert(sound(parts[n - 1]));
        assert(sound(g));
        joins_are_sound(d, part, g);
        unions_are_sound(d, before, here);
        a_union_has_both_sides(d, before, here);
        a_join_pairs_what_agrees(d, part, g, m);
        let iri = graphs[n - 1].iri;
        let y = solutions(d, g)[0];
        a_row_binds_its_columns(d, g, 0, var);
        assert(g.schema[0] == var);
        assert(y =~= Sol::empty().insert(var, TermView::Iri(iri))) by {
            assert forall|v: Text| v != var implies !y.contains_key(v) by {
                a_row_binds_its_columns(d, g, 0, v);
            }
        }
        let (a, b) = (solutions(d, before), solutions(d, here));
        assert((a + b).contains(m) <==> a.contains(m) || b.contains(m)) by {
            if (a + b).contains(m) {
                let k = choose|k: int| 0 <= k < (a + b).len() && (a + b)[k] == m;
                if k < a.len() {
                    assert(a[k] == m);
                } else {
                    assert(b[k - a.len()] == m);
                }
            }
            if a.contains(m) {
                let k = choose|k: int| 0 <= k < a.len() && a[k] == m;
                assert((a + b)[k] == m);
            }
            if b.contains(m) {
                let k = choose|k: int| 0 <= k < b.len() && b[k] == m;
                assert((a + b)[a.len() + k] == m);
            }
        }
        if b.contains(m) {
            let (k, j) = choose|k: int, j: int|
                0 <= k < part.rows.len() && 0 <= j < g.rows.len() && agree(
                    #[trigger] solutions(d, part)[k],
                    #[trigger] solutions(d, g)[j],
                ) && m == together(solutions(d, part)[k], solutions(d, g)[j]);
            let x = solutions(d, part)[k];
            assert(j == 0);
            assert(y.contains_key(var));
            assert(together(x, y) =~= in_graph(x, var, iri));
            assert(is_of(solutions(d, parts[n - 1])[k], var, graphs[n - 1].iri, m));
        }
        if is_of_a_graph(d, var, graphs, parts, n, m) {
            let (i, k) = choose|i: int, k: int|
                0 <= i < n && 0 <= k < parts[i].rows.len() && is_of(
                    #[trigger] solutions(d, parts[i])[k],
                    var,
                    graphs[i].iri,
                    m,
                );
            let x = solutions(d, parts[i])[k];
            if i == n - 1 {
                assert(agree(x, y));
                assert(together(x, y) =~= in_graph(x, var, iri));
                assert(agree(solutions(d, part)[k], solutions(d, g)[0]));
            } else {
                assert(is_of_a_graph(d, var, graphs, parts, n - 1, m));
            }
        }
        if is_of_a_graph(d, var, graphs, parts, n - 1, m) {
            let (i, k) = choose|i: int, k: int|
                0 <= i < n - 1 && 0 <= k < parts[i].rows.len() && is_of(
                    #[trigger] solutions(d, parts[i])[k],
                    var,
                    graphs[i].iri,
                    m,
                );
            assert(is_of(solutions(d, parts[i])[k], var, graphs[i].iri, m));
        }
    }
}

}
