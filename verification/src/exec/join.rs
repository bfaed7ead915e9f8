//! Joining batches: merging compatible rows, optional matches, and
//! differences.
//!
//! An unbound slot is compatible with anything. Two ids are equal when they
//! are the same id; an id and a term when the id stands for the term.

use crate::algebra::{clone_vars, names, opt_expr_view, Expr, ExprView, Var};
use crate::collections::NameSet;
use crate::error::SparqlError;
use crate::exec::batch::{
    find_column, position, position_facts, slot_rows_view, slot_term, solution, Batch, BatchView,
    Dict, Row, Slot, SlotView,
};
use crate::exec::decode::{decode_slot, row_satisfies};
use crate::exec::executor::Executor;
use crate::exec::expr::truth;
use crate::exec::refs::{referenced_vars, refs};
use crate::exec::number::Numbers;
use crate::plan::passes::{add_all_unique, has_var, push_all_unique};
use crate::text::{compare_text, text_order, text_order_laws, Order, Text};
use std::collections::HashMap;
use vstd::prelude::*;

verus! {

// ── What the joins mean ─────────────────────────────────────────────────────

/// Are two bound slots equal?
pub open spec fn slots_equal(d: Dict, a: SlotView, b: SlotView) -> bool {
    match (a, b) {
        (SlotView::Id(x), SlotView::Id(y)) => x == y,
        _ => slot_term(d, a) == slot_term(d, b),
    }
}

/// The slot of a named column.
pub open spec fn cell(schema: Seq<Text>, row: Seq<SlotView>, name: Text) -> Option<SlotView> {
    match position(schema, name) {
        Some(i) => Some(row[i]),
        None => None,
    }
}

/// The slot two rows agree on in a column; `None` where they conflict.
pub open spec fn merged_slot(d: Dict, a: Option<SlotView>, b: Option<SlotView>) -> Option<SlotView> {
    match (a, b) {
        (Some(x), Some(y)) => if x is Unbound {
            Some(y)
        } else if y is Unbound {
            Some(x)
        } else if slots_equal(d, x, y) {
            Some(x)
        } else {
            None
        },
        (Some(x), None) => Some(x),
        (None, Some(y)) => Some(y),
        (None, None) => Some(SlotView::Unbound),
    }
}

/// The sides of a join.
#[allow(inconsistent_fields)]
#[verifier::ext_equal]
pub struct Sides {
    pub left: Seq<Text>,
    pub right: Seq<Text>,
}

impl Sides {
    /// The columns of the join: those of the left side, then the new ones of
    /// the right.
    pub open spec fn out(self) -> Seq<Text> {
        add_all_unique(self.left, self.right)
    }

    /// The column `c` of a merged pair of rows.
    pub open spec fn slot(self, d: Dict, a: Seq<SlotView>, b: Seq<SlotView>, c: int) -> Option<
        SlotView,
    > {
        merged_slot(d, cell(self.left, a, self.out()[c]), cell(self.right, b, self.out()[c]))
    }

    /// Do the two rows agree wherever both are bound?
    pub open spec fn compatible(self, d: Dict, a: Seq<SlotView>, b: Seq<SlotView>) -> bool {
        forall|c: int| 0 <= c < self.out().len() ==> (#[trigger] self.slot(d, a, b, c)) is Some
    }

    /// The union of two compatible rows.
    pub open spec fn merge(self, d: Dict, a: Seq<SlotView>, b: Seq<SlotView>) -> Option<
        Seq<SlotView>,
    > {
        if self.compatible(d, a, b) {
            Some(Seq::new(self.out().len(), |c: int| self.slot(d, a, b, c)->0))
        } else {
            None
        }
    }

    /// The unions of a row with each of some rows, in order.
    pub open spec fn merge_all(self, d: Dict, a: Seq<SlotView>, rows: Seq<Seq<SlotView>>) -> Seq<
        Seq<SlotView>,
    >
        decreases rows.len(),
    {
        if rows.len() == 0 {
            Seq::empty()
        } else {
            let rest = self.merge_all(d, a, rows.drop_last());
            match self.merge(d, a, rows.last()) {
                Some(m) => rest.push(m),
                None => rest,
            }
        }
    }

    /// Does row `b` of the right side take row `a` out of a difference? It
    /// does where the two agree on all shared columns and are both bound in
    /// one of them.
    pub open spec fn excludes(self, d: Dict, a: Seq<SlotView>, b: Seq<SlotView>) -> bool {
        &&& forall|c: int| 0 <= c < self.out().len() ==> #[trigger] self.agrees(d, a, b, c)
        &&& exists|c: int| 0 <= c < self.out().len() && #[trigger] self.both_bound(a, b, c)
    }

    pub open spec fn both_bound(self, a: Seq<SlotView>, b: Seq<SlotView>, c: int) -> bool {
        match (cell(self.left, a, self.out()[c]), cell(self.right, b, self.out()[c])) {
            (Some(x), Some(y)) => !(x is Unbound) && !(y is Unbound),
            _ => false,
        }
    }

    pub open spec fn agrees(self, d: Dict, a: Seq<SlotView>, b: Seq<SlotView>, c: int) -> bool {
        self.both_bound(a, b, c) ==> slots_equal(
            d,
            cell(self.left, a, self.out()[c])->0,
            cell(self.right, b, self.out()[c])->0,
        )
    }
}

/// Is a row bound in every one of some columns?
pub open spec fn keyed(schema: Seq<Text>, row: Seq<SlotView>, vars: Seq<Text>) -> bool {
    forall|i: int| 0 <= i < vars.len() ==> #[trigger] bound_in(schema, row, vars[i])
}

pub open spec fn bound_in(schema: Seq<Text>, row: Seq<SlotView>, v: Text) -> bool {
    match cell(schema, row, v) {
        Some(s) => !(s is Unbound),
        None => false,
    }
}

/// Is a column of the right side shared, and bound in some row?
pub open spec fn is_join_column(left: Seq<Text>, right: BatchView, i: int) -> bool {
    left.contains(right.schema[i]) && exists|k: int|
        0 <= k < right.rows.len() && !((#[trigger] right.rows[k])[i] is Unbound)
}

/// Is a name that of one of the first `n` columns, and a join column?
pub open spec fn names_join_column(left: Seq<Text>, right: BatchView, v: Text, n: int) -> bool {
    exists|i: int| 0 <= i < n && #[trigger] is_join_column(left, right, i) && right.schema[i] == v
}

/// Are `vars` the join variables: the names of the shared columns that some
/// row of the right side binds, sorted?
pub open spec fn join_vars(left: Seq<Text>, right: BatchView, vars: Seq<Text>) -> bool {
    &&& forall|i: int|
        0 <= i < right.schema.len() && #[trigger] is_join_column(left, right, i) ==> vars.contains(
            right.schema[i],
        )
    &&& forall|k: int|
        0 <= k < vars.len() ==> names_join_column(
            left,
            right,
            #[trigger] vars[k],
            right.schema.len() as int,
        )
    &&& forall|i: int, j: int|
        0 <= i < j < vars.len() ==> text_order(#[trigger] vars[i], #[trigger] vars[j])
            != Order::Greater
}

/// Is a row bound in every join column of a join?
pub open spec fn fully_bound(
    left: Seq<Text>,
    right: BatchView,
    schema: Seq<Text>,
    row: Seq<SlotView>,
) -> bool {
    forall|i: int|
        0 <= i < right.schema.len() && #[trigger] is_join_column(left, right, i) ==> bound_in(
            schema,
            row,
            right.schema[i],
        )
}

/// The first `n` rows of the right side that are bound in every join column
/// (or that are not).
pub open spec fn split(left: Seq<Text>, right: BatchView, n: int, want: bool) -> Seq<Seq<SlotView>>
    decreases n,
{
    if n <= 0 {
        Seq::empty()
    } else {
        let rest = split(left, right, n - 1, want);
        let row = right.rows[n - 1];
        if fully_bound(left, right, right.schema, row) == want {
            rest.push(row)
        } else {
            rest
        }
    }
}

/// The rows of the right side a left row is held against, in order: where the
/// left row is bound in every join column, first the right rows that are, then
/// the others.
pub open spec fn candidates(left: Seq<Text>, right: BatchView, a: Seq<SlotView>) -> Seq<
    Seq<SlotView>,
> {
    if fully_bound(left, right, left, a) {
        split(left, right, right.rows.len() as int, true) + split(
            left,
            right,
            right.rows.len() as int,
            false,
        )
    } else {
        right.rows
    }
}

/// The joins of the first `n` left rows with the right side.
pub open spec fn joined_rows(d: Dict, left: BatchView, right: BatchView, n: int) -> Seq<
    Seq<SlotView>,
>
    decreases n,
{
    if n <= 0 {
        Seq::empty()
    } else {
        let s = Sides { left: left.schema, right: right.schema };
        let a = left.rows[n - 1];
        joined_rows(d, left, right, n - 1) + s.merge_all(d, a, candidates(left.schema, right, a))
    }
}

/// The rows that satisfy a condition; without one, all.
pub open spec fn satisfying<N: Numbers>(
    d: Dict,
    schema: Seq<Text>,
    rows: Seq<Seq<SlotView>>,
    cond: Option<ExprView>,
) -> Seq<Seq<SlotView>>
    decreases rows.len(),
{
    if rows.len() == 0 {
        Seq::empty()
    } else {
        let rest = satisfying::<N>(d, schema, rows.drop_last(), cond);
        if cond is None || truth::<N>(cond->0, solution(d, schema, rows.last())) {
            rest.push(rows.last())
        } else {
            rest
        }
    }
}

pub open spec fn unbound_row(n: nat) -> Seq<SlotView> {
    Seq::new(n, |i: int| SlotView::Unbound)
}

/// What an optional match makes of one left row: its matches or, without any,
/// the row itself with the right side unbound.
pub open spec fn optional_rows<N: Numbers>(
    d: Dict,
    left: Seq<Text>,
    right: BatchView,
    a: Seq<SlotView>,
    cond: Option<ExprView>,
) -> Seq<Seq<SlotView>> {
    let s = Sides { left, right: right.schema };
    let found = satisfying::<N>(
        d,
        s.out(),
        s.merge_all(d, a, candidates(left, right, a)),
        cond,
    );
    if found.len() > 0 {
        found
    } else {
        seq![s.merge(d, a, unbound_row(right.schema.len()))->0]
    }
}

/// The optional matches of the first `n` left rows.
pub open spec fn left_joined_rows<N: Numbers>(
    d: Dict,
    left: BatchView,
    right: BatchView,
    cond: Option<ExprView>,
    n: int,
) -> Seq<Seq<SlotView>>
    decreases n,
{
    if n <= 0 {
        Seq::empty()
    } else {
        left_joined_rows::<N>(d, left, right, cond, n - 1) + optional_rows::<N>(
            d,
            left.schema,
            right,
            left.rows[n - 1],
            cond,
        )
    }
}

/// Does some row of the right side exclude a left row?
pub open spec fn excluded(d: Dict, left: Seq<Text>, right: BatchView, a: Seq<SlotView>) -> bool {
    exists|k: int|
        0 <= k < right.rows.len() && (Sides { left, right: right.schema }).excludes(
            d,
            a,
            #[trigger] right.rows[k],
        )
}

/// The first `n` left rows that no right row excludes.
pub open spec fn remaining_rows(d: Dict, left: BatchView, right: BatchView, n: int) -> Seq<
    Seq<SlotView>,
>
    decreases n,
{
    if n <= 0 {
        Seq::empty()
    } else {
        let rest = remaining_rows(d, left, right, n - 1);
        let a = left.rows[n - 1];
        if excluded(d, left.schema, right, a) {
            rest
        } else {
            rest.push(a)
        }
    }
}

/// Does a column hold a computed term?
pub open spec fn has_term(rows: Seq<Seq<SlotView>>, i: int) -> bool {
    exists|k: int| 0 <= k < rows.len() && (#[trigger] rows[k])[i] is Term
}

/// Is a column of a join to hold terms only? A shared column is, where either
/// side holds a computed term.
pub open spec fn forced(left: BatchView, right: BatchView, c: int) -> bool {
    let s = Sides { left: left.schema, right: right.schema };
    match (position(s.left, s.out()[c]), position(s.right, s.out()[c])) {
        (Some(l), Some(r)) => has_term(left.rows, l) || has_term(right.rows, r),
        _ => false,
    }
}

/// A slot with its id decoded.
pub open spec fn as_term(d: Dict, s: SlotView) -> SlotView {
    match s {
        SlotView::Id(id) => SlotView::Term(d[id]),
        _ => s,
    }
}

/// Rows with the ids of some columns decoded.
pub open spec fn force_rows(d: Dict, rows: Seq<Seq<SlotView>>, columns: Seq<bool>) -> Seq<
    Seq<SlotView>,
> {
    Seq::new(
        rows.len(),
        |k: int|
            Seq::new(
                rows[k].len(),
                |c: int|
                    if 0 <= c < columns.len() && columns[c] {
                        as_term(d, rows[k][c])
                    } else {
                        rows[k][c]
                    },
            ),
    )
}

pub open spec fn forced_columns(left: BatchView, right: BatchView) -> Seq<bool> {
    Seq::new(
        (Sides { left: left.schema, right: right.schema }).out().len(),
        |c: int| forced(left, right, c),
    )
}

/// The join of two batches.
pub open spec fn join_batch(d: Dict, left: BatchView, right: BatchView) -> BatchView {
    BatchView {
        schema: (Sides { left: left.schema, right: right.schema }).out(),
        rows: force_rows(
            d,
            joined_rows(d, left, right, left.rows.len() as int),
            forced_columns(left, right),
        ),
    }
}

/// The left-outer join of two batches.
pub open spec fn left_join_batch<N: Numbers>(
    d: Dict,
    left: BatchView,
    right: BatchView,
    cond: Option<ExprView>,
) -> BatchView {
    BatchView {
        schema: (Sides { left: left.schema, right: right.schema }).out(),
        rows: force_rows(
            d,
            left_joined_rows::<N>(d, left, right, cond, left.rows.len() as int),
            forced_columns(left, right),
        ),
    }
}

/// The difference of two batches.
pub open spec fn minus_batch(d: Dict, left: BatchView, right: BatchView) -> BatchView {
    BatchView {
        schema: left.schema,
        rows: remaining_rows(d, left, right, left.rows.len() as int),
    }
}

// ── Merging rows ────────────────────────────────────────────────────────────

/// Are two bound slots equal?
pub fn slots_same<E: Executor>(exec: &E, a: &Slot, b: &Slot) -> (r: Result<bool, SparqlError>)
    ensures
        r matches Ok(v) ==> v == slots_equal(exec.dict(), a@, b@),
        exec.reliable() ==> r is Ok,
{
    match (a, b) {
        (Slot::Id(x), Slot::Id(y)) => Ok(*x == *y),
        _ => {
            let x = match decode_slot(exec, a) {
                Ok(x) => x,
                Err(e) => return Err(e),
            };
            let y = match decode_slot(exec, b) {
                Ok(y) => y,
                Err(e) => return Err(e),
            };
            match (x, y) {
                (Some(s), Some(t)) => Ok(s.same(&t)),
                (None, None) => Ok(true),
                _ => Ok(false),
            }
        },
    }
}

/// The schema of a join: the left columns, then the new ones of the right.
pub fn union_schema(left: &Vec<Var>, right: &Vec<Var>) -> (r: Vec<Var>)
    ensures
        names(r@) == add_all_unique(names(left@), names(right@)),
{
    let mut s = clone_vars(left);
    push_all_unique(&mut s, right);
    s
}

/// For each output column, its place in the left and in the right schema.
pub open spec fn plan_matches(plan: Seq<(Option<usize>, Option<usize>)>, s: Sides) -> bool {
    &&& plan.len() == s.out().len()
    &&& forall|c: int|
        0 <= c < plan.len() ==> same_place((#[trigger] plan[c]).0, position(s.left, s.out()[c]))
            && same_place(plan[c].1, position(s.right, s.out()[c]))
}

pub open spec fn same_place(a: Option<usize>, b: Option<int>) -> bool {
    match (a, b) {
        (Some(i), Some(j)) => i == j,
        (None, None) => true,
        _ => false,
    }
}

pub fn build_merge_plan(ls: &Vec<Var>, rs: &Vec<Var>, out_schema: &Vec<Var>) -> (r: Vec<
    (Option<usize>, Option<usize>),
>)
    requires
        names(out_schema@) == (Sides { left: names(ls@), right: names(rs@) }).out(),
    ensures
        plan_matches(r@, Sides { left: names(ls@), right: names(rs@) }),
{
    let ghost s = Sides { left: names(ls@), right: names(rs@) };
    let mut plan: Vec<(Option<usize>, Option<usize>)> = Vec::new();
    let mut i: usize = 0;
    while i < out_schema.len()
        invariant
            i == plan@.len(),
            i <= out_schema@.len(),
            s == (Sides { left: names(ls@), right: names(rs@) }),
            names(out_schema@) == s.out(),
            forall|c: int|
                0 <= c < i ==> same_place((#[trigger] plan@[c]).0, position(s.left, s.out()[c]))
                    && same_place(plan@[c].1, position(s.right, s.out()[c])),
        decreases out_schema@.len() - i,
    {
        let name = out_schema[i].name();
        assert(name@ == s.out()[i as int]);
        plan.push((find_column(ls, name), find_column(rs, name)));
        i = i + 1;
    }
    plan
}

fn slot_at<'a>(row: &'a Row, at: Option<usize>) -> (r: Option<&'a Slot>)
    requires
        at matches Some(i) ==> i < row@.len(),
    ensures
        match r {
            Some(s) => at is Some && s@ == row@[at->0 as int],
            None => at is None,
        },
{
    match at {
        Some(i) => Some(&row.0[i]),
        None => None,
    }
}

/// Merges two rows, where they agree.
fn merge_rows_with<E: Executor>(
    exec: &E,
    l: &Row,
    r: &Row,
    plan: &Vec<(Option<usize>, Option<usize>)>,
    Ghost(s): Ghost<Sides>,
) -> (res: Result<Option<Row>, SparqlError>)
    requires
        plan_matches(plan@, s),
        l@.len() == s.left.len(),
        r@.len() == s.right.len(),
    ensures
        res matches Ok(o) ==> match o {
            Some(m) => s.merge(exec.dict(), l@, r@) == Some(m@),
            None => s.merge(exec.dict(), l@, r@) is None,
        },
        exec.reliable() ==> res is Ok,
{
    let ghost d = exec.dict();
    let mut slots: Vec<Slot> = Vec::new();
    let mut c: usize = 0;
    while c < plan.len()
        invariant
            c == slots@.len(),
            c <= plan@.len(),
            d == exec.dict(),
            plan_matches(plan@, s),
            l@.len() == s.left.len(),
            r@.len() == s.right.len(),
            forall|k: int| 0 <= k < c ==> s.slot(d, l@, r@, k) == Some((#[trigger] slots@[k])@),
        decreases plan@.len() - c,
    {
        let (li, ri) = plan[c];
        proof {
            assert(same_place(plan@[c as int].0, position(s.left, s.out()[c as int])));
            position_facts(s.left, s.out()[c as int]);
            position_facts(s.right, s.out()[c as int]);
        }
        let chosen = match (slot_at(l, li), slot_at(r, ri)) {
            (Some(a), Some(b)) => if a.is_unbound() {
                b.clone()
            } else if b.is_unbound() {
                a.clone()
            } else {
                match slots_same(exec, a, b) {
                    Ok(true) => a.clone(),
                    Ok(false) => {
                        assert(s.slot(d, l@, r@, c as int) is None);
                        return Ok(None);
                    },
                    Err(e) => return Err(e),
                }
            },
            (Some(a), None) => a.clone(),
            (None, Some(b)) => b.clone(),
            (None, None) => Slot::Unbound,
        };
        assert(s.slot(d, l@, r@, c as int) == Some(chosen@));
        slots.push(chosen);
        c = c + 1;
    }
    let m = Row(slots);
    proof {
        assert forall|k: int| 0 <= k < s.out().len() implies (#[trigger] s.slot(d, l@, r@, k)) is Some by {
            assert(s.slot(d, l@, r@, k) == Some(slots@[k]@));
        }
        assert(m@ =~= s.merge(d, l@, r@)->0);
    }
    Ok(Some(m))
}

// ── Join variables ──────────────────────────────────────────────────────────

fn column_bound(rows: &Vec<Row>, i: usize) -> (r: bool)
    requires
        forall|k: int| 0 <= k < rows@.len() ==> i < (#[trigger] rows@[k])@.len(),
    ensures
        r == exists|k: int|
            0 <= k < rows@.len() && !((#[trigger] slot_rows_view(rows@)[k])[i as int] is Unbound),
{
    let ghost rv = slot_rows_view(rows@);
    let mut k: usize = 0;
    while k < rows.len()
        invariant
            k <= rows@.len(),
            rv == slot_rows_view(rows@),
            forall|k: int| 0 <= k < rows@.len() ==> i < (#[trigger] rows@[k])@.len(),
            forall|j: int| 0 <= j < k ==> ((#[trigger] rv[j])[i as int] is Unbound),
        decreases rows@.len() - k,
    {
        assert(rv[k as int][i as int] == rows@[k as int].0@[i as int]@);
        if !rows[k].0[i].is_unbound() {
            return true;
        }
        k = k + 1;
    }
    false
}

/// Inserts a variable before the first that sorts after it.
fn insert_sorted(vars: &mut Vec<Var>, v: Var)
    requires
        forall|i: int, j: int|
            0 <= i < j < old(vars)@.len() ==> text_order(
                #[trigger] old(vars)@[i]@,
                #[trigger] old(vars)@[j]@,
            ) != Order::Greater,
    ensures
        forall|i: int, j: int|
            0 <= i < j < final(vars)@.len() ==> text_order(
                #[trigger] final(vars)@[i]@,
                #[trigger] final(vars)@[j]@,
            ) != Order::Greater,
        exists|at: int| 0 <= at <= old(vars)@.len() && final(vars)@ == #[trigger] old(vars)@.insert(at, v),
{
    let mut at: usize = 0;
    let ghost vs = vars@;
    while at < vars.len() && compare_text(vars[at].name(), v.name()) != Order::Greater
        invariant
            at <= vars@.len(),
            vs == vars@,
            forall|i: int, j: int|
                0 <= i < j < vs.len() ==> text_order(#[trigger] vs[i]@, #[trigger] vs[j]@)
                    != Order::Greater,
            forall|i: int| 0 <= i < at ==> text_order(#[trigger] vs[i]@, v@) != Order::Greater,
        decreases vars@.len() - at,
    {
        at = at + 1;
    }
    proof {
        assert forall|j: int| at <= j < vs.len() implies text_order(v@, #[trigger] vs[j]@)
            != Order::Greater by {
            text_order_laws(vs[at as int]@, v@, v@);
            if j > at {
                text_order_laws(v@, vs[at as int]@, vs[j]@);
                text_order_laws(vs[at as int]@, vs[j]@, v@);
                assert(text_order(vs[at as int]@, vs[j]@) != Order::Greater);
            }
        }
    }
    let ghost vv = v;
    vars.insert(at, v);
    proof {
        let ns = vars@;
        assert(ns == vs.insert(at as int, vv));
        assert forall|i: int, j: int| 0 <= i < j < ns.len() implies text_order(
            #[trigger] ns[i]@,
            #[trigger] ns[j]@,
        ) != Order::Greater by {
            if j < at {
                assert(ns[i] == vs[i] && ns[j] == vs[j]);
            } else if j == at {
                assert(ns[i] == vs[i]);
            } else if i < at {
                assert(ns[i] == vs[i] && ns[j] == vs[j - 1]);
            } else if i == at {
                assert(ns[j] == vs[j - 1]);
            } else {
                assert(ns[i] == vs[i - 1] && ns[j] == vs[j - 1]);
            }
        }
    }
}

/// The join variables of a build side.
pub fn bound_join_vars(left_schema: &Vec<Var>, build: &Batch) -> (r: Vec<Var>)
    requires
        build@.wf(),
    ensures
        join_vars(names(left_schema@), build@, names(r@)),
{
    let ghost ls = names(left_schema@);
    let ghost bv = build@;
    let mut out: Vec<Var> = Vec::new();
    let mut i: usize = 0;
    while i < build.schema.len()
        invariant
            i <= build.schema@.len(),
            ls == names(left_schema@),
            bv == build@,
            bv.wf(),
            forall|k: int|
                0 <= k < i && #[trigger] is_join_column(ls, bv, k) ==> names(out@).contains(
                    bv.schema[k],
                ),
            forall|q: int|
                0 <= q < out@.len() ==> names_join_column(ls, bv, (#[trigger] out@[q])@, i as int),
            forall|a: int, b: int|
                0 <= a < b < out@.len() ==> text_order(#[trigger] out@[a]@, #[trigger] out@[b]@)
                    != Order::Greater,
        decreases build.schema@.len() - i,
    {
        let v = &build.schema[i];
        proof {
            assert forall|k: int| 0 <= k < build.rows@.len() implies i < (#[trigger] build.rows@[k])@.len() by {
                assert(bv.rows[k].len() == bv.schema.len());
            }
            assert(v@ == bv.schema[i as int]);
        }
        let ghost before = out@;
        if has_var(left_schema, v) && column_bound(&build.rows, i) {
            assert(is_join_column(ls, bv, i as int));
            let c = v.clone();
            insert_sorted(&mut out, c);
            proof {
                let at = choose|at: int|
                    0 <= at <= before.len() && out@ == #[trigger] before.insert(at, c);
                assert forall|k: int| 0 <= k < i + 1 && #[trigger] is_join_column(ls, bv, k) implies
                    names(out@).contains(bv.schema[k]) by {
                    if k == i {
                        assert(names(out@)[at] == bv.schema[k]);
                    } else {
                        assert(names(before).contains(bv.schema[k]));
                        let q = choose|q: int| 0 <= q < names(before).len() && names(before)[q] == bv.schema[k];
                        if q < at {
                            assert(names(out@)[q] == bv.schema[k]);
                        } else {
                            assert(names(out@)[q + 1] == bv.schema[k]);
                        }
                    }
                }
                assert forall|q: int| 0 <= q < out@.len() implies names_join_column(
                    ls,
                    bv,
                    (#[trigger] out@[q])@,
                    i + 1,
                ) by {
                    if q == at {
                        assert(is_join_column(ls, bv, i as int) && bv.schema[i as int] == out@[q]@);
                    } else {
                        let p = if q < at {
                            q
                        } else {
                            q - 1
                        };
                        assert(out@[q] == before[p]);
                        assert(names_join_column(ls, bv, before[p]@, i as int));
                    }
                }
            }
        } else {
            assert(!is_join_column(ls, bv, i as int));
            assert forall|q: int| 0 <= q < out@.len() implies names_join_column(
                ls,
                bv,
                (#[trigger] out@[q])@,
                i + 1,
            ) by {
                assert(names_join_column(ls, bv, before[q]@, i as int));
            }
        }
        i = i + 1;
    }
    proof {
        let vars = names(out@);
        assert forall|k: int| 0 <= k < vars.len() implies names_join_column(
            ls,
            bv,
            #[trigger] vars[k],
            bv.schema.len() as int,
        ) by {
            assert(vars[k] == out@[k]@);
        }
        assert forall|i: int, j: int| 0 <= i < j < vars.len() implies text_order(
            #[trigger] vars[i],
            #[trigger] vars[j],
        ) != Order::Greater by {
            assert(vars[i] == out@[i]@ && vars[j] == out@[j]@);
        }
    }
    out
}

// ── The build side ──────────────────────────────────────────────────────────

/// The right side of a join, prepared for probing.
pub struct JoinState {
    build: Batch,
    /// The rows bound in every join variable, in order.
    bound: Vec<usize>,
    /// The other rows, in order.
    open: Vec<usize>,
    /// The column the index is on, where the bound rows hold ids there.
    key_column: Option<usize>,
    /// The bound rows by the id in the key column.
    index: HashMap<u64, Vec<usize>>,
    jvars: Vec<Var>,
    out_schema: Vec<Var>,
    merge_plan: Vec<(Option<usize>, Option<usize>)>,
}

spec fn rows_at(rows: Seq<Seq<SlotView>>, at: Seq<usize>) -> Seq<Seq<SlotView>> {
    Seq::new(at.len(), |i: int| rows[at[i] as int])
}

spec fn in_rows(at: Seq<usize>, n: nat) -> bool {
    forall|i: int| 0 <= i < at.len() ==> #[trigger] at[i] < n
}

/// Those of some rows that hold an id in a column.
spec fn with_id(rows: Seq<Seq<SlotView>>, at: Seq<usize>, col: int, id: u64) -> Seq<usize>
    decreases at.len(),
{
    if at.len() == 0 {
        Seq::empty()
    } else {
        let rest = with_id(rows, at.drop_last(), col, id);
        if rows[at.last() as int][col] == SlotView::Id(id) {
            rest.push(at.last())
        } else {
            rest
        }
    }
}

spec fn all_ids(rows: Seq<Seq<SlotView>>, at: Seq<usize>, col: int) -> bool {
    forall|i: int| 0 <= i < at.len() ==> rows[#[trigger] at[i] as int][col] is Id
}

/// Does an index list the rows of each id?
spec fn indexes(
    index: Map<u64, Vec<usize>>,
    rows: Seq<Seq<SlotView>>,
    at: Seq<usize>,
    col: int,
) -> bool {
    forall|id: u64|
        match index.get(id) {
            Some(v) => v@ == #[trigger] with_id(rows, at, col, id),
            None => with_id(rows, at, col, id).len() == 0,
        }
}

impl JoinState {
    /// The right side.
    pub closed spec fn right(&self) -> BatchView {
        self.build@
    }

    spec fn sides(&self, left: Seq<Text>) -> Sides {
        Sides { left, right: self.build@.schema }
    }

    /// Is this the state of a join whose left side has the columns `left`?
    pub closed spec fn prepared(&self, left: Seq<Text>) -> bool {
        let right = self.build@;
        let n = right.rows.len();
        &&& right.wf()
        &&& names(self.out_schema@) == self.sides(left).out()
        &&& plan_matches(self.merge_plan@, self.sides(left))
        &&& join_vars(left, right, names(self.jvars@))
        &&& in_rows(self.bound@, n)
        &&& in_rows(self.open@, n)
        &&& rows_at(right.rows, self.bound@) == split(left, right, n as int, true)
        &&& rows_at(right.rows, self.open@) == split(left, right, n as int, false)
        &&& match self.key_column {
            Some(col) => self.jvars@.len() > 0 && position(right.schema, self.jvars@[0]@) == Some(
                col as int,
            ) && all_ids(right.rows, self.bound@, col as int) && indexes(
                self.index@,
                right.rows,
                self.bound@,
                col as int,
            ),
            None => true,
        }
    }
}

/// Join variables and join columns say the same of a row.
proof fn keyed_is_fully_bound(
    left: Seq<Text>,
    right: BatchView,
    vars: Seq<Text>,
    schema: Seq<Text>,
    row: Seq<SlotView>,
)
    requires
        join_vars(left, right, vars),
    ensures
        keyed(schema, row, vars) == fully_bound(left, right, schema, row),
{
    if keyed(schema, row, vars) {
        assert forall|i: int|
            0 <= i < right.schema.len() && #[trigger] is_join_column(left, right, i) implies bound_in(
            schema,
            row,
            right.schema[i],
        ) by {
            assert(vars.contains(right.schema[i]));
            let k = choose|k: int| 0 <= k < vars.len() && vars[k] == right.schema[i];
            assert(bound_in(schema, row, vars[k]));
        }
    }
    if fully_bound(left, right, schema, row) {
        assert forall|k: int| 0 <= k < vars.len() implies #[trigger] bound_in(schema, row, vars[k]) by {
            assert(names_join_column(left, right, vars[k], right.schema.len() as int));
            let i = choose|i: int|
                0 <= i < right.schema.len() && #[trigger] is_join_column(left, right, i)
                    && right.schema[i] == vars[k];
            assert(bound_in(schema, row, right.schema[i]));
        }
    }
}

/// Is the row bound in every one of the variables?
fn row_keyed(row: &Row, schema: &Vec<Var>, vars: &Vec<Var>) -> (r: bool)
    requires
        row@.len() == schema@.len(),
    ensures
        r == keyed(names(schema@), row@, names(vars@)),
{
    let ghost sv = names(schema@);
    let ghost vv = names(vars@);
    let mut i: usize = 0;
    while i < vars.len()
        invariant
            i <= vars@.len(),
            row@.len() == schema@.len(),
            sv == names(schema@),
            vv == names(vars@),
            forall|k: int| 0 <= k < i ==> #[trigger] bound_in(sv, row@, vv[k]),
        decreases vars@.len() - i,
    {
        assert(vv[i as int] == vars@[i as int]@);
        let bound = match find_column(schema, vars[i].name()) {
            Some(c) => {
                assert(row@[c as int] == row.0@[c as int]@);
                !row.0[c].is_unbound()
            },
            None => false,
        };
        if !bound {
            assert(!bound_in(sv, row@, vv[i as int]));
            return false;
        }
        i = i + 1;
    }
    true
}

/// A left name is a column of the join.
proof fn left_names_stay(left: Seq<Text>, right: Seq<Text>, v: Text)
    requires
        left.contains(v),
    ensures
        add_all_unique(left, right).contains(v),
    decreases right.len(),
{
    if right.len() > 0 {
        left_names_stay(left, right.drop_last(), v);
        let p = add_all_unique(left, right.drop_last());
        let k = choose|k: int| 0 <= k < p.len() && p[k] == v;
        if !p.contains(right.last()) {
            assert(p.push(right.last())[k] == v);
        }
    }
}

/// Rows with different ids in a shared column neither merge nor exclude.
proof fn different_ids_part(
    s: Sides,
    d: Dict,
    a: Seq<SlotView>,
    b: Seq<SlotView>,
    v: Text,
    x: u64,
    y: u64,
)
    requires
        cell(s.left, a, v) == Some(SlotView::Id(x)),
        cell(s.right, b, v) == Some(SlotView::Id(y)),
        x != y,
    ensures
        s.merge(d, a, b) is None,
        !s.excludes(d, a, b),
{
    position_facts(s.left, v);
    assert(s.left.contains(v));
    left_names_stay(s.left, s.right, v);
    let c = choose|c: int| 0 <= c < s.out().len() && s.out()[c] == v;
    assert(s.slot(d, a, b, c) is None);
    assert(s.both_bound(a, b, c));
    assert(!s.agrees(d, a, b, c));
}

/// Only the rows with the left row's id matter.
proof fn only_equal_ids_matter(
    s: Sides,
    d: Dict,
    a: Seq<SlotView>,
    rows: Seq<Seq<SlotView>>,
    at: Seq<usize>,
    v: Text,
    col: int,
    id: u64,
)
    requires
        cell(s.left, a, v) == Some(SlotView::Id(id)),
        position(s.right, v) == Some(col),
        all_ids(rows, at, col),
    ensures
        s.merge_all(d, a, rows_at(rows, at)) == s.merge_all(
            d,
            a,
            rows_at(rows, with_id(rows, at, col, id)),
        ),
        forall|i: int|
            0 <= i < at.len() && s.excludes(d, a, rows[#[trigger] at[i] as int]) ==> with_id(
                rows,
                at,
                col,
                id,
            ).contains(at[i]),
    decreases at.len(),
{
    if at.len() > 0 {
        let rest = at.drop_last();
        assert(all_ids(rows, rest, col)) by {
            assert forall|i: int| 0 <= i < rest.len() implies rows[#[trigger] rest[i] as int][col] is Id by {
                assert(rest[i] == at[i]);
            }
        }
        only_equal_ids_matter(s, d, a, rows, rest, v, col, id);
        let row = rows[at.last() as int];
        assert(at[at.len() - 1] == at.last());
        assert(rows_at(rows, at).drop_last() =~= rows_at(rows, rest));
        assert(rows_at(rows, at).last() == row);
        let w = with_id(rows, rest, col, id);
        let full = with_id(rows, at, col, id);
        if row[col] == SlotView::Id(id) {
            assert(rows_at(rows, full).drop_last() =~= rows_at(rows, w));
            assert(rows_at(rows, full).last() == row);
        } else {
            different_ids_part(s, d, a, row, v, id, row[col]->Id_0);
        }
        assert forall|i: int|
            0 <= i < at.len() && s.excludes(d, a, rows[#[trigger] at[i] as int]) implies full.contains(
            at[i],
        ) by {
            if i < rest.len() {
                assert(rest[i] == at[i]);
                assert(w.contains(rest[i]));
                let k = choose|k: int| 0 <= k < w.len() && w[k] == rest[i];
                assert(full[k] == at[i]);
            } else {
                if row[col] == SlotView::Id(id) {
                    assert(full[full.len() - 1] == at[i]);
                }
            }
        }
    }
}

/// Rows of an id are among the rows.
proof fn with_id_is_part(rows: Seq<Seq<SlotView>>, at: Seq<usize>, col: int, id: u64, n: nat)
    requires
        in_rows(at, n),
    ensures
        in_rows(with_id(rows, at, col, id), n),
        forall|x: usize| #[trigger] with_id(rows, at, col, id).contains(x) ==> at.contains(x),
    decreases at.len(),
{
    if at.len() > 0 {
        let rest = at.drop_last();
        assert(in_rows(rest, n)) by {
            assert forall|i: int| 0 <= i < rest.len() implies #[trigger] rest[i] < n by {
                assert(rest[i] == at[i]);
            }
        }
        with_id_is_part(rows, rest, col, id, n);
        let full = with_id(rows, at, col, id);
        assert(at[at.len() - 1] == at.last());
        assert forall|x: usize| #[trigger] full.contains(x) implies at.contains(x) by {
            let k = choose|k: int| 0 <= k < full.len() && full[k] == x;
            let w = with_id(rows, rest, col, id);
            if k < w.len() {
                assert(w[k] == x);
                assert(w.contains(x));
                let j = choose|j: int| 0 <= j < rest.len() && rest[j] == x;
                assert(at[j] == x);
            }
        }
    }
}

/// Merging with more rows adds their merges.
pub proof fn merge_all_append(
    s: Sides,
    d: Dict,
    a: Seq<SlotView>,
    x: Seq<Seq<SlotView>>,
    y: Seq<Seq<SlotView>>,
)
    ensures
        s.merge_all(d, a, x + y) == s.merge_all(d, a, x) + s.merge_all(d, a, y),
    decreases y.len(),
{
    if y.len() == 0 {
        assert(x + y =~= x);
        assert(s.merge_all(d, a, x) + s.merge_all(d, a, y) =~= s.merge_all(d, a, x));
    } else {
        merge_all_append(s, d, a, x, y.drop_last());
        assert((x + y).drop_last() =~= x + y.drop_last());
        assert((x + y).last() == y.last());
        assert(s.merge_all(d, a, x + y) =~= s.merge_all(d, a, x) + s.merge_all(d, a, y));
    }
}

/// Every row is on one side of the split.
proof fn split_covers(left: Seq<Text>, right: BatchView, n: int, k: int)
    requires
        0 <= k < n <= right.rows.len(),
    ensures
        split(left, right, n, true).contains(right.rows[k]) || split(left, right, n, false).contains(
            right.rows[k],
        ),
    decreases n,
{
    let t = split(left, right, n, true);
    let f = split(left, right, n, false);
    if k < n - 1 {
        split_covers(left, right, n - 1, k);
        let t0 = split(left, right, n - 1, true);
        let f0 = split(left, right, n - 1, false);
        if t0.contains(right.rows[k]) {
            let i = choose|i: int| 0 <= i < t0.len() && t0[i] == right.rows[k];
            assert(t[i] == right.rows[k]);
        } else {
            let i = choose|i: int| 0 <= i < f0.len() && f0[i] == right.rows[k];
            assert(f[i] == right.rows[k]);
        }
    } else if fully_bound(left, right, right.schema, right.rows[k]) {
        assert(t[t.len() - 1] == right.rows[k]);
    } else {
        assert(f[f.len() - 1] == right.rows[k]);
    }
}

/// Lists rows by the id in a column; `None` where one holds no id there.
fn index_rows(rows: &Vec<Row>, at: &Vec<usize>, col: usize) -> (r: Option<HashMap<u64, Vec<usize>>>)
    requires
        in_rows(at@, rows@.len()),
        forall|k: int| 0 <= k < rows@.len() ==> col < (#[trigger] rows@[k])@.len(),
    ensures
        r matches Some(m) ==> all_ids(slot_rows_view(rows@), at@, col as int) && indexes(
            m@,
            slot_rows_view(rows@),
            at@,
            col as int,
        ),
{
    broadcast use vstd::std_specs::hash::group_hash_axioms;

    let ghost rv = slot_rows_view(rows@);
    let mut index: HashMap<u64, Vec<usize>> = HashMap::new();
    let mut i: usize = 0;
    assert(at@.take(0) =~= Seq::<usize>::empty());
    while i < at.len()
        invariant
            i <= at@.len(),
            rv == slot_rows_view(rows@),
            in_rows(at@, rows@.len()),
            forall|k: int| 0 <= k < rows@.len() ==> col < (#[trigger] rows@[k])@.len(),
            all_ids(rv, at@.take(i as int), col as int),
            indexes(index@, rv, at@.take(i as int), col as int),
        decreases at@.len() - i,
    {
        broadcast use vstd::std_specs::hash::group_hash_axioms;

        let k: usize = at[i];
        let ghost t = at@.take(i as int);
        let ghost u = at@.take(i + 1);
        proof {
            assert(u.drop_last() =~= t);
            assert(u.last() == k);
            assert(rv[k as int][col as int] == rows@[k as int].0@[col as int]@);
        }
        match &rows[k].0[col] {
            Slot::Id(id) => {
                let key: u64 = *id;
                let ghost before = index@;
                let mut list = match index.remove(&key) {
                    Some(l) => l,
                    None => Vec::new(),
                };
                proof {
                    assert(with_id(rv, t, col as int, key) =~= list@) by {
                        match before.get(key) {
                            Some(v) => {
                                assert(v@ == with_id(rv, t, col as int, key));
                            },
                            None => {
                                assert(with_id(rv, t, col as int, key).len() == 0);
                            },
                        }
                    }
                }
                list.push(k);
                index.insert(key, list);
                proof {
                    assert forall|j: u64|
                        match index@.get(j) {
                            Some(v) => v@ == #[trigger] with_id(rv, u, col as int, j),
                            None => with_id(rv, u, col as int, j).len() == 0,
                        } by {
                        let old_list = with_id(rv, t, col as int, j);
                        if j == key {
                            assert(with_id(rv, u, col as int, j) == old_list.push(k));
                            assert(index@.get(j) == Some(list));
                        } else {
                            assert(with_id(rv, u, col as int, j) == old_list);
                            assert(index@.get(j) == before.get(j));
                            match before.get(j) {
                                Some(v) => {
                                    assert(v@ == old_list);
                                },
                                None => {},
                            }
                        }
                    }
                    assert forall|q: int| 0 <= q < u.len() implies rv[#[trigger] u[q] as int][col as int] is Id by {
                        if q < t.len() {
                            assert(u[q] == t[q]);
                        }
                    }
                }
            },
            _ => return None,
        }
        i = i + 1;
    }
    assert(at@.take(at@.len() as int) =~= at@);
    Some(index)
}

/// Prepares the right side of a join.
pub fn build_join_state(left_schema: &Vec<Var>, build: Batch) -> (r: JoinState)
    requires
        build@.wf(),
    ensures
        r.prepared(names(left_schema@)),
        r.right() == build@,
{
    let ghost left = names(left_schema@);
    let ghost right = build@;
    let out_schema = union_schema(left_schema, &build.schema);
    let jvars = bound_join_vars(left_schema, &build);
    let merge_plan = build_merge_plan(left_schema, &build.schema, &out_schema);
    let mut bound: Vec<usize> = Vec::new();
    let mut open: Vec<usize> = Vec::new();
    let mut i: usize = 0;
    assert(rows_at(right.rows, bound@) =~= split(left, right, 0, true));
    assert(rows_at(right.rows, open@) =~= split(left, right, 0, false));
    while i < build.rows.len()
        invariant
            i <= build.rows@.len(),
            right == build@,
            right.wf(),
            join_vars(left, right, names(jvars@)),
            forall|k: int| 0 <= k < bound@.len() ==> #[trigger] bound@[k] < i,
            forall|k: int| 0 <= k < open@.len() ==> #[trigger] open@[k] < i,
            rows_at(right.rows, bound@) == split(left, right, i as int, true),
            rows_at(right.rows, open@) == split(left, right, i as int, false),
        decreases build.rows@.len() - i,
    {
        proof {
            assert(right.rows[i as int] == build.rows@[i as int]@);
            assert(right.rows[i as int].len() == right.schema.len());
            keyed_is_fully_bound(
                left,
                right,
                names(jvars@),
                right.schema,
                right.rows[i as int],
            );
        }
        let ghost b0 = rows_at(right.rows, bound@);
        let ghost o0 = rows_at(right.rows, open@);
        if row_keyed(&build.rows[i], &build.schema, &jvars) {
            bound.push(i);
            assert(rows_at(right.rows, bound@) =~= b0.push(right.rows[i as int]));
        } else {
            open.push(i);
            assert(rows_at(right.rows, open@) =~= o0.push(right.rows[i as int]));
        }
        i = i + 1;
    }
    let mut key_column: Option<usize> = None;
    let mut index: HashMap<u64, Vec<usize>> = HashMap::new();
    if jvars.len() > 0 {
        match find_column(&build.schema, jvars[0].name()) {
            Some(col) => {
                proof {
                    assert forall|k: int| 0 <= k < build.rows@.len() implies col < (
                    #[trigger] build.rows@[k])@.len() by {
                        assert(right.rows[k].len() == right.schema.len());
                    }
                }
                match index_rows(&build.rows, &bound, col) {
                    Some(m) => {
                        index = m;
                        key_column = Some(col);
                    },
                    None => {},
                }
            },
            None => {},
        }
    }
    JoinState { build, bound, open, key_column, index, jvars, out_schema, merge_plan }
}

impl JoinState {
    /// The rows a left row has to be held against.
    fn candidate_rows(
        &self,
        a: &Row,
        left_schema: &Vec<Var>,
        Ghost(d): Ghost<Dict>,
    ) -> (r: Vec<usize>)
        requires
            self.prepared(names(left_schema@)),
            a@.len() == left_schema@.len(),
        ensures
            in_rows(r@, self.build@.rows.len()),
            self.sides(names(left_schema@)).merge_all(d, a@, rows_at(self.build@.rows, r@))
                == self.sides(names(left_schema@)).merge_all(
                d,
                a@,
                candidates(names(left_schema@), self.build@, a@),
            ),
            excluded(d, names(left_schema@), self.build@, a@) <==> exists|i: int|
                0 <= i < r@.len() && self.sides(names(left_schema@)).excludes(
                    d,
                    a@,
                    self.build@.rows[#[trigger] r@[i] as int],
                ),
    {
        broadcast use vstd::std_specs::hash::group_hash_axioms;

        let ghost left = names(left_schema@);
        let ghost right = self.build@;
        let ghost rows = right.rows;
        let ghost s = self.sides(left);
        let ghost n = rows.len() as int;
        proof {
            keyed_is_fully_bound(left, right, names(self.jvars@), left, a@);
        }
        if !row_keyed(a, left_schema, &self.jvars) {
            let mut all: Vec<usize> = Vec::new();
            let mut i: usize = 0;
            while i < self.build.rows.len()
                invariant
                    i <= self.build.rows@.len(),
                    i == all@.len(),
                    forall|k: int| 0 <= k < i ==> #[trigger] all@[k] == k,
                decreases self.build.rows@.len() - i,
            {
                all.push(i);
                i = i + 1;
            }
            proof {
                assert(rows_at(rows, all@) =~= rows);
                if excluded(d, left, right, a@) {
                    let k = choose|k: int|
                        0 <= k < rows.len() && s.excludes(d, a@, #[trigger] rows[k]);
                    assert(all@[k] == k);
                    assert(s.excludes(d, a@, rows[all@[k] as int]));
                }
            }
            return all;
        }
        let mut first: Vec<usize> = Vec::new();
        let mut probed = false;
        match self.key_column {
            Some(_) => match find_column(left_schema, self.jvars[0].name()) {
                Some(lc) => {
                    assert(a@[lc as int] == a.0@[lc as int]@);
                    match &a.0[lc] {
                        Slot::Id(id) => {
                            probed = true;
                            match self.index.get(id) {
                                Some(bucket) => {
                                    first = copy_indices(bucket);
                                },
                                None => {},
                            }
                            proof {
                                let col = self.key_column->0 as int;
                                let v = self.jvars@[0]@;
                                assert(first@ =~= with_id(rows, self.bound@, col, *id));
                                only_equal_ids_matter(s, d, a@, rows, self.bound@, v, col, *id);
                                with_id_is_part(rows, self.bound@, col, *id, rows.len());
                            }
                        },
                        _ => {},
                    }
                },
                None => {},
            },
            None => {},
        }
        if !probed {
            first = copy_indices(&self.bound);
        }
        let ghost head = first@;
        proof {
            assert(in_rows(head, rows.len()));
            assert(s.merge_all(d, a@, rows_at(rows, head)) == s.merge_all(
                d,
                a@,
                rows_at(rows, self.bound@),
            ));
            assert forall|i: int|
                0 <= i < self.bound@.len() && s.excludes(
                    d,
                    a@,
                    rows[#[trigger] self.bound@[i] as int],
                ) implies head.contains(self.bound@[i]) by {
                if !probed {
                    assert(head[i] == self.bound@[i]);
                }
            }
        }
        let mut i: usize = 0;
        let ghost open = self.open@;
        assert(head + open.take(0) =~= head);
        while i < self.open.len()
            invariant
                i <= self.open@.len(),
                open == self.open@,
                first@ == head + open.take(i as int),
            decreases self.open@.len() - i,
        {
            first.push(self.open[i]);
            i = i + 1;
            assert(first@ =~= head + open.take(i as int));
        }
        proof {
            assert(open.take(open.len() as int) =~= open);
            let r = first@;
            assert(r == head + open);
            assert(rows_at(rows, r) =~= rows_at(rows, head) + rows_at(rows, open));
            merge_all_append(s, d, a@, rows_at(rows, head), rows_at(rows, open));
            merge_all_append(s, d, a@, rows_at(rows, self.bound@), rows_at(rows, open));
            assert(in_rows(r, rows.len())) by {
                assert forall|k: int| 0 <= k < r.len() implies #[trigger] r[k] < rows.len() by {
                    if k < head.len() {
                        assert(r[k] == head[k]);
                    } else {
                        assert(r[k] == open[k - head.len()]);
                    }
                }
            }
            if excluded(d, left, right, a@) {
                let k = choose|k: int| 0 <= k < rows.len() && s.excludes(d, a@, #[trigger] rows[k]);
                split_covers(left, right, n, k);
                let bs = rows_at(rows, self.bound@);
                let os = rows_at(rows, open);
                if bs.contains(rows[k]) {
                    let i = choose|i: int| 0 <= i < bs.len() && bs[i] == rows[k];
                    assert(rows[self.bound@[i] as int] == rows[k]);
                    assert(head.contains(self.bound@[i]));
                    let j = choose|j: int| 0 <= j < head.len() && head[j] == self.bound@[i];
                    assert(r[j] == head[j]);
                    assert(s.excludes(d, a@, rows[r[j] as int]));
                } else {
                    let i = choose|i: int| 0 <= i < os.len() && os[i] == rows[k];
                    assert(r[head.len() + i] == open[i]);
                    assert(s.excludes(d, a@, rows[r[head.len() + i] as int]));
                }
            }
        }
        first
    }
}

fn copy_indices(v: &Vec<usize>) -> (r: Vec<usize>)
    ensures
        r@ == v@,
{
    let mut out: Vec<usize> = Vec::new();
    let mut i: usize = 0;
    while i < v.len()
        invariant
            i <= v@.len(),
            out@ == v@.take(i as int),
        decreases v@.len() - i,
    {
        out.push(v[i]);
        i = i + 1;
        assert(out@ =~= v@.take(i as int));
    }
    assert(v@.take(v@.len() as int) =~= v@);
    out
}

// ── Probing ─────────────────────────────────────────────────────────────────

pub open spec fn width(rows: Seq<Seq<SlotView>>, n: nat) -> bool {
    forall|i: int| 0 <= i < rows.len() ==> (#[trigger] rows[i]).len() == n
}

/// Merged rows have a slot for each column of the join.
proof fn merge_all_width(s: Sides, d: Dict, a: Seq<SlotView>, rows: Seq<Seq<SlotView>>)
    ensures
        width(s.merge_all(d, a, rows), s.out().len()),
    decreases rows.len(),
{
    if rows.len() > 0 {
        merge_all_width(s, d, a, rows.drop_last());
    }
}

/// An all-unbound row merges with any row.
proof fn unbound_merges(s: Sides, d: Dict, a: Seq<SlotView>)
    ensures
        s.merge(d, a, unbound_row(s.right.len())) is Some,
{
    let u = unbound_row(s.right.len());
    assert forall|c: int| 0 <= c < s.out().len() implies (#[trigger] s.slot(d, a, u, c)) is Some by {
        position_facts(s.right, s.out()[c]);
    }
}

impl JoinState {
    /// Appends the merges of a left row with some rows.
    fn merge_all_indexed<E: Executor>(
        &self,
        exec: &E,
        a: &Row,
        at: &Vec<usize>,
        out: &mut Vec<Row>,
        Ghost(left): Ghost<Seq<Text>>,
    ) -> (r: Result<(), SparqlError>)
        requires
            self.prepared(left),
            a@.len() == left.len(),
            in_rows(at@, self.build@.rows.len()),
        ensures
            r is Ok ==> slot_rows_view(final(out)@) == slot_rows_view(old(out)@) + self.sides(
                left,
            ).merge_all(exec.dict(), a@, rows_at(self.build@.rows, at@)),
            exec.reliable() ==> r is Ok,
    {
        let ghost d = exec.dict();
        let ghost s = self.sides(left);
        let ghost rows = self.build@.rows;
        let ghost cand = rows_at(rows, at@);
        let ghost base = slot_rows_view(out@);
        let mut i: usize = 0;
        assert(base + s.merge_all(d, a@, cand.take(0)) =~= base);
        while i < at.len()
            invariant
                i <= at@.len(),
                d == exec.dict(),
                s == self.sides(left),
                rows == self.build@.rows,
                cand == rows_at(rows, at@),
                self.prepared(left),
                a@.len() == left.len(),
                in_rows(at@, self.build@.rows.len()),
                slot_rows_view(out@) == base + s.merge_all(d, a@, cand.take(i as int)),
            decreases at@.len() - i,
        {
            let k: usize = at[i];
            let ghost sofar = slot_rows_view(out@);
            proof {
                assert(cand.take(i + 1).drop_last() =~= cand.take(i as int));
                assert(cand.take(i + 1).last() == rows[k as int]);
                assert(rows[k as int] == self.build.rows@[k as int]@);
                assert(rows[k as int].len() == self.build@.schema.len());
            }
            match merge_rows_with(exec, a, &self.build.rows[k], &self.merge_plan, Ghost(s)) {
                Ok(Some(m)) => {
                    let ghost mv = m@;
                    out.push(m);
                    assert(slot_rows_view(out@) =~= sofar.push(mv));
                },
                Ok(None) => {},
                Err(e) => return Err(e),
            }
            i = i + 1;
            assert(slot_rows_view(out@) =~= base + s.merge_all(d, a@, cand.take(i as int)));
        }
        assert(cand.take(cand.len() as int) =~= cand);
        Ok(())
    }

    /// The joins of the rows of a batch.
    pub fn probe_join_chunk<E: Executor>(&self, exec: &E, chunk: &Batch) -> (r: Result<
        Vec<Row>,
        SparqlError,
    >)
        requires
            self.prepared(chunk@.schema),
            chunk@.wf(),
        ensures
            r matches Ok(v) ==> slot_rows_view(v@) == joined_rows(
                exec.dict(),
                chunk@,
                self.right(),
                chunk@.rows.len() as int,
            ) && width(slot_rows_view(v@), self.out_width()),
            exec.reliable() ==> r is Ok,
    {
        let ghost d = exec.dict();
        let ghost left = chunk@.schema;
        let ghost right = self.build@;
        let mut out: Vec<Row> = Vec::new();
        let mut i: usize = 0;
        assert(slot_rows_view(out@) =~= joined_rows(d, chunk@, right, 0));
        while i < chunk.rows.len()
            invariant
                i <= chunk.rows@.len(),
                d == exec.dict(),
                left == chunk@.schema,
                right == self.build@,
                self.prepared(left),
                chunk@.wf(),
                slot_rows_view(out@) == joined_rows(d, chunk@, right, i as int),
                width(slot_rows_view(out@), self.sides(left).out().len()),
            decreases chunk.rows@.len() - i,
        {
            let a = &chunk.rows[i];
            proof {
                assert(chunk@.rows[i as int] == a@);
                assert(chunk@.rows[i as int].len() == left.len());
            }
            let at = self.candidate_rows(a, &chunk.schema, Ghost(d));
            let ghost before = slot_rows_view(out@);
            match self.merge_all_indexed(exec, a, &at, &mut out, Ghost(left)) {
                Ok(()) => {},
                Err(e) => return Err(e),
            }
            proof {
                let s = self.sides(left);
                let added = s.merge_all(d, a@, candidates(left, right, a@));
                merge_all_width(s, d, a@, candidates(left, right, a@));
                let now = slot_rows_view(out@);
                assert(now == before + added);
                assert forall|k: int| 0 <= k < now.len() implies (#[trigger] now[k]).len()
                    == s.out().len() by {
                    if k < before.len() {
                        assert(now[k] == before[k]);
                    } else {
                        assert(now[k] == added[k - before.len()]);
                    }
                }
            }
            i = i + 1;
        }
        Ok(out)
    }

    /// The number of columns of the join.
    pub closed spec fn out_width(&self) -> nat {
        self.out_schema@.len()
    }

    /// The optional matches of the rows of a batch.
    pub fn probe_left_join_chunk<E: Executor>(
        &self,
        exec: &E,
        chunk: &Batch,
        expr: &Option<Expr>,
    ) -> (r: Result<Vec<Row>, SparqlError>)
        requires
            self.prepared(chunk@.schema),
            chunk@.wf(),
        ensures
            r matches Ok(v) ==> slot_rows_view(v@) == left_joined_rows::<E::N>(
                exec.dict(),
                chunk@,
                self.right(),
                opt_expr_view(*expr),
                chunk@.rows.len() as int,
            ) && width(slot_rows_view(v@), self.out_width()),
            exec.reliable() ==> r is Ok,
    {
        let ghost d = exec.dict();
        let ghost left = chunk@.schema;
        let ghost right = self.build@;
        let ghost s = self.sides(left);
        let ghost cond = opt_expr_view(*expr);
        let mut want = NameSet::new();
        match expr {
            Some(e) => referenced_vars(e, &mut want),
            None => {},
        }
        let pad = pad_row(self.build.schema.len());
        let mut out: Vec<Row> = Vec::new();
        let mut i: usize = 0;
        assert(slot_rows_view(out@) =~= left_joined_rows::<E::N>(d, chunk@, right, cond, 0));
        while i < chunk.rows.len()
            invariant
                i <= chunk.rows@.len(),
                d == exec.dict(),
                left == chunk@.schema,
                right == self.build@,
                s == self.sides(left),
                cond == opt_expr_view(*expr),
                *expr matches Some(e) ==> refs(e@).subset_of(want@),
                pad@ == unbound_row(right.schema.len()),
                self.prepared(left),
                chunk@.wf(),
                slot_rows_view(out@) == left_joined_rows::<E::N>(
                    d,
                    chunk@,
                    right,
                    cond,
                    i as int,
                ),
                width(slot_rows_view(out@), s.out().len()),
            decreases chunk.rows@.len() - i,
        {
            let a = &chunk.rows[i];
            proof {
                assert(chunk@.rows[i as int] == a@);
                assert(chunk@.rows[i as int].len() == left.len());
            }
            let at = self.candidate_rows(a, &chunk.schema, Ghost(d));
            let mut merged: Vec<Row> = Vec::new();
            assert(slot_rows_view(merged@) =~= Seq::<Seq<SlotView>>::empty());
            match self.merge_all_indexed(exec, a, &at, &mut merged, Ghost(left)) {
                Ok(()) => {},
                Err(e) => return Err(e),
            }
            let ghost ms = s.merge_all(d, a@, candidates(left, right, a@));
            proof {
                assert(slot_rows_view(merged@) =~= ms);
                merge_all_width(s, d, a@, candidates(left, right, a@));
            }
            let ghost before = slot_rows_view(out@);
            let found: Vec<Row> = match keep_satisfying(exec, merged, &self.out_schema, expr, &want) {
                Ok(f) => f,
                Err(e) => return Err(e),
            };
            let ghost fv = slot_rows_view(found@);
            assert(fv == satisfying::<E::N>(d, s.out(), ms, cond));
            if found.len() == 0 {
                proof {
                    unbound_merges(s, d, a@);
                }
                match merge_rows_with(exec, a, &pad, &self.merge_plan, Ghost(s)) {
                    Ok(Some(m)) => {
                        let ghost mv = m@;
                        out.push(m);
                        assert(slot_rows_view(out@) =~= before + seq![mv]);
                    },
                    Ok(None) => {},
                    Err(e) => return Err(e),
                }
            } else {
                append_rows(&mut out, found);
            }
            proof {
                let added = optional_rows::<E::N>(d, left, right, a@, cond);
                let now = slot_rows_view(out@);
                assert(now == before + added);
                assert forall|k: int| 0 <= k < now.len() implies (#[trigger] now[k]).len()
                    == s.out().len() by {
                    if k < before.len() {
                        assert(now[k] == before[k]);
                    } else {
                        assert(now[k] == added[k - before.len()]);
                        if fv.len() > 0 {
                            assert(added[k - before.len()] == fv[k - before.len()]);
                        }
                    }
                }
            }
            i = i + 1;
        }
        Ok(out)
    }

    /// The rows of a batch that the right side does not exclude.
    pub fn probe_minus_chunk<E: Executor>(&self, exec: &E, chunk: &Batch) -> (r: Result<
        Vec<Row>,
        SparqlError,
    >)
        requires
            self.prepared(chunk@.schema),
            chunk@.wf(),
        ensures
            r matches Ok(v) ==> slot_rows_view(v@) == remaining_rows(
                exec.dict(),
                chunk@,
                self.right(),
                chunk@.rows.len() as int,
            ) && width(slot_rows_view(v@), chunk@.schema.len()),
            exec.reliable() ==> r is Ok,
    {
        let ghost d = exec.dict();
        let ghost left = chunk@.schema;
        let ghost right = self.build@;
        let ghost s = self.sides(left);
        let mut out: Vec<Row> = Vec::new();
        let mut i: usize = 0;
        assert(slot_rows_view(out@) =~= remaining_rows(d, chunk@, right, 0));
        while i < chunk.rows.len()
            invariant
                i <= chunk.rows@.len(),
                d == exec.dict(),
                left == chunk@.schema,
                right == self.build@,
                s == self.sides(left),
                self.prepared(left),
                chunk@.wf(),
                slot_rows_view(out@) == remaining_rows(d, chunk@, right, i as int),
                width(slot_rows_view(out@), left.len()),
            decreases chunk.rows@.len() - i,
        {
            let a = &chunk.rows[i];
            proof {
                assert(chunk@.rows[i as int] == a@);
                assert(chunk@.rows[i as int].len() == left.len());
            }
            let at = self.candidate_rows(a, &chunk.schema, Ghost(d));
            let mut gone = false;
            let mut k: usize = 0;
            while k < at.len() && !gone
                invariant
                    k <= at@.len(),
                    d == exec.dict(),
                    right == self.build@,
                    s == self.sides(left),
                    self.prepared(left),
                    a@.len() == left.len(),
                    in_rows(at@, right.rows.len()),
                    gone ==> exists|q: int|
                        0 <= q < at@.len() && s.excludes(
                            d,
                            a@,
                            right.rows[#[trigger] at@[q] as int],
                        ),
                    !gone ==> forall|q: int|
                        0 <= q < k ==> !s.excludes(d, a@, right.rows[#[trigger] at@[q] as int]),
                decreases at@.len() - k,
            {
                let b: usize = at[k];
                proof {
                    assert(right.rows[b as int] == self.build.rows@[b as int]@);
                    assert(right.rows[b as int].len() == right.schema.len());
                }
                match minus_disqualifies(
                    exec,
                    a,
                    &self.build.rows[b],
                    &self.merge_plan,
                    Ghost(s),
                ) {
                    Ok(x) => {
                        gone = x;
                        assert(x ==> s.excludes(d, a@, right.rows[at@[k as int] as int]));
                    },
                    Err(e) => return Err(e),
                }
                k = k + 1;
            }
            let ghost before = slot_rows_view(out@);
            if !gone {
                let c = a.clone();
                out.push(c);
                assert(slot_rows_view(out@) =~= before.push(a@));
            }
            i = i + 1;
        }
        Ok(out)
    }
}

fn pad_row(n: usize) -> (r: Row)
    ensures
        r@ == unbound_row(n as nat),
{
    let mut v: Vec<Slot> = Vec::new();
    while v.len() < n
        invariant
            v@.len() <= n,
            forall|i: int| 0 <= i < v@.len() ==> (#[trigger] v@[i])@ is Unbound,
        decreases n - v@.len(),
    {
        v.push(Slot::Unbound);
    }
    let r = Row(v);
    assert(r@ =~= unbound_row(n as nat));
    r
}

/// Appends rows to rows.
pub fn append_rows(out: &mut Vec<Row>, rows: Vec<Row>)
    ensures
        slot_rows_view(final(out)@) == slot_rows_view(old(out)@) + slot_rows_view(rows@),
{
    let ghost base = slot_rows_view(out@);
    let ghost rv = slot_rows_view(rows@);
    assert(base + rv.take(0) =~= base);
    for row in it: rows
        invariant
            rv == slot_rows_view(it.seq()),
            slot_rows_view(out@) == base + rv.take(it.index() as int),
    {
        let ghost i = it.index() as int;
        let ghost before = slot_rows_view(out@);
        let ghost v = row@;
        out.push(row);
        assert(rv[i] == v);
        assert(slot_rows_view(out@) =~= before.push(v));
        assert(rv.take(i + 1) =~= rv.take(i).push(v));
        assert(slot_rows_view(out@) =~= base + rv.take(i + 1));
    }
    assert(rv.take(rv.len() as int) =~= rv);
}

/// The rows that satisfy a condition; without one, all.
pub fn keep_satisfying<E: Executor>(
    exec: &E,
    rows: Vec<Row>,
    schema: &Vec<Var>,
    expr: &Option<Expr>,
    want: &NameSet,
) -> (r: Result<Vec<Row>, SparqlError>)
    requires
        width(slot_rows_view(rows@), schema@.len()),
        *expr matches Some(e) ==> refs(e@).subset_of(want@),
    ensures
        r matches Ok(v) ==> slot_rows_view(v@) == satisfying::<E::N>(
            exec.dict(),
            names(schema@),
            slot_rows_view(rows@),
            opt_expr_view(*expr),
        ) && width(slot_rows_view(v@), schema@.len()),
        exec.reliable() ==> r is Ok,
{
    let ghost d = exec.dict();
    let ghost sv = names(schema@);
    let ghost rv = slot_rows_view(rows@);
    let ghost cond = opt_expr_view(*expr);
    let mut out: Vec<Row> = Vec::new();
    assert(slot_rows_view(out@) =~= satisfying::<E::N>(d, sv, rv.take(0), cond));
    for row in it: rows
        invariant
            d == exec.dict(),
            sv == names(schema@),
            rv == slot_rows_view(it.seq()),
            cond == opt_expr_view(*expr),
            width(rv, schema@.len()),
            *expr matches Some(e) ==> refs(e@).subset_of(want@),
            slot_rows_view(out@) == satisfying::<E::N>(d, sv, rv.take(it.index() as int), cond),
            width(slot_rows_view(out@), schema@.len()),
    {
        let ghost i = it.index() as int;
        proof {
            assert(rv.take(i + 1).drop_last() =~= rv.take(i));
            assert(rv.take(i + 1).last() == rv[i]);
            assert(rv[i] == row@);
        }
        let keep = match expr {
            Some(e) => match row_satisfies(exec, &row, schema, e, want) {
                Ok(v) => v,
                Err(e) => return Err(e),
            },
            None => true,
        };
        let ghost before = slot_rows_view(out@);
        if keep {
            let ghost v = row@;
            out.push(row);
            assert(slot_rows_view(out@) =~= before.push(v));
        }
    }
    assert(rv.take(rv.len() as int) =~= rv);
    Ok(out)
}

/// Does a right row exclude a left row from a difference?
fn minus_disqualifies<E: Executor>(
    exec: &E,
    a: &Row,
    b: &Row,
    plan: &Vec<(Option<usize>, Option<usize>)>,
    Ghost(s): Ghost<Sides>,
) -> (r: Result<bool, SparqlError>)
    requires
        plan_matches(plan@, s),
        a@.len() == s.left.len(),
        b@.len() == s.right.len(),
    ensures
        r matches Ok(v) ==> v == s.excludes(exec.dict(), a@, b@),
        exec.reliable() ==> r is Ok,
{
    let ghost d = exec.dict();
    let mut shares = false;
    let mut c: usize = 0;
    while c < plan.len()
        invariant
            c <= plan@.len(),
            d == exec.dict(),
            plan_matches(plan@, s),
            a@.len() == s.left.len(),
            b@.len() == s.right.len(),
            forall|k: int| 0 <= k < c ==> #[trigger] s.agrees(d, a@, b@, k),
            shares <==> exists|k: int| 0 <= k < c && #[trigger] s.both_bound(a@, b@, k),
        decreases plan@.len() - c,
    {
        let (li, ri) = plan[c];
        proof {
            assert(same_place(plan@[c as int].0, position(s.left, s.out()[c as int])));
            position_facts(s.left, s.out()[c as int]);
            position_facts(s.right, s.out()[c as int]);
        }
        match (slot_at(a, li), slot_at(b, ri)) {
            (Some(x), Some(y)) => {
                if !x.is_unbound() && !y.is_unbound() {
                    assert(s.both_bound(a@, b@, c as int));
                    match slots_same(exec, x, y) {
                        Ok(true) => {
                            shares = true;
                        },
                        Ok(false) => {
                            assert(!s.agrees(d, a@, b@, c as int));
                            return Ok(false);
                        },
                        Err(e) => return Err(e),
                    }
                } else {
                    assert(!s.both_bound(a@, b@, c as int));
                }
            },
            _ => {
                assert(!s.both_bound(a@, b@, c as int));
            },
        }
        c = c + 1;
    }
    Ok(shares)
}

fn column_has_term(rows: &Vec<Row>, i: usize) -> (r: bool)
    requires
        forall|k: int| 0 <= k < rows@.len() ==> i < (#[trigger] rows@[k])@.len(),
    ensures
        r == has_term(slot_rows_view(rows@), i as int),
{
    let ghost rv = slot_rows_view(rows@);
    let mut k: usize = 0;
    while k < rows.len()
        invariant
            k <= rows@.len(),
            rv == slot_rows_view(rows@),
            forall|k: int| 0 <= k < rows@.len() ==> i < (#[trigger] rows@[k])@.len(),
            forall|j: int| 0 <= j < k ==> !((#[trigger] rv[j])[i as int] is Term),
        decreases rows@.len() - k,
    {
        assert(rv[k as int][i as int] == rows@[k as int].0@[i as int]@);
        match &rows[k].0[i] {
            Slot::Term(_) => return true,
            _ => {},
        }
        k = k + 1;
    }
    false
}

/// The columns of a join that are to hold terms only.
fn force_plan(left: &Batch, right: &Batch, plan: &Vec<(Option<usize>, Option<usize>)>) -> (r: Vec<
    bool,
>)
    requires
        left@.wf(),
        right@.wf(),
        plan_matches(plan@, Sides { left: left@.schema, right: right@.schema }),
    ensures
        r@ == forced_columns(left@, right@),
{
    let ghost s = Sides { left: left@.schema, right: right@.schema };
    let mut out: Vec<bool> = Vec::new();
    let mut c: usize = 0;
    while c < plan.len()
        invariant
            c == out@.len(),
            c <= plan@.len(),
            s == (Sides { left: left@.schema, right: right@.schema }),
            left@.wf(),
            right@.wf(),
            plan_matches(plan@, s),
            forall|k: int| 0 <= k < c ==> #[trigger] out@[k] == forced(left@, right@, k),
        decreases plan@.len() - c,
    {
        proof {
            assert(same_place(plan@[c as int].0, position(s.left, s.out()[c as int])));
            position_facts(s.left, s.out()[c as int]);
            position_facts(s.right, s.out()[c as int]);
            assert forall|k: int| 0 <= k < left.rows@.len() implies (#[trigger] left.rows@[k])@.len()
                == s.left.len() by {
                assert(left@.rows[k].len() == left@.schema.len());
            }
            assert forall|k: int| 0 <= k < right.rows@.len() implies (
            #[trigger] right.rows@[k])@.len() == s.right.len() by {
                assert(right@.rows[k].len() == right@.schema.len());
            }
        }
        let f = match plan[c] {
            (Some(l), Some(r)) => column_has_term(&left.rows, l) || column_has_term(&right.rows, r),
            _ => false,
        };
        out.push(f);
        c = c + 1;
    }
    assert(out@ =~= forced_columns(left@, right@));
    out
}

/// Decodes the ids of some columns.
pub fn force_term_columns<E: Executor>(exec: &E, rows: Vec<Row>, columns: &Vec<bool>) -> (r: Result<
    Vec<Row>,
    SparqlError,
>)
    ensures
        r matches Ok(v) ==> slot_rows_view(v@) == force_rows(
            exec.dict(),
            slot_rows_view(rows@),
            columns@,
        ),
        exec.reliable() ==> r is Ok,
{
    let ghost d = exec.dict();
    let ghost rv = slot_rows_view(rows@);
    let ghost want = force_rows(d, rv, columns@);
    let mut out: Vec<Row> = Vec::new();
    for row in it: rows
        invariant
            d == exec.dict(),
            rv == slot_rows_view(it.seq()),
            want == force_rows(d, rv, columns@),
            out@.len() == it.index(),
            forall|k: int| 0 <= k < it.index() ==> (#[trigger] out@[k])@ == want[k],
    {
        let ghost i = it.index() as int;
        assert(rv[i] == row@);
        let mut slots: Vec<Slot> = Vec::new();
        let mut c: usize = 0;
        while c < row.0.len()
            invariant
                c == slots@.len(),
                c <= row.0@.len(),
                d == exec.dict(),
                forall|k: int|
                    0 <= k < c ==> (#[trigger] slots@[k])@ == (if 0 <= k < columns@.len()
                        && columns@[k] {
                        as_term(d, row@[k])
                    } else {
                        row@[k]
                    }),
            decreases row.0@.len() - c,
        {
            assert(row@[c as int] == row.0@[c as int]@);
            let slot = &row.0[c];
            if c < columns.len() && columns[c] {
                match slot {
                    Slot::Id(id) => match exec.decode_term(*id) {
                        Ok(t) => slots.push(Slot::Term(t)),
                        Err(e) => return Err(e),
                    },
                    other => slots.push(other.clone()),
                }
            } else {
                slots.push(slot.clone());
            }
            c = c + 1;
        }
        let forced_row = Row(slots);
        assert(forced_row@ =~= want[i]);
        out.push(forced_row);
    }
    assert(slot_rows_view(out@) =~= want);
    Ok(out)
}

/// Forcing columns keeps the shape.
proof fn force_keeps_width(d: Dict, rows: Seq<Seq<SlotView>>, columns: Seq<bool>, n: nat)
    requires
        width(rows, n),
    ensures
        width(force_rows(d, rows, columns), n),
{
    assert forall|i: int| 0 <= i < rows.len() implies (#[trigger] force_rows(d, rows, columns)[i]).len()
        == n by {
        assert(rows[i].len() == n);
    }
}

/// Joins two batches.
pub fn join<E: Executor>(exec: &E, left: &Batch, right: Batch) -> (r: Result<Batch, SparqlError>)
    requires
        left@.wf(),
        right@.wf(),
    ensures
        r matches Ok(b) ==> b@ == join_batch(exec.dict(), left@, right@) && b@.wf(),
        exec.reliable() ==> r is Ok,
{
    let ghost rv = right@;
    let st = build_join_state(&left.schema, right);
    let rows = match st.probe_join_chunk(exec, left) {
        Ok(v) => v,
        Err(e) => return Err(e),
    };
    let columns = force_plan(left, &st.build, &st.merge_plan);
    proof {
        force_keeps_width(exec.dict(), slot_rows_view(rows@), columns@, st.out_width());
    }
    match force_term_columns(exec, rows, &columns) {
        Ok(v) => {
            let b = Batch { schema: st.out_schema, rows: v };
            assert(b@ =~= join_batch(exec.dict(), left@, rv));
            Ok(b)
        },
        Err(e) => Err(e),
    }
}

/// Joins two batches, keeping left rows without a match.
pub fn left_join<E: Executor>(exec: &E, left: &Batch, right: Batch, expr: &Option<Expr>) -> (r:
    Result<Batch, SparqlError>)
    requires
        left@.wf(),
        right@.wf(),
    ensures
        r matches Ok(b) ==> b@ == left_join_batch::<E::N>(
            exec.dict(),
            left@,
            right@,
            opt_expr_view(*expr),
        ) && b@.wf(),
        exec.reliable() ==> r is Ok,
{
    let ghost rv = right@;
    let st = build_join_state(&left.schema, right);
    let rows = match st.probe_left_join_chunk(exec, left, expr) {
        Ok(v) => v,
        Err(e) => return Err(e),
    };
    let columns = force_plan(left, &st.build, &st.merge_plan);
    proof {
        force_keeps_width(exec.dict(), slot_rows_view(rows@), columns@, st.out_width());
    }
    match force_term_columns(exec, rows, &columns) {
        Ok(v) => {
            let b = Batch { schema: st.out_schema, rows: v };
            assert(b@ =~= left_join_batch::<E::N>(
                exec.dict(),
                left@,
                rv,
                opt_expr_view(*expr),
            ));
            Ok(b)
        },
        Err(e) => Err(e),
    }
}

/// The rows of one batch that another does not exclude.
pub fn minus<E: Executor>(exec: &E, left: Batch, right: Batch) -> (r: Result<Batch, SparqlError>)
    requires
        left@.wf(),
        right@.wf(),
    ensures
        r matches Ok(b) ==> b@ == minus_batch(exec.dict(), left@, right@) && b@.wf(),
        exec.reliable() ==> r is Ok,
{
    let ghost rv = right@;
    let ghost lv = left@;
    let st = build_join_state(&left.schema, right);
    match st.probe_minus_chunk(exec, &left) {
        Ok(rows) => {
            let b = Batch { schema: left.schema, rows };
            assert(b@ =~= minus_batch(exec.dict(), lv, rv));
            Ok(b)
        },
        Err(e) => Err(e),
    }
}

}
