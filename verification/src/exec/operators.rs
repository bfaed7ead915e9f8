//! The operators on single batches, and unions.

use crate::algebra::{
    cells_view, clone_vars, names, names_push, opt_term_view, rows_view, Expr, ExprView, Term,
    TermView, Var,
};
use crate::collections::NameSet;
use crate::error::SparqlError;
use crate::exec::batch::{
    keys_view, position, row_key, same_keys, slot_rows_view, solution, Batch, BatchView, Dict,
    KeyPart, Row, Slot, SlotView,
};
use crate::exec::decode::row_value;
use crate::exec::executor::Executor;
use crate::exec::expr::value;
use crate::exec::join::{
    append_rows, cell, force_rows, force_term_columns, has_term, keep_satisfying, satisfying,
    union_schema, width,
};
use crate::exec::number::Numbers;
use crate::exec::refs::{referenced_vars, refs};
use crate::plan::passes::add_all_unique;
use crate::text::Text;
use vstd::prelude::*;

verus! {

// ── Filters ─────────────────────────────────────────────────────────────────

/// The rows of a batch that satisfy a condition.
pub open spec fn filter_batch<N: Numbers>(d: Dict, b: BatchView, e: ExprView) -> BatchView {
    BatchView { schema: b.schema, rows: satisfying::<N>(d, b.schema, b.rows, Some(e)) }
}

/// Keeps the rows for which a condition holds.
pub fn apply_filter<E: Executor>(exec: &E, batch: Batch, expr: Expr) -> (r: Result<
    Batch,
    SparqlError,
>)
    requires
        batch@.wf(),
    ensures
        r matches Ok(b) ==> b@ == filter_batch::<E::N>(exec.dict(), batch@, expr@) && b@.wf(),
        exec.reliable() ==> r is Ok,
{
    let ghost bv = batch@;
    let ghost ev = expr@;
    let mut want = NameSet::new();
    referenced_vars(&expr, &mut want);
    let cond = Some(expr);
    assert(width(bv.rows, bv.schema.len()));
    match keep_satisfying(exec, batch.rows, &batch.schema, &cond, &want) {
        Ok(rows) => {
            let b = Batch { schema: batch.schema, rows };
            assert(b@ =~= filter_batch::<E::N>(exec.dict(), bv, ev));
            Ok(b)
        },
        Err(e) => Err(e),
    }
}

// ── Projections ─────────────────────────────────────────────────────────────

/// The projected variables that are columns, in projection order.
pub open spec fn projected(schema: Seq<Text>, vars: Seq<Text>) -> Seq<Text>
    decreases vars.len(),
{
    if vars.len() == 0 {
        Seq::empty()
    } else {
        let rest = projected(schema, vars.drop_last());
        if position(schema, vars.last()) is Some {
            rest.push(vars.last())
        } else {
            rest
        }
    }
}

/// A batch restricted to some variables; no variables stand for all columns.
pub open spec fn project_batch(b: BatchView, vars: Seq<Text>) -> BatchView {
    if vars.len() == 0 {
        b
    } else {
        let p = projected(b.schema, vars);
        BatchView {
            schema: p,
            rows: Seq::new(
                b.rows.len(),
                |k: int| Seq::new(p.len(), |c: int| cell(b.schema, b.rows[k], p[c])->0),
            ),
        }
    }
}

/// Restricts a batch to some variables.
pub fn apply_project(batch: Batch, vars: &Vec<Var>) -> (r: Batch)
    requires
        batch@.wf(),
    ensures
        r@ == project_batch(batch@, names(vars@)),
        r@.wf(),
{
    if vars.len() == 0 {
        return batch;
    }
    let ghost bv = batch@;
    let ghost vv = names(vars@);
    let mut schema: Vec<Var> = Vec::new();
    let mut at: Vec<usize> = Vec::new();
    let mut i: usize = 0;
    assert(names(schema@) =~= projected(bv.schema, vv.take(0)));
    while i < vars.len()
        invariant
            i <= vars@.len(),
            bv == batch@,
            vv == names(vars@),
            names(schema@) == projected(bv.schema, vv.take(i as int)),
            at@.len() == schema@.len(),
            forall|c: int|
                0 <= c < at@.len() ==> position(bv.schema, names(schema@)[c]) == Some(
                    #[trigger] at@[c] as int,
                ) && at@[c] < bv.schema.len(),
        decreases vars@.len() - i,
    {
        proof {
            assert(vv.take(i + 1).drop_last() =~= vv.take(i as int));
            assert(vv.take(i + 1).last() == vv[i as int]);
        }
        match batch.col(vars[i].name()) {
            Some(c) => {
                let ghost before = names(schema@);
                schema.push(vars[i].clone());
                at.push(c);
                assert(names(schema@) =~= before.push(vv[i as int]));
            },
            None => {},
        }
        i = i + 1;
    }
    assert(vv.take(vv.len() as int) =~= vv);
    let ghost p = names(schema@);
    let mut rows: Vec<Row> = Vec::new();
    let mut k: usize = 0;
    while k < batch.rows.len()
        invariant
            k == rows@.len(),
            k <= batch.rows@.len(),
            bv == batch@,
            bv.wf(),
            p == names(schema@),
            at@.len() == p.len(),
            forall|c: int|
                0 <= c < at@.len() ==> position(bv.schema, p[c]) == Some(#[trigger] at@[c] as int)
                    && at@[c] < bv.schema.len(),
            forall|q: int|
                0 <= q < k ==> (#[trigger] rows@[q])@ == Seq::new(
                    p.len(),
                    |c: int| cell(bv.schema, bv.rows[q], p[c])->0,
                ),
        decreases batch.rows@.len() - k,
    {
        let row = &batch.rows[k];
        assert(bv.rows[k as int] == row@);
        assert(row@.len() == bv.schema.len());
        let mut slots: Vec<Slot> = Vec::new();
        let mut c: usize = 0;
        while c < at.len()
            invariant
                c == slots@.len(),
                c <= at@.len(),
                at@.len() == p.len(),
                row@.len() == bv.schema.len(),
                forall|c: int|
                    0 <= c < at@.len() ==> position(bv.schema, p[c]) == Some(
                        #[trigger] at@[c] as int,
                    ) && at@[c] < bv.schema.len(),
                forall|q: int|
                    0 <= q < c ==> (#[trigger] slots@[q])@ == cell(bv.schema, row@, p[q])->0,
            decreases at@.len() - c,
        {
            let a: usize = at[c];
            assert(row@[a as int] == row.0@[a as int]@);
            slots.push(row.0[a].clone());
            c = c + 1;
        }
        let out = Row(slots);
        assert(out@ =~= Seq::new(p.len(), |c: int| cell(bv.schema, bv.rows[k as int], p[c])->0));
        rows.push(out);
        k = k + 1;
    }
    let r = Batch { schema, rows };
    assert(r@.rows =~= project_batch(bv, vv).rows);
    r
}

// ── Extensions ──────────────────────────────────────────────────────────────

pub open spec fn value_slot(v: Option<TermView>) -> SlotView {
    match v {
        Some(t) => SlotView::Term(t),
        None => SlotView::Unbound,
    }
}

/// A batch with a computed column.
pub open spec fn extend_batch<N: Numbers>(d: Dict, b: BatchView, var: Text, e: ExprView) -> BatchView {
    match position(b.schema, var) {
        Some(i) => BatchView {
            schema: b.schema,
            rows: Seq::new(
                b.rows.len(),
                |k: int|
                    b.rows[k].update(
                        i,
                        value_slot(value::<N>(e, solution(d, b.schema, b.rows[k]))),
                    ),
            ),
        },
        None => BatchView {
            schema: b.schema.push(var),
            rows: Seq::new(
                b.rows.len(),
                |k: int|
                    b.rows[k].push(value_slot(value::<N>(e, solution(d, b.schema, b.rows[k])))),
            ),
        },
    }
}

/// Binds a variable to the value of an expression, row by row.
pub fn apply_extend<E: Executor>(exec: &E, batch: Batch, var: &Var, expr: &Expr) -> (r: Result<
    Batch,
    SparqlError,
>)
    requires
        batch@.wf(),
    ensures
        r matches Ok(b) ==> b@ == extend_batch::<E::N>(exec.dict(), batch@, var@, expr@) && b@.wf(),
        exec.reliable() ==> r is Ok,
{
    let ghost d = exec.dict();
    let ghost bv = batch@;
    let mut want = NameSet::new();
    referenced_vars(expr, &mut want);
    let existing = batch.col(var.name());
    let ghost goal = extend_batch::<E::N>(d, bv, var@, expr@);
    let mut rows: Vec<Row> = Vec::new();
    let mut k: usize = 0;
    while k < batch.rows.len()
        invariant
            k == rows@.len(),
            k <= batch.rows@.len(),
            d == exec.dict(),
            bv == batch@,
            bv.wf(),
            refs(expr@).subset_of(want@),
            goal == extend_batch::<E::N>(d, bv, var@, expr@),
            match existing {
                Some(i) => position(bv.schema, var@) == Some(i as int) && i < bv.schema.len(),
                None => position(bv.schema, var@) is None,
            },
            forall|q: int| 0 <= q < k ==> (#[trigger] rows@[q])@ == goal.rows[q],
        decreases batch.rows@.len() - k,
    {
        let row = &batch.rows[k];
        assert(bv.rows[k as int] == row@);
        assert(row@.len() == bv.schema.len());
        let slot = match row_value(exec, row, &batch.schema, expr, &want) {
            Ok(Some(t)) => Slot::Term(t),
            Ok(None) => Slot::Unbound,
            Err(e) => return Err(e),
        };
        let ghost sv = slot@;
        let mut out = row.clone();
        match existing {
            Some(i) => {
                out.0.set(i, slot);
                assert(out@ =~= row@.update(i as int, sv));
            },
            None => {
                out.0.push(slot);
                assert(out@ =~= row@.push(sv));
            },
        }
        rows.push(out);
        k = k + 1;
    }
    let mut schema = batch.schema;
    if existing.is_none() {
        proof {
            names_push(schema@, *var);
        }
        schema.push(var.clone());
    }
    let b = Batch { schema, rows };
    assert(b@.rows =~= goal.rows);
    Ok(b)
}

// ── Unions ──────────────────────────────────────────────────────────────────

/// A row laid out under another schema; missing columns are unbound.
pub open spec fn laid_out(schema: Seq<Text>, row: Seq<SlotView>, target: Seq<Text>) -> Seq<SlotView> {
    Seq::new(
        target.len(),
        |c: int|
            match cell(schema, row, target[c]) {
                Some(s) => s,
                None => SlotView::Unbound,
            },
    )
}

pub open spec fn laid_out_all(b: BatchView, target: Seq<Text>) -> Seq<Seq<SlotView>> {
    Seq::new(b.rows.len(), |k: int| laid_out(b.schema, b.rows[k], target))
}

/// Does a column hold an id?
pub open spec fn has_id(rows: Seq<Seq<SlotView>>, i: int) -> bool {
    exists|k: int| 0 <= k < rows.len() && (#[trigger] rows[k])[i] is Id
}

/// The columns that mix ids with computed terms.
pub open spec fn mixed_columns(rows: Seq<Seq<SlotView>>, n: nat) -> Seq<bool> {
    Seq::new(n, |c: int| has_id(rows, c) && has_term(rows, c))
}

/// The union of two batches: the rows of both, with no column mixing ids and
/// terms.
pub open spec fn union_batch(d: Dict, a: BatchView, b: BatchView) -> BatchView {
    let schema = add_all_unique(a.schema, b.schema);
    let rows = laid_out_all(a, schema) + laid_out_all(b, schema);
    BatchView { schema, rows: force_rows(d, rows, mixed_columns(rows, schema.len())) }
}

/// Lays the rows of a batch out under another schema.
pub fn apply_union_chunk(chunk: &Batch, merged: &Vec<Var>) -> (r: Vec<Row>)
    requires
        chunk@.wf(),
    ensures
        slot_rows_view(r@) == laid_out_all(chunk@, names(merged@)),
{
    let ghost cv = chunk@;
    let ghost mv = names(merged@);
    let mut rows: Vec<Row> = Vec::new();
    let mut k: usize = 0;
    while k < chunk.rows.len()
        invariant
            k == rows@.len(),
            k <= chunk.rows@.len(),
            cv == chunk@,
            cv.wf(),
            mv == names(merged@),
            forall|q: int| 0 <= q < k ==> (#[trigger] rows@[q])@ == laid_out(cv.schema, cv.rows[q], mv),
        decreases chunk.rows@.len() - k,
    {
        let row = &chunk.rows[k];
        assert(cv.rows[k as int] == row@);
        assert(row@.len() == cv.schema.len());
        let mut slots: Vec<Slot> = Vec::new();
        let mut c: usize = 0;
        while c < merged.len()
            invariant
                c == slots@.len(),
                c <= merged@.len(),
                cv == chunk@,
                mv == names(merged@),
                row@.len() == cv.schema.len(),
                forall|q: int|
                    0 <= q < c ==> (#[trigger] slots@[q])@ == laid_out(cv.schema, row@, mv)[q],
            decreases merged@.len() - c,
        {
            assert(mv[c as int] == merged@[c as int]@);
            match chunk.col(merged[c].name()) {
                Some(i) => {
                    assert(row@[i as int] == row.0@[i as int]@);
                    slots.push(row.0[i].clone());
                },
                None => slots.push(Slot::Unbound),
            }
            c = c + 1;
        }
        let out = Row(slots);
        assert(out@ =~= laid_out(cv.schema, row@, mv));
        rows.push(out);
        k = k + 1;
    }
    assert(slot_rows_view(rows@) =~= laid_out_all(cv, mv));
    rows
}

/// Decodes the ids of the columns that mix ids and terms.
pub fn normalize_columns<E: Executor>(exec: &E, rows: Vec<Row>, columns: usize) -> (r: Result<
    Vec<Row>,
    SparqlError,
>)
    requires
        width(slot_rows_view(rows@), columns as nat),
    ensures
        r matches Ok(v) ==> slot_rows_view(v@) == force_rows(
            exec.dict(),
            slot_rows_view(rows@),
            mixed_columns(slot_rows_view(rows@), columns as nat),
        ),
        exec.reliable() ==> r is Ok,
{
    let ghost rv = slot_rows_view(rows@);
    let mut mixed: Vec<bool> = Vec::new();
    let mut c: usize = 0;
    while c < columns
        invariant
            c == mixed@.len(),
            c <= columns,
            rv == slot_rows_view(rows@),
            width(rv, columns as nat),
            forall|q: int| 0 <= q < c ==> #[trigger] mixed@[q] == (has_id(rv, q) && has_term(rv, q)),
        decreases columns - c,
    {
        let mut ids = false;
        let mut terms = false;
        let mut k: usize = 0;
        while k < rows.len()
            invariant
                k <= rows@.len(),
                c < columns,
                rv == slot_rows_view(rows@),
                width(rv, columns as nat),
                ids <==> exists|q: int| 0 <= q < k && (#[trigger] rv[q])[c as int] is Id,
                terms <==> exists|q: int| 0 <= q < k && (#[trigger] rv[q])[c as int] is Term,
            decreases rows@.len() - k,
        {
            assert(rv[k as int].len() == columns);
            assert(rv[k as int][c as int] == rows@[k as int].0@[c as int]@);
            match &rows[k].0[c] {
                Slot::Id(_) => {
                    ids = true;
                },
                Slot::Term(_) => {
                    terms = true;
                },
                Slot::Unbound => {},
            }
            k = k + 1;
        }
        mixed.push(ids && terms);
        c = c + 1;
    }
    assert(mixed@ =~= mixed_columns(rv, columns as nat));
    force_term_columns(exec, rows, &mixed)
}

/// The union of two batches.
pub fn union<E: Executor>(exec: &E, left: &Batch, right: &Batch) -> (r: Result<Batch, SparqlError>)
    requires
        left@.wf(),
        right@.wf(),
    ensures
        r matches Ok(b) ==> b@ == union_batch(exec.dict(), left@, right@) && b@.wf(),
        exec.reliable() ==> r is Ok,
{
    let schema = union_schema(&left.schema, &right.schema);
    let mut rows = apply_union_chunk(left, &schema);
    let more = apply_union_chunk(right, &schema);
    append_rows(&mut rows, more);
    let ghost rv = slot_rows_view(rows@);
    let ghost sv = names(schema@);
    assert(width(rv, sv.len())) by {
        assert forall|i: int| 0 <= i < rv.len() implies (#[trigger] rv[i]).len() == sv.len() by {
            if i < left@.rows.len() {
                assert(rv[i] == laid_out_all(left@, sv)[i]);
            } else {
                assert(rv[i] == laid_out_all(right@, sv)[i - left@.rows.len()]);
            }
        }
    }
    match normalize_columns(exec, rows, schema.len()) {
        Ok(rows) => {
            let b = Batch { schema, rows };
            assert(b@.rows == union_batch(exec.dict(), left@, right@).rows);
            assert(b@.wf()) by {
                assert forall|i: int| 0 <= i < b@.rows.len() implies (#[trigger] b@.rows[i]).len()
                    == b@.schema.len() by {
                    assert(rv[i].len() == sv.len());
                }
            }
            Ok(b)
        },
        Err(e) => Err(e),
    }
}

// ── Distinct rows and slices ────────────────────────────────────────────────

/// Is there a row with the same identities?
pub open spec fn repeats(rows: Seq<Seq<SlotView>>, row: Seq<SlotView>) -> bool {
    exists|k: int| 0 <= k < rows.len() && row_key(#[trigger] rows[k]) == row_key(row)
}

/// The first row of each identity.
pub open spec fn distinct_slot_rows(rows: Seq<Seq<SlotView>>) -> Seq<Seq<SlotView>>
    decreases rows.len(),
{
    if rows.len() == 0 {
        Seq::empty()
    } else {
        let rest = distinct_slot_rows(rows.drop_last());
        if repeats(rest, rows.last()) {
            rest
        } else {
            rest.push(rows.last())
        }
    }
}

pub open spec fn distinct_batch(b: BatchView) -> BatchView {
    BatchView { schema: b.schema, rows: distinct_slot_rows(b.rows) }
}

/// Is a row's key among those of some rows?
fn key_seen(keys: &Vec<Vec<KeyPart>>, key: &Vec<KeyPart>, Ghost(rows): Ghost<Seq<Seq<SlotView>>>, Ghost(row): Ghost<Seq<SlotView>>) -> (r: bool)
    requires
        keys@.len() == rows.len(),
        forall|k: int|
            0 <= k < rows.len() ==> keys_view((#[trigger] keys@[k])@) == row_key(
                rows[k],
            ),
        keys_view(key@) == row_key(row),
    ensures
        r == repeats(rows, row),
{
    let mut i: usize = 0;
    while i < keys.len()
        invariant
            i <= keys@.len(),
            keys@.len() == rows.len(),
            forall|k: int|
                0 <= k < rows.len() ==> keys_view((#[trigger] keys@[k])@)
                    == row_key(rows[k]),
            keys_view(key@) == row_key(row),
            forall|k: int| 0 <= k < i ==> row_key(#[trigger] rows[k]) != row_key(row),
        decreases keys@.len() - i,
    {
        assert(keys_view(keys@[i as int]@) == row_key(rows[i as int]));
        if same_keys(&keys[i], key) {
            return true;
        }
        i = i + 1;
    }
    false
}

/// Keeps the first row of each identity.
pub fn distinct(batch: Batch) -> (r: Batch)
    requires
        batch@.wf(),
    ensures
        r@ == distinct_batch(batch@),
        r@.wf(),
{
    let ghost bv = batch@;
    let ghost rv = bv.rows;
    let mut rows: Vec<Row> = Vec::new();
    let mut keys: Vec<Vec<KeyPart>> = Vec::new();
    assert(slot_rows_view(rows@) =~= distinct_slot_rows(rv.take(0)));
    for row in it: batch.rows
        invariant
            rv == slot_rows_view(it.seq()),
            rv == bv.rows,
            bv.wf(),
            slot_rows_view(rows@) == distinct_slot_rows(rv.take(it.index() as int)),
            keys@.len() == rows@.len(),
            width(slot_rows_view(rows@), bv.schema.len()),
            forall|k: int|
                0 <= k < rows@.len() ==> keys_view((#[trigger] keys@[k])@)
                    == row_key(slot_rows_view(rows@)[k]),
    {
        let ghost i = it.index() as int;
        let ghost v = row@;
        let ghost before = slot_rows_view(rows@);
        proof {
            assert(rv.take(i + 1).drop_last() =~= rv.take(i));
            assert(rv.take(i + 1).last() == rv[i]);
            assert(rv[i] == v);
            assert(rv[i].len() == bv.schema.len());
        }
        let key = row.key();
        if !key_seen(&keys, &key, Ghost(before), Ghost(v)) {
            keys.push(key);
            rows.push(row);
            assert(slot_rows_view(rows@) =~= before.push(v));
        }
    }
    assert(rv.take(rv.len() as int) =~= rv);
    let r = Batch { schema: batch.schema, rows };
    assert(r@ =~= distinct_batch(bv));
    r
}

/// Removing repeated rows leaves no two rows with the same identities, and
/// keeps one of each.
pub proof fn distinct_rows_are_distinct(rows: Seq<Seq<SlotView>>)
    ensures
        forall|i: int, j: int|
            0 <= i < j < distinct_slot_rows(rows).len() ==> row_key(
                #[trigger] distinct_slot_rows(rows)[i],
            ) != row_key(#[trigger] distinct_slot_rows(rows)[j]),
        forall|k: int|
            0 <= k < rows.len() ==> repeats(distinct_slot_rows(rows), #[trigger] rows[k]),
    decreases rows.len(),
{
    if rows.len() > 0 {
        let p = rows.drop_last();
        distinct_rows_are_distinct(p);
        let rest = distinct_slot_rows(p);
        let all = distinct_slot_rows(rows);
        assert forall|k: int| 0 <= k < rows.len() implies repeats(all, #[trigger] rows[k]) by {
            if k < p.len() {
                assert(p[k] == rows[k]);
                assert(repeats(rest, p[k]));
                let j = choose|j: int|
                    0 <= j < rest.len() && row_key(#[trigger] rest[j]) == row_key(p[k]);
                assert(all[j] == rest[j]);
            } else if !repeats(rest, rows.last()) {
                assert(all[rest.len() as int] == rows[k]);
            }
        }
    }
}

/// The rows of a window.
pub open spec fn slice_rows(rows: Seq<Seq<SlotView>>, start: int, length: Option<usize>) -> Seq<
    Seq<SlotView>,
> {
    let from = if start < rows.len() {
        rows.skip(start)
    } else {
        Seq::empty()
    };
    match length {
        Some(n) => if n < from.len() {
            from.take(n as int)
        } else {
            from
        },
        None => from,
    }
}

pub open spec fn slice_batch(b: BatchView, start: int, length: Option<usize>) -> BatchView {
    BatchView { schema: b.schema, rows: slice_rows(b.rows, start, length) }
}

/// Cuts a window out of a batch.
pub fn slice(batch: Batch, start: usize, length: Option<usize>) -> (r: Batch)
    requires
        batch@.wf(),
    ensures
        r@ == slice_batch(batch@, start as int, length),
        r@.wf(),
{
    let ghost bv = batch@;
    let n: usize = batch.rows.len();
    let from: usize = if start < n {
        start
    } else {
        n
    };
    let to: usize = match length {
        Some(l) => if l < n - from {
            from + l
        } else {
            n
        },
        None => n,
    };
    let mut rows: Vec<Row> = Vec::new();
    let mut i: usize = from;
    while i < to
        invariant
            from <= i <= to <= batch.rows@.len(),
            bv == batch@,
            slot_rows_view(rows@) == bv.rows.subrange(from as int, i as int),
        decreases to - i,
    {
        let ghost before = slot_rows_view(rows@);
        rows.push(batch.rows[i].clone());
        assert(slot_rows_view(rows@) =~= before.push(bv.rows[i as int]));
        i = i + 1;
        assert(slot_rows_view(rows@) =~= bv.rows.subrange(from as int, i as int));
    }
    let r = Batch { schema: batch.schema, rows };
    assert(r@.rows =~= slice_batch(bv, start as int, length).rows);
    assert(r@.wf()) by {
        assert forall|k: int| 0 <= k < r@.rows.len() implies (#[trigger] r@.rows[k]).len()
            == r@.schema.len() by {
            assert(r@.rows[k] == bv.rows[from + k]);
        }
    }
    r
}

// ── Inline data ─────────────────────────────────────────────────────────────

/// The rows of inline data.
pub open spec fn values_batch(vars: Seq<Text>, rows: Seq<Seq<Option<TermView>>>) -> BatchView {
    BatchView {
        schema: vars,
        rows: Seq::new(
            rows.len(),
            |k: int|
                Seq::new(
                    vars.len(),
                    |c: int|
                        if c < rows[k].len() {
                            value_slot(rows[k][c])
                        } else {
                            SlotView::Unbound
                        },
                ),
        ),
    }
}

/// A batch of inline data. A row shorter than the variables is unbound in the
/// rest.
pub fn values_rows(vars: &Vec<Var>, rows: &Vec<Vec<Option<Term>>>) -> (r: Batch)
    ensures
        r@ == values_batch(names(vars@), rows_view(rows@)),
        r@.wf(),
{
    let ghost vv = names(vars@);
    let ghost rv = rows_view(rows@);
    let ghost goal = values_batch(vv, rv);
    let mut out: Vec<Row> = Vec::new();
    let mut k: usize = 0;
    while k < rows.len()
        invariant
            k == out@.len(),
            k <= rows@.len(),
            vv == names(vars@),
            rv == rows_view(rows@),
            goal == values_batch(vv, rv),
            forall|q: int| 0 <= q < k ==> (#[trigger] out@[q])@ == goal.rows[q],
        decreases rows@.len() - k,
    {
        let cells = &rows[k];
        let ghost cv = rv[k as int];
        assert(cv == cells_view(cells@));
        let mut slots: Vec<Slot> = Vec::new();
        let mut c: usize = 0;
        while c < vars.len()
            invariant
                c == slots@.len(),
                c <= vars@.len(),
                cv == cells_view(cells@),
                forall|q: int|
                    0 <= q < c ==> (#[trigger] slots@[q])@ == (if q < cv.len() {
                        value_slot(cv[q])
                    } else {
                        SlotView::Unbound
                    }),
            decreases vars@.len() - c,
        {
            if c < cells.len() {
                assert(cv[c as int] == opt_term_view(cells@[c as int]));
                match &cells[c] {
                    Some(t) => slots.push(Slot::Term(t.clone())),
                    None => slots.push(Slot::Unbound),
                }
            } else {
                slots.push(Slot::Unbound);
            }
            c = c + 1;
        }
        let row = Row(slots);
        assert(row@ =~= goal.rows[k as int]);
        out.push(row);
        k = k + 1;
    }
    let schema = clone_vars(vars);
    let r = Batch { schema, rows: out };
    assert(r@.rows =~= goal.rows);
    r
}

}
