//! `GROUP BY` and its aggregates.

use crate::algebra::{
    aggregates_view, clone_vars, names, opt_term_view, AggFunc, AggFuncView, Aggregate,
    AggregateView, ExprView, OrderDir, Term, TermView, Var,
};
use crate::collections::NameSet;
use crate::error::SparqlError;
use crate::exec::aggregate::{
    agg_value, aggregate_extreme, average, count_view, deduped, deduped_facts, eval_aggregate,
    numeric_sum, present_values, term_list,
};
use crate::exec::batch::{
    key_of, keys_view, position, row_binding, row_key, same_keys, slot_rows_view, slot_term,
    solution, Batch, BatchView, Dict, KeyPart, KeyView, Row, Slot, SlotView,
};
use crate::exec::bindings::{bindings_view, bound_to, Bindings};
use crate::exec::decode::{decode_slot, decode_subset, reading_a_subset_suffices};
use crate::exec::executor::Executor;
use crate::exec::expr::{outcome, OutcomeView};
use crate::exec::literal::{integer_literal, lex, lex_of};
use crate::exec::number::Numbers;
use crate::exec::operators::{laid_out, value_slot};
use crate::exec::order::{arranged, bare_var_col, lone_column, lone_column_decides, permute};
use crate::exec::refs::{agg_operand, agg_referenced_vars, refs};
use crate::exec::sort::{
    after, all_total, cover, enumerates_rows, missing_first, rows_order, sorted_order, SortCol,
};
use crate::text::{text_order, Order, Text};
use vstd::prelude::*;

verus! {

// ── What grouping means ─────────────────────────────────────────────────────

/// The identity of the group a row falls into.
pub open spec fn group_id(b: BatchView, keys: Seq<Text>, k: int) -> Seq<KeyView> {
    row_key(laid_out(b.schema, b.rows[k], keys))
}

pub open spec fn group_ids(b: BatchView, keys: Seq<Text>, n: int) -> Seq<Seq<KeyView>> {
    Seq::new(n as nat, |k: int| group_id(b, keys, k))
}

/// The groups, in the order in which they first appear. Without keys and
/// without rows there is still one group.
pub open spec fn group_list(b: BatchView, keys: Seq<Text>) -> Seq<Seq<KeyView>> {
    if keys.len() == 0 && b.rows.len() == 0 {
        seq![Seq::empty()]
    } else {
        deduped(group_ids(b, keys, b.rows.len() as int))
    }
}

/// The members of a group among the first `n` rows, in order.
pub open spec fn members(b: BatchView, keys: Seq<Text>, id: Seq<KeyView>, n: int) -> Seq<
    Seq<SlotView>,
>
    decreases n,
{
    if n <= 0 {
        Seq::empty()
    } else {
        let rest = members(b, keys, id, n - 1);
        if group_id(b, keys, n - 1) == id {
            rest.push(b.rows[n - 1])
        } else {
            rest
        }
    }
}

/// The solution mappings of some rows.
pub open spec fn row_solutions(d: Dict, schema: Seq<Text>, rows: Seq<Seq<SlotView>>) -> Seq<
    Map<Text, TermView>,
> {
    Seq::new(rows.len(), |i: int| solution(d, schema, rows[i]))
}

pub open spec fn row_keys(rows: Seq<Seq<SlotView>>) -> Seq<Seq<KeyView>> {
    Seq::new(rows.len(), |i: int| row_key(rows[i]))
}

/// The identities in a column, where it is bound.
pub open spec fn column_keys(rows: Seq<Seq<SlotView>>, col: int) -> Seq<Seq<KeyView>>
    decreases rows.len(),
{
    if rows.len() == 0 {
        Seq::empty()
    } else {
        let rest = column_keys(rows.drop_last(), col);
        if rows.last()[col] is Unbound {
            rest
        } else {
            rest.push(seq![key_of(rows.last()[col])])
        }
    }
}

/// The value of an aggregate over the rows of a group. Distinct rows, and the
/// distinct values of a column, are told apart by identity.
pub open spec fn agg_cell<N: Numbers>(
    d: Dict,
    schema: Seq<Text>,
    rows: Seq<Seq<SlotView>>,
    agg: AggregateView,
) -> Option<TermView> {
    match agg.func {
        AggFuncView::CountStar => Some(
            count_view(
                if agg.distinct {
                    deduped(row_keys(rows)).len()
                } else {
                    rows.len()
                },
            ),
        ),
        AggFuncView::Count(e) => if agg.distinct && (exists|i: int| lone_column(e, schema, i)) {
            let i = choose|i: int| lone_column(e, schema, i);
            Some(count_view(deduped(column_keys(rows, i)).len()))
        } else {
            agg_value::<N>(agg, row_solutions(d, schema, rows))
        },
        _ => agg_value::<N>(agg, row_solutions(d, schema, rows)),
    }
}

/// The output row of a group: its key, then its aggregates.
pub open spec fn group_row<N: Numbers>(
    d: Dict,
    b: BatchView,
    keys: Seq<Text>,
    aggs: Seq<AggregateView>,
    id: Seq<KeyView>,
) -> Seq<SlotView> {
    let ms = members(b, keys, id, b.rows.len() as int);
    laid_out(b.schema, ms[0], keys) + Seq::new(
        aggs.len(),
        |i: int| value_slot(agg_cell::<N>(d, b.schema, ms, aggs[i])),
    )
}

/// The lexical forms of a group's key, which its place is by.
pub open spec fn group_key(d: Dict, b: BatchView, keys: Seq<Text>, id: Seq<KeyView>) -> Seq<
    Option<Text>,
> {
    let ms = members(b, keys, id, b.rows.len() as int);
    Seq::new(keys.len(), |i: int| slot_lex(d, laid_out(b.schema, ms[0], keys)[i]))
}

pub open spec fn slot_lex(d: Dict, s: SlotView) -> Option<Text> {
    match slot_term(d, s) {
        Some(t) => Some(lex_of(t)),
        None => None,
    }
}

/// How two keys compare, part by part; a missing part comes first.
pub open spec fn keys_order(a: Seq<Option<Text>>, b: Seq<Option<Text>>) -> Order
    decreases a.len(),
{
    if a.len() == 0 || b.len() == 0 {
        Order::Equal
    } else {
        let o = missing_first(a[0], b[0], text_order(a[0]->0, b[0]->0));
        if o != Order::Equal {
            o
        } else {
            keys_order(a.drop_first(), b.drop_first())
        }
    }
}

/// Does group `i` come after group `j`?
pub open spec fn group_after(ks: Seq<Seq<Option<Text>>>, i: int, j: int) -> bool {
    match keys_order(ks[i], ks[j]) {
        Order::Less => false,
        Order::Greater => true,
        Order::Equal => i > j,
    }
}

pub open spec fn group_keys_of(d: Dict, b: BatchView, keys: Seq<Text>) -> Seq<Seq<Option<Text>>> {
    let gl = group_list(b, keys);
    Seq::new(gl.len(), |g: int| group_key(d, b, keys, gl[g]))
}

pub open spec fn group_rows_of<N: Numbers>(
    d: Dict,
    b: BatchView,
    keys: Seq<Text>,
    aggs: Seq<AggregateView>,
) -> Seq<Seq<SlotView>> {
    let gl = group_list(b, keys);
    Seq::new(gl.len(), |g: int| group_row::<N>(d, b, keys, aggs, gl[g]))
}

/// The columns of a grouping: the keys, then the aggregates.
pub open spec fn group_schema(keys: Seq<Text>, aggs: Seq<AggregateView>) -> Seq<Text> {
    keys + Seq::new(aggs.len(), |i: int| aggs[i].out)
}

/// Is `out` the batch grouped by the keys: one row per group, sorted by the
/// lexical forms of the keys?
pub open spec fn group_batch<N: Numbers>(
    d: Dict,
    b: BatchView,
    keys: Seq<Text>,
    aggs: Seq<AggregateView>,
    out: BatchView,
) -> bool {
    exists|order: Seq<usize>| #[trigger]
        enumerates_rows(order, 0, group_list(b, keys).len() as int) && (forall|i: int, j: int|
            0 <= i < j < order.len() ==> group_after(
                group_keys_of(d, b, keys),
                #[trigger] order[j] as int,
                #[trigger] order[i] as int,
            )) && out == (BatchView {
            schema: group_schema(keys, aggs),
            rows: arranged(group_rows_of::<N>(d, b, keys, aggs), order),
        })
}

// ── Collecting the groups ───────────────────────────────────────────────────

/// A group: its identity, the slots of its key, and its members by position.
struct Grp {
    id: Vec<KeyPart>,
    slots: Row,
    at: Vec<usize>,
}

spec fn grp_ids(s: Seq<Grp>) -> Seq<Seq<KeyView>> {
    Seq::new(s.len(), |g: int| keys_view(s[g].id@))
}

spec fn positions_below(at: Seq<usize>, n: int) -> bool {
    forall|i: int| 0 <= i < at.len() ==> #[trigger] at[i] < n
}

/// Do the groups hold the first `n` rows?
spec fn grouped(s: Seq<Grp>, b: BatchView, keys: Seq<Text>, n: int) -> bool {
    &&& grp_ids(s) == deduped(group_ids(b, keys, n))
    &&& forall|g: int|
        0 <= g < s.len() ==> positions_below((#[trigger] s[g]).at@, n) && arranged(
            b.rows,
            s[g].at@,
        ) == members(b, keys, keys_view(s[g].id@), n) && s[g].at@.len() > 0 && s[g].slots@
            == laid_out(b.schema, b.rows[s[g].at@[0] as int], keys)
}

/// The slots of a row's key.
fn key_slots(row: &Row, at: &Vec<Option<usize>>, Ghost(schema): Ghost<Seq<Text>>, Ghost(keys): Ghost<
    Seq<Text>,
>) -> (r: Row)
    requires
        at@.len() == keys.len(),
        row@.len() == schema.len(),
        forall|i: int|
            0 <= i < keys.len() ==> match #[trigger] at@[i] {
                Some(c) => position(schema, keys[i]) == Some(c as int) && c
                    < schema.len(),
                None => position(schema, keys[i]) is None,
            },
    ensures
        r@ == laid_out(schema, row@, keys),
{
    let mut slots: Vec<Slot> = Vec::new();
    let mut i: usize = 0;
    while i < at.len()
        invariant
            i == slots@.len(),
            i <= at@.len(),
            at@.len() == keys.len(),
            row@.len() == schema.len(),
            forall|i: int|
                0 <= i < keys.len() ==> match #[trigger] at@[i] {
                    Some(c) => position(schema, keys[i]) == Some(c as int) && c
                        < schema.len(),
                    None => position(schema, keys[i]) is None,
                },
            forall|q: int| 0 <= q < i ==> (#[trigger] slots@[q])@ == laid_out(schema, row@, keys)[q],
        decreases at@.len() - i,
    {
        match at[i] {
            Some(c) => {
                assert(row@[c as int] == row.0@[c as int]@);
                slots.push(row.0[c].clone());
            },
            None => slots.push(Slot::Unbound),
        }
        i = i + 1;
    }
    let r = Row(slots);
    assert(r@ =~= laid_out(schema, row@, keys));
    r
}

fn find_group(groups: &Vec<Grp>, id: &Vec<KeyPart>) -> (r: Option<usize>)
    ensures
        match r {
            Some(g) => g < groups@.len() && keys_view(groups@[g as int].id@) == keys_view(id@),
            None => !grp_ids(groups@).contains(keys_view(id@)),
        },
{
    let ghost gv = grp_ids(groups@);
    let mut i: usize = 0;
    while i < groups.len()
        invariant
            i <= groups@.len(),
            gv == grp_ids(groups@),
            forall|k: int| 0 <= k < i ==> gv[k] != keys_view(id@),
        decreases groups@.len() - i,
    {
        if same_keys(&groups[i].id, id) {
            return Some(i);
        }
        i = i + 1;
    }
    None
}

/// A group no row falls into has no members.
proof fn absent_group_is_empty(b: BatchView, keys: Seq<Text>, id: Seq<KeyView>, n: int)
    requires
        0 <= n <= b.rows.len(),
        !group_ids(b, keys, n).contains(id),
    ensures
        members(b, keys, id, n).len() == 0,
    decreases n,
{
    if n > 0 {
        let a = group_ids(b, keys, n);
        let p = group_ids(b, keys, n - 1);
        assert(!p.contains(id)) by {
            if p.contains(id) {
                let k = choose|k: int| 0 <= k < p.len() && p[k] == id;
                assert(a[k] == id);
            }
        }
        absent_group_is_empty(b, keys, id, n - 1);
        assert(a[n - 1] == group_id(b, keys, n - 1));
    }
}

#[verifier::rlimit(40)]
fn collect_groups(batch: &Batch, keys: &Vec<Var>) -> (r: Vec<Grp>)
    requires
        batch@.wf(),
    ensures
        grouped(r@, batch@, names(keys@), batch@.rows.len() as int),
{
    let ghost bv = batch@;
    let ghost kv = names(keys@);
    let mut at: Vec<Option<usize>> = Vec::new();
    let mut i: usize = 0;
    while i < keys.len()
        invariant
            i == at@.len(),
            i <= keys@.len(),
            bv == batch@,
            kv == names(keys@),
            forall|q: int|
                0 <= q < i ==> match #[trigger] at@[q] {
                    Some(c) => position(bv.schema, kv[q]) == Some(c as int) && c
                        < bv.schema.len(),
                    None => position(bv.schema, kv[q]) is None,
                },
        decreases keys@.len() - i,
    {
        at.push(batch.col(keys[i].name()));
        i = i + 1;
    }
    let mut groups: Vec<Grp> = Vec::new();
    let mut k: usize = 0;
    assert(grp_ids(groups@) =~= deduped(group_ids(bv, kv, 0)));
    while k < batch.rows.len()
        invariant
            k <= batch.rows@.len(),
            bv == batch@,
            bv.wf(),
            kv == names(keys@),
            at@.len() == kv.len(),
            forall|q: int|
                0 <= q < kv.len() ==> match #[trigger] at@[q] {
                    Some(c) => position(bv.schema, kv[q]) == Some(c as int) && c
                        < bv.schema.len(),
                    None => position(bv.schema, kv[q]) is None,
                },
            grouped(groups@, bv, kv, k as int),
        decreases batch.rows@.len() - k,
    {
        let row = &batch.rows[k];
        assert(bv.rows[k as int] == row@);
        assert(row@.len() == bv.schema.len());
        let slots = key_slots(row, &at, Ghost(bv.schema), Ghost(kv));
        let id = slots.key();
        let ghost idv = keys_view(id@);
        let ghost before = groups@;
        let ghost n = k as int;
        proof {
            let p = group_ids(bv, kv, n);
            let a = group_ids(bv, kv, n + 1);
            assert(a.drop_last() =~= p);
            assert(a.last() == group_id(bv, kv, n));
            assert(idv == group_id(bv, kv, n));
            deduped_facts(p);
        }
        match find_group(&groups, &id) {
            Some(g) => {
                groups[g].at.push(k);
                proof {
                    let after = groups@;
                    assert(grp_ids(before)[g as int] == idv);
                    assert(after[g as int].id == before[g as int].id);
                    assert(grp_ids(after) =~= grp_ids(before)) by {
                        assert forall|q: int| 0 <= q < after.len() implies grp_ids(after)[q] == grp_ids(before)[q] by {
                            if q != g {
                                assert(after[q] == before[q]);
                            }
                        }
                    }
                    assert forall|q: int| 0 <= q < after.len() implies positions_below(
                        (#[trigger] after[q]).at@,
                        n + 1,
                    ) && arranged(bv.rows, after[q].at@) == members(
                        bv,
                        kv,
                        keys_view(after[q].id@),
                        n + 1,
                    ) && after[q].at@.len() > 0 && after[q].slots@ == laid_out(
                        bv.schema,
                        bv.rows[after[q].at@[0] as int],
                        kv,
                    ) by {
                        let old_at = before[q].at@;
                        if q == g {
                            assert(after[q].at@ == old_at.push(k));
                            assert(arranged(bv.rows, after[q].at@) =~= arranged(bv.rows, old_at).push(
                                bv.rows[n],
                            ));
                            assert(after[q].at@[0] == old_at[0]);
                            assert forall|z: int| 0 <= z < after[q].at@.len() implies #[trigger] after[q].at@[z] < n + 1 by {
                                if z < old_at.len() {
                                    assert(after[q].at@[z] == old_at[z]);
                                }
                            }
                        } else {
                            assert(after[q] == before[q]);
                            assert(keys_view(before[q].id@) != idv) by {
                                assert(grp_ids(before)[q] == keys_view(before[q].id@));
                                assert(grp_ids(before).no_duplicates());
                            }
                        }
                    }
                }
            },
            None => {
                let mut one: Vec<usize> = Vec::new();
                one.push(k);
                groups.push(Grp { id, slots, at: one });
                proof {
                    let after = groups@;
                    let g = before.len() as int;
                    assert(grp_ids(after) =~= grp_ids(before).push(idv));
                    assert forall|q: int| 0 <= q < after.len() implies positions_below(
                        (#[trigger] after[q]).at@,
                        n + 1,
                    ) && arranged(bv.rows, after[q].at@) == members(
                        bv,
                        kv,
                        keys_view(after[q].id@),
                        n + 1,
                    ) && after[q].at@.len() > 0 && after[q].slots@ == laid_out(
                        bv.schema,
                        bv.rows[after[q].at@[0] as int],
                        kv,
                    ) by {
                        if q == g {
                            assert(!group_ids(bv, kv, n).contains(idv));
                            absent_group_is_empty(bv, kv, idv, n);
                            assert(arranged(bv.rows, after[q].at@) =~= members(bv, kv, idv, n + 1));
                        } else {
                            assert(after[q] == before[q]);
                            assert(grp_ids(before)[q] == keys_view(before[q].id@));
                            assert(grp_ids(before).contains(grp_ids(before)[q]));
                        }
                    }
                }
            },
        }
        k = k + 1;
    }
    groups
}

// ── Aggregating a group ─────────────────────────────────────────────────────

/// An aggregate over one column, folded from the column's slots.
#[derive(Debug, Clone, Copy, PartialEq, Eq, Structural)]
pub enum FastAgg {
    Count(usize),
    CountDistinct(usize),
    Sum(usize),
    Avg(usize),
    Min(usize),
    Max(usize),
}

/// The fold an aggregate stands for, with the column it folds.
pub open spec fn fast_agg_of(agg: AggregateView, schema: Seq<Text>, f: FastAgg) -> bool {
    match f {
        FastAgg::Count(c) => agg.func matches AggFuncView::Count(e) && !agg.distinct && lone_column(
            e,
            schema,
            c as int,
        ),
        FastAgg::CountDistinct(c) => agg.func matches AggFuncView::Count(e) && agg.distinct
            && lone_column(e, schema, c as int),
        FastAgg::Sum(c) => agg.func matches AggFuncView::Sum(e) && !agg.distinct && lone_column(
            e,
            schema,
            c as int,
        ),
        FastAgg::Avg(c) => agg.func matches AggFuncView::Avg(e) && !agg.distinct && lone_column(
            e,
            schema,
            c as int,
        ),
        FastAgg::Min(c) => agg.func matches AggFuncView::Min(e) && !agg.distinct && lone_column(
            e,
            schema,
            c as int,
        ),
        FastAgg::Max(c) => agg.func matches AggFuncView::Max(e) && !agg.distinct && lone_column(
            e,
            schema,
            c as int,
        ),
    }
}

/// The fold of an aggregate over one column; `None` where it needs the general
/// evaluation.
pub fn detect_fast_agg(agg: &Aggregate, schema: &Vec<Var>) -> (r: Option<FastAgg>)
    ensures
        r matches Some(f) ==> fast_agg_of(agg@, names(schema@), f),
        r is None ==> !(agg@.func matches AggFuncView::Count(e) && agg.distinct && exists|i: int|
            lone_column(e, names(schema@), i)),
{
    match &agg.func {
        AggFunc::Count(e) => match bare_var_col(e, schema) {
            Some(c) => if agg.distinct {
                Some(FastAgg::CountDistinct(c))
            } else {
                Some(FastAgg::Count(c))
            },
            None => None,
        },
        AggFunc::Sum(e) => match bare_var_col(e, schema) {
            Some(c) => if agg.distinct {
                None
            } else {
                Some(FastAgg::Sum(c))
            },
            None => None,
        },
        AggFunc::Avg(e) => match bare_var_col(e, schema) {
            Some(c) => if agg.distinct {
                None
            } else {
                Some(FastAgg::Avg(c))
            },
            None => None,
        },
        AggFunc::Min(e) => match bare_var_col(e, schema) {
            Some(c) => if agg.distinct {
                None
            } else {
                Some(FastAgg::Min(c))
            },
            None => None,
        },
        AggFunc::Max(e) => match bare_var_col(e, schema) {
            Some(c) => if agg.distinct {
                None
            } else {
                Some(FastAgg::Max(c))
            },
            None => None,
        },
        _ => None,
    }
}

/// The terms in a column, where it is bound.
pub open spec fn column_values(d: Dict, rows: Seq<Seq<SlotView>>, col: int) -> Seq<TermView>
    decreases rows.len(),
{
    if rows.len() == 0 {
        Seq::empty()
    } else {
        let rest = column_values(d, rows.drop_last(), col);
        match slot_term(d, rows.last()[col]) {
            Some(t) => rest.push(t),
            None => rest,
        }
    }
}

/// The values of a bare variable are those in its column.
proof fn column_has_the_values<N: Numbers>(
    d: Dict,
    schema: Seq<Text>,
    rows: Seq<Seq<SlotView>>,
    e: ExprView,
    col: int,
)
    requires
        lone_column(e, schema, col),
    ensures
        present_values::<N>(e, row_solutions(d, schema, rows)) == column_values(d, rows, col),
    decreases rows.len(),
{
    let sols = row_solutions(d, schema, rows);
    if rows.len() > 0 {
        let p = rows.drop_last();
        column_has_the_values::<N>(d, schema, p, e, col);
        assert(sols.drop_last() =~= row_solutions(d, schema, p));
        assert(sols.last() == solution(d, schema, rows.last()));
        let v = e->Term_0->Var_0;
        lone_column_decides(d, schema, rows.last(), v, col);
        assert(outcome::<N>(e, sols.last()) == OutcomeView::Value(bound_to(sols.last(), v)));
    }
}

/// Are the positions in range, and the column in every row?
spec fn can_fold(rows: Seq<Row>, at: Seq<usize>, col: int) -> bool {
    positions_below(at, rows.len() as int) && forall|k: int|
        0 <= k < rows.len() ==> col < (#[trigger] rows[k])@.len()
}

/// The number of bound slots of a column.
fn count_bound(rows: &Vec<Row>, at: &Vec<usize>, col: usize, Ghost(d): Ghost<Dict>) -> (r: usize)
    requires
        can_fold(rows@, at@, col as int),
    ensures
        r == column_values(d, arranged(slot_rows_view(rows@), at@), col as int).len(),
{
    let ghost ms = arranged(slot_rows_view(rows@), at@);
    let mut n: usize = 0;
    let mut i: usize = 0;
    while i < at.len()
        invariant
            i <= at@.len(),
            n <= i,
            can_fold(rows@, at@, col as int),
            ms == arranged(slot_rows_view(rows@), at@),
            n == column_values(d, ms.take(i as int), col as int).len(),
        decreases at@.len() - i,
    {
        let k: usize = at[i];
        proof {
            assert(ms.take(i + 1).drop_last() =~= ms.take(i as int));
            assert(ms.take(i + 1).last() == rows@[k as int]@);
            assert(rows@[k as int]@[col as int] == rows@[k as int].0@[col as int]@);
        }
        if !rows[k].0[col].is_unbound() {
            n = n + 1;
        }
        i = i + 1;
    }
    assert(ms.take(ms.len() as int) =~= ms);
    n
}

/// The terms in a column, where it is bound.
fn column_terms<E: Executor>(exec: &E, rows: &Vec<Row>, at: &Vec<usize>, col: usize) -> (r: Result<
    Vec<Term>,
    SparqlError,
>)
    requires
        can_fold(rows@, at@, col as int),
    ensures
        r matches Ok(v) ==> term_list(v@) == column_values(
            exec.dict(),
            arranged(slot_rows_view(rows@), at@),
            col as int,
        ),
        exec.reliable() ==> r is Ok,
{
    let ghost d = exec.dict();
    let ghost ms = arranged(slot_rows_view(rows@), at@);
    let mut out: Vec<Term> = Vec::new();
    let mut i: usize = 0;
    assert(term_list(out@) =~= column_values(d, ms.take(0), col as int));
    while i < at.len()
        invariant
            i <= at@.len(),
            d == exec.dict(),
            can_fold(rows@, at@, col as int),
            ms == arranged(slot_rows_view(rows@), at@),
            term_list(out@) == column_values(d, ms.take(i as int), col as int),
        decreases at@.len() - i,
    {
        let k: usize = at[i];
        proof {
            assert(ms.take(i + 1).drop_last() =~= ms.take(i as int));
            assert(ms.take(i + 1).last() == rows@[k as int]@);
            assert(rows@[k as int]@[col as int] == rows@[k as int].0@[col as int]@);
        }
        let ghost before = term_list(out@);
        match decode_slot(exec, &rows[k].0[col]) {
            Ok(Some(t)) => {
                out.push(t);
                assert(term_list(out@) =~= before.push(t@));
            },
            Ok(None) => {},
            Err(e) => return Err(e),
        }
        i = i + 1;
    }
    assert(ms.take(ms.len() as int) =~= ms);
    Ok(out)
}

spec fn key_lists(s: Seq<Vec<KeyPart>>) -> Seq<Seq<KeyView>> {
    Seq::new(s.len(), |i: int| keys_view(s[i]@))
}

/// The number of distinct keys.
fn count_distinct_keys(keys: &Vec<Vec<KeyPart>>) -> (r: usize)
    ensures
        r == deduped(key_lists(keys@)).len(),
{
    let ghost kv = key_lists(keys@);
    let mut firsts: Vec<usize> = Vec::new();
    let ghost mut kept: Seq<Seq<KeyView>> = Seq::empty();
    let mut i: usize = 0;
    while i < keys.len()
        invariant
            i <= keys@.len(),
            kv == key_lists(keys@),
            kept == deduped(kv.take(i as int)),
            kept.len() == firsts@.len(),
            forall|k: int|
                0 <= k < firsts@.len() ==> #[trigger] firsts@[k] < keys@.len()
                    && kv[firsts@[k] as int] == kept[k],
        decreases keys@.len() - i,
    {
        proof {
            assert(kv.take(i + 1).drop_last() =~= kv.take(i as int));
            assert(kv.take(i + 1).last() == kv[i as int]);
        }
        let mut found = false;
        let mut k: usize = 0;
        while k < firsts.len() && !found
            invariant
                i < keys@.len(),
                kv == key_lists(keys@),
                k <= firsts@.len(),
                kept.len() == firsts@.len(),
                forall|k: int|
                    0 <= k < firsts@.len() ==> #[trigger] firsts@[k] < keys@.len()
                        && kv[firsts@[k] as int] == kept[k],
                found ==> kept.contains(kv[i as int]),
                !found ==> forall|q: int| 0 <= q < k ==> kept[q] != kv[i as int],
            decreases firsts@.len() - k,
        {
            let f: usize = firsts[k];
            if same_keys(&keys[f], &keys[i]) {
                found = true;
                assert(kept[k as int] == kv[i as int]);
            }
            k = k + 1;
        }
        if !found {
            assert(!kept.contains(kv[i as int]));
            firsts.push(i);
            proof {
                kept = kept.push(kv[i as int]);
            }
        }
        i = i + 1;
    }
    assert(kv.take(kv.len() as int) =~= kv);
    firsts.len()
}

fn member_keys(rows: &Vec<Row>, at: &Vec<usize>) -> (r: Vec<Vec<KeyPart>>)
    requires
        positions_below(at@, rows@.len() as int),
    ensures
        key_lists(r@) == row_keys(arranged(slot_rows_view(rows@), at@)),
{
    let ghost ms = arranged(slot_rows_view(rows@), at@);
    let mut out: Vec<Vec<KeyPart>> = Vec::new();
    let mut i: usize = 0;
    while i < at.len()
        invariant
            i == out@.len(),
            i <= at@.len(),
            positions_below(at@, rows@.len() as int),
            ms == arranged(slot_rows_view(rows@), at@),
            forall|q: int| 0 <= q < i ==> keys_view((#[trigger] out@[q])@) == row_key(ms[q]),
        decreases at@.len() - i,
    {
        let k: usize = at[i];
        assert(ms[i as int] == rows@[k as int]@);
        out.push(rows[k].key());
        i = i + 1;
    }
    assert(key_lists(out@) =~= row_keys(ms));
    out
}

fn bound_keys(rows: &Vec<Row>, at: &Vec<usize>, col: usize) -> (r: Vec<Vec<KeyPart>>)
    requires
        can_fold(rows@, at@, col as int),
    ensures
        key_lists(r@) == column_keys(arranged(slot_rows_view(rows@), at@), col as int),
{
    let ghost ms = arranged(slot_rows_view(rows@), at@);
    let mut out: Vec<Vec<KeyPart>> = Vec::new();
    let mut i: usize = 0;
    assert(key_lists(out@) =~= column_keys(ms.take(0), col as int));
    while i < at.len()
        invariant
            i <= at@.len(),
            can_fold(rows@, at@, col as int),
            ms == arranged(slot_rows_view(rows@), at@),
            key_lists(out@) == column_keys(ms.take(i as int), col as int),
        decreases at@.len() - i,
    {
        let k: usize = at[i];
        proof {
            assert(ms.take(i + 1).drop_last() =~= ms.take(i as int));
            assert(ms.take(i + 1).last() == rows@[k as int]@);
            assert(rows@[k as int]@[col as int] == rows@[k as int].0@[col as int]@);
        }
        let slot = &rows[k].0[col];
        if !slot.is_unbound() {
            let ghost before = key_lists(out@);
            let part = slot.key_part();
            let one: Vec<KeyPart> = vec![part];
            assert(keys_view(one@) =~= seq![key_of(slot@)]);
            out.push(one);
            assert(key_lists(out@) =~= before.push(seq![key_of(slot@)]));
        }
        i = i + 1;
    }
    assert(ms.take(ms.len() as int) =~= ms);
    out
}

proof fn lone_column_is_one(e: ExprView, schema: Seq<Text>, i: int, j: int)
    requires
        lone_column(e, schema, i),
        lone_column(e, schema, j),
    ensures
        i == j,
{
}

/// Folds an aggregate over one column.
fn eval_fast_agg<E: Executor>(
    exec: &E,
    fast: FastAgg,
    rows: &Vec<Row>,
    at: &Vec<usize>,
    Ghost(schema): Ghost<Seq<Text>>,
    Ghost(agg): Ghost<AggregateView>,
) -> (r: Result<Option<Term>, SparqlError>)
    requires
        fast_agg_of(agg, schema, fast),
        positions_below(at@, rows@.len() as int),
        forall|k: int| 0 <= k < rows@.len() ==> (#[trigger] rows@[k])@.len() == schema.len(),
    ensures
        r matches Ok(t) ==> opt_term_view(t) == agg_cell::<E::N>(
            exec.dict(),
            schema,
            arranged(slot_rows_view(rows@), at@),
            agg,
        ),
        exec.reliable() ==> r is Ok,
{
    let ghost d = exec.dict();
    let ghost ms = arranged(slot_rows_view(rows@), at@);
    let col: usize = match fast {
        FastAgg::Count(c) => c,
        FastAgg::CountDistinct(c) => c,
        FastAgg::Sum(c) => c,
        FastAgg::Avg(c) => c,
        FastAgg::Min(c) => c,
        FastAgg::Max(c) => c,
    };
    proof {
        let e = agg_operand(agg.func)->0;
        assert(lone_column(e, schema, col as int));
        column_has_the_values::<E::N>(d, schema, ms, e, col as int);
        let i = choose|i: int| lone_column(e, schema, i);
        lone_column_is_one(e, schema, i, col as int);
    }
    match fast {
        FastAgg::Count(_) => {
            let n = count_bound(rows, at, col, Ghost(d));
            Ok(Some(integer_literal(n as i64)))
        },
        FastAgg::CountDistinct(_) => {
            let keys = bound_keys(rows, at, col);
            let n = count_distinct_keys(&keys);
            Ok(Some(integer_literal(n as i64)))
        },
        _ => {
            let vals = match column_terms(exec, rows, at, col) {
                Ok(v) => v,
                Err(e) => return Err(e),
            };
            match fast {
                FastAgg::Sum(_) => match numeric_sum::<E::N>(&vals) {
                    Some(s) => Ok(Some(Term::Literal(E::N::to_literal(s)))),
                    None => Ok(None),
                },
                FastAgg::Avg(_) => Ok(average::<E::N>(&vals)),
                FastAgg::Min(_) => Ok(aggregate_extreme::<E::N>(&vals, true)),
                _ => Ok(aggregate_extreme::<E::N>(&vals, false)),
            }
        },
    }
}

/// Reading the columns an expression names gives its values over a group.
proof fn subset_has_the_values<N: Numbers>(
    d: Dict,
    schema: Seq<Text>,
    rows: Seq<Seq<SlotView>>,
    e: ExprView,
    want: Set<Text>,
    maps: Seq<Map<Text, TermView>>,
)
    requires
        refs(e).subset_of(want),
        maps.len() == rows.len(),
        forall|i: int|
            0 <= i < rows.len() ==> #[trigger] maps[i] == row_binding(d, schema, rows[i], want),
    ensures
        present_values::<N>(e, maps) == present_values::<N>(e, row_solutions(d, schema, rows)),
    decreases rows.len(),
{
    let sols = row_solutions(d, schema, rows);
    if rows.len() > 0 {
        let p = rows.drop_last();
        let mp = maps.drop_last();
        assert forall|i: int| 0 <= i < p.len() implies #[trigger] mp[i] == row_binding(
            d,
            schema,
            p[i],
            want,
        ) by {
            assert(mp[i] == maps[i] && p[i] == rows[i]);
        }
        subset_has_the_values::<N>(d, schema, p, e, want, mp);
        assert(sols.drop_last() =~= row_solutions(d, schema, p));
        assert(maps.last() == maps[maps.len() - 1]);
        reading_a_subset_suffices::<N>(d, schema, rows.last(), e, want);
    }
}

fn decode_members<E: Executor>(
    exec: &E,
    batch: &Batch,
    at: &Vec<usize>,
    want: &NameSet,
) -> (r: Result<Vec<Bindings>, SparqlError>)
    requires
        batch@.wf(),
        positions_below(at@, batch@.rows.len() as int),
    ensures
        r matches Ok(v) ==> v@.len() == at@.len() && forall|i: int|
            0 <= i < at@.len() ==> (#[trigger] bindings_view(v@)[i]) == row_binding(
                exec.dict(),
                batch@.schema,
                arranged(batch@.rows, at@)[i],
                want@,
            ),
        exec.reliable() ==> r is Ok,
{
    let ghost d = exec.dict();
    let ghost bv = batch@;
    let ghost ms = arranged(bv.rows, at@);
    let mut out: Vec<Bindings> = Vec::new();
    let mut i: usize = 0;
    while i < at.len()
        invariant
            i == out@.len(),
            i <= at@.len(),
            d == exec.dict(),
            bv == batch@,
            bv.wf(),
            ms == arranged(bv.rows, at@),
            positions_below(at@, bv.rows.len() as int),
            forall|q: int|
                0 <= q < i ==> (#[trigger] out@[q])@ == row_binding(d, bv.schema, ms[q], want@),
        decreases at@.len() - i,
    {
        let k: usize = at[i];
        proof {
            assert(bv.rows[k as int] == batch.rows@[k as int]@);
            assert(bv.rows[k as int].len() == bv.schema.len());
        }
        match decode_subset(exec, &batch.rows[k], &batch.schema, want) {
            Ok(b) => out.push(b),
            Err(e) => return Err(e),
        }
        i = i + 1;
    }
    Ok(out)
}

/// The value of an aggregate over the members of a group.
fn group_aggregate<E: Executor>(exec: &E, batch: &Batch, at: &Vec<usize>, agg: &Aggregate) -> (r:
    Result<Option<Term>, SparqlError>)
    requires
        batch@.wf(),
        positions_below(at@, batch@.rows.len() as int),
    ensures
        r matches Ok(t) ==> opt_term_view(t) == agg_cell::<E::N>(
            exec.dict(),
            batch@.schema,
            arranged(batch@.rows, at@),
            agg@,
        ),
        exec.reliable() ==> r is Ok,
{
    let ghost d = exec.dict();
    let ghost bv = batch@;
    let ghost ms = arranged(bv.rows, at@);
    match &agg.func {
        AggFunc::CountStar => {
            let n: usize = if agg.distinct {
                let keys = member_keys(&batch.rows, at);
                count_distinct_keys(&keys)
            } else {
                at.len()
            };
            return Ok(Some(integer_literal(n as i64)));
        },
        _ => {},
    }
    match detect_fast_agg(agg, &batch.schema) {
        Some(fast) => {
            proof {
                assert forall|k: int| 0 <= k < batch.rows@.len() implies (
                #[trigger] batch.rows@[k])@.len() == bv.schema.len() by {
                    assert(bv.rows[k].len() == bv.schema.len());
                }
            }
            eval_fast_agg(exec, fast, &batch.rows, at, Ghost(bv.schema), Ghost(agg@))
        },
        None => {
            let mut want = NameSet::new();
            agg_referenced_vars(agg, &mut want);
            match decode_members(exec, batch, at, &want) {
                Ok(ms_decoded) => {
                    proof {
                        let e = agg_operand(agg@.func)->0;
                        subset_has_the_values::<E::N>(
                            d,
                            bv.schema,
                            ms,
                            e,
                            want@,
                            bindings_view(ms_decoded@),
                        );
                    }
                    Ok(eval_aggregate::<E::N>(agg, &ms_decoded))
                },
                Err(e) => Err(e),
            }
        },
    }
}

// ── Grouping a batch ────────────────────────────────────────────────────────

/// The columns of a grouping.
pub fn group_output_schema(keys: &Vec<Var>, aggregates: &Vec<Aggregate>) -> (r: Vec<Var>)
    ensures
        names(r@) == group_schema(names(keys@), aggregates_view(aggregates@)),
{
    let ghost av = aggregates_view(aggregates@);
    let mut out = clone_vars(keys);
    let ghost kv = names(out@);
    let mut i: usize = 0;
    assert(kv + Seq::new(0, |i: int| av[i].out) =~= kv);
    while i < aggregates.len()
        invariant
            i <= aggregates@.len(),
            av == aggregates_view(aggregates@),
            names(out@) == kv + Seq::new(i as nat, |i: int| av[i].out),
        decreases aggregates@.len() - i,
    {
        let ghost before = names(out@);
        out.push(aggregates[i].out.clone());
        assert(names(out@) =~= before.push(av[i as int].out));
        i = i + 1;
        assert(names(out@) =~= kv + Seq::new(i as nat, |i: int| av[i].out));
    }
    out
}

/// The output row of a group.
fn make_row<E: Executor>(exec: &E, batch: &Batch, grp: &Grp, aggregates: &Vec<Aggregate>) -> (r: Result<
    Row,
    SparqlError,
>)
    requires
        batch@.wf(),
        positions_below(grp.at@, batch@.rows.len() as int),
    ensures
        r matches Ok(row) ==> row@ == grp.slots@ + Seq::new(
            aggregates@.len(),
            |i: int|
                value_slot(
                    agg_cell::<E::N>(
                        exec.dict(),
                        batch@.schema,
                        arranged(batch@.rows, grp.at@),
                        aggregates_view(aggregates@)[i],
                    ),
                ),
        ),
        exec.reliable() ==> r is Ok,
{
    let ghost d = exec.dict();
    let ghost bv = batch@;
    let ghost ms = arranged(bv.rows, grp.at@);
    let ghost av = aggregates_view(aggregates@);
    let ghost tail = Seq::new(
        av.len(),
        |i: int| value_slot(agg_cell::<E::N>(d, bv.schema, ms, av[i])),
    );
    let mut row = grp.slots.clone();
    let ghost head = row@;
    let mut i: usize = 0;
    assert(head + tail.take(0) =~= head);
    while i < aggregates.len()
        invariant
            i <= aggregates@.len(),
            d == exec.dict(),
            bv == batch@,
            bv.wf(),
            ms == arranged(bv.rows, grp.at@),
            av == aggregates_view(aggregates@),
            tail == Seq::new(
                av.len(),
                |i: int| value_slot(agg_cell::<E::N>(d, bv.schema, ms, av[i])),
            ),
            positions_below(grp.at@, bv.rows.len() as int),
            row@ == head + tail.take(i as int),
        decreases aggregates@.len() - i,
    {
        let ghost before = row@;
        let slot = match group_aggregate(exec, batch, &grp.at, &aggregates[i]) {
            Ok(Some(t)) => Slot::Term(t),
            Ok(None) => Slot::Unbound,
            Err(e) => return Err(e),
        };
        let ghost sv = slot@;
        row.0.push(slot);
        assert(row@ =~= before.push(sv));
        assert(sv == tail[i as int]);
        i = i + 1;
        assert(row@ =~= head + tail.take(i as int));
    }
    assert(tail.take(tail.len() as int) =~= tail);
    Ok(row)
}

/// The lexical form of a slot's term.
fn lex_of_slot<E: Executor>(exec: &E, slot: &Slot) -> (r: Result<Option<String>, SparqlError>)
    ensures
        r matches Ok(o) ==> match o {
            Some(s) => slot_lex(exec.dict(), slot@) == Some(s@),
            None => slot_lex(exec.dict(), slot@) is None,
        },
        exec.reliable() ==> r is Ok,
{
    match decode_slot(exec, slot) {
        Ok(Some(t)) => Ok(Some(lex(&t))),
        Ok(None) => Ok(None),
        Err(e) => Err(e),
    }
}

/// One sort column per key: the lexical forms of the groups' keys.
fn key_columns<E: Executor>(exec: &E, groups: &Vec<Grp>, width: usize) -> (r: Result<
    Vec<(SortCol<E::N>, OrderDir)>,
    SparqlError,
>)
    requires
        forall|g: int| 0 <= g < groups@.len() ==> (#[trigger] groups@[g]).slots@.len() == width,
    ensures
        r matches Ok(cols) ==> cols@.len() == width && forall|c: int|
            0 <= c < width ==> is_key_column::<E::N>(
                exec.dict(),
                #[trigger] cols@[c],
                groups@,
                c,
            ),
        exec.reliable() ==> r is Ok,
{
    let ghost d = exec.dict();
    let mut cols: Vec<(SortCol<E::N>, OrderDir)> = Vec::new();
    let mut c: usize = 0;
    while c < width
        invariant
            c == cols@.len(),
            c <= width,
            d == exec.dict(),
            forall|g: int| 0 <= g < groups@.len() ==> (#[trigger] groups@[g]).slots@.len() == width,
            forall|q: int| 0 <= q < c ==> is_key_column::<E::N>(d, #[trigger] cols@[q], groups@, q),
        decreases width - c,
    {
        let mut col: Vec<Option<String>> = Vec::new();
        let mut g: usize = 0;
        while g < groups.len()
            invariant
                g == col@.len(),
                g <= groups@.len(),
                c < width,
                d == exec.dict(),
                forall|g: int|
                    0 <= g < groups@.len() ==> (#[trigger] groups@[g]).slots@.len() == width,
                forall|q: int|
                    0 <= q < g ==> opt_lex(#[trigger] col@[q]) == slot_lex(
                        d,
                        groups@[q].slots@[c as int],
                    ),
            decreases groups@.len() - g,
        {
            assert(groups@[g as int].slots@.len() == width);
            assert(groups@[g as int].slots@[c as int] == groups@[g as int].slots.0@[c as int]@);
            match lex_of_slot(exec, &groups[g].slots.0[c]) {
                Ok(o) => col.push(o),
                Err(e) => return Err(e),
            }
            g = g + 1;
        }
        cols.push((SortCol::Lex(col), OrderDir::Asc));
        c = c + 1;
    }
    Ok(cols)
}

pub open spec fn opt_lex(o: Option<String>) -> Option<Text> {
    match o {
        Some(s) => Some(s@),
        None => None,
    }
}

/// Does a sort column hold one part of the groups' keys?
spec fn is_key_column<N: Numbers>(
    d: Dict,
    col: (SortCol<N>, OrderDir),
    groups: Seq<Grp>,
    c: int,
) -> bool {
    col.1 == OrderDir::Asc && (col.0 matches SortCol::Lex(v) && v@.len() == groups.len()
        && forall|g: int|
        0 <= g < groups.len() ==> opt_lex(#[trigger] v@[g]) == slot_lex(d, groups[g].slots@[c]))
}

/// Comparing by the key columns is comparing the keys.
proof fn key_columns_compare_keys<N: Numbers>(
    d: Dict,
    cols: Seq<(SortCol<N>, OrderDir)>,
    groups: Seq<Grp>,
    from: int,
    ka: Seq<Option<Text>>,
    kb: Seq<Option<Text>>,
    a: int,
    b: int,
)
    requires
        0 <= a < groups.len(),
        0 <= b < groups.len(),
        0 <= from,
        cols.len() == ka.len(),
        cols.len() == kb.len(),
        forall|c: int|
            0 <= c < cols.len() ==> is_key_column::<N>(d, #[trigger] cols[c], groups, from + c),
        forall|c: int|
            0 <= c < cols.len() ==> #[trigger] ka[c] == slot_lex(d, groups[a].slots@[from + c]),
        forall|c: int|
            0 <= c < cols.len() ==> #[trigger] kb[c] == slot_lex(d, groups[b].slots@[from + c]),
    ensures
        rows_order(cols, a, b) == keys_order(ka, kb),
    decreases cols.len(),
{
    if cols.len() > 0 {
        assert(is_key_column::<N>(d, cols[0], groups, from + 0));
        let v = cols[0].0->Lex_0;
        assert(opt_lex(v@[a]) == ka[0]);
        assert(opt_lex(v@[b]) == kb[0]);
        let rest = cols.drop_first();
        assert forall|c: int| 0 <= c < rest.len() implies is_key_column::<N>(
            d,
            #[trigger] rest[c],
            groups,
            from + 1 + c,
        ) by {
            assert(rest[c] == cols[c + 1]);
            assert(is_key_column::<N>(d, cols[c + 1], groups, from + (c + 1)));
        }
        let (ra, rb) = (ka.drop_first(), kb.drop_first());
        assert forall|c: int| 0 <= c < rest.len() implies #[trigger] ra[c] == slot_lex(
            d,
            groups[a].slots@[from + 1 + c],
        ) by {
            assert(ra[c] == ka[c + 1]);
        }
        assert forall|c: int| 0 <= c < rest.len() implies #[trigger] rb[c] == slot_lex(
            d,
            groups[b].slots@[from + 1 + c],
        ) by {
            assert(rb[c] == kb[c + 1]);
        }
        key_columns_compare_keys::<N>(d, rest, groups, from + 1, ra, rb, a, b);
    }
}

/// Groups a batch by keys and aggregates each group.
#[verifier::rlimit(60)]
pub fn eval_group_native<E: Executor>(
    exec: &E,
    batch: &Batch,
    keys: &Vec<Var>,
    aggregates: &Vec<Aggregate>,
) -> (r: Result<Batch, SparqlError>)
    requires
        batch@.wf(),
    ensures
        r matches Ok(out) ==> group_batch::<E::N>(
            exec.dict(),
            batch@,
            names(keys@),
            aggregates_view(aggregates@),
            out@,
        ) && out@.wf(),
        exec.reliable() ==> r is Ok,
{
    let ghost d = exec.dict();
    let ghost bv = batch@;
    let ghost kv = names(keys@);
    let ghost av = aggregates_view(aggregates@);
    let ghost n = bv.rows.len() as int;
    let ghost gl = group_list(bv, kv);
    let mut groups = collect_groups(batch, keys);
    if keys.len() == 0 && groups.len() == 0 {
        proof {
            deduped_facts(group_ids(bv, kv, n));
            if n > 0 {
                assert(group_ids(bv, kv, n).contains(group_ids(bv, kv, n)[0]));
                assert(grp_ids(groups@).contains(group_ids(bv, kv, n)[0]));
            }
        }
        groups.push(Grp { id: Vec::new(), slots: Row(Vec::new()), at: Vec::new() });
        proof {
            assert(keys_view(groups@[0].id@) =~= Seq::<KeyView>::empty());
            assert(grp_ids(groups@) =~= gl);
            assert(arranged(bv.rows, groups@[0].at@) =~= members(
                bv,
                kv,
                keys_view(groups@[0].id@),
                n,
            ));
            assert(groups@[0].slots@ =~= laid_out(
                bv.schema,
                members(bv, kv, keys_view(groups@[0].id@), n)[0],
                kv,
            ));
        }
    }
    proof {
        assert(grp_ids(groups@) == gl);
        assert forall|g: int| 0 <= g < groups@.len() implies positions_below(
            (#[trigger] groups@[g]).at@,
            n,
        ) && arranged(bv.rows, groups@[g].at@) == members(bv, kv, gl[g], n) && groups@[g].slots@
            == laid_out(bv.schema, members(bv, kv, gl[g], n)[0], kv) by {
            assert(grp_ids(groups@)[g] == keys_view(groups@[g].id@));
            if groups@[g].at@.len() > 0 {
                assert(arranged(bv.rows, groups@[g].at@)[0] == bv.rows[groups@[g].at@[0] as int]);
            }
        }
    }
    let schema = group_output_schema(keys, aggregates);
    let ghost goal = group_rows_of::<E::N>(d, bv, kv, av);
    let mut rows: Vec<Row> = Vec::new();
    let mut g: usize = 0;
    while g < groups.len()
        invariant
            g == rows@.len(),
            g <= groups@.len(),
            d == exec.dict(),
            bv == batch@,
            bv.wf(),
            n == bv.rows.len(),
            kv == names(keys@),
            av == aggregates_view(aggregates@),
            gl == group_list(bv, kv),
            gl.len() == groups@.len(),
            goal == group_rows_of::<E::N>(d, bv, kv, av),
            forall|g: int|
                0 <= g < groups@.len() ==> positions_below((#[trigger] groups@[g]).at@, n)
                    && arranged(bv.rows, groups@[g].at@) == members(bv, kv, gl[g], n)
                    && groups@[g].slots@ == laid_out(
                    bv.schema,
                    members(bv, kv, gl[g], n)[0],
                    kv,
                ),
            forall|q: int| 0 <= q < g ==> (#[trigger] rows@[q])@ == goal[q],
        decreases groups@.len() - g,
    {
        match make_row(exec, batch, &groups[g], aggregates) {
            Ok(row) => {
                assert(row@ =~= group_row::<E::N>(d, bv, kv, av, gl[g as int]));
                rows.push(row);
            },
            Err(e) => return Err(e),
        }
        g = g + 1;
    }
    assert(slot_rows_view(rows@) =~= goal);
    let cols = match key_columns(exec, &groups, keys.len()) {
        Ok(c) => c,
        Err(e) => return Err(e),
    };
    proof {
        assert forall|c: int| 0 <= c < cols@.len() implies (#[trigger] cols@[c]).0.len()
            == groups@.len() && cols@[c].0.total() by {
            assert(is_key_column::<E::N>(d, cols@[c], groups@, c));
        }
        assert(cover(cols@, groups@.len() as int));
        assert(all_total(cols@));
    }
    let order = sorted_order(&cols, groups.len());
    proof {
        let ks = group_keys_of(d, bv, kv);
        assert forall|i: int, j: int| 0 <= i < j < order@.len() implies group_after(
            ks,
            #[trigger] order@[j] as int,
            #[trigger] order@[i] as int,
        ) by {
            let (x, y) = (order@[j] as int, order@[i] as int);
            assert(order@.contains(order@[j]) && order@.contains(order@[i]));
            assert(after(cols@, x, y));
            assert forall|c: int| 0 <= c < cols@.len() implies is_key_column::<E::N>(
                d,
                #[trigger] cols@[c],
                groups@,
                0 + c,
            ) by {
                assert(is_key_column::<E::N>(d, cols@[c], groups@, c));
            }
            key_columns_compare_keys::<E::N>(d, cols@, groups@, 0, ks[x], ks[y], x, y);
        }
        assert forall|i: int| 0 <= i < order@.len() implies #[trigger] order@[i] < rows@.len() by {
            assert(order@.contains(order@[i]));
        }
    }
    let sorted = permute(&rows, &order);
    let out = Batch { schema, rows: sorted };
    proof {
        assert(out@ =~= (BatchView {
            schema: group_schema(kv, av),
            rows: arranged(goal, order@),
        }));
        assert(enumerates_rows(order@, 0, gl.len() as int));
        assert forall|i: int| 0 <= i < out@.rows.len() implies (#[trigger] out@.rows[i]).len()
            == out@.schema.len() by {
            assert(out@.rows[i] == goal[order@[i] as int]);
        }
    }
    Ok(out)
}

}
