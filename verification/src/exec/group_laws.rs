//! What grouping promises: a row for each key, over the rows with that key.

use crate::algebra::{AggregateView, TermView};
use crate::exec::aggregate::{agg_value, count_view, deduped, deduped_facts};
use crate::exec::aggregate_laws::dedup_shortens;
use crate::exec::batch::{
    key_of, row_key, slot_term, BatchView, Dict, KeyView, SlotView,
};
use crate::exec::group::{
    agg_cell, group_after, group_batch, group_id, group_ids, group_key, group_keys_of, group_list,
    group_row, group_rows_of, group_schema, keys_order, members, row_keys, row_solutions,
};
use crate::exec::literal::lex_of;
use crate::exec::number::Numbers;
use crate::exec::operators::{laid_out, value_slot};
use crate::exec::order::arranged;
use crate::exec::sort::enumerates_rows;
use crate::text::{text_order, Order, Text};
use vstd::prelude::*;

verus! {

/// The identity of a row's key.
pub open spec fn key_in(b: BatchView, keys: Seq<Text>, row: Seq<SlotView>) -> Seq<KeyView> {
    row_key(laid_out(b.schema, row, keys))
}

/// The rows of a batch with a key, in order.
pub open spec fn with_key(b: BatchView, keys: Seq<Text>, key: Seq<KeyView>) -> Seq<Seq<SlotView>> {
    b.rows.filter(|row: Seq<SlotView>| key_in(b, keys, row) == key)
}

/// Is this the row of a group: the slots of its key, then its aggregates over
/// the rows with the key?
pub open spec fn is_group_row<N: Numbers>(
    d: Dict,
    b: BatchView,
    keys: Seq<Text>,
    aggs: Seq<AggregateView>,
    key: Seq<KeyView>,
    row: Seq<SlotView>,
) -> bool {
    let ms = with_key(b, keys, key);
    &&& row.len() == keys.len() + aggs.len()
    &&& ms.len() > 0 ==> row.take(keys.len() as int) == laid_out(b.schema, ms[0], keys)
    &&& forall|i: int|
        0 <= i < aggs.len() ==> #[trigger] row[keys.len() + i] == value_slot(
            agg_cell::<N>(d, b.schema, ms, aggs[i]),
        )
}

proof fn members_are_those_with_the_key(
    b: BatchView,
    keys: Seq<Text>,
    id: Seq<KeyView>,
    n: int,
)
    requires
        0 <= n <= b.rows.len(),
    ensures
        members(b, keys, id, n) == b.rows.take(n).filter(
            |row: Seq<SlotView>| key_in(b, keys, row) == id,
        ),
    decreases n,
{
    reveal(Seq::filter);
    let has = |row: Seq<SlotView>| key_in(b, keys, row) == id;
    if n > 0 {
        members_are_those_with_the_key(b, keys, id, n - 1);
        assert(b.rows.take(n).drop_last() =~= b.rows.take(n - 1));
        assert(b.rows.take(n).last() == b.rows[n - 1]);
        assert(group_id(b, keys, n - 1) == key_in(b, keys, b.rows[n - 1]));
    } else {
        assert(members(b, keys, id, n) =~= b.rows.take(n).filter(has));
    }
}

proof fn group_rows_are<N: Numbers>(
    d: Dict,
    b: BatchView,
    keys: Seq<Text>,
    aggs: Seq<AggregateView>,
    id: Seq<KeyView>,
)
    ensures
        is_group_row::<N>(d, b, keys, aggs, id, group_row::<N>(d, b, keys, aggs, id)),
{
    let n = b.rows.len() as int;
    members_are_those_with_the_key(b, keys, id, n);
    assert(b.rows.take(n) =~= b.rows);
    let ms = members(b, keys, id, n);
    let row = group_row::<N>(d, b, keys, aggs, id);
    assert(row.take(keys.len() as int) =~= laid_out(b.schema, ms[0], keys));
}

/// A grouping has a row for each key of a row, and for no other; without keys
/// and without rows it has one. No two of its rows are of one key.
pub proof fn a_grouping_has_a_row_for_each_key<N: Numbers>(
    d: Dict,
    b: BatchView,
    keys: Seq<Text>,
    aggs: Seq<AggregateView>,
    out: BatchView,
)
    requires
        b.rows.len() <= usize::MAX,
        group_batch::<N>(d, b, keys, aggs, out),
    ensures
        out.schema.len() == keys.len() + aggs.len(),
        forall|i: int| 0 <= i < keys.len() ==> #[trigger] out.schema[i] == keys[i],
        forall|i: int| 0 <= i < aggs.len() ==> out.schema[keys.len() + i] == (#[trigger] aggs[i]).out,
        exists|ids: Seq<Seq<KeyView>>| #[trigger]
            ids.no_duplicates() && ids.len() == out.rows.len() && (forall|k: int|
                0 <= k < b.rows.len() ==> ids.contains(key_in(b, keys, #[trigger] b.rows[k]))) && (
            forall|g: int|
                0 <= g < ids.len() ==> is_group_row::<N>(
                    d,
                    b,
                    keys,
                    aggs,
                    #[trigger] ids[g],
                    out.rows[g],
                )) && (if b.rows.len() == 0 && keys.len() == 0 {
                ids.len() == 1
            } else {
                forall|g: int|
                    0 <= g < ids.len() ==> exists|k: int|
                        0 <= k < b.rows.len() && key_in(b, keys, #[trigger] b.rows[k])
                            == #[trigger] ids[g]
            }),
{
    let gl = group_list(b, keys);
    let order = choose|order: Seq<usize>| #[trigger]
        enumerates_rows(order, 0, gl.len() as int) && (forall|i: int, j: int|
            0 <= i < j < order.len() ==> group_after(
                group_keys_of(d, b, keys),
                #[trigger] order[j] as int,
                #[trigger] order[i] as int,
            )) && out == (BatchView {
            schema: group_schema(keys, aggs),
            rows: arranged(group_rows_of::<N>(d, b, keys, aggs), order),
        });
    let ids = Seq::new(order.len(), |g: int| gl[order[g] as int]);
    let all = group_ids(b, keys, b.rows.len() as int);
    deduped_facts(all);
    assert forall|i: int| 0 <= i < order.len() implies (#[trigger] order[i]) < gl.len() by {
        assert(order.contains(order[i]));
    }
    assert(gl.no_duplicates());
    assert(ids.no_duplicates()) by {
        assert forall|i: int, j: int|
            0 <= i < ids.len() && 0 <= j < ids.len() && i != j implies ids[i] != ids[j] by {
            assert(order[i] != order[j]);
        }
    }
    assert forall|k: int| 0 <= k < b.rows.len() implies ids.contains(
        key_in(b, keys, #[trigger] b.rows[k]),
    ) by {
        let id = key_in(b, keys, b.rows[k]);
        assert(all[k] == id);
        assert(all.contains(id));
        dedup_shortens(all);
        assert(gl.contains(id));
        let g = choose|g: int| 0 <= g < gl.len() && gl[g] == id;
        assert(order.contains(g as usize));
        let i = choose|i: int| 0 <= i < order.len() && order[i] == g as usize;
        assert(ids[i] == id);
    }
    assert forall|g: int| 0 <= g < ids.len() implies is_group_row::<N>(
        d,
        b,
        keys,
        aggs,
        #[trigger] ids[g],
        out.rows[g],
    ) by {
        group_rows_are::<N>(d, b, keys, aggs, ids[g]);
        assert(out.rows[g] == group_rows_of::<N>(d, b, keys, aggs)[order[g] as int]);
    }
    if !(b.rows.len() == 0 && keys.len() == 0) {
        assert forall|g: int| 0 <= g < ids.len() implies exists|k: int|
            0 <= k < b.rows.len() && key_in(b, keys, #[trigger] b.rows[k])
                == #[trigger] ids[g] by {
            assert(gl.contains(gl[order[g] as int]));
            assert(all.contains(ids[g]));
            let k = choose|k: int| 0 <= k < all.len() && all[k] == ids[g];
            assert(key_in(b, keys, b.rows[k]) == ids[g]);
        }
    }
    assert(ids.no_duplicates() && ids.len() == out.rows.len());
}

/// `COUNT(*)` of a group is the number of its rows. An aggregate of an
/// expression that is not counted distinctly is that over its solutions.
pub proof fn aggregates_are_over_the_group<N: Numbers>(
    d: Dict,
    schema: Seq<Text>,
    rows: Seq<Seq<SlotView>>,
    agg: AggregateView,
)
    ensures
        agg.func is CountStar && !agg.distinct ==> agg_cell::<N>(d, schema, rows, agg) == Some(
            count_view(rows.len()),
        ),
        !(agg.func is CountStar) && !(agg.func is Count && agg.distinct) ==> agg_cell::<N>(
            d,
            schema,
            rows,
            agg,
        ) == agg_value::<N>(agg, row_solutions(d, schema, rows)),
{
}

/// The groups are in the order of their keys: one key before another where in
/// the first part in which they differ it has none, or the smaller text.
pub proof fn keys_are_in_order(
    a: Seq<Option<Text>>,
    b: Seq<Option<Text>>,
    common: Seq<Option<Text>>,
    x: Option<Text>,
    y: Option<Text>,
)
    requires
        x != y,
    ensures
        x is None ==> keys_order(common + seq![x] + a, common + seq![y] + b) == Order::Less,
        y is None ==> keys_order(common + seq![x] + a, common + seq![y] + b) == Order::Greater,
        x is Some && y is Some ==> keys_order(common + seq![x] + a, common + seq![y] + b)
            == text_order(x->0, y->0),
    decreases common.len(),
{
    let (p, q) = (common + seq![x] + a, common + seq![y] + b);
    if common.len() > 0 {
        let rest = common.drop_first();
        keys_are_in_order(a, b, rest, x, y);
        assert(p[0] == common[0] && q[0] == common[0]);
        assert(p.drop_first() =~= rest + seq![x] + a);
        assert(q.drop_first() =~= rest + seq![y] + b);
        if let Some(t) = common[0] {
            crate::text::text_order_laws(t, t, t);
        }
    } else {
        assert(p[0] == x && q[0] == y);
        if x is Some && y is Some {
            crate::text::text_order_laws(x->0, y->0, y->0);
        }
    }
}

/// The texts of a row's key.
pub open spec fn key_texts(d: Dict, keys: Seq<Text>, row: Seq<SlotView>) -> Seq<Option<Text>> {
    Seq::new(
        keys.len(),
        |c: int|
            match slot_term(d, row[c]) {
                Some(t) => Some(lex_of(t)),
                None => None,
            },
    )
}

/// The rows of a grouping are in the order of the texts of their keys.
pub proof fn groups_are_in_order<N: Numbers>(
    d: Dict,
    b: BatchView,
    keys: Seq<Text>,
    aggs: Seq<AggregateView>,
    out: BatchView,
    i: int,
    j: int,
)
    requires
        group_batch::<N>(d, b, keys, aggs, out),
        0 <= i < j < out.rows.len(),
    ensures
        keys_order(key_texts(d, keys, out.rows[j]), key_texts(d, keys, out.rows[i])) != Order::Less,
{
    let gl = group_list(b, keys);
    let order = choose|order: Seq<usize>| #[trigger]
        enumerates_rows(order, 0, gl.len() as int) && (forall|i: int, j: int|
            0 <= i < j < order.len() ==> group_after(
                group_keys_of(d, b, keys),
                #[trigger] order[j] as int,
                #[trigger] order[i] as int,
            )) && out == (BatchView {
            schema: group_schema(keys, aggs),
            rows: arranged(group_rows_of::<N>(d, b, keys, aggs), order),
        });
    assert forall|k: int| 0 <= k < order.len() implies (#[trigger] order[k]) < gl.len() by {
        assert(order.contains(order[k]));
    }
    assert(group_after(group_keys_of(d, b, keys), order[j] as int, order[i] as int));
    key_texts_are_the_key::<N>(d, b, keys, aggs, gl[order[i] as int]);
    key_texts_are_the_key::<N>(d, b, keys, aggs, gl[order[j] as int]);
}

proof fn key_texts_are_the_key<N: Numbers>(
    d: Dict,
    b: BatchView,
    keys: Seq<Text>,
    aggs: Seq<AggregateView>,
    id: Seq<KeyView>,
)
    ensures
        key_texts(d, keys, group_row::<N>(d, b, keys, aggs, id)) == group_key(d, b, keys, id),
{
    let row = group_row::<N>(d, b, keys, aggs, id);
    let ms = members(b, keys, id, b.rows.len() as int);
    assert forall|c: int| 0 <= c < keys.len() implies row[c] == laid_out(b.schema, ms[0], keys)[c] by {}
    assert(key_texts(d, keys, row) =~= group_key(d, b, keys, id));
}

/// What tells values apart: ids by themselves, computed terms by their lexical
/// forms, and neither is the other or unbound.
pub proof fn values_are_told_apart(a: u64, b: u64, s: TermView, t: TermView)
    ensures
        key_of(SlotView::Id(a)) == key_of(SlotView::Id(b)) <==> a == b,
        key_of(SlotView::Term(s)) == key_of(SlotView::Term(t)) <==> lex_of(s) == lex_of(t),
        key_of(SlotView::Id(a)) != key_of(SlotView::Term(t)),
        key_of(SlotView::Id(a)) != key_of(SlotView::Unbound),
        key_of(SlotView::Term(t)) != key_of(SlotView::Unbound),
{
}

/// `COUNT(DISTINCT *)` of a group is how many different rows it has.
pub proof fn distinct_rows_are_counted<N: Numbers>(
    d: Dict,
    schema: Seq<Text>,
    rows: Seq<Seq<SlotView>>,
    agg: AggregateView,
)
    requires
        agg.func is CountStar,
        agg.distinct,
    ensures
        agg_cell::<N>(d, schema, rows, agg) == Some(
            count_view(
                Seq::new(rows.len(), |i: int| row_key(rows[i])).to_set().len(),
            ),
        ),
{
    let all = row_keys(rows);
    deduped_facts(all);
    deduped(all).unique_seq_to_set();
    assert(deduped(all).to_set() =~= all.to_set()) by {
        assert forall|x: Seq<KeyView>| deduped(all).to_set().contains(x) == all.to_set().contains(
            x,
        ) by {
            assert(deduped(all).contains(x) <==> all.contains(x));
        }
    }
    assert(all =~= Seq::new(rows.len(), |i: int| row_key(rows[i])));
}

}
