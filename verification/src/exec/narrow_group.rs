//! Grouping reads its keys and what its aggregates name.

use crate::algebra::{AggFuncView, AggregateView, ExprView};
use crate::exec::aggregate::{agg_value, deduped, deduped_facts, present_values};
use crate::exec::batch::{solution, BatchView, Dict, KeyView, SlotView};
use crate::exec::group::{
    agg_cell, column_keys, group_batch, group_id, group_ids, group_key, group_keys_of, group_list,
    group_row, group_rows_of, members, row_keys, row_solutions,
};
use crate::exec::join::cell;
use crate::exec::narrow::{
    cell_at, identity_agrees, lists_agree, lists_drop_last, narrows, repeated, rows_agree,
    schemas_agree, value_agrees,
};
use crate::exec::number::Numbers;
use crate::exec::operators::laid_out;
use crate::exec::order::{lone_column, only_at};
use crate::exec::refs::{agg_operand, agg_refs, refs};
use crate::plan::passes::projection_pushdown::{all_agg_refs, counts_distinct_rows};
use crate::text::Text;
use vstd::prelude::*;

verus! {

/// What a grouping reads: its keys and what its aggregates name, or every
/// column where it counts distinct rows.
pub open spec fn reads_of_group(
    keys: Seq<Text>,
    aggs: Seq<AggregateView>,
    want: Set<Text>,
) -> bool {
    &&& keys.to_set().subset_of(want)
    &&& all_agg_refs(aggs).subset_of(want)
    &&& counts_distinct_rows(aggs) ==> want == Set::<Text>::full()
}

/// Is a column whose distinct values an aggregate counts named only once?
pub open spec fn counts_one_column(s: Seq<Text>, agg: AggregateView) -> bool {
    agg.distinct ==> match agg.func {
        AggFuncView::Count(e) => e is Term && e->Term_0 is Var ==> !repeated(
            s,
            e->Term_0->Var_0,
        ),
        _ => true,
    }
}

/// Are all columns whose distinct values are counted named only once?
pub open spec fn counts_columns(s: Seq<Text>, aggs: Seq<AggregateView>) -> bool {
    forall|i: int| 0 <= i < aggs.len() ==> counts_one_column(s, #[trigger] aggs[i])
}

/// The names aggregates read are those each of them reads.
proof fn aggregates_read(aggs: Seq<AggregateView>, i: int)
    requires
        0 <= i < aggs.len(),
    ensures
        agg_refs(aggs[i].func).subset_of(all_agg_refs(aggs)),
    decreases aggs.len(),
{
    if i < aggs.len() - 1 {
        aggregates_read(aggs.drop_last(), i);
        assert(aggs.drop_last()[i] == aggs[i]);
    }
}

proof fn keys_agree(
    s: Seq<Text>,
    r: Seq<SlotView>,
    t: Seq<Text>,
    q: Seq<SlotView>,
    want: Set<Text>,
    keys: Seq<Text>,
)
    requires
        rows_agree(s, r, t, q, want),
        keys.to_set().subset_of(want),
    ensures
        laid_out(s, r, keys) == laid_out(t, q, keys),
{
    assert forall|c: int| 0 <= c < keys.len() implies laid_out(s, r, keys)[c] == laid_out(
        t,
        q,
        keys,
    )[c] by {
        assert(keys.contains(keys[c]));
        assert(keys.to_set().contains(keys[c]));
        assert(cell(s, r, keys[c]) == cell(t, q, keys[c]));
    }
    assert(laid_out(s, r, keys) =~= laid_out(t, q, keys));
}

proof fn members_agree(
    a: BatchView,
    b: BatchView,
    want: Set<Text>,
    keys: Seq<Text>,
    id: Seq<KeyView>,
    n: int,
)
    requires
        narrows(a, b, want),
        keys.to_set().subset_of(want),
        n <= a.rows.len(),
    ensures
        lists_agree(a.schema, members(a, keys, id, n), b.schema, members(b, keys, id, n), want),
    decreases n,
{
    if n > 0 {
        members_agree(a, b, want, keys, id, n - 1);
        assert(rows_agree(a.schema, a.rows[n - 1], b.schema, b.rows[n - 1], want));
        keys_agree(a.schema, a.rows[n - 1], b.schema, b.rows[n - 1], want, keys);
    }
}

proof fn groups_agree(a: BatchView, b: BatchView, want: Set<Text>, keys: Seq<Text>)
    requires
        narrows(a, b, want),
        keys.to_set().subset_of(want),
    ensures
        group_list(a, keys) == group_list(b, keys),
{
    let n = a.rows.len() as int;
    assert forall|k: int| 0 <= k < n implies group_ids(a, keys, n)[k] == group_ids(b, keys, n)[k] by {
        assert(rows_agree(a.schema, a.rows[k], b.schema, b.rows[k], want));
        keys_agree(a.schema, a.rows[k], b.schema, b.rows[k], want, keys);
    }
    assert(group_ids(a, keys, n) =~= group_ids(b, keys, n));
}

/// Sequences whose items repeat alike have as many distinct items.
proof fn as_many_distinct<A, B>(x: Seq<A>, y: Seq<B>)
    requires
        x.len() == y.len(),
        forall|i: int, j: int|
            0 <= i < x.len() && 0 <= j < x.len() ==> (#[trigger] x[i] == #[trigger] x[j]) == (y[i]
                == y[j]),
    ensures
        deduped(x).len() == deduped(y).len(),
    decreases x.len(),
{
    if x.len() > 0 {
        let (p, q) = (x.drop_last(), y.drop_last());
        let last = x.len() - 1;
        assert forall|i: int, j: int| 0 <= i < p.len() && 0 <= j < p.len() implies (#[trigger] p[i]
            == #[trigger] p[j]) == (q[i] == q[j]) by {
            assert(p[i] == x[i] && p[j] == x[j]);
            assert(q[i] == y[i] && q[j] == y[j]);
        }
        as_many_distinct(p, q);
        deduped_facts(p);
        deduped_facts(q);
        if p.contains(x.last()) {
            let i = choose|i: int| 0 <= i < p.len() && p[i] == x.last();
            assert(x[i] == x[last]);
            assert(q[i] == y.last());
        }
        if q.contains(y.last()) {
            let i = choose|i: int| 0 <= i < q.len() && q[i] == y.last();
            assert(y[i] == y[last]);
            assert(x[i] == x[last]);
            assert(p[i] == x.last());
        }
    }
}

proof fn values_agree<N: Numbers>(
    d: Dict,
    s: Seq<Text>,
    a: Seq<Seq<SlotView>>,
    t: Seq<Text>,
    b: Seq<Seq<SlotView>>,
    want: Set<Text>,
    e: ExprView,
)
    requires
        schemas_agree(s, t, want),
        lists_agree(s, a, t, b, want),
        refs(e).subset_of(want),
    ensures
        present_values::<N>(e, row_solutions(d, s, a)) == present_values::<N>(
            e,
            row_solutions(d, t, b),
        ),
    decreases a.len(),
{
    if a.len() > 0 {
        lists_drop_last(s, a, t, b, want);
        values_agree::<N>(d, s, a.drop_last(), t, b.drop_last(), want, e);
        value_agrees::<N>(d, s, a.last(), t, b.last(), want, e);
        assert(row_solutions(d, s, a).drop_last() =~= row_solutions(d, s, a.drop_last()));
        assert(row_solutions(d, t, b).drop_last() =~= row_solutions(d, t, b.drop_last()));
        assert(row_solutions(d, s, a).last() == solution(d, s, a.last()));
        assert(row_solutions(d, t, b).last() == solution(d, t, b.last()));
    }
}

proof fn column_keys_agree(
    s: Seq<Text>,
    a: Seq<Seq<SlotView>>,
    i: int,
    t: Seq<Text>,
    b: Seq<Seq<SlotView>>,
    j: int,
    want: Set<Text>,
)
    requires
        schemas_agree(s, t, want),
        lists_agree(s, a, t, b, want),
        0 <= i < s.len(),
        0 <= j < t.len(),
        s[i] == t[j],
        want.contains(s[i]),
    ensures
        column_keys(a, i) == column_keys(b, j),
    decreases a.len(),
{
    if a.len() > 0 {
        lists_drop_last(s, a, t, b, want);
        column_keys_agree(s, a.drop_last(), i, t, b.drop_last(), j, want);
        cell_at(s, a.last(), i);
        cell_at(t, b.last(), j);
        assert(cell(s, a.last(), s[i]) == cell(t, b.last(), s[i]));
    }
}

/// A name that stands once stands nowhere else.
proof fn only_there(s: Seq<Text>, i: int)
    requires
        0 <= i < s.len(),
        !repeated(s, s[i]),
    ensures
        only_at(s, s[i], i),
{
    assert forall|j: int| 0 <= j < s.len() && j != i implies s[j] != s[i] by {
        if s[j] == s[i] {
            let n = s[i];
            if i < j {
                assert(s[i] == n && s[j] == n);
            } else {
                assert(s[j] == n && s[i] == n);
            }
            assert(repeated(s, n));
        }
    }
}

/// An aggregate has one value over members that agree on what it reads.
proof fn aggregate_agrees<N: Numbers>(
    d: Dict,
    s: Seq<Text>,
    a: Seq<Seq<SlotView>>,
    t: Seq<Text>,
    b: Seq<Seq<SlotView>>,
    want: Set<Text>,
    agg: AggregateView,
)
    requires
        schemas_agree(s, t, want),
        lists_agree(s, a, t, b, want),
        agg_refs(agg.func).subset_of(want),
        agg.func is CountStar && agg.distinct ==> want == Set::<Text>::full(),
        counts_one_column(s, agg),
        counts_one_column(t, agg),
    ensures
        agg_cell::<N>(d, s, a, agg) == agg_cell::<N>(d, t, b, agg),
{
    match agg_operand(agg.func) {
        None => {
            if agg.distinct {
                let (x, y) = (row_keys(a), row_keys(b));
                assert forall|i: int, j: int| 0 <= i < x.len() && 0 <= j < x.len() implies (
                #[trigger] x[i] == #[trigger] x[j]) == (y[i] == y[j]) by {
                    assert(rows_agree(s, a[i], t, b[i], want));
                    assert(rows_agree(s, a[j], t, b[j], want));
                    identity_agrees(s, a[i], a[j], t, b[i], b[j]);
                }
                as_many_distinct(x, y);
            }
        },
        Some(e) => {
            values_agree::<N>(d, s, a, t, b, want, e);
            assert(agg_value::<N>(agg, row_solutions(d, s, a)) == agg_value::<N>(
                agg,
                row_solutions(d, t, b),
            ));
            if agg.func is Count && agg.distinct {
                if exists|i: int| lone_column(e, s, i) {
                    let i = choose|i: int| lone_column(e, s, i);
                    assert(refs(e).contains(s[i]));
                    assert(want.contains(s[i]));
                    assert(s.contains(s[i]));
                    assert(t.contains(s[i]));
                    let j = choose|j: int| 0 <= j < t.len() && t[j] == s[i];
                    only_there(t, j);
                    assert(lone_column(e, t, j));
                    let k = choose|k: int| lone_column(e, t, k);
                    assert(k == j);
                    column_keys_agree(s, a, i, t, b, j, want);
                } else if exists|j: int| lone_column(e, t, j) {
                    let j = choose|j: int| lone_column(e, t, j);
                    assert(refs(e).contains(t[j]));
                    assert(want.contains(t[j]));
                    assert(t.contains(t[j]));
                    assert(s.contains(t[j]));
                    let i = choose|i: int| 0 <= i < s.len() && s[i] == t[j];
                    only_there(s, i);
                    assert(lone_column(e, s, i));
                }
            }
        },
    }
}

/// A group of the list has members.
proof fn group_has_members(b: BatchView, keys: Seq<Text>, id: Seq<KeyView>, k: int, n: int)
    requires
        0 <= k < n <= b.rows.len(),
        group_id(b, keys, k) == id,
    ensures
        members(b, keys, id, n).len() > 0,
    decreases n,
{
    if k < n - 1 {
        group_has_members(b, keys, id, k, n - 1);
    }
}

/// A group has one output row and one key, whichever of two batches that agree
/// it is taken from.
proof fn group_agrees<N: Numbers>(
    d: Dict,
    a: BatchView,
    b: BatchView,
    want: Set<Text>,
    keys: Seq<Text>,
    aggs: Seq<AggregateView>,
    g: int,
)
    requires
        narrows(a, b, want),
        reads_of_group(keys, aggs, want),
        counts_columns(a.schema, aggs),
        counts_columns(b.schema, aggs),
        0 <= g < group_list(a, keys).len(),
    ensures
        ({
            let id = group_list(a, keys)[g];
            &&& group_row::<N>(d, a, keys, aggs, id) == group_row::<N>(d, b, keys, aggs, id)
            &&& group_key(d, a, keys, id) == group_key(d, b, keys, id)
        }),
{
    let n = a.rows.len() as int;
    let id = group_list(a, keys)[g];
    let (ma, mb) = (members(a, keys, id, n), members(b, keys, id, n));
    members_agree(a, b, want, keys, id, n);
    if keys.len() == 0 {
        assert(laid_out(a.schema, ma[0], keys) =~= laid_out(b.schema, mb[0], keys));
    } else {
        deduped_facts(group_ids(a, keys, n));
        assert(deduped(group_ids(a, keys, n)).contains(id));
        let k = choose|k: int| 0 <= k < n && group_ids(a, keys, n)[k] == id;
        group_has_members(a, keys, id, k, n);
        assert(rows_agree(a.schema, ma[0], b.schema, mb[0], want));
        keys_agree(a.schema, ma[0], b.schema, mb[0], want, keys);
    }
    assert forall|i: int| 0 <= i < aggs.len() implies agg_cell::<N>(
        d,
        a.schema,
        ma,
        #[trigger] aggs[i],
    ) == agg_cell::<N>(d, b.schema, mb, aggs[i]) by {
        aggregates_read(aggs, i);
        aggregate_agrees::<N>(d, a.schema, ma, b.schema, mb, want, aggs[i]);
    }
    assert(group_row::<N>(d, a, keys, aggs, id) =~= group_row::<N>(d, b, keys, aggs, id));
    assert(group_key(d, a, keys, id) =~= group_key(d, b, keys, id));
}

/// Groupings of batches that agree on what is read are the same.
pub proof fn group_is_determined<N: Numbers>(
    d: Dict,
    a: BatchView,
    b: BatchView,
    want: Set<Text>,
    keys: Seq<Text>,
    aggs: Seq<AggregateView>,
    out: BatchView,
)
    requires
        narrows(a, b, want),
        reads_of_group(keys, aggs, want),
        counts_columns(a.schema, aggs),
        counts_columns(b.schema, aggs),
    ensures
        group_batch::<N>(d, a, keys, aggs, out) == group_batch::<N>(d, b, keys, aggs, out),
{
    groups_agree(a, b, want, keys);
    let gl = group_list(a, keys);
    assert forall|g: int| 0 <= g < gl.len() implies group_row::<N>(
        d,
        a,
        keys,
        aggs,
        #[trigger] gl[g],
    ) == group_row::<N>(d, b, keys, aggs, gl[g]) && group_key(d, a, keys, gl[g]) == group_key(
        d,
        b,
        keys,
        gl[g],
    ) by {
        group_agrees::<N>(d, a, b, want, keys, aggs, g);
    }
    assert(group_rows_of::<N>(d, a, keys, aggs) =~= group_rows_of::<N>(d, b, keys, aggs));
    assert(group_keys_of(d, a, keys) =~= group_keys_of(d, b, keys));
}

}
