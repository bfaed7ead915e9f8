//! `ORDER BY`: resolving sort keys, sorting, and the first rows of a sort.

use crate::algebra::{names, order_keys_view, Expr, ExprView, OrderDir, Term, TermView, Var};
use crate::collections::NameSet;
use crate::error::SparqlError;
use crate::exec::batch::{
    find_column, position_facts, slot_rows_view, slot_term, solution, Batch, BatchView, Dict, Row,
    Slot, SlotView,
};
use crate::exec::bindings::bound_to;
use crate::exec::decode::{decode_slot, row_known, row_value, slot_known};
use crate::exec::executor::Executor;
use crate::exec::expr::{outcome, term_order, value, OutcomeView};
use crate::exec::literal::{number_of, numeric_value, value_of};
use crate::exec::number::Numbers;
use crate::exec::refs::{referenced_vars, refs};
use crate::exec::sort::{
    cover, first_rows, merge_sorted, merged, missing_first, rows_order, sorted_order,
    sorting_is_stable, top_k_order, SortCol, SortVal,
};
use crate::text::{Order, Text};
use vstd::prelude::*;

verus! {

/// The value of a sort key in a row.
pub open spec fn key_value<N: Numbers>(d: Dict, b: BatchView, e: ExprView, k: int) -> Option<
    TermView,
> {
    value::<N>(e, solution(d, b.schema, b.rows[k]))
}

/// How two key values compare: a missing value comes first.
pub open spec fn cell_order<N: Numbers>(a: Option<TermView>, b: Option<TermView>) -> Order {
    missing_first(a, b, term_order::<N>(a->0, b->0))
}

/// Does a resolved column compare the rows as a key does?
pub open spec fn resolves<N: Numbers>(d: Dict, b: BatchView, e: ExprView, col: SortCol<N>) -> bool {
    &&& col.len() == b.rows.len()
    &&& forall|i: int, j: int|
        0 <= i < b.rows.len() && 0 <= j < b.rows.len() ==> #[trigger] col.order(i, j)
            == cell_order::<N>(key_value::<N>(d, b, e, i), key_value::<N>(d, b, e, j))
}

/// Are these columns the keys, resolved?
pub open spec fn resolves_all<N: Numbers>(
    d: Dict,
    b: BatchView,
    keys: Seq<(ExprView, OrderDir)>,
    cols: Seq<(SortCol<N>, OrderDir)>,
) -> bool {
    &&& cols.len() == keys.len()
    &&& forall|i: int|
        0 <= i < cols.len() ==> (#[trigger] cols[i]).1 == keys[i].1 && resolves::<N>(
            d,
            b,
            keys[i].0,
            cols[i].0,
        )
}

/// Rows in a given order.
pub open spec fn arranged(rows: Seq<Seq<SlotView>>, order: Seq<usize>) -> Seq<Seq<SlotView>> {
    Seq::new(order.len(), |i: int| rows[order[i] as int])
}

/// Is `out` the batch sorted by the keys?
pub open spec fn order_batch<N: Numbers>(
    d: Dict,
    b: BatchView,
    keys: Seq<(ExprView, OrderDir)>,
    out: BatchView,
) -> bool {
    exists|cols: Seq<(SortCol<N>, OrderDir)>| #[trigger]
        resolves_all::<N>(d, b, keys, cols) && out == (BatchView {
            schema: b.schema,
            rows: arranged(b.rows, merge_sorted(cols, 0, b.rows.len() as int)),
        })
}

/// Is `out` the first `n` rows of the batch sorted by the keys?
pub open spec fn top_batch<N: Numbers>(
    d: Dict,
    b: BatchView,
    keys: Seq<(ExprView, OrderDir)>,
    n: int,
    out: BatchView,
) -> bool {
    if n <= 0 {
        out == (BatchView { schema: b.schema, rows: Seq::empty() })
    } else {
        exists|cols: Seq<(SortCol<N>, OrderDir)>| #[trigger]
            resolves_all::<N>(d, b, keys, cols) && out == (BatchView {
                schema: b.schema,
                rows: arranged(b.rows, first_rows(cols, b.rows.len() as int, n)),
            })
    }
}

/// Two ways to resolve the same keys sort alike.
proof fn same_comparison<N: Numbers>(
    d: Dict,
    b: BatchView,
    keys: Seq<(ExprView, OrderDir)>,
    x: Seq<(SortCol<N>, OrderDir)>,
    y: Seq<(SortCol<N>, OrderDir)>,
    i: int,
    j: int,
)
    requires
        resolves_all::<N>(d, b, keys, x),
        resolves_all::<N>(d, b, keys, y),
        0 <= i < b.rows.len(),
        0 <= j < b.rows.len(),
    ensures
        rows_order(x, i, j) == rows_order(y, i, j),
    decreases keys.len(),
{
    if keys.len() > 0 {
        assert(x[0].0.order(i, j) == y[0].0.order(i, j)) by {
            assert(resolves::<N>(d, b, keys[0].0, x[0].0));
            assert(resolves::<N>(d, b, keys[0].0, y[0].0));
        }
        assert(x[0].1 == y[0].1);
        let (kr, xr, yr) = (keys.drop_first(), x.drop_first(), y.drop_first());
        assert forall|q: int| 0 <= q < xr.len() implies (#[trigger] xr[q]).1 == kr[q].1
            && resolves::<N>(d, b, kr[q].0, xr[q].0) by {
            assert(xr[q] == x[q + 1] && kr[q] == keys[q + 1]);
        }
        assert forall|q: int| 0 <= q < yr.len() implies (#[trigger] yr[q]).1 == kr[q].1
            && resolves::<N>(d, b, kr[q].0, yr[q].0) by {
            assert(yr[q] == y[q + 1] && kr[q] == keys[q + 1]);
        }
        same_comparison(d, b, kr, xr, yr, i, j);
    }
}

proof fn same_merge<N: Numbers>(
    x: Seq<(SortCol<N>, OrderDir)>,
    y: Seq<(SortCol<N>, OrderDir)>,
    rows: int,
    a: Seq<usize>,
    b: Seq<usize>,
)
    requires
        forall|i: int, j: int|
            0 <= i < rows && 0 <= j < rows ==> #[trigger] rows_order(x, i, j) == rows_order(
                y,
                i,
                j,
            ),
        forall|i: int| 0 <= i < a.len() ==> #[trigger] a[i] < rows,
        forall|i: int| 0 <= i < b.len() ==> #[trigger] b[i] < rows,
    ensures
        merged(x, a, b) == merged(y, a, b),
        forall|i: int| 0 <= i < merged(x, a, b).len() ==> #[trigger] merged(x, a, b)[i] < rows,
    decreases a.len() + b.len(),
{
    if a.len() > 0 && b.len() > 0 {
        assert(rows_order(x, b[0] as int, a[0] as int) == rows_order(y, b[0] as int, a[0] as int));
        same_merge(x, y, rows, a, b.drop_first());
        same_merge(x, y, rows, a.drop_first(), b);
    }
}

proof fn same_sort<N: Numbers>(
    x: Seq<(SortCol<N>, OrderDir)>,
    y: Seq<(SortCol<N>, OrderDir)>,
    rows: int,
    lo: int,
    hi: int,
)
    requires
        forall|i: int, j: int|
            0 <= i < rows && 0 <= j < rows ==> #[trigger] rows_order(x, i, j) == rows_order(
                y,
                i,
                j,
            ),
        0 <= lo <= hi <= rows <= usize::MAX,
    ensures
        merge_sorted(x, lo, hi) == merge_sorted(y, lo, hi),
        forall|i: int|
            0 <= i < merge_sorted(x, lo, hi).len() ==> #[trigger] merge_sorted(x, lo, hi)[i] < rows,
    decreases hi - lo,
{
    if hi > lo + 1 {
        let mid = lo + (hi - lo) / 2;
        same_sort(x, y, rows, lo, mid);
        same_sort(x, y, rows, mid, hi);
        same_merge(x, y, rows, merge_sorted(x, lo, mid), merge_sorted(x, mid, hi));
    }
}

/// The keys determine the sorted batch, whether or not they have a total
/// order.
pub proof fn sort_is_determined_by_the_keys<N: Numbers>(
    d: Dict,
    b: BatchView,
    keys: Seq<(ExprView, OrderDir)>,
    x: BatchView,
    y: BatchView,
)
    requires
        b.rows.len() <= usize::MAX,
        order_batch::<N>(d, b, keys, x),
        order_batch::<N>(d, b, keys, y),
    ensures
        x == y,
{
    let xc = choose|cols: Seq<(SortCol<N>, OrderDir)>| #[trigger]
        resolves_all::<N>(d, b, keys, cols) && x == (BatchView {
            schema: b.schema,
            rows: arranged(b.rows, merge_sorted(cols, 0, b.rows.len() as int)),
        });
    let yc = choose|cols: Seq<(SortCol<N>, OrderDir)>| #[trigger]
        resolves_all::<N>(d, b, keys, cols) && y == (BatchView {
            schema: b.schema,
            rows: arranged(b.rows, merge_sorted(cols, 0, b.rows.len() as int)),
        });
    let n = b.rows.len() as int;
    assert forall|i: int, j: int| 0 <= i < n && 0 <= j < n implies #[trigger] rows_order(xc, i, j)
        == rows_order(yc, i, j) by {
        same_comparison(d, b, keys, xc, yc, i, j);
    }
    same_sort(xc, yc, n, 0, n);
}

/// The first rows of a sort are a prefix of the whole sort.
pub proof fn top_rows_are_a_prefix_of_the_sort<N: Numbers>(
    d: Dict,
    b: BatchView,
    keys: Seq<(ExprView, OrderDir)>,
    n: int,
    top: BatchView,
    full: BatchView,
)
    requires
        0 <= n,
        b.rows.len() <= usize::MAX,
        top_batch::<N>(d, b, keys, n, top),
        order_batch::<N>(d, b, keys, full),
    ensures
        top.schema == full.schema,
        top.rows == (if n < full.rows.len() {
            full.rows.take(n)
        } else {
            full.rows
        }),
{
    let cols = choose|cols: Seq<(SortCol<N>, OrderDir)>| #[trigger]
        resolves_all::<N>(d, b, keys, cols) && (n > 0 ==> top == (BatchView {
            schema: b.schema,
            rows: arranged(b.rows, first_rows(cols, b.rows.len() as int, n)),
        }));
    let whole = BatchView {
        schema: b.schema,
        rows: arranged(b.rows, merge_sorted(cols, 0, b.rows.len() as int)),
    };
    assert(order_batch::<N>(d, b, keys, whole));
    sort_is_determined_by_the_keys::<N>(d, b, keys, whole, full);
    cover_of_resolved(d, b, keys, cols);
    sorting_is_stable(cols, b.rows.len() as int);
    assert(top.rows =~= (if n < full.rows.len() {
        full.rows.take(n)
    } else {
        full.rows
    }));
}

proof fn cover_of_resolved<N: Numbers>(
    d: Dict,
    b: BatchView,
    keys: Seq<(ExprView, OrderDir)>,
    cols: Seq<(SortCol<N>, OrderDir)>,
)
    requires
        resolves_all::<N>(d, b, keys, cols),
    ensures
        cover(cols, b.rows.len() as int),
{
    assert forall|i: int| 0 <= i < cols.len() implies (#[trigger] cols[i]).0.len()
        == b.rows.len() by {
        assert(resolves::<N>(d, b, keys[i].0, cols[i].0));
    }
}

// ── Resolving keys ──────────────────────────────────────────────────────────

/// Does a name stand once in a schema, at position `i`?
pub open spec fn only_at(schema: Seq<Text>, v: Text, i: int) -> bool {
    0 <= i < schema.len() && schema[i] == v && forall|j: int|
        0 <= j < schema.len() && j != i ==> schema[j] != v
}

/// Does an expression name the column `i`, and no other?
pub open spec fn lone_column(e: ExprView, schema: Seq<Text>, i: int) -> bool {
    e is Term && e->Term_0 is Var && only_at(schema, e->Term_0->Var_0, i)
}

/// The column an expression names, when it is a bare variable and names one
/// column only.
pub fn bare_var_col(e: &Expr, schema: &Vec<Var>) -> (r: Option<usize>)
    ensures
        match r {
            Some(i) => lone_column(e@, names(schema@), i as int),
            None => forall|i: int| !lone_column(e@, names(schema@), i),
        },
{
    proof {
        if e@ is Term && e@->Term_0 is Var {
            position_facts(names(schema@), e@->Term_0->Var_0);
        }
    }
    match e {
        Expr::Term(Term::Var(v)) => match find_column(schema, v.name()) {
            Some(i) => {
                let n: usize = schema.len();
                let mut j: usize = i + 1;
                while j < n
                    invariant
                        e@ is Term && e@->Term_0 is Var && e@->Term_0->Var_0 == v@,
                        n == schema@.len(),
                        i < j <= n,
                        names(schema@)[i as int] == v@,
                        forall|k: int| 0 <= k < j && k != i ==> names(schema@)[k] != v@,
                    decreases schema@.len() - j,
                {
                    assert(names(schema@)[j as int] == schema@[j as int]@);
                    if schema[j].same(v) {
                        assert forall|k: int| !lone_column(e@, names(schema@), k) by {
                            if k == i {
                                assert(names(schema@)[j as int] == v@);
                            } else if 0 <= k < n {
                                assert(names(schema@)[i as int] == v@);
                            }
                        }
                        return None;
                    }
                    j = j + 1;
                }
                Some(i)
            },
            None => None,
        },
        _ => None,
    }
}

/// A variable that names one column is bound to that column's term.
pub proof fn lone_column_decides(d: Dict, schema: Seq<Text>, row: Seq<SlotView>, v: Text, i: int)
    requires
        only_at(schema, v, i),
    ensures
        bound_to(solution(d, schema, row), v) == slot_term(d, row[i]),
    decreases schema.len(),
{
    let rest = schema.drop_last();
    let n = schema.len() - 1;
    if i < n {
        assert(only_at(rest, v, i)) by {
            assert(rest[i] == schema[i]);
            assert forall|j: int| 0 <= j < rest.len() && j != i implies rest[j] != v by {
                assert(rest[j] == schema[j]);
            }
        }
        lone_column_decides(d, rest, row, v, i);
        assert(schema[n] != v);
    } else {
        absent_name_is_unbound(d, rest, row, v);
    }
}

/// A name that is no column is unbound.
pub proof fn absent_name_is_unbound(d: Dict, schema: Seq<Text>, row: Seq<SlotView>, v: Text)
    requires
        forall|j: int| 0 <= j < schema.len() ==> schema[j] != v,
    ensures
        !solution(d, schema, row).contains_key(v),
    decreases schema.len(),
{
    if schema.len() > 0 {
        let rest = schema.drop_last();
        assert forall|j: int| 0 <= j < rest.len() implies rest[j] != v by {
            assert(rest[j] == schema[j]);
        }
        absent_name_is_unbound(d, rest, row, v);
        assert(schema[schema.len() - 1] != v);
    }
}

/// Are the terms that the keys read to be had, in every row?
pub open spec fn keys_known<E: Executor>(
    exec: &E,
    b: BatchView,
    keys: Seq<(ExprView, OrderDir)>,
) -> bool {
    forall|c: int, k: int|
        0 <= c < keys.len() && 0 <= k < b.rows.len() ==> #[trigger] row_known(
            exec,
            b.schema,
            b.rows[k],
            refs(keys[c].0),
        )
}

/// Are the terms that one key reads to be had, in every row?
spec fn key_known<E: Executor>(exec: &E, b: BatchView, e: ExprView) -> bool {
    forall|k: int|
        0 <= k < b.rows.len() ==> row_known(exec, b.schema, #[trigger] b.rows[k], refs(e))
}

/// A bare variable reads one column.
proof fn lone_column_read<E: Executor>(
    exec: &E,
    schema: Seq<Text>,
    row: Seq<SlotView>,
    e: ExprView,
    i: int,
)
    requires
        lone_column(e, schema, i),
    ensures
        row_known(exec, schema, row, refs(e)) == slot_known(exec, row[i]),
{
    let v = e->Term_0->Var_0;
    assert(e == ExprView::Term(TermView::Var(v)));
    assert(schema[i] == v);
    assert(refs(e).contains(schema[i]));
}

/// Resolves a bare variable, straight from its column. A column of numbers is
/// read without decoding its terms.
fn slot_sort_col<E: Executor>(exec: &E, batch: &Batch, e: &Expr, idx: usize) -> (r: Result<
    SortCol<E::N>,
    SparqlError,
>)
    requires
        batch@.wf(),
        lone_column(e@, batch@.schema, idx as int),
    ensures
        r matches Ok(c) ==> resolves::<E::N>(exec.dict(), batch@, e@, c),
        r is Ok == key_known(exec, batch@, e@),
        exec.reliable() ==> r is Ok,
{
    let ghost d = exec.dict();
    let ghost bv = batch@;
    let ghost v = e@->Term_0->Var_0;
    proof {
        assert forall|k: int| 0 <= k < bv.rows.len() implies #[trigger] key_value::<E::N>(
            d,
            bv,
            e@,
            k,
        ) == slot_term(d, bv.rows[k][idx as int]) by {
            lone_column_decides(d, bv.schema, bv.rows[k], v, idx as int);
            assert(outcome::<E::N>(e@, solution(d, bv.schema, bv.rows[k])) == OutcomeView::Value(
                bound_to(solution(d, bv.schema, bv.rows[k]), v),
            ));
        }
    }
    proof {
        assert forall|k: int| 0 <= k < bv.rows.len() implies row_known(
            exec,
            bv.schema,
            #[trigger] bv.rows[k],
            refs(e@),
        ) == slot_known(exec, bv.rows[k][idx as int]) by {
            lone_column_read(exec, bv.schema, bv.rows[k], e@, idx as int);
        }
    }
    let mut nums: Vec<Option<<E::N as Numbers>::Num>> = Vec::new();
    let mut numeric = true;
    let mut k: usize = 0;
    while k < batch.rows.len() && numeric
        invariant
            k <= batch.rows@.len(),
            d == exec.dict(),
            bv == batch@,
            bv.wf(),
            idx < bv.schema.len(),
            forall|q: int|
                0 <= q < bv.rows.len() ==> row_known(
                    exec,
                    bv.schema,
                    #[trigger] bv.rows[q],
                    refs(e@),
                ) == slot_known(exec, bv.rows[q][idx as int]),
            numeric ==> forall|q: int|
                0 <= q < k ==> slot_known(exec, (#[trigger] bv.rows[q])[idx as int]),
            numeric ==> nums@.len() == k && forall|q: int|
                0 <= q < k ==> match slot_term(d, (#[trigger] bv.rows[q])[idx as int]) {
                    Some(t) => nums@[q] is Some && nums@[q] == number_of::<E::N>(t),
                    None => nums@[q] is None,
                },
        decreases batch.rows@.len() - k,
    {
        proof {
            assert(bv.rows[k as int].len() == bv.schema.len());
            assert(bv.rows[k as int][idx as int] == batch.rows@[k as int].0@[idx as int]@);
        }
        let slot = &batch.rows[k].0[idx];
        match slot {
            Slot::Unbound => nums.push(None),
            Slot::Id(id) => match exec.decode_numeric(*id) {
                Ok(Some(n)) => nums.push(Some(n)),
                Ok(None) => {
                    numeric = false;
                },
                Err(err) => {
                    assert(!slot_known(exec, bv.rows[k as int][idx as int]));
                    return Err(err);
                },
            },
            Slot::Term(t) => match numeric_value::<E::N>(t) {
                Some(n) => nums.push(Some(n)),
                None => {
                    numeric = false;
                },
            },
        }
        k = k + 1;
    }
    if numeric {
        let col = SortCol::Num(nums);
        proof {
            assert forall|i: int, j: int|
                0 <= i < bv.rows.len() && 0 <= j < bv.rows.len() implies #[trigger] col.order(i, j)
                == cell_order::<E::N>(
                key_value::<E::N>(d, bv, e@, i),
                key_value::<E::N>(d, bv, e@, j),
            ) by {
                assert(key_value::<E::N>(d, bv, e@, i) == slot_term(d, bv.rows[i][idx as int]));
                assert(key_value::<E::N>(d, bv, e@, j) == slot_term(d, bv.rows[j][idx as int]));
            }
        }
        return Ok(col);
    }
    let mut vals: Vec<Option<SortVal<E::N>>> = Vec::new();
    let mut k: usize = 0;
    while k < batch.rows.len()
        invariant
            k == vals@.len(),
            k <= batch.rows@.len(),
            d == exec.dict(),
            bv == batch@,
            bv.wf(),
            idx < bv.schema.len(),
            forall|q: int|
                0 <= q < bv.rows.len() ==> row_known(
                    exec,
                    bv.schema,
                    #[trigger] bv.rows[q],
                    refs(e@),
                ) == slot_known(exec, bv.rows[q][idx as int]),
            forall|q: int|
                0 <= q < k ==> slot_known(exec, (#[trigger] bv.rows[q])[idx as int]),
            forall|q: int|
                0 <= q < k ==> match slot_term(d, (#[trigger] bv.rows[q])[idx as int]) {
                    Some(t) => vals@[q] matches Some(v) && v.num == number_of::<E::N>(t) && v.lex@
                        == value_of(t),
                    None => vals@[q] is None,
                },
        decreases batch.rows@.len() - k,
    {
        proof {
            assert(bv.rows[k as int].len() == bv.schema.len());
            assert(bv.rows[k as int][idx as int] == batch.rows@[k as int].0@[idx as int]@);
        }
        match decode_slot(exec, &batch.rows[k].0[idx]) {
            Ok(Some(t)) => vals.push(Some(SortVal::of(&t))),
            Ok(None) => vals.push(None),
            Err(err) => {
                assert(!slot_known(exec, bv.rows[k as int][idx as int]));
                return Err(err);
            },
        }
        k = k + 1;
    }
    let ghost all = vals@;
    let col = SortCol::classify(vals);
    proof {
        assert forall|i: int, j: int|
            0 <= i < bv.rows.len() && 0 <= j < bv.rows.len() implies #[trigger] col.order(i, j)
            == cell_order::<E::N>(
            key_value::<E::N>(d, bv, e@, i),
            key_value::<E::N>(d, bv, e@, j),
        ) by {
            assert(key_value::<E::N>(d, bv, e@, i) == slot_term(d, bv.rows[i][idx as int]));
            assert(key_value::<E::N>(d, bv, e@, j) == slot_term(d, bv.rows[j][idx as int]));
        }
    }
    Ok(col)
}

/// Resolves a computed key.
fn computed_sort_col<E: Executor>(exec: &E, batch: &Batch, e: &Expr) -> (r: Result<
    SortCol<E::N>,
    SparqlError,
>)
    requires
        batch@.wf(),
    ensures
        r matches Ok(c) ==> resolves::<E::N>(exec.dict(), batch@, e@, c),
        r is Ok == key_known(exec, batch@, e@),
        exec.reliable() ==> r is Ok,
{
    let ghost d = exec.dict();
    let ghost bv = batch@;
    let mut want = NameSet::new();
    referenced_vars(e, &mut want);
    assert(want@ =~= refs(e@));
    let mut vals: Vec<Option<SortVal<E::N>>> = Vec::new();
    let mut k: usize = 0;
    while k < batch.rows.len()
        invariant
            k == vals@.len(),
            k <= batch.rows@.len(),
            d == exec.dict(),
            bv == batch@,
            bv.wf(),
            want@ == refs(e@),
            forall|q: int|
                0 <= q < k ==> row_known(exec, bv.schema, #[trigger] bv.rows[q], refs(e@)),
            forall|q: int|
                0 <= q < k ==> match key_value::<E::N>(d, bv, e@, q) {
                    Some(t) => (#[trigger] vals@[q]) matches Some(v) && v.num == number_of::<E::N>(
                        t,
                    ) && v.lex@ == value_of(t),
                    None => vals@[q] is None,
                },
        decreases batch.rows@.len() - k,
    {
        proof {
            assert(bv.rows[k as int] == batch.rows@[k as int]@);
            assert(bv.rows[k as int].len() == bv.schema.len());
        }
        match row_value(exec, &batch.rows[k], &batch.schema, e, &want) {
            Ok(Some(t)) => vals.push(Some(SortVal::of(&t))),
            Ok(None) => vals.push(None),
            Err(err) => {
                assert(!row_known(exec, bv.schema, bv.rows[k as int], refs(e@)));
                return Err(err);
            },
        }
        k = k + 1;
    }
    let ghost all = vals@;
    let col = SortCol::classify(vals);
    proof {
        assert forall|i: int, j: int|
            0 <= i < bv.rows.len() && 0 <= j < bv.rows.len() implies #[trigger] col.order(i, j)
            == cell_order::<E::N>(
            key_value::<E::N>(d, bv, e@, i),
            key_value::<E::N>(d, bv, e@, j),
        ) by {
            assert(all[i] is Some || all[i] is None);
            assert(all[j] is Some || all[j] is None);
        }
    }
    Ok(col)
}

/// Resolves every key once for every row.
pub fn sort_columns<E: Executor>(exec: &E, batch: &Batch, keys: &Vec<(Expr, OrderDir)>) -> (r: Result<
    Vec<(SortCol<E::N>, OrderDir)>,
    SparqlError,
>)
    requires
        batch@.wf(),
    ensures
        r matches Ok(c) ==> resolves_all::<E::N>(exec.dict(), batch@, order_keys_view(keys@), c@),
        r is Ok == keys_known(exec, batch@, order_keys_view(keys@)),
        exec.reliable() ==> r is Ok,
{
    let ghost d = exec.dict();
    let ghost bv = batch@;
    let ghost kv = order_keys_view(keys@);
    let mut cols: Vec<(SortCol<E::N>, OrderDir)> = Vec::new();
    let mut i: usize = 0;
    while i < keys.len()
        invariant
            i == cols@.len(),
            i <= keys@.len(),
            d == exec.dict(),
            bv == batch@,
            bv.wf(),
            kv == order_keys_view(keys@),
            forall|q: int| 0 <= q < i ==> key_known(exec, bv, (#[trigger] kv[q]).0),
            forall|q: int|
                0 <= q < i ==> (#[trigger] cols@[q]).1 == kv[q].1 && resolves::<E::N>(
                    d,
                    bv,
                    kv[q].0,
                    cols@[q].0,
                ),
        decreases keys@.len() - i,
    {
        let e = &keys[i].0;
        assert(kv[i as int] == (e@, keys@[i as int].1));
        let col = match bare_var_col(e, &batch.schema) {
            Some(idx) => slot_sort_col(exec, batch, e, idx),
            None => computed_sort_col(exec, batch, e),
        };
        match col {
            Ok(c) => cols.push((c, keys[i].1)),
            Err(err) => {
                proof {
                    let k = choose|k: int|
                        0 <= k < bv.rows.len() && !row_known(
                            exec,
                            bv.schema,
                            #[trigger] bv.rows[k],
                            refs(e@),
                        );
                    assert(!row_known(exec, bv.schema, bv.rows[k], refs(kv[i as int].0)));
                }
                return Err(err);
            },
        }
        i = i + 1;
    }
    assert forall|c: int, k: int|
        0 <= c < kv.len() && 0 <= k < bv.rows.len() implies #[trigger] row_known(
        exec,
        bv.schema,
        bv.rows[k],
        refs(kv[c].0),
    ) by {
        assert(key_known(exec, bv, kv[c].0));
        assert(row_known(exec, bv.schema, bv.rows[k], refs(kv[c].0)));
    }
    Ok(cols)
}

/// Rows in a given order.
pub fn permute(rows: &Vec<Row>, order: &Vec<usize>) -> (r: Vec<Row>)
    requires
        forall|i: int| 0 <= i < order@.len() ==> #[trigger] order@[i] < rows@.len(),
    ensures
        slot_rows_view(r@) == arranged(slot_rows_view(rows@), order@),
{
    let ghost rv = slot_rows_view(rows@);
    let mut out: Vec<Row> = Vec::new();
    let mut i: usize = 0;
    while i < order.len()
        invariant
            i == out@.len(),
            i <= order@.len(),
            rv == slot_rows_view(rows@),
            forall|i: int| 0 <= i < order@.len() ==> #[trigger] order@[i] < rows@.len(),
            forall|q: int| 0 <= q < i ==> (#[trigger] out@[q])@ == rv[order@[q] as int],
        decreases order@.len() - i,
    {
        let k: usize = order[i];
        out.push(rows[k].clone());
        i = i + 1;
    }
    assert(slot_rows_view(out@) =~= arranged(rv, order@));
    out
}

proof fn arranged_width(rows: Seq<Seq<SlotView>>, order: Seq<usize>, n: nat)
    requires
        forall|i: int| 0 <= i < order.len() ==> #[trigger] order[i] < rows.len(),
        forall|i: int| 0 <= i < rows.len() ==> (#[trigger] rows[i]).len() == n,
    ensures
        forall|i: int| 0 <= i < order.len() ==> (#[trigger] arranged(rows, order)[i]).len() == n,
{
    assert forall|i: int| 0 <= i < order.len() implies (#[trigger] arranged(rows, order)[i]).len()
        == n by {
        assert(rows[order[i] as int].len() == n);
    }
}

/// Sorts a batch by keys.
pub fn compute_order_by<E: Executor>(exec: &E, batch: Batch, keys: &Vec<(Expr, OrderDir)>) -> (r: Result<
    Batch,
    SparqlError,
>)
    requires
        batch@.wf(),
    ensures
        r matches Ok(b) ==> order_batch::<E::N>(
            exec.dict(),
            batch@,
            order_keys_view(keys@),
            b@,
        ) && b@.wf(),
        r is Ok == keys_known(exec, batch@, order_keys_view(keys@)),
        exec.reliable() ==> r is Ok,
{
    let ghost bv = batch@;
    let cols = match sort_columns(exec, &batch, keys) {
        Ok(c) => c,
        Err(e) => return Err(e),
    };
    proof {
        cover_of_resolved(exec.dict(), bv, order_keys_view(keys@), cols@);
    }
    let order = sorted_order(&cols, batch.rows.len());
    proof {
        assert forall|i: int| 0 <= i < order@.len() implies #[trigger] order@[i]
            < batch.rows@.len() by {
            assert(order@.contains(order@[i]));
        }
        arranged_width(bv.rows, order@, bv.schema.len());
    }
    let rows = permute(&batch.rows, &order);
    let b = Batch { schema: batch.schema, rows };
    assert(b@ =~= (BatchView {
        schema: bv.schema,
        rows: arranged(bv.rows, merge_sorted(cols@, 0, bv.rows.len() as int)),
    }));
    assert(resolves_all::<E::N>(exec.dict(), bv, order_keys_view(keys@), cols@));
    Ok(b)
}

/// The first `n` rows of a batch sorted by keys. It succeeds wherever sorting
/// all of them does. Where every key has a total
/// order, the other rows are not sorted.
pub fn compute_top_k<E: Executor>(
    exec: &E,
    batch: Batch,
    keys: &Vec<(Expr, OrderDir)>,
    n: usize,
) -> (r: Result<Batch, SparqlError>)
    requires
        batch@.wf(),
    ensures
        r matches Ok(b) ==> top_batch::<E::N>(
            exec.dict(),
            batch@,
            order_keys_view(keys@),
            n as int,
            b@,
        ) && b@.wf(),
        r is Ok == (n == 0 || keys_known(exec, batch@, order_keys_view(keys@))),
        exec.reliable() ==> r is Ok,
{
    let ghost bv = batch@;
    let rows: usize = batch.rows.len();
    if n == 0 {
        let none: Vec<Row> = Vec::new();
        let b = Batch { schema: batch.schema, rows: none };
        assert(b@ =~= (BatchView { schema: bv.schema, rows: Seq::empty() }));
        return Ok(b);
    }
    let cols = match sort_columns(exec, &batch, keys) {
        Ok(c) => c,
        Err(e) => return Err(e),
    };
    proof {
        cover_of_resolved(exec.dict(), bv, order_keys_view(keys@), cols@);
        sorting_is_stable(cols@, rows as int);
    }
    let mut total = true;
    let mut i: usize = 0;
    while i < cols.len()
        invariant
            i <= cols@.len(),
            total <==> forall|q: int| 0 <= q < i ==> (#[trigger] cols@[q]).0.total(),
        decreases cols@.len() - i,
    {
        if !cols[i].0.is_total_order() {
            assert(!cols@[i as int].0.total());
            total = false;
        }
        i = i + 1;
    }
    let order: Vec<usize> = if n < rows && total {
        top_k_order(&cols, rows, n)
    } else {
        let mut order = sorted_order(&cols, rows);
        if n < rows {
            order.truncate(n);
        }
        order
    };
    proof {
        let all = merge_sorted(cols@, 0, rows as int);
        assert(order@ =~= first_rows(cols@, rows as int, n as int));
        assert forall|i: int| 0 <= i < order@.len() implies #[trigger] order@[i]
            < batch.rows@.len() by {
            assert(order@[i] == all[i]);
            assert(all.contains(all[i]));
        }
        arranged_width(bv.rows, order@, bv.schema.len());
    }
    let out = permute(&batch.rows, &order);
    let b = Batch { schema: batch.schema, rows: out };
    assert(b@ =~= (BatchView {
        schema: bv.schema,
        rows: arranged(bv.rows, first_rows(cols@, bv.rows.len() as int, n as int)),
    }));
    assert(resolves_all::<E::N>(exec.dict(), bv, order_keys_view(keys@), cols@));
    Ok(b)
}

}
