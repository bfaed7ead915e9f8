//! What sorting promises: every row once, in the order of the keys, and rows
//! with equal keys in the order they had.

use crate::algebra::{ExprView, OrderDir, TermView};
use crate::exec::batch::{BatchView, Dict};
use crate::exec::literal::{integer_view, plain_literal_round_trips, plain_view};
use crate::exec::number::{Numbers, WholeNumbers};
use crate::exec::order::{arranged, cell_order, key_value, order_batch, resolves, resolves_all};
use crate::exec::sort::{
    merge_sorted, merged, preorder_at, rows_order, SortCol,
};
use crate::exec::value_laws::integer_literal_round_trips;
use crate::text::{text_order, trimmed, Order, Text};
use vstd::prelude::*;

verus! {

/// Is every row of one batch a row of the other, each once, by these positions?
pub open spec fn reorders(b: BatchView, out: BatchView, order: Seq<usize>) -> bool {
    &&& out.schema == b.schema
    &&& out.rows.len() == b.rows.len()
    &&& order.len() == b.rows.len()
    &&& order.no_duplicates()
    &&& forall|i: int|
        0 <= i < order.len() ==> (#[trigger] order[i]) < b.rows.len() && out.rows[i]
            == b.rows[order[i] as int]
}

/// Are the values of a key ordered among the rows?
pub open spec fn orderly<N: Numbers>(d: Dict, b: BatchView, e: ExprView) -> bool {
    forall|x: int, y: int, z: int|
        0 <= x < b.rows.len() && 0 <= y < b.rows.len() && 0 <= z < b.rows.len() ==> #[trigger]
            orderly_at::<N>(d, b, e, x, y, z)
}

pub open spec fn orderly_at<N: Numbers>(
    d: Dict,
    b: BatchView,
    e: ExprView,
    x: int,
    y: int,
    z: int,
) -> bool {
    let (p, q, r) = (
        key_value::<N>(d, b, e, x),
        key_value::<N>(d, b, e, y),
        key_value::<N>(d, b, e, z),
    );
    preorder_at(
        cell_order::<N>(p, p),
        cell_order::<N>(p, q),
        cell_order::<N>(q, p),
        cell_order::<N>(q, r),
        cell_order::<N>(p, r),
    )
}

/// How two rows stand in a key, with its direction: the smaller first, or the
/// greater first.
pub open spec fn stands<N: Numbers>(
    d: Dict,
    b: BatchView,
    key: (ExprView, OrderDir),
    x: int,
    y: int,
) -> Order {
    let (p, q) = (key_value::<N>(d, b, key.0, x), key_value::<N>(d, b, key.0, y));
    match key.1 {
        OrderDir::Asc => cell_order::<N>(p, q),
        OrderDir::Desc => cell_order::<N>(q, p),
    }
}

/// Do two rows have equal values in the first keys?
pub open spec fn ties<N: Numbers>(
    d: Dict,
    b: BatchView,
    keys: Seq<(ExprView, OrderDir)>,
    n: int,
    x: int,
    y: int,
) -> bool {
    forall|p: int|
        0 <= p < n ==> stands::<N>(d, b, #[trigger] keys[p], x, y) == Order::Equal
}

proof fn rows_stand<N: Numbers>(
    d: Dict,
    b: BatchView,
    keys: Seq<(ExprView, OrderDir)>,
    cols: Seq<(SortCol<N>, OrderDir)>,
    x: int,
    y: int,
    n: int,
)
    requires
        resolves_all::<N>(d, b, keys, cols),
        forall|p: int| 0 <= p < keys.len() ==> orderly::<N>(d, b, (#[trigger] keys[p]).0),
        0 <= x < b.rows.len(),
        0 <= y < b.rows.len(),
        0 <= n < keys.len(),
        ties::<N>(d, b, keys, n, x, y),
    ensures
        stands::<N>(d, b, keys[n], x, y) != Order::Equal ==> rows_order(cols, x, y) == stands::<N>(
            d,
            b,
            keys[n],
            x,
            y,
        ),
        n == keys.len() - 1 && stands::<N>(d, b, keys[n], x, y) == Order::Equal ==> rows_order(
            cols,
            x,
            y,
        ) == Order::Equal,
    decreases keys.len(),
{
    assert(resolves::<N>(d, b, keys[0].0, cols[0].0) && cols[0].1 == keys[0].1);
    assert(orderly::<N>(d, b, keys[0].0));
    assert(orderly_at::<N>(d, b, keys[0].0, x, y, x));
    assert(orderly_at::<N>(d, b, keys[0].0, y, x, y));
    let o = cols[0].0.order(x, y);
    assert(o == cell_order::<N>(
        key_value::<N>(d, b, keys[0].0, x),
        key_value::<N>(d, b, keys[0].0, y),
    ));
    let (kr, cr) = (keys.drop_first(), cols.drop_first());
    if n > 0 {
        assert(stands::<N>(d, b, keys[0], x, y) == Order::Equal);
        assert(o == Order::Equal);
        assert forall|q: int| 0 <= q < cr.len() implies (#[trigger] cr[q]).1 == kr[q].1
            && resolves::<N>(d, b, kr[q].0, cr[q].0) by {
            assert(cr[q] == cols[q + 1] && kr[q] == keys[q + 1]);
        }
        assert forall|p: int| 0 <= p < kr.len() implies orderly::<N>(d, b, (#[trigger] kr[p]).0) by {
            assert(kr[p] == keys[p + 1]);
        }
        assert forall|p: int| 0 <= p < n - 1 implies stands::<N>(d, b, #[trigger] kr[p], x, y)
            == Order::Equal by {
            assert(kr[p] == keys[p + 1]);
        }
        rows_stand::<N>(d, b, kr, cr, x, y, n - 1);
        assert(kr[n - 1] == keys[n]);
    } else if keys.len() == 1 {
        no_keys_tie(cr, x, y);
    }
}

proof fn no_keys_tie<N: Numbers>(cols: Seq<(SortCol<N>, OrderDir)>, x: int, y: int)
    requires
        cols.len() == 0,
    ensures
        rows_order(cols, x, y) == Order::Equal,
{
}

/// Is the comparison of rows a preorder?
spec fn comparable<N: Numbers>(cols: Seq<(SortCol<N>, OrderDir)>, rows: int) -> bool {
    forall|x: int, y: int, z: int|
        0 <= x < rows && 0 <= y < rows && 0 <= z < rows ==> #[trigger] comparable_at(cols, x, y, z)
}

spec fn comparable_at<N: Numbers>(
    cols: Seq<(SortCol<N>, OrderDir)>,
    x: int,
    y: int,
    z: int,
) -> bool {
    preorder_at(
        rows_order(cols, x, x),
        rows_order(cols, x, y),
        rows_order(cols, y, x),
        rows_order(cols, y, z),
        rows_order(cols, x, z),
    )
}

proof fn keys_make_rows_comparable<N: Numbers>(
    d: Dict,
    b: BatchView,
    keys: Seq<(ExprView, OrderDir)>,
    cols: Seq<(SortCol<N>, OrderDir)>,
    x: int,
    y: int,
    z: int,
)
    requires
        resolves_all::<N>(d, b, keys, cols),
        forall|p: int| 0 <= p < keys.len() ==> orderly::<N>(d, b, (#[trigger] keys[p]).0),
        0 <= x < b.rows.len(),
        0 <= y < b.rows.len(),
        0 <= z < b.rows.len(),
    ensures
        comparable_at(cols, x, y, z),
    decreases keys.len(),
{
    if keys.len() > 0 {
        assert(resolves::<N>(d, b, keys[0].0, cols[0].0) && cols[0].1 == keys[0].1);
        assert(orderly::<N>(d, b, keys[0].0));
        assert(orderly_at::<N>(d, b, keys[0].0, x, y, z));
        assert(orderly_at::<N>(d, b, keys[0].0, y, z, x));
        assert(orderly_at::<N>(d, b, keys[0].0, z, y, x));
        assert(orderly_at::<N>(d, b, keys[0].0, x, z, y));
        let c = cols[0].0;
        assert(c.order(x, x) == cell_order::<N>(
            key_value::<N>(d, b, keys[0].0, x),
            key_value::<N>(d, b, keys[0].0, x),
        ));
        let (kr, cr) = (keys.drop_first(), cols.drop_first());
        assert forall|q: int| 0 <= q < cr.len() implies (#[trigger] cr[q]).1 == kr[q].1
            && resolves::<N>(d, b, kr[q].0, cr[q].0) by {
            assert(cr[q] == cols[q + 1] && kr[q] == keys[q + 1]);
        }
        assert forall|p: int| 0 <= p < kr.len() implies orderly::<N>(d, b, (#[trigger] kr[p]).0) by {
            assert(kr[p] == keys[p + 1]);
        }
        keys_make_rows_comparable::<N>(d, b, kr, cr, x, y, z);
    }
}

/// Are the rows in order, and rows that tie in the order of their positions?
spec fn is_sorted<N: Numbers>(cols: Seq<(SortCol<N>, OrderDir)>, s: Seq<usize>) -> bool {
    forall|i: int, j: int|
        0 <= i < j < s.len() ==> in_place(cols, #[trigger] s[i], #[trigger] s[j])
}

spec fn in_place<N: Numbers>(cols: Seq<(SortCol<N>, OrderDir)>, a: usize, b: usize) -> bool {
    rows_order(cols, a as int, b as int) == Order::Less || (rows_order(cols, a as int, b as int)
        == Order::Equal && a < b)
}

spec fn holds_rows(s: Seq<usize>, lo: int, hi: int) -> bool {
    forall|i: int| 0 <= i < s.len() ==> lo <= (#[trigger] s[i]) < hi
}

proof fn merging_sorts<N: Numbers>(
    cols: Seq<(SortCol<N>, OrderDir)>,
    rows: int,
    a: Seq<usize>,
    b: Seq<usize>,
    lo: int,
    mid: int,
    hi: int,
)
    requires
        comparable(cols, rows),
        is_sorted(cols, a),
        is_sorted(cols, b),
        holds_rows(a, lo, mid),
        holds_rows(b, mid, hi),
        0 <= lo <= mid <= hi <= rows,
    ensures
        is_sorted(cols, merged(cols, a, b)),
        holds_rows(merged(cols, a, b), lo, hi),
        merged(cols, a, b).len() == a.len() + b.len(),
        forall|x: usize| #[trigger] merged(cols, a, b).contains(x) <==> a.contains(x)
            || b.contains(x),
    decreases a.len() + b.len(),
{
    let m = merged(cols, a, b);
    if a.len() == 0 || b.len() == 0 {
    } else {
        let front_b = rows_order(cols, b[0] as int, a[0] as int) == Order::Less;
        let (first, x, y) = if front_b {
            (b[0], a, b.drop_first())
        } else {
            (a[0], a.drop_first(), b)
        };
        let (ra, rb) = (a.drop_first(), b.drop_first());
        assert forall|i: int, j: int| 0 <= i < j < ra.len() implies in_place(
            cols,
            #[trigger] ra[i],
            #[trigger] ra[j],
        ) by {
            assert(ra[i] == a[i + 1] && ra[j] == a[j + 1]);
        }
        assert forall|i: int, j: int| 0 <= i < j < rb.len() implies in_place(
            cols,
            #[trigger] rb[i],
            #[trigger] rb[j],
        ) by {
            assert(rb[i] == b[i + 1] && rb[j] == b[j + 1]);
        }
        assert forall|i: int| 0 <= i < ra.len() implies lo <= (#[trigger] ra[i]) < mid by {
            assert(ra[i] == a[i + 1]);
        }
        assert forall|i: int| 0 <= i < rb.len() implies mid <= (#[trigger] rb[i]) < hi by {
            assert(rb[i] == b[i + 1]);
        }
        merging_sorts(cols, rows, x, y, lo, mid, hi);
        let rest = merged(cols, x, y);
        assert(m =~= seq![first] + rest);
        assert(lo <= a[0] < mid && mid <= b[0] < hi);
        assert forall|v: usize| #[trigger] rest.contains(v) implies in_place(cols, first, v) by {
            if x.contains(v) {
                let i = choose|i: int| 0 <= i < x.len() && x[i] == v;
                if front_b {
                    if i > 0 {
                        assert(in_place(cols, a[0], a[i]));
                    }
                    assert(a[i] < mid);
                    assert(comparable_at(cols, b[0] as int, a[0] as int, a[i] as int));
                } else {
                    assert(v == a[i + 1]);
                    assert(in_place(cols, a[0], a[i + 1]));
                }
            } else {
                let i = choose|i: int| 0 <= i < y.len() && y[i] == v;
                if front_b {
                    assert(v == b[i + 1]);
                    assert(in_place(cols, b[0], b[i + 1]));
                } else {
                    if i > 0 {
                        assert(in_place(cols, b[0], b[i]));
                    }
                    assert(mid <= b[i] < hi);
                    assert(comparable_at(cols, a[0] as int, b[0] as int, b[i] as int));
                    assert(comparable_at(cols, b[0] as int, a[0] as int, b[i] as int));
                }
            }
        }
        assert forall|i: int, j: int| 0 <= i < j < m.len() implies in_place(
            cols,
            #[trigger] m[i],
            #[trigger] m[j],
        ) by {
            assert(m[j] == rest[j - 1]);
            if i == 0 {
                assert(rest.contains(rest[j - 1]));
            } else {
                assert(m[i] == rest[i - 1]);
            }
        }
        assert forall|i: int| 0 <= i < m.len() implies lo <= (#[trigger] m[i]) < hi by {
            if i > 0 {
                assert(m[i] == rest[i - 1]);
            }
        }
        assert forall|v: usize| #[trigger] m.contains(v) <==> a.contains(v) || b.contains(v) by {
            if m.contains(v) {
                let i = choose|i: int| 0 <= i < m.len() && m[i] == v;
                if i > 0 {
                    assert(rest.contains(rest[i - 1]));
                    if x.contains(v) {
                        let k = choose|k: int| 0 <= k < x.len() && x[k] == v;
                        if front_b {
                            assert(a[k] == v);
                        } else {
                            assert(a[k + 1] == v);
                        }
                    } else {
                        let k = choose|k: int| 0 <= k < y.len() && y[k] == v;
                        if front_b {
                            assert(b[k + 1] == v);
                        } else {
                            assert(b[k] == v);
                        }
                    }
                } else if front_b {
                    assert(b[0] == v);
                } else {
                    assert(a[0] == v);
                }
            }
            if a.contains(v) || b.contains(v) {
                if v == first {
                    assert(m[0] == v);
                } else {
                    if a.contains(v) {
                        let k = choose|k: int| 0 <= k < a.len() && a[k] == v;
                        if front_b {
                            assert(x[k] == v);
                        } else {
                            assert(x[k - 1] == v);
                        }
                    } else {
                        let k = choose|k: int| 0 <= k < b.len() && b[k] == v;
                        if front_b {
                            assert(y[k - 1] == v);
                        } else {
                            assert(y[k] == v);
                        }
                    }
                    assert(rest.contains(v));
                    let k = choose|k: int| 0 <= k < rest.len() && rest[k] == v;
                    assert(m[k + 1] == v);
                }
            }
        }
    }
}

proof fn sorting_sorts<N: Numbers>(
    cols: Seq<(SortCol<N>, OrderDir)>,
    rows: int,
    lo: int,
    hi: int,
)
    requires
        comparable(cols, rows),
        0 <= lo <= hi <= rows <= usize::MAX,
    ensures
        is_sorted(cols, merge_sorted(cols, lo, hi)),
        holds_rows(merge_sorted(cols, lo, hi), lo, hi),
        merge_sorted(cols, lo, hi).len() == hi - lo,
    decreases hi - lo,
{
    if hi > lo + 1 {
        let mid = lo + (hi - lo) / 2;
        sorting_sorts(cols, rows, lo, mid);
        sorting_sorts(cols, rows, mid, hi);
        merging_sorts(
            cols,
            rows,
            merge_sorted(cols, lo, mid),
            merge_sorted(cols, mid, hi),
            lo,
            mid,
            hi,
        );
    }
}

/// A sort has every row once. Of two rows the one comes first that stands first
/// in the first key in which they differ, by that key's direction; rows that tie
/// in every key keep their order.
pub proof fn a_sort_goes_by_its_keys<N: Numbers>(
    d: Dict,
    b: BatchView,
    keys: Seq<(ExprView, OrderDir)>,
    out: BatchView,
)
    requires
        b.rows.len() <= usize::MAX,
        order_batch::<N>(d, b, keys, out),
        forall|p: int| 0 <= p < keys.len() ==> orderly::<N>(d, b, (#[trigger] keys[p]).0),
    ensures
        exists|order: Seq<usize>| #[trigger]
            reorders(b, out, order) && (forall|i: int, j: int, n: int|
                0 <= i < j < order.len() && 0 <= n < keys.len() && ties::<N>(
                    d,
                    b,
                    keys,
                    n,
                    #[trigger] order[i] as int,
                    #[trigger] order[j] as int,
                ) ==> stands::<N>(
                    d,
                    b,
                    #[trigger] keys[n],
                    order[i] as int,
                    order[j] as int,
                ) != Order::Greater) && (forall|i: int, j: int|
                0 <= i < j < order.len() && ties::<N>(
                    d,
                    b,
                    keys,
                    keys.len() as int,
                    #[trigger] order[i] as int,
                    #[trigger] order[j] as int,
                ) ==> order[i] < order[j]),
{
    let cols = choose|cols: Seq<(SortCol<N>, OrderDir)>| #[trigger]
        resolves_all::<N>(d, b, keys, cols) && out == (BatchView {
            schema: b.schema,
            rows: arranged(b.rows, merge_sorted(cols, 0, b.rows.len() as int)),
        });
    let rows = b.rows.len() as int;
    let order = merge_sorted(cols, 0, rows);
    assert forall|x: int, y: int, z: int|
        0 <= x < rows && 0 <= y < rows && 0 <= z < rows implies #[trigger] comparable_at(
        cols,
        x,
        y,
        z,
    ) by {
        keys_make_rows_comparable::<N>(d, b, keys, cols, x, y, z);
    }
    sorting_sorts(cols, rows, 0, rows);
    assert forall|i: int, j: int| 0 <= i < order.len() && 0 <= j < order.len() && i
        != j implies order[i] != order[j] by {
        if i < j {
            assert(in_place(cols, order[i], order[j]));
            assert(comparable_at(cols, order[i] as int, order[j] as int, order[i] as int));
        } else {
            assert(in_place(cols, order[j], order[i]));
            assert(comparable_at(cols, order[j] as int, order[i] as int, order[j] as int));
        }
    }
    assert(reorders(b, out, order));
    assert forall|i: int, j: int, n: int|
        0 <= i < j < order.len() && 0 <= n < keys.len() && ties::<N>(
            d,
            b,
            keys,
            n,
            #[trigger] order[i] as int,
            #[trigger] order[j] as int,
        ) implies stands::<N>(d, b, #[trigger] keys[n], order[i] as int, order[j] as int)
        != Order::Greater by {
        assert(in_place(cols, order[i], order[j]));
        rows_stand::<N>(d, b, keys, cols, order[i] as int, order[j] as int, n);
    }
    assert forall|i: int, j: int|
        0 <= i < j < order.len() && ties::<N>(
            d,
            b,
            keys,
            keys.len() as int,
            #[trigger] order[i] as int,
            #[trigger] order[j] as int,
        ) implies order[i] < order[j] by {
        assert(in_place(cols, order[i], order[j]));
        if keys.len() > 0 {
            let n = keys.len() - 1;
            assert(stands::<N>(d, b, keys[n], order[i] as int, order[j] as int) == Order::Equal);
            rows_stand::<N>(d, b, keys, cols, order[i] as int, order[j] as int, n);
        } else {
            no_keys_tie(cols, order[i] as int, order[j] as int);
        }
    }
}

/// A missing value comes before all others. Integers are ordered as integers,
/// and texts one of which is no number by their first difference.
pub proof fn values_are_ordered<N: Numbers>(t: TermView, m: i64, n: i64, x: Text, y: Text)
    ensures
        cell_order::<N>(None, Some(t)) == Order::Less,
        cell_order::<N>(Some(t), None) == Order::Greater,
        cell_order::<N>(None, None) == Order::Equal,
        ({
            let o = cell_order::<WholeNumbers>(
                Some(integer_view(m as int)),
                Some(integer_view(n as int)),
            );
            &&& o == Order::Less <==> m < n
            &&& o == Order::Greater <==> m > n
        }),
        N::parsed(trimmed(x)) is None || N::parsed(trimmed(y)) is None ==> cell_order::<N>(
            Some(plain_view(x)),
            Some(plain_view(y)),
        ) == text_order(x, y),
{
    integer_literal_round_trips(m);
    integer_literal_round_trips(n);
    plain_literal_round_trips(x);
    plain_literal_round_trips(y);
}

}
