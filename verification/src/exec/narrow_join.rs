//! Joins, differences and unions read no column their sides do not share.

use crate::algebra::ExprView;
use crate::exec::batch::{position, position_facts, slot_term, BatchView, Dict, SlotView};
use crate::exec::join::{
    bound_in, candidates, cell, excluded, force_rows, forced, forced_columns, fully_bound,
    has_term, is_join_column, join_batch, joined_rows, left_join_batch, left_joined_rows,
    merged_slot, minus_batch, optional_rows, remaining_rows, slots_equal, split,
    unbound_row, Sides,
};
use crate::exec::narrow::{
    cell_at, cell_is_some, lists_agree, lists_drop_last, narrows, one_valued, repeated, rows_agree,
    satisfying_agrees, schemas_agree,
};
use crate::exec::number::Numbers;
use crate::exec::operators::{has_id, laid_out, laid_out_all, mixed_columns, union_batch};
use crate::exec::refs::refs;
use crate::plan::passes::add_all_unique;
use crate::text::Text;
use vstd::prelude::*;

verus! {

/// Adding names adds those that are new.
pub proof fn added_names(s: Seq<Text>, t: Seq<Text>)
    ensures
        forall|n: Text| #[trigger] add_all_unique(s, t).contains(n) <==> s.contains(n)
            || t.contains(n),
        forall|n: Text| #[trigger] repeated(add_all_unique(s, t), n) <==> repeated(s, n),
        s.no_duplicates() ==> add_all_unique(s, t).no_duplicates(),
    decreases t.len(),
{
    if t.len() > 0 {
        let rest = t.drop_last();
        let v = t.last();
        let m = add_all_unique(s, rest);
        let out = add_all_unique(s, t);
        added_names(s, rest);
        assert forall|n: Text| #[trigger] out.contains(n) <==> s.contains(n) || t.contains(n) by {
            if t.contains(n) {
                let k = choose|k: int| 0 <= k < t.len() && t[k] == n;
                if k < rest.len() {
                    assert(rest[k] == n);
                    assert(rest.contains(n));
                }
            }
            if rest.contains(n) {
                let k = choose|k: int| 0 <= k < rest.len() && rest[k] == n;
                assert(t[k] == n);
            }
            assert(t[t.len() - 1] == v);
            if m.contains(n) {
                let k = choose|k: int| 0 <= k < m.len() && m[k] == n;
                assert(out[k] == n);
            }
            if !m.contains(v) {
                assert(out[m.len() as int] == v);
            }
            if out.contains(n) && !m.contains(n) {
                let k = choose|k: int| 0 <= k < out.len() && out[k] == n;
                if k < m.len() {
                    assert(m[k] == n);
                }
            }
        }
        assert forall|n: Text| repeated(s, n) implies #[trigger] repeated(out, n) by {
            assert(repeated(m, n));
            let (i, j) = choose|i: int, j: int|
                0 <= i < j < m.len() && #[trigger] m[i] == n && #[trigger] m[j] == n;
            assert(out[i] == n && out[j] == n);
        }
        assert forall|n: Text| #[trigger] repeated(out, n) implies repeated(s, n) by {
            let (i, j) = choose|i: int, j: int|
                0 <= i < j < out.len() && #[trigger] out[i] == n && #[trigger] out[j] == n;
            assert(m[i] == n);
            assert(m.contains(n));
            assert(m[j] == n);
            assert(repeated(m, n));
        }
    }
}

/// Schemas that agree still do with more names added on both sides.
proof fn added_agree(s: Seq<Text>, t: Seq<Text>, u: Seq<Text>, v: Seq<Text>, want: Set<Text>)
    requires
        schemas_agree(s, t, want),
        schemas_agree(u, v, want),
    ensures
        schemas_agree(add_all_unique(s, u), add_all_unique(t, v), want),
{
    added_names(s, u);
    added_names(t, v);
}

/// The slot of a merged pair of rows under a name.
pub open spec fn merged(
    d: Dict,
    s: Sides,
    a: Seq<SlotView>,
    b: Seq<SlotView>,
    n: Text,
) -> Option<SlotView> {
    merged_slot(d, cell(s.left, a, n), cell(s.right, b, n))
}

/// Do the sides of two joins agree, and on every name the wider sides share?
spec fn sides_agree(x: Sides, y: Sides, want: Set<Text>) -> bool {
    &&& schemas_agree(x.left, y.left, want)
    &&& schemas_agree(x.right, y.right, want)
    &&& forall|n: Text| #[trigger] y.left.contains(n) && y.right.contains(n) ==> want.contains(n)
}

/// Rows are compatible or not on either pair of sides, and merge alike.
proof fn merge_agrees(
    d: Dict,
    x: Sides,
    a: Seq<SlotView>,
    b: Seq<SlotView>,
    y: Sides,
    p: Seq<SlotView>,
    q: Seq<SlotView>,
    want: Set<Text>,
)
    requires
        sides_agree(x, y, want),
        rows_agree(x.left, a, y.left, p, want),
        rows_agree(x.right, b, y.right, q, want),
    ensures
        x.compatible(d, a, b) == y.compatible(d, p, q),
        x.compatible(d, a, b) ==> rows_agree(
            x.out(),
            x.merge(d, a, b)->0,
            y.out(),
            y.merge(d, p, q)->0,
            want,
        ),
{
    added_names(x.left, x.right);
    added_names(y.left, y.right);
    added_agree(x.left, y.left, x.right, y.right, want);
    assert forall|n: Text| want.contains(n) implies #[trigger] merged(d, x, a, b, n) == merged(
        d,
        y,
        p,
        q,
        n,
    ) by {
        assert(cell(x.left, a, n) == cell(y.left, p, n));
        assert(cell(x.right, b, n) == cell(y.right, q, n));
    }
    if y.compatible(d, p, q) {
        assert forall|c: int| 0 <= c < x.out().len() implies (#[trigger] x.slot(
            d,
            a,
            b,
            c,
        )) is Some by {
            let n = x.out()[c];
            assert(x.out().contains(n));
            assert(y.out().contains(n));
            let e = choose|e: int| 0 <= e < y.out().len() && y.out()[e] == n;
            assert(y.slot(d, p, q, e) is Some);
            cell_is_some(x.left, a, n);
            cell_is_some(x.right, b, n);
            if want.contains(n) {
                assert(merged(d, x, a, b, n) == merged(d, y, p, q, n));
            }
        }
    }
    if x.compatible(d, a, b) {
        assert forall|c: int| 0 <= c < y.out().len() implies (#[trigger] y.slot(
            d,
            p,
            q,
            c,
        )) is Some by {
            let n = y.out()[c];
            assert(y.out().contains(n));
            cell_is_some(y.left, p, n);
            cell_is_some(y.right, q, n);
            if want.contains(n) {
                assert(x.out().contains(n));
                let e = choose|e: int| 0 <= e < x.out().len() && x.out()[e] == n;
                assert(x.slot(d, a, b, e) is Some);
                assert(merged(d, x, a, b, n) == merged(d, y, p, q, n));
            }
        }
        let (m, w) = (x.merge(d, a, b)->0, y.merge(d, p, q)->0);
        merged_is_one_valued(d, x, a, b);
        merged_is_one_valued(d, y, p, q);
        assert forall|n: Text| want.contains(n) implies #[trigger] cell(x.out(), m, n) == cell(
            y.out(),
            w,
            n,
        ) by {
            merged_cell(d, x, a, b, n);
            merged_cell(d, y, p, q, n);
            assert(merged(d, x, a, b, n) == merged(d, y, p, q, n));
        }
    }
}

/// A merged row holds one thing under one name.
proof fn merged_is_one_valued(d: Dict, s: Sides, a: Seq<SlotView>, b: Seq<SlotView>)
    requires
        s.compatible(d, a, b),
    ensures
        one_valued(s.out(), s.merge(d, a, b)->0),
{
    let m = s.merge(d, a, b)->0;
    assert forall|i: int, j: int|
        0 <= i < s.out().len() && 0 <= j < s.out().len() && #[trigger] s.out()[i]
            == #[trigger] s.out()[j] implies m[i] == m[j] by {
        assert(s.slot(d, a, b, i) == s.slot(d, a, b, j));
    }
}

/// The cell of a merged row.
pub proof fn merged_cell(d: Dict, s: Sides, a: Seq<SlotView>, b: Seq<SlotView>, n: Text)
    requires
        s.compatible(d, a, b),
    ensures
        cell(s.out(), s.merge(d, a, b)->0, n) == (if s.out().contains(n) {
            merged(d, s, a, b, n)
        } else {
            None
        }),
{
    let m = s.merge(d, a, b)->0;
    cell_is_some(s.out(), m, n);
    if s.out().contains(n) {
        position_facts(s.out(), n);
        let c = position(s.out(), n)->0;
        assert(s.slot(d, a, b, c) is Some);
    }
}

proof fn merge_all_agrees(
    d: Dict,
    x: Sides,
    a: Seq<SlotView>,
    rows: Seq<Seq<SlotView>>,
    y: Sides,
    p: Seq<SlotView>,
    others: Seq<Seq<SlotView>>,
    want: Set<Text>,
)
    requires
        sides_agree(x, y, want),
        rows_agree(x.left, a, y.left, p, want),
        lists_agree(x.right, rows, y.right, others, want),
    ensures
        lists_agree(x.out(), x.merge_all(d, a, rows), y.out(), y.merge_all(d, p, others), want),
    decreases rows.len(),
{
    if rows.len() > 0 {
        lists_drop_last(x.right, rows, y.right, others, want);
        merge_all_agrees(d, x, a, rows.drop_last(), y, p, others.drop_last(), want);
        merge_agrees(d, x, a, rows.last(), y, p, others.last(), want);
    }
}

// ── The order rows are held against each other ──────────────────────────────

/// Is a name shared, and bound in some row of the right side?
spec fn joins_on(left: Seq<Text>, right: BatchView, n: Text) -> bool {
    left.contains(n) && exists|k: int|
        0 <= k < right.rows.len() && bound_in(right.schema, #[trigger] right.rows[k], n)
}

/// Is a row bound under every name a join is on?
spec fn bound_wherever_joined(
    left: Seq<Text>,
    right: BatchView,
    schema: Seq<Text>,
    row: Seq<SlotView>,
) -> bool {
    forall|n: Text| #[trigger] joins_on(left, right, n) ==> bound_in(schema, row, n)
}

proof fn fully_bound_by_name(
    left: Seq<Text>,
    right: BatchView,
    schema: Seq<Text>,
    row: Seq<SlotView>,
)
    requires
        right.wf(),
        forall|k: int|
            0 <= k < right.rows.len() ==> one_valued(right.schema, #[trigger] right.rows[k]),
    ensures
        fully_bound(left, right, schema, row) == bound_wherever_joined(left, right, schema, row),
{
    if fully_bound(left, right, schema, row) {
        assert forall|n: Text| #[trigger] joins_on(left, right, n) implies bound_in(
            schema,
            row,
            n,
        ) by {
            let k = choose|k: int|
                0 <= k < right.rows.len() && bound_in(right.schema, #[trigger] right.rows[k], n);
            position_facts(right.schema, n);
            let i = position(right.schema, n)->0;
            assert(!(right.rows[k][i] is Unbound));
            assert(is_join_column(left, right, i));
        }
    }
    if bound_wherever_joined(left, right, schema, row) {
        assert forall|i: int|
            0 <= i < right.schema.len() && #[trigger] is_join_column(left, right, i) implies bound_in(
            schema,
            row,
            right.schema[i],
        ) by {
            let k = choose|k: int|
                0 <= k < right.rows.len() && !((#[trigger] right.rows[k])[i] is Unbound);
            cell_at(right.schema, right.rows[k], i);
            assert(bound_in(right.schema, right.rows[k], right.schema[i]));
            assert(joins_on(left, right, right.schema[i]));
        }
    }
}

/// Batches whose sides agree on what they share.
spec fn joinable(
    a: BatchView,
    b: BatchView,
    p: BatchView,
    q: BatchView,
    want: Set<Text>,
) -> bool {
    &&& narrows(a, p, want)
    &&& narrows(b, q, want)
    &&& sides_agree(
        Sides { left: a.schema, right: b.schema },
        Sides { left: p.schema, right: q.schema },
        want,
    )
}

proof fn fully_bound_agrees(
    a: BatchView,
    b: BatchView,
    p: BatchView,
    q: BatchView,
    want: Set<Text>,
    s: Seq<Text>,
    r: Seq<SlotView>,
    t: Seq<Text>,
    u: Seq<SlotView>,
)
    requires
        joinable(a, b, p, q, want),
        rows_agree(s, r, t, u, want),
    ensures
        fully_bound(a.schema, b, s, r) == fully_bound(p.schema, q, t, u),
{
    assert forall|k: int| 0 <= k < b.rows.len() implies one_valued(b.schema, #[trigger] b.rows[k])
        && b.rows[k].len() == b.schema.len() by {
        assert(rows_agree(b.schema, b.rows[k], q.schema, q.rows[k], want));
    }
    assert forall|k: int| 0 <= k < q.rows.len() implies one_valued(q.schema, #[trigger] q.rows[k])
        && q.rows[k].len() == q.schema.len() by {
        assert(rows_agree(b.schema, b.rows[k], q.schema, q.rows[k], want));
    }
    fully_bound_by_name(a.schema, b, s, r);
    fully_bound_by_name(p.schema, q, t, u);
    assert forall|n: Text| #[trigger] joins_on(a.schema, b, n) == joins_on(p.schema, q, n) by {
        if joins_on(a.schema, b, n) {
            let k = choose|k: int|
                0 <= k < b.rows.len() && bound_in(b.schema, #[trigger] b.rows[k], n);
            cell_is_some(b.schema, b.rows[k], n);
            assert(p.schema.contains(n) && q.schema.contains(n));
            assert(want.contains(n));
            assert(rows_agree(b.schema, b.rows[k], q.schema, q.rows[k], want));
            assert(cell(b.schema, b.rows[k], n) == cell(q.schema, q.rows[k], n));
            assert(bound_in(q.schema, q.rows[k], n));
        }
        if joins_on(p.schema, q, n) {
            let k = choose|k: int|
                0 <= k < q.rows.len() && bound_in(q.schema, #[trigger] q.rows[k], n);
            cell_is_some(q.schema, q.rows[k], n);
            assert(p.schema.contains(n) && q.schema.contains(n));
            assert(want.contains(n));
            assert(a.schema.contains(n));
            assert(rows_agree(b.schema, b.rows[k], q.schema, q.rows[k], want));
            assert(cell(b.schema, b.rows[k], n) == cell(q.schema, q.rows[k], n));
            assert(bound_in(b.schema, b.rows[k], n));
        }
    }
    assert forall|n: Text| #[trigger] joins_on(p.schema, q, n) implies bound_in(s, r, n) == bound_in(
        t,
        u,
        n,
    ) by {
        let k = choose|k: int|
            0 <= k < q.rows.len() && bound_in(q.schema, #[trigger] q.rows[k], n);
        cell_is_some(q.schema, q.rows[k], n);
        assert(p.schema.contains(n) && q.schema.contains(n));
        assert(want.contains(n));
        assert(cell(s, r, n) == cell(t, u, n));
    }
    if bound_wherever_joined(p.schema, q, t, u) {
        assert forall|n: Text| #[trigger] joins_on(a.schema, b, n) implies bound_in(s, r, n) by {
            assert(joins_on(p.schema, q, n));
        }
    }
    if bound_wherever_joined(a.schema, b, s, r) {
        assert forall|n: Text| #[trigger] joins_on(p.schema, q, n) implies bound_in(t, u, n) by {
            assert(joins_on(a.schema, b, n));
        }
    }
}

proof fn split_agrees(
    a: BatchView,
    b: BatchView,
    p: BatchView,
    q: BatchView,
    want: Set<Text>,
    n: int,
    bound: bool,
)
    requires
        joinable(a, b, p, q, want),
        n <= b.rows.len(),
    ensures
        lists_agree(
            b.schema,
            split(a.schema, b, n, bound),
            q.schema,
            split(p.schema, q, n, bound),
            want,
        ),
    decreases n,
{
    if n > 0 {
        split_agrees(a, b, p, q, want, n - 1, bound);
        let (r, u) = (b.rows[n - 1], q.rows[n - 1]);
        assert(rows_agree(b.schema, r, q.schema, u, want));
        fully_bound_agrees(a, b, p, q, want, b.schema, r, q.schema, u);
    }
}

proof fn candidates_agree(
    a: BatchView,
    b: BatchView,
    p: BatchView,
    q: BatchView,
    want: Set<Text>,
    k: int,
)
    requires
        joinable(a, b, p, q, want),
        0 <= k < a.rows.len(),
    ensures
        lists_agree(
            b.schema,
            candidates(a.schema, b, a.rows[k]),
            q.schema,
            candidates(p.schema, q, p.rows[k]),
            want,
        ),
{
    let n = b.rows.len() as int;
    assert(rows_agree(a.schema, a.rows[k], p.schema, p.rows[k], want));
    fully_bound_agrees(a, b, p, q, want, a.schema, a.rows[k], p.schema, p.rows[k]);
    split_agrees(a, b, p, q, want, n, true);
    split_agrees(a, b, p, q, want, n, false);
    let (f, g) = (split(a.schema, b, n, true), split(p.schema, q, n, true));
    let (e, h) = (split(a.schema, b, n, false), split(p.schema, q, n, false));
    lists_join(b.schema, f, e, q.schema, g, h, want);
}

/// Lists that agree, end to end, agree.
pub proof fn lists_join(
    s: Seq<Text>,
    a: Seq<Seq<SlotView>>,
    b: Seq<Seq<SlotView>>,
    t: Seq<Text>,
    p: Seq<Seq<SlotView>>,
    q: Seq<Seq<SlotView>>,
    want: Set<Text>,
)
    requires
        lists_agree(s, a, t, p, want),
        lists_agree(s, b, t, q, want),
    ensures
        lists_agree(s, a + b, t, p + q, want),
{
    let (x, y) = (a + b, p + q);
    assert forall|k: int| 0 <= k < x.len() implies rows_agree(s, #[trigger] x[k], t, y[k], want) by {
        if k < a.len() {
            assert(x[k] == a[k] && y[k] == p[k]);
        } else {
            assert(x[k] == b[k - a.len()] && y[k] == q[k - a.len()]);
        }
    }
}

// ── Joins ───────────────────────────────────────────────────────────────────

proof fn joined_agree(
    d: Dict,
    a: BatchView,
    b: BatchView,
    p: BatchView,
    q: BatchView,
    want: Set<Text>,
    n: int,
)
    requires
        joinable(a, b, p, q, want),
        n <= a.rows.len(),
    ensures
        lists_agree(
            (Sides { left: a.schema, right: b.schema }).out(),
            joined_rows(d, a, b, n),
            (Sides { left: p.schema, right: q.schema }).out(),
            joined_rows(d, p, q, n),
            want,
        ),
    decreases n,
{
    if n > 0 {
        let x = Sides { left: a.schema, right: b.schema };
        let y = Sides { left: p.schema, right: q.schema };
        joined_agree(d, a, b, p, q, want, n - 1);
        let (r, u) = (a.rows[n - 1], p.rows[n - 1]);
        assert(rows_agree(a.schema, r, p.schema, u, want));
        candidates_agree(a, b, p, q, want, n - 1);
        let (c, e) = (candidates(a.schema, b, r), candidates(p.schema, q, u));
        merge_all_agrees(d, x, r, c, y, u, e, want);
        lists_join(
            x.out(),
            joined_rows(d, a, b, n - 1),
            x.merge_all(d, r, c),
            y.out(),
            joined_rows(d, p, q, n - 1),
            y.merge_all(d, u, e),
            want,
        );
    }
}

/// Does a column of a name hold a computed term?
spec fn name_has_term(b: BatchView, n: Text) -> bool {
    exists|k: int|
        0 <= k < b.rows.len() && holds_term(cell(b.schema, #[trigger] b.rows[k], n))
}

spec fn holds_term(c: Option<SlotView>) -> bool {
    c is Some && c->0 is Term
}

proof fn name_has_term_agrees(a: BatchView, b: BatchView, want: Set<Text>, n: Text)
    requires
        narrows(a, b, want),
        want.contains(n),
    ensures
        name_has_term(a, n) == name_has_term(b, n),
{
    assert forall|k: int| 0 <= k < a.rows.len() implies cell(a.schema, #[trigger] a.rows[k], n)
        == cell(b.schema, b.rows[k], n) by {
        assert(rows_agree(a.schema, a.rows[k], b.schema, b.rows[k], want));
    }
    if name_has_term(a, n) {
        let k = choose|k: int|
            0 <= k < a.rows.len() && holds_term(cell(a.schema, #[trigger] a.rows[k], n));
        assert(cell(b.schema, b.rows[k], n) == cell(a.schema, a.rows[k], n));
    }
    if name_has_term(b, n) {
        let k = choose|k: int|
            0 <= k < b.rows.len() && holds_term(cell(b.schema, #[trigger] b.rows[k], n));
        assert(cell(b.schema, b.rows[k], n) == cell(a.schema, a.rows[k], n));
    }
}

/// Does every row of a batch hold one thing under one name?
spec fn all_one_valued(b: BatchView) -> bool {
    forall|k: int| 0 <= k < b.rows.len() ==> one_valued(b.schema, #[trigger] b.rows[k])
}

proof fn agreeing_is_one_valued(a: BatchView, b: BatchView, want: Set<Text>)
    requires
        narrows(a, b, want),
    ensures
        all_one_valued(a),
        all_one_valued(b),
{
    assert forall|k: int| 0 <= k < a.rows.len() implies one_valued(a.schema, #[trigger] a.rows[k])
        && one_valued(b.schema, b.rows[k]) by {
        assert(rows_agree(a.schema, a.rows[k], b.schema, b.rows[k], want));
    }
    assert forall|k: int| 0 <= k < b.rows.len() implies one_valued(b.schema, #[trigger] b.rows[k]) by {
        assert(one_valued(a.schema, a.rows[k]));
    }
}

proof fn has_term_by_name(b: BatchView, i: int)
    requires
        all_one_valued(b),
        0 <= i < b.schema.len(),
    ensures
        has_term(b.rows, i) == name_has_term(b, b.schema[i]),
{
    assert forall|k: int| 0 <= k < b.rows.len() implies cell(
        b.schema,
        #[trigger] b.rows[k],
        b.schema[i],
    ) == Some(b.rows[k][i]) by {
        cell_at(b.schema, b.rows[k], i);
    }
}

/// The columns of a join that hold terms only, by name.
proof fn forced_by_name(a: BatchView, b: BatchView, c: int)
    requires
        all_one_valued(a),
        all_one_valued(b),
        0 <= c < forced_columns(a, b).len(),
    ensures
        ({
            let n = (Sides { left: a.schema, right: b.schema }).out()[c];
            forced(a, b, c) == (a.schema.contains(n) && b.schema.contains(n) && (name_has_term(a, n)
                || name_has_term(b, n)))
        }),
{
    let n = (Sides { left: a.schema, right: b.schema }).out()[c];
    position_facts(a.schema, n);
    position_facts(b.schema, n);
    if let (Some(l), Some(r)) = (position(a.schema, n), position(b.schema, n)) {
        has_term_by_name(a, l);
        has_term_by_name(b, r);
    }
}

/// Are columns of one name marked alike?
spec fn marks_agree(s: Seq<Text>, f: Seq<bool>, t: Seq<Text>, g: Seq<bool>, want: Set<Text>) -> bool {
    forall|i: int, j: int|
        0 <= i < s.len() && 0 <= j < t.len() && #[trigger] s[i] == #[trigger] t[j] && want.contains(
            s[i],
        ) ==> f[i] == g[j]
}

/// Are the columns of one name all marked, or none?
spec fn marks_by_name(s: Seq<Text>, f: Seq<bool>) -> bool {
    forall|i: int, j: int|
        0 <= i < s.len() && 0 <= j < s.len() && #[trigger] s[i] == #[trigger] s[j] ==> f[i] == f[j]
}

/// Decoding the same columns of lists that agree leaves them in agreement.
proof fn forced_rows_agree(
    d: Dict,
    s: Seq<Text>,
    a: Seq<Seq<SlotView>>,
    f: Seq<bool>,
    t: Seq<Text>,
    b: Seq<Seq<SlotView>>,
    g: Seq<bool>,
    want: Set<Text>,
)
    requires
        schemas_agree(s, t, want),
        lists_agree(s, a, t, b, want),
        f.len() == s.len(),
        g.len() == t.len(),
        marks_by_name(s, f),
        marks_by_name(t, g),
        marks_agree(s, f, t, g, want),
    ensures
        lists_agree(s, force_rows(d, a, f), t, force_rows(d, b, g), want),
{
    let (x, y) = (force_rows(d, a, f), force_rows(d, b, g));
    assert forall|k: int| 0 <= k < x.len() implies rows_agree(s, #[trigger] x[k], t, y[k], want) by {
        assert(rows_agree(s, a[k], t, b[k], want));
        forced_is_one_valued(d, s, a, f, k);
        forced_is_one_valued(d, t, b, g, k);
        assert forall|n: Text| want.contains(n) implies #[trigger] cell(s, x[k], n) == cell(
            t,
            y[k],
            n,
        ) by {
            assert(cell(s, a[k], n) == cell(t, b[k], n));
            position_facts(s, n);
            position_facts(t, n);
            if let (Some(i), Some(j)) = (position(s, n), position(t, n)) {
                assert(s[i] == t[j]);
                assert(f[i] == g[j]);
                assert(a[k][i] == b[k][j]);
            }
        }
    }
}

proof fn forced_is_one_valued(
    d: Dict,
    s: Seq<Text>,
    rows: Seq<Seq<SlotView>>,
    f: Seq<bool>,
    k: int,
)
    requires
        0 <= k < rows.len(),
        rows[k].len() == s.len(),
        one_valued(s, rows[k]),
        f.len() == s.len(),
        marks_by_name(s, f),
    ensures
        one_valued(s, force_rows(d, rows, f)[k]),
{
    let x = force_rows(d, rows, f)[k];
    assert forall|i: int, j: int|
        0 <= i < s.len() && 0 <= j < s.len() && #[trigger] s[i] == #[trigger] s[j] implies x[i]
        == x[j] by {
        assert(f[i] == f[j]);
        assert(rows[k][i] == rows[k][j]);
    }
}

/// A join decodes all columns of a name, or none.
proof fn forced_columns_by_name(a: BatchView, b: BatchView)
    requires
        all_one_valued(a),
        all_one_valued(b),
    ensures
        marks_by_name((Sides { left: a.schema, right: b.schema }).out(), forced_columns(a, b)),
{
    let s = (Sides { left: a.schema, right: b.schema }).out();
    let f = forced_columns(a, b);
    assert forall|i: int, j: int|
        0 <= i < s.len() && 0 <= j < s.len() && #[trigger] s[i] == #[trigger] s[j] implies f[i]
        == f[j] by {
        forced_by_name(a, b, i);
        forced_by_name(a, b, j);
    }
}

proof fn forced_columns_agree(
    a: BatchView,
    b: BatchView,
    p: BatchView,
    q: BatchView,
    want: Set<Text>,
)
    requires
        joinable(a, b, p, q, want),
    ensures
        marks_agree(
            (Sides { left: a.schema, right: b.schema }).out(),
            forced_columns(a, b),
            (Sides { left: p.schema, right: q.schema }).out(),
            forced_columns(p, q),
            want,
        ),
        marks_by_name((Sides { left: a.schema, right: b.schema }).out(), forced_columns(a, b)),
        marks_by_name((Sides { left: p.schema, right: q.schema }).out(), forced_columns(p, q)),
{
    agreeing_is_one_valued(a, p, want);
    agreeing_is_one_valued(b, q, want);
    forced_columns_by_name(a, b);
    forced_columns_by_name(p, q);
    let s = (Sides { left: a.schema, right: b.schema }).out();
    let t = (Sides { left: p.schema, right: q.schema }).out();
    let (f, g) = (forced_columns(a, b), forced_columns(p, q));
    assert forall|i: int, j: int|
        0 <= i < s.len() && 0 <= j < t.len() && #[trigger] s[i] == #[trigger] t[j] && want.contains(
            s[i],
        ) implies f[i] == g[j] by {
        let n = s[i];
        forced_by_name(a, b, i);
        forced_by_name(p, q, j);
        name_has_term_agrees(a, p, want, n);
        name_has_term_agrees(b, q, want, n);
    }
}

/// A join reads what its sides share.
pub proof fn join_narrows(
    d: Dict,
    a: BatchView,
    b: BatchView,
    p: BatchView,
    q: BatchView,
    want: Set<Text>,
)
    requires
        narrows(a, p, want),
        narrows(b, q, want),
        forall|n: Text| #[trigger] p.schema.contains(n) && q.schema.contains(n) ==> want.contains(
            n,
        ),
    ensures
        narrows(join_batch(d, a, b), join_batch(d, p, q), want),
{
    added_agree(a.schema, p.schema, b.schema, q.schema, want);
    joined_agree(d, a, b, p, q, want, a.rows.len() as int);
    forced_columns_agree(a, b, p, q, want);
    forced_rows_agree(
        d,
        (Sides { left: a.schema, right: b.schema }).out(),
        joined_rows(d, a, b, a.rows.len() as int),
        forced_columns(a, b),
        (Sides { left: p.schema, right: q.schema }).out(),
        joined_rows(d, p, q, p.rows.len() as int),
        forced_columns(p, q),
        want,
    );
}

/// A row that is unbound throughout is compatible with any.
proof fn unbound_is_compatible(d: Dict, s: Sides, a: Seq<SlotView>)
    ensures
        s.compatible(d, a, unbound_row(s.right.len())),
{
    let b = unbound_row(s.right.len());
    assert forall|c: int| 0 <= c < s.out().len() implies (#[trigger] s.slot(d, a, b, c)) is Some by {
        position_facts(s.right, s.out()[c]);
    }
}

proof fn unbound_rows_agree(s: Seq<Text>, t: Seq<Text>, want: Set<Text>)
    requires
        schemas_agree(s, t, want),
    ensures
        rows_agree(s, unbound_row(s.len()), t, unbound_row(t.len()), want),
{
    let (r, q) = (unbound_row(s.len()), unbound_row(t.len()));
    assert forall|n: Text| want.contains(n) implies #[trigger] cell(s, r, n) == cell(t, q, n) by {
        position_facts(s, n);
        position_facts(t, n);
        assert(s.contains(n) == t.contains(n));
        if let (Some(i), Some(j)) = (position(s, n), position(t, n)) {
            assert(r[i] == q[j]);
        }
    }
}

proof fn left_joined_agree<N: Numbers>(
    d: Dict,
    a: BatchView,
    b: BatchView,
    p: BatchView,
    q: BatchView,
    want: Set<Text>,
    cond: Option<ExprView>,
    n: int,
)
    requires
        joinable(a, b, p, q, want),
        cond matches Some(e) ==> refs(e).subset_of(want),
        n <= a.rows.len(),
    ensures
        lists_agree(
            (Sides { left: a.schema, right: b.schema }).out(),
            left_joined_rows::<N>(d, a, b, cond, n),
            (Sides { left: p.schema, right: q.schema }).out(),
            left_joined_rows::<N>(d, p, q, cond, n),
            want,
        ),
    decreases n,
{
    if n > 0 {
        let x = Sides { left: a.schema, right: b.schema };
        let y = Sides { left: p.schema, right: q.schema };
        left_joined_agree::<N>(d, a, b, p, q, want, cond, n - 1);
        let (r, u) = (a.rows[n - 1], p.rows[n - 1]);
        assert(rows_agree(a.schema, r, p.schema, u, want));
        candidates_agree(a, b, p, q, want, n - 1);
        let (c, e) = (candidates(a.schema, b, r), candidates(p.schema, q, u));
        merge_all_agrees(d, x, r, c, y, u, e, want);
        added_agree(a.schema, p.schema, b.schema, q.schema, want);
        satisfying_agrees::<N>(
            d,
            x.out(),
            x.merge_all(d, r, c),
            y.out(),
            y.merge_all(d, u, e),
            want,
            cond,
        );
        unbound_rows_agree(b.schema, q.schema, want);
        unbound_is_compatible(d, x, r);
        merge_agrees(
            d,
            x,
            r,
            unbound_row(b.schema.len()),
            y,
            u,
            unbound_row(q.schema.len()),
            want,
        );
        lists_join(
            x.out(),
            left_joined_rows::<N>(d, a, b, cond, n - 1),
            optional_rows::<N>(d, a.schema, b, r, cond),
            y.out(),
            left_joined_rows::<N>(d, p, q, cond, n - 1),
            optional_rows::<N>(d, p.schema, q, u, cond),
            want,
        );
    }
}

/// An optional match reads what its sides share and what its condition names.
pub proof fn left_join_narrows<N: Numbers>(
    d: Dict,
    a: BatchView,
    b: BatchView,
    p: BatchView,
    q: BatchView,
    want: Set<Text>,
    cond: Option<ExprView>,
)
    requires
        narrows(a, p, want),
        narrows(b, q, want),
        forall|n: Text| #[trigger] p.schema.contains(n) && q.schema.contains(n) ==> want.contains(
            n,
        ),
        cond matches Some(e) ==> refs(e).subset_of(want),
    ensures
        narrows(
            left_join_batch::<N>(d, a, b, cond),
            left_join_batch::<N>(d, p, q, cond),
            want,
        ),
{
    added_agree(a.schema, p.schema, b.schema, q.schema, want);
    left_joined_agree::<N>(d, a, b, p, q, want, cond, a.rows.len() as int);
    forced_columns_agree(a, b, p, q, want);
    forced_rows_agree(
        d,
        (Sides { left: a.schema, right: b.schema }).out(),
        left_joined_rows::<N>(d, a, b, cond, a.rows.len() as int),
        forced_columns(a, b),
        (Sides { left: p.schema, right: q.schema }).out(),
        left_joined_rows::<N>(d, p, q, cond, p.rows.len() as int),
        forced_columns(p, q),
        want,
    );
}

// ── Differences ─────────────────────────────────────────────────────────────

/// Does a right row exclude a left row? By name: they agree wherever both are
/// bound, and are both bound somewhere.
spec fn excludes_by_name(d: Dict, s: Sides, a: Seq<SlotView>, b: Seq<SlotView>) -> bool {
    &&& forall|n: Text| #[trigger] meet(s, a, b, n) ==> slots_equal(
        d,
        cell(s.left, a, n)->0,
        cell(s.right, b, n)->0,
    )
    &&& exists|n: Text| #[trigger] meet(s, a, b, n)
}

/// Are both rows bound under a name?
spec fn meet(s: Sides, a: Seq<SlotView>, b: Seq<SlotView>, n: Text) -> bool {
    bound_in(s.left, a, n) && bound_in(s.right, b, n)
}

proof fn excludes_named(d: Dict, s: Sides, a: Seq<SlotView>, b: Seq<SlotView>)
    ensures
        s.excludes(d, a, b) == excludes_by_name(d, s, a, b),
{
    added_names(s.left, s.right);
    if s.excludes(d, a, b) {
        assert forall|n: Text| #[trigger] meet(s, a, b, n) implies slots_equal(
            d,
            cell(s.left, a, n)->0,
            cell(s.right, b, n)->0,
        ) by {
            cell_is_some(s.left, a, n);
            assert(s.out().contains(n));
            let c = choose|c: int| 0 <= c < s.out().len() && s.out()[c] == n;
            assert(s.agrees(d, a, b, c));
        }
        let c = choose|c: int| 0 <= c < s.out().len() && #[trigger] s.both_bound(a, b, c);
        assert(meet(s, a, b, s.out()[c]));
    }
    if excludes_by_name(d, s, a, b) {
        assert forall|c: int| 0 <= c < s.out().len() implies #[trigger] s.agrees(d, a, b, c) by {
            if s.both_bound(a, b, c) {
                assert(meet(s, a, b, s.out()[c]));
            }
        }
        let n = choose|n: Text| #[trigger] meet(s, a, b, n);
        cell_is_some(s.left, a, n);
        assert(s.out().contains(n));
        let c = choose|c: int| 0 <= c < s.out().len() && s.out()[c] == n;
        assert(s.both_bound(a, b, c));
    }
}

proof fn exclusion_agrees(
    d: Dict,
    x: Sides,
    a: Seq<SlotView>,
    b: Seq<SlotView>,
    y: Sides,
    p: Seq<SlotView>,
    q: Seq<SlotView>,
)
    requires
        rows_agree(x.left, a, y.left, p, Set::full()),
        rows_agree(x.right, b, y.right, q, Set::full()),
    ensures
        x.excludes(d, a, b) == y.excludes(d, p, q),
{
    excludes_named(d, x, a, b);
    excludes_named(d, y, p, q);
    assert forall|n: Text| #[trigger] meet(x, a, b, n) == meet(y, p, q, n) && cell(x.left, a, n)
        == cell(y.left, p, n) && cell(x.right, b, n) == cell(y.right, q, n) by {
        assert(Set::<Text>::full().contains(n));
        assert(cell(x.left, a, n) == cell(y.left, p, n));
        assert(cell(x.right, b, n) == cell(y.right, q, n));
    }
    if excludes_by_name(d, x, a, b) {
        let n = choose|n: Text| #[trigger] meet(x, a, b, n);
        assert(meet(y, p, q, n));
        assert forall|n: Text| #[trigger] meet(y, p, q, n) implies slots_equal(
            d,
            cell(y.left, p, n)->0,
            cell(y.right, q, n)->0,
        ) by {
            assert(meet(x, a, b, n));
        }
    }
    if excludes_by_name(d, y, p, q) {
        let n = choose|n: Text| #[trigger] meet(y, p, q, n);
        assert(meet(x, a, b, n));
        assert forall|n: Text| #[trigger] meet(x, a, b, n) implies slots_equal(
            d,
            cell(x.left, a, n)->0,
            cell(x.right, b, n)->0,
        ) by {
            assert(meet(y, p, q, n));
        }
    }
}

proof fn remaining_agree(
    d: Dict,
    a: BatchView,
    b: BatchView,
    p: BatchView,
    q: BatchView,
    n: int,
)
    requires
        narrows(a, p, Set::full()),
        narrows(b, q, Set::full()),
        n <= a.rows.len(),
    ensures
        lists_agree(
            a.schema,
            remaining_rows(d, a, b, n),
            p.schema,
            remaining_rows(d, p, q, n),
            Set::full(),
        ),
    decreases n,
{
    if n > 0 {
        remaining_agree(d, a, b, p, q, n - 1);
        let x = Sides { left: a.schema, right: b.schema };
        let y = Sides { left: p.schema, right: q.schema };
        let (r, u) = (a.rows[n - 1], p.rows[n - 1]);
        assert(rows_agree(a.schema, r, p.schema, u, Set::full()));
        assert forall|k: int| 0 <= k < b.rows.len() implies x.excludes(d, r, #[trigger] b.rows[k])
            == y.excludes(d, u, q.rows[k]) by {
            assert(rows_agree(b.schema, b.rows[k], q.schema, q.rows[k], Set::full()));
            exclusion_agrees(d, x, r, b.rows[k], y, u, q.rows[k]);
        }
        if excluded(d, a.schema, b, r) {
            let k = choose|k: int|
                0 <= k < b.rows.len() && x.excludes(d, r, #[trigger] b.rows[k]);
            assert(y.excludes(d, u, q.rows[k]));
        }
        if excluded(d, p.schema, q, u) {
            let k = choose|k: int|
                0 <= k < q.rows.len() && y.excludes(d, u, #[trigger] q.rows[k]);
            assert(x.excludes(d, r, b.rows[k]));
        }
    }
}

/// A difference of batches that agree on every name.
pub proof fn minus_narrows(d: Dict, a: BatchView, b: BatchView, p: BatchView, q: BatchView)
    requires
        narrows(a, p, Set::full()),
        narrows(b, q, Set::full()),
    ensures
        narrows(minus_batch(d, a, b), minus_batch(d, p, q), Set::full()),
{
    remaining_agree(d, a, b, p, q, a.rows.len() as int);
}

// ── Unions ──────────────────────────────────────────────────────────────────

/// The cells of a row laid out under another schema.
proof fn laid_out_cell(s: Seq<Text>, r: Seq<SlotView>, t: Seq<Text>, n: Text)
    ensures
        cell(t, laid_out(s, r, t), n) == (if t.contains(n) {
            Some(
                match cell(s, r, n) {
                    Some(x) => x,
                    None => SlotView::Unbound,
                },
            )
        } else {
            None
        }),
{
    position_facts(t, n);
}

proof fn laid_out_agree(a: BatchView, p: BatchView, s: Seq<Text>, t: Seq<Text>, want: Set<Text>)
    requires
        narrows(a, p, want),
        schemas_agree(s, t, want),
    ensures
        lists_agree(s, laid_out_all(a, s), t, laid_out_all(p, t), want),
{
    let (x, y) = (laid_out_all(a, s), laid_out_all(p, t));
    assert forall|k: int| 0 <= k < x.len() implies rows_agree(s, #[trigger] x[k], t, y[k], want) by {
        assert(rows_agree(a.schema, a.rows[k], p.schema, p.rows[k], want));
        assert(one_valued(s, x[k]) && one_valued(t, y[k]));
        assert forall|n: Text| want.contains(n) implies #[trigger] cell(s, x[k], n) == cell(
            t,
            y[k],
            n,
        ) by {
            laid_out_cell(a.schema, a.rows[k], s, n);
            laid_out_cell(p.schema, p.rows[k], t, n);
            assert(cell(a.schema, a.rows[k], n) == cell(p.schema, p.rows[k], n));
            assert(s.contains(n) == t.contains(n));
        }
    }
}

/// The columns of a name all mix ids with terms, or none does.
proof fn mixed_by_name(s: Seq<Text>, rows: Seq<Seq<SlotView>>)
    requires
        forall|k: int| 0 <= k < rows.len() ==> one_valued(s, #[trigger] rows[k]),
    ensures
        marks_by_name(s, mixed_columns(rows, s.len())),
{
    let f = mixed_columns(rows, s.len());
    assert forall|i: int, j: int|
        0 <= i < s.len() && 0 <= j < s.len() && #[trigger] s[i] == #[trigger] s[j] implies f[i]
        == f[j] by {
        assert forall|k: int| 0 <= k < rows.len() implies (#[trigger] rows[k])[i] == rows[k][j] by {
            assert(one_valued(s, rows[k]));
        }
        if has_id(rows, i) {
            let k = choose|k: int| 0 <= k < rows.len() && (#[trigger] rows[k])[i] is Id;
            assert(rows[k][j] is Id);
        }
        if has_id(rows, j) {
            let k = choose|k: int| 0 <= k < rows.len() && (#[trigger] rows[k])[j] is Id;
            assert(rows[k][i] is Id);
        }
        if has_term(rows, i) {
            let k = choose|k: int| 0 <= k < rows.len() && (#[trigger] rows[k])[i] is Term;
            assert(rows[k][j] is Term);
        }
        if has_term(rows, j) {
            let k = choose|k: int| 0 <= k < rows.len() && (#[trigger] rows[k])[j] is Term;
            assert(rows[k][i] is Term);
        }
    }
}

proof fn mixed_agree(
    s: Seq<Text>,
    a: Seq<Seq<SlotView>>,
    t: Seq<Text>,
    b: Seq<Seq<SlotView>>,
    want: Set<Text>,
)
    requires
        schemas_agree(s, t, want),
        lists_agree(s, a, t, b, want),
    ensures
        marks_agree(s, mixed_columns(a, s.len()), t, mixed_columns(b, t.len()), want),
        marks_by_name(s, mixed_columns(a, s.len())),
        marks_by_name(t, mixed_columns(b, t.len())),
{
    assert forall|k: int| 0 <= k < a.len() implies one_valued(s, #[trigger] a[k]) && one_valued(
        t,
        b[k],
    ) by {
        assert(rows_agree(s, a[k], t, b[k], want));
    }
    mixed_by_name(s, a);
    assert forall|k: int| 0 <= k < b.len() implies one_valued(t, #[trigger] b[k]) by {
        assert(one_valued(s, a[k]));
    }
    mixed_by_name(t, b);
    let (f, g) = (mixed_columns(a, s.len()), mixed_columns(b, t.len()));
    assert forall|i: int, j: int|
        0 <= i < s.len() && 0 <= j < t.len() && #[trigger] s[i] == #[trigger] t[j] && want.contains(
            s[i],
        ) implies f[i] == g[j] by {
        assert forall|k: int| 0 <= k < a.len() implies (#[trigger] a[k])[i] == b[k][j] by {
            assert(rows_agree(s, a[k], t, b[k], want));
            cell_at(s, a[k], i);
            cell_at(t, b[k], j);
            assert(cell(s, a[k], s[i]) == cell(t, b[k], s[i]));
        }
        if has_id(a, i) {
            let k = choose|k: int| 0 <= k < a.len() && (#[trigger] a[k])[i] is Id;
            assert(b[k][j] is Id);
        }
        if has_id(b, j) {
            let k = choose|k: int| 0 <= k < b.len() && (#[trigger] b[k])[j] is Id;
            assert(a[k][i] is Id);
        }
        if has_term(a, i) {
            let k = choose|k: int| 0 <= k < a.len() && (#[trigger] a[k])[i] is Term;
            assert(b[k][j] is Term);
        }
        if has_term(b, j) {
            let k = choose|k: int| 0 <= k < b.len() && (#[trigger] b[k])[j] is Term;
            assert(a[k][i] is Term);
        }
    }
}

/// A union reads no column.
pub proof fn union_narrows(
    d: Dict,
    a: BatchView,
    b: BatchView,
    p: BatchView,
    q: BatchView,
    want: Set<Text>,
)
    requires
        narrows(a, p, want),
        narrows(b, q, want),
    ensures
        narrows(union_batch(d, a, b), union_batch(d, p, q), want),
{
    let s = add_all_unique(a.schema, b.schema);
    let t = add_all_unique(p.schema, q.schema);
    added_agree(a.schema, p.schema, b.schema, q.schema, want);
    laid_out_agree(a, p, s, t, want);
    laid_out_agree(b, q, s, t, want);
    let (f, g) = (laid_out_all(a, s) + laid_out_all(b, s), laid_out_all(p, t) + laid_out_all(q, t));
    lists_join(
        s,
        laid_out_all(a, s),
        laid_out_all(b, s),
        t,
        laid_out_all(p, t),
        laid_out_all(q, t),
        want,
    );
    mixed_agree(s, f, t, g, want);
    forced_rows_agree(
        d,
        s,
        f,
        mixed_columns(f, s.len()),
        t,
        g,
        mixed_columns(g, t.len()),
        want,
    );
}

// ── What joins keep ─────────────────────────────────────────────────────────

/// A difference from a batch that shares no column removes nothing.
pub proof fn a_difference_without_shared_columns_keeps_all(d: Dict, left: BatchView, right: BatchView)
    requires
        forall|n: Text| #[trigger] left.schema.contains(n) ==> !right.schema.contains(n),
    ensures
        minus_batch(d, left, right) == left,
{
    nothing_is_excluded(d, left, right, left.rows.len() as int);
    assert(left.rows.take(left.rows.len() as int) =~= left.rows);
}

proof fn nothing_is_excluded(d: Dict, left: BatchView, right: BatchView, n: int)
    requires
        forall|m: Text| #[trigger] left.schema.contains(m) ==> !right.schema.contains(m),
        0 <= n <= left.rows.len(),
    ensures
        remaining_rows(d, left, right, n) == left.rows.take(n),
    decreases n,
{
    if n == 0 {
        assert(remaining_rows(d, left, right, n) =~= left.rows.take(n));
    } else {
        nothing_is_excluded(d, left, right, n - 1);
        let s = Sides { left: left.schema, right: right.schema };
        let a = left.rows[n - 1];
        if excluded(d, left.schema, right, a) {
            let k = choose|k: int|
                0 <= k < right.rows.len() && s.excludes(d, a, #[trigger] right.rows[k]);
            let c = choose|c: int|
                0 <= c < s.out().len() && #[trigger] s.both_bound(a, right.rows[k], c);
            position_facts(s.left, s.out()[c]);
            position_facts(s.right, s.out()[c]);
            assert(left.schema.contains(s.out()[c]));
            assert(false);
        }
        assert(left.rows.take(n - 1).push(a) =~= left.rows.take(n));
    }
}

/// An optional match keeps every left row: it yields at least one row for
/// each.
pub proof fn an_optional_match_keeps_every_left_row<N: Numbers>(
    d: Dict,
    left: BatchView,
    right: BatchView,
    cond: Option<ExprView>,
)
    ensures
        left_join_batch::<N>(d, left, right, cond).rows.len() >= left.rows.len(),
        forall|k: int|
            0 <= k < left.rows.len() ==> #[trigger] optional_rows::<N>(
                d,
                left.schema,
                right,
                left.rows[k],
                cond,
            ).len() > 0,
{
    optional_rows_add_up::<N>(d, left, right, cond, left.rows.len() as int);
}

proof fn optional_rows_add_up<N: Numbers>(
    d: Dict,
    left: BatchView,
    right: BatchView,
    cond: Option<ExprView>,
    n: int,
)
    requires
        0 <= n <= left.rows.len(),
    ensures
        left_joined_rows::<N>(d, left, right, cond, n).len() >= n,
    decreases n,
{
    if n > 0 {
        optional_rows_add_up::<N>(d, left, right, cond, n - 1);
        assert(optional_rows::<N>(d, left.schema, right, left.rows[n - 1], cond).len() > 0);
    }
}

/// A joined row extends both rows it comes from: wherever one of them is
/// bound, so is it, to the same term.
pub proof fn a_joined_row_extends_both(d: Dict, s: Sides, a: Seq<SlotView>, b: Seq<SlotView>, n: Text)
    requires
        s.compatible(d, a, b),
    ensures
        ({
            let m = s.merge(d, a, b)->0;
            &&& bound_in(s.left, a, n) ==> cell(s.out(), m, n) == cell(s.left, a, n)
            &&& bound_in(s.right, b, n) ==> bound_in(s.out(), m, n) && slot_term(
                d,
                cell(s.out(), m, n)->0,
            ) == slot_term(d, cell(s.right, b, n)->0)
        }),
{
    added_names(s.left, s.right);
    merged_cell(d, s, a, b, n);
    cell_is_some(s.left, a, n);
    cell_is_some(s.right, b, n);
    if s.out().contains(n) {
        let c = choose|c: int| 0 <= c < s.out().len() && s.out()[c] == n;
        assert(s.slot(d, a, b, c) is Some);
    }
}

}
