//! What the types of a plan say of its solutions: a variable that is inferred
//! to be bound is bound in every solution.

use crate::algebra::{AggregateView, ExprView, OrderDir, PatternView, TermView};
use crate::exec::aggregate::{deduped, deduped_facts};
use crate::exec::batch::{position_facts, BatchView, Dict, KeyView, SlotView};
use crate::exec::executor::{bound_to_their_names, Executor};
use crate::exec::group::{
    agg_cell, group_batch, group_id, group_ids, group_list, group_row, group_rows_of, group_schema,
    members,
};
use crate::exec::invariance::{
    group_fits, outputs_apart, repeats_within, run_columns, tells_columns,
};
use crate::exec::join::{
    bound_in, candidates, cell, force_rows, forced_columns, join_batch, joined_rows,
    left_join_batch, left_joined_rows, optional_rows, remaining_rows, satisfying, split,
    unbound_row, Sides,
};
use crate::exec::narrow::{
    cell_at, extended_cells, one_valued, project_keeps_cells, repeated, rows_agree,
};
use crate::exec::narrow_join::{added_names, merged_cell};
use crate::exec::number::Numbers;
use crate::exec::operators::{
    distinct_slot_rows, extend_batch, laid_out, laid_out_all, mixed_columns, project_batch,
    slice_batch, slice_rows, union_batch, value_slot, values_batch,
};
use crate::exec::order::{arranged, order_batch, resolves_all};
use crate::exec::path::{bind_pair, pair_solutions, pairs_sorted, path_solutions, path_terms};
use crate::exec::runtime::{
    edge_maps, graph_batch, is_run, outs, per_graph_batch, term_batch, QueryView, Run,
};
use crate::exec::scope::NamedGraphView;
use crate::exec::sort::{enumerates_rows, merge_sorted, sorting_is_stable, SortCol};
use crate::plan::logical::LogicalView;
use crate::plan::lower::physical_view;
use crate::plan::passes::{add_all_unique, add_unique, bgp_vars, endpoint_vars, pattern_vars, term_vars};
use crate::plan::types::{
    add_mask, agg_mask, agg_masks, bgp_masks, cell_bit, column_masks, endpoint_masks, infer_view,
    pattern_masks, term_masks, values_mask, values_masks, TypeMask,
};
use crate::text::Text;
use vstd::prelude::*;

verus! {

/// Is a name bound in every row of a batch?
pub open spec fn bound_throughout(b: BatchView, n: Text) -> bool {
    forall|k: int| 0 <= k < b.rows.len() ==> bound_in(b.schema, #[trigger] b.rows[k], n)
}

/// Is a name bound in every one of some rows?
pub open spec fn all_bound(s: Seq<Text>, rows: Seq<Seq<SlotView>>, n: Text) -> bool {
    forall|k: int| 0 <= k < rows.len() ==> bound_in(s, #[trigger] rows[k], n)
}

/// Do all rows have one width?
pub open spec fn even(rows: Seq<Seq<SlotView>>, width: nat) -> bool {
    forall|k: int| 0 <= k < rows.len() ==> (#[trigger] rows[k]).len() == width
}

// ── Masks ───────────────────────────────────────────────────────────────────

proof fn mask_facts(l: TypeMask, r: TypeMask)
    ensures
        l.either(r).bound() ==> l.bound() && r.bound(),
        l.meet(r).bound() ==> l.bound() || r.bound(),
        !l.optional().bound(),
        !TypeMask::of(0b1_1111).bound(),
        !TypeMask::of(0b0_1001).bound(),
{
    let (a, b) = (l.bits, r.bits);
    assert((a | b) & 1u8 == 0 ==> a & 1u8 == 0 && b & 1u8 == 0) by (bit_vector);
    assert((a | 1u8) & 1u8 != 0) by (bit_vector);
    assert(31u8 & 1u8 != 0) by (bit_vector);
    assert(9u8 & 1u8 != 0) by (bit_vector);
    let m = l.meet(r).bits;
    let both = a & b & 30u8;
    let mine = if b & 1u8 != 0 {
        a & 30u8
    } else {
        0u8
    };
    let theirs = if a & 1u8 != 0 {
        b & 30u8
    } else {
        0u8
    };
    assert(m == both | mine | theirs | (a & b & 1u8));
    assert((both | mine | theirs | (a & b & 1u8)) & 1u8 == 0 ==> a & 1u8 == 0 || b & 1u8 == 0)
        by (bit_vector);
}

proof fn term_masks_keys(t: TermView, mask: TypeMask, acc: Map<Text, TypeMask>, s: Seq<Text>)
    requires
        forall|n: Text| #[trigger] acc.contains_key(n) ==> s.contains(n),
    ensures
        forall|n: Text| #[trigger]
            term_masks(t, mask, acc).contains_key(n) ==> term_vars(t, s).contains(n),
    decreases t,
{
    match t {
        TermView::Var(v) => {
            assert(term_masks(t, mask, acc) == add_mask(acc, v, mask));
            assert(term_vars(t, s) == add_unique(s, v));
            if !s.contains(v) {
                assert(s.push(v)[s.len() as int] == v);
            }
            assert forall|n: Text| #[trigger] term_masks(t, mask, acc).contains_key(n) implies term_vars(
                t,
                s,
            ).contains(n) by {
                if n != v {
                    assert(acc.contains_key(n));
                    let k = choose|k: int| 0 <= k < s.len() && s[k] == n;
                    assert(add_unique(s, v)[k] == n);
                }
            }
        },
        TermView::Triple(tp) => {
            assert(term_masks(t, mask, acc) == pattern_masks(*tp, acc));
            assert(term_vars(t, s) == pattern_vars(*tp, s));
            pattern_masks_keys(*tp, acc, s);
        },
        _ => {},
    }
}

proof fn pattern_masks_keys(p: PatternView, acc: Map<Text, TypeMask>, s: Seq<Text>)
    requires
        forall|n: Text| #[trigger] acc.contains_key(n) ==> s.contains(n),
    ensures
        forall|n: Text| #[trigger]
            pattern_masks(p, acc).contains_key(n) ==> pattern_vars(p, s).contains(n),
    decreases p,
{
    let a = term_masks(p.subject, TypeMask::of(0b0_0110), acc);
    let b = term_masks(p.predicate, TypeMask::of(TypeMask::NAMED_NODE), a);
    let sa = term_vars(p.subject, s);
    let sb = term_vars(p.predicate, sa);
    term_masks_keys(p.subject, TypeMask::of(0b0_0110), acc, s);
    term_masks_keys(p.predicate, TypeMask::of(TypeMask::NAMED_NODE), a, sa);
    term_masks_keys(p.object, TypeMask::of(TypeMask::ANY), b, sb);
    assert(pattern_masks(p, acc) == term_masks(p.object, TypeMask::of(TypeMask::ANY), b));
    assert(pattern_vars(p, s) == term_vars(p.object, sb));
}

proof fn bgp_masks_keys(ps: Seq<PatternView>)
    ensures
        forall|n: Text| #[trigger] bgp_masks(ps).contains_key(n) ==> bgp_vars(ps).contains(n),
    decreases ps.len(),
{
    if ps.len() > 0 {
        bgp_masks_keys(ps.drop_last());
        pattern_masks_keys(ps.last(), bgp_masks(ps.drop_last()), bgp_vars(ps.drop_last()));
    }
}

// ── Operators that pick rows ────────────────────────────────────────────────

proof fn satisfying_bound<N: Numbers>(
    d: Dict,
    s: Seq<Text>,
    rows: Seq<Seq<SlotView>>,
    cond: Option<ExprView>,
    n: Text,
)
    requires
        all_bound(s, rows, n),
    ensures
        all_bound(s, satisfying::<N>(d, s, rows, cond), n),
    decreases rows.len(),
{
    if rows.len() > 0 {
        let rest = rows.drop_last();
        assert forall|k: int| 0 <= k < rest.len() implies bound_in(s, #[trigger] rest[k], n) by {
            assert(rest[k] == rows[k]);
        }
        satisfying_bound::<N>(d, s, rest, cond, n);
        assert(bound_in(s, rows[rows.len() - 1], n));
    }
}

proof fn distinct_bound(s: Seq<Text>, rows: Seq<Seq<SlotView>>, n: Text)
    requires
        all_bound(s, rows, n),
    ensures
        all_bound(s, distinct_slot_rows(rows), n),
    decreases rows.len(),
{
    if rows.len() > 0 {
        let rest = rows.drop_last();
        assert forall|k: int| 0 <= k < rest.len() implies bound_in(s, #[trigger] rest[k], n) by {
            assert(rest[k] == rows[k]);
        }
        distinct_bound(s, rest, n);
        assert(bound_in(s, rows[rows.len() - 1], n));
    }
}

proof fn remaining_bound(d: Dict, left: BatchView, right: BatchView, upto: int, n: Text)
    requires
        bound_throughout(left, n),
        upto <= left.rows.len(),
    ensures
        all_bound(left.schema, remaining_rows(d, left, right, upto), n),
    decreases upto,
{
    if upto > 0 {
        remaining_bound(d, left, right, upto - 1, n);
        assert(bound_in(left.schema, left.rows[upto - 1], n));
    }
}

proof fn slice_bound(b: BatchView, start: int, length: Option<usize>, n: Text)
    requires
        bound_throughout(b, n),
        0 <= start,
    ensures
        bound_throughout(slice_batch(b, start, length), n),
{
    let x = slice_rows(b.rows, start, length);
    assert forall|k: int| 0 <= k < x.len() implies bound_in(b.schema, #[trigger] x[k], n) by {
        assert(x[k] == b.rows[start + k]);
    }
}

proof fn order_bound<N: Numbers>(
    d: Dict,
    b: BatchView,
    keys: Seq<(ExprView, OrderDir)>,
    out: BatchView,
    n: Text,
)
    requires
        order_batch::<N>(d, b, keys, out),
        bound_throughout(b, n),
    ensures
        bound_throughout(out, n),
{
    let cols = choose|cols: Seq<(SortCol<N>, OrderDir)>| #[trigger]
        resolves_all::<N>(d, b, keys, cols) && out == (BatchView {
            schema: b.schema,
            rows: arranged(b.rows, merge_sorted(cols, 0, b.rows.len() as int)),
        });
    let order = merge_sorted(cols, 0, b.rows.len() as int);
    if b.rows.len() <= usize::MAX {
        sorting_is_stable(cols, b.rows.len() as int);
    }
    assert forall|k: int| 0 <= k < out.rows.len() implies bound_in(
        out.schema,
        #[trigger] out.rows[k],
        n,
    ) by {
        assert(order.contains(order[k]));
        assert(out.rows[k] == b.rows[order[k] as int]);
    }
}

// ── Joins ───────────────────────────────────────────────────────────────────

/// A merged row is bound under a name wherever one of the two rows is.
proof fn merge_bound(d: Dict, s: Sides, a: Seq<SlotView>, b: Seq<SlotView>, n: Text)
    requires
        s.compatible(d, a, b),
        bound_in(s.left, a, n) || bound_in(s.right, b, n),
    ensures
        bound_in(s.out(), s.merge(d, a, b)->0, n),
{
    merged_cell(d, s, a, b, n);
    added_names(s.left, s.right);
    position_facts(s.left, n);
    position_facts(s.right, n);
    let c = choose|c: int| 0 <= c < s.out().len() && s.out()[c] == n;
    assert(s.slot(d, a, b, c) is Some);
}

proof fn merge_all_bound(
    d: Dict,
    s: Sides,
    a: Seq<SlotView>,
    rows: Seq<Seq<SlotView>>,
    n: Text,
)
    requires
        bound_in(s.left, a, n) || all_bound(s.right, rows, n),
    ensures
        all_bound(s.out(), s.merge_all(d, a, rows), n),
    decreases rows.len(),
{
    if rows.len() > 0 {
        let rest = rows.drop_last();
        if all_bound(s.right, rows, n) {
            assert forall|k: int| 0 <= k < rest.len() implies bound_in(
                s.right,
                #[trigger] rest[k],
                n,
            ) by {
                assert(rest[k] == rows[k]);
            }
            assert(bound_in(s.right, rows[rows.len() - 1], n));
        }
        merge_all_bound(d, s, a, rest, n);
        if s.compatible(d, a, rows.last()) {
            merge_bound(d, s, a, rows.last(), n);
        }
    }
}

proof fn split_bound(left: Seq<Text>, right: BatchView, upto: int, want: bool, n: Text)
    requires
        bound_throughout(right, n),
        upto <= right.rows.len(),
    ensures
        all_bound(right.schema, split(left, right, upto, want), n),
    decreases upto,
{
    if upto > 0 {
        split_bound(left, right, upto - 1, want, n);
        assert(bound_in(right.schema, right.rows[upto - 1], n));
    }
}

pub proof fn candidates_bound(left: Seq<Text>, right: BatchView, a: Seq<SlotView>, n: Text)
    requires
        bound_throughout(right, n),
    ensures
        all_bound(right.schema, candidates(left, right, a), n),
{
    let m = right.rows.len() as int;
    split_bound(left, right, m, true, n);
    split_bound(left, right, m, false, n);
    let (x, y) = (split(left, right, m, true), split(left, right, m, false));
    assert forall|k: int| 0 <= k < (x + y).len() implies bound_in(
        right.schema,
        #[trigger] (x + y)[k],
        n,
    ) by {
        if k < x.len() {
            assert((x + y)[k] == x[k]);
        } else {
            assert((x + y)[k] == y[k - x.len()]);
        }
    }
}

proof fn joined_bound(d: Dict, left: BatchView, right: BatchView, upto: int, n: Text)
    requires
        bound_throughout(left, n) || bound_throughout(right, n),
        upto <= left.rows.len(),
    ensures
        all_bound(
            (Sides { left: left.schema, right: right.schema }).out(),
            joined_rows(d, left, right, upto),
            n,
        ),
    decreases upto,
{
    if upto > 0 {
        let s = Sides { left: left.schema, right: right.schema };
        let a = left.rows[upto - 1];
        joined_bound(d, left, right, upto - 1, n);
        let c = candidates(left.schema, right, a);
        if bound_throughout(right, n) {
            candidates_bound(left.schema, right, a, n);
        } else {
            assert(bound_in(left.schema, a, n));
        }
        merge_all_bound(d, s, a, c, n);
        both_bound(s.out(), joined_rows(d, left, right, upto - 1), s.merge_all(d, a, c), n);
    }
}

proof fn both_bound(s: Seq<Text>, a: Seq<Seq<SlotView>>, b: Seq<Seq<SlotView>>, n: Text)
    requires
        all_bound(s, a, n),
        all_bound(s, b, n),
    ensures
        all_bound(s, a + b, n),
{
    assert forall|k: int| 0 <= k < (a + b).len() implies bound_in(s, #[trigger] (a + b)[k], n) by {
        if k < a.len() {
            assert((a + b)[k] == a[k]);
        } else {
            assert((a + b)[k] == b[k - a.len()]);
        }
    }
}

/// Decoding a column leaves it bound.
proof fn forced_bound(
    d: Dict,
    s: Seq<Text>,
    rows: Seq<Seq<SlotView>>,
    columns: Seq<bool>,
    n: Text,
)
    requires
        all_bound(s, rows, n),
        even(rows, s.len()),
    ensures
        all_bound(s, force_rows(d, rows, columns), n),
{
    let x = force_rows(d, rows, columns);
    assert forall|k: int| 0 <= k < x.len() implies bound_in(s, #[trigger] x[k], n) by {
        assert(bound_in(s, rows[k], n));
        position_facts(s, n);
    }
}

pub proof fn merge_all_even(d: Dict, s: Sides, a: Seq<SlotView>, rows: Seq<Seq<SlotView>>)
    ensures
        even(s.merge_all(d, a, rows), s.out().len()),
    decreases rows.len(),
{
    if rows.len() > 0 {
        merge_all_even(d, s, a, rows.drop_last());
    }
}

pub proof fn joined_even(d: Dict, left: BatchView, right: BatchView, upto: int)
    ensures
        ({
            let s = Sides { left: left.schema, right: right.schema };
            even(joined_rows(d, left, right, upto), s.out().len())
        }),
    decreases upto,
{
    if upto > 0 {
        let s = Sides { left: left.schema, right: right.schema };
        let a = left.rows[upto - 1];
        joined_even(d, left, right, upto - 1);
        merge_all_even(d, s, a, candidates(left.schema, right, a));
        let (f, g) = (
            joined_rows(d, left, right, upto - 1),
            s.merge_all(d, a, candidates(left.schema, right, a)),
        );
        assert forall|k: int| 0 <= k < (f + g).len() implies (#[trigger] (f + g)[k]).len()
            == s.out().len() by {
            if k < f.len() {
                assert((f + g)[k] == f[k]);
            } else {
                assert((f + g)[k] == g[k - f.len()]);
            }
        }
    }
}

/// A join binds what either side binds throughout.
pub proof fn join_binds(d: Dict, left: BatchView, right: BatchView, n: Text)
    requires
        bound_throughout(left, n) || bound_throughout(right, n),
    ensures
        bound_throughout(join_batch(d, left, right), n),
{
    let m = left.rows.len() as int;
    joined_bound(d, left, right, m, n);
    joined_even(d, left, right, m);
    forced_bound(
        d,
        (Sides { left: left.schema, right: right.schema }).out(),
        joined_rows(d, left, right, m),
        forced_columns(left, right),
        n,
    );
}

pub proof fn satisfying_even<N: Numbers>(
    d: Dict,
    s: Seq<Text>,
    rows: Seq<Seq<SlotView>>,
    cond: Option<ExprView>,
)
    requires
        even(rows, s.len()),
    ensures
        even(satisfying::<N>(d, s, rows, cond), s.len()),
    decreases rows.len(),
{
    if rows.len() > 0 {
        let rest = rows.drop_last();
        assert forall|k: int| 0 <= k < rest.len() implies (#[trigger] rest[k]).len() == s.len() by {
            assert(rest[k] == rows[k]);
        }
        satisfying_even::<N>(d, s, rest, cond);
        assert(rows[rows.len() - 1].len() == s.len());
    }
}

proof fn optional_bound<N: Numbers>(
    d: Dict,
    left: BatchView,
    right: BatchView,
    cond: Option<ExprView>,
    upto: int,
    n: Text,
)
    requires
        bound_throughout(left, n),
        upto <= left.rows.len(),
    ensures
        ({
            let s = Sides { left: left.schema, right: right.schema };
            let x = left_joined_rows::<N>(d, left, right, cond, upto);
            &&& all_bound(s.out(), x, n)
            &&& even(x, s.out().len())
        }),
    decreases upto,
{
    if upto > 0 {
        let s = Sides { left: left.schema, right: right.schema };
        let a = left.rows[upto - 1];
        optional_bound::<N>(d, left, right, cond, upto - 1, n);
        assert(bound_in(left.schema, a, n));
        let c = s.merge_all(d, a, candidates(left.schema, right, a));
        merge_all_bound(d, s, a, candidates(left.schema, right, a), n);
        merge_all_even(d, s, a, candidates(left.schema, right, a));
        satisfying_bound::<N>(d, s.out(), c, cond, n);
        satisfying_even::<N>(d, s.out(), c, cond);
        let u = unbound_row(right.schema.len());
        assert(s.compatible(d, a, u)) by {
            assert forall|i: int| 0 <= i < s.out().len() implies (#[trigger] s.slot(
                d,
                a,
                u,
                i,
            )) is Some by {
                position_facts(s.right, s.out()[i]);
            }
        }
        merge_bound(d, s, a, u, n);
        let more = optional_rows::<N>(d, left.schema, right, a, cond);
        let rest = left_joined_rows::<N>(d, left, right, cond, upto - 1);
        both_bound(s.out(), rest, more, n);
        assert forall|k: int| 0 <= k < (rest + more).len() implies (#[trigger] (rest + more)[k]).len()
            == s.out().len() by {
            if k < rest.len() {
                assert((rest + more)[k] == rest[k]);
            } else {
                assert((rest + more)[k] == more[k - rest.len()]);
            }
        }
    }
}

/// An optional match binds what its left side binds throughout.
pub proof fn left_join_binds<N: Numbers>(
    d: Dict,
    left: BatchView,
    right: BatchView,
    cond: Option<ExprView>,
    n: Text,
)
    requires
        bound_throughout(left, n),
    ensures
        bound_throughout(left_join_batch::<N>(d, left, right, cond), n),
{
    let m = left.rows.len() as int;
    optional_bound::<N>(d, left, right, cond, m, n);
    forced_bound(
        d,
        (Sides { left: left.schema, right: right.schema }).out(),
        left_joined_rows::<N>(d, left, right, cond, m),
        forced_columns(left, right),
        n,
    );
}

proof fn laid_out_bound(b: BatchView, s: Seq<Text>, n: Text)
    requires
        bound_throughout(b, n),
        b.rows.len() > 0 ==> s.contains(n),
    ensures
        all_bound(s, laid_out_all(b, s), n),
{
    let x = laid_out_all(b, s);
    assert forall|k: int| 0 <= k < x.len() implies bound_in(s, #[trigger] x[k], n) by {
        assert(bound_in(b.schema, b.rows[k], n));
        position_facts(s, n);
    }
}

/// A union binds what both sides bind throughout.
pub proof fn union_binds(d: Dict, a: BatchView, b: BatchView, n: Text)
    requires
        bound_throughout(a, n),
        bound_throughout(b, n),
    ensures
        bound_throughout(union_batch(d, a, b), n),
{
    let s = add_all_unique(a.schema, b.schema);
    added_names(a.schema, b.schema);
    if a.rows.len() > 0 {
        assert(bound_in(a.schema, a.rows[0], n));
        position_facts(a.schema, n);
    }
    if b.rows.len() > 0 {
        assert(bound_in(b.schema, b.rows[0], n));
        position_facts(b.schema, n);
    }
    laid_out_bound(a, s, n);
    laid_out_bound(b, s, n);
    let (x, y) = (laid_out_all(a, s), laid_out_all(b, s));
    both_bound(s, x, y, n);
    assert forall|k: int| 0 <= k < (x + y).len() implies (#[trigger] (x + y)[k]).len() == s.len() by {
        if k < x.len() {
            assert((x + y)[k] == x[k]);
        } else {
            assert((x + y)[k] == y[k - x.len()]);
        }
    }
    forced_bound(d, s, x + y, mixed_columns(x + y, s.len()), n);
}

// ── The other operators ─────────────────────────────────────────────────────

proof fn project_binds(b: BatchView, vars: Seq<Text>, n: Text)
    requires
        vars.len() > 0,
        vars.contains(n),
        bound_throughout(b, n),
    ensures
        bound_throughout(project_batch(b, vars), n),
{
    let p = project_batch(b, vars);
    assert forall|k: int| 0 <= k < p.rows.len() implies bound_in(p.schema, #[trigger] p.rows[k], n) by {
        assert(bound_in(b.schema, b.rows[k], n));
        project_keeps_cells(b, vars, k);
        assert(cell(p.schema, p.rows[k], n) == cell(b.schema, b.rows[k], n));
    }
}

proof fn extend_binds<N: Numbers>(d: Dict, b: BatchView, var: Text, e: ExprView, n: Text)
    requires
        !repeated(b.schema, var),
        b.wf(),
        forall|k: int| 0 <= k < b.rows.len() ==> one_valued(b.schema, #[trigger] b.rows[k]),
        n != var,
        bound_throughout(b, n),
    ensures
        bound_throughout(extend_batch::<N>(d, b, var, e), n),
{
    let x = extend_batch::<N>(d, b, var, e);
    assert forall|k: int| 0 <= k < x.rows.len() implies bound_in(x.schema, #[trigger] x.rows[k], n) by {
        assert(bound_in(b.schema, b.rows[k], n));
        extended_cells::<N>(d, b, var, e, k);
        assert(cell(x.schema, x.rows[k], n) == cell(b.schema, b.rows[k], n));
    }
}

proof fn values_column(rows: Seq<Seq<Option<TermView>>>, c: int, k: int)
    requires
        values_mask(rows, c) & 1u8 == 0,
        0 <= k < rows.len(),
        0 <= c,
    ensures
        c < rows[k].len() && rows[k][c] is Some,
    decreases rows.len(),
{
    let (a, b) = (values_mask(rows.drop_last(), c), cell_bit(rows.last(), c));
    assert(values_mask(rows, c) == a | b);
    assert((a | b) & 1u8 == 0 ==> a & 1u8 == 0 && b & 1u8 == 0) by (bit_vector);
    assert(1u8 & 1u8 != 0) by (bit_vector);
    if k < rows.len() - 1 {
        values_column(rows.drop_last(), c, k);
    }
}

pub proof fn values_masks_at(vars: Seq<Text>, rows: Seq<Seq<Option<TermView>>>, i: int)
    requires
        vars.no_duplicates(),
        0 <= i < vars.len(),
    ensures
        values_masks(vars, rows).contains_key(vars[i]),
        values_masks(vars, rows)[vars[i]] == TypeMask::of(values_mask(rows, i)),
    decreases vars.len(),
{
    if i < vars.len() - 1 {
        let rest = vars.drop_last();
        assert(rest.no_duplicates());
        values_masks_at(rest, rows, i);
        assert(rest[i] == vars[i]);
        assert(vars[i] != vars[vars.len() - 1]);
    }
}

proof fn values_masks_keys(vars: Seq<Text>, rows: Seq<Seq<Option<TermView>>>, n: Text)
    requires
        values_masks(vars, rows).contains_key(n),
    ensures
        vars.contains(n),
    decreases vars.len(),
{
    if vars.len() > 0 {
        if n == vars.last() {
            assert(vars[vars.len() - 1] == n);
        } else {
            values_masks_keys(vars.drop_last(), rows, n);
            let k = choose|k: int| 0 <= k < vars.drop_last().len() && vars.drop_last()[k] == n;
            assert(vars[k] == n);
        }
    }
}

proof fn values_bind(vars: Seq<Text>, rows: Seq<Seq<Option<TermView>>>, n: Text)
    requires
        vars.no_duplicates() || rows.len() == 0,
        values_masks(vars, rows).contains_key(n),
        values_masks(vars, rows)[n].bound(),
    ensures
        bound_throughout(values_batch(vars, rows), n),
{
    let b = values_batch(vars, rows);
    values_masks_keys(vars, rows, n);
    let i = choose|i: int| 0 <= i < vars.len() && vars[i] == n;
    assert forall|k: int| 0 <= k < b.rows.len() implies bound_in(b.schema, #[trigger] b.rows[k], n) by {
        values_masks_at(vars, rows, i);
        values_column(rows, i, k);
        cell_at(vars, b.rows[k], i);
    }
}

pub proof fn agg_masks_at(aggs: Seq<AggregateView>, acc: Map<Text, TypeMask>, n: Text)
    ensures
        agg_masks(aggs, acc).contains_key(n) ==> acc.contains_key(n) || exists|i: int|
            0 <= i < aggs.len() && (#[trigger] aggs[i]).out == n && agg_masks(aggs, acc)[n]
                == agg_mask(aggs[i].func),
        (forall|i: int| 0 <= i < aggs.len() ==> (#[trigger] aggs[i]).out != n) ==> agg_masks(
            aggs,
            acc,
        ).contains_key(n) == acc.contains_key(n) && (acc.contains_key(n) ==> agg_masks(aggs, acc)[n]
            == acc[n]),
        (exists|i: int| 0 <= i < aggs.len() && (#[trigger] aggs[i]).out == n) ==> exists|i: int|
            0 <= i < aggs.len() && (#[trigger] aggs[i]).out == n && agg_masks(aggs, acc)[n]
                == agg_mask(aggs[i].func),
    decreases aggs.len(),
{
    if aggs.len() > 0 {
        let rest = aggs.drop_last();
        agg_masks_at(rest, acc, n);
        let last = aggs.len() - 1;
        assert(aggs[last] == aggs.last());
        if aggs.last().out != n {
            assert forall|i: int| 0 <= i < rest.len() implies #[trigger] rest[i] == aggs[i] by {}
            if exists|i: int| 0 <= i < aggs.len() && (#[trigger] aggs[i]).out == n {
                let i = choose|i: int| 0 <= i < aggs.len() && (#[trigger] aggs[i]).out == n;
                assert(rest[i].out == n);
            }
            if exists|i: int|
                0 <= i < rest.len() && (#[trigger] rest[i]).out == n && agg_masks(rest, acc)[n]
                    == agg_mask(rest[i].func) {
                let i = choose|i: int|
                    0 <= i < rest.len() && (#[trigger] rest[i]).out == n && agg_masks(rest, acc)[n]
                        == agg_mask(rest[i].func);
                assert(aggs[i].out == n);
            }
        }
    }
}

/// The members of a group are rows.
proof fn members_bound(b: BatchView, keys: Seq<Text>, id: Seq<KeyView>, upto: int, n: Text)
    requires
        bound_throughout(b, n),
        upto <= b.rows.len(),
    ensures
        all_bound(b.schema, members(b, keys, id, upto), n),
    decreases upto,
{
    if upto > 0 {
        members_bound(b, keys, id, upto - 1, n);
        assert(bound_in(b.schema, b.rows[upto - 1], n));
    }
}

pub proof fn group_has_members(b: BatchView, keys: Seq<Text>, id: Seq<KeyView>, k: int, upto: int)
    requires
        0 <= k < upto <= b.rows.len(),
        group_id(b, keys, k) == id,
    ensures
        members(b, keys, id, upto).len() > 0,
    decreases upto,
{
    if k < upto - 1 {
        group_has_members(b, keys, id, k, upto - 1);
    }
}

/// A grouping binds the keys its input binds throughout, and its counts.
proof fn group_binds<N: Numbers>(
    d: Dict,
    b: BatchView,
    types: Map<Text, TypeMask>,
    keys: Seq<Text>,
    aggs: Seq<AggregateView>,
    out: BatchView,
    n: Text,
)
    requires
        group_batch::<N>(d, b, keys, aggs, out),
        outputs_apart(keys, aggs),
        types.contains_key(n) && types[n].bound() ==> bound_throughout(b, n),
        agg_masks(aggs, column_masks(types, keys)).contains_key(n),
        agg_masks(aggs, column_masks(types, keys))[n].bound(),
    ensures
        bound_throughout(out, n),
{
    let order = choose|order: Seq<usize>| #[trigger]
        enumerates_rows(order, 0, group_list(b, keys).len() as int) && out == (BatchView {
            schema: group_schema(keys, aggs),
            rows: arranged(group_rows_of::<N>(d, b, keys, aggs), order),
        });
    let acc = column_masks(types, keys);
    let gl = group_list(b, keys);
    let m = b.rows.len() as int;
    agg_masks_at(aggs, acc, n);
    group_fits::<N>(d, b, keys, aggs, out);
    mask_facts(TypeMask::of(0), TypeMask::of(0));
    assert forall|k: int| 0 <= k < out.rows.len() implies bound_in(
        out.schema,
        #[trigger] out.rows[k],
        n,
    ) by {
        assert(order.contains(order[k]));
        let g = order[k] as int;
        let id = gl[g];
        let ms = members(b, keys, id, m);
        let row = group_row::<N>(d, b, keys, aggs, id);
        assert(out.rows[k] == row);
        assert(rows_agree(out.schema, out.rows[k], out.schema, out.rows[k], Set::full()));
        if exists|i: int| 0 <= i < aggs.len() && (#[trigger] aggs[i]).out == n {
            let i = choose|i: int|
                0 <= i < aggs.len() && (#[trigger] aggs[i]).out == n && agg_masks(aggs, acc)[n]
                    == agg_mask(aggs[i].func);
            let c = keys.len() + i;
            assert(out.schema[c] == n);
            cell_at(out.schema, row, c);
            assert(row[c] == value_slot(agg_cell::<N>(d, b.schema, ms, aggs[i])));
            assert(aggs[i].func is CountStar || aggs[i].func is Count);
        } else {
            assert(acc.contains_key(n));
            assert(keys.contains(n));
            let i = choose|i: int| 0 <= i < keys.len() && keys[i] == n;
            assert(types.contains_key(n) && types[n].bound());
            assert(out.schema[i] == n);
            cell_at(out.schema, row, i);
            deduped_facts(group_ids(b, keys, m));
            assert(deduped(group_ids(b, keys, m)).contains(id));
            let j = choose|j: int| 0 <= j < m && group_ids(b, keys, m)[j] == id;
            group_has_members(b, keys, id, j, m);
            members_bound(b, keys, id, m, n);
            assert(bound_in(b.schema, ms[0], n));
            assert(row[i] == laid_out(b.schema, ms[0], keys)[i]);
        }
    }
}

proof fn per_graph_binds(
    d: Dict,
    var: Text,
    graphs: Seq<NamedGraphView>,
    parts: Seq<BatchView>,
    upto: int,
    n: Text,
)
    requires
        upto <= parts.len(),
        upto <= graphs.len(),
        bound_to_their_names(d, graphs),
        n == var || forall|i: int| 0 <= i < upto ==> bound_throughout(#[trigger] parts[i], n),
    ensures
        bound_throughout(per_graph_batch(d, var, graphs, parts, upto), n),
    decreases upto,
{
    if upto > 0 {
        per_graph_binds(d, var, graphs, parts, upto - 1, n);
        let part = parts[upto - 1];
        let g = graph_batch(var, graphs[upto - 1].binding);
        if n == var {
            assert(bound_throughout(g, n)) by {
                assert forall|k: int| 0 <= k < g.rows.len() implies bound_in(
                    g.schema,
                    #[trigger] g.rows[k],
                    n,
                ) by {
                    cell_at(g.schema, g.rows[k], 0);
                }
            }
        }
        join_binds(d, part, g, n);
        union_binds(d, per_graph_batch(d, var, graphs, parts, upto - 1), join_batch(d, part, g), n);
    }
}

proof fn pairs_bind(
    subject: TermView,
    object: TermView,
    terms: Seq<TermView>,
    pairs: Seq<(Text, Text)>,
    n: Text,
)
    requires
        subject == TermView::Var(n) || object == TermView::Var(n),
    ensures
        forall|k: int|
            0 <= k < pair_solutions(subject, object, terms, pairs).len()
                ==> (#[trigger] pair_solutions(subject, object, terms, pairs)[k]).contains_key(n),
    decreases pairs.len(),
{
    let all = pair_solutions(subject, object, terms, pairs);
    if pairs.len() > 0 {
        let rest = pair_solutions(subject, object, terms, pairs.drop_last());
        pairs_bind(subject, object, terms, pairs.drop_last(), n);
        assert forall|k: int| 0 <= k < all.len() implies (#[trigger] all[k]).contains_key(n) by {
            if k < rest.len() {
                assert(all[k] == rest[k]);
            } else {
                assert(bind_pair(subject, object, terms, pairs.last()) == Some(all[k]));
            }
        }
    }
}

/// A path binds both its ends.
proof fn path_binds(
    subject: TermView,
    object: TermView,
    rows: Seq<Map<Text, TermView>>,
    reflexive: bool,
    found: Seq<Map<Text, TermView>>,
    n: Text,
)
    requires
        path_solutions(subject, object, rows, reflexive, found),
        subject == TermView::Var(n) || object == TermView::Var(n),
    ensures
        bound_throughout(
            term_batch(endpoint_vars(object, endpoint_vars(subject, Seq::empty())), found),
            n,
        ),
{
    let vars = endpoint_vars(object, endpoint_vars(subject, Seq::empty()));
    let b = term_batch(vars, found);
    let terms = path_terms(subject, object, rows, reflexive);
    let ps = choose|ps: Seq<(Text, Text)>| #[trigger]
        pairs_sorted(ps) && found == pair_solutions(subject, object, terms, ps);
    pairs_bind(subject, object, terms, ps, n);
    assert(vars.contains(n)) by {
        let s = endpoint_vars(subject, Seq::empty());
        if subject == TermView::Var(n) {
            assert(s[0] == n);
            assert(vars[0] == n);
        } else {
            if !s.contains(n) {
                assert(vars[s.len() as int] == n);
            }
        }
    }
    assert forall|k: int| 0 <= k < b.rows.len() implies bound_in(b.schema, #[trigger] b.rows[k], n) by {
        position_facts(vars, n);
        assert(found[k].contains_key(n));
    }
}

proof fn endpoint_masks_keys(subject: TermView, object: TermView, n: Text)
    requires
        endpoint_masks(object, endpoint_masks(subject, Map::empty())).contains_key(n),
    ensures
        subject == TermView::Var(n) || object == TermView::Var(n),
{
}

// ── The law ─────────────────────────────────────────────────────────────────

/// The types of a plan are sound: a variable that is inferred to be bound is
/// bound in every row that the plan yields. Every name of the plan is to stand
/// for one thing in its rows.
#[verifier::rlimit(100)]
#[verifier::spinoff_prover]
pub proof fn inferred_variables_are_bound<E: Executor>(
    exec: &E,
    q: QueryView,
    env: Map<Text, Text>,
    plan: LogicalView,
    run: Run,
    n: Text,
)
    requires
        tells_columns(physical_view(plan)),
        is_run(exec, q, env, physical_view(plan), run),
        infer_view(plan).contains_key(n),
        infer_view(plan)[n].bound(),
    ensures
        bound_throughout(run.out, n),
    decreases plan,
{
    let d = exec.dict();
    let first = run.below[0];
    let second = run.below[1];
    match plan {
        LogicalView::Bgp { patterns, .. } => {
            bgp_masks_keys(patterns);
        },
        LogicalView::Join { left, right } => {
            let (l, r) = (infer_view(*left), infer_view(*right));
            if l.contains_key(n) && r.contains_key(n) {
                mask_facts(l[n], r[n]);
            }
            if l.contains_key(n) && l[n].bound() {
                inferred_variables_are_bound(exec, q, env, *left, first, n);
            } else {
                inferred_variables_are_bound(exec, q, env, *right, second, n);
            }
            join_binds(d, first.out, second.out, n);
        },
        LogicalView::LeftJoin { left, right, expr } => {
            let (l, r) = (infer_view(*left), infer_view(*right));
            if r.contains_key(n) {
                mask_facts(r[n], r[n]);
                if l.contains_key(n) {
                    mask_facts(l[n], r[n]);
                }
            }
            inferred_variables_are_bound(exec, q, env, *left, first, n);
            left_join_binds::<E::N>(d, first.out, second.out, expr, n);
        },
        LogicalView::Minus { left, .. } => {
            inferred_variables_are_bound(exec, q, env, *left, first, n);
            remaining_bound(d, first.out, second.out, first.out.rows.len() as int, n);
        },
        LogicalView::Union { left, right } => {
            let (l, r) = (infer_view(*left), infer_view(*right));
            if l.contains_key(n) {
                mask_facts(l[n], l[n]);
                if r.contains_key(n) {
                    mask_facts(l[n], r[n]);
                }
            } else {
                mask_facts(r[n], r[n]);
            }
            inferred_variables_are_bound(exec, q, env, *left, first, n);
            inferred_variables_are_bound(exec, q, env, *right, second, n);
            union_binds(d, first.out, second.out, n);
        },
        LogicalView::Filter { expr, inner } => {
            inferred_variables_are_bound(exec, q, env, *inner, first, n);
            satisfying_bound::<E::N>(d, first.out.schema, first.out.rows, Some(expr), n);
        },
        LogicalView::Slice { inner, start, length } => {
            inferred_variables_are_bound(exec, q, env, *inner, first, n);
            slice_bound(first.out, start as int, length, n);
        },
        LogicalView::OrderBy { inner, keys } => {
            inferred_variables_are_bound(exec, q, env, *inner, first, n);
            order_bound::<E::N>(d, first.out, keys, run.out, n);
        },
        LogicalView::Distinct { inner } => {
            inferred_variables_are_bound(exec, q, env, *inner, first, n);
            distinct_bound(first.out.schema, first.out.rows, n);
        },
        LogicalView::Project { vars, inner } => {
            mask_facts(TypeMask::of(0), TypeMask::of(0));
            inferred_variables_are_bound(exec, q, env, *inner, first, n);
            project_binds(first.out, vars, n);
        },
        LogicalView::Extend { inner, var, expr } => {
            let t = infer_view(*inner);
            mask_facts(t[var], TypeMask::of(0b1_1111));
            run_columns(exec, q, env, physical_view(*inner), first);
            reveal(repeats_within);
            inferred_variables_are_bound(exec, q, env, *inner, first, n);
            extend_binds::<E::N>(d, first.out, var, expr, n);
        },
        LogicalView::Values { vars, rows } => {
            values_bind(vars, rows, n);
        },
        LogicalView::Group { inner, keys, aggregates } => {
            let t = infer_view(*inner);
            if t.contains_key(n) && t[n].bound() {
                inferred_variables_are_bound(exec, q, env, *inner, first, n);
            }
            group_binds::<E::N>(d, first.out, t, keys, aggregates, run.out, n);
        },
        LogicalView::PerGraph { var, inner } => {
            let parts = outs(run.below);
            let m = run.graphs.len() as int;
            if n != var {
                assert forall|i: int| 0 <= i < m implies bound_throughout(#[trigger] parts[i], n) by {
                    let at = env.insert(var, run.graphs[i].iri);
                    assert(is_run(exec, q, at, physical_view(*inner), run.below[i]));
                    inferred_variables_are_bound(exec, q, at, *inner, run.below[i], n);
                }
            }
            per_graph_binds(d, var, run.graphs, parts, m, n);
        },
        LogicalView::PathClosure { subject, object, reflexive, .. } => {
            endpoint_masks_keys(subject, object, n);
            path_binds(
                subject,
                object,
                edge_maps(d, first.out),
                reflexive,
                run.found,
                n,
            );
        },
    }
}

}
