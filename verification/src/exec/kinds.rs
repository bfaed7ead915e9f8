//! What the types of a plan say of its solutions: a term is of a kind that is
//! inferred for the variable it is bound to.

use crate::algebra::{AggregateView, ExprView, OrderDir, PatternView, TermView};
use crate::exec::aggregate::{deduped, deduped_facts};
use crate::exec::batch::{
    position_facts, slot_term, solution, BatchView, Dict, KeyView, SlotView,
};
use crate::exec::boundness::{
    agg_masks_at, all_bound, bound_throughout, candidates_bound, even, group_has_members,
    inferred_variables_are_bound, joined_even, merge_all_even, satisfying_even, values_masks_at,
};
use crate::exec::executor::{binds, bound_to_their_names, Executor};
use crate::exec::group::{
    agg_cell, group_batch, group_ids, group_list, group_row, group_rows_of, group_schema,
    members,
};
use crate::exec::invariance::{
    group_fits, outputs_apart, repeats_within, run_columns, tells_columns,
};
use crate::exec::join::{
    bound_in, candidates, cell, force_rows, forced_columns, join_batch, joined_rows,
    left_join_batch, left_joined_rows, optional_rows, remaining_rows, satisfying, split,
    unbound_row, Sides,
};
use crate::exec::narrow::{
    cell_at, cell_is_some, extended_cells, one_valued, project_keeps_cells, projected_names,
    repeated, rows_agree, solution_of_cell,
};
use crate::exec::narrow_join::{added_names, merged_cell};
use crate::exec::number::Numbers;
use crate::exec::operators::{
    distinct_slot_rows, extend_batch, laid_out, laid_out_all, mixed_columns, project_batch,
    slice_batch, slice_rows, union_batch, value_slot, values_batch,
};
use crate::exec::order::{arranged, order_batch, resolves_all};
use crate::exec::runtime::{graph_batch, is_run, outs, per_graph_batch, QueryView, Run};
use crate::exec::scope::{NamedGraphView, ScopeView};
use crate::exec::sort::{enumerates_rows, merge_sorted, sorting_is_stable, SortCol};
use crate::plan::logical::LogicalView;
use crate::plan::lower::physical_view;
use crate::plan::passes::{add_all_unique, endpoint_vars};
use crate::plan::types::{
    agg_mask, agg_masks, bgp_masks, cell_bit, column_masks, combine_masks, endpoint_masks,
    infer_view, kind_bit, values_mask, values_masks, Combine, TypeMask,
};
use crate::text::Text;
use vstd::prelude::*;

verus! {

// ── Kinds ───────────────────────────────────────────────────────────────────

/// Does a mask allow a term? A variable is no term of a solution.
pub open spec fn allows(m: TypeMask, t: TermView) -> bool {
    t is Var || kind_bit(t) & m.bits != 0
}

/// The mask of a name: unbound where the types do not have it.
pub open spec fn mask_of(types: Map<Text, TypeMask>, n: Text) -> TypeMask {
    if types.contains_key(n) {
        types[n]
    } else {
        TypeMask::of(TypeMask::UNDEF)
    }
}

/// Is what a row binds a name to of a kind the mask allows?
pub open spec fn row_allowed(
    d: Dict,
    s: Seq<Text>,
    row: Seq<SlotView>,
    n: Text,
    m: TypeMask,
) -> bool {
    match cell(s, row, n) {
        Some(x) => match slot_term(d, x) {
            Some(t) => allows(m, t),
            None => true,
        },
        None => true,
    }
}

/// Is what every row of a batch binds a name to of a kind the mask allows?
pub open spec fn allowed_throughout(d: Dict, b: BatchView, n: Text, m: TypeMask) -> bool {
    forall|k: int| 0 <= k < b.rows.len() ==> row_allowed(d, b.schema, #[trigger] b.rows[k], n, m)
}

spec fn all_allowed(
    d: Dict,
    s: Seq<Text>,
    rows: Seq<Seq<SlotView>>,
    n: Text,
    m: TypeMask,
) -> bool {
    forall|k: int| 0 <= k < rows.len() ==> row_allowed(d, s, #[trigger] rows[k], n, m)
}

/// Does a scan bind every variable to terms that its positions allow?
pub open spec fn scans_by_position<E: Executor>(exec: &E) -> bool {
    forall|patterns: Seq<PatternView>, scope: ScopeView, out: BatchView, n: Text|
        #![trigger exec.scans(patterns, scope, out), mask_of(bgp_masks(patterns), n)]
        exec.scans(patterns, scope, out) && binds(patterns, out) ==> allowed_throughout(
            exec.dict(),
            out,
            n,
            mask_of(bgp_masks(patterns), n),
        )
}

pub proof fn kind_facts(t: TermView, l: TypeMask, r: TypeMask)
    ensures
        allows(l, t) || allows(r, t) ==> allows(l.either(r), t),
        allows(l.either(l), t) ==> allows(l, t),
        allows(l.either(TypeMask::of(1)), t) ==> allows(l, t),
        allows(TypeMask::of(1).either(l), t) ==> allows(l, t),
        allows(l, t) ==> allows(l.optional(), t),
        allows(l, t) && allows(r, t) ==> allows(l.meet(r), t),
        allows(l, t) && !r.bound() ==> allows(l.meet(r), t),
        allows(r, t) && !l.bound() ==> allows(l.meet(r), t),
        allows(l.meet(TypeMask::of(1)), t) ==> allows(l, t),
        allows(TypeMask::of(1).meet(l), t) ==> allows(l, t),
        allows(TypeMask::of(31), t),
        allows(TypeMask::of(30), t),
{
    if !(t is Var) {
        let k = kind_bit(t);
        bit_facts(k, l.bits, r.bits);
        bit_facts(k, l.bits, 1u8);
        bit_facts(k, 1u8, l.bits);
        bit_facts(k, 31u8, 30u8);
    }
}

spec fn met(a: u8, b: u8) -> u8 {
    TypeMask::of(a).meet(TypeMask::of(b)).bits
}

proof fn bit_facts(k: u8, a: u8, b: u8)
    requires
        k == 2u8 || k == 4u8 || k == 8u8 || k == 16u8,
    ensures
        k & a != 0 || k & b != 0 ==> k & (a | b) != 0,
        k & (a | a) != 0 ==> k & a != 0,
        k & (a | 1u8) != 0 <==> k & a != 0,
        k & (1u8 | a) != 0 <==> k & a != 0,
        k & a != 0 && k & b != 0 ==> k & met(a, b) != 0,
        k & a != 0 && b & 1u8 != 0 ==> k & met(a, b) != 0,
        k & b != 0 && a & 1u8 != 0 ==> k & met(a, b) != 0,
        b == 1u8 && k & met(a, b) != 0 ==> k & a != 0,
        a == 1u8 && k & met(a, b) != 0 ==> k & b != 0,
        k & 31u8 != 0,
        k & 30u8 != 0,
{
    let both = a & b & 30u8;
    let mine = if b & 1u8 != 0 {
        a & 30u8
    } else {
        0u8
    };
    let theirs = if a & 1u8 != 0 {
        b & 30u8
    } else {
        0u8
    };
    let m = met(a, b);
    assert(m == both | mine | theirs | (a & b & 1u8));
    assert((k == 2u8 || k == 4u8 || k == 8u8 || k == 16u8) ==> {
        &&& (k & a != 0 || k & b != 0 ==> k & (a | b) != 0)
        &&& (k & (a | a) != 0 ==> k & a != 0)
        &&& (k & (a | 1u8) != 0 <==> k & a != 0)
        &&& (k & (1u8 | a) != 0 <==> k & a != 0)
        &&& k & 31u8 != 0
        &&& k & 30u8 != 0
    }) by (bit_vector);
    assert((k == 2u8 || k == 4u8 || k == 8u8 || k == 16u8) && both == a & b & 30u8 && mine == (if b
        & 1u8 != 0 {
        a & 30u8
    } else {
        0u8
    }) && theirs == (if a & 1u8 != 0 {
        b & 30u8
    } else {
        0u8
    }) && m == both | mine | theirs | (a & b & 1u8) ==> {
        &&& (k & a != 0 && k & b != 0 ==> k & m != 0)
        &&& (k & a != 0 && b & 1u8 != 0 ==> k & m != 0)
        &&& (k & b != 0 && a & 1u8 != 0 ==> k & m != 0)
        &&& (b == 1u8 && k & m != 0 ==> k & a != 0)
        &&& (a == 1u8 && k & m != 0 ==> k & b != 0)
    }) by (bit_vector);
}

/// What one mask allows throughout, a wider one does.
proof fn widened(d: Dict, b: BatchView, n: Text, l: TypeMask, r: TypeMask)
    requires
        allowed_throughout(d, b, n, l),
        forall|t: TermView| #[trigger] allows(l, t) ==> allows(r, t),
    ensures
        allowed_throughout(d, b, n, r),
{
    assert forall|k: int| 0 <= k < b.rows.len() implies row_allowed(
        d,
        b.schema,
        #[trigger] b.rows[k],
        n,
        r,
    ) by {
        assert(row_allowed(d, b.schema, b.rows[k], n, l));
    }
}

// ── Operators that pick rows ────────────────────────────────────────────────

proof fn fewer(d: Dict, s: Seq<Text>, rows: Seq<Seq<SlotView>>, n: Text, m: TypeMask)
    requires
        rows.len() > 0,
        all_allowed(d, s, rows, n, m),
    ensures
        all_allowed(d, s, rows.drop_last(), n, m),
        row_allowed(d, s, rows.last(), n, m),
{
    let rest = rows.drop_last();
    assert forall|k: int| 0 <= k < rest.len() implies row_allowed(d, s, #[trigger] rest[k], n, m) by {
        assert(rest[k] == rows[k]);
    }
    assert(row_allowed(d, s, rows[rows.len() - 1], n, m));
}

proof fn satisfying_allowed<N: Numbers>(
    d: Dict,
    s: Seq<Text>,
    rows: Seq<Seq<SlotView>>,
    cond: Option<ExprView>,
    n: Text,
    m: TypeMask,
)
    requires
        all_allowed(d, s, rows, n, m),
    ensures
        all_allowed(d, s, satisfying::<N>(d, s, rows, cond), n, m),
    decreases rows.len(),
{
    if rows.len() > 0 {
        fewer(d, s, rows, n, m);
        satisfying_allowed::<N>(d, s, rows.drop_last(), cond, n, m);
    }
}

proof fn distinct_allowed(d: Dict, s: Seq<Text>, rows: Seq<Seq<SlotView>>, n: Text, m: TypeMask)
    requires
        all_allowed(d, s, rows, n, m),
    ensures
        all_allowed(d, s, distinct_slot_rows(rows), n, m),
    decreases rows.len(),
{
    if rows.len() > 0 {
        fewer(d, s, rows, n, m);
        distinct_allowed(d, s, rows.drop_last(), n, m);
    }
}

proof fn remaining_allowed(
    d: Dict,
    left: BatchView,
    right: BatchView,
    upto: int,
    n: Text,
    m: TypeMask,
)
    requires
        allowed_throughout(d, left, n, m),
        upto <= left.rows.len(),
    ensures
        all_allowed(d, left.schema, remaining_rows(d, left, right, upto), n, m),
    decreases upto,
{
    if upto > 0 {
        remaining_allowed(d, left, right, upto - 1, n, m);
        assert(row_allowed(d, left.schema, left.rows[upto - 1], n, m));
    }
}

proof fn slice_allowed(
    d: Dict,
    b: BatchView,
    start: int,
    length: Option<usize>,
    n: Text,
    m: TypeMask,
)
    requires
        allowed_throughout(d, b, n, m),
        0 <= start,
    ensures
        allowed_throughout(d, slice_batch(b, start, length), n, m),
{
    let x = slice_rows(b.rows, start, length);
    assert forall|k: int| 0 <= k < x.len() implies row_allowed(
        d,
        b.schema,
        #[trigger] x[k],
        n,
        m,
    ) by {
        assert(x[k] == b.rows[start + k]);
    }
}

proof fn order_allowed<N: Numbers>(
    d: Dict,
    b: BatchView,
    keys: Seq<(ExprView, OrderDir)>,
    out: BatchView,
    n: Text,
    m: TypeMask,
)
    requires
        order_batch::<N>(d, b, keys, out),
        allowed_throughout(d, b, n, m),
    ensures
        allowed_throughout(d, out, n, m),
{
    let cols = choose|cols: Seq<(SortCol<N>, OrderDir)>| #[trigger]
        resolves_all::<N>(d, b, keys, cols) && out == (BatchView {
            schema: b.schema,
            rows: arranged(b.rows, merge_sorted(cols, 0, b.rows.len() as int)),
        });
    let order = merge_sorted(cols, 0, b.rows.len() as int);
    if b.rows.len() <= usize::MAX {
        sorting_is_stable(cols, b.rows.len() as int);
    }
    assert forall|k: int| 0 <= k < out.rows.len() implies row_allowed(
        d,
        out.schema,
        #[trigger] out.rows[k],
        n,
        m,
    ) by {
        assert(order.contains(order[k]));
        assert(out.rows[k] == b.rows[order[k] as int]);
    }
}

// ── Joins ───────────────────────────────────────────────────────────────────

/// The kinds of a merged row: those of both sides where both bind the name,
/// and otherwise those of the side that does.
proof fn merge_allowed(
    d: Dict,
    s: Sides,
    a: Seq<SlotView>,
    b: Seq<SlotView>,
    n: Text,
    l: TypeMask,
    r: TypeMask,
)
    requires
        s.compatible(d, a, b),
        row_allowed(d, s.left, a, n, l),
        row_allowed(d, s.right, b, n, r),
    ensures
        row_allowed(d, s.out(), s.merge(d, a, b)->0, n, l.either(r)),
        (l.bound() ==> bound_in(s.left, a, n)) && (r.bound() ==> bound_in(s.right, b, n))
            ==> row_allowed(d, s.out(), s.merge(d, a, b)->0, n, l.meet(r)),
{
    let x = s.merge(d, a, b)->0;
    merged_cell(d, s, a, b, n);
    added_names(s.left, s.right);
    cell_is_some(s.left, a, n);
    cell_is_some(s.right, b, n);
    if s.out().contains(n) {
        let c = choose|c: int| 0 <= c < s.out().len() && s.out()[c] == n;
        assert(s.slot(d, a, b, c) is Some);
        if let Some(t) = slot_term(d, cell(s.out(), x, n)->0) {
            kind_facts(t, l, r);
        }
    }
}

proof fn merge_all_allowed(
    d: Dict,
    s: Sides,
    a: Seq<SlotView>,
    rows: Seq<Seq<SlotView>>,
    n: Text,
    l: TypeMask,
    r: TypeMask,
)
    requires
        row_allowed(d, s.left, a, n, l),
        all_allowed(d, s.right, rows, n, r),
    ensures
        all_allowed(d, s.out(), s.merge_all(d, a, rows), n, l.either(r)),
        (l.bound() ==> bound_in(s.left, a, n)) && (r.bound() ==> all_bound(s.right, rows, n))
            ==> all_allowed(d, s.out(), s.merge_all(d, a, rows), n, l.meet(r)),
    decreases rows.len(),
{
    if rows.len() > 0 {
        let rest = rows.drop_last();
        fewer(d, s.right, rows, n, r);
        if all_bound(s.right, rows, n) {
            assert forall|k: int| 0 <= k < rest.len() implies bound_in(
                s.right,
                #[trigger] rest[k],
                n,
            ) by {
                assert(rest[k] == rows[k]);
            }
            assert(bound_in(s.right, rows[rows.len() - 1], n));
        }
        merge_all_allowed(d, s, a, rest, n, l, r);
        if s.compatible(d, a, rows.last()) {
            merge_allowed(d, s, a, rows.last(), n, l, r);
        }
    }
}

proof fn split_allowed(
    d: Dict,
    left: Seq<Text>,
    right: BatchView,
    upto: int,
    want: bool,
    n: Text,
    m: TypeMask,
)
    requires
        allowed_throughout(d, right, n, m),
        upto <= right.rows.len(),
    ensures
        all_allowed(d, right.schema, split(left, right, upto, want), n, m),
    decreases upto,
{
    if upto > 0 {
        split_allowed(d, left, right, upto - 1, want, n, m);
        assert(row_allowed(d, right.schema, right.rows[upto - 1], n, m));
    }
}

proof fn both_allowed(
    d: Dict,
    s: Seq<Text>,
    a: Seq<Seq<SlotView>>,
    b: Seq<Seq<SlotView>>,
    n: Text,
    m: TypeMask,
)
    requires
        all_allowed(d, s, a, n, m),
        all_allowed(d, s, b, n, m),
    ensures
        all_allowed(d, s, a + b, n, m),
{
    assert forall|k: int| 0 <= k < (a + b).len() implies row_allowed(
        d,
        s,
        #[trigger] (a + b)[k],
        n,
        m,
    ) by {
        if k < a.len() {
            assert((a + b)[k] == a[k]);
        } else {
            assert((a + b)[k] == b[k - a.len()]);
        }
    }
}

proof fn candidates_allowed(
    d: Dict,
    left: Seq<Text>,
    right: BatchView,
    a: Seq<SlotView>,
    n: Text,
    m: TypeMask,
)
    requires
        allowed_throughout(d, right, n, m),
    ensures
        all_allowed(d, right.schema, candidates(left, right, a), n, m),
{
    let c = right.rows.len() as int;
    split_allowed(d, left, right, c, true, n, m);
    split_allowed(d, left, right, c, false, n, m);
    both_allowed(
        d,
        right.schema,
        split(left, right, c, true),
        split(left, right, c, false),
        n,
        m,
    );
}

proof fn joined_allowed(
    d: Dict,
    left: BatchView,
    right: BatchView,
    upto: int,
    n: Text,
    l: TypeMask,
    r: TypeMask,
)
    requires
        allowed_throughout(d, left, n, l),
        allowed_throughout(d, right, n, r),
        l.bound() ==> bound_throughout(left, n),
        r.bound() ==> bound_throughout(right, n),
        upto <= left.rows.len(),
    ensures
        all_allowed(
            d,
            (Sides { left: left.schema, right: right.schema }).out(),
            joined_rows(d, left, right, upto),
            n,
            l.meet(r),
        ),
    decreases upto,
{
    if upto > 0 {
        let s = Sides { left: left.schema, right: right.schema };
        let a = left.rows[upto - 1];
        joined_allowed(d, left, right, upto - 1, n, l, r);
        let c = candidates(left.schema, right, a);
        candidates_allowed(d, left.schema, right, a, n, r);
        if r.bound() {
            candidates_bound(left.schema, right, a, n);
        }
        assert(row_allowed(d, left.schema, a, n, l));
        if l.bound() {
            assert(bound_in(left.schema, a, n));
        }
        merge_all_allowed(d, s, a, c, n, l, r);
        both_allowed(
            d,
            s.out(),
            joined_rows(d, left, right, upto - 1),
            s.merge_all(d, a, c),
            n,
            l.meet(r),
        );
    }
}

/// Decoding a column keeps its terms.
proof fn forced_allowed(
    d: Dict,
    s: Seq<Text>,
    rows: Seq<Seq<SlotView>>,
    columns: Seq<bool>,
    n: Text,
    m: TypeMask,
)
    requires
        all_allowed(d, s, rows, n, m),
        even(rows, s.len()),
    ensures
        all_allowed(d, s, force_rows(d, rows, columns), n, m),
{
    let x = force_rows(d, rows, columns);
    assert forall|k: int| 0 <= k < x.len() implies row_allowed(d, s, #[trigger] x[k], n, m) by {
        assert(row_allowed(d, s, rows[k], n, m));
        assert(rows[k].len() == s.len());
        position_facts(s, n);
    }
}

proof fn join_allowed(
    d: Dict,
    left: BatchView,
    right: BatchView,
    n: Text,
    l: TypeMask,
    r: TypeMask,
)
    requires
        allowed_throughout(d, left, n, l),
        allowed_throughout(d, right, n, r),
        l.bound() ==> bound_throughout(left, n),
        r.bound() ==> bound_throughout(right, n),
    ensures
        allowed_throughout(d, join_batch(d, left, right), n, l.meet(r)),
{
    let m = left.rows.len() as int;
    joined_allowed(d, left, right, m, n, l, r);
    joined_even(d, left, right, m);
    forced_allowed(
        d,
        (Sides { left: left.schema, right: right.schema }).out(),
        joined_rows(d, left, right, m),
        forced_columns(left, right),
        n,
        l.meet(r),
    );
}

proof fn optional_allowed<N: Numbers>(
    d: Dict,
    left: BatchView,
    right: BatchView,
    cond: Option<ExprView>,
    upto: int,
    n: Text,
    l: TypeMask,
    r: TypeMask,
)
    requires
        allowed_throughout(d, left, n, l),
        allowed_throughout(d, right, n, r),
        upto <= left.rows.len(),
    ensures
        ({
            let s = Sides { left: left.schema, right: right.schema };
            let x = left_joined_rows::<N>(d, left, right, cond, upto);
            &&& all_allowed(d, s.out(), x, n, l.either(r))
            &&& even(x, s.out().len())
        }),
    decreases upto,
{
    if upto > 0 {
        let s = Sides { left: left.schema, right: right.schema };
        let e = l.either(r);
        let a = left.rows[upto - 1];
        optional_allowed::<N>(d, left, right, cond, upto - 1, n, l, r);
        assert(row_allowed(d, left.schema, a, n, l));
        let among = candidates(left.schema, right, a);
        let c = s.merge_all(d, a, among);
        candidates_allowed(d, left.schema, right, a, n, r);
        merge_all_allowed(d, s, a, among, n, l, r);
        merge_all_even(d, s, a, among);
        satisfying_allowed::<N>(d, s.out(), c, cond, n, e);
        satisfying_even::<N>(d, s.out(), c, cond);
        let u = unbound_row(right.schema.len());
        assert(s.compatible(d, a, u)) by {
            assert forall|i: int| 0 <= i < s.out().len() implies (#[trigger] s.slot(
                d,
                a,
                u,
                i,
            )) is Some by {
                position_facts(s.right, s.out()[i]);
                position_facts(s.left, s.out()[i]);
                added_names(s.left, s.right);
                assert(s.out().contains(s.out()[i]));
            }
        }
        position_facts(s.right, n);
        assert(row_allowed(d, s.right, u, n, r));
        merge_allowed(d, s, a, u, n, l, r);
        let more = optional_rows::<N>(d, left.schema, right, a, cond);
        let rest = left_joined_rows::<N>(d, left, right, cond, upto - 1);
        both_allowed(d, s.out(), rest, more, n, e);
        assert forall|k: int| 0 <= k < (rest + more).len() implies (#[trigger] (rest + more)[k]).len()
            == s.out().len() by {
            if k < rest.len() {
                assert((rest + more)[k] == rest[k]);
            } else {
                assert((rest + more)[k] == more[k - rest.len()]);
            }
        }
    }
}

proof fn left_join_allowed<N: Numbers>(
    d: Dict,
    left: BatchView,
    right: BatchView,
    cond: Option<ExprView>,
    n: Text,
    l: TypeMask,
    r: TypeMask,
)
    requires
        allowed_throughout(d, left, n, l),
        allowed_throughout(d, right, n, r),
    ensures
        allowed_throughout(d, left_join_batch::<N>(d, left, right, cond), n, l.either(r)),
{
    let m = left.rows.len() as int;
    optional_allowed::<N>(d, left, right, cond, m, n, l, r);
    forced_allowed(
        d,
        (Sides { left: left.schema, right: right.schema }).out(),
        left_joined_rows::<N>(d, left, right, cond, m),
        forced_columns(left, right),
        n,
        l.either(r),
    );
}

proof fn laid_out_allowed(d: Dict, b: BatchView, s: Seq<Text>, n: Text, m: TypeMask)
    requires
        allowed_throughout(d, b, n, m),
    ensures
        all_allowed(d, s, laid_out_all(b, s), n, m),
{
    let x = laid_out_all(b, s);
    assert forall|k: int| 0 <= k < x.len() implies row_allowed(d, s, #[trigger] x[k], n, m) by {
        assert(row_allowed(d, b.schema, b.rows[k], n, m));
        position_facts(s, n);
    }
}

proof fn union_allowed(
    d: Dict,
    a: BatchView,
    b: BatchView,
    n: Text,
    l: TypeMask,
    r: TypeMask,
)
    requires
        allowed_throughout(d, a, n, l),
        allowed_throughout(d, b, n, r),
    ensures
        allowed_throughout(d, union_batch(d, a, b), n, l.either(r)),
{
    let s = add_all_unique(a.schema, b.schema);
    let m = l.either(r);
    assert forall|t: TermView| #[trigger] allows(l, t) implies allows(m, t) by {
        kind_facts(t, l, r);
    }
    assert forall|t: TermView| #[trigger] allows(r, t) implies allows(m, t) by {
        kind_facts(t, l, r);
    }
    widened(d, a, n, l, m);
    widened(d, b, n, r, m);
    laid_out_allowed(d, a, s, n, m);
    laid_out_allowed(d, b, s, n, m);
    let (x, y) = (laid_out_all(a, s), laid_out_all(b, s));
    both_allowed(d, s, x, y, n, m);
    assert forall|k: int| 0 <= k < (x + y).len() implies (#[trigger] (x + y)[k]).len() == s.len() by {
        if k < x.len() {
            assert((x + y)[k] == x[k]);
        } else {
            assert((x + y)[k] == y[k - x.len()]);
        }
    }
    forced_allowed(d, s, x + y, mixed_columns(x + y, s.len()), n, m);
}

/// The masks of a binary operator allow what those of its sides do together.
proof fn combined(how: Combine, l: Map<Text, TypeMask>, r: Map<Text, TypeMask>, n: Text, t: TermView)
    requires
        allows(
            if how is Join {
                mask_of(l, n).meet(mask_of(r, n))
            } else {
                mask_of(l, n).either(mask_of(r, n))
            },
            t,
        ),
    ensures
        allows(mask_of(combine_masks(how, l, r), n), t),
{
    let one = TypeMask::of(1);
    kind_facts(t, mask_of(l, n), mask_of(r, n));
    kind_facts(t, mask_of(r, n), mask_of(l, n));
    kind_facts(t, one, one);
}

// ── The other operators ─────────────────────────────────────────────────────

proof fn project_allowed(
    d: Dict,
    b: BatchView,
    vars: Seq<Text>,
    types: Map<Text, TypeMask>,
    n: Text,
)
    requires
        vars.len() > 0,
        allowed_throughout(d, b, n, mask_of(types, n)),
    ensures
        allowed_throughout(d, project_batch(b, vars), n, mask_of(column_masks(types, vars), n)),
{
    let p = project_batch(b, vars);
    let m = mask_of(column_masks(types, vars), n);
    projected_names(b.schema, vars);
    assert forall|k: int| 0 <= k < p.rows.len() implies row_allowed(
        d,
        p.schema,
        #[trigger] p.rows[k],
        n,
        m,
    ) by {
        project_keeps_cells(b, vars, k);
        cell_is_some(p.schema, p.rows[k], n);
        if vars.contains(n) {
            assert(row_allowed(d, b.schema, b.rows[k], n, mask_of(types, n)));
            assert(cell(p.schema, p.rows[k], n) == cell(b.schema, b.rows[k], n));
            if let Some(x) = cell(p.schema, p.rows[k], n) {
                if let Some(t) = slot_term(d, x) {
                    kind_facts(t, m, m);
                }
            }
        }
    }
}

proof fn extend_allowed<N: Numbers>(
    d: Dict,
    b: BatchView,
    var: Text,
    e: ExprView,
    n: Text,
    m: TypeMask,
)
    requires
        !repeated(b.schema, var),
        b.wf(),
        forall|k: int| 0 <= k < b.rows.len() ==> one_valued(b.schema, #[trigger] b.rows[k]),
        n != var,
        allowed_throughout(d, b, n, m),
    ensures
        allowed_throughout(d, extend_batch::<N>(d, b, var, e), n, m),
{
    let x = extend_batch::<N>(d, b, var, e);
    assert forall|k: int| 0 <= k < x.rows.len() implies row_allowed(
        d,
        x.schema,
        #[trigger] x.rows[k],
        n,
        m,
    ) by {
        assert(row_allowed(d, b.schema, b.rows[k], n, m));
        extended_cells::<N>(d, b, var, e, k);
        assert(cell(x.schema, x.rows[k], n) == cell(b.schema, b.rows[k], n));
    }
}

proof fn values_column_allowed(rows: Seq<Seq<Option<TermView>>>, c: int, k: int)
    requires
        0 <= k < rows.len(),
        0 <= c < rows[k].len(),
        rows[k][c] is Some,
    ensures
        allows(TypeMask::of(values_mask(rows, c)), rows[k][c]->0),
    decreases rows.len(),
{
    let t = rows[k][c]->0;
    let (a, b) = (values_mask(rows.drop_last(), c), cell_bit(rows.last(), c));
    assert(values_mask(rows, c) == a | b);
    kind_facts(t, TypeMask::of(a), TypeMask::of(b));
    if k < rows.len() - 1 {
        values_column_allowed(rows.drop_last(), c, k);
    } else if !(t is Var) {
        let w = kind_bit(t);
        assert(w == 2u8 || w == 4u8 || w == 8u8 || w == 16u8 ==> w & w != 0) by (bit_vector);
    }
}

proof fn values_allowed(d: Dict, vars: Seq<Text>, rows: Seq<Seq<Option<TermView>>>, n: Text)
    requires
        vars.no_duplicates() || rows.len() == 0,
    ensures
        allowed_throughout(
            d,
            values_batch(vars, rows),
            n,
            mask_of(values_masks(vars, rows), n),
        ),
{
    let b = values_batch(vars, rows);
    let m = mask_of(values_masks(vars, rows), n);
    assert forall|k: int| 0 <= k < b.rows.len() implies row_allowed(
        d,
        b.schema,
        #[trigger] b.rows[k],
        n,
        m,
    ) by {
        cell_is_some(vars, b.rows[k], n);
        if vars.contains(n) {
            let i = choose|i: int| 0 <= i < vars.len() && vars[i] == n;
            values_masks_at(vars, rows, i);
            cell_at(vars, b.rows[k], i);
            if i < rows[k].len() && rows[k][i] is Some {
                values_column_allowed(rows, i, k);
            }
        }
    }
}

proof fn members_allowed(
    d: Dict,
    b: BatchView,
    keys: Seq<Text>,
    id: Seq<KeyView>,
    upto: int,
    n: Text,
    m: TypeMask,
)
    requires
        allowed_throughout(d, b, n, m),
        upto <= b.rows.len(),
    ensures
        all_allowed(d, b.schema, members(b, keys, id, upto), n, m),
    decreases upto,
{
    if upto > 0 {
        members_allowed(d, b, keys, id, upto - 1, n, m);
        assert(row_allowed(d, b.schema, b.rows[upto - 1], n, m));
    }
}

/// An aggregate is of a kind its mask allows.
proof fn aggregate_allowed<N: Numbers>(
    d: Dict,
    s: Seq<Text>,
    rows: Seq<Seq<SlotView>>,
    agg: AggregateView,
)
    ensures
        agg_cell::<N>(d, s, rows, agg) matches Some(t) ==> allows(agg_mask(agg.func), t),
{
    if let Some(t) = agg_cell::<N>(d, s, rows, agg) {
        kind_facts(t, agg_mask(agg.func), agg_mask(agg.func));
        assert(8u8 & 8u8 != 0 && 8u8 & 9u8 != 0) by (bit_vector);
    }
}

proof fn group_allowed<N: Numbers>(
    d: Dict,
    b: BatchView,
    types: Map<Text, TypeMask>,
    keys: Seq<Text>,
    aggs: Seq<AggregateView>,
    out: BatchView,
    n: Text,
)
    requires
        group_batch::<N>(d, b, keys, aggs, out),
        outputs_apart(keys, aggs),
        allowed_throughout(d, b, n, mask_of(types, n)),
    ensures
        allowed_throughout(d, out, n, mask_of(agg_masks(aggs, column_masks(types, keys)), n)),
{
    let order = choose|order: Seq<usize>| #[trigger]
        enumerates_rows(order, 0, group_list(b, keys).len() as int) && out == (BatchView {
            schema: group_schema(keys, aggs),
            rows: arranged(group_rows_of::<N>(d, b, keys, aggs), order),
        });
    let acc = column_masks(types, keys);
    let gl = group_list(b, keys);
    let m = b.rows.len() as int;
    let mask = mask_of(agg_masks(aggs, acc), n);
    agg_masks_at(aggs, acc, n);
    group_fits::<N>(d, b, keys, aggs, out);
    assert forall|k: int| 0 <= k < out.rows.len() implies row_allowed(
        d,
        out.schema,
        #[trigger] out.rows[k],
        n,
        mask,
    ) by {
        assert(order.contains(order[k]));
        let g = order[k] as int;
        let id = gl[g];
        let ms = members(b, keys, id, m);
        let row = group_row::<N>(d, b, keys, aggs, id);
        assert(out.rows[k] == row);
        assert(rows_agree(out.schema, out.rows[k], out.schema, out.rows[k], Set::full()));
        cell_is_some(out.schema, row, n);
        if exists|i: int| 0 <= i < aggs.len() && (#[trigger] aggs[i]).out == n {
            let i = choose|i: int|
                0 <= i < aggs.len() && (#[trigger] aggs[i]).out == n && agg_masks(aggs, acc)[n]
                    == agg_mask(aggs[i].func);
            let c = keys.len() + i;
            assert(out.schema[c] == n);
            cell_at(out.schema, row, c);
            assert(row[c] == value_slot(agg_cell::<N>(d, b.schema, ms, aggs[i])));
            aggregate_allowed::<N>(d, b.schema, ms, aggs[i]);
            has_aggregate(aggs, acc, i);
        } else if out.schema.contains(n) {
            let c = choose|c: int| 0 <= c < out.schema.len() && out.schema[c] == n;
            if c >= keys.len() {
                assert(aggs[c - keys.len()].out == n);
            }
            assert(keys[c] == n);
            assert(acc.contains_key(n));
            cell_at(out.schema, row, c);
            deduped_facts(group_ids(b, keys, m));
            assert(deduped(group_ids(b, keys, m)).contains(id));
            let j = choose|j: int| 0 <= j < m && group_ids(b, keys, m)[j] == id;
            group_has_members(b, keys, id, j, m);
            members_allowed(d, b, keys, id, m, n, mask_of(types, n));
            assert(row_allowed(d, b.schema, ms[0], n, mask_of(types, n)));
            assert(row[c] == laid_out(b.schema, ms[0], keys)[c]);
            if let Some(t) = slot_term(d, row[c]) {
                kind_facts(t, mask, mask);
            }
        }
    }
}

proof fn has_aggregate(aggs: Seq<AggregateView>, acc: Map<Text, TypeMask>, i: int)
    requires
        0 <= i < aggs.len(),
    ensures
        agg_masks(aggs, acc).contains_key(aggs[i].out),
    decreases aggs.len(),
{
    if i < aggs.len() - 1 {
        has_aggregate(aggs.drop_last(), acc, i);
        assert(aggs.drop_last()[i] == aggs[i]);
    }
}

proof fn per_graph_allowed(
    d: Dict,
    var: Text,
    graphs: Seq<NamedGraphView>,
    parts: Seq<BatchView>,
    upto: int,
    types: Map<Text, TypeMask>,
    n: Text,
)
    requires
        upto <= parts.len(),
        upto <= graphs.len(),
        bound_to_their_names(d, graphs),
        forall|i: int|
            0 <= i < upto ==> allowed_throughout(d, #[trigger] parts[i], n, mask_of(types, n)),
        mask_of(types, n).bound() ==> forall|i: int|
            0 <= i < upto ==> bound_throughout(#[trigger] parts[i], n),
    ensures
        allowed_throughout(
            d,
            per_graph_batch(d, var, graphs, parts, upto),
            n,
            mask_of(types, n).meet(
                mask_of(map![var => TypeMask::of(TypeMask::NAMED_NODE)], n),
            ),
        ),
    decreases upto,
{
    let l = mask_of(types, n);
    let r = mask_of(map![var => TypeMask::of(TypeMask::NAMED_NODE)], n);
    let m = l.meet(r);
    if upto > 0 {
        per_graph_allowed(d, var, graphs, parts, upto - 1, types, n);
        let part = parts[upto - 1];
        let g = graph_batch(var, graphs[upto - 1].binding);
        assert(2u8 & 2u8 != 0 && 2u8 & 1u8 == 0 && 1u8 & 1u8 != 0) by (bit_vector);
        cell_at(g.schema, g.rows[0], 0);
        position_facts(g.schema, n);
        assert(slot_term(d, graphs[upto - 1].binding) == Some(
            TermView::Iri(graphs[upto - 1].iri),
        ));
        assert(allowed_throughout(d, g, n, r));
        assert(r.bound() ==> bound_throughout(g, n));
        join_allowed(d, part, g, n, l, r);
        let before = per_graph_batch(d, var, graphs, parts, upto - 1);
        union_allowed(d, before, join_batch(d, part, g), n, m, m);
        assert forall|t: TermView| #[trigger] allows(m.either(m), t) implies allows(m, t) by {
            kind_facts(t, m, m);
        }
        widened(d, union_batch(d, before, join_batch(d, part, g)), n, m.either(m), m);
    }
}

// ── The law ─────────────────────────────────────────────────────────────────

/// The types of a plan are sound: a term that a row of what the plan yields
/// binds a variable to is of a kind inferred for the variable, and a variable
/// without types is bound nowhere. Every name of the plan is to stand for one
/// thing in its rows; and the store is to hold RDF, with no literal for a
/// subject and only IRIs for predicates.
#[verifier::rlimit(100)]
#[verifier::spinoff_prover]
pub proof fn inferred_kinds_hold<E: Executor>(
    exec: &E,
    q: QueryView,
    env: Map<Text, Text>,
    plan: LogicalView,
    run: Run,
    n: Text,
)
    requires
        scans_by_position(exec),
        tells_columns(physical_view(plan)),
        is_run(exec, q, env, physical_view(plan), run),
    ensures
        allowed_throughout(exec.dict(), run.out, n, mask_of(infer_view(plan), n)),
    decreases plan, 1int,
{
    let d = exec.dict();
    let first = run.below[0];
    let second = run.below[1];
    let mask = mask_of(infer_view(plan), n);
    match plan {
        LogicalView::Bgp { patterns, .. } => {
            assert(mask == mask_of(bgp_masks(patterns), n));
        },
        LogicalView::Join { left, right } => two_sides(exec, q, env, plan, run, n),
        LogicalView::LeftJoin { left, right, expr } => two_sides(exec, q, env, plan, run, n),
        LogicalView::Union { left, right } => two_sides(exec, q, env, plan, run, n),
        LogicalView::Minus { left, .. } => {
            inferred_kinds_hold(exec, q, env, *left, first, n);
            remaining_allowed(d, first.out, second.out, first.out.rows.len() as int, n, mask);
        },
        LogicalView::Filter { expr, inner } => {
            inferred_kinds_hold(exec, q, env, *inner, first, n);
            satisfying_allowed::<E::N>(d, first.out.schema, first.out.rows, Some(expr), n, mask);
        },
        LogicalView::Slice { inner, start, length } => {
            inferred_kinds_hold(exec, q, env, *inner, first, n);
            slice_allowed(d, first.out, start as int, length, n, mask);
        },
        LogicalView::OrderBy { inner, keys } => {
            inferred_kinds_hold(exec, q, env, *inner, first, n);
            order_allowed::<E::N>(d, first.out, keys, run.out, n, mask);
        },
        LogicalView::Distinct { inner } => {
            inferred_kinds_hold(exec, q, env, *inner, first, n);
            distinct_allowed(d, first.out.schema, first.out.rows, n, mask);
        },
        LogicalView::Project { vars, inner } => {
            inferred_kinds_hold(exec, q, env, *inner, first, n);
            project_allowed(d, first.out, vars, infer_view(*inner), n);
        },
        LogicalView::Extend { inner, var, expr } => {
            let t = infer_view(*inner);
            run_columns(exec, q, env, physical_view(*inner), first);
            reveal(repeats_within);
            inferred_kinds_hold(exec, q, env, *inner, first, n);
            if n == var {
                let all = TypeMask::of(0b1_1111);
                assert forall|k: int| 0 <= k < run.out.rows.len() implies row_allowed(
                    d,
                    run.out.schema,
                    #[trigger] run.out.rows[k],
                    n,
                    mask,
                ) by {
                    if let Some(x) = cell(run.out.schema, run.out.rows[k], n) {
                        if let Some(v) = slot_term(d, x) {
                            kind_facts(v, mask_of(t, n), all);
                        }
                    }
                }
            } else {
                extend_allowed::<E::N>(d, first.out, var, expr, n, mask);
            }
        },
        LogicalView::Values { vars, rows } => {
            values_allowed(d, vars, rows, n);
        },
        LogicalView::Group { inner, keys, aggregates } => {
            inferred_kinds_hold(exec, q, env, *inner, first, n);
            group_allowed::<E::N>(d, first.out, infer_view(*inner), keys, aggregates, run.out, n);
        },
        LogicalView::PerGraph { .. } => every_graph(exec, q, env, plan, run, n),
        LogicalView::PathClosure { subject, object, .. } => {
            path_allowed(d, subject, object, run.out, n);
        },
    }
}

/// The types of a plan hold of every solution: a variable that is inferred to be
/// bound is bound, and what a variable is bound to is of a kind inferred for it.
pub proof fn inferred_types_hold<E: Executor>(
    exec: &E,
    q: QueryView,
    env: Map<Text, Text>,
    plan: LogicalView,
    run: Run,
    k: int,
    n: Text,
)
    requires
        scans_by_position(exec),
        tells_columns(physical_view(plan)),
        is_run(exec, q, env, physical_view(plan), run),
        0 <= k < run.out.rows.len(),
    ensures
        ({
            let types = infer_view(plan);
            let sol = solution(exec.dict(), run.out.schema, run.out.rows[k]);
            &&& types.contains_key(n) && types[n].bound() ==> sol.contains_key(n)
            &&& sol.contains_key(n) && !(sol[n] is Var) ==> types.contains_key(n) && kind_bit(
                sol[n],
            ) & types[n].bits != 0
        }),
{
    let types = infer_view(plan);
    let row = run.out.rows[k];
    run_columns(exec, q, env, physical_view(plan), run);
    assert(one_valued(run.out.schema, row));
    solution_of_cell(exec.dict(), run.out.schema, row, n);
    inferred_kinds_hold(exec, q, env, plan, run, n);
    assert(row_allowed(exec.dict(), run.out.schema, row, n, mask_of(types, n)));
    assert(2u8 & 1u8 == 0 && 4u8 & 1u8 == 0 && 8u8 & 1u8 == 0 && 16u8 & 1u8 == 0) by (bit_vector);
    if types.contains_key(n) && types[n].bound() {
        inferred_variables_are_bound(exec, q, env, plan, run, n);
        assert(bound_in(run.out.schema, row, n));
    }
}

/// The ends of a path are of any kind.
proof fn path_allowed(d: Dict, subject: TermView, object: TermView, out: BatchView, n: Text)
    requires
        out.schema == endpoint_vars(object, endpoint_vars(subject, Seq::empty())),
    ensures
        allowed_throughout(
            d,
            out,
            n,
            mask_of(endpoint_masks(object, endpoint_masks(subject, Map::empty())), n),
        ),
{
    let types = endpoint_masks(object, endpoint_masks(subject, Map::empty()));
    let mask = mask_of(types, n);
    let any = TypeMask::of(TypeMask::ANY);
    assert forall|k: int| 0 <= k < out.rows.len() implies row_allowed(
        d,
        out.schema,
        #[trigger] out.rows[k],
        n,
        mask,
    ) by {
        cell_is_some(out.schema, out.rows[k], n);
        if let Some(x) = cell(out.schema, out.rows[k], n) {
            let c = choose|c: int| 0 <= c < out.schema.len() && out.schema[c] == n;
            assert(out.schema[c] == n);
            assert(subject == TermView::Var(n) || object == TermView::Var(n));
            if let Some(t) = slot_term(d, x) {
                kind_facts(t, any, any);
                assert(mask == any || mask == any.either(any));
            }
        }
    }
}

proof fn two_sides<E: Executor>(
    exec: &E,
    q: QueryView,
    env: Map<Text, Text>,
    plan: LogicalView,
    run: Run,
    n: Text,
)
    requires
        plan is Join || plan is LeftJoin || plan is Union,
        scans_by_position(exec),
        tells_columns(physical_view(plan)),
        is_run(exec, q, env, physical_view(plan), run),
    ensures
        allowed_throughout(exec.dict(), run.out, n, mask_of(infer_view(plan), n)),
    decreases plan, 0int,
{
    let d = exec.dict();
    let first = run.below[0];
    let second = run.below[1];
    let mask = mask_of(infer_view(plan), n);
    match plan {
        LogicalView::Join { left, right } => {
            let (l, r) = (infer_view(*left), infer_view(*right));
            let (lm, rm) = (mask_of(l, n), mask_of(r, n));
            inferred_kinds_hold(exec, q, env, *left, first, n);
            inferred_kinds_hold(exec, q, env, *right, second, n);
            assert(1u8 & 1u8 != 0) by (bit_vector);
            if lm.bound() {
                inferred_variables_are_bound(exec, q, env, *left, first, n);
            }
            if rm.bound() {
                inferred_variables_are_bound(exec, q, env, *right, second, n);
            }
            join_allowed(d, first.out, second.out, n, lm, rm);
            assert forall|t: TermView| #[trigger] allows(lm.meet(rm), t) implies allows(mask, t) by {
                combined(Combine::Join, l, r, n, t);
            }
            widened(d, run.out, n, lm.meet(rm), mask);
        },
        LogicalView::LeftJoin { left, right, expr } => {
            let (l, r) = (infer_view(*left), infer_view(*right));
            let (lm, rm) = (mask_of(l, n), mask_of(r, n));
            inferred_kinds_hold(exec, q, env, *left, first, n);
            inferred_kinds_hold(exec, q, env, *right, second, n);
            left_join_allowed::<E::N>(d, first.out, second.out, expr, n, lm, rm);
            assert forall|t: TermView| #[trigger] allows(lm.either(rm), t) implies allows(
                mask,
                t,
            ) by {
                combined(Combine::LeftJoin, l, r, n, t);
            }
            widened(d, run.out, n, lm.either(rm), mask);
        },
        LogicalView::Union { left, right } => {
            let (l, r) = (infer_view(*left), infer_view(*right));
            let (lm, rm) = (mask_of(l, n), mask_of(r, n));
            inferred_kinds_hold(exec, q, env, *left, first, n);
            inferred_kinds_hold(exec, q, env, *right, second, n);
            union_allowed(d, first.out, second.out, n, lm, rm);
            assert forall|t: TermView| #[trigger] allows(lm.either(rm), t) implies allows(
                mask,
                t,
            ) by {
                combined(Combine::Union, l, r, n, t);
            }
            widened(d, run.out, n, lm.either(rm), mask);
        },
        _ => {},
    }
}

proof fn every_graph<E: Executor>(
    exec: &E,
    q: QueryView,
    env: Map<Text, Text>,
    plan: LogicalView,
    run: Run,
    n: Text,
)
    requires
        plan is PerGraph,
        scans_by_position(exec),
        tells_columns(physical_view(plan)),
        is_run(exec, q, env, physical_view(plan), run),
    ensures
        allowed_throughout(exec.dict(), run.out, n, mask_of(infer_view(plan), n)),
    decreases plan, 0int,
{
    let d = exec.dict();
    let mask = mask_of(infer_view(plan), n);
    match plan {
        LogicalView::PerGraph { var, inner } => {
            let parts = outs(run.below);
            let m = run.graphs.len() as int;
            let l = infer_view(*inner);
            let r = map![var => TypeMask::of(TypeMask::NAMED_NODE)];
            let (lm, rm) = (mask_of(l, n), mask_of(r, n));
            assert forall|i: int| 0 <= i < m implies allowed_throughout(
                d,
                #[trigger] parts[i],
                n,
                lm,
            ) by {
                let at = env.insert(var, run.graphs[i].iri);
                assert(is_run(exec, q, at, physical_view(*inner), run.below[i]));
                inferred_kinds_hold(exec, q, at, *inner, run.below[i], n);
            }
            assert(1u8 & 1u8 != 0) by (bit_vector);
            if lm.bound() {
                assert forall|i: int| 0 <= i < m implies bound_throughout(#[trigger] parts[i], n) by {
                    let at = env.insert(var, run.graphs[i].iri);
                    assert(is_run(exec, q, at, physical_view(*inner), run.below[i]));
                    inferred_variables_are_bound(exec, q, at, *inner, run.below[i], n);
                }
            }
            per_graph_allowed(d, var, run.graphs, parts, m, l, n);
            assert forall|t: TermView| #[trigger] allows(lm.meet(rm), t) implies allows(mask, t) by {
                combined(Combine::Join, l, r, n, t);
            }
            widened(d, run.out, n, lm.meet(rm), mask);
        },
        _ => {},
    }
}

}
