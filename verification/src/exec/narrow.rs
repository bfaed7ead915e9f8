//! Operators read no column they do not name.
//!
//! Two batches agree on a set of names when they have the same rows under
//! those names, in the same order. Each operator turns batches that agree on
//! what it reads into batches that agree on what is asked of it.

use crate::algebra::{ExprView, OrderDir};
use crate::exec::batch::{
    binding_within_schema, position, position_facts, row_key, slot_term, solution, BatchView, Dict,
    SlotView,
};
use crate::exec::expr::{agree_on, evaluation_reads_only_refs, truth, value};
use crate::exec::join::{cell, satisfying};
use crate::exec::number::Numbers;
use crate::exec::operators::{
    distinct_batch, distinct_slot_rows, extend_batch, filter_batch, project_batch, projected,
    repeats, slice_batch, slice_rows, value_slot,
};
use crate::exec::order::{arranged, key_value, order_batch, resolves, resolves_all};
use crate::exec::refs::refs;
use crate::exec::sort::{merge_sorted, sorting_is_stable, SortCol};
use crate::plan::passes::projection_pushdown::order_refs;
use crate::text::Text;
use vstd::prelude::*;

verus! {

// ── Rows that agree ─────────────────────────────────────────────────────────

/// Do the columns of one name hold the same in a row?
pub open spec fn one_valued(s: Seq<Text>, r: Seq<SlotView>) -> bool {
    forall|i: int, j: int|
        0 <= i < s.len() && 0 <= j < s.len() && #[trigger] s[i] == #[trigger] s[j] ==> r[i] == r[j]
}

/// Does a name stand more than once among others?
pub open spec fn repeated(s: Seq<Text>, n: Text) -> bool {
    exists|i: int, j: int| 0 <= i < j < s.len() && #[trigger] s[i] == n && #[trigger] s[j] == n
}

/// Do two rows hold the same under each of some names?
pub open spec fn rows_agree(
    s: Seq<Text>,
    r: Seq<SlotView>,
    t: Seq<Text>,
    q: Seq<SlotView>,
    want: Set<Text>,
) -> bool {
    &&& r.len() == s.len()
    &&& q.len() == t.len()
    &&& one_valued(s, r)
    &&& one_valued(t, q)
    &&& forall|n: Text| want.contains(n) ==> #[trigger] cell(s, r, n) == cell(t, q, n)
}

/// Do two lists of rows agree, row by row?
pub open spec fn lists_agree(
    s: Seq<Text>,
    a: Seq<Seq<SlotView>>,
    t: Seq<Text>,
    b: Seq<Seq<SlotView>>,
    want: Set<Text>,
) -> bool {
    &&& a.len() == b.len()
    &&& forall|k: int|
        #![trigger a[k]]
        #![trigger b[k]]
        0 <= k < a.len() ==> rows_agree(s, a[k], t, b[k], want)
}

/// Do two schemas agree on some names, the first holding no name that the
/// second does not?
pub open spec fn schemas_agree(s: Seq<Text>, t: Seq<Text>, want: Set<Text>) -> bool {
    &&& forall|n: Text| #[trigger] s.contains(n) ==> t.contains(n)
    &&& forall|n: Text| want.contains(n) && #[trigger] t.contains(n) ==> s.contains(n)
}

/// Is one batch the other, as far as some names go?
pub open spec fn narrows(a: BatchView, b: BatchView, want: Set<Text>) -> bool {
    &&& schemas_agree(a.schema, b.schema, want)
    &&& lists_agree(a.schema, a.rows, b.schema, b.rows, want)
}

/// A name has a cell where it has a column.
pub proof fn cell_is_some(s: Seq<Text>, r: Seq<SlotView>, n: Text)
    ensures
        cell(s, r, n) is Some == s.contains(n),
        position(s, n) is Some == s.contains(n),
{
    position_facts(s, n);
}

/// The cell of a column.
pub proof fn cell_at(s: Seq<Text>, r: Seq<SlotView>, i: int)
    requires
        one_valued(s, r),
        0 <= i < s.len(),
    ensures
        cell(s, r, s[i]) == Some(r[i]),
{
    position_facts(s, s[i]);
    assert(s.contains(s[i]));
}

/// What a row binds a name to.
pub proof fn solution_of_cell(d: Dict, s: Seq<Text>, r: Seq<SlotView>, n: Text)
    requires
        one_valued(s, r),
    ensures
        match cell(s, r, n) {
            Some(x) => match slot_term(d, x) {
                Some(v) => solution(d, s, r).contains_key(n) && solution(d, s, r)[n] == v,
                None => !solution(d, s, r).contains_key(n),
            },
            None => !solution(d, s, r).contains_key(n),
        },
    decreases s.len(),
{
    position_facts(s, n);
    if s.len() > 0 {
        let rest = s.drop_last();
        let last = s.len() - 1;
        assert(one_valued(rest, r)) by {
            assert forall|i: int, j: int|
                0 <= i < rest.len() && 0 <= j < rest.len() && #[trigger] rest[i]
                    == #[trigger] rest[j] implies r[i] == r[j] by {
                assert(s[i] == rest[i] && s[j] == rest[j]);
            }
        }
        solution_of_cell(d, rest, r, n);
        position_facts(rest, n);
        binding_within_schema(d, rest, r, Set::full());
        if let Some(i) = position(s, n) {
            if i < last {
                assert(rest[i] == n);
                assert(rest.contains(n));
                assert(position(rest, n) == Some(i));
                if s[last] == n {
                    assert(r[i] == r[last]);
                }
            } else {
                if rest.contains(n) {
                    let j = choose|j: int| 0 <= j < rest.len() && rest[j] == n;
                    assert(s[j] == n);
                }
                assert(!rest.to_set().contains(n));
            }
        } else {
            if let Some(j) = position(rest, n) {
                assert(s[j] == n);
            }
            assert(s[last] != n);
        }
    }
}

/// Rows that agree bind the names alike.
pub proof fn solutions_agree(
    d: Dict,
    s: Seq<Text>,
    r: Seq<SlotView>,
    t: Seq<Text>,
    q: Seq<SlotView>,
    want: Set<Text>,
)
    requires
        rows_agree(s, r, t, q, want),
    ensures
        agree_on(solution(d, s, r), solution(d, t, q), want),
{
    assert forall|n: Text| want.contains(n) implies #[trigger] solution(d, s, r).contains_key(n)
        == solution(d, t, q).contains_key(n) && (solution(d, s, r).contains_key(n) ==> solution(
        d,
        s,
        r,
    )[n] == solution(d, t, q)[n]) by {
        solution_of_cell(d, s, r, n);
        solution_of_cell(d, t, q, n);
        assert(cell(s, r, n) == cell(t, q, n));
    }
}

/// Agreement on more is agreement on less.
pub proof fn narrows_less(a: BatchView, b: BatchView, more: Set<Text>, want: Set<Text>)
    requires
        narrows(a, b, more),
        want.subset_of(more),
    ensures
        narrows(a, b, want),
{
    assert forall|k: int| 0 <= k < a.rows.len() implies rows_agree(
        a.schema,
        #[trigger] a.rows[k],
        b.schema,
        b.rows[k],
        want,
    ) by {
        assert(rows_agree(a.schema, a.rows[k], b.schema, b.rows[k], more));
    }
}

/// Batches that agree on every column agree on every name.
pub proof fn narrows_all(a: BatchView, b: BatchView, want: Set<Text>)
    requires
        narrows(a, b, want),
        b.schema.to_set().subset_of(want),
    ensures
        narrows(a, b, Set::full()),
{
    assert forall|n: Text| #[trigger] b.schema.contains(n) implies a.schema.contains(n) by {
        assert(b.schema.to_set().contains(n));
        assert(want.contains(n));
    }
    assert forall|k: int| 0 <= k < a.rows.len() implies rows_agree(
        a.schema,
        #[trigger] a.rows[k],
        b.schema,
        b.rows[k],
        Set::full(),
    ) by {
        assert(rows_agree(a.schema, a.rows[k], b.schema, b.rows[k], want));
        assert forall|n: Text| Set::full().contains(n) implies #[trigger] cell(
            a.schema,
            a.rows[k],
            n,
        ) == cell(b.schema, b.rows[k], n) by {
            cell_is_some(a.schema, a.rows[k], n);
            cell_is_some(b.schema, b.rows[k], n);
            if b.schema.contains(n) {
                assert(b.schema.to_set().contains(n));
                assert(want.contains(n));
            }
        }
    }
}

/// A batch agrees with itself.
pub proof fn narrows_itself(b: BatchView)
    requires
        b.wf(),
        forall|k: int| 0 <= k < b.rows.len() ==> one_valued(b.schema, #[trigger] b.rows[k]),
    ensures
        narrows(b, b, Set::full()),
{
}

// ── Filters and windows ─────────────────────────────────────────────────────

/// A condition holds of two rows that agree on what it reads, or of neither.
proof fn truth_agrees<N: Numbers>(
    d: Dict,
    s: Seq<Text>,
    r: Seq<SlotView>,
    t: Seq<Text>,
    q: Seq<SlotView>,
    want: Set<Text>,
    e: ExprView,
)
    requires
        rows_agree(s, r, t, q, want),
        refs(e).subset_of(want),
    ensures
        truth::<N>(e, solution(d, s, r)) == truth::<N>(e, solution(d, t, q)),
{
    solutions_agree(d, s, r, t, q, want);
    evaluation_reads_only_refs::<N>(e, solution(d, s, r), solution(d, t, q));
}

pub proof fn satisfying_agrees<N: Numbers>(
    d: Dict,
    s: Seq<Text>,
    a: Seq<Seq<SlotView>>,
    t: Seq<Text>,
    b: Seq<Seq<SlotView>>,
    want: Set<Text>,
    cond: Option<ExprView>,
)
    requires
        lists_agree(s, a, t, b, want),
        cond matches Some(e) ==> refs(e).subset_of(want),
    ensures
        lists_agree(
            s,
            satisfying::<N>(d, s, a, cond),
            t,
            satisfying::<N>(d, t, b, cond),
            want,
        ),
    decreases a.len(),
{
    if a.len() > 0 {
        let (ra, rb) = (a.drop_last(), b.drop_last());
        assert forall|k: int| 0 <= k < ra.len() implies rows_agree(
            s,
            #[trigger] ra[k],
            t,
            rb[k],
            want,
        ) by {
            assert(ra[k] == a[k] && rb[k] == b[k]);
        }
        satisfying_agrees::<N>(d, s, ra, t, rb, want, cond);
        assert(rows_agree(s, a[a.len() - 1], t, b[b.len() - 1], want));
        if let Some(e) = cond {
            truth_agrees::<N>(d, s, a.last(), t, b.last(), want, e);
        }
    }
}

pub proof fn filter_narrows<N: Numbers>(
    d: Dict,
    a: BatchView,
    b: BatchView,
    want: Set<Text>,
    e: ExprView,
)
    requires
        narrows(a, b, want),
        refs(e).subset_of(want),
    ensures
        narrows(filter_batch::<N>(d, a, e), filter_batch::<N>(d, b, e), want),
{
    satisfying_agrees::<N>(d, a.schema, a.rows, b.schema, b.rows, want, Some(e));
}

pub proof fn slice_narrows(
    a: BatchView,
    b: BatchView,
    want: Set<Text>,
    start: int,
    length: Option<usize>,
)
    requires
        narrows(a, b, want),
        0 <= start,
    ensures
        narrows(slice_batch(a, start, length), slice_batch(b, start, length), want),
{
    let (x, y) = (slice_rows(a.rows, start, length), slice_rows(b.rows, start, length));
    assert forall|k: int| 0 <= k < x.len() implies rows_agree(
        a.schema,
        #[trigger] x[k],
        b.schema,
        y[k],
        want,
    ) by {
        assert(x[k] == a.rows[start + k] && y[k] == b.rows[start + k]);
        assert(rows_agree(a.schema, a.rows[start + k], b.schema, b.rows[start + k], want));
    }
}

// ── Projections ─────────────────────────────────────────────────────────────

/// The columns of a projection: the variables that are columns.
pub proof fn projected_names(s: Seq<Text>, vars: Seq<Text>)
    ensures
        forall|n: Text| #[trigger] projected(s, vars).contains(n) <==> vars.contains(n)
            && s.contains(n),
        forall|n: Text| #[trigger] repeated(projected(s, vars), n) ==> repeated(vars, n),
    decreases vars.len(),
{
    if vars.len() > 0 {
        let rest = vars.drop_last();
        let p = projected(s, rest);
        let v = vars.last();
        projected_names(s, rest);
        position_facts(s, v);
        assert forall|n: Text| #[trigger] projected(s, vars).contains(n) <==> vars.contains(n)
            && s.contains(n) by {
            if vars.contains(n) && s.contains(n) {
                let k = choose|k: int| 0 <= k < vars.len() && vars[k] == n;
                if k < rest.len() {
                    assert(rest[k] == n);
                    assert(p.contains(n));
                    let j = choose|j: int| 0 <= j < p.len() && p[j] == n;
                    assert(projected(s, vars)[j] == n);
                } else {
                    assert(projected(s, vars)[p.len() as int] == n);
                }
            }
            if projected(s, vars).contains(n) {
                let j = choose|j: int| 0 <= j < projected(s, vars).len() && projected(s, vars)[j] == n;
                if j < p.len() {
                    assert(p[j] == n);
                    assert(p.contains(n));
                    let k = choose|k: int| 0 <= k < rest.len() && rest[k] == n;
                    assert(vars[k] == n);
                } else {
                    assert(vars[vars.len() - 1] == n);
                }
            }
        }
        assert forall|n: Text| #[trigger] repeated(projected(s, vars), n) implies repeated(
            vars,
            n,
        ) by {
            let q = projected(s, vars);
            let (i, j) = choose|i: int, j: int|
                0 <= i < j < q.len() && #[trigger] q[i] == n && #[trigger] q[j] == n;
            assert(p[i] == n);
            if j < p.len() {
                assert(p[j] == n);
                assert(repeated(p, n));
                let (e, f) = choose|e: int, f: int|
                    0 <= e < f < rest.len() && #[trigger] rest[e] == n && #[trigger] rest[f] == n;
                assert(vars[e] == n && vars[f] == n);
            } else {
                assert(p.contains(n));
                let e = choose|e: int| 0 <= e < rest.len() && rest[e] == n;
                assert(vars[e] == n && vars[vars.len() - 1] == n);
            }
        }
    }
}

/// A projection keeps the cells of its variables.
pub proof fn project_keeps_cells(b: BatchView, vars: Seq<Text>, k: int)
    requires
        vars.len() > 0,
        0 <= k < b.rows.len(),
    ensures
        one_valued(project_batch(b, vars).schema, project_batch(b, vars).rows[k]),
        forall|n: Text|
            vars.contains(n) ==> #[trigger] cell(
                project_batch(b, vars).schema,
                project_batch(b, vars).rows[k],
                n,
            ) == cell(b.schema, b.rows[k], n),
        project_batch(b, vars).rows[k].len() == project_batch(b, vars).schema.len(),
{
    let p = project_batch(b, vars);
    projected_names(b.schema, vars);
    assert forall|n: Text| vars.contains(n) implies #[trigger] cell(p.schema, p.rows[k], n) == cell(
        b.schema,
        b.rows[k],
        n,
    ) by {
        cell_is_some(p.schema, p.rows[k], n);
        cell_is_some(b.schema, b.rows[k], n);
        if b.schema.contains(n) {
            assert(p.schema.contains(n));
            position_facts(p.schema, n);
            let c = position(p.schema, n)->0;
            assert(p.rows[k][c] == cell(b.schema, b.rows[k], p.schema[c])->0);
        }
    }
}

/// Projections of batches that agree on the variables are equal.
pub proof fn project_is_determined(a: BatchView, b: BatchView, vars: Seq<Text>)
    requires
        vars.len() > 0,
        narrows(a, b, vars.to_set()),
    ensures
        project_batch(a, vars) == project_batch(b, vars),
{
    same_projected(a.schema, b.schema, vars);
    let p = projected(a.schema, vars);
    projected_names(a.schema, vars);
    let (x, y) = (project_batch(a, vars), project_batch(b, vars));
    assert forall|k: int| 0 <= k < x.rows.len() implies x.rows[k] == y.rows[k] by {
        assert(rows_agree(a.schema, a.rows[k], b.schema, b.rows[k], vars.to_set()));
        assert forall|c: int| 0 <= c < p.len() implies x.rows[k][c] == y.rows[k][c] by {
            assert(p.contains(p[c]));
            assert(vars.to_set().contains(p[c]));
            assert(cell(a.schema, a.rows[k], p[c]) == cell(b.schema, b.rows[k], p[c]));
        }
        assert(x.rows[k] =~= y.rows[k]);
    }
    assert(x =~= y);
}

proof fn same_projected(s: Seq<Text>, t: Seq<Text>, vars: Seq<Text>)
    requires
        forall|n: Text| vars.contains(n) ==> #[trigger] s.contains(n) == t.contains(n),
    ensures
        projected(s, vars) == projected(t, vars),
    decreases vars.len(),
{
    if vars.len() > 0 {
        let rest = vars.drop_last();
        assert forall|n: Text| rest.contains(n) implies #[trigger] s.contains(n) == t.contains(n) by {
            let k = choose|k: int| 0 <= k < rest.len() && rest[k] == n;
            assert(vars[k] == n);
        }
        same_projected(s, t, rest);
        let v = vars.last();
        assert(vars[vars.len() - 1] == v);
        assert(vars.contains(v));
        assert(s.contains(v) == t.contains(v));
        position_facts(s, v);
        position_facts(t, v);
    }
}

/// Projecting the narrower batch leaves it narrower.
pub proof fn restrict_narrows(a: BatchView, b: BatchView, want: Set<Text>, vars: Seq<Text>)
    requires
        vars.len() > 0,
        narrows(a, b, want),
        forall|n: Text| want.contains(n) && #[trigger] a.schema.contains(n) ==> vars.contains(n),
    ensures
        narrows(project_batch(a, vars), b, want),
{
    let p = project_batch(a, vars);
    projected_names(a.schema, vars);
    assert forall|n: Text| #[trigger] p.schema.contains(n) implies b.schema.contains(n) by {
        assert(a.schema.contains(n));
    }
    assert forall|n: Text| want.contains(n) && #[trigger] b.schema.contains(n) implies p.schema.contains(
        n,
    ) by {
        assert(a.schema.contains(n));
    }
    assert forall|k: int| 0 <= k < p.rows.len() implies rows_agree(
        p.schema,
        #[trigger] p.rows[k],
        b.schema,
        b.rows[k],
        want,
    ) by {
        project_keeps_cells(a, vars, k);
        assert(rows_agree(a.schema, a.rows[k], b.schema, b.rows[k], want));
        assert forall|n: Text| want.contains(n) implies #[trigger] cell(p.schema, p.rows[k], n)
            == cell(b.schema, b.rows[k], n) by {
            assert(cell(a.schema, a.rows[k], n) == cell(b.schema, b.rows[k], n));
            if !vars.contains(n) {
                assert(!a.schema.contains(n));
                cell_is_some(a.schema, a.rows[k], n);
                cell_is_some(p.schema, p.rows[k], n);
            }
        }
    }
}

// ── Computed columns ────────────────────────────────────────────────────────

/// Computing a column reads what its expression names.
pub proof fn extend_narrows<N: Numbers>(
    d: Dict,
    a: BatchView,
    b: BatchView,
    want: Set<Text>,
    var: Text,
    e: ExprView,
)
    requires
        narrows(a, b, want.remove(var).union(refs(e))),
        !repeated(a.schema, var),
        !repeated(b.schema, var),
    ensures
        narrows(extend_batch::<N>(d, a, var, e), extend_batch::<N>(d, b, var, e), want),
{
    let read = want.remove(var).union(refs(e));
    let (x, y) = (extend_batch::<N>(d, a, var, e), extend_batch::<N>(d, b, var, e));
    extended_names::<N>(d, a, var, e, x);
    extended_names::<N>(d, b, var, e, y);
    assert forall|n: Text| want.contains(n) && #[trigger] y.schema.contains(n) implies x.schema.contains(
        n,
    ) by {
        if n != var {
            assert(b.schema.contains(n));
            assert(read.contains(n));
        }
    }
    assert forall|n: Text| #[trigger] x.schema.contains(n) implies y.schema.contains(n) by {
        if n != var {
            assert(a.schema.contains(n));
        }
    }
    assert forall|k: int| 0 <= k < x.rows.len() implies rows_agree(
        x.schema,
        #[trigger] x.rows[k],
        y.schema,
        y.rows[k],
        want,
    ) by {
        assert(rows_agree(a.schema, a.rows[k], b.schema, b.rows[k], read));
        extended_cells::<N>(d, a, var, e, k);
        extended_cells::<N>(d, b, var, e, k);
        value_agrees::<N>(d, a.schema, a.rows[k], b.schema, b.rows[k], read, e);
        assert forall|n: Text| want.contains(n) implies #[trigger] cell(x.schema, x.rows[k], n)
            == cell(y.schema, y.rows[k], n) by {
            if n != var {
                assert(read.contains(n));
                assert(cell(a.schema, a.rows[k], n) == cell(b.schema, b.rows[k], n));
            }
        }
    }
}

/// An expression has one value on two rows that agree on what it reads.
pub proof fn value_agrees<N: Numbers>(
    d: Dict,
    s: Seq<Text>,
    r: Seq<SlotView>,
    t: Seq<Text>,
    q: Seq<SlotView>,
    want: Set<Text>,
    e: ExprView,
)
    requires
        rows_agree(s, r, t, q, want),
        refs(e).subset_of(want),
    ensures
        value::<N>(e, solution(d, s, r)) == value::<N>(e, solution(d, t, q)),
{
    solutions_agree(d, s, r, t, q, want);
    evaluation_reads_only_refs::<N>(e, solution(d, s, r), solution(d, t, q));
}

/// A computed column is added where it is new.
pub proof fn extended_names<N: Numbers>(d: Dict, b: BatchView, var: Text, e: ExprView, x: BatchView)
    requires
        x == extend_batch::<N>(d, b, var, e),
    ensures
        forall|n: Text| #[trigger] repeated(x.schema, n) ==> repeated(b.schema, n),
        forall|n: Text| #[trigger] x.schema.contains(n) <==> b.schema.contains(n) || n == var,
{
    position_facts(b.schema, var);
    if position(b.schema, var) is None {
        assert(x.schema[b.schema.len() as int] == var);
        assert forall|n: Text| #[trigger] x.schema.contains(n) <==> b.schema.contains(n) || n
            == var by {
            if b.schema.contains(n) {
                let k = choose|k: int| 0 <= k < b.schema.len() && b.schema[k] == n;
                assert(x.schema[k] == n);
            }
            if x.schema.contains(n) && n != var {
                let k = choose|k: int| 0 <= k < x.schema.len() && x.schema[k] == n;
                assert(b.schema[k] == n);
            }
        }
        assert forall|n: Text| #[trigger] repeated(x.schema, n) implies repeated(b.schema, n) by {
            let (i, j) = choose|i: int, j: int|
                0 <= i < j < x.schema.len() && #[trigger] x.schema[i] == n && #[trigger] x.schema[j]
                    == n;
            assert(b.schema[i] == n);
            assert(b.schema.contains(n));
            assert(b.schema[j] == n);
        }
    }
}

/// The cells of a row with a computed column.
pub proof fn extended_cells<N: Numbers>(d: Dict, b: BatchView, var: Text, e: ExprView, k: int)
    requires
        !repeated(b.schema, var),
        one_valued(b.schema, b.rows[k]),
        0 <= k < b.rows.len(),
        b.rows[k].len() == b.schema.len(),
    ensures
        ({
            let x = extend_batch::<N>(d, b, var, e);
            &&& one_valued(x.schema, x.rows[k])
            &&& x.rows[k].len() == x.schema.len()
            &&& forall|n: Text| #[trigger] cell(x.schema, x.rows[k], n) == (if n == var {
                Some(value_slot(value::<N>(e, solution(d, b.schema, b.rows[k]))))
            } else {
                cell(b.schema, b.rows[k], n)
            })
        }),
{
    let x = extend_batch::<N>(d, b, var, e);
    extended_names::<N>(d, b, var, e, x);
    position_facts(b.schema, var);
    assert forall|i: int, j: int|
        0 <= i < x.schema.len() && 0 <= j < x.schema.len() && #[trigger] x.schema[i]
            == #[trigger] x.schema[j] implies x.rows[k][i] == x.rows[k][j] by {
        if x.schema[i] == var {
            if i < j {
                assert(repeated(x.schema, var));
            } else if j < i {
                assert(repeated(x.schema, var));
            }
        } else {
            assert(b.schema[i] == b.schema[j]);
            assert(b.rows[k][i] == b.rows[k][j]);
        }
    }
    assert forall|n: Text| #[trigger] cell(x.schema, x.rows[k], n) == (if n == var {
        Some(value_slot(value::<N>(e, solution(d, b.schema, b.rows[k]))))
    } else {
        cell(b.schema, b.rows[k], n)
    }) by {
        cell_is_some(x.schema, x.rows[k], n);
        cell_is_some(b.schema, b.rows[k], n);
        if x.schema.contains(n) {
            position_facts(x.schema, n);
            let i = position(x.schema, n)->0;
            if n != var {
                position_facts(b.schema, n);
                let j = position(b.schema, n)->0;
                assert(x.schema[j] == n);
                assert(i == j);
            }
        }
    }
}

// ── Distinct rows ───────────────────────────────────────────────────────────

/// Rows that agree on every name are told apart alike.
pub proof fn identity_agrees(
    s: Seq<Text>,
    r: Seq<SlotView>,
    u: Seq<SlotView>,
    t: Seq<Text>,
    q: Seq<SlotView>,
    v: Seq<SlotView>,
)
    requires
        schemas_agree(s, t, Set::full()),
        rows_agree(s, r, t, q, Set::full()),
        rows_agree(s, u, t, v, Set::full()),
    ensures
        (row_key(r) == row_key(u)) == (row_key(q) == row_key(v)),
{
    if row_key(r) == row_key(u) {
        identity_carries(s, r, u, t, q, v);
    }
    if row_key(q) == row_key(v) {
        assert forall|n: Text| Set::full().contains(n) implies #[trigger] cell(t, q, n) == cell(
            s,
            r,
            n,
        ) by {
            assert(cell(s, r, n) == cell(t, q, n));
        }
        assert forall|n: Text| Set::full().contains(n) implies #[trigger] cell(t, v, n) == cell(
            s,
            u,
            n,
        ) by {
            assert(cell(s, u, n) == cell(t, v, n));
        }
        identity_carries(t, q, v, s, r, u);
    }
}

proof fn identity_carries(
    s: Seq<Text>,
    r: Seq<SlotView>,
    u: Seq<SlotView>,
    t: Seq<Text>,
    q: Seq<SlotView>,
    v: Seq<SlotView>,
)
    requires
        rows_agree(s, r, t, q, Set::full()),
        rows_agree(s, u, t, v, Set::full()),
        row_key(r) == row_key(u),
    ensures
        row_key(q) == row_key(v),
{
    assert forall|i: int| 0 <= i < t.len() implies row_key(q)[i] == row_key(v)[i] by {
        let n = t[i];
        assert(t.contains(n));
        cell_at(t, q, i);
        cell_at(t, v, i);
        assert(cell(s, r, n) == cell(t, q, n));
        assert(cell(s, u, n) == cell(t, v, n));
        cell_is_some(s, r, n);
        position_facts(s, n);
        let j = position(s, n)->0;
        assert(row_key(r)[j] == row_key(u)[j]);
    }
    assert(row_key(q) =~= row_key(v));
}

proof fn distinct_agrees(
    s: Seq<Text>,
    a: Seq<Seq<SlotView>>,
    t: Seq<Text>,
    b: Seq<Seq<SlotView>>,
)
    requires
        schemas_agree(s, t, Set::full()),
        lists_agree(s, a, t, b, Set::full()),
    ensures
        lists_agree(s, distinct_slot_rows(a), t, distinct_slot_rows(b), Set::full()),
    decreases a.len(),
{
    if a.len() > 0 {
        let (ra, rb) = (a.drop_last(), b.drop_last());
        lists_drop_last(s, a, t, b, Set::full());
        distinct_agrees(s, ra, t, rb);
        let (x, y) = (distinct_slot_rows(ra), distinct_slot_rows(rb));
        if repeats(x, a.last()) {
            let k = choose|k: int| 0 <= k < x.len() && row_key(#[trigger] x[k]) == row_key(a.last());
            identity_agrees(s, x[k], a.last(), t, y[k], b.last());
            assert(row_key(y[k]) == row_key(b.last()));
        }
        if repeats(y, b.last()) {
            let k = choose|k: int| 0 <= k < y.len() && row_key(#[trigger] y[k]) == row_key(b.last());
            identity_agrees(s, x[k], a.last(), t, y[k], b.last());
            assert(row_key(x[k]) == row_key(a.last()));
        }
    }
}

/// Lists that agree still do without their last rows.
pub proof fn lists_drop_last(
    s: Seq<Text>,
    a: Seq<Seq<SlotView>>,
    t: Seq<Text>,
    b: Seq<Seq<SlotView>>,
    want: Set<Text>,
)
    requires
        lists_agree(s, a, t, b, want),
        a.len() > 0,
    ensures
        lists_agree(s, a.drop_last(), t, b.drop_last(), want),
        rows_agree(s, a.last(), t, b.last(), want),
{
    assert(rows_agree(s, a[a.len() - 1], t, b[b.len() - 1], want));
    assert forall|k: int| 0 <= k < a.drop_last().len() implies rows_agree(
        s,
        #[trigger] a.drop_last()[k],
        t,
        b.drop_last()[k],
        want,
    ) by {
        assert(a.drop_last()[k] == a[k] && b.drop_last()[k] == b[k]);
    }
}

pub proof fn distinct_narrows(a: BatchView, b: BatchView)
    requires
        narrows(a, b, Set::full()),
    ensures
        narrows(distinct_batch(a), distinct_batch(b), Set::full()),
{
    distinct_agrees(a.schema, a.rows, b.schema, b.rows);
}

// ── Sorting ─────────────────────────────────────────────────────────────────

/// The names order keys read include those of each key.
proof fn order_reads(keys: Seq<(ExprView, OrderDir)>, i: int)
    requires
        0 <= i < keys.len(),
    ensures
        refs(keys[i].0).subset_of(order_refs(keys)),
    decreases keys.len(),
{
    if i < keys.len() - 1 {
        order_reads(keys.drop_last(), i);
        assert(keys.drop_last()[i] == keys[i]);
    }
}

/// Sorting reads what its keys name: a sort of the narrower batch is a sort of
/// the wider one.
pub proof fn order_narrows<N: Numbers>(
    d: Dict,
    a: BatchView,
    b: BatchView,
    want: Set<Text>,
    keys: Seq<(ExprView, OrderDir)>,
    x: BatchView,
) -> (y: BatchView)
    requires
        narrows(a, b, want),
        order_refs(keys).subset_of(want),
        order_batch::<N>(d, a, keys, x),
    ensures
        order_batch::<N>(d, b, keys, y),
        narrows(x, y, want),
{
    let cols = choose|cols: Seq<(SortCol<N>, OrderDir)>| #[trigger]
        resolves_all::<N>(d, a, keys, cols) && x == (BatchView {
            schema: a.schema,
            rows: arranged(a.rows, merge_sorted(cols, 0, a.rows.len() as int)),
        });
    let order = merge_sorted(cols, 0, a.rows.len() as int);
    let y = BatchView { schema: b.schema, rows: arranged(b.rows, order) };
    assert(resolves_all::<N>(d, b, keys, cols)) by {
        assert forall|c: int| 0 <= c < cols.len() implies (#[trigger] cols[c]).1 == keys[c].1
            && resolves::<N>(d, b, keys[c].0, cols[c].0) by {
            order_reads(keys, c);
            assert(resolves::<N>(d, a, keys[c].0, cols[c].0));
            assert forall|i: int| 0 <= i < b.rows.len() implies #[trigger] key_value::<N>(
                d,
                b,
                keys[c].0,
                i,
            ) == key_value::<N>(d, a, keys[c].0, i) by {
                assert(rows_agree(a.schema, a.rows[i], b.schema, b.rows[i], want));
                value_agrees::<N>(
                    d,
                    a.schema,
                    a.rows[i],
                    b.schema,
                    b.rows[i],
                    want,
                    keys[c].0,
                );
            }
        }
    }
    if a.rows.len() <= usize::MAX {
        sorting_is_stable(cols, a.rows.len() as int);
    }
    assert forall|k: int| 0 <= k < x.rows.len() implies rows_agree(
        x.schema,
        #[trigger] x.rows[k],
        y.schema,
        y.rows[k],
        want,
    ) by {
        let i = order[k] as int;
        assert(order.contains(order[k]));
        assert(0 <= i < a.rows.len());
        assert(rows_agree(a.schema, a.rows[i], b.schema, b.rows[i], want));
    }
    y
}

/// The other way round: what the wider batch is ordered to, the narrower one is.
pub proof fn order_widens<N: Numbers>(
    d: Dict,
    a: BatchView,
    b: BatchView,
    want: Set<Text>,
    keys: Seq<(ExprView, OrderDir)>,
    y: BatchView,
) -> (x: BatchView)
    requires
        narrows(a, b, want),
        order_refs(keys).subset_of(want),
        order_batch::<N>(d, b, keys, y),
    ensures
        order_batch::<N>(d, a, keys, x),
        narrows(x, y, want),
{
    let cols = choose|cols: Seq<(SortCol<N>, OrderDir)>| #[trigger]
        resolves_all::<N>(d, b, keys, cols) && y == (BatchView {
            schema: b.schema,
            rows: arranged(b.rows, merge_sorted(cols, 0, b.rows.len() as int)),
        });
    let order = merge_sorted(cols, 0, a.rows.len() as int);
    let x = BatchView { schema: a.schema, rows: arranged(a.rows, order) };
    assert(resolves_all::<N>(d, a, keys, cols)) by {
        assert forall|c: int| 0 <= c < cols.len() implies (#[trigger] cols[c]).1 == keys[c].1
            && resolves::<N>(d, a, keys[c].0, cols[c].0) by {
            order_reads(keys, c);
            assert(resolves::<N>(d, b, keys[c].0, cols[c].0));
            assert forall|i: int| 0 <= i < a.rows.len() implies #[trigger] key_value::<N>(
                d,
                a,
                keys[c].0,
                i,
            ) == key_value::<N>(d, b, keys[c].0, i) by {
                assert(rows_agree(a.schema, a.rows[i], b.schema, b.rows[i], want));
                value_agrees::<N>(
                    d,
                    a.schema,
                    a.rows[i],
                    b.schema,
                    b.rows[i],
                    want,
                    keys[c].0,
                );
            }
        }
    }
    if a.rows.len() <= usize::MAX {
        sorting_is_stable(cols, a.rows.len() as int);
    }
    assert forall|k: int| 0 <= k < x.rows.len() implies rows_agree(
        x.schema,
        #[trigger] x.rows[k],
        y.schema,
        y.rows[k],
        want,
    ) by {
        let i = order[k] as int;
        assert(order.contains(order[k]));
        assert(0 <= i < a.rows.len());
        assert(rows_agree(a.schema, a.rows[i], b.schema, b.rows[i], want));
    }
    x
}

}
