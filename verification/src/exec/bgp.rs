//! The solutions of a basic graph pattern over a list of triples.
//!
//! The terms of the triples are interned: a triple is three positions in a
//! list of distinct terms.

use crate::algebra::{
    clone_vars, names, patterns_view, terms_view, PatternView, Term, TermView, TriplePattern, Var,
};
use crate::exec::batch::{
    find_column, position, position_facts, slot_rows_view, Batch, BatchView, Row, Slot, SlotView,
};
use crate::exec::executor::binds;
use crate::exec::join::bound_in;
use crate::exec::operators::laid_out;
use crate::plan::passes::{add_unique, bgp_vars, patterns_vars, term_vars};
use crate::text::Text;
use vstd::prelude::*;

verus! {

/// A subject, predicate and object, by their positions.
pub type Ids = (u64, u64, u64);

// ── Meaning ─────────────────────────────────────────────────────────────────

/// The columns with that of a term, where it is a variable.
pub open spec fn with_column(cols: Seq<Text>, t: TermView) -> Seq<Text> {
    match t {
        TermView::Var(v) => if position(cols, v) is Some {
            cols
        } else {
            cols.push(v)
        },
        _ => cols,
    }
}

/// The columns with those of a pattern.
pub open spec fn with_pattern(cols: Seq<Text>, p: PatternView) -> Seq<Text> {
    with_column(with_column(with_column(cols, p.subject), p.predicate), p.object)
}

/// The variables of patterns in the order they first occur.
pub open spec fn pattern_columns(ps: Seq<PatternView>) -> Seq<Text>
    decreases ps.len(),
{
    if ps.len() == 0 {
        Seq::empty()
    } else {
        with_pattern(pattern_columns(ps.drop_last()), ps.last())
    }
}

/// Does a row put the term at a position in the place of a pattern's term?
pub open spec fn puts(
    terms: Seq<TermView>,
    cols: Seq<Text>,
    row: Seq<SlotView>,
    t: TermView,
    id: u64,
) -> bool {
    match t {
        TermView::Var(v) => match position(cols, v) {
            Some(c) => row[c] == SlotView::Id(id),
            None => false,
        },
        _ => terms[id as int] == t,
    }
}

/// Does a row make a triple of a pattern?
pub open spec fn makes(
    terms: Seq<TermView>,
    cols: Seq<Text>,
    row: Seq<SlotView>,
    p: PatternView,
    t: Ids,
) -> bool {
    puts(terms, cols, row, p.subject, t.0) && puts(terms, cols, row, p.predicate, t.1) && puts(
        terms,
        cols,
        row,
        p.object,
        t.2,
    )
}

/// Does a row make one of the triples of a pattern?
pub open spec fn found(
    terms: Seq<TermView>,
    triples: Set<Ids>,
    cols: Seq<Text>,
    row: Seq<SlotView>,
    p: PatternView,
) -> bool {
    exists|t: Ids| #[trigger] triples.contains(t) && makes(terms, cols, row, p, t)
}

/// Is a row a solution? It makes one of the triples of every pattern.
pub open spec fn is_solution(
    terms: Seq<TermView>,
    triples: Set<Ids>,
    ps: Seq<PatternView>,
    row: Seq<SlotView>,
) -> bool {
    &&& row.len() == pattern_columns(ps).len()
    &&& forall|i: int|
        0 <= i < ps.len() ==> found(terms, triples, pattern_columns(ps), row, #[trigger] ps[i])
}

/// Does every variable of patterns have a column? One does not where it stands
/// inside a triple term alone; nothing is matched there, and the patterns have
/// no solution.
pub open spec fn covered(ps: Seq<PatternView>) -> bool {
    forall|i: int|
        0 <= i < bgp_vars(ps).len() ==> position(
            pattern_columns(ps),
            #[trigger] bgp_vars(ps)[i],
        ) is Some
}

/// Are these the solutions of patterns, each once?
pub open spec fn solutions(
    terms: Seq<TermView>,
    triples: Set<Ids>,
    ps: Seq<PatternView>,
    out: BatchView,
) -> bool {
    &&& out.schema == pattern_columns(ps)
    &&& out.rows.no_duplicates()
    &&& forall|row: Seq<SlotView>| #[trigger]
        out.rows.contains(row) <==> covered(ps) && is_solution(terms, triples, ps, row)
}

// ── Extending rows ──────────────────────────────────────────────────────────

/// The row that also puts a term in the place of a pattern's term.
spec fn step(
    terms: Seq<TermView>,
    cols: Seq<Text>,
    row: Seq<SlotView>,
    t: TermView,
    id: u64,
) -> Option<Seq<SlotView>> {
    match t {
        TermView::Var(v) => match position(cols, v) {
            Some(c) => if row[c] == SlotView::Id(id) {
                Some(row)
            } else {
                None
            },
            None => Some(row.push(SlotView::Id(id))),
        },
        _ => if terms[id as int] == t {
            Some(row)
        } else {
            None
        },
    }
}

/// The row that also makes a triple of a pattern.
spec fn extend(
    terms: Seq<TermView>,
    cols: Seq<Text>,
    row: Seq<SlotView>,
    p: PatternView,
    t: Ids,
) -> Option<Seq<SlotView>> {
    match step(terms, cols, row, p.subject, t.0) {
        None => None,
        Some(a) => {
            let ca = with_column(cols, p.subject);
            match step(terms, ca, a, p.predicate, t.1) {
                None => None,
                Some(b) => step(terms, with_column(ca, p.predicate), b, p.object, t.2),
            }
        },
    }
}

/// The extensions of one row.
spec fn row_extensions(
    terms: Seq<TermView>,
    cols: Seq<Text>,
    row: Seq<SlotView>,
    p: PatternView,
    triples: Seq<Ids>,
) -> Seq<Seq<SlotView>>
    decreases triples.len(),
{
    if triples.len() == 0 {
        Seq::empty()
    } else {
        let before = row_extensions(terms, cols, row, p, triples.drop_last());
        match extend(terms, cols, row, p, triples.last()) {
            Some(r) => before.push(r),
            None => before,
        }
    }
}

/// The extensions of rows.
spec fn extensions(
    terms: Seq<TermView>,
    cols: Seq<Text>,
    rows: Seq<Seq<SlotView>>,
    p: PatternView,
    triples: Seq<Ids>,
) -> Seq<Seq<SlotView>>
    decreases rows.len(),
{
    if rows.len() == 0 {
        Seq::empty()
    } else {
        extensions(terms, cols, rows.drop_last(), p, triples) + row_extensions(
            terms,
            cols,
            rows.last(),
            p,
            triples,
        )
    }
}

/// The rows that make triples of all patterns.
spec fn solved(terms: Seq<TermView>, ps: Seq<PatternView>, triples: Seq<Ids>) -> Seq<Seq<SlotView>>
    decreases ps.len(),
{
    if ps.len() == 0 {
        seq![Seq::empty()]
    } else {
        extensions(
            terms,
            pattern_columns(ps.drop_last()),
            solved(terms, ps.drop_last(), triples),
            ps.last(),
            triples,
        )
    }
}

// ── Columns ─────────────────────────────────────────────────────────────────

/// Adding columns moves none.
proof fn prefix_keeps_position(cols: Seq<Text>, more: Seq<Text>, v: Text)
    requires
        cols.len() <= more.len(),
        more.take(cols.len() as int) == cols,
    ensures
        position(cols, v) is Some ==> position(more, v) == position(cols, v),
        position(cols, v) is None && position(more, v) is Some ==> position(more, v)->0
            >= cols.len(),
{
    position_facts(cols, v);
    position_facts(more, v);
    assert forall|j: int| 0 <= j < cols.len() implies cols[j] == more[j] by {
        assert(more.take(cols.len() as int)[j] == more[j]);
    }
    if let Some(i) = position(cols, v) {
        assert(more[i] == v);
        assert(more.contains(v));
    } else {
        if let Some(i) = position(more, v) {
            if i < cols.len() {
                assert(cols[i] == v);
                assert(cols.contains(v));
            }
        }
    }
}

proof fn with_column_facts(cols: Seq<Text>, t: TermView)
    ensures
        cols.len() <= with_column(cols, t).len(),
        with_column(cols, t).take(cols.len() as int) == cols,
        t matches TermView::Var(v) ==> position(with_column(cols, t), v) is Some,
        t matches TermView::Var(v) ==> (position(cols, v) is None ==> position(
            with_column(cols, t),
            v,
        ) == Some(cols.len() as int)),
{
    assert(with_column(cols, t).take(cols.len() as int) =~= cols);
    if let TermView::Var(v) = t {
        let more = with_column(cols, t);
        position_facts(cols, v);
        position_facts(more, v);
        if position(cols, v) is None {
            assert(more[cols.len() as int] == v);
            assert(more.contains(v));
            prefix_keeps_position(cols, more, v);
        }
    }
}

proof fn with_pattern_facts(cols: Seq<Text>, p: PatternView)
    ensures
        ({
            let ca = with_column(cols, p.subject);
            let cb = with_column(ca, p.predicate);
            let cc = with_pattern(cols, p);
            &&& cols.len() <= ca.len() <= cb.len() <= cc.len()
            &&& ca.take(cols.len() as int) == cols
            &&& cb.take(ca.len() as int) == ca
            &&& cc.take(cb.len() as int) == cb
            &&& cc.take(ca.len() as int) == ca
            &&& cc.take(cols.len() as int) == cols
        }),
{
    let ca = with_column(cols, p.subject);
    let cb = with_column(ca, p.predicate);
    let cc = with_pattern(cols, p);
    with_column_facts(cols, p.subject);
    with_column_facts(ca, p.predicate);
    with_column_facts(cb, p.object);
    assert(cc.take(ca.len() as int) =~= cb.take(ca.len() as int));
    assert(cc.take(cols.len() as int) =~= ca.take(cols.len() as int));
}

/// Is the term constant or among the columns?
pub open spec fn known(cols: Seq<Text>, t: TermView) -> bool {
    t matches TermView::Var(v) ==> position(cols, v) is Some
}

/// More columns change nothing for a term that is known.
proof fn puts_extends(
    terms: Seq<TermView>,
    cols: Seq<Text>,
    row: Seq<SlotView>,
    more: Seq<Text>,
    longer: Seq<SlotView>,
    t: TermView,
    id: u64,
)
    requires
        cols.len() <= more.len(),
        more.take(cols.len() as int) == cols,
        row.len() == cols.len(),
        longer.len() == more.len(),
        longer.take(row.len() as int) == row,
        known(cols, t),
    ensures
        puts(terms, cols, row, t, id) == puts(terms, more, longer, t, id),
{
    if let TermView::Var(v) = t {
        prefix_keeps_position(cols, more, v);
        position_facts(cols, v);
        let c = position(cols, v)->0;
        assert(longer.take(row.len() as int)[c] == longer[c]);
    }
}

// ── Steps ───────────────────────────────────────────────────────────────────

/// A step is the one way to put the term there.
proof fn step_meaning(
    terms: Seq<TermView>,
    cols: Seq<Text>,
    row: Seq<SlotView>,
    t: TermView,
    id: u64,
    r: Seq<SlotView>,
)
    requires
        row.len() == cols.len(),
    ensures
        (step(terms, cols, row, t, id) == Some(r)) <==> {
            &&& r.len() == with_column(cols, t).len()
            &&& r.take(row.len() as int) == row
            &&& puts(terms, with_column(cols, t), r, t, id)
        },
{
    with_column_facts(cols, t);
    if r.len() == row.len() {
        assert(r.take(row.len() as int) =~= r);
    }
    if let TermView::Var(v) = t {
        position_facts(cols, v);
        if position(cols, v) is None {
            let next = row.push(SlotView::Id(id));
            assert(next.take(row.len() as int) =~= row);
            if r.len() == row.len() + 1 && r.take(row.len() as int) == row && r[row.len() as int]
                == SlotView::Id(id) {
                assert forall|j: int| 0 <= j < r.len() implies r[j] == next[j] by {
                    if j < row.len() {
                        assert(r.take(row.len() as int)[j] == r[j]);
                    }
                }
                assert(r =~= next);
            }
        }
    }
}

/// An extension is the one row that continues a row and makes the triple.
proof fn extend_meaning(
    terms: Seq<TermView>,
    cols: Seq<Text>,
    row: Seq<SlotView>,
    p: PatternView,
    t: Ids,
    r: Seq<SlotView>,
)
    requires
        row.len() == cols.len(),
    ensures
        (extend(terms, cols, row, p, t) == Some(r)) <==> {
            &&& r.len() == with_pattern(cols, p).len()
            &&& r.take(row.len() as int) == row
            &&& makes(terms, with_pattern(cols, p), r, p, t)
        },
{
    let ca = with_column(cols, p.subject);
    let cb = with_column(ca, p.predicate);
    let cc = with_pattern(cols, p);
    with_pattern_facts(cols, p);
    with_column_facts(cols, p.subject);
    with_column_facts(ca, p.predicate);
    with_column_facts(cb, p.object);
    if extend(terms, cols, row, p, t) == Some(r) {
        let a = step(terms, cols, row, p.subject, t.0)->0;
        let b = step(terms, ca, a, p.predicate, t.1)->0;
        step_meaning(terms, cols, row, p.subject, t.0, a);
        step_meaning(terms, ca, a, p.predicate, t.1, b);
        step_meaning(terms, cb, b, p.object, t.2, r);
        assert(r.take(a.len() as int) =~= r.take(b.len() as int).take(a.len() as int));
        assert(r.take(row.len() as int) =~= r.take(a.len() as int).take(row.len() as int));
        puts_extends(terms, ca, a, cc, r, p.subject, t.0);
        puts_extends(terms, cb, b, cc, r, p.predicate, t.1);
    }
    if r.len() == cc.len() && r.take(row.len() as int) == row && makes(terms, cc, r, p, t) {
        let a = r.take(ca.len() as int);
        let b = r.take(cb.len() as int);
        assert(b.take(a.len() as int) =~= a);
        assert(a.take(row.len() as int) =~= row);
        assert(r.take(b.len() as int) =~= b);
        puts_extends(terms, ca, a, cc, r, p.subject, t.0);
        puts_extends(terms, cb, b, cc, r, p.predicate, t.1);
        step_meaning(terms, cols, row, p.subject, t.0, a);
        step_meaning(terms, ca, a, p.predicate, t.1, b);
        step_meaning(terms, cb, b, p.object, t.2, r);
    }
}

/// Do the positions of a triple lie within the terms?
pub open spec fn within(terms: Seq<TermView>, t: Ids) -> bool {
    t.0 < terms.len() && t.1 < terms.len() && t.2 < terms.len()
}

proof fn puts_one(
    terms: Seq<TermView>,
    cols: Seq<Text>,
    row: Seq<SlotView>,
    t: TermView,
    a: u64,
    b: u64,
)
    requires
        terms.no_duplicates(),
        a < terms.len(),
        b < terms.len(),
        puts(terms, cols, row, t, a),
        puts(terms, cols, row, t, b),
    ensures
        a == b,
{
    if !(t is Var) {
        assert(terms[a as int] == terms[b as int]);
    }
}

// ── Extensions ──────────────────────────────────────────────────────────────

proof fn row_extensions_facts(
    terms: Seq<TermView>,
    cols: Seq<Text>,
    row: Seq<SlotView>,
    p: PatternView,
    triples: Seq<Ids>,
)
    requires
        row.len() == cols.len(),
        terms.no_duplicates(),
        triples.no_duplicates(),
        forall|i: int| 0 <= i < triples.len() ==> within(terms, #[trigger] triples[i]),
    ensures
        row_extensions(terms, cols, row, p, triples).no_duplicates(),
        forall|r: Seq<SlotView>| #[trigger]
            row_extensions(terms, cols, row, p, triples).contains(r) <==> {
                &&& r.len() == with_pattern(cols, p).len()
                &&& r.take(row.len() as int) == row
                &&& found(terms, triples.to_set(), with_pattern(cols, p), r, p)
            },
    decreases triples.len(),
{
    let out = row_extensions(terms, cols, row, p, triples);
    let cc = with_pattern(cols, p);
    if triples.len() == 0 {
        assert forall|r: Seq<SlotView>| #[trigger] out.contains(r) <==> {
            &&& r.len() == cc.len()
            &&& r.take(row.len() as int) == row
            &&& found(terms, triples.to_set(), cc, r, p)
        } by {
            if found(terms, triples.to_set(), cc, r, p) {
                let t = choose|t: Ids| #[trigger]
                    triples.to_set().contains(t) && makes(terms, cc, r, p, t);
                assert(triples.contains(t));
            }
        }
    } else {
        let rest = triples.drop_last();
        let last = triples.last();
        let before = row_extensions(terms, cols, row, p, rest);
        assert forall|i: int| 0 <= i < rest.len() implies within(terms, #[trigger] rest[i]) by {
            assert(rest[i] == triples[i]);
        }
        row_extensions_facts(terms, cols, row, p, rest);
        assert(within(terms, triples[triples.len() - 1]));
        assert forall|r: Seq<SlotView>| #[trigger] out.contains(r) <==> {
            &&& r.len() == cc.len()
            &&& r.take(row.len() as int) == row
            &&& found(terms, triples.to_set(), cc, r, p)
        } by {
            extend_meaning(terms, cols, row, p, last, r);
            if out.contains(r) {
                let i = choose|i: int| 0 <= i < out.len() && out[i] == r;
                if i < before.len() {
                    assert(before[i] == r);
                    assert(before.contains(r));
                    let t = choose|t: Ids| #[trigger]
                        rest.to_set().contains(t) && makes(terms, cc, r, p, t);
                    let k = choose|k: int| 0 <= k < rest.len() && rest[k] == t;
                    assert(triples[k] == t);
                    assert(triples.to_set().contains(t));
                } else {
                    assert(extend(terms, cols, row, p, last) == Some(r));
                    assert(triples[triples.len() - 1] == last);
                    assert(triples.to_set().contains(last));
                }
            }
            if r.len() == cc.len() && r.take(row.len() as int) == row && found(
                terms,
                triples.to_set(),
                cc,
                r,
                p,
            ) {
                let t = choose|t: Ids| #[trigger]
                    triples.to_set().contains(t) && makes(terms, cc, r, p, t);
                let k = choose|k: int| 0 <= k < triples.len() && triples[k] == t;
                if k < rest.len() {
                    assert(rest[k] == t);
                    assert(rest.to_set().contains(t));
                    assert(before.contains(r));
                    let i = choose|i: int| 0 <= i < before.len() && before[i] == r;
                    assert(out[i] == r);
                } else {
                    assert(t == last);
                    assert(out[out.len() - 1] == r);
                }
            }
        }
        if let Some(r) = extend(terms, cols, row, p, last) {
            if before.contains(r) {
                extend_meaning(terms, cols, row, p, last, r);
                let t = choose|t: Ids| #[trigger]
                    rest.to_set().contains(t) && makes(terms, cc, r, p, t);
                let k = choose|k: int| 0 <= k < rest.len() && rest[k] == t;
                assert(triples[k] == t);
                assert(within(terms, triples[k]));
                puts_one(terms, cc, r, p.subject, t.0, last.0);
                puts_one(terms, cc, r, p.predicate, t.1, last.1);
                puts_one(terms, cc, r, p.object, t.2, last.2);
                assert(triples[k] == triples[triples.len() - 1]);
                assert(false);
            }
            assert forall|i: int, j: int| 0 <= i < j < out.len() implies out[i] != out[j] by {
                if j == before.len() && out[i] == r {
                    assert(before[i] == r);
                    assert(before.contains(r));
                } else if j < before.len() {
                    assert(out[i] == before[i] && out[j] == before[j]);
                }
            }
        }
    }
}

/// Are all rows as long as the columns are many?
spec fn even(rows: Seq<Seq<SlotView>>, cols: Seq<Text>) -> bool {
    forall|i: int| 0 <= i < rows.len() ==> (#[trigger] rows[i]).len() == cols.len()
}

proof fn extensions_facts(
    terms: Seq<TermView>,
    cols: Seq<Text>,
    rows: Seq<Seq<SlotView>>,
    p: PatternView,
    triples: Seq<Ids>,
)
    requires
        even(rows, cols),
        rows.no_duplicates(),
        terms.no_duplicates(),
        triples.no_duplicates(),
        forall|i: int| 0 <= i < triples.len() ==> within(terms, #[trigger] triples[i]),
    ensures
        extensions(terms, cols, rows, p, triples).no_duplicates(),
        forall|r: Seq<SlotView>| #[trigger]
            extensions(terms, cols, rows, p, triples).contains(r) <==> {
                &&& r.len() == with_pattern(cols, p).len()
                &&& rows.contains(r.take(cols.len() as int))
                &&& found(terms, triples.to_set(), with_pattern(cols, p), r, p)
            },
    decreases rows.len(),
{
    let out = extensions(terms, cols, rows, p, triples);
    let cc = with_pattern(cols, p);
    with_pattern_facts(cols, p);
    if rows.len() > 0 {
        let rest = rows.drop_last();
        let last = rows.last();
        assert(rows[rows.len() - 1].len() == cols.len());
        assert forall|i: int| 0 <= i < rest.len() implies (#[trigger] rest[i]).len()
            == cols.len() by {
            assert(rest[i] == rows[i]);
        }
        extensions_facts(terms, cols, rest, p, triples);
        row_extensions_facts(terms, cols, last, p, triples);
        let a = extensions(terms, cols, rest, p, triples);
        let b = row_extensions(terms, cols, last, p, triples);
        assert forall|r: Seq<SlotView>| #[trigger] out.contains(r) <==> {
            &&& r.len() == cc.len()
            &&& rows.contains(r.take(cols.len() as int))
            &&& found(terms, triples.to_set(), cc, r, p)
        } by {
            let head = r.take(cols.len() as int);
            if out.contains(r) {
                let i = choose|i: int| 0 <= i < out.len() && out[i] == r;
                if i < a.len() {
                    assert(a[i] == r);
                    assert(a.contains(r));
                    let k = choose|k: int| 0 <= k < rest.len() && rest[k] == head;
                    assert(rows[k] == head);
                } else {
                    assert(b[i - a.len()] == r);
                    assert(b.contains(r));
                    assert(rows[rows.len() - 1] == head);
                }
            }
            if r.len() == cc.len() && rows.contains(head) && found(
                terms,
                triples.to_set(),
                cc,
                r,
                p,
            ) {
                let k = choose|k: int| 0 <= k < rows.len() && rows[k] == head;
                if k < rest.len() {
                    assert(rest[k] == head);
                    assert(a.contains(r));
                    let i = choose|i: int| 0 <= i < a.len() && a[i] == r;
                    assert(out[i] == r);
                } else {
                    assert(b.contains(r));
                    let i = choose|i: int| 0 <= i < b.len() && b[i] == r;
                    assert(out[a.len() + i] == r);
                }
            }
        }
        assert forall|i: int, j: int| 0 <= i < j < out.len() implies out[i] != out[j] by {
            if j < a.len() {
                assert(out[i] == a[i] && out[j] == a[j]);
            } else if i >= a.len() {
                assert(out[i] == b[i - a.len()] && out[j] == b[j - a.len()]);
            } else if out[i] == out[j] {
                let r = out[i];
                assert(a[i] == r);
                assert(a.contains(r));
                assert(b[j - a.len()] == r);
                assert(b.contains(r));
                let k = choose|k: int|
                    0 <= k < rest.len() && rest[k] == r.take(cols.len() as int);
                assert(rows[k] == rows[rows.len() - 1]);
                assert(false);
            }
        }
    }
}

/// More patterns only add columns.
proof fn columns_grow(ps: Seq<PatternView>, k: int)
    requires
        0 <= k <= ps.len(),
    ensures
        pattern_columns(ps.take(k)).len() <= pattern_columns(ps).len(),
        pattern_columns(ps).take(pattern_columns(ps.take(k)).len() as int) == pattern_columns(
            ps.take(k),
        ),
    decreases ps.len(),
{
    if k == ps.len() {
        assert(ps.take(k) =~= ps);
        assert(pattern_columns(ps).take(pattern_columns(ps).len() as int) =~= pattern_columns(ps));
    } else {
        let rest = ps.drop_last();
        columns_grow(rest, k);
        assert(rest.take(k) =~= ps.take(k));
        with_pattern_facts(pattern_columns(rest), ps.last());
        let n = pattern_columns(ps.take(k)).len() as int;
        assert(pattern_columns(ps).take(n) =~= pattern_columns(rest).take(n));
    }
}

/// The terms of a pattern are known once it is among the patterns.
pub proof fn pattern_is_known(ps: Seq<PatternView>, i: int)
    requires
        0 <= i < ps.len(),
    ensures
        known(pattern_columns(ps), ps[i].subject),
        known(pattern_columns(ps), ps[i].predicate),
        known(pattern_columns(ps), ps[i].object),
{
    let upto = ps.take(i + 1);
    assert(upto.last() == ps[i]);
    let cols = pattern_columns(upto.drop_last());
    let p = ps[i];
    let ca = with_column(cols, p.subject);
    let cb = with_column(ca, p.predicate);
    let cc = with_pattern(cols, p);
    with_pattern_facts(cols, p);
    with_column_facts(cols, p.subject);
    with_column_facts(ca, p.predicate);
    with_column_facts(cb, p.object);
    columns_grow(ps, i + 1);
    if let TermView::Var(v) = p.subject {
        prefix_keeps_position(ca, cc, v);
        prefix_keeps_position(cc, pattern_columns(ps), v);
    }
    if let TermView::Var(v) = p.predicate {
        prefix_keeps_position(cb, cc, v);
        prefix_keeps_position(cc, pattern_columns(ps), v);
    }
    if let TermView::Var(v) = p.object {
        prefix_keeps_position(cc, pattern_columns(ps), v);
    }
}

/// Adding a term's column keeps the columns distinct.
proof fn with_column_is_distinct(cols: Seq<Text>, t: TermView)
    requires
        cols.no_duplicates(),
    ensures
        with_column(cols, t).no_duplicates(),
        forall|v: Text| #[trigger] with_column(cols, t).contains(v) ==> cols.contains(v) || t
            == TermView::Var(v),
{
    if let TermView::Var(w) = t {
        position_facts(cols, w);
        assert forall|v: Text| #[trigger] with_column(cols, t).contains(v) implies cols.contains(v) || t
            == TermView::Var(v) by {
            let k = choose|k: int|
                0 <= k < with_column(cols, t).len() && with_column(cols, t)[k] == v;
            if k < cols.len() {
                assert(cols[k] == v);
            }
        }
    }
}

/// Adding a name keeps those that are there.
proof fn add_unique_keeps(s: Seq<Text>, v: Text)
    ensures
        add_unique(s, v).contains(v),
        forall|w: Text| s.contains(w) ==> #[trigger] add_unique(s, v).contains(w),
{
    if !s.contains(v) {
        assert(s.push(v)[s.len() as int] == v);
        assert forall|w: Text| s.contains(w) implies #[trigger] add_unique(s, v).contains(w) by {
            let k = choose|k: int| 0 <= k < s.len() && s[k] == w;
            assert(s.push(v)[k] == w);
        }
    }
}

/// The variables of a term come after those that are there already.
proof fn term_vars_keeps(t: TermView, s: Seq<Text>)
    ensures
        forall|w: Text| s.contains(w) ==> #[trigger] term_vars(t, s).contains(w),
        t matches TermView::Var(v) ==> term_vars(t, s).contains(v),
    decreases t,
{
    match t {
        TermView::Var(v) => add_unique_keeps(s, v),
        TermView::Triple(tp) => {
            let a = term_vars(tp.subject, s);
            let b = term_vars(tp.predicate, a);
            term_vars_keeps(tp.subject, s);
            term_vars_keeps(tp.predicate, a);
            term_vars_keeps(tp.object, b);
            assert(term_vars(t, s) == term_vars(tp.object, b));
        },
        _ => {},
    }
}

/// The columns of patterns are distinct, and variables of the patterns.
pub proof fn columns_are_variables(ps: Seq<PatternView>)
    ensures
        pattern_columns(ps).no_duplicates(),
        forall|v: Text| #[trigger] pattern_columns(ps).contains(v) ==> bgp_vars(ps).contains(v),
    decreases ps.len(),
{
    if ps.len() > 0 {
        let (rest, p) = (ps.drop_last(), ps.last());
        columns_are_variables(rest);
        let c = pattern_columns(rest);
        let ca = with_column(c, p.subject);
        let cb = with_column(ca, p.predicate);
        with_column_is_distinct(c, p.subject);
        with_column_is_distinct(ca, p.predicate);
        with_column_is_distinct(cb, p.object);
        let s = bgp_vars(rest);
        let sa = term_vars(p.subject, s);
        let sb = term_vars(p.predicate, sa);
        term_vars_keeps(p.subject, s);
        term_vars_keeps(p.predicate, sa);
        term_vars_keeps(p.object, sb);
        assert(bgp_vars(ps) == term_vars(p.object, sb));
    }
}

/// A column of patterns is a variable of one of them.
pub proof fn column_has_a_pattern(ps: Seq<PatternView>, v: Text) -> (i: int)
    requires
        pattern_columns(ps).contains(v),
    ensures
        0 <= i < ps.len(),
        ps[i].subject == TermView::Var(v) || ps[i].predicate == TermView::Var(v) || ps[i].object
            == TermView::Var(v),
    decreases ps.len(),
{
    let (rest, p) = (ps.drop_last(), ps.last());
    columns_are_variables(rest);
    let c = pattern_columns(rest);
    let ca = with_column(c, p.subject);
    let cb = with_column(ca, p.predicate);
    with_column_is_distinct(c, p.subject);
    with_column_is_distinct(ca, p.predicate);
    with_column_is_distinct(cb, p.object);
    if c.contains(v) {
        column_has_a_pattern(rest, v)
    } else {
        ps.len() - 1
    }
}

/// Solutions bind every variable of the patterns.
pub proof fn solutions_bind_the_variables(
    terms: Seq<TermView>,
    triples: Set<Ids>,
    ps: Seq<PatternView>,
    out: BatchView,
)
    requires
        solutions(terms, triples, ps, out),
    ensures
        binds(ps, out),
{
    let cols = pattern_columns(ps);
    columns_are_variables(ps);
    assert forall|i: int| 0 <= i < out.schema.len() implies bgp_vars(ps).contains(
        #[trigger] out.schema[i],
    ) by {
        assert(cols.contains(cols[i]));
    }
    assert forall|k: int| 0 <= k < out.rows.len() implies (#[trigger] out.rows[k]).len()
        == out.schema.len() by {
        assert(out.rows.contains(out.rows[k]));
    }
    assert forall|k: int, v: Text|
        #![trigger bound_in(out.schema, out.rows[k], v)]
        0 <= k < out.rows.len() && bgp_vars(ps).contains(v) implies bound_in(
        out.schema,
        out.rows[k],
        v,
    ) by {
        let row = out.rows[k];
        assert(out.rows.contains(row));
        let j = choose|j: int| 0 <= j < bgp_vars(ps).len() && bgp_vars(ps)[j] == v;
        assert(position(cols, bgp_vars(ps)[j]) is Some);
        position_facts(cols, v);
        let i = column_has_a_pattern(ps, v);
        assert(found(terms, triples, cols, row, ps[i]));
        let t = choose|t: Ids| #[trigger] triples.contains(t) && makes(terms, cols, row, ps[i], t);
        assert(makes(terms, cols, row, ps[i], t));
    }
}

/// A row's slots under some of its columns put a term in the place of a
/// pattern's term as the row does.
proof fn puts_under(
    terms: Seq<TermView>,
    cols: Seq<Text>,
    row: Seq<SlotView>,
    part: Seq<Text>,
    t: TermView,
    id: u64,
)
    requires
        known(part, t),
        known(cols, t),
    ensures
        puts(terms, part, laid_out(cols, row, part), t, id) == puts(terms, cols, row, t, id),
{
    if let TermView::Var(v) = t {
        position_facts(part, v);
        position_facts(cols, v);
    }
}

proof fn found_under(
    terms: Seq<TermView>,
    triples: Set<Ids>,
    cols: Seq<Text>,
    row: Seq<SlotView>,
    part: Seq<Text>,
    p: PatternView,
)
    requires
        known(part, p.subject) && known(part, p.predicate) && known(part, p.object),
        known(cols, p.subject) && known(cols, p.predicate) && known(cols, p.object),
    ensures
        found(terms, triples, part, laid_out(cols, row, part), p) == found(
            terms,
            triples,
            cols,
            row,
            p,
        ),
{
    let r = laid_out(cols, row, part);
    assert forall|t: Ids| makes(terms, part, r, p, t) == #[trigger] makes(terms, cols, row, p, t) by {
        puts_under(terms, cols, row, part, p.subject, t.0);
        puts_under(terms, cols, row, part, p.predicate, t.1);
        puts_under(terms, cols, row, part, p.object, t.2);
    }
    if found(terms, triples, part, r, p) {
        let t = choose|t: Ids| #[trigger] triples.contains(t) && makes(terms, part, r, p, t);
        assert(makes(terms, cols, row, p, t));
    }
    if found(terms, triples, cols, row, p) {
        let t = choose|t: Ids| #[trigger] triples.contains(t) && makes(terms, cols, row, p, t);
        assert(makes(terms, part, r, p, t));
    }
}

/// The solutions of two lists of patterns taken together are their joint
/// solutions: a row solves both lists where its part under the columns of each
/// list solves that list.
pub proof fn patterns_together_join_their_solutions(
    terms: Seq<TermView>,
    triples: Set<Ids>,
    ps: Seq<PatternView>,
    qs: Seq<PatternView>,
    row: Seq<SlotView>,
)
    requires
        row.len() == pattern_columns(ps + qs).len(),
    ensures
        ({
            let cols = pattern_columns(ps + qs);
            is_solution(terms, triples, ps + qs, row) <==> is_solution(
                terms,
                triples,
                ps,
                laid_out(cols, row, pattern_columns(ps)),
            ) && is_solution(terms, triples, qs, laid_out(cols, row, pattern_columns(qs)))
        }),
{
    let all = ps + qs;
    let cols = pattern_columns(all);
    let (cp, cq) = (pattern_columns(ps), pattern_columns(qs));
    let (rp, rq) = (laid_out(cols, row, cp), laid_out(cols, row, cq));
    assert forall|i: int| 0 <= i < ps.len() implies found(terms, triples, cp, rp, #[trigger] ps[i])
        == found(terms, triples, cols, row, ps[i]) by {
        assert(all[i] == ps[i]);
        pattern_is_known(ps, i);
        pattern_is_known(all, i);
        found_under(terms, triples, cols, row, cp, ps[i]);
    }
    assert forall|i: int| 0 <= i < qs.len() implies found(terms, triples, cq, rq, #[trigger] qs[i])
        == found(terms, triples, cols, row, qs[i]) by {
        assert(all[ps.len() + i] == qs[i]);
        pattern_is_known(qs, i);
        pattern_is_known(all, ps.len() + i);
        found_under(terms, triples, cols, row, cq, qs[i]);
    }
    if is_solution(terms, triples, all, row) {
        assert forall|i: int| 0 <= i < ps.len() implies found(terms, triples, cp, rp, #[trigger] ps[i]) by {
            assert(found(terms, triples, cols, row, all[i]));
        }
        assert forall|i: int| 0 <= i < qs.len() implies found(terms, triples, cq, rq, #[trigger] qs[i]) by {
            assert(found(terms, triples, cols, row, all[ps.len() + i]));
        }
    }
    if is_solution(terms, triples, ps, rp) && is_solution(terms, triples, qs, rq) {
        assert forall|i: int| 0 <= i < all.len() implies found(
            terms,
            triples,
            cols,
            row,
            #[trigger] all[i],
        ) by {
            if i < ps.len() {
                assert(all[i] == ps[i]);
            } else {
                assert(all[i] == qs[i - ps.len()]);
            }
        }
    }
}

/// Rows found by extension are the solutions.
proof fn solved_are_the_solutions(
    terms: Seq<TermView>,
    ps: Seq<PatternView>,
    triples: Seq<Ids>,
)
    requires
        terms.no_duplicates(),
        triples.no_duplicates(),
        forall|i: int| 0 <= i < triples.len() ==> within(terms, #[trigger] triples[i]),
    ensures
        even(solved(terms, ps, triples), pattern_columns(ps)),
        solved(terms, ps, triples).no_duplicates(),
        forall|row: Seq<SlotView>| #[trigger]
            solved(terms, ps, triples).contains(row) <==> is_solution(
                terms,
                triples.to_set(),
                ps,
                row,
            ),
    decreases ps.len(),
{
    let out = solved(terms, ps, triples);
    let cols = pattern_columns(ps);
    let set = triples.to_set();
    if ps.len() == 0 {
        assert forall|row: Seq<SlotView>| #[trigger] out.contains(row) <==> is_solution(
            terms,
            set,
            ps,
            row,
        ) by {
            assert(out[0] == Seq::<SlotView>::empty());
            if row.len() == 0 {
                assert(row =~= Seq::<SlotView>::empty());
                assert(out[0] == row);
            }
        }
    } else {
        let rest = ps.drop_last();
        let p = ps.last();
        let inner = pattern_columns(rest);
        solved_are_the_solutions(terms, rest, triples);
        extensions_facts(terms, inner, solved(terms, rest, triples), p, triples);
        with_pattern_facts(inner, p);
        assert forall|row: Seq<SlotView>| #[trigger] out.contains(row) <==> is_solution(
            terms,
            set,
            ps,
            row,
        ) by {
            let head = row.take(inner.len() as int);
            if row.len() == cols.len() {
                assert forall|i: int| 0 <= i < rest.len() implies (found(
                    terms,
                    set,
                    inner,
                    head,
                    #[trigger] rest[i],
                ) <==> found(terms, set, cols, row, rest[i])) by {
                    pattern_is_known(rest, i);
                    let q = rest[i];
                    assert forall|t: Ids| makes(terms, inner, head, q, t) == #[trigger] makes(
                        terms,
                        cols,
                        row,
                        q,
                        t,
                    ) by {
                        puts_extends(terms, inner, head, cols, row, q.subject, t.0);
                        puts_extends(terms, inner, head, cols, row, q.predicate, t.1);
                        puts_extends(terms, inner, head, cols, row, q.object, t.2);
                    }
                }
                assert(solved(terms, rest, triples).contains(head) <==> is_solution(
                    terms,
                    set,
                    rest,
                    head,
                ));
                if is_solution(terms, set, ps, row) {
                    assert forall|i: int| 0 <= i < rest.len() implies found(
                        terms,
                        set,
                        inner,
                        head,
                        #[trigger] rest[i],
                    ) by {
                        assert(rest[i] == ps[i]);
                    }
                    assert(ps[ps.len() - 1] == p);
                }
                if out.contains(row) {
                    assert forall|i: int| 0 <= i < ps.len() implies found(
                        terms,
                        set,
                        cols,
                        row,
                        #[trigger] ps[i],
                    ) by {
                        if i < rest.len() {
                            assert(rest[i] == ps[i]);
                        } else {
                            assert(ps[i] == p);
                        }
                    }
                }
            }
        }
        assert forall|i: int| 0 <= i < out.len() implies (#[trigger] out[i]).len()
            == cols.len() by {
            assert(out.contains(out[i]));
        }
    }
}

// ── Execution ───────────────────────────────────────────────────────────────

fn add_column(cols: &mut Vec<Var>, t: &Term)
    ensures
        names(final(cols)@) == with_column(names(old(cols)@), t@),
{
    if let Term::Var(v) = t {
        if find_column(cols, v.name()).is_none() {
            let ghost before = cols@;
            cols.push(v.clone());
            assert(names(cols@) =~= names(before).push(v@));
        }
    }
}

/// Takes one step, or says that there is none.
fn take_step(terms: &Vec<Term>, cols: &Vec<Var>, row: &mut Row, t: &Term, id: u64) -> (ok: bool)
    requires
        old(row)@.len() == cols@.len(),
        id < terms@.len(),
    ensures
        ok == (step(
            terms_view(terms@),
            names(cols@),
            old(row)@,
            t@,
            id,
        ) is Some),
        ok ==> step(terms_view(terms@), names(cols@), old(row)@, t@, id) == Some(
            final(row)@,
        ),
{
    match t {
        Term::Var(v) => match find_column(cols, v.name()) {
            Some(c) => {
                assert(row@[c as int] == row.0@[c as int]@);
                match &row.0[c] {
                    Slot::Id(x) => *x == id,
                    _ => false,
                }
            },
            None => {
                let ghost before = row@;
                row.0.push(Slot::Id(id));
                assert(row@ =~= before.push(SlotView::Id(id)));
                true
            },
        },
        _ => {
            let n: usize = terms.len();
            assert(id < n);
            let i: usize = id as usize;
            assert(terms_view(terms@)[id as int] == terms@[i as int]@);
            terms[i].same(t)
        },
    }
}

fn extend_row(
    terms: &Vec<Term>,
    cols: &Vec<Var>,
    row: &Row,
    p: &TriplePattern,
    triples: &Vec<Ids>,
    out: &mut Vec<Row>,
)
    requires
        row@.len() == cols@.len(),
        forall|i: int|
            0 <= i < triples@.len() ==> within(
                terms_view(terms@),
                #[trigger] triples@[i],
            ),
    ensures
        slot_rows_view(final(out)@) == slot_rows_view(old(out)@) + row_extensions(
            terms_view(terms@),
            names(cols@),
            row@,
            p@,
            triples@,
        ),
{
    let ghost tv = terms_view(terms@);
    let ghost cv = names(cols@);
    let ghost start = slot_rows_view(out@);
    let mut ca = clone_vars(cols);
    add_column(&mut ca, &p.subject);
    let mut cb = clone_vars(&ca);
    add_column(&mut cb, &p.predicate);
    let mut i: usize = 0;
    assert(triples@.take(0) =~= Seq::empty());
    assert(slot_rows_view(out@) =~= start + row_extensions(tv, cv, row@, p@, triples@.take(0)));
    while i < triples.len()
        invariant
            i <= triples@.len(),
            row@.len() == cols@.len(),
            tv == terms_view(terms@),
            cv == names(cols@),
            names(ca@) == with_column(cv, p@.subject),
            names(cb@) == with_column(names(ca@), p@.predicate),
            forall|k: int| 0 <= k < triples@.len() ==> within(tv, #[trigger] triples@[k]),
            slot_rows_view(out@) == start + row_extensions(
                tv,
                cv,
                row@,
                p@,
                triples@.take(i as int),
            ),
        decreases triples@.len() - i,
    {
        let t = triples[i];
        proof {
            assert(within(tv, triples@[i as int]));
            assert(triples@.take(i + 1).drop_last() =~= triples@.take(i as int));
            assert(triples@.take(i + 1).last() == t);
        }
        let mut r = row.clone();
        if take_step(terms, cols, &mut r, &p.subject, t.0) {
            proof {
                step_meaning(tv, cv, row@, p@.subject, t.0, r@);
            }
            let ghost a = r@;
            if take_step(terms, &ca, &mut r, &p.predicate, t.1) {
                proof {
                    step_meaning(tv, names(ca@), a, p@.predicate, t.1, r@);
                }
                if take_step(terms, &cb, &mut r, &p.object, t.2) {
                    let ghost before = slot_rows_view(out@);
                    out.push(r);
                    assert(slot_rows_view(out@) =~= before.push(r@));
                    assert(slot_rows_view(out@) =~= start + row_extensions(
                        tv,
                        cv,
                        row@,
                        p@,
                        triples@.take(i + 1),
                    ));
                }
            }
        }
        i = i + 1;
    }
    assert(triples@.take(triples@.len() as int) =~= triples@);
}

fn extend_rows(
    terms: &Vec<Term>,
    cols: &Vec<Var>,
    rows: &Vec<Row>,
    p: &TriplePattern,
    triples: &Vec<Ids>,
) -> (next: Vec<Row>)
    requires
        even(slot_rows_view(rows@), names(cols@)),
        forall|i: int|
            0 <= i < triples@.len() ==> within(terms_view(terms@), #[trigger] triples@[i]),
    ensures
        slot_rows_view(next@) == extensions(
            terms_view(terms@),
            names(cols@),
            slot_rows_view(rows@),
            p@,
            triples@,
        ),
{
    let ghost tv = terms_view(terms@);
    let ghost cv = names(cols@);
    let ghost rv = slot_rows_view(rows@);
    let mut next: Vec<Row> = Vec::new();
    let mut i: usize = 0;
    assert(rv.take(0) =~= Seq::empty());
    assert(slot_rows_view(next@) =~= extensions(tv, cv, rv.take(0), p@, triples@));
    while i < rows.len()
        invariant
            i <= rows@.len(),
            tv == terms_view(terms@),
            cv == names(cols@),
            rv == slot_rows_view(rows@),
            even(rv, cv),
            forall|j: int| 0 <= j < triples@.len() ==> within(tv, #[trigger] triples@[j]),
            slot_rows_view(next@) == extensions(tv, cv, rv.take(i as int), p@, triples@),
        decreases rows@.len() - i,
    {
        proof {
            assert(rv[i as int] == rows@[i as int]@);
            assert(rv.take(i + 1).drop_last() =~= rv.take(i as int));
            assert(rv.take(i + 1).last() == rv[i as int]);
        }
        extend_row(terms, cols, &rows[i], p, triples, &mut next);
        i = i + 1;
    }
    assert(rv.take(rv.len() as int) =~= rv);
    next
}

/// Does every variable have a column?
fn has_columns(vars: &Vec<Var>, cols: &Vec<Var>) -> (r: bool)
    ensures
        r == forall|i: int|
            0 <= i < names(vars@).len() ==> position(
                names(cols@),
                #[trigger] names(vars@)[i],
            ) is Some,
{
    let mut i: usize = 0;
    while i < vars.len()
        invariant
            i <= vars@.len(),
            forall|j: int|
                0 <= j < i ==> position(names(cols@), #[trigger] names(vars@)[j]) is Some,
        decreases vars@.len() - i,
    {
        assert(names(vars@)[i as int] == vars@[i as int]@);
        if find_column(cols, vars[i].name()).is_none() {
            return false;
        }
        i = i + 1;
    }
    true
}

/// The solutions of patterns over triples.
pub fn solve(terms: &Vec<Term>, ps: &Vec<TriplePattern>, triples: &Vec<Ids>) -> (b: Batch)
    requires
        terms_view(terms@).no_duplicates(),
        triples@.no_duplicates(),
        forall|i: int|
            0 <= i < triples@.len() ==> within(
                terms_view(terms@),
                #[trigger] triples@[i],
            ),
    ensures
        b@.wf(),
        solutions(
            terms_view(terms@),
            triples@.to_set(),
            patterns_view(ps@),
            b@,
        ),
{
    let ghost tv = terms_view(terms@);
    let ghost pv = patterns_view(ps@);
    let mut cols: Vec<Var> = Vec::new();
    let mut rows: Vec<Row> = Vec::new();
    rows.push(Row(Vec::new()));
    let mut k: usize = 0;
    proof {
        assert(pv.take(0) =~= Seq::empty());
        assert(names(cols@) =~= pattern_columns(pv.take(0)));
        assert(rows@[0]@ =~= Seq::<SlotView>::empty());
        assert(slot_rows_view(rows@) =~= solved(tv, pv.take(0), triples@));
    }
    while k < ps.len()
        invariant
            k <= ps@.len(),
            tv == terms_view(terms@),
            pv == patterns_view(ps@),
            tv.no_duplicates(),
            triples@.no_duplicates(),
            forall|i: int| 0 <= i < triples@.len() ==> within(tv, #[trigger] triples@[i]),
            names(cols@) == pattern_columns(pv.take(k as int)),
            slot_rows_view(rows@) == solved(tv, pv.take(k as int), triples@),
        decreases ps@.len() - k,
    {
        proof {
            assert(pv.take(k + 1).drop_last() =~= pv.take(k as int));
            assert(pv.take(k + 1).last() == ps@[k as int]@);
            solved_are_the_solutions(tv, pv.take(k as int), triples@);
        }
        let next = extend_rows(terms, &cols, &rows, &ps[k], triples);
        add_column(&mut cols, &ps[k].subject);
        add_column(&mut cols, &ps[k].predicate);
        add_column(&mut cols, &ps[k].object);
        rows = next;
        k = k + 1;
    }
    assert(pv.take(pv.len() as int) =~= pv);
    if !has_columns(&patterns_vars(ps), &cols) {
        rows = Vec::new();
    }
    let b = Batch { schema: cols, rows };
    proof {
        solved_are_the_solutions(tv, pv, triples@);
        assert(b@.wf()) by {
            assert forall|i: int| 0 <= i < b@.rows.len() implies (#[trigger] b@.rows[i]).len()
                == b@.schema.len() by {}
        }
    }
    b
}

}
