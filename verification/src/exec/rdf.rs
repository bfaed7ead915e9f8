//! A store of RDF has in every position terms of the kinds that belong there.

use crate::algebra::{PatternView, TermView};
use crate::exec::batch::{position_facts, slot_term, BatchView, SlotView};
use crate::exec::bgp::{found, is_solution, makes, pattern_columns, with_column, Ids};
use crate::exec::executor::{binds, Executor};
use crate::exec::join::cell;
use crate::exec::kinds::{
    allowed_throughout, allows, kind_facts, mask_of, row_allowed, scans_by_position,
};
use crate::exec::mem::{all_within, quad_at, triples_in, MemStore};
use crate::exec::number::Numbers;
use crate::exec::scope::{resolved, ScopeView};
use crate::exec::store::{QuadView, Store};
use crate::plan::types::{add_mask, bgp_masks, pattern_masks, term_masks, TypeMask};
use crate::text::Text;
use vstd::prelude::*;

verus! {

/// Is a quad one of RDF? Its subject is an IRI or a blank node, its predicate an
/// IRI.
pub open spec fn is_rdf(q: QuadView) -> bool {
    (q.subject is Iri || q.subject is BlankNode) && q.predicate is Iri
}

/// Is a name typed, by a mask that allows all that another allows?
spec fn typed(m: Map<Text, TypeMask>, n: Text, mask: TypeMask) -> bool {
    m.contains_key(n) && forall|t: TermView| #[trigger] allows(mask, t) ==> allows(m[n], t)
}

proof fn added_is_typed(m: Map<Text, TypeMask>, v: Text, mask: TypeMask)
    ensures
        typed(add_mask(m, v, mask), v, mask),
        forall|n: Text, old: TypeMask|
            typed(m, n, old) ==> #[trigger] typed(add_mask(m, v, mask), n, old),
{
    let after = add_mask(m, v, mask);
    assert forall|t: TermView| #[trigger] allows(mask, t) implies allows(after[v], t) by {
        if m.contains_key(v) {
            kind_facts(t, m[v], mask);
        }
    }
    assert forall|n: Text, old: TypeMask| typed(m, n, old) implies #[trigger] typed(
        after,
        n,
        old,
    ) by {
        assert forall|t: TermView| #[trigger] allows(old, t) implies allows(after[n], t) by {
            kind_facts(t, m[n], mask);
        }
    }
}

/// Seeing a term takes no type away.
proof fn term_keeps_types(t: TermView, mask: TypeMask, acc: Map<Text, TypeMask>, n: Text, old: TypeMask)
    requires
        typed(acc, n, old),
    ensures
        typed(term_masks(t, mask, acc), n, old),
    decreases t,
{
    match t {
        TermView::Var(v) => added_is_typed(acc, v, mask),
        TermView::Triple(tp) => {
            pattern_keeps_types(*tp, acc, n, old);
            assert(term_masks(t, mask, acc) == pattern_masks(*tp, acc));
        },
        _ => {},
    }
}

/// Seeing a pattern takes no type away.
proof fn pattern_keeps_types(p: PatternView, acc: Map<Text, TypeMask>, n: Text, old: TypeMask)
    requires
        typed(acc, n, old),
    ensures
        typed(pattern_masks(p, acc), n, old),
    decreases p,
{
    let a = term_masks(p.subject, TypeMask::of(0b0_0110), acc);
    let b = term_masks(p.predicate, TypeMask::of(TypeMask::NAMED_NODE), a);
    term_keeps_types(p.subject, TypeMask::of(0b0_0110), acc, n, old);
    term_keeps_types(p.predicate, TypeMask::of(TypeMask::NAMED_NODE), a, n, old);
    term_keeps_types(p.object, TypeMask::of(TypeMask::ANY), b, n, old);
    assert(pattern_masks(p, acc) == term_masks(p.object, TypeMask::of(TypeMask::ANY), b));
}

/// A variable of a pattern has the types of the places where it stands.
proof fn pattern_types(p: PatternView, acc: Map<Text, TypeMask>, n: Text)
    ensures
        p.subject == TermView::Var(n) ==> typed(
            pattern_masks(p, acc),
            n,
            TypeMask::of(0b0_0110),
        ),
        p.predicate == TermView::Var(n) ==> typed(
            pattern_masks(p, acc),
            n,
            TypeMask::of(TypeMask::NAMED_NODE),
        ),
        p.object == TermView::Var(n) ==> typed(
            pattern_masks(p, acc),
            n,
            TypeMask::of(TypeMask::ANY),
        ),
{
    let (s, i, o) = (
        TypeMask::of(0b0_0110),
        TypeMask::of(TypeMask::NAMED_NODE),
        TypeMask::of(TypeMask::ANY),
    );
    let a = term_masks(p.subject, s, acc);
    let b = term_masks(p.predicate, i, a);
    assert(pattern_masks(p, acc) == term_masks(p.object, o, b));
    if p.subject == TermView::Var(n) {
        assert(a == add_mask(acc, n, s));
        added_is_typed(acc, n, s);
        term_keeps_types(p.predicate, i, a, n, s);
        term_keeps_types(p.object, o, b, n, s);
    }
    if p.predicate == TermView::Var(n) {
        assert(b == add_mask(a, n, i));
        added_is_typed(a, n, i);
        term_keeps_types(p.object, o, b, n, i);
    }
    if p.object == TermView::Var(n) {
        assert(pattern_masks(p, acc) == add_mask(b, n, o));
        added_is_typed(b, n, o);
    }
}

/// A variable of patterns has the types of the places where it stands.
proof fn places_are_typed(ps: Seq<PatternView>, k: int, n: Text)
    requires
        0 <= k < ps.len(),
    ensures
        ps[k].subject == TermView::Var(n) ==> typed(bgp_masks(ps), n, TypeMask::of(0b0_0110)),
        ps[k].predicate == TermView::Var(n) ==> typed(
            bgp_masks(ps),
            n,
            TypeMask::of(TypeMask::NAMED_NODE),
        ),
        ps[k].object == TermView::Var(n) ==> typed(
            bgp_masks(ps),
            n,
            TypeMask::of(TypeMask::ANY),
        ),
    decreases ps.len(),
{
    let rest = ps.drop_last();
    let before = bgp_masks(rest);
    assert(bgp_masks(ps) == pattern_masks(ps.last(), before));
    if k < rest.len() {
        assert(rest[k] == ps[k]);
        places_are_typed(rest, k, n);
        if ps[k].subject == TermView::Var(n) {
            pattern_keeps_types(ps.last(), before, n, TypeMask::of(0b0_0110));
        }
        if ps[k].predicate == TermView::Var(n) {
            pattern_keeps_types(ps.last(), before, n, TypeMask::of(TypeMask::NAMED_NODE));
        }
        if ps[k].object == TermView::Var(n) {
            pattern_keeps_types(ps.last(), before, n, TypeMask::of(TypeMask::ANY));
        }
    } else {
        pattern_types(ps.last(), before, n);
    }
}

/// Is a name that of a variable in a place of a pattern?
spec fn stands_in(p: PatternView, n: Text) -> bool {
    p.subject == TermView::Var(n) || p.predicate == TermView::Var(n) || p.object == TermView::Var(n)
}

proof fn column_of(cols: Seq<Text>, t: TermView, n: Text)
    ensures
        with_column(cols, t).contains(n) ==> cols.contains(n) || t == TermView::Var(n),
{
    let w = with_column(cols, t);
    if w.contains(n) {
        let i = choose|i: int| 0 <= i < w.len() && w[i] == n;
        if i < cols.len() {
            assert(cols[i] == n);
        }
    }
}

/// A column is that of a variable in a place of a pattern.
proof fn column_has_a_place(ps: Seq<PatternView>, n: Text) -> (k: int)
    requires
        pattern_columns(ps).contains(n),
    ensures
        0 <= k < ps.len(),
        stands_in(ps[k], n),
    decreases ps.len(),
{
    let rest = ps.drop_last();
    let p = ps.last();
    let cols = pattern_columns(rest);
    let a = with_column(cols, p.subject);
    let b = with_column(a, p.predicate);
    column_of(cols, p.subject, n);
    column_of(a, p.predicate, n);
    column_of(b, p.object, n);
    if stands_in(p, n) {
        ps.len() - 1
    } else {
        let k = column_has_a_place(rest, n);
        assert(rest[k] == ps[k]);
        k
    }
}

/// A store that holds RDF binds every variable to terms that its positions
/// allow.
pub proof fn a_store_of_rdf_scans_by_position<N: Numbers>(store: &MemStore<N>)
    requires
        all_within(store.terms(), store.stored()),
        forall|q: QuadView| #[trigger] store.quads().contains(q) ==> is_rdf(q),
    ensures
        scans_by_position(store),
{
    assert forall|patterns: Seq<PatternView>, scope: ScopeView, out: BatchView, n: Text|
        #![trigger store.scans(patterns, scope, out), mask_of(bgp_masks(patterns), n)]
        store.scans(patterns, scope, out) && binds(patterns, out) implies allowed_throughout(
        store.dict(),
        out,
        n,
        mask_of(bgp_masks(patterns), n),
    ) by {
        let mask = mask_of(bgp_masks(patterns), n);
        assert forall|r: int| 0 <= r < out.rows.len() implies row_allowed(
            store.dict(),
            out.schema,
            #[trigger] out.rows[r],
            n,
            mask,
        ) by {
            assert(out.rows.contains(out.rows[r]));
            position_facts(out.schema, n);
            if cell(out.schema, out.rows[r], n) is Some {
                assert(out.schema.contains(n));
                row_of_rdf(store, patterns, scope, out.rows[r], n);
            }
        }
    }
}

proof fn row_of_rdf<N: Numbers>(
    store: &MemStore<N>,
    ps: Seq<PatternView>,
    scope: ScopeView,
    row: Seq<SlotView>,
    n: Text,
)
    requires
        all_within(store.terms(), store.stored()),
        forall|q: QuadView| #[trigger] store.quads().contains(q) ==> is_rdf(q),
        pattern_columns(ps).contains(n),
        is_solution(
            store.terms(),
            triples_in(store.stored(), resolved(scope)),
            ps,
            row,
        ),
    ensures
        row_allowed(store.dict(), pattern_columns(ps), row, n, mask_of(bgp_masks(ps), n)),
{
    let terms = store.terms();
    let stored = store.stored();
    let cols = pattern_columns(ps);
    let triples = triples_in(stored, resolved(scope));
    let k = column_has_a_place(ps, n);
    places_are_typed(ps, k, n);
    position_facts(cols, n);
    assert(found(terms, triples, cols, row, ps[k]));
    let t = choose|t: Ids| #[trigger] triples.contains(t) && makes(terms, cols, row, ps[k], t);
    let i = choose|i: int| 0 <= i < stored.len() && (#[trigger] stored[i]).ids == t;
    let q = quad_at(terms, stored[i]);
    let all = Seq::new(stored.len(), |i: int| quad_at(terms, stored[i]));
    assert(all[i] == q);
    assert(all.contains(q));
    assert(store.quads().contains(q));
    assert(is_rdf(q));
    let x = cell(cols, row, n)->0;
    let v = slot_term(store.dict(), x)->0;
    assert(2u8 & 6u8 != 0 && 4u8 & 6u8 != 0 && 2u8 & 2u8 != 0) by (bit_vector);
    if ps[k].subject == TermView::Var(n) {
        assert(v == q.subject);
        assert(allows(TypeMask::of(0b0_0110), v));
    } else if ps[k].predicate == TermView::Var(n) {
        assert(v == q.predicate);
        assert(allows(TypeMask::of(TypeMask::NAMED_NODE), v));
    } else {
        assert(v == q.object);
        kind_facts(v, TypeMask::of(TypeMask::ANY), TypeMask::of(TypeMask::ANY));
        assert(allows(TypeMask::of(TypeMask::ANY), v));
    }
}

}
