//! What a store answers, told by the quads it holds.

use crate::algebra::{DatasetView, GraphScopeView, GraphSpecView, PatternView, TermView};
use crate::exec::batch::{position, position_facts, solution, solutions, BatchView, SlotView};
use crate::exec::bgp::{
    column_has_a_pattern, columns_are_variables, covered, found, is_solution, makes,
    pattern_columns, pattern_is_known, puts, with_column, within, Ids,
};
use crate::exec::construct::{
    about, are_scans, binds, constructed, described_by, describes, filled_triple, in_scan, in_scans,
    is_resource, lists_resources, plain_text, row_triples, triple_order,
};
use crate::exec::executor::Executor;
use crate::exec::mem::{
    all_within, estimated, fitting, quad_at, ranges_over, triples_in, visible, MemStore, StoredView,
};
use crate::exec::narrow::{cell_is_some, solution_of_cell};
use crate::exec::number::Numbers;
use crate::exec::operator_laws::{apart, apart_rows, sound, Sol};
use crate::exec::scope::{resolved, ScopeView};
use crate::exec::store::{QuadView, Store};
use crate::plan::passes::{bgp_vars, pattern_vars, term_vars};
use crate::text::{text_order, text_order_laws, Order, Text};
use crate::update::laws::{is_kept, kept_graphs_are_reserved};
use crate::DefaultGraphMode;
use vstd::prelude::*;

verus! {

/// Is a store sound: its terms distinct, and its quads made of them?
pub open spec fn is_store<N: Numbers>(store: &MemStore<N>) -> bool {
    store.terms().no_duplicates() && all_within(store.terms(), store.stored())
}

/// Does a part of a pattern stand for a term under a solution?
pub open spec fn is_under(part: TermView, m: Sol, t: TermView) -> bool {
    match part {
        TermView::Var(v) => m.contains_key(v) && m[v] == t,
        _ => part == t,
    }
}

/// Is a variable one of a pattern's parts?
pub open spec fn has_var(p: PatternView, v: Text) -> bool {
    p.subject == TermView::Var(v) || p.predicate == TermView::Var(v) || p.object == TermView::Var(v)
}

/// Does a solution make a pattern a quad, and bind no other variable?
pub open spec fn makes_quad(p: PatternView, m: Sol, q: QuadView) -> bool {
    &&& is_under(p.subject, m, q.subject)
    &&& is_under(p.predicate, m, q.predicate)
    &&& is_under(p.object, m, q.object)
    &&& forall|v: Text| #[trigger] m.contains_key(v) ==> has_var(p, v)
}

/// Is a pattern made of terms and variables alone?
pub open spec fn is_flat_pattern(p: PatternView) -> bool {
    !(p.subject is Triple) && !(p.predicate is Triple) && !(p.object is Triple)
}

proof fn variables_are_columns(s: Seq<Text>, t: TermView)
    requires
        !(t is Triple),
    ensures
        term_vars(t, s) == with_column(s, t),
{
    if let TermView::Var(v) = t {
        position_facts(s, v);
    }
}

proof fn one_pattern_covers(p: PatternView)
    requires
        is_flat_pattern(p),
    ensures
        covered(seq![p]),
{
    let ps = seq![p];
    assert(ps.drop_last() =~= Seq::empty());
    assert(ps.last() == p);
    let none = Seq::<Text>::empty();
    assert(bgp_vars(ps.drop_last()) =~= none);
    assert(pattern_columns(ps.drop_last()) =~= none);
    variables_are_columns(none, p.subject);
    let a = with_column(none, p.subject);
    variables_are_columns(a, p.predicate);
    let b = with_column(a, p.predicate);
    variables_are_columns(b, p.object);
    assert(bgp_vars(ps) == pattern_vars(p, none));
    assert(bgp_vars(ps) == pattern_columns(ps));
    assert forall|i: int| 0 <= i < bgp_vars(ps).len() implies position(
        pattern_columns(ps),
        #[trigger] bgp_vars(ps)[i],
    ) is Some by {
        position_facts(pattern_columns(ps), bgp_vars(ps)[i]);
    }
}

proof fn part_is_under<N: Numbers>(
    store: &MemStore<N>,
    cols: Seq<Text>,
    row: Seq<SlotView>,
    t: TermView,
    id: u64,
)
    requires
        cols.no_duplicates(),
        id < store.terms().len(),
        puts(store.terms(), cols, row, t, id),
    ensures
        is_under(t, solution(store.dict(), cols, row), store.terms()[id as int]),
{
    if let TermView::Var(v) = t {
        solution_of_cell(store.dict(), cols, row, v);
    }
}

/// The row that makes a triple of a pattern.
spec fn row_for(p: PatternView, cols: Seq<Text>, ids: Ids) -> Seq<SlotView> {
    Seq::new(
        cols.len(),
        |c: int|
            SlotView::Id(
                if p.subject == TermView::Var(cols[c]) {
                    ids.0
                } else if p.predicate == TermView::Var(cols[c]) {
                    ids.1
                } else {
                    ids.2
                },
            ),
    )
}

/// The solutions of a pattern are those that make it a quad of the store, in a
/// graph that the scope sees.
pub proof fn a_pattern_matches_the_quads<N: Numbers>(
    store: &MemStore<N>,
    p: PatternView,
    scope: ScopeView,
    out: BatchView,
    m: Sol,
)
    requires
        is_store(store),
        is_flat_pattern(p),
        store.scans(seq![p], scope, out),
    ensures
        solutions(store.dict(), out).contains(m) <==> exists|q: QuadView| #[trigger]
            store.quads().contains(q) && visible(resolved(scope), q.graph) && makes_quad(p, m, q),
{
    let ps = seq![p];
    let (terms, stored, d) = (store.terms(), store.stored(), store.dict());
    let cols = pattern_columns(ps);
    let triples = triples_in(stored, resolved(scope));
    let sols = solutions(d, out);
    let all = Seq::new(stored.len(), |i: int| quad_at(terms, stored[i]));
    columns_are_variables(ps);
    one_pattern_covers(p);
    pattern_is_known(ps, 0);
    if sols.contains(m) {
        let k = choose|k: int| 0 <= k < sols.len() && sols[k] == m;
        let row = out.rows[k];
        assert(out.rows.contains(row));
        assert(found(terms, triples, cols, row, ps[0]));
        let t = choose|t: Ids| #[trigger] triples.contains(t) && makes(terms, cols, row, p, t);
        let i = choose|i: int|
            0 <= i < stored.len() && (#[trigger] stored[i]).ids == t && visible(
                resolved(scope),
                stored[i].graph,
            );
        assert(within(terms, stored[i].ids));
        part_is_under(store, cols, row, p.subject, t.0);
        part_is_under(store, cols, row, p.predicate, t.1);
        part_is_under(store, cols, row, p.object, t.2);
        let q = quad_at(terms, stored[i]);
        assert(all[i] == q);
        assert(all.contains(q));
        assert forall|v: Text| #[trigger] m.contains_key(v) implies has_var(p, v) by {
            solution_of_cell(d, cols, row, v);
            cell_is_some(cols, row, v);
            let j = column_has_a_pattern(ps, v);
        }
        assert(store.quads().contains(q) && makes_quad(p, m, q));
    }
    if exists|q: QuadView| #[trigger]
        store.quads().contains(q) && visible(resolved(scope), q.graph) && makes_quad(p, m, q) {
        let q = choose|q: QuadView| #[trigger]
            store.quads().contains(q) && visible(resolved(scope), q.graph) && makes_quad(p, m, q);
        let i = choose|i: int| 0 <= i < all.len() && all[i] == q;
        let ids = stored[i].ids;
        assert(within(terms, stored[i].ids));
        assert(triples.contains(ids));
        let row = row_for(p, cols, ids);
        assert forall|c: int| 0 <= c < cols.len() implies has_var(p, #[trigger] cols[c]) by {
            assert(cols.contains(cols[c]));
            let j = column_has_a_pattern(ps, cols[c]);
        }
        assert(puts(terms, cols, row, p.subject, ids.0)) by {
            if let TermView::Var(v) = p.subject {
                position_facts(cols, v);
            }
        }
        assert(puts(terms, cols, row, p.predicate, ids.1)) by {
            if let TermView::Var(v) = p.predicate {
                position_facts(cols, v);
                if p.subject == p.predicate {
                    assert(terms[ids.0 as int] == terms[ids.1 as int]);
                }
            }
        }
        assert(puts(terms, cols, row, p.object, ids.2)) by {
            if let TermView::Var(v) = p.object {
                position_facts(cols, v);
                if p.subject == p.object {
                    assert(terms[ids.0 as int] == terms[ids.2 as int]);
                }
                if p.predicate == p.object {
                    assert(terms[ids.1 as int] == terms[ids.2 as int]);
                }
            }
        }
        assert(makes(terms, cols, row, p, ids));
        assert(found(terms, triples, cols, row, p));
        assert(is_solution(terms, triples, ps, row));
        assert(out.rows.contains(row));
        let k = choose|k: int| 0 <= k < out.rows.len() && out.rows[k] == row;
        let x = solution(d, cols, row);
        assert forall|v: Text| #[trigger]
            x.contains_key(v) == m.contains_key(v) && (x.contains_key(v) ==> x[v] == m[v]) by {
            solution_of_cell(d, cols, row, v);
            cell_is_some(cols, row, v);
            position_facts(cols, v);
            if cols.contains(v) {
                let c = position(cols, v)->0;
                assert(has_var(p, cols[c]));
            } else {
                if m.contains_key(v) {
                    assert(has_var(p, v));
                    assert(position(cols, v) is Some);
                }
            }
        }
        assert(x =~= m);
        assert(sols[k] == m);
    }
}

/// What a store answers to patterns is sound, its ids those of different terms.
pub proof fn scans_are_sound<N: Numbers>(
    store: &MemStore<N>,
    ps: Seq<PatternView>,
    scope: ScopeView,
    out: BatchView,
    qs: Seq<PatternView>,
    other: ScopeView,
    more: BatchView,
)
    requires
        is_store(store),
        store.scans(ps, scope, out),
        store.scans(qs, other, more),
    ensures
        sound(out),
        apart(store.dict(), out, more),
{
    let (terms, d) = (store.terms(), store.dict());
    columns_are_variables(ps);
    assert forall|i: int| 0 <= i < out.rows.len() implies (#[trigger] out.rows[i]).len()
        == out.schema.len() by {
        assert(out.rows.contains(out.rows[i]));
    }
    assert forall|i: int, j: int| 0 <= i < out.rows.len() && 0 <= j < more.rows.len() implies apart_rows(
        d,
        #[trigger] out.rows[i],
        #[trigger] more.rows[j],
    ) by {
        let (a, b) = (out.rows[i], more.rows[j]);
        assert(out.rows.contains(a) && more.rows.contains(b));
        assert forall|x: int, y: int|
            0 <= x < a.len() && 0 <= y < b.len() && (#[trigger] a[x]) is Id && (
            #[trigger] b[y]) is Id && d[a[x]->Id_0] == d[b[y]->Id_0] implies a[x] == b[y] by {
            let p = id_of_a_term(store, ps, scope, a, x);
            let q = id_of_a_term(store, qs, other, b, y);
            assert(terms[p as int] == terms[q as int]);
        }
    }
}

proof fn id_of_a_term<N: Numbers>(
    store: &MemStore<N>,
    ps: Seq<PatternView>,
    scope: ScopeView,
    row: Seq<SlotView>,
    c: int,
) -> (id: u64)
    requires
        is_store(store),
        is_solution(store.terms(), triples_in(store.stored(), resolved(scope)), ps, row),
        0 <= c < row.len(),
    ensures
        row[c] == SlotView::Id(id),
        id < store.terms().len(),
{
    let cols = pattern_columns(ps);
    columns_are_variables(ps);
    assert(cols.contains(cols[c]));
    let i = column_has_a_pattern(ps, cols[c]);
    let triples = triples_in(store.stored(), resolved(scope));
    assert(found(store.terms(), triples, cols, row, ps[i]));
    let t = choose|t: Ids| #[trigger]
        triples.contains(t) && makes(store.terms(), cols, row, ps[i], t);
    let k = choose|k: int|
        0 <= k < store.stored().len() && (#[trigger] store.stored()[k]).ids == t && visible(
            resolved(scope),
            store.stored()[k].graph,
        );
    assert(within(store.terms(), store.stored()[k].ids));
    position_facts(cols, cols[c]);
    let v = cols[c];
    if ps[i].subject == TermView::Var(v) {
        t.0
    } else if ps[i].predicate == TermView::Var(v) {
        t.1
    } else {
        t.2
    }
}

/// Which graphs are seen. The default graph is that of the dataset clause, the
/// graphs it lists together; without one it is, by the mode, the store's own
/// or all graphs but those that the database keeps for itself. A named graph is
/// seen by its name, where the dataset clause lists it or there is none.
pub proof fn scopes_see_their_graphs(
    dataset: DatasetView,
    mode: DefaultGraphMode,
    name: Text,
    g: Option<Text>,
)
    ensures
        ({
            let s = resolved(ScopeView { graph: GraphScopeView::DefaultGraph, dataset, mode });
            &&& dataset.default matches Some(list) ==> (visible(s, g) <==> g is Some
                && list.contains(g->0))
            &&& dataset.default is None && mode == DefaultGraphMode::Strict ==> (visible(s, g)
                <==> g is None)
            &&& dataset.default is None && mode == DefaultGraphMode::Union ==> (visible(s, g)
                <==> g is None || !is_kept(g->0))
        }),
        ({
            let s = resolved(
                ScopeView { graph: GraphScopeView::Named(GraphSpecView::Iri(name)), dataset, mode },
            );
            visible(s, g) <==> g == Some(name) && (dataset.named matches Some(list)
                ==> list.contains(name))
        }),
{
    if let Some(iri) = g {
        kept_graphs_are_reserved(iri);
    }
}

/// A graph variable ranges over the graphs that the dataset clause lists; without
/// one over those that hold a quad, but for those that the database keeps for
/// itself.
pub proof fn graph_variables_range(quads: Set<QuadView>, dataset: DatasetView, iri: Text)
    ensures
        dataset.named matches Some(list) ==> (ranges_over(quads, dataset, iri) <==> list.contains(
            iri,
        )),
        dataset.named is None ==> (ranges_over(quads, dataset, iri) <==> !is_kept(iri) && exists|
            q: QuadView,
        | #[trigger] quads.contains(q) && q.graph == Some(iri)),
{
    kept_graphs_are_reserved(iri);
}

// ── Graphs made from solutions ──────────────────────────────────────────────

/// The text of a term that can stand in a triple.
pub open spec fn has_text(t: TermView, s: Text) -> bool {
    t == TermView::Iri(s) || t == TermView::Literal(s) || t == TermView::BlankNode(s)
}

/// Does a part of a template stand for a text under a solution?
pub open spec fn fills(part: TermView, row: Sol, s: Text) -> bool {
    has_text(part, s) || exists|v: Text|
        part == TermView::Var(v) && #[trigger] row.contains_key(v) && has_text(row[v], s)
}

/// Does a template stand for a triple under a solution? Its predicate is an IRI.
pub open spec fn fills_triple(p: PatternView, row: Sol, t: (Text, Text, Text)) -> bool {
    &&& fills(p.subject, row, t.0)
    &&& p.predicate == TermView::Iri(t.1) || exists|v: Text|
        p.predicate == TermView::Var(v) && #[trigger] row.contains_key(v) && row[v]
            == TermView::Iri(t.1)
    &&& fills(p.object, row, t.2)
}

/// A template stands for the triple of what its parts stand for, and for none
/// where a part stands for nothing.
pub proof fn templates_are_filled(p: PatternView, row: Sol, t: (Text, Text, Text))
    ensures
        filled_triple(p, row) == Some(t) <==> fills_triple(p, row, t),
{
}

/// `CONSTRUCT` has the triples that its templates stand for under the solutions.
pub proof fn construction_fills_the_templates(
    ps: Seq<PatternView>,
    rows: Seq<Sol>,
    t: (Text, Text, Text),
)
    ensures
        constructed(ps, rows).contains(t) <==> exists|i: int, j: int|
            0 <= i < rows.len() && 0 <= j < ps.len() && fills_triple(
                #[trigger] ps[j],
                #[trigger] rows[i],
                t,
            ),
    decreases rows.len(),
{
    if rows.len() == 0 {
        assert(!constructed(ps, rows).contains(t));
    } else {
        let rest = rows.drop_last();
        construction_fills_the_templates(ps, rest, t);
        row_fills_the_templates(ps, rows.last(), t);
        let (a, b) = (constructed(ps, rest), row_triples(ps, rows.last()));
        if (a + b).contains(t) {
            let k = choose|k: int| 0 <= k < (a + b).len() && (a + b)[k] == t;
            if k < a.len() {
                assert(a[k] == t);
                let (i, j) = choose|i: int, j: int|
                    0 <= i < rest.len() && 0 <= j < ps.len() && fills_triple(
                        #[trigger] ps[j],
                        #[trigger] rest[i],
                        t,
                    );
                assert(fills_triple(ps[j], rows[i], t));
            } else {
                assert(b[k - a.len()] == t);
                let j = choose|j: int|
                    0 <= j < ps.len() && fills_triple(#[trigger] ps[j], rows.last(), t);
                assert(fills_triple(ps[j], rows[rows.len() - 1], t));
            }
        }
        if exists|i: int, j: int|
            0 <= i < rows.len() && 0 <= j < ps.len() && fills_triple(
                #[trigger] ps[j],
                #[trigger] rows[i],
                t,
            ) {
            let (i, j) = choose|i: int, j: int|
                0 <= i < rows.len() && 0 <= j < ps.len() && fills_triple(
                    #[trigger] ps[j],
                    #[trigger] rows[i],
                    t,
                );
            if i < rest.len() {
                assert(fills_triple(ps[j], rest[i], t));
                let k = choose|k: int| 0 <= k < a.len() && a[k] == t;
                assert((a + b)[k] == t);
            } else {
                assert(fills_triple(ps[j], rows.last(), t));
                let k = choose|k: int| 0 <= k < b.len() && b[k] == t;
                assert((a + b)[a.len() + k] == t);
            }
        }
    }
}

proof fn row_fills_the_templates(ps: Seq<PatternView>, row: Sol, t: (Text, Text, Text))
    ensures
        row_triples(ps, row).contains(t) <==> exists|j: int|
            0 <= j < ps.len() && fills_triple(#[trigger] ps[j], row, t),
    decreases ps.len(),
{
    if ps.len() == 0 {
        assert(!row_triples(ps, row).contains(t));
    } else {
        let rest = ps.drop_last();
        row_fills_the_templates(rest, row, t);
        templates_are_filled(ps.last(), row, t);
        let (a, b) = (row_triples(rest, row), row_triples(ps, row));
        if b.contains(t) {
            let k = choose|k: int| 0 <= k < b.len() && b[k] == t;
            if k < a.len() {
                assert(a[k] == t);
                let j = choose|j: int| 0 <= j < rest.len() && fills_triple(#[trigger] rest[j], row, t);
                assert(fills_triple(ps[j], row, t));
            } else {
                assert(fills_triple(ps[ps.len() - 1], row, t));
            }
        }
        if exists|j: int| 0 <= j < ps.len() && fills_triple(#[trigger] ps[j], row, t) {
            let j = choose|j: int| 0 <= j < ps.len() && fills_triple(#[trigger] ps[j], row, t);
            if j < rest.len() {
                assert(fills_triple(rest[j], row, t));
                let k = choose|k: int| 0 <= k < a.len() && a[k] == t;
                assert(b[k] == t);
            } else {
                assert(b.last() == t);
            }
        }
    }
}

/// A description has the resource for its subject, and what `p` and `o` are bound
/// to behind it.
pub proof fn descriptions_are_about_the_resource(resource: TermView, row: Sol, t: (Text, Text, Text))
    ensures
        described_by(resource, row) == Some(t) <==> has_text(resource, t.0) && row.contains_key(
            "p"@,
        ) && has_text(row["p"@], t.1) && row.contains_key("o"@) && has_text(row["o"@], t.2),
{
}

/// Triples are ordered by their first part that differs.
pub proof fn the_first_part_that_differs_decides(a: (Text, Text, Text), b: (Text, Text, Text))
    ensures
        a.0 != b.0 ==> triple_order(a, b) == text_order(a.0, b.0),
        a.0 == b.0 && a.1 != b.1 ==> triple_order(a, b) == text_order(a.1, b.1),
        a.0 == b.0 && a.1 == b.1 ==> triple_order(a, b) == text_order(a.2, b.2),
{
    text_order_laws(a.0, b.0, b.0);
    text_order_laws(a.1, b.1, b.1);
}

/// Is a term one of the resources: named by the query, or bound by a solution?
pub open spec fn is_asked_for(seeds: Seq<TermView>, rows: Seq<Sol>, t: TermView) -> bool {
    seeds.contains(t) || exists|i: int, v: Text|
        0 <= i < rows.len() && #[trigger] rows[i].contains_key(v) && rows[i][v] == t
}

/// Is a triple a quad of the store about a resource, in a graph that is seen?
pub open spec fn is_about<N: Numbers>(
    store: &MemStore<N>,
    scope: ScopeView,
    r: TermView,
    q: QuadView,
    t: (Text, Text, Text),
) -> bool {
    &&& store.quads().contains(q) && visible(resolved(scope), q.graph)
    &&& q.subject == r && has_text(r, t.0)
    &&& has_text(q.predicate, t.1) && has_text(q.object, t.2)
}

proof fn resources_are_asked_for(seeds: Seq<TermView>, rows: Seq<Sol>, t: TermView)
    ensures
        is_resource(seeds, rows, t) <==> is_asked_for(seeds, rows, t) && exists|s: Text| #[trigger]
            has_text(t, s),
{
    if is_resource(seeds, rows, t) {
        assert(has_text(t, plain_text(t)->0));
        if !seeds.contains(t) {
            let i = choose|i: int| 0 <= i < rows.len() && binds(#[trigger] rows[i], t);
            let v = choose|v: Text| #[trigger] rows[i].contains_key(v) && rows[i][v] == t;
            assert(rows[i].contains_key(v) && rows[i][v] == t);
        }
    }
    if is_asked_for(seeds, rows, t) && exists|s: Text| #[trigger] has_text(t, s) {
        if !seeds.contains(t) {
            let (i, v) = choose|i: int, v: Text|
                0 <= i < rows.len() && #[trigger] rows[i].contains_key(v) && rows[i][v] == t;
            assert(binds(rows[i], t));
        }
    }
}

/// `DESCRIBE` has the quads of the store about each resource, as triples in
/// order, and no others.
pub proof fn a_description_has_the_quads_of_the_resources<N: Numbers>(
    store: &MemStore<N>,
    scope: ScopeView,
    seeds: Seq<TermView>,
    rows: Seq<Sol>,
    out: Seq<(Text, Text, Text)>,
    t: (Text, Text, Text),
)
    requires
        is_store(store),
        describes(store, scope, seeds, rows, out),
    ensures
        out.contains(t) <==> exists|r: TermView, q: QuadView|
            is_asked_for(seeds, rows, r) && #[trigger] is_about(store, scope, r, q, t),
        forall|i: int, j: int|
            0 <= i < j < out.len() ==> triple_order(#[trigger] out[i], #[trigger] out[j])
                == Order::Less,
{
    reveal_strlit("p");
    reveal_strlit("o");
    assert("p"@[0] == 'p' && "o"@[0] == 'o');
    let (p, o) = ("p"@, "o"@);
    let d = store.dict();
    let (resources, scans) = choose|resources: Seq<TermView>, scans: Seq<BatchView>|
        #![trigger are_scans(store, scope, resources, scans)]
        lists_resources(seeds, rows, resources) && are_scans(store, scope, resources, scans) && (
        forall|t: (Text, Text, Text)| #[trigger]
            out.contains(t) <==> in_scans(d, resources, scans, t));
    if out.contains(t) {
        let k = choose|k: int|
            0 <= k < resources.len() && in_scan(d, #[trigger] resources[k], scans[k], t);
        let (r, b) = (resources[k], scans[k]);
        assert(resources.contains(r));
        resources_are_asked_for(seeds, rows, r);
        let i = choose|i: int|
            0 <= i < b.rows.len() && described_by(r, solution(d, b.schema, #[trigger] b.rows[i]))
                == Some(t);
        let m = solution(d, b.schema, b.rows[i]);
        descriptions_are_about_the_resource(r, m, t);
        assert(solutions(d, b)[i] == m);
        assert(solutions(d, b).contains(m));
        assert(scans[k].wf());
        a_pattern_matches_the_quads(store, about(r), scope, b, m);
        let q = choose|q: QuadView| #[trigger]
            store.quads().contains(q) && visible(resolved(scope), q.graph) && makes_quad(
                about(r),
                m,
                q,
            );
        assert(is_about(store, scope, r, q, t));
    }
    if exists|r: TermView, q: QuadView|
        is_asked_for(seeds, rows, r) && #[trigger] is_about(store, scope, r, q, t) {
        let (r, q) = choose|r: TermView, q: QuadView|
            is_asked_for(seeds, rows, r) && #[trigger] is_about(store, scope, r, q, t);
        resources_are_asked_for(seeds, rows, r);
        assert(resources.contains(r));
        let k = choose|k: int| 0 <= k < resources.len() && resources[k] == r;
        let b = scans[k];
        assert(scans[k].wf());
        let m = Sol::empty().insert(p, q.predicate).insert(o, q.object);
        assert(makes_quad(about(r), m, q)) by {
            assert forall|v: Text| #[trigger] m.contains_key(v) implies has_var(about(r), v) by {
                assert(v == p || v == o);
            }
        }
        a_pattern_matches_the_quads(store, about(r), scope, b, m);
        let i = choose|i: int| 0 <= i < solutions(d, b).len() && solutions(d, b)[i] == m;
        descriptions_are_about_the_resource(r, m, t);
        assert(described_by(r, solution(d, b.schema, b.rows[i])) == Some(t));
        assert(in_scan(d, resources[k], scans[k], t));
    }
}

// ── Estimates ───────────────────────────────────────────────────────────────

/// Does a quad of the store have the terms of a pattern?
pub open spec fn has_terms_of(terms: Seq<TermView>, s: StoredView, p: PatternView) -> bool {
    &&& p.subject is Var || quad_at(terms, s).subject == p.subject
    &&& p.predicate is Var || quad_at(terms, s).predicate == p.predicate
    &&& p.object is Var || quad_at(terms, s).object == p.object
}

proof fn fitting_is_filter(terms: Seq<TermView>, stored: Seq<StoredView>, p: PatternView)
    ensures
        fitting(terms, stored, p) == stored.filter(|s: StoredView| has_terms_of(terms, s, p)).len(),
    decreases stored.len(),
{
    reveal(Seq::filter);
    if stored.len() > 0 {
        fitting_is_filter(terms, stored.drop_last(), p);
    }
}

/// The estimate for patterns is the least number of quads that have the terms of
/// one of them.
pub proof fn the_least_pattern_is_the_estimate(
    terms: Seq<TermView>,
    stored: Seq<StoredView>,
    ps: Seq<PatternView>,
    i: int,
)
    requires
        0 <= i < ps.len(),
    ensures
        estimated(terms, stored, ps) <= stored.filter(
            |s: StoredView| has_terms_of(terms, s, ps[i]),
        ).len(),
        exists|k: int|
            0 <= k < ps.len() && estimated(terms, stored, ps) == fitting(
                terms,
                stored,
                #[trigger] ps[k],
            ),
    decreases ps.len(),
{
    fitting_is_filter(terms, stored, ps[i]);
    if ps.len() > 1 {
        let rest = ps.drop_last();
        let j = if i < rest.len() {
            i
        } else {
            0
        };
        the_least_pattern_is_the_estimate(terms, stored, rest, j);
        if i < rest.len() {
            fitting_is_filter(terms, stored, rest[i]);
            assert(rest[i] == ps[i]);
        }
        let k = choose|k: int|
            0 <= k < rest.len() && estimated(terms, stored, rest) == fitting(
                terms,
                stored,
                #[trigger] rest[k],
            );
        if estimated(terms, stored, ps) == estimated(terms, stored, rest) {
            assert(ps[k] == rest[k]);
        } else {
            assert(estimated(terms, stored, ps) == fitting(terms, stored, ps[ps.len() - 1]));
        }
    } else {
        assert(estimated(terms, stored, ps) == fitting(terms, stored, ps[0]));
    }
}

}
