//! What reasoning settings, views and their catalog promise.

use crate::algebra::{texts, TermView};
use crate::exec::scope::RESERVED_GRAPH_PREFIX;
use crate::reasoning::catalog::{
    any_selects, catalog_rows, derived_record, dirty_views, dropped, fresh_state, source_before,
    stale_record, view_rows, ViewCatalog, ViewRecord,
};
use crate::reasoning::derive::{beyond, lexical_term, without, without_is_difference, TripleView};
use crate::reasoning::{
    first_clash, first_overlap, first_reserved, inferred_iri, overlap, verdict, Reasoning,
    ViewOutput, NS, SPINE_CLOSURE_GRAPH, VIEWS_GRAPH,
};
use crate::text::{starts, text_order, Order, Text};
use crate::update::laws::{is_kept, kept_graphs_are_reserved};
use vstd::prelude::*;

verus! {

// ── Settings ────────────────────────────────────────────────────────────────

/// Does a pattern select a graph: does the graph's name begin with it?
pub open spec fn picks(pattern: Text, iri: Text) -> bool {
    exists|rest: Text| iri == #[trigger] (pattern + rest)
}

proof fn starting_is_picking(pattern: Text, iri: Text)
    ensures
        starts(iri, pattern) <==> picks(pattern, iri),
{
    if starts(iri, pattern) {
        assert(iri.subrange(0, pattern.len() as int) == pattern);
        assert(iri =~= pattern + iri.skip(pattern.len() as int));
    }
    if picks(pattern, iri) {
        let rest = choose|rest: Text| iri == #[trigger] (pattern + rest);
        assert(iri.subrange(0, pattern.len() as int) =~= pattern);
    }
}

/// Two patterns overlap where some graph is selected by both.
pub proof fn patterns_overlap_in_a_graph(a: Text, b: Text)
    ensures
        overlap(a, b) <==> exists|iri: Text| picks(a, iri) && #[trigger] picks(b, iri),
        overlap(a, b) == overlap(b, a),
{
    starting_is_picking(a, b);
    starting_is_picking(b, a);
    assert(picks(a, a)) by {
        assert(a =~= a + Seq::<char>::empty());
    }
    assert(picks(b, b)) by {
        assert(b =~= b + Seq::<char>::empty());
    }
    if overlap(a, b) {
        if starts(a, b) {
            assert(picks(a, a) && picks(b, a));
        } else {
            assert(picks(a, b) && picks(b, b));
        }
    }
    if exists|iri: Text| picks(a, iri) && #[trigger] picks(b, iri) {
        let iri = choose|iri: Text| picks(a, iri) && #[trigger] picks(b, iri);
        let x = choose|x: Text| iri == #[trigger] (a + x);
        let y = choose|y: Text| iri == #[trigger] (b + y);
        assert forall|i: int| 0 <= i < a.len() && i < b.len() implies a[i] == b[i] by {
            assert(iri[i] == a[i] && iri[i] == b[i]);
        }
        if a.len() <= b.len() {
            assert(b.subrange(0, a.len() as int) =~= a);
        } else {
            assert(a.subrange(0, b.len() as int) =~= b);
        }
    }
}

/// Does one of the patterns select a graph that the database keeps for itself?
pub open spec fn some_reserved(ps: Seq<Text>) -> bool {
    exists|i: int| 0 <= i < ps.len() && overlap(#[trigger] ps[i], RESERVED_GRAPH_PREFIX@)
}

/// Do patterns of the two lists overlap?
pub open spec fn some_clash(spine: Seq<Text>, select: Seq<Text>) -> bool {
    exists|i: int, j: int|
        0 <= i < spine.len() && 0 <= j < select.len() && overlap(
            #[trigger] spine[i],
            #[trigger] select[j],
        )
}

proof fn reserved_is_found(ps: Seq<Text>)
    ensures
        first_reserved(ps) is Some <==> some_reserved(ps),
    decreases ps.len(),
{
    if ps.len() > 0 {
        let rest = ps.drop_first();
        reserved_is_found(rest);
        if some_reserved(rest) {
            let i = choose|i: int|
                0 <= i < rest.len() && overlap(#[trigger] rest[i], RESERVED_GRAPH_PREFIX@);
            assert(ps[i + 1] == rest[i]);
        }
        if some_reserved(ps) {
            let i = choose|i: int|
                0 <= i < ps.len() && overlap(#[trigger] ps[i], RESERVED_GRAPH_PREFIX@);
            if i > 0 {
                assert(rest[i - 1] == ps[i]);
            }
        }
    }
}

proof fn overlap_is_found(p: Text, others: Seq<Text>)
    ensures
        first_overlap(p, others) is Some <==> exists|j: int|
            0 <= j < others.len() && overlap(p, #[trigger] others[j]),
    decreases others.len(),
{
    if others.len() > 0 {
        let rest = others.drop_first();
        overlap_is_found(p, rest);
        if exists|j: int| 0 <= j < rest.len() && overlap(p, #[trigger] rest[j]) {
            let j = choose|j: int| 0 <= j < rest.len() && overlap(p, #[trigger] rest[j]);
            assert(others[j + 1] == rest[j]);
        }
        if exists|j: int| 0 <= j < others.len() && overlap(p, #[trigger] others[j]) {
            let j = choose|j: int| 0 <= j < others.len() && overlap(p, #[trigger] others[j]);
            if j > 0 {
                assert(rest[j - 1] == others[j]);
            }
        }
    }
}

proof fn clash_is_found(spine: Seq<Text>, select: Seq<Text>)
    ensures
        first_clash(spine, select) is Some <==> some_clash(spine, select),
    decreases spine.len(),
{
    if spine.len() > 0 {
        let rest = spine.drop_first();
        clash_is_found(rest, select);
        overlap_is_found(spine[0], select);
        if first_overlap(spine[0], select) is Some {
            let j = choose|j: int|
                0 <= j < select.len() && overlap(spine[0], #[trigger] select[j]);
            assert(overlap(spine[0], select[j]));
        }
        if some_clash(rest, select) {
            let (i, j) = choose|i: int, j: int|
                0 <= i < rest.len() && 0 <= j < select.len() && overlap(
                    #[trigger] rest[i],
                    #[trigger] select[j],
                );
            assert(spine[i + 1] == rest[i]);
            assert(overlap(spine[i + 1], select[j]));
        }
        if some_clash(spine, select) {
            let (i, j) = choose|i: int, j: int|
                0 <= i < spine.len() && 0 <= j < select.len() && overlap(
                    #[trigger] spine[i],
                    #[trigger] select[j],
                );
            if i > 0 {
                assert(rest[i - 1] == spine[i]);
            } else {
                assert(overlap(spine[0], select[j]));
            }
        }
    }
}

/// Settings are refused where a pattern selects graphs that the database keeps
/// for itself, where one graph would be of the spine and get a view, and where
/// the views are to be virtual. An empty spine is warned of where reasoning is on.
pub proof fn settings_are_judged(cfg: &Reasoning)
    ensures
        ({
            let (spine, select) = (texts(cfg.spine@), cfg.selected());
            let bad = some_reserved(spine) || some_reserved(select) || some_clash(spine, select)
                || cfg.views.output == ViewOutput::Virtual;
            &&& verdict(cfg) is Err <==> bad
            &&& verdict(cfg) matches Ok(warnings) ==> (warnings.len() == (if cfg.enabled
                && spine.len() == 0 {
                1nat
            } else {
                0nat
            }))
        }),
{
    let (spine, select) = (texts(cfg.spine@), cfg.selected());
    reserved_is_found(spine);
    reserved_is_found(select);
    clash_is_found(spine, select);
}

// ── Views ───────────────────────────────────────────────────────────────────

/// A graph gets a view where it is not of the spine, not one that the database
/// keeps for itself, and selected, be it by name or because all are.
pub proof fn graphs_get_views(c: &ViewCatalog, iri: Text)
    ensures
        c.selected(iri) <==> !(exists|i: int|
            0 <= i < c.spine().len() && picks(#[trigger] c.spine()[i], iri)) && !is_kept(iri) && (
        c.select().len() == 0 || exists|i: int|
            0 <= i < c.select().len() && picks(#[trigger] c.select()[i], iri)),
{
    kept_graphs_are_reserved(iri);
    selecting_is_picking(c.spine(), iri);
    selecting_is_picking(c.select(), iri);
}

proof fn selecting_is_picking(ps: Seq<Text>, iri: Text)
    ensures
        any_selects(ps, iri) <==> exists|i: int| 0 <= i < ps.len() && picks(#[trigger] ps[i], iri),
{
    if any_selects(ps, iri) {
        let i = choose|i: int| 0 <= i < ps.len() && starts(iri, #[trigger] ps[i]);
        starting_is_picking(ps[i], iri);
        assert(picks(ps[i], iri));
    }
    if exists|i: int| 0 <= i < ps.len() && picks(#[trigger] ps[i], iri) {
        let i = choose|i: int| 0 <= i < ps.len() && picks(#[trigger] ps[i], iri);
        starting_is_picking(ps[i], iri);
        assert(starts(iri, ps[i]));
    }
}

/// A view is of what its closure has beyond the closure of the spine and its own
/// data.
pub proof fn a_view_is_of_what_is_new(
    closure: Seq<TripleView>,
    spine: Seq<TripleView>,
    asserted: Seq<TripleView>,
    t: TripleView,
)
    ensures
        beyond(closure, spine, asserted).contains(t) <==> closure.contains(t) && !spine.contains(t)
            && !asserted.contains(t),
{
    without_is_difference(closure, spine);
    without_is_difference(without(closure, spine), asserted);
}

/// What was derived is read as terms: a literal in quotes, a blank node behind
/// its mark, and an IRI otherwise.
pub proof fn derived_texts_are_terms(s: Text)
    ensures
        lexical_term(seq!['"'] + s) == TermView::Literal(seq!['"'] + s),
        lexical_term(seq!['_', ':'] + s) == TermView::BlankNode(s),
        s.len() > 0 && s[0] != '"' && s[0] != '_' ==> lexical_term(s) == TermView::Iri(s),
{
    reveal_strlit("\"");
    reveal_strlit("_:");
    let (q, b) = (seq!['"'] + s, seq!['_', ':'] + s);
    assert(q.subrange(0, 1) =~= "\""@);
    assert(b.subrange(0, 2) =~= "_:"@);
    assert(b.subrange(0, 1)[0] == '_');
    assert(b.skip(2) =~= s);
    if s.len() > 0 {
        assert(s.subrange(0, 1)[0] == s[0]);
    }
    if s.len() > 1 {
        assert(s.subrange(0, 2)[0] == s[0]);
    }
}

/// A view is stale until it is derived; then it is of the version of the spine
/// it was derived at. Neither its source nor its graph changes.
pub proof fn views_go_stale_and_are_derived(
    source: Option<Text>,
    e: ViewRecord,
    version: u64,
    consistent: bool,
)
    ensures
        fresh_state(source).dirty && fresh_state(source).inferred_graph == inferred_iri(source),
        stale_record(e).state.dirty,
        stale_record(e).source == e.source && stale_record(e).state.inferred_graph
            == e.state.inferred_graph && stale_record(e).state.derived_at_spine_version
            == e.state.derived_at_spine_version && stale_record(e).state.consistent
            == e.state.consistent,
        ({
            let d = derived_record(e, version, consistent);
            &&& !d.state.dirty && d.state.consistent == consistent
            &&& d.state.derived_at_spine_version == version
            &&& d.source == e.source && d.state.inferred_graph == e.state.inferred_graph
        }),
{
}

/// The views that are not wanted any more are those that are let go, in order.
pub proof fn unwanted_views_are_dropped(
    e: Seq<ViewRecord>,
    wanted: spec_fn(Option<Text>) -> bool,
)
    ensures
        dropped(e, wanted) == e.filter(|v: ViewRecord| !wanted(v.source)).map_values(
            |v: ViewRecord| v.state,
        ),
    decreases e.len(),
{
    reveal(Seq::filter);
    let gone = |v: ViewRecord| !wanted(v.source);
    let state = |v: ViewRecord| v.state;
    if e.len() == 0 {
        assert(dropped(e, wanted) =~= e.filter(gone).map_values(state));
    } else {
        unwanted_views_are_dropped(e.drop_last(), wanted);
        let before = e.drop_last().filter(gone);
        assert(before.push(e.last()).map_values(state) =~= before.map_values(state).push(
            e.last().state,
        ));
    }
}

/// The number of stale views is how many views are stale.
pub proof fn stale_views_are_counted(e: Seq<ViewRecord>)
    ensures
        dirty_views(e) == e.filter(|v: ViewRecord| v.state.dirty).len(),
    decreases e.len(),
{
    reveal(Seq::filter);
    if e.len() > 0 {
        stale_views_are_counted(e.drop_last());
    }
}

/// The default graph comes first among sources, the others in the order of
/// their names.
pub proof fn the_default_graph_comes_first(x: Text, y: Text)
    ensures
        source_before(None, Some(x)),
        !source_before(Some(x), None),
        source_before(Some(x), Some(y)) <==> text_order(x, y) == Order::Less,
{
}

/// The catalog tells of every view what it is, and of the spine its version and
/// the graph of its closure.
pub proof fn the_catalog_tells_of_every_view(
    e: Seq<ViewRecord>,
    version: u64,
    i: int,
    k: int,
)
    requires
        0 <= i < e.len(),
        0 <= k < view_rows(e[i]).len(),
    ensures
        catalog_rows(e, version).contains(view_rows(e[i])[k]),
        catalog_rows(e, version)[0].0 == VIEWS_GRAPH@,
        catalog_rows(e, version)[1] == (VIEWS_GRAPH@, NS@ + "spineClosureGraph"@, SPINE_CLOSURE_GRAPH@),
        forall|j: int|
            0 <= j < view_rows(e[i]).len() ==> (#[trigger] view_rows(e[i])[j]).0
                == e[i].state.inferred_graph,
        e[i].source matches Some(s) ==> view_rows(e[i]).contains(
            (e[i].state.inferred_graph, NS@ + "source"@, s),
        ),
    decreases e.len(),
{
    let all = catalog_rows(e, version);
    let (before, last) = (catalog_rows(e.drop_last(), version), view_rows(e.last()));
    catalog_head(e.drop_last(), version);
    if i < e.len() - 1 {
        the_catalog_tells_of_every_view(e.drop_last(), version, i, k);
        let row = view_rows(e[i])[k];
        let p = choose|p: int| 0 <= p < before.len() && before[p] == row;
        assert(all[p] == row);
    } else {
        assert(all[before.len() + k] == last[k]);
    }
    if let Some(s) = e[i].source {
        assert(view_rows(e[i])[2] == (e[i].state.inferred_graph, NS@ + "source"@, s));
    }
}

proof fn catalog_head(e: Seq<ViewRecord>, version: u64)
    ensures
        catalog_rows(e, version).len() >= 2,
        catalog_rows(e, version)[0].0 == VIEWS_GRAPH@,
        catalog_rows(e, version)[1] == (VIEWS_GRAPH@, NS@ + "spineClosureGraph"@, SPINE_CLOSURE_GRAPH@),
    decreases e.len(),
{
    if e.len() > 0 {
        catalog_head(e.drop_last(), version);
    }
}

}
