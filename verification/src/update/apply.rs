//! Applying a request to a store.
//!
//! A request is done whole or not at all. Most bad requests are refused before
//! anything is written. An operation that fails later, because an earlier one
//! of the request changed the store, makes the request undo what it did.

use crate::algebra::{DatasetSpec, DatasetView, TermView};
use crate::collections::to_set_push;
use crate::error::{ErrorView, SparqlError};
use crate::exec::bindings::{bindings_view, Bindings};
use crate::exec::executor::Executor;
use crate::exec::runtime::{answers_of, closed_plan, QueryView, Runtime};
use crate::exec::scope::{is_reserved_graph, reserved};
use crate::exec::store::{
    clone_quad, graph_part, graph_view, holds_graph, quad_set, quad_view, quads_view, AlgebraQuad,
    FullBackend, GraphName, QuadView, Store,
};
use crate::feed::{
    advance_slot, advanced, check_feed_id, moved, reads_as, FeedPosition, SlotRecord,
};
use crate::plan::planner::{plan, plan_view};
use crate::plan::pushdown::rewritten;
use crate::text::Text;
use crate::update::journal::Journal;
use crate::update::load::{dataset_format, is_dataset_format};
use crate::update::request::{
    clear_error, data_error, load_error, op_error, ops_error, ops_view, request_error,
    reserved_error, validate_clear_drop, validate_create, validate_delete_insert, validate_load,
    validate_update, Document, DocumentView, GraphTarget, OpView, TargetView, UpdateOp,
    UpdateRequest, WherePattern,
};
use crate::update::template::{
    delete_quad, deleted, filled_graph, insert_quad, inserted, refused, reserved_write,
    templates_view, writable, QuadTemplate, QuadTemplateView,
};
use crate::{DefaultGraphMode, SparqlConfig};
use vstd::prelude::*;

verus! {

// ── What an operation does ──────────────────────────────────────────────────

/// Is a graph among those a `CLEAR` or `DROP` is about? `NAMED` and `ALL`
/// leave the reserved graphs alone.
pub open spec fn covers(target: TargetView, g: Option<Text>) -> bool {
    match target {
        TargetView::DefaultGraph => g is None,
        TargetView::NamedNode(iri) => g == Some(iri),
        TargetView::NamedGraphs => g matches Some(iri) && !reserved(iri),
        TargetView::AllGraphs => writable(g),
    }
}

/// The quads a `CLEAR` or `DROP` takes out.
pub open spec fn covered(quads: Set<QuadView>, target: TargetView) -> Set<QuadView> {
    quads.filter(|q: QuadView| covers(target, q.graph))
}

/// The quads a delete template and the solutions stand for.
pub open spec fn removals(delete: Seq<QuadTemplateView>, rows: Seq<Map<Text, TermView>>) -> Set<
    QuadView,
> {
    Set::new(
        |q: QuadView|
            exists|i: int, j: int|
                0 <= i < rows.len() && 0 <= j < delete.len() && #[trigger] deleted(
                    delete[j],
                    rows[i],
                ) == Some(q),
    )
}

/// The quads an insert template and the solutions stand for.
pub open spec fn additions(insert: Seq<QuadTemplateView>, rows: Seq<Map<Text, TermView>>) -> Set<
    QuadView,
> {
    Set::new(
        |q: QuadView|
            exists|i: int, j: int|
                0 <= i < rows.len() && 0 <= j < insert.len() && #[trigger] inserted(
                    insert[j],
                    rows[i],
                    i as nat,
                ) == Some(q),
    )
}

/// Does a template name a reserved graph in some solution, with this error?
pub open spec fn refuses(
    ts: Seq<QuadTemplateView>,
    rows: Seq<Map<Text, TermView>>,
    e: ErrorView,
) -> bool {
    exists|i: int, j: int|
        0 <= i < rows.len() && 0 <= j < ts.len() && #[trigger] refused(ts[j], rows[i]) && e
            == reserved_write(filled_graph(ts[j].graph, rows[i])->Refused_0)
}

/// The quads of a document, in the destination where there is one.
pub open spec fn routed(quads: Seq<QuadView>, destination: Option<Text>) -> Seq<QuadView> {
    match destination {
        None => quads,
        Some(g) => Seq::new(
            quads.len(),
            |i: int|
                QuadView {
                    graph: Some(g),
                    subject: quads[i].subject,
                    predicate: quads[i].predicate,
                    object: quads[i].object,
                },
        ),
    }
}

/// How the pattern of an update is read: against the dataset of its `USING`,
/// and without one against the store's own default graph.
pub open spec fn where_query(using: DatasetView) -> QueryView {
    QueryView { dataset: using, mode: DefaultGraphMode::Strict }
}

/// What an operation makes of the quads of a store when it succeeds. Quads are
/// taken out before others are put in, and both are known before either.
pub open spec fn op_effect<B: FullBackend>(op: OpView, before: &B, after: Set<QuadView>) -> bool {
    let quads = before.quads();
    match op {
        OpView::InsertData { data } => after == quads.union(data.to_set()),
        OpView::DeleteData { data } => after == quads.difference(data.to_set()),
        OpView::DeleteInsert { delete, insert, using, pattern } => pattern is Algebra && exists|
            rows: Seq<Map<Text, TermView>>,
        | #[trigger]
            answers_of(before, where_query(using), plan_view(pattern->Algebra_0, true), rows)
                && after == quads.difference(removals(delete, rows)).union(additions(insert, rows)),
        OpView::Load { source, destination, document, .. } => match document {
            DocumentView::Quads(data) => if destination is Some && dataset_format(source) {
                after == quads
            } else {
                after == quads.union(routed(data, destination).to_set())
            },
            DocumentView::Failed(_) => after == quads,
        },
        OpView::Clear { graph, .. } => after == quads.difference(covered(quads, graph)),
        OpView::Drop { graph, .. } => after == quads.difference(covered(quads, graph)),
        OpView::Create { .. } => after == quads,
    }
}

/// Why an operation may fail with an error: it is refused, the store fails, or
/// a solution names a reserved graph.
pub open spec fn op_fails<B: FullBackend>(
    op: OpView,
    store: &B,
    cfg: SparqlConfig,
    e: ErrorView,
) -> bool {
    ||| op_error(op, store.quads(), cfg) == Some(e)
    ||| !store.steady()
    ||| op matches OpView::DeleteInsert { delete, insert, using, pattern } && pattern is Algebra && {
        let p = plan_view(pattern->Algebra_0, true);
        ||| !(store.reliable() && closed_plan(rewritten(p), Set::empty()))
        ||| exists|rows: Seq<Map<Text, TermView>>| #[trigger]
            answers_of(store, where_query(using), p, rows) && (refuses(delete, rows, e) || refuses(
                insert,
                rows,
                e,
            ))
    }
}

/// Are the two sets alike on the graphs that are closed to writes?
pub open spec fn alike_on_reserved(a: Set<QuadView>, b: Set<QuadView>) -> bool {
    forall|q: QuadView| !writable(q.graph) ==> #[trigger] a.contains(q) == b.contains(q)
}

/// Does the log hold, beside what it held, only quads that may be written?
pub open spec fn notes_writable(before: &Journal, after: &Journal) -> bool {
    forall|q: QuadView| #[trigger] after.notes(q) ==> before.notes(q) || writable(q.graph)
}

/// Is the log as good after an operation as before it?
pub open spec fn still_tracks(
    before: &Journal,
    was: Set<QuadView>,
    after: &Journal,
    is: Set<QuadView>,
) -> bool {
    &&& after.keeps() == before.keeps()
    &&& forall|start: Set<QuadView>| #[trigger]
        before.tracks(start, was) ==> after.tracks(start, is)
    &&& forall|q: QuadView| #[trigger] before.notes(q) ==> after.notes(q)
    &&& notes_writable(before, after)
    &&& !before.keeps() ==> *after == *before
}

proof fn tracking_continues(j: &Journal, was: Set<QuadView>, is: Set<QuadView>)
    requires
        j.keeps() ==> forall|q: QuadView| #[trigger]
            was.contains(q) != is.contains(q) ==> j.notes(q),
    ensures
        forall|start: Set<QuadView>| #[trigger] j.tracks(start, was) ==> j.tracks(start, is),
{
    assert forall|start: Set<QuadView>| #[trigger] j.tracks(start, was) implies j.tracks(
        start,
        is,
    ) by {
        if j.keeps() {
            assert forall|q: QuadView| #[trigger]
                start.contains(q) != is.contains(q) implies j.notes(q) by {
                if was.contains(q) != is.contains(q) {
                    assert(j.notes(q));
                } else {
                    assert(start.contains(q) != was.contains(q));
                }
            }
        }
    }
}

proof fn no_reserved_data(data: Seq<QuadView>)
    ensures
        reserved_error(data) is None ==> forall|i: int|
            0 <= i < data.len() ==> writable((#[trigger] data[i]).graph),
        data_error(data) is None ==> forall|i: int|
            0 <= i < data.len() ==> writable((#[trigger] data[i]).graph),
    decreases data.len(),
{
    if data.len() > 0 {
        no_reserved_data(data.drop_first());
        let rest = data.drop_first();
        assert forall|i: int|
            0 <= i < data.len() && (reserved_error(data) is None || data_error(data) is None) implies writable(
            (#[trigger] data[i]).graph) by {
            if i > 0 {
                assert(data[i] == rest[i - 1]);
            }
        }
    }
}

proof fn set_is_writable(data: Seq<QuadView>)
    requires
        forall|i: int| 0 <= i < data.len() ==> writable((#[trigger] data[i]).graph),
    ensures
        forall|q: QuadView| #[trigger] data.to_set().contains(q) ==> writable(q.graph),
{
    assert forall|q: QuadView| #[trigger] data.to_set().contains(q) implies writable(q.graph) by {
        let i = choose|i: int| 0 <= i < data.len() && data[i] == q;
        assert(writable(data[i].graph));
    }
}

// ── Batches ─────────────────────────────────────────────────────────────────

fn clone_quads(s: &Vec<AlgebraQuad>) -> (r: Vec<AlgebraQuad>)
    ensures
        quads_view(r@) == quads_view(s@),
{
    let mut out: Vec<AlgebraQuad> = Vec::new();
    let mut i: usize = 0;
    while i < s.len()
        invariant
            i <= s@.len(),
            out@.len() == i,
            forall|j: int| 0 <= j < i ==> quad_view(#[trigger] out@[j]) == quad_view(s@[j]),
        decreases s@.len() - i,
    {
        out.push(clone_quad(&s[i]));
        i = i + 1;
    }
    assert(quads_view(out@) =~= quads_view(s@));
    out
}

/// Writes a batch, after noting what it touches.
fn write_batch<B: Store>(
    store: &mut B,
    dels: Vec<AlgebraQuad>,
    adds: Vec<AlgebraQuad>,
    journal: &mut Journal,
) -> (r: Result<(), SparqlError>)
    requires
        forall|q: QuadView| #[trigger] quad_set(dels@).contains(q) ==> writable(q.graph),
        forall|q: QuadView| #[trigger] quad_set(adds@).contains(q) ==> writable(q.graph),
    ensures
        r is Ok ==> final(store).quads() == old(store).quads().difference(quad_set(dels@)).union(
            quad_set(adds@),
        ),
        r is Err ==> final(store).quads() == old(store).quads() && !old(store).steady(),
        final(store).steady() == old(store).steady(),
        final(store).lasting() == old(store).lasting(),
        still_tracks(old(journal), old(store).quads(), final(journal), final(store).quads()),
        alike_on_reserved(old(store).quads(), final(store).quads()),
{
    let ghost was = store.quads();
    journal.record(store, &dels);
    journal.record(store, &adds);
    let ghost dset = quad_set(dels@);
    let ghost aset = quad_set(adds@);
    let r = store.apply_quads(dels, adds);
    proof {
        let is = store.quads();
        tracking_continues(journal, was, is);
        assert forall|q: QuadView| !writable(q.graph) implies #[trigger] was.contains(q)
            == is.contains(q) by {
            assert(!dset.contains(q));
            assert(!aset.contains(q));
        }
    }
    r
}

/// Clears a graph that may be written, after noting its quads.
fn clear_one<B: Store>(store: &mut B, graph: &GraphName, journal: &mut Journal) -> (r: Result<
    (),
    SparqlError,
>)
    requires
        writable(graph_view(*graph)),
    ensures
        r is Ok ==> final(store).quads() == old(store).quads().difference(
            graph_part(old(store).quads(), graph_view(*graph)),
        ),
        r is Err ==> final(store).quads() == old(store).quads() && !old(store).steady(),
        final(store).steady() == old(store).steady(),
        final(store).lasting() == old(store).lasting(),
        still_tracks(old(journal), old(store).quads(), final(journal), final(store).quads()),
        alike_on_reserved(old(store).quads(), final(store).quads()),
{
    let ghost was = store.quads();
    match journal.record_cleared(store, graph) {
        Ok(_) => {},
        Err(e) => return Err(e),
    }
    let r = store.clear_graph(graph);
    proof {
        let is = store.quads();
        let part = graph_part(was, graph_view(*graph));
        assert forall|q: QuadView| #[trigger] was.contains(q) != is.contains(q) implies part.contains(
            q,
        ) by {}
        tracking_continues(journal, was, is);
    }
    r
}

// ── CLEAR, DROP, CREATE ─────────────────────────────────────────────────────

/// Clears every named graph but the reserved ones.
fn clear_named_graphs<B: Store>(store: &mut B, journal: &mut Journal) -> (r: Result<
    (),
    SparqlError,
>)
    ensures
        r is Ok ==> final(store).quads() == old(store).quads().difference(
            covered(old(store).quads(), TargetView::NamedGraphs),
        ),
        r is Err ==> !old(store).steady(),
        final(store).steady() == old(store).steady(),
        final(store).lasting() == old(store).lasting(),
        still_tracks(old(journal), old(store).quads(), final(journal), final(store).quads()),
        alike_on_reserved(old(store).quads(), final(store).quads()),
{
    let graphs = store.graphs();
    let ghost start = store.quads();
    let ghost named = graphs@;
    let mut i: usize = 0;
    while i < graphs.len()
        invariant
            i <= graphs@.len(),
            named == graphs@,
            start == old(store).quads(),
            forall|iri: Text| #[trigger]
                holds_graph(start, iri) <==> exists|k: int|
                    0 <= k < named.len() && (#[trigger] named[k])@ == iri,
            forall|q: QuadView| #[trigger]
                store.quads().contains(q) <==> start.contains(q) && !(exists|k: int|
                    0 <= k < i && !reserved((#[trigger] named[k])@) && q.graph == Some(
                        named[k]@,
                    )),
            store.steady() == old(store).steady(),
            store.lasting() == old(store).lasting(),
            still_tracks(old(journal), start, journal, store.quads()),
            alike_on_reserved(start, store.quads()),
        decreases graphs@.len() - i,
    {
        if !is_reserved_graph(graphs[i].as_str()) {
            let ghost was = store.quads();
            let ghost jwas = *journal;
            let g: GraphName = Some(graphs[i].clone());
            let ghost iri = graphs@[i as int]@;
            match clear_one(store, &g, journal) {
                Ok(_) => {},
                Err(e) => return Err(e),
            }
            proof {
                assert forall|q: QuadView| #[trigger]
                    store.quads().contains(q) <==> start.contains(q) && !(exists|k: int|
                    0 <= k < i + 1 && !reserved((#[trigger] named[k])@) && q.graph == Some(
                        named[k]@,
                    )) by {
                    assert(store.quads().contains(q) <==> was.contains(q) && q.graph != Some(iri));
                    if q.graph == Some(iri) {
                        assert(named[i as int]@ == iri);
                    }
                }
            }
        } else {
            proof {
                assert forall|q: QuadView| #[trigger]
                    store.quads().contains(q) <==> start.contains(q) && !(exists|k: int|
                    0 <= k < i + 1 && !reserved((#[trigger] named[k])@) && q.graph == Some(
                        named[k]@,
                    )) by {}
            }
        }
        i = i + 1;
    }
    proof {
        let rest = start.difference(covered(start, TargetView::NamedGraphs));
        assert forall|q: QuadView| store.quads().contains(q) <==> rest.contains(q) by {
            if start.contains(q) && q.graph is Some && !reserved(q.graph->0) {
                assert(holds_graph(start, q.graph->0));
                let k = choose|k: int|
                    0 <= k < named.len() && (#[trigger] named[k])@ == q.graph->0;
                assert(!reserved(named[k]@) && q.graph == Some(named[k]@));
            }
        }
        assert(store.quads() =~= rest);
    }
    Ok(())
}

/// Does a target stand for any number of graphs?
pub open spec fn spans(target: TargetView) -> bool {
    target is AllGraphs || target is NamedGraphs
}

/// Does an operation take more than one batch?
pub open spec fn takes_steps(op: OpView) -> bool {
    match op {
        OpView::Clear { graph, .. } => spans(graph),
        OpView::Drop { graph, .. } => spans(graph),
        _ => false,
    }
}

fn is_stepwise(op: &UpdateOp) -> (r: bool)
    ensures
        r == takes_steps(op@),
{
    match op {
        UpdateOp::Clear { graph, .. } | UpdateOp::Drop { graph, .. } => match graph {
            GraphTarget::AllGraphs | GraphTarget::NamedGraphs => true,
            _ => false,
        },
        _ => false,
    }
}

/// Applies a `CLEAR` or `DROP`. The two do the same: a graph is its quads.
fn apply_clear_drop<B: Store>(
    store: &mut B,
    verb: &str,
    silent: bool,
    graph: &GraphTarget,
    journal: &mut Journal,
) -> (r: Result<(), SparqlError>)
    ensures
        r is Ok ==> final(store).quads() == old(store).quads().difference(
            covered(old(store).quads(), graph@),
        ),
        r matches Err(e) ==> clear_error(
            verb@,
            silent,
            graph@,
            old(store).quads(),
        ) == Some(e@) || !old(store).steady(),
        r is Err && (old(store).steady() || !spans(graph@)) ==> final(store).quads() == old(
            store,
        ).quads(),
        final(store).steady() == old(store).steady(),
        final(store).lasting() == old(store).lasting(),
        still_tracks(old(journal), old(store).quads(), final(journal), final(store).quads()),
        alike_on_reserved(old(store).quads(), final(store).quads()),
{
    match validate_clear_drop(verb, silent, graph, store) {
        Ok(_) => {},
        Err(e) => return Err(e),
    }
    let ghost start = store.quads();
    let ghost gone = covered(start, graph@);
    match graph {
        GraphTarget::DefaultGraph => {
            let r = clear_one(store, &None, journal);
            assert(gone =~= graph_part(start, None));
            r
        },
        GraphTarget::AllGraphs => {
            match clear_one(store, &None, journal) {
                Ok(_) => {},
                Err(e) => return Err(e),
            }
            let ghost mid = store.quads();
            let r = clear_named_graphs(store, journal);
            proof {
                assert(mid.difference(covered(mid, TargetView::NamedGraphs)) =~= start.difference(
                    gone,
                ));
            }
            r
        },
        GraphTarget::NamedGraphs => clear_named_graphs(store, journal),
        GraphTarget::NamedNode(iri) => {
            if store.graph_exists(iri.as_str()) {
                let g: GraphName = Some(iri.clone());
                let r = clear_one(store, &g, journal);
                assert(gone =~= graph_part(start, Some(iri@)));
                r
            } else {
                proof {
                    assert forall|q: QuadView| !gone.contains(q) by {
                        if gone.contains(q) {
                            assert(holds_graph(start, iri@));
                        }
                    }
                    assert(start.difference(gone) =~= start);
                }
                Ok(())
            }
        },
    }
}

// ── LOAD ────────────────────────────────────────────────────────────────────

fn route(quads: &Vec<AlgebraQuad>, destination: &GraphName) -> (r: Vec<AlgebraQuad>)
    ensures
        quads_view(r@) == routed(quads_view(quads@), graph_view(*destination)),
{
    match destination {
        None => clone_quads(quads),
        Some(g) => {
            let mut out: Vec<AlgebraQuad> = Vec::new();
            let mut i: usize = 0;
            let ghost all = routed(quads_view(quads@), Some(g@));
            while i < quads.len()
                invariant
                    i <= quads@.len(),
                    out@.len() == i,
                    all == routed(quads_view(quads@), Some(g@)),
                    forall|j: int| 0 <= j < i ==> quad_view(#[trigger] out@[j]) == all[j],
                decreases quads@.len() - i,
            {
                assert(quads_view(quads@)[i as int] == quad_view(quads@[i as int]));
                out.push(
                    (Some(g.clone()), quads[i].1.clone(), quads[i].2.clone(), quads[i].3.clone()),
                );
                i = i + 1;
            }
            assert(quads_view(out@) =~= all);
            out
        },
    }
}

/// Applies a `LOAD`: the triples of the document go to the destination, and
/// the quads of a quad format to the graphs they name. A `SILENT` load that
/// fails does nothing.
fn apply_load<B: Store>(
    store: &mut B,
    silent: bool,
    source: &str,
    destination: &GraphName,
    document: &Document,
    journal: &mut Journal,
) -> (r: Result<(), SparqlError>)
    ensures
        r is Ok ==> match document@ {
            DocumentView::Quads(data) => if graph_view(*destination) is Some && dataset_format(
                source@,
            ) {
                final(store).quads() == old(store).quads()
            } else {
                final(store).quads() == old(store).quads().union(
                    routed(data, graph_view(*destination)).to_set(),
                )
            },
            DocumentView::Failed(_) => final(store).quads() == old(store).quads(),
        },
        r matches Err(e) ==> final(store).quads() == old(store).quads() && (
        load_error(silent, source@, graph_view(*destination), document@)
            == Some(e@) || !old(store).steady()),
        final(store).steady() == old(store).steady(),
        final(store).lasting() == old(store).lasting(),
        still_tracks(old(journal), old(store).quads(), final(journal), final(store).quads()),
        alike_on_reserved(old(store).quads(), final(store).quads()),
{
    match validate_load(silent, source, destination, document) {
        Ok(_) => {},
        Err(e) => return Err(e),
    }
    if destination.is_some() && is_dataset_format(source) {
        return Ok(());
    }
    match document {
        Document::Failed(_) => Ok(()),
        Document::Quads(quads) => {
            let adds = route(quads, destination);
            let ghost data = quads_view(quads@);
            let ghost dest = graph_view(*destination);
            let none: Vec<AlgebraQuad> = Vec::new();
            proof {
                no_reserved_data(data);
                let all = routed(data, dest);
                assert forall|i: int| 0 <= i < all.len() implies writable(
                    (#[trigger] all[i]).graph,
                ) by {}
                set_is_writable(all);
                assert(quad_set(none@) =~= Set::empty());
            }
            let ghost was = store.quads();
            let r = write_batch(store, none, adds, journal);
            assert(was.difference(Set::empty()).union(routed(data, dest).to_set()) =~= was.union(
                routed(data, dest).to_set(),
            ));
            r
        },
    }
}

// ── Pattern updates ─────────────────────────────────────────────────────────

/// Is a pair of a solution and a template among the first ones?
pub open spec fn among_first(i: int, j: int, a: int, b: int) -> bool {
    a < i || (a == i && b < j)
}

fn collect_deletions(delete: &Vec<QuadTemplate>, rows: &Vec<Bindings>) -> (r: Result<
    Vec<AlgebraQuad>,
    SparqlError,
>)
    ensures
        match r {
            Ok(d) => quad_set(d@) == removals(templates_view(delete@), bindings_view(rows@)),
            Err(e) => refuses(templates_view(delete@), bindings_view(rows@), e@),
        },
{
    let ghost tv = templates_view(delete@);
    let ghost rv = bindings_view(rows@);
    let mut out: Vec<AlgebraQuad> = Vec::new();
    assert(quad_set(out@) =~= Set::empty());
    let mut i: usize = 0;
    while i < rows.len()
        invariant
            i <= rows@.len(),
            tv == templates_view(delete@),
            rv == bindings_view(rows@),
            forall|q: QuadView| #[trigger]
                quad_set(out@).contains(q) ==> exists|a: int, b: int|
                    0 <= a < i && 0 <= b < tv.len() && #[trigger] deleted(tv[b], rv[a]) == Some(q),
            forall|a: int, b: int|
                0 <= a < i && 0 <= b < tv.len() ==> (#[trigger] deleted(tv[b], rv[a]) matches Some(
                    q,
                ) ==> quad_set(out@).contains(q)),
        decreases rows@.len() - i,
    {
        let mut j: usize = 0;
        while j < delete.len()
            invariant
                i < rows@.len(),
                j <= delete@.len(),
                tv == templates_view(delete@),
                rv == bindings_view(rows@),
                forall|q: QuadView| #[trigger]
                    quad_set(out@).contains(q) ==> exists|a: int, b: int|
                        0 <= a < rv.len() && 0 <= b < tv.len() && among_first(i as int, j as int, a, b)
                            && #[trigger] deleted(tv[b], rv[a]) == Some(q),
                forall|a: int, b: int|
                    0 <= a < rv.len() && 0 <= b < tv.len() && among_first(i as int, j as int, a, b)
                        ==> (#[trigger] deleted(tv[b], rv[a]) matches Some(q) ==> quad_set(
                        out@,
                    ).contains(q)),
            decreases delete@.len() - j,
        {
            proof {
                assert(tv[j as int] == delete@[j as int]@);
                assert(rv[i as int] == rows@[i as int]@);
            }
            match delete_quad(&delete[j], &rows[i]) {
                Err(e) => {
                    assert(refused(tv[j as int], rv[i as int]));
                    return Err(e);
                },
                Ok(None) => {
                    assert(deleted(tv[j as int], rv[i as int]) is None);
                },
                Ok(Some(q)) => {
                    let ghost qv = quad_view(q);
                    let ghost before = out@;
                    out.push(q);
                    proof {
                        assert(deleted(tv[j as int], rv[i as int]) == Some(qv));
                        assert(quads_view(out@) =~= quads_view(before).push(qv));
                        to_set_push(quads_view(before), qv);
                        assert forall|q: QuadView| #[trigger]
                            quad_set(out@).contains(q) implies exists|a: int, b: int|
                            0 <= a < rv.len() && 0 <= b < tv.len() && among_first(
                                i as int,
                                j + 1,
                                a,
                                b,
                            ) && #[trigger] deleted(tv[b], rv[a]) == Some(q) by {
                            if q != qv {
                                assert(quad_set(before).contains(q));
                                let (a, b) = choose|a: int, b: int|
                                    0 <= a < rv.len() && 0 <= b < tv.len() && among_first(
                                        i as int,
                                        j as int,
                                        a,
                                        b,
                                    ) && #[trigger] deleted(tv[b], rv[a]) == Some(q);
                                assert(among_first(i as int, j + 1, a, b));
                            } else {
                                let a = i as int;
                                assert(among_first(a, j + 1, a, j as int));
                                assert(deleted(tv[j as int], rv[a]) == Some(q));
                            }
                        }
                    }
                },
            }
            j = j + 1;
        }
        i = i + 1;
    }
    assert(quad_set(out@) =~= removals(tv, rv));
    Ok(out)
}

fn collect_insertions(insert: &Vec<QuadTemplate>, rows: &Vec<Bindings>) -> (r: Result<
    Vec<AlgebraQuad>,
    SparqlError,
>)
    ensures
        match r {
            Ok(d) => quad_set(d@) == additions(templates_view(insert@), bindings_view(rows@)),
            Err(e) => refuses(templates_view(insert@), bindings_view(rows@), e@),
        },
{
    let ghost tv = templates_view(insert@);
    let ghost rv = bindings_view(rows@);
    let mut out: Vec<AlgebraQuad> = Vec::new();
    assert(quad_set(out@) =~= Set::empty());
    let mut i: usize = 0;
    while i < rows.len()
        invariant
            i <= rows@.len(),
            tv == templates_view(insert@),
            rv == bindings_view(rows@),
            forall|q: QuadView| #[trigger]
                quad_set(out@).contains(q) ==> exists|a: int, b: int|
                    0 <= a < i && 0 <= b < tv.len() && #[trigger] inserted(tv[b], rv[a], a as nat)
                        == Some(q),
            forall|a: int, b: int|
                0 <= a < i && 0 <= b < tv.len() ==> (#[trigger] inserted(
                    tv[b],
                    rv[a],
                    a as nat,
                ) matches Some(q) ==> quad_set(out@).contains(q)),
        decreases rows@.len() - i,
    {
        let mut j: usize = 0;
        while j < insert.len()
            invariant
                i < rows@.len(),
                j <= insert@.len(),
                tv == templates_view(insert@),
                rv == bindings_view(rows@),
                forall|q: QuadView| #[trigger]
                    quad_set(out@).contains(q) ==> exists|a: int, b: int|
                        0 <= a < rv.len() && 0 <= b < tv.len() && among_first(i as int, j as int, a, b)
                            && #[trigger] inserted(tv[b], rv[a], a as nat) == Some(q),
                forall|a: int, b: int|
                    0 <= a < rv.len() && 0 <= b < tv.len() && among_first(i as int, j as int, a, b)
                        ==> (#[trigger] inserted(tv[b], rv[a], a as nat) matches Some(q)
                        ==> quad_set(out@).contains(q)),
            decreases insert@.len() - j,
        {
            proof {
                assert(tv[j as int] == insert@[j as int]@);
                assert(rv[i as int] == rows@[i as int]@);
            }
            match insert_quad(&insert[j], &rows[i], i) {
                Err(e) => {
                    assert(refused(tv[j as int], rv[i as int]));
                    return Err(e);
                },
                Ok(None) => {
                    assert(inserted(tv[j as int], rv[i as int], i as nat) is None);
                },
                Ok(Some(q)) => {
                    let ghost qv = quad_view(q);
                    let ghost before = out@;
                    out.push(q);
                    proof {
                        assert(inserted(tv[j as int], rv[i as int], i as nat) == Some(qv));
                        assert(quads_view(out@) =~= quads_view(before).push(qv));
                        to_set_push(quads_view(before), qv);
                        assert forall|q: QuadView| #[trigger]
                            quad_set(out@).contains(q) implies exists|a: int, b: int|
                            0 <= a < rv.len() && 0 <= b < tv.len() && among_first(
                                i as int,
                                j + 1,
                                a,
                                b,
                            ) && #[trigger] inserted(tv[b], rv[a], a as nat) == Some(q) by {
                            if q != qv {
                                assert(quad_set(before).contains(q));
                                let (a, b) = choose|a: int, b: int|
                                    0 <= a < rv.len() && 0 <= b < tv.len() && among_first(
                                        i as int,
                                        j as int,
                                        a,
                                        b,
                                    ) && #[trigger] inserted(tv[b], rv[a], a as nat) == Some(q);
                                assert(among_first(i as int, j + 1, a, b));
                            } else {
                                let a = i as int;
                                assert(among_first(a, j + 1, a, j as int));
                                assert(inserted(tv[j as int], rv[a], a as nat) == Some(q));
                            }
                        }
                    }
                },
            }
            j = j + 1;
        }
        i = i + 1;
    }
    assert(quad_set(out@) =~= additions(tv, rv));
    Ok(out)
}

/// Applies a pattern update: finds the solutions, fills the templates in, and
/// writes one batch.
fn apply_delete_insert<B: FullBackend>(
    store: &mut B,
    cfg: &SparqlConfig,
    delete: &Vec<QuadTemplate>,
    insert: &Vec<QuadTemplate>,
    using: &DatasetSpec,
    pattern: &WherePattern,
    journal: &mut Journal,
) -> (r: Result<(), SparqlError>)
    ensures
        r is Ok ==> op_effect(
            (OpView::DeleteInsert {
                delete: templates_view(delete@),
                insert: templates_view(insert@),
                using: using@,
                pattern: pattern@,
            }),
            old(store),
            final(store).quads(),
        ),
        r matches Err(e) ==> final(store).quads() == old(store).quads() && op_fails(
            (OpView::DeleteInsert {
                delete: templates_view(delete@),
                insert: templates_view(insert@),
                using: using@,
                pattern: pattern@,
            }),
            old(store),
            *cfg,
            e@,
        ),
        Store::steady(final(store)) == Store::steady(old(store)),
        Store::lasting(final(store)) == Store::lasting(old(store)),
        still_tracks(old(journal), old(store).quads(), final(journal), final(store).quads()),
        alike_on_reserved(old(store).quads(), final(store).quads()),
{
    match validate_delete_insert(delete, insert, pattern, cfg) {
        Ok(_) => {},
        Err(e) => return Err(e),
    }
    let alg = match pattern {
        WherePattern::Algebra(a) => a,
        WherePattern::Unsupported(_) => {
            assert(false);
            return Ok(());
        },
    };
    let p = match plan(alg) {
        Ok(p) => p,
        Err(e) => {
            assert(false);
            return Err(e);
        },
    };
    let ghost tv = templates_view(delete@);
    let ghost sv = templates_view(insert@);
    let ghost was = store.quads();
    let rows = match Runtime::new(&*store).with_dataset(
        using.clone(),
        DefaultGraphMode::Strict,
    ).run(&p) {
        Ok(rows) => rows,
        Err(e) => return Err(e),
    };
    let ghost rv = bindings_view(rows@);
    assert(answers_of(old(store), where_query(using@), plan_view(alg@, true), rv));
    let dels = match collect_deletions(delete, &rows) {
        Ok(d) => d,
        Err(e) => return Err(e),
    };
    let adds = match collect_insertions(insert, &rows) {
        Ok(d) => d,
        Err(e) => return Err(e),
    };
    proof {
        assert forall|q: QuadView| #[trigger] quad_set(dels@).contains(q) implies writable(
            q.graph,
        ) by {
            let (a, b) = choose|a: int, b: int|
                0 <= a < rv.len() && 0 <= b < tv.len() && #[trigger] deleted(tv[b], rv[a]) == Some(
                    q,
                );
            assert(deleted(tv[b], rv[a]) == Some(q));
        }
        assert forall|q: QuadView| #[trigger] quad_set(adds@).contains(q) implies writable(
            q.graph,
        ) by {
            let (a, b) = choose|a: int, b: int|
                0 <= a < rv.len() && 0 <= b < sv.len() && #[trigger] inserted(
                    sv[b],
                    rv[a],
                    a as nat,
                ) == Some(q);
            assert(inserted(sv[b], rv[a], a as nat) == Some(q));
        }
    }
    write_batch(store, dels, adds, journal)
}

// ── Requests ────────────────────────────────────────────────────────────────

/// May the quad data of an operation be written?
pub open spec fn admissible(op: OpView) -> bool {
    match op {
        OpView::InsertData { data } => data_error(data) is None,
        OpView::DeleteData { data } => data_error(data) is None,
        _ => true,
    }
}

/// Applies one operation, noting what it touches.
fn apply_op<B: FullBackend>(
    store: &mut B,
    cfg: &SparqlConfig,
    op: &UpdateOp,
    journal: &mut Journal,
) -> (r: Result<(), SparqlError>)
    requires
        admissible(op@),
    ensures
        r is Ok ==> op_effect(op@, old(store), final(store).quads()),
        r matches Err(e) ==> op_fails(op@, old(store), *cfg, e@),
        r is Err && (old(store).steady() || !takes_steps(op@)) ==> final(store).quads() == old(
            store,
        ).quads(),
        final(store).steady() == old(store).steady(),
        final(store).lasting() == old(store).lasting(),
        still_tracks(old(journal), old(store).quads(), final(journal), final(store).quads()),
        alike_on_reserved(old(store).quads(), final(store).quads()),
{
    let ghost was = store.quads();
    match op {
        UpdateOp::InsertData { data } => {
            let adds = clone_quads(data);
            let none: Vec<AlgebraQuad> = Vec::new();
            proof {
                no_reserved_data(quads_view(data@));
                set_is_writable(quads_view(data@));
                assert(quad_set(none@) =~= Set::empty());
            }
            let r = write_batch(store, none, adds, journal);
            assert(was.difference(Set::empty()).union(quad_set(data@)) =~= was.union(
                quad_set(data@),
            ));
            r
        },
        UpdateOp::DeleteData { data } => {
            let dels = clone_quads(data);
            let none: Vec<AlgebraQuad> = Vec::new();
            proof {
                no_reserved_data(quads_view(data@));
                set_is_writable(quads_view(data@));
                assert(quad_set(none@) =~= Set::empty());
            }
            let r = write_batch(store, dels, none, journal);
            assert(was.difference(quad_set(data@)).union(Set::empty()) =~= was.difference(
                quad_set(data@),
            ));
            r
        },
        UpdateOp::DeleteInsert { delete, insert, using, pattern } => apply_delete_insert(
            store,
            cfg,
            delete,
            insert,
            using,
            pattern,
            journal,
        ),
        UpdateOp::Clear { silent, graph } => apply_clear_drop(
            store,
            "CLEAR",
            *silent,
            graph,
            journal,
        ),
        UpdateOp::Drop { silent, graph } => apply_clear_drop(store, "DROP", *silent, graph, journal),
        UpdateOp::Create { silent, graph } => validate_create(*silent, graph.as_str(), store),
        UpdateOp::Load { silent, source, destination, document } => apply_load(
            store,
            *silent,
            source.as_str(),
            destination,
            document,
            journal,
        ),
    }
}

/// Do the stores show the first operations, each applied to the one before?
pub open spec fn is_history<B: FullBackend>(run: Seq<B>, ops: Seq<OpView>, n: int) -> bool {
    &&& run.len() == n + 1
    &&& 0 <= n <= ops.len()
    &&& forall|i: int|
        0 <= i < n ==> op_effect(ops[i], &#[trigger] run[i], run[i + 1].quads())
}

/// Did the operations make this of the store?
pub open spec fn applied<B: FullBackend>(ops: Seq<OpView>, before: &B, after: &B) -> bool {
    exists|run: Seq<B>| #[trigger]
        is_history(run, ops, ops.len() as int) && run[0] == *before && run.last() == *after
}

/// Did an operation fail with this error, after those before it were applied?
pub open spec fn failed_at<B: FullBackend>(
    ops: Seq<OpView>,
    before: &B,
    cfg: SparqlConfig,
    e: ErrorView,
) -> bool {
    exists|run: Seq<B>, k: int| #[trigger]
        is_history(run, ops, k) && k < ops.len() && run[0] == *before && op_fails(
            ops[k],
            &run.last(),
            cfg,
            e,
        )
}

proof fn ops_ok(ops: Seq<OpView>, quads: Set<QuadView>, cfg: SparqlConfig)
    requires
        ops_error(ops, quads, cfg) is None,
    ensures
        forall|i: int| 0 <= i < ops.len() ==> op_error(#[trigger] ops[i], quads, cfg) is None,
    decreases ops.len(),
{
    if ops.len() > 0 {
        ops_ok(ops.drop_first(), quads, cfg);
        assert forall|i: int| 0 <= i < ops.len() implies op_error(
            #[trigger] ops[i],
            quads,
            cfg,
        ) is None by {
            if i > 0 {
                assert(ops[i] == ops.drop_first()[i - 1]);
            }
        }
    }
}

/// Applies a request.
///
/// - It is refused with [`request_error`], and then nothing is written.
/// - Otherwise its operations are applied in order, each to what the one before
///   left, and any of them may still fail.
/// - A request that returns an error leaves the quads as they were, in a store
///   whose batches do not fail: what was written is undone in one.
/// - The reserved graphs are never written, whatever the request.
pub fn apply_update_with<B: FullBackend>(u: &UpdateRequest, store: &mut B, cfg: &SparqlConfig) -> (r:
    Result<(), SparqlError>)
    ensures
        request_error(u@, old(store).quads(), *cfg) matches Some(d) ==> r is Err && r->Err_0@ == d
            && final(store).quads() == old(store).quads(),
        r is Ok ==> applied(u@.operations, old(store), final(store)),
        r matches Err(e) ==> request_error(u@, old(store).quads(), *cfg) == Some(e@) || failed_at(
            u@.operations,
            old(store),
            *cfg,
            e@,
        ),
        r is Err && (old(store).steady() || old(store).lasting()) ==> final(store).quads() == old(
            store,
        ).quads(),
        alike_on_reserved(old(store).quads(), final(store).quads()),
        final(store).steady() == old(store).steady(),
        final(store).lasting() == old(store).lasting(),
{
    match validate_update(u, cfg, store) {
        Ok(_) => {},
        Err(e) => return Err(e),
    }
    let ghost start = store.quads();
    let ghost ov = u@.operations;
    proof {
        ops_ok(ov, start, *cfg);
    }
    let logged = u.operations.len() > 1 || (u.operations.len() == 1 && is_stepwise(
        &u.operations[0],
    ));
    let mut journal = Journal::new(logged);
    let ghost mut run: Seq<B> = seq![*store];
    let mut i: usize = 0;
    assert(journal.tracks(start, start));
    while i < u.operations.len()
        invariant
            i <= u.operations@.len(),
            ov == ops_view(u.operations@),
            ov == u@.operations,
            start == old(store).quads(),
            request_error(u@, start, *cfg) is None,
            forall|k: int| 0 <= k < ov.len() ==> op_error(#[trigger] ov[k], start, *cfg) is None,
            is_history(run, ov, i as int),
            run[0] == *old(store),
            run.last() == *store,
            journal.keeps() == logged,
            !logged ==> u.operations@.len() <= 1 && forall|k: int|
                0 <= k < ov.len() ==> !takes_steps(#[trigger] ov[k]),
            journal.tracks(start, store.quads()),
            forall|q: QuadView| #[trigger] journal.notes(q) ==> writable(q.graph),
            !journal.keeps() ==> forall|q: QuadView| !#[trigger] journal.notes(q),
            alike_on_reserved(start, store.quads()),
            store.steady() == old(store).steady(),
            store.lasting() == old(store).lasting(),
            u.operations@.len() <= 1 ==> i == 0 || i == u.operations@.len(),
            i == 0 ==> store.quads() == start,
        decreases u.operations@.len() - i,
    {
        let ghost mid = *store;
        proof {
            assert(ov[i as int] == u.operations@[i as int]@);
            assert(op_error(ov[i as int], start, *cfg) is None);
        }
        match apply_op(store, cfg, &u.operations[i], &mut journal) {
            Ok(_) => {},
            Err(e) => {
                proof {
                    assert(is_history(run, ov, i as int));
                    assert(failed_at(ov, old(store), *cfg, e@));
                }
                let ghost broken = store.quads();
                journal.rollback(store);
                proof {
                    if !journal.keeps() {
                        assert(store.quads() =~= broken);
                    }
                    assert forall|q: QuadView| !writable(q.graph) implies #[trigger] start.contains(
                        q,
                    ) == store.quads().contains(q) by {
                        assert(store.quads().contains(q) == broken.contains(q));
                        assert(mid.quads().contains(q) == broken.contains(q));
                        assert(start.contains(q) == mid.quads().contains(q));
                    }
                }
                return Err(e);
            },
        }
        proof {
            let grown = run.push(*store);
            assert(is_history(grown, ov, i + 1)) by {
                assert forall|k: int| 0 <= k < i + 1 implies op_effect(
                    ov[k],
                    &#[trigger] grown[k],
                    grown[k + 1].quads(),
                ) by {
                    if k < i {
                        assert(grown[k] == run[k]);
                        assert(grown[k + 1] == run[k + 1]);
                    }
                }
            }
            run = grown;
            assert forall|q: QuadView| !writable(q.graph) implies #[trigger] start.contains(q)
                == store.quads().contains(q) by {
                assert(mid.quads().contains(q) == store.quads().contains(q));
            }
        }
        i = i + 1;
    }
    Ok(())
}

/// Applies a request with the default settings.
pub fn apply_update<B: FullBackend>(u: &UpdateRequest, store: &mut B) -> (r: Result<(), SparqlError>)
    ensures
        ({
            let cfg = SparqlConfig { rdf12: false, default_graph: DefaultGraphMode::Union };
            &&& request_error(u@, old(store).quads(), cfg) matches Some(d) ==> r is Err
                && r->Err_0@ == d && final(store).quads() == old(store).quads()
            &&& r is Ok ==> applied(u@.operations, old(store), final(store))
            &&& r matches Err(e) ==> request_error(u@, old(store).quads(), cfg) == Some(e@)
                || failed_at(u@.operations, old(store), cfg, e@)
        }),
        r is Err && (old(store).steady() || old(store).lasting()) ==> final(store).quads() == old(
            store,
        ).quads(),
        alike_on_reserved(old(store).quads(), final(store).quads()),
{
    let cfg = SparqlConfig::default();
    apply_update_with(u, store, &cfg)
}

/// Applies a request and then moves the slot to its feed position, where it has
/// one.
///
/// - A feed other than the slot's is refused, and then nothing is written.
/// - The slot is moved once every operation is done, so it is never ahead of
///   the data.
/// - A request that returns an error leaves the quads as they were, in a store
///   that does not itself fail.
pub fn apply_update_with_feed<B: FullBackend>(
    u: &UpdateRequest,
    store: &mut B,
    cfg: &SparqlConfig,
    feed: Option<&FeedPosition>,
) -> (r: Result<(), SparqlError>)
    ensures
        feed is None && r is Ok ==> applied(u@.operations, old(store), final(store)),
        feed matches Some(f) ==> (r is Ok ==> exists|mid: B, at: Text|
            applied(u@.operations, old(store), &mid) && final(store).quads() == #[trigger] moved(
                mid.quads(),
                advanced(f, at),
            )),
        feed matches Some(f) ==> (r is Ok ==> exists|s: Option<SlotRecord>|
            #[trigger]
            reads_as(old(store).quads(), s) && (s matches Some(x) ==> x.id == f.id@)),
        r matches Err(e) ==> request_error(u@, old(store).quads(), *cfg) == Some(e@) || failed_at(
            u@.operations,
            old(store),
            *cfg,
            e@,
        ) || (feed is Some && (!old(store).steady() || exists|s: SlotRecord| #[trigger]
            reads_as(old(store).quads(), Some(s)) && s.id != feed->0.id@ && e@ == (
            ErrorView::FeedIdMismatch { slot: s.id, request: feed->0.id@ }))),
        r is Err && old(store).steady() ==> final(store).quads() == old(store).quads(),
{
    if let Some(f) = feed {
        if let Err(e) = check_feed_id(store, f) {
            return Err(e);
        }
    }
    match apply_update_with(u, store, cfg) {
        Ok(_) => {},
        Err(e) => {
            return Err(e);
        },
    }
    match feed {
        None => Ok(()),
        Some(f) => {
            let ghost mid = *store;
            let r = advance_slot(store, f);
            proof {
                if r is Ok {
                    let at = choose|at: Text|
                        store.quads() == moved(mid.quads(), #[trigger] advanced(f, at));
                    assert(store.quads() == moved(mid.quads(), advanced(f, at)));
                }
            }
            r
        },
    }
}

}
