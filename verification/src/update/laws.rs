//! What updates promise: which quads an operation takes out and puts in, told
//! from its templates, its solutions and the store alone.

use crate::algebra::{
    AlgebraView, DatasetView, ExprView, GraphScopeView, GraphSpecView, PatternView, TermView,
};
use crate::error::ErrorView;
use crate::exec::runtime::answers_of;
use crate::exec::scope::{reserved, resolved, ResolvedView, RESERVED_GRAPH_PREFIX};
use crate::exec::store::{FullBackend, QuadView};
use crate::feed::decimal_reads_back;
use crate::plan::planner::plan_view;
use crate::text::{decimal, lower, Text};
use crate::update::hints::hints_of;
use crate::update::apply::{additions, is_history, op_effect, removals, routed, where_query};
use crate::update::load::{
    behind_last, dataset_format, document_of, file_path, first_of, read_term, scoped_label, RawView,
    ReadErrorView,
};
use crate::update::request::{
    any_triple_pattern, any_triple_term, data_error, has_triple_term, hints_error, op_error,
    ops_error, request_error, template_error, triple_pattern, uses_triple_terms, DocumentView,
    OpView, TargetView, UpdateView, WhereView,
};
use crate::update::template::{
    deleted, filled_graph, inserted, refused, reserved_write, GraphSlot, GraphTemplateView,
    QuadTemplateView,
};
use crate::SparqlConfig;
use vstd::prelude::*;

verus! {

// ── Templates ───────────────────────────────────────────────────────────────

/// A solution, as the values of variables.
pub type Row = Map<Text, TermView>;

/// Is a graph among those that the database keeps for itself?
pub open spec fn is_kept(iri: Text) -> bool {
    exists|rest: Text| iri == #[trigger] ("https://horndb.io/graph/"@ + rest)
}

/// The graphs of the database are those whose names begin so.
pub proof fn kept_graphs_are_reserved(iri: Text)
    ensures
        reserved(iri) <==> is_kept(iri),
{
    let p = "https://horndb.io/graph/"@;
    if reserved(iri) {
        assert(iri =~= p + iri.skip(p.len() as int)) by {
            assert(iri.subrange(0, p.len() as int) =~= p);
        }
    }
    if is_kept(iri) {
        let rest = choose|rest: Text| iri == #[trigger] (p + rest);
        assert((p + rest).subrange(0, p.len() as int) =~= p);
    }
}

/// Does a part of a template stand for a term: as that term itself, or as a
/// variable that is bound to it?
pub open spec fn stands_for(part: TermView, row: Row, t: TermView) -> bool {
    ||| part == t && (t is Iri || t is Literal)
    ||| exists|v: Text| part == TermView::Var(v) && #[trigger] row.contains_key(v) && row[v] == t
}

/// Does a part of an insertion stand for a term: as one of a deletion, or as a
/// blank node that is new for the solution?
pub open spec fn newly_stands_for(part: TermView, row: Row, at: nat, t: TermView) -> bool {
    ||| stands_for(part, row, t)
    ||| exists|b: Text| #[trigger]
        label_in(b, at) == t && part == TermView::BlankNode(b)
}

/// The blank node of a label in a solution.
pub open spec fn label_in(b: Text, at: nat) -> TermView {
    TermView::BlankNode(b + seq!['_', 'r'] + decimal(at))
}

/// Does the graph of a template stand for this one?
pub open spec fn graph_stands_for(g: GraphTemplateView, row: Row, n: Option<Text>) -> bool {
    match n {
        None => g is DefaultGraph,
        Some(iri) => !is_kept(iri) && (g == GraphTemplateView::NamedNode(iri) || exists|v: Text|
            g == GraphTemplateView::Variable(v) && #[trigger] row.contains_key(v) && row[v]
                == TermView::Iri(iri)),
    }
}

/// May a quad stand in a store: an IRI or a blank node related by an IRI?
pub open spec fn is_statement(q: QuadView) -> bool {
    (q.subject is Iri || q.subject is BlankNode) && q.predicate is Iri
}

/// Does a template of a deletion stand for a quad in a solution?
pub open spec fn takes_out(t: QuadTemplateView, row: Row, q: QuadView) -> bool {
    &&& is_statement(q)
    &&& graph_stands_for(t.graph, row, q.graph)
    &&& stands_for(t.subject, row, q.subject)
    &&& stands_for(t.predicate, row, q.predicate)
    &&& stands_for(t.object, row, q.object)
}

/// Does a template of an insertion stand for a quad in a solution?
pub open spec fn puts_in(t: QuadTemplateView, row: Row, at: nat, q: QuadView) -> bool {
    &&& is_statement(q)
    &&& graph_stands_for(t.graph, row, q.graph)
    &&& newly_stands_for(t.subject, row, at, q.subject)
    &&& stands_for(t.predicate, row, q.predicate)
    &&& newly_stands_for(t.object, row, at, q.object)
}

proof fn graph_is_told(g: GraphTemplateView, row: Row, n: Option<Text>)
    ensures
        filled_graph(g, row) == GraphSlot::Graph(n) <==> graph_stands_for(g, row, n),
{
    match g {
        GraphTemplateView::NamedNode(iri) => {
            kept_graphs_are_reserved(iri);
        },
        GraphTemplateView::Variable(v) => {
            if row.contains_key(v) && row[v] is Iri {
                kept_graphs_are_reserved(row[v]->Iri_0);
            }
        },
        _ => {},
    }
    if let Some(iri) = n {
        kept_graphs_are_reserved(iri);
    }
}

/// A template of a deletion stands for the quads its parts stand for, in the
/// graph its graph stands for, and for no others.
pub proof fn a_deletion_stands_for_its_parts(t: QuadTemplateView, row: Row, q: QuadView)
    ensures
        deleted(t, row) == Some(q) <==> takes_out(t, row, q),
{
    graph_is_told(t.graph, row, q.graph);
}

/// A template of an insertion stands for the quads its parts stand for, in the
/// graph its graph stands for, and for no others.
pub proof fn an_insertion_stands_for_its_parts(
    t: QuadTemplateView,
    row: Row,
    at: nat,
    q: QuadView,
)
    ensures
        inserted(t, row, at) == Some(q) <==> puts_in(t, row, at, q),
{
    graph_is_told(t.graph, row, q.graph);
    reveal_strlit("_r");
    assert("_r"@ =~= seq!['_', 'r']);
    if t.subject is BlankNode {
        assert(label_in(t.subject->BlankNode_0, at) == TermView::BlankNode(
            t.subject->BlankNode_0 + "_r"@ + decimal(at),
        ));
    }
    if t.object is BlankNode {
        assert(label_in(t.object->BlankNode_0, at) == TermView::BlankNode(
            t.object->BlankNode_0 + "_r"@ + decimal(at),
        ));
    }
}

/// The blank nodes of one label in two solutions are two.
pub proof fn solutions_have_their_own_blank_nodes(b: Text, i: nat, j: nat)
    requires
        i != j,
    ensures
        label_in(b, i) != label_in(b, j),
{
    decimal_reads_back(i);
    decimal_reads_back(j);
    let (x, y) = (b + seq!['_', 'r'] + decimal(i), b + seq!['_', 'r'] + decimal(j));
    if x == y {
        assert(decimal(i) =~= x.skip(b.len() as int + 2));
        assert(decimal(j) =~= y.skip(b.len() as int + 2));
    }
}

/// A template is refused in a solution where its graph stands for one that the
/// database keeps for itself.
pub proof fn kept_graphs_are_refused(t: QuadTemplateView, row: Row)
    ensures
        refused(t, row) <==> exists|iri: Text| #[trigger]
            is_kept(iri) && (t.graph == GraphTemplateView::NamedNode(iri) || exists|v: Text|
                t.graph == GraphTemplateView::Variable(v) && #[trigger] row.contains_key(v)
                    && row[v] == TermView::Iri(iri)),
{
    match t.graph {
        GraphTemplateView::NamedNode(iri) => {
            kept_graphs_are_reserved(iri);
        },
        GraphTemplateView::Variable(v) => {
            if row.contains_key(v) && row[v] is Iri {
                kept_graphs_are_reserved(row[v]->Iri_0);
            }
        },
        _ => {},
    }
}

// ── Operations ──────────────────────────────────────────────────────────────

/// Does some template of a deletion stand for a quad in some solution?
pub open spec fn is_taken_out(ts: Seq<QuadTemplateView>, rows: Seq<Row>, q: QuadView) -> bool {
    exists|i: int, j: int|
        0 <= i < rows.len() && 0 <= j < ts.len() && #[trigger] takes_out(ts[j], rows[i], q)
}

/// Does some template of an insertion stand for a quad in some solution?
pub open spec fn is_put_in(ts: Seq<QuadTemplateView>, rows: Seq<Row>, q: QuadView) -> bool {
    exists|i: int, j: int|
        0 <= i < rows.len() && 0 <= j < ts.len() && #[trigger] puts_in(
            ts[j],
            rows[i],
            i as nat,
            q,
        )
}

proof fn told_by_templates(
    delete: Seq<QuadTemplateView>,
    insert: Seq<QuadTemplateView>,
    rows: Seq<Row>,
    q: QuadView,
)
    ensures
        removals(delete, rows).contains(q) <==> is_taken_out(delete, rows, q),
        additions(insert, rows).contains(q) <==> is_put_in(insert, rows, q),
{
    if removals(delete, rows).contains(q) {
        let (i, j) = choose|i: int, j: int|
            0 <= i < rows.len() && 0 <= j < delete.len() && #[trigger] deleted(delete[j], rows[i])
                == Some(q);
        a_deletion_stands_for_its_parts(delete[j], rows[i], q);
    }
    if is_taken_out(delete, rows, q) {
        let (i, j) = choose|i: int, j: int|
            0 <= i < rows.len() && 0 <= j < delete.len() && #[trigger] takes_out(
                delete[j],
                rows[i],
                q,
            );
        a_deletion_stands_for_its_parts(delete[j], rows[i], q);
        assert(deleted(delete[j], rows[i]) == Some(q));
    }
    if additions(insert, rows).contains(q) {
        let (i, j) = choose|i: int, j: int|
            0 <= i < rows.len() && 0 <= j < insert.len() && #[trigger] inserted(
                insert[j],
                rows[i],
                i as nat,
            ) == Some(q);
        an_insertion_stands_for_its_parts(insert[j], rows[i], i as nat, q);
    }
    if is_put_in(insert, rows, q) {
        let (i, j) = choose|i: int, j: int|
            0 <= i < rows.len() && 0 <= j < insert.len() && #[trigger] puts_in(
                insert[j],
                rows[i],
                i as nat,
                q,
            );
        an_insertion_stands_for_its_parts(insert[j], rows[i], i as nat, q);
        assert(inserted(insert[j], rows[i], i as nat) == Some(q));
    }
}

/// A pattern update asks its pattern of the store as it was. Then a quad is in
/// the store where a template puts it in, or where it was before and no
/// template takes it out.
pub proof fn a_pattern_update_goes_by_its_templates<B: FullBackend>(
    delete: Seq<QuadTemplateView>,
    insert: Seq<QuadTemplateView>,
    using: DatasetView,
    pattern: WhereView,
    before: &B,
    after: Set<QuadView>,
)
    requires
        op_effect(OpView::DeleteInsert { delete, insert, using, pattern }, before, after),
    ensures
        pattern is Algebra,
        exists|rows: Seq<Row>| #[trigger]
            answers_of(before, where_query(using), plan_view(pattern->Algebra_0, true), rows)
                && forall|q: QuadView| #[trigger]
                after.contains(q) <==> is_put_in(insert, rows, q) || (before.quads().contains(q)
                    && !is_taken_out(delete, rows, q)),
{
    let quads = before.quads();
    let rows = choose|rows: Seq<Row>| #[trigger]
        answers_of(before, where_query(using), plan_view(pattern->Algebra_0, true), rows) && after
            == quads.difference(removals(delete, rows)).union(additions(insert, rows));
    assert forall|q: QuadView| #[trigger]
        after.contains(q) <==> is_put_in(insert, rows, q) || (quads.contains(q) && !is_taken_out(
        delete,
        rows,
        q,
    )) by {
        told_by_templates(delete, insert, rows, q);
    }
}

/// Is a quad in a template as it stands?
pub open spec fn is_ground(t: QuadTemplateView, q: QuadView) -> bool {
    &&& match q.graph {
        None => t.graph is DefaultGraph,
        Some(iri) => t.graph == GraphTemplateView::NamedNode(iri) && !is_kept(iri),
    }
    &&& t.subject == q.subject && q.subject is Iri
    &&& t.predicate == q.predicate && q.predicate is Iri
    &&& t.object == q.object && (q.object is Iri || q.object is Literal)
}

/// A quad in a template as it stands is taken out, or put in, with any
/// solution, be its object an IRI or a literal.
pub proof fn a_quad_as_it_stands_needs_one_solution(
    ts: Seq<QuadTemplateView>,
    j: int,
    rows: Seq<Row>,
    q: QuadView,
)
    requires
        0 <= j < ts.len(),
        is_ground(ts[j], q),
        rows.len() > 0,
    ensures
        removals(ts, rows).contains(q),
        additions(ts, rows).contains(q),
{
    told_by_templates(ts, ts, rows, q);
    assert(takes_out(ts[j], rows[0], q));
    assert(puts_in(ts[j], rows[0], 0, q));
    assert(0int as nat == 0nat);
}

/// Without solutions a pattern update changes nothing.
pub proof fn no_solution_changes_nothing(
    delete: Seq<QuadTemplateView>,
    insert: Seq<QuadTemplateView>,
    quads: Set<QuadView>,
)
    ensures
        quads.difference(removals(delete, Seq::empty())).union(additions(insert, Seq::empty()))
            == quads,
{
    let none = Seq::<Row>::empty();
    assert(removals(delete, none) =~= Set::empty());
    assert(additions(insert, none) =~= Set::empty());
    assert(quads.difference(removals(delete, none)).union(additions(insert, none)) =~= quads);
}

/// Data that is put in is there beside what was; data that is taken out is
/// gone, and nothing else is.
pub proof fn data_goes_in_and_out<B: FullBackend>(
    data: Seq<QuadView>,
    before: &B,
    after: Set<QuadView>,
    q: QuadView,
)
    ensures
        op_effect(OpView::InsertData { data }, before, after) ==> (after.contains(q)
            <==> before.quads().contains(q) || data.contains(q)),
        op_effect(OpView::DeleteData { data }, before, after) ==> (after.contains(q)
            <==> before.quads().contains(q) && !data.contains(q)),
{
}

/// A graph that is cleared or dropped holds no quad after it, and every other
/// graph holds what it held. `NAMED` is about the graphs with names, `ALL` about
/// all, and neither about those that the database keeps for itself.
pub proof fn cleared_graphs_are_empty<B: FullBackend>(
    silent: bool,
    graph: TargetView,
    before: &B,
    after: Set<QuadView>,
    q: QuadView,
)
    requires
        op_effect(OpView::Clear { silent, graph }, before, after) || op_effect(
            OpView::Drop { silent, graph },
            before,
            after,
        ),
    ensures
        after.contains(q) ==> before.quads().contains(q),
        graph is DefaultGraph ==> (after.contains(q) <==> before.quads().contains(q)
            && q.graph is Some),
        graph matches TargetView::NamedNode(iri) ==> (after.contains(q)
            <==> before.quads().contains(q) && q.graph != Some(iri)),
        graph is NamedGraphs ==> (after.contains(q) <==> before.quads().contains(q) && (
        q.graph is None || is_kept(q.graph->0))),
        graph is AllGraphs ==> (after.contains(q) <==> before.quads().contains(q)
            && q.graph is Some && is_kept(q.graph->0)),
{
    if let Some(iri) = q.graph {
        kept_graphs_are_reserved(iri);
    }
}

/// A graph is its quads: to clear it and to drop it do the same, and to create
/// one does nothing.
pub proof fn graphs_are_their_quads<B: FullBackend>(
    silent: bool,
    iri: Text,
    graph: TargetView,
    before: &B,
    after: Set<QuadView>,
)
    ensures
        op_effect(OpView::Clear { silent, graph }, before, after) <==> op_effect(
            OpView::Drop { silent, graph },
            before,
            after,
        ),
        op_effect(OpView::Create { silent, graph: iri }, before, after) ==> after
            == before.quads(),
{
}

/// A document that is loaded into a graph has its triples there; without a
/// graph its quads are where it has them. What was in the store stays. A
/// document that could not be read, or that has graphs of its own and is to go
/// into one, adds nothing.
pub proof fn a_document_is_loaded<B: FullBackend>(
    silent: bool,
    source: Text,
    destination: Option<Text>,
    document: DocumentView,
    before: &B,
    after: Set<QuadView>,
    q: QuadView,
)
    requires
        op_effect(OpView::Load { silent, source, destination, document }, before, after),
    ensures
        before.quads().contains(q) ==> after.contains(q),
        document is Failed ==> after == before.quads(),
        document matches DocumentView::Quads(data) ==> {
            &&& destination is None ==> (after.contains(q) <==> before.quads().contains(q)
                || data.contains(q))
            &&& destination is Some && dataset_format(source) ==> after == before.quads()
            &&& destination is Some && !dataset_format(source) ==> (after.contains(q)
                <==> before.quads().contains(q) || (q.graph == destination && exists|i: int|
                0 <= i < data.len() && (#[trigger] data[i]).subject == q.subject
                    && data[i].predicate == q.predicate && data[i].object == q.object))
        },
{
    if let DocumentView::Quads(data) = document {
        if destination is Some && !dataset_format(source) {
            let all = routed(data, destination);
            if all.to_set().contains(q) {
                let i = choose|i: int| 0 <= i < all.len() && all[i] == q;
                assert(data[i].subject == q.subject);
            }
            if q.graph == destination && exists|i: int|
                0 <= i < data.len() && (#[trigger] data[i]).subject == q.subject
                    && data[i].predicate == q.predicate && data[i].object == q.object {
                let i = choose|i: int|
                    0 <= i < data.len() && (#[trigger] data[i]).subject == q.subject
                        && data[i].predicate == q.predicate && data[i].object == q.object;
                assert(all[i] == q);
                assert(all.contains(q));
            }
        }
    }
}

/// Operations take place one behind the other: those of a request do what its
/// first ones and then the others do.
pub proof fn operations_follow_each_other<B: FullBackend>(
    run: Seq<B>,
    ops: Seq<OpView>,
    n: int,
    k: int,
)
    requires
        is_history(run, ops, n),
        0 <= k <= n,
    ensures
        is_history(run.take(k + 1), ops, k),
        is_history(run.skip(k), ops.skip(k), n - k),
        run.take(k + 1).last() == run.skip(k)[0],
{
    let (a, b) = (run.take(k + 1), run.skip(k));
    assert forall|i: int| 0 <= i < k implies op_effect(ops[i], &#[trigger] a[i], a[i + 1].quads()) by {
        assert(a[i] == run[i] && a[i + 1] == run[i + 1]);
    }
    assert forall|i: int| 0 <= i < n - k implies op_effect(
        ops.skip(k)[i],
        &#[trigger] b[i],
        b[i + 1].quads(),
    ) by {
        assert(b[i] == run[k + i] && b[i + 1] == run[k + i + 1]);
        assert(ops.skip(k)[i] == ops[k + i]);
    }
}

// ── Refusals ────────────────────────────────────────────────────────────────

/// Data is fit to write where no quad of it is in a graph that the database
/// keeps for itself, and none has a triple for its object.
pub proof fn fit_data_is_not_refused(data: Seq<QuadView>)
    ensures
        data_error(data) is None <==> forall|i: int|
            0 <= i < data.len() ==> !((#[trigger] data[i]).graph is Some && is_kept(
                data[i].graph->0,
            )) && !(data[i].object is Triple),
    decreases data.len(),
{
    if data.len() > 0 {
        let rest = data.drop_first();
        fit_data_is_not_refused(rest);
        if let Some(iri) = data[0].graph {
            kept_graphs_are_reserved(iri);
        }
        assert forall|i: int| 0 <= i < rest.len() implies rest[i] == data[i + 1] by {}
        if data_error(data) is None {
            assert forall|i: int| 0 <= i < data.len() implies !((#[trigger] data[i]).graph is Some
                && is_kept(data[i].graph->0)) && !(data[i].object is Triple) by {
                if i > 0 {
                    assert(rest[i - 1] == data[i]);
                }
            }
        }
    }
}

/// Templates are refused before any solution is known where one names a graph
/// that the database keeps for itself.
pub proof fn templates_of_kept_graphs_are_refused(ts: Seq<QuadTemplateView>)
    ensures
        template_error(ts) is Some <==> exists|i: int|
            0 <= i < ts.len() && (#[trigger] ts[i]).graph is NamedNode && is_kept(
                ts[i].graph->NamedNode_0,
            ),
    decreases ts.len(),
{
    if ts.len() > 0 {
        let rest = ts.drop_first();
        templates_of_kept_graphs_are_refused(rest);
        if let GraphTemplateView::NamedNode(iri) = ts[0].graph {
            kept_graphs_are_reserved(iri);
        }
        if template_error(rest) is Some {
            let i = choose|i: int|
                0 <= i < rest.len() && (#[trigger] rest[i]).graph is NamedNode && is_kept(
                    rest[i].graph->NamedNode_0,
                );
            assert(ts[i + 1] == rest[i]);
        }
        if exists|i: int|
            0 <= i < ts.len() && (#[trigger] ts[i]).graph is NamedNode && is_kept(
                ts[i].graph->NamedNode_0,
            ) {
            let i = choose|i: int|
                0 <= i < ts.len() && (#[trigger] ts[i]).graph is NamedNode && is_kept(
                    ts[i].graph->NamedNode_0,
                );
            if i > 0 {
                assert(rest[i - 1] == ts[i]);
            }
        }
    }
}

/// An operation is refused where it may not be done: a write to a graph that
/// the database keeps for itself, `SILENT` or not; a graph to clear or drop that
/// is not there, and one to create that is, unless `SILENT`.
pub proof fn operations_are_refused(
    silent: bool,
    iri: Text,
    quads: Set<QuadView>,
    cfg: SparqlConfig,
)
    ensures
        ({
            let there = exists|q: QuadView| #[trigger] quads.contains(q) && q.graph == Some(iri);
            let graph = TargetView::NamedNode(iri);
            let (clear, gone, create) = (
                op_error(OpView::Clear { silent, graph }, quads, cfg),
                op_error(OpView::Drop { silent, graph }, quads, cfg),
                op_error(OpView::Create { silent, graph: iri }, quads, cfg),
            );
            &&& clear is None <==> !is_kept(iri) && (silent || there)
            &&& gone is None <==> !is_kept(iri) && (silent || there)
            &&& create is None <==> !is_kept(iri) && (silent || !there)
        }),
        forall|graph: TargetView|
            graph !is NamedNode ==> #[trigger] op_error(
                OpView::Clear { silent, graph },
                quads,
                cfg,
            ) is None && op_error(OpView::Drop { silent, graph }, quads, cfg) is None,
{
    kept_graphs_are_reserved(iri);
}

/// A document is refused where it goes to a graph that the database keeps for
/// itself, `SILENT` or not; and, unless `SILENT`, where it could not be read or
/// has graphs of its own and is to go into one.
pub proof fn documents_are_refused(
    silent: bool,
    source: Text,
    destination: Option<Text>,
    document: DocumentView,
    quads: Set<QuadView>,
    cfg: SparqlConfig,
)
    ensures
        ({
            let e = op_error(OpView::Load { silent, source, destination, document }, quads, cfg);
            &&& destination is Some && is_kept(destination->0) ==> e is Some
            &&& destination is Some && !is_kept(destination->0) && silent ==> e is None
            &&& destination is Some && !is_kept(destination->0) && !silent ==> (e is None <==> (
            !dataset_format(source) && document is Quads))
            &&& destination is None && document is Failed ==> (e is None <==> silent)
            &&& destination is None && document is Failed && !silent ==> e == Some(
                document->Failed_0,
            )
            &&& destination is None && document is Quads ==> (e is None <==> forall|i: int|
                0 <= i < document->Quads_0.len() ==> !((
                #[trigger] document->Quads_0[i]).graph is Some && is_kept(
                    document->Quads_0[i].graph->0,
                )))
        }),
{
    if let Some(iri) = destination {
        kept_graphs_are_reserved(iri);
    } else if let DocumentView::Quads(data) = document {
        open_data(data);
    }
}

proof fn open_data(data: Seq<QuadView>)
    ensures
        crate::update::request::reserved_error(data) is None <==> forall|i: int|
            0 <= i < data.len() ==> !((#[trigger] data[i]).graph is Some && is_kept(
                data[i].graph->0,
            )),
    decreases data.len(),
{
    if data.len() > 0 {
        let rest = data.drop_first();
        open_data(rest);
        if let Some(iri) = data[0].graph {
            kept_graphs_are_reserved(iri);
        }
        assert forall|i: int| 0 <= i < rest.len() implies rest[i] == data[i + 1] by {}
        if crate::update::request::reserved_error(data) is None {
            assert forall|i: int| 0 <= i < data.len() implies !((#[trigger] data[i]).graph is Some
                && is_kept(data[i].graph->0)) by {
                if i > 0 {
                    assert(rest[i - 1] == data[i]);
                }
            }
        }
    }
}

/// Operations are refused where one of them is, with the error of the first
/// that is.
pub proof fn the_first_refusal_counts(
    a: Seq<OpView>,
    op: OpView,
    b: Seq<OpView>,
    quads: Set<QuadView>,
    cfg: SparqlConfig,
)
    requires
        forall|i: int| 0 <= i < a.len() ==> op_error(#[trigger] a[i], quads, cfg) is None,
    ensures
        ops_error(a, quads, cfg) is None,
        op_error(op, quads, cfg) is Some ==> ops_error(a + seq![op] + b, quads, cfg) == op_error(
            op,
            quads,
            cfg,
        ),
    decreases a.len(),
{
    let all = a + seq![op] + b;
    if a.len() > 0 {
        let rest = a.drop_first();
        assert forall|i: int| 0 <= i < rest.len() implies op_error(
            #[trigger] rest[i],
            quads,
            cfg,
        ) is None by {
            assert(rest[i] == a[i + 1]);
        }
        the_first_refusal_counts(rest, op, b, quads, cfg);
        assert(all.drop_first() =~= rest + seq![op] + b);
        assert(all[0] == a[0]);
    } else {
        assert(all[0] == op);
    }
}

/// A pattern that matches triples is found wherever it stands in an algebra.
pub proof fn triple_patterns_are_found(
    a: AlgebraView,
    b: AlgebraView,
    g: GraphSpecView,
    condition: Option<ExprView>,
)
    ensures
        uses_triple_terms(AlgebraView::Join { left: Box::new(a), right: Box::new(b) })
            <==> uses_triple_terms(a) || uses_triple_terms(b),
        uses_triple_terms(AlgebraView::Union { left: Box::new(a), right: Box::new(b) })
            <==> uses_triple_terms(a) || uses_triple_terms(b),
        uses_triple_terms(AlgebraView::Minus { left: Box::new(a), right: Box::new(b) })
            <==> uses_triple_terms(a) || uses_triple_terms(b),
        uses_triple_terms(AlgebraView::Distinct { inner: Box::new(a) }) <==> uses_triple_terms(a),
        uses_triple_terms(AlgebraView::Graph { name: g, inner: Box::new(a) })
            <==> uses_triple_terms(a),
        uses_triple_terms(
            AlgebraView::LeftJoin { left: Box::new(a), right: Box::new(b), expr: condition },
        ) <==> uses_triple_terms(a) || uses_triple_terms(b),
        condition is Some ==> (uses_triple_terms(
            AlgebraView::Filter { inner: Box::new(a), expr: condition->0 },
        ) <==> uses_triple_terms(a)),
{
}

// ── Documents ───────────────────────────────────────────────────────────────

/// The parts of a document are read as they are written: an IRI in angle
/// brackets, a blank node behind its mark and under a label of the document, and
/// a literal in quotes.
pub proof fn parts_are_read(tag: u64, s: Text)
    ensures
        s.len() > 0 && s[0] != '<' ==> read_term(tag, seq!['<'] + s + seq!['>'])
            == TermView::Iri(s),
        read_term(tag, seq!['_', ':'] + s) == TermView::BlankNode(scoped_label(tag, s)),
        read_term(tag, seq!['"'] + s) == TermView::Literal(seq!['"'] + s),
{
    reveal_strlit("<<( ");
    reveal_strlit("<");
    reveal_strlit("_:");
    let i = seq!['<'] + s + seq!['>'];
    if s.len() > 0 && s[0] != '<' {
        assert(i[1] == s[0]);
        if i.len() >= 4 {
            assert(i.subrange(0, 4)[1] == s[0]);
        }
        assert(i.subrange(0, 1) =~= "<"@);
        assert(i.subrange(1, i.len() - 1) =~= s);
    }
    let b = seq!['_', ':'] + s;
    assert(b.subrange(0, 2) =~= "_:"@);
    assert(b.skip(2) =~= s);
    assert(b[0] == '_');
    if b.len() >= 4 {
        assert(b.subrange(0, 4)[0] == '_');
    }
    assert(b.subrange(0, 1)[0] == '_');
    let l = seq!['"'] + s;
    assert(l[0] == '"');
    if l.len() >= 4 {
        assert(l.subrange(0, 4)[0] == '"');
    }
    assert(l.subrange(0, 1)[0] == '"');
    if l.len() >= 2 {
        assert(l.subrange(0, 2)[0] == '"');
    }
}

/// A document has a quad for each that was read, in order, with the parts in
/// their places; without a graph it is in the default one.
pub proof fn documents_keep_their_quads(tag: u64, base: Text, raw: Seq<RawView>, i: int)
    requires
        0 <= i < raw.len(),
    ensures
        document_of(tag, base, Ok(raw)) matches Ok(quads) && {
            &&& quads.len() == raw.len()
            &&& quads[i].subject == read_term(tag, raw[i].subject)
            &&& quads[i].predicate == read_term(tag, raw[i].predicate)
            &&& quads[i].object == read_term(tag, raw[i].object)
            &&& raw[i].graph == "DEFAULT"@ <==> quads[i].graph is None
            &&& raw[i].graph != "DEFAULT"@ && read_term(tag, raw[i].graph) is Iri ==> quads[i].graph
                == Some(read_term(tag, raw[i].graph)->Iri_0)
        },
        forall|e: ReadErrorView| (#[trigger] document_of(tag, base, Err(e))) is Err,
{
}

/// Only local files are loaded: the path is what follows the scheme, behind no
/// host or behind the local one.
pub proof fn local_files_are_found(path: Text)
    requires
        path.len() > 0 && path[0] == '/',
    ensures
        file_path("file://"@ + path) == Ok::<Text, ErrorView>(path),
        !(path.len() > 1 && path[1] == '/') ==> file_path("file:"@ + path) == Ok::<
            Text,
            ErrorView,
        >(path),
        file_path("http:"@ + path) is Err,
{
    reveal_strlit("file://");
    reveal_strlit("file:");
    reveal_strlit("http:");
    let a = "file://"@ + path;
    assert(a.subrange(0, 7) =~= "file://"@);
    assert(a.skip(7) =~= path);
    assert(path.skip(0) =~= path);
    let b = "file:"@ + path;
    assert(b.subrange(0, 5) =~= "file:"@);
    assert(b.skip(5) =~= path);
    assert(b[6] == '/' ==> path.len() > 1 && path[1] == '/' || b.len() <= 6);
    if b.len() >= 7 {
        assert(b[6] == path[1]);
        assert(b.subrange(0, 7)[6] == b[6]);
        assert("file://"@[6] == '/');
    }
    let c = "http:"@ + path;
    assert(c[0] == 'h');
    if c.len() >= 7 {
        assert(c.subrange(0, 7)[0] == 'h');
    }
    assert(c.subrange(0, 5)[0] == 'h');
}

/// What follows the last dot of a source, in either case, tells whether it is of
/// quads.
pub proof fn extensions_tell_datasets(stem: Text, ext: Text)
    requires
        !ext.contains('.'),
    ensures
        dataset_format(stem + seq!['.'] + ext) <==> lower(ext) == "nq"@ || lower(ext) == "trig"@,
{
    let s = stem + seq!['.'] + ext;
    behind_the_last(stem + seq!['.'], ext, '.');
    assert((stem + seq!['.']) + ext =~= s);
    assert(s.skip(stem.len() as int + 1) =~= ext);
}

proof fn behind_the_last(front: Text, back: Text, c: char)
    requires
        front.len() > 0,
        front.last() == c,
        !back.contains(c),
    ensures
        behind_last(front + back, c) == front.len(),
    decreases back.len(),
{
    let s = front + back;
    if back.len() > 0 {
        let rest = back.drop_last();
        assert(back.contains(back.last()));
        assert(!rest.contains(c)) by {
            if rest.contains(c) {
                let i = choose|i: int| 0 <= i < rest.len() && rest[i] == c;
                assert(back[i] == c);
            }
        }
        behind_the_last(front, rest, c);
        assert(s.drop_last() =~= front + rest);
        assert(s.last() == back.last());
    } else {
        assert(s =~= front);
    }
}

/// A pattern update is refused before any solution is known where a template
/// names a graph that the database keeps for itself or holds a triple, where
/// its pattern has no algebra, or matches triples and they are not switched on.
pub proof fn pattern_updates_are_refused(
    delete: Seq<QuadTemplateView>,
    insert: Seq<QuadTemplateView>,
    using: DatasetView,
    pattern: WhereView,
    quads: Set<QuadView>,
    cfg: SparqlConfig,
)
    ensures
        ({
            let e = op_error(
                OpView::DeleteInsert { delete, insert, using, pattern },
                quads,
                cfg,
            );
            e is Some <==> template_error(delete) is Some || template_error(insert) is Some || (
            exists|i: int|
                0 <= i < delete.len() && ((#[trigger] delete[i]).subject is Triple
                    || delete[i].object is Triple)) || (exists|i: int|
                0 <= i < insert.len() && ((#[trigger] insert[i]).subject is Triple
                    || insert[i].object is Triple)) || pattern is Unsupported || (
            pattern matches WhereView::Algebra(a) && uses_triple_terms(a) && !cfg.rdf12)
        }),
{
    if any_triple_term(delete) {
        let i = choose|i: int| 0 <= i < delete.len() && has_triple_term(#[trigger] delete[i]);
        assert(delete[i].subject is Triple || delete[i].object is Triple);
    }
    if any_triple_term(insert) {
        let i = choose|i: int| 0 <= i < insert.len() && has_triple_term(#[trigger] insert[i]);
        assert(insert[i].subject is Triple || insert[i].object is Triple);
    }
    if exists|i: int|
        0 <= i < delete.len() && ((#[trigger] delete[i]).subject is Triple
            || delete[i].object is Triple) {
        let i = choose|i: int|
            0 <= i < delete.len() && ((#[trigger] delete[i]).subject is Triple
                || delete[i].object is Triple);
        assert(has_triple_term(delete[i]));
    }
    if exists|i: int|
        0 <= i < insert.len() && ((#[trigger] insert[i]).subject is Triple
            || insert[i].object is Triple) {
        let i = choose|i: int|
            0 <= i < insert.len() && ((#[trigger] insert[i]).subject is Triple
                || insert[i].object is Triple);
        assert(has_triple_term(insert[i]));
    }
}

/// A pattern of triples is found by its subject or its object.
pub proof fn triple_patterns_are_by_subject_or_object(patterns: Seq<PatternView>)
    ensures
        uses_triple_terms(AlgebraView::Bgp { patterns }) <==> exists|i: int|
            0 <= i < patterns.len() && ((#[trigger] patterns[i]).subject is Triple
                || patterns[i].object is Triple),
{
    if any_triple_pattern(patterns) {
        let i = choose|i: int|
            0 <= i < patterns.len() && triple_pattern(#[trigger] patterns[i]);
        assert(patterns[i].subject is Triple || patterns[i].object is Triple);
    }
    if exists|i: int|
        0 <= i < patterns.len() && ((#[trigger] patterns[i]).subject is Triple
            || patterns[i].object is Triple) {
        let i = choose|i: int|
            0 <= i < patterns.len() && ((#[trigger] patterns[i]).subject is Triple
                || patterns[i].object is Triple);
        assert(triple_pattern(patterns[i]));
    }
}

/// A request is refused where one of its verbs or one of its operations is, the
/// verbs first.
pub proof fn requests_are_refused(u: UpdateView, quads: Set<QuadView>, cfg: SparqlConfig)
    ensures
        ({
            let hints = hints_error(hints_of(u.source, u.base_iri), quads);
            let ops = ops_error(u.operations, quads, cfg);
            &&& hints is Some ==> request_error(u, quads, cfg) == hints
            &&& hints is None ==> request_error(u, quads, cfg) == ops
        }),
{
}

/// A refused write says which graph it was to.
pub proof fn refusals_name_the_graph(iri: Text)
    ensures
        reserved_write(iri) is Executor,
        crate::server::laws::stands_in(
            reserved_write(iri)->Executor_0,
            seq!['<'] + iri + seq!['>'],
        ),
{
    reveal_strlit("write to reserved graph <");
    reveal_strlit("> is not permitted: the ");
    let s = reserved_write(iri)->Executor_0;
    let front = "write to reserved graph <"@.drop_last();
    let back = "> is not permitted: the "@.drop_first() + RESERVED_GRAPH_PREFIX@
        + " namespace is closed to writes. Reads are allowed."@;
    assert(s =~= front + (seq!['<'] + iri + seq!['>']) + back);
}

/// The pattern of an update is matched in the graphs of its `USING`; without one
/// its default graph is the store's own, and no other graph is in it.
pub proof fn patterns_of_updates_are_strict(using: DatasetView)
    ensures
        where_query(using).dataset == using,
        using.default is None ==> resolved(
            where_query(using).scope(Map::empty(), GraphScopeView::DefaultGraph),
        ) == ResolvedView::DefaultStrict,
{
}

/// A file with a host is local where the host is the local one, in either case.
pub proof fn hosts_are_local(host: Text, path: Text)
    requires
        host.len() > 0,
        !host.contains('/'),
        path.len() > 0 && path[0] == '/',
    ensures
        lower(host) == "localhost"@ ==> file_path("file://"@ + host + path) == Ok::<
            Text,
            ErrorView,
        >(path),
        lower(host) != "localhost"@ ==> file_path("file://"@ + host + path) is Err,
{
    let s = "file://"@ + host + path;
    let n = "file://"@.len() as int;
    assert(s.subrange(0, n) =~= "file://"@);
    assert(s.skip(n) =~= host + path);
    the_first_is_behind(host, path, '/');
    assert((host + path).take(host.len() as int) =~= host);
    assert((host + path).skip(host.len() as int) =~= path);
}

proof fn the_first_is_behind(front: Text, back: Text, c: char)
    requires
        !front.contains(c),
        back.len() > 0 && back[0] == c,
    ensures
        first_of(front + back, c) == front.len(),
    decreases front.len(),
{
    let s = front + back;
    if front.len() > 0 {
        let rest = front.drop_first();
        assert(front.contains(front[0]));
        assert(!rest.contains(c)) by {
            if rest.contains(c) {
                let i = choose|i: int| 0 <= i < rest.len() && rest[i] == c;
                assert(front[i + 1] == c);
            }
        }
        the_first_is_behind(rest, back, c);
        assert(s[0] == front[0]);
        assert(s.drop_first() =~= rest + back);
    } else {
        assert(s[0] == back[0]);
    }
}

}
