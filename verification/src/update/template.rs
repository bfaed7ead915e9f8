//! Quad templates, filled in from a solution.

use crate::algebra::{opt_term_view, Term, TermView};
use crate::error::{ErrorView, SparqlError};
use crate::exec::bindings::{bound_to, lookup, Bindings};
use crate::exec::scope::{is_reserved_graph, reserved, RESERVED_GRAPH_PREFIX};
use crate::exec::store::{graph_view, quad_view, AlgebraQuad, GraphName, QuadView};
use crate::text::{decimal, decimal_text, Text};
use vstd::prelude::*;
use vstd::string::*;

verus! {

/// The graph of a template.
#[derive(Debug)]
pub enum GraphTemplate {
    DefaultGraph,
    NamedNode(String),
    /// The graph the variable is bound to.
    Variable(String),
}

#[allow(inconsistent_fields)]
#[verifier::ext_equal]
pub enum GraphTemplateView {
    DefaultGraph,
    NamedNode(Text),
    Variable(Text),
}

impl GraphTemplate {
    pub open spec fn view(&self) -> GraphTemplateView {
        match *self {
            GraphTemplate::DefaultGraph => GraphTemplateView::DefaultGraph,
            GraphTemplate::NamedNode(s) => GraphTemplateView::NamedNode(s@),
            GraphTemplate::Variable(s) => GraphTemplateView::Variable(s@),
        }
    }
}

/// A quad with variables.
#[derive(Debug)]
pub struct QuadTemplate {
    pub graph: GraphTemplate,
    pub subject: Term,
    pub predicate: Term,
    pub object: Term,
}

#[allow(inconsistent_fields)]
#[verifier::ext_equal]
pub struct QuadTemplateView {
    pub graph: GraphTemplateView,
    pub subject: TermView,
    pub predicate: TermView,
    pub object: TermView,
}

impl QuadTemplate {
    pub open spec fn view(&self) -> QuadTemplateView {
        QuadTemplateView {
            graph: self.graph@,
            subject: self.subject@,
            predicate: self.predicate@,
            object: self.object@,
        }
    }
}

pub open spec fn templates_view(s: Seq<QuadTemplate>) -> Seq<QuadTemplateView> {
    Seq::new(s.len(), |i: int| s[i]@)
}

// ── The reserved namespace ──────────────────────────────────────────────────

/// The error of a write to a reserved graph.
pub open spec fn reserved_write(iri: Text) -> ErrorView {
    ErrorView::Executor(
        "write to reserved graph <"@ + iri + "> is not permitted: the "@ + RESERVED_GRAPH_PREFIX@
            + " namespace is closed to writes. Reads are allowed."@,
    )
}

fn reserved_graph_write_error(iri: &str) -> (r: SparqlError)
    ensures
        r@ == reserved_write(iri@),
{
    let mut msg = "write to reserved graph <".to_owned();
    msg.append(iri);
    msg.append("> is not permitted: the ");
    msg.append(RESERVED_GRAPH_PREFIX);
    msg.append(" namespace is closed to writes. Reads are allowed.");
    SparqlError::Executor(msg)
}

/// Refuses a write to a reserved graph.
pub fn reserved_iri_write_check(iri: &str) -> (r: Result<(), SparqlError>)
    ensures
        match r {
            Ok(_) => !reserved(iri@),
            Err(e) => reserved(iri@) && e@ == reserved_write(iri@),
        },
{
    if is_reserved_graph(iri) {
        return Err(reserved_graph_write_error(iri));
    }
    Ok(())
}

/// Is the graph open to writes?
pub open spec fn writable(g: Option<Text>) -> bool {
    match g {
        Some(iri) => !reserved(iri),
        None => true,
    }
}

/// Refuses a write to a graph that is reserved.
pub fn reserved_write_check(g: &GraphName) -> (r: Result<(), SparqlError>)
    ensures
        match r {
            Ok(_) => writable(graph_view(*g)),
            Err(e) => !writable(graph_view(*g)) && e@ == reserved_write(graph_view(*g)->0),
        },
{
    match g {
        Some(iri) => reserved_iri_write_check(iri.as_str()),
        None => Ok(()),
    }
}

/// Does a template name a reserved graph? What a variable names is known only
/// with a solution.
pub open spec fn ground_reserved(g: GraphTemplateView) -> bool {
    g matches GraphTemplateView::NamedNode(iri) && reserved(iri)
}

pub fn reserved_template_check(g: &GraphTemplate) -> (r: Result<(), SparqlError>)
    ensures
        match r {
            Ok(_) => !ground_reserved(g@),
            Err(e) => ground_reserved(g@) && e@ == reserved_write(g@->NamedNode_0),
        },
{
    match g {
        GraphTemplate::NamedNode(iri) => reserved_iri_write_check(iri.as_str()),
        _ => Ok(()),
    }
}

// ── Filling in ──────────────────────────────────────────────────────────────

/// The term a slot of an insert template stands for. A blank node is fresh for
/// each solution; a triple term stands for nothing.
pub open spec fn filled(t: TermView, row: Map<Text, TermView>, row_ix: nat) -> Option<TermView> {
    match t {
        TermView::Iri(_) => Some(t),
        TermView::Literal(_) => Some(t),
        TermView::BlankNode(b) => Some(TermView::BlankNode(b + "_r"@ + decimal(row_ix))),
        TermView::Var(v) => bound_to(row, v),
        TermView::Triple(_) => None,
    }
}

pub fn resolve_term(t: &Term, row: &Bindings, row_ix: usize) -> (r: Option<Term>)
    ensures
        opt_term_view(r) == filled(t@, row@, row_ix as nat),
{
    match t {
        Term::Iri(_) | Term::Literal(_) => Some(t.clone()),
        Term::BlankNode(b) => {
            let mut label = b.clone();
            label.append("_r");
            label.append(decimal_text(row_ix as u64).as_str());
            Some(Term::BlankNode(label))
        },
        Term::Var(v) => lookup(row, v.name()),
        Term::Triple(_) => None,
    }
}

/// The term a slot of a delete template stands for.
pub open spec fn filled_ground(t: TermView, row: Map<Text, TermView>) -> Option<TermView> {
    match t {
        TermView::Iri(_) => Some(t),
        TermView::Literal(_) => Some(t),
        TermView::Var(v) => bound_to(row, v),
        _ => None,
    }
}

pub fn resolve_ground(t: &Term, row: &Bindings) -> (r: Option<Term>)
    ensures
        opt_term_view(r) == filled_ground(t@, row@),
{
    match t {
        Term::Iri(_) | Term::Literal(_) => Some(t.clone()),
        Term::Var(v) => lookup(row, v.name()),
        _ => None,
    }
}

/// The predicate a slot stands for: an IRI, or nothing.
pub open spec fn filled_pred(t: TermView, row: Map<Text, TermView>) -> Option<TermView> {
    match t {
        TermView::Iri(_) => Some(t),
        TermView::Var(v) => match bound_to(row, v) {
            Some(TermView::Iri(s)) => Some(TermView::Iri(s)),
            _ => None,
        },
        _ => None,
    }
}

pub fn resolve_pred(t: &Term, row: &Bindings) -> (r: Option<Term>)
    ensures
        opt_term_view(r) == filled_pred(t@, row@),
{
    match t {
        Term::Iri(_) => Some(t.clone()),
        Term::Var(v) => match row.get(v.name()) {
            Some(Term::Iri(s)) => Some(Term::Iri(s.clone())),
            _ => None,
        },
        _ => None,
    }
}

/// A term as a subject: an IRI or a blank node, or nothing.
pub open spec fn as_subject(t: Option<TermView>) -> Option<TermView> {
    match t {
        Some(TermView::Iri(_)) => t,
        Some(TermView::BlankNode(_)) => t,
        _ => None,
    }
}

pub fn subject_or_skip(t: Option<Term>) -> (r: Option<Term>)
    ensures
        opt_term_view(r) == as_subject(opt_term_view(t)),
{
    match t {
        Some(Term::Iri(s)) => Some(Term::Iri(s)),
        Some(Term::BlankNode(s)) => Some(Term::BlankNode(s)),
        _ => None,
    }
}

/// What the graph of a template stands for.
pub enum GraphSlot {
    /// The variable names no graph.
    Skip,
    Graph(Option<Text>),
    /// The graph is closed to writes.
    Refused(Text),
}

/// The graph a template stands for: a variable that is unbound, or bound to
/// something other than an IRI, names none.
pub open spec fn filled_graph(g: GraphTemplateView, row: Map<Text, TermView>) -> GraphSlot {
    match g {
        GraphTemplateView::DefaultGraph => GraphSlot::Graph(None),
        GraphTemplateView::NamedNode(iri) => if reserved(iri) {
            GraphSlot::Refused(iri)
        } else {
            GraphSlot::Graph(Some(iri))
        },
        GraphTemplateView::Variable(v) => match bound_to(row, v) {
            Some(TermView::Iri(iri)) => if reserved(iri) {
                GraphSlot::Refused(iri)
            } else {
                GraphSlot::Graph(Some(iri))
            },
            _ => GraphSlot::Skip,
        },
    }
}

pub fn resolve_graph_name(g: &GraphTemplate, row: &Bindings) -> (r: Result<
    Option<GraphName>,
    SparqlError,
>)
    ensures
        match (filled_graph(g@, row@), r) {
            (GraphSlot::Skip, Ok(None)) => true,
            (GraphSlot::Graph(n), Ok(Some(m))) => graph_view(m) == n,
            (GraphSlot::Refused(iri), Err(e)) => e@ == reserved_write(iri),
            _ => false,
        },
{
    let iri = match g {
        GraphTemplate::DefaultGraph => {
            return Ok(Some(None));
        },
        GraphTemplate::NamedNode(n) => n.clone(),
        GraphTemplate::Variable(v) => match row.get(v.as_str()) {
            Some(Term::Iri(s)) => s.clone(),
            _ => {
                return Ok(None);
            },
        },
    };
    match reserved_iri_write_check(iri.as_str()) {
        Ok(_) => Ok(Some(Some(iri))),
        Err(e) => Err(e),
    }
}

/// The quad of its filled parts; `None` where a part stands for nothing.
pub open spec fn whole_quad(
    g: GraphSlot,
    s: Option<TermView>,
    p: Option<TermView>,
    o: Option<TermView>,
) -> Option<QuadView> {
    match (g, s, p, o) {
        (GraphSlot::Graph(g), Some(s), Some(p), Some(o)) => Some(
            QuadView { graph: g, subject: s, predicate: p, object: o },
        ),
        _ => None,
    }
}

/// The quad an insert template stands for in a solution.
pub open spec fn inserted(q: QuadTemplateView, row: Map<Text, TermView>, row_ix: nat) -> Option<
    QuadView,
> {
    whole_quad(
        filled_graph(q.graph, row),
        as_subject(filled(q.subject, row, row_ix)),
        filled_pred(q.predicate, row),
        filled(q.object, row, row_ix),
    )
}

/// The quad a delete template stands for in a solution.
pub open spec fn deleted(q: QuadTemplateView, row: Map<Text, TermView>) -> Option<QuadView> {
    whole_quad(
        filled_graph(q.graph, row),
        as_subject(filled_ground(q.subject, row)),
        filled_pred(q.predicate, row),
        filled_ground(q.object, row),
    )
}

pub open spec fn opt_quad_view(q: Option<AlgebraQuad>) -> Option<QuadView> {
    match q {
        Some(q) => Some(quad_view(q)),
        None => None,
    }
}

fn quad_of(g: Option<GraphName>, s: Option<Term>, p: Option<Term>, o: Option<Term>) -> (r: Option<
    AlgebraQuad,
>)
    ensures
        opt_quad_view(r) == match g {
            Some(g) => whole_quad(
                GraphSlot::Graph(graph_view(g)),
                opt_term_view(s),
                opt_term_view(p),
                opt_term_view(o),
            ),
            None => None,
        },
{
    match (g, s, p, o) {
        (Some(g), Some(s), Some(p), Some(o)) => Some((g, s, p, o)),
        _ => None,
    }
}

/// Is the graph of the template refused in the solution?
pub open spec fn refused(q: QuadTemplateView, row: Map<Text, TermView>) -> bool {
    filled_graph(q.graph, row) is Refused
}

/// The quad to insert for one template and solution.
pub fn insert_quad(q: &QuadTemplate, row: &Bindings, row_ix: usize) -> (r: Result<
    Option<AlgebraQuad>,
    SparqlError,
>)
    ensures
        match r {
            Ok(out) => !refused(q@, row@) && opt_quad_view(out) == inserted(
                q@,
                row@,
                row_ix as nat,
            ),
            Err(e) => refused(q@, row@) && e@ == reserved_write(
                filled_graph(q@.graph, row@)->Refused_0,
            ),
        },
{
    match resolve_graph_name(&q.graph, row) {
        Ok(g) => Ok(
            quad_of(
                g,
                subject_or_skip(resolve_term(&q.subject, row, row_ix)),
                resolve_pred(&q.predicate, row),
                resolve_term(&q.object, row, row_ix),
            ),
        ),
        Err(e) => Err(e),
    }
}

/// The quad to delete for one template and solution.
pub fn delete_quad(q: &QuadTemplate, row: &Bindings) -> (r: Result<
    Option<AlgebraQuad>,
    SparqlError,
>)
    ensures
        match r {
            Ok(out) => !refused(q@, row@) && opt_quad_view(out) == deleted(q@, row@),
            Err(e) => refused(q@, row@) && e@ == reserved_write(
                filled_graph(q@.graph, row@)->Refused_0,
            ),
        },
{
    match resolve_graph_name(&q.graph, row) {
        Ok(g) => Ok(
            quad_of(
                g,
                subject_or_skip(resolve_ground(&q.subject, row)),
                resolve_pred(&q.predicate, row),
                resolve_ground(&q.object, row),
            ),
        ),
        Err(e) => Err(e),
    }
}

}
