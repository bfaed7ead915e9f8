//! What a store offers to updates: a set of quads, written in batches.

use crate::algebra::{Term, TermView};
use crate::error::SparqlError;
use crate::exec::executor::Executor;
use crate::text::{same_text, Text};
use vstd::prelude::*;

verus! {

/// The graph a quad is in; `None` is the default graph.
pub type GraphName = Option<String>;

/// A graph, subject, predicate and object.
pub type AlgebraQuad = (GraphName, Term, Term, Term);

/// A subject, predicate and object.
pub type AlgebraTriple = (Term, Term, Term);

#[allow(inconsistent_fields)]
#[verifier::ext_equal]
pub struct QuadView {
    pub graph: Option<Text>,
    pub subject: TermView,
    pub predicate: TermView,
    pub object: TermView,
}

pub open spec fn graph_view(g: GraphName) -> Option<Text> {
    match g {
        Some(s) => Some(s@),
        None => None,
    }
}

pub open spec fn quad_view(q: AlgebraQuad) -> QuadView {
    QuadView { graph: graph_view(q.0), subject: q.1@, predicate: q.2@, object: q.3@ }
}

pub open spec fn quads_view(s: Seq<AlgebraQuad>) -> Seq<QuadView> {
    Seq::new(s.len(), |i: int| quad_view(s[i]))
}

/// The set of the quads of a list.
pub open spec fn quad_set(s: Seq<AlgebraQuad>) -> Set<QuadView> {
    quads_view(s).to_set()
}

/// A triple as a quad of a graph.
pub open spec fn in_graph(g: Option<Text>, t: AlgebraTriple) -> QuadView {
    QuadView { graph: g, subject: t.0@, predicate: t.1@, object: t.2@ }
}

/// The set of the triples of a list, as quads of a graph.
pub open spec fn triple_set(g: Option<Text>, s: Seq<AlgebraTriple>) -> Set<QuadView> {
    Seq::new(s.len(), |i: int| in_graph(g, s[i])).to_set()
}

/// The quads of a set that are in a graph.
pub open spec fn graph_part(quads: Set<QuadView>, g: Option<Text>) -> Set<QuadView> {
    quads.filter(|q: QuadView| q.graph == g)
}

/// Does a named graph exist? It does when it holds a quad.
pub open spec fn holds_graph(quads: Set<QuadView>, iri: Text) -> bool {
    exists|q: QuadView| #[trigger] quads.contains(q) && q.graph == Some(iri)
}

pub fn same_graph(a: &GraphName, b: &GraphName) -> (r: bool)
    ensures
        r == (graph_view(*a) == graph_view(*b)),
{
    match (a, b) {
        (Some(x), Some(y)) => same_text(x.as_str(), y.as_str()),
        (None, None) => true,
        _ => false,
    }
}

pub fn same_quad(a: &AlgebraQuad, b: &AlgebraQuad) -> (r: bool)
    ensures
        r == (quad_view(*a) == quad_view(*b)),
{
    same_graph(&a.0, &b.0) && a.1.same(&b.1) && a.2.same(&b.2) && a.3.same(&b.3)
}

pub fn clone_graph(g: &GraphName) -> (r: GraphName)
    ensures
        graph_view(r) == graph_view(*g),
{
    match g {
        Some(s) => Some(s.clone()),
        None => None,
    }
}

pub fn clone_quad(q: &AlgebraQuad) -> (r: AlgebraQuad)
    ensures
        quad_view(r) == quad_view(*q),
{
    (clone_graph(&q.0), q.1.clone(), q.2.clone(), q.3.clone())
}

/// A store that can be written to.
pub trait Store {
    /// The quads of the store.
    open spec fn quads(&self) -> Set<QuadView> {
        arbitrary()
    }

    /// Does no operation of the store fail?
    open spec fn steady(&self) -> bool {
        arbitrary()
    }

    /// Does no batch of the store fail, whatever else may?
    open spec fn lasting(&self) -> bool {
        arbitrary()
    }

    /// Takes out the first list and puts in the second, as one batch: it is
    /// done whole or not at all.
    fn apply_quads(&mut self, dels: Vec<AlgebraQuad>, adds: Vec<AlgebraQuad>) -> (r: Result<
        (),
        SparqlError,
    >)
        ensures
            r is Ok ==> final(self).quads() == old(self).quads().difference(
                quad_set(dels@),
            ).union(quad_set(adds@)),
            r is Err ==> final(self).quads() == old(self).quads(),
            old(self).steady() ==> r is Ok,
            old(self).lasting() ==> r is Ok,
            final(self).steady() == old(self).steady(),
            final(self).lasting() == old(self).lasting(),
    ;

    /// Takes out every quad of one graph.
    fn clear_graph(&mut self, graph: &GraphName) -> (r: Result<(), SparqlError>)
        ensures
            r is Ok ==> final(self).quads() == old(self).quads().difference(
                graph_part(old(self).quads(), graph_view(*graph)),
            ),
            r is Err ==> final(self).quads() == old(self).quads(),
            old(self).steady() ==> r is Ok,
            final(self).steady() == old(self).steady(),
            final(self).lasting() == old(self).lasting(),
    ;

    /// Does a named graph hold a quad?
    fn graph_exists(&self, iri: &str) -> (r: bool)
        ensures
            r == holds_graph(self.quads(), iri@),
    ;

    /// The named graphs that hold a quad.
    fn graphs(&self) -> (r: Vec<String>)
        ensures
            forall|iri: Text| #[trigger]
                holds_graph(self.quads(), iri) <==> exists|i: int|
                    0 <= i < r@.len() && (#[trigger] r@[i])@ == iri,
    ;

    fn quad_exists(&self, q: &AlgebraQuad) -> (r: bool)
        ensures
            r == self.quads().contains(quad_view(*q)),
    ;

    /// The triples of one graph.
    fn scan_graph_quads(&self, graph: &GraphName) -> (r: Result<Vec<AlgebraTriple>, SparqlError>)
        ensures
            r matches Ok(t) ==> triple_set(graph_view(*graph), t@) == graph_part(
                self.quads(),
                graph_view(*graph),
            ),
            self.steady() ==> r is Ok,
    ;
}

/// A store that can be queried and written to.
pub trait FullBackend: Executor + Store {

}

}
