//! The graphs a scan reads.
//!
//! What the default graph contains depends on the query's dataset clause and,
//! absent one, on the default-graph mode. A [`ScanScope`] holds a scan leaf's
//! own scope beside those two, and [`ScanScope::resolve`] folds the three into
//! the graphs to read.

use crate::algebra::{texts, DatasetSpec, DatasetView, GraphScope, GraphScopeView, GraphSpec, GraphSpecView, Var};
use crate::error::{ErrorView, SparqlError};
use crate::exec::batch::{Slot, SlotView};
use crate::text::{same_text, starts, starts_with, Text};
use crate::DefaultGraphMode;
use vstd::prelude::*;
use vstd::string::*;

verus! {

/// The IRI prefix of the graphs the database keeps for itself. They are left
/// out of the default graph and of graph enumeration; a query reads one only
/// by naming it.
pub const RESERVED_GRAPH_PREFIX: &'static str = "https://horndb.io/graph/";

/// Is the graph one the database keeps for itself?
pub open spec fn reserved(iri: Text) -> bool {
    starts(iri, RESERVED_GRAPH_PREFIX@)
}

pub fn is_reserved_graph(iri: &str) -> (r: bool)
    ensures
        r == reserved(iri@),
{
    starts_with(iri, RESERVED_GRAPH_PREFIX)
}

/// A scan leaf's scope within a query.
#[derive(Debug)]
pub struct ScanScope<'a> {
    /// The scan leaf's own scope.
    pub graph: &'a GraphScope,
    /// The query's dataset clause.
    pub dataset: &'a DatasetSpec,
    /// What the default graph is when the dataset clause is silent.
    pub mode: DefaultGraphMode,
}

#[allow(inconsistent_fields)]
#[verifier::ext_equal]
pub struct ScopeView {
    pub graph: GraphScopeView,
    pub dataset: DatasetView,
    pub mode: DefaultGraphMode,
}

/// The graphs to read.
#[derive(Debug, PartialEq, Eq)]
pub enum ResolvedScope<'a> {
    /// Every graph but the reserved ones, as one set of triples.
    DefaultUnion,
    /// The store's own default graph alone.
    DefaultStrict,
    /// Exactly these graphs, as one set of triples.
    Union(&'a [String]),
    /// Exactly this graph.
    OneGraph(&'a str),
    /// A graph variable with nothing to bind it: no graphs at all, but a
    /// planner error.
    UnboundGraphVar(&'a Var),
}

#[allow(inconsistent_fields)]
#[verifier::ext_equal]
pub enum ResolvedView {
    DefaultUnion,
    DefaultStrict,
    Union(Seq<Text>),
    OneGraph(Text),
    UnboundGraphVar(Text),
}

impl<'a> ResolvedScope<'a> {
    pub open spec fn view(&self) -> ResolvedView {
        match *self {
            ResolvedScope::DefaultUnion => ResolvedView::DefaultUnion,
            ResolvedScope::DefaultStrict => ResolvedView::DefaultStrict,
            ResolvedScope::Union(l) => ResolvedView::Union(texts(l@)),
            ResolvedScope::OneGraph(g) => ResolvedView::OneGraph(g@),
            ResolvedScope::UnboundGraphVar(v) => ResolvedView::UnboundGraphVar(v@),
        }
    }
}

/// The graphs a scope reads. A dataset clause wins over the mode, and a named
/// graph outside the dataset's named graphs is empty.
pub open spec fn resolved(s: ScopeView) -> ResolvedView {
    match s.graph {
        GraphScopeView::DefaultGraph => match s.dataset.default {
            None => match s.mode {
                DefaultGraphMode::Union => ResolvedView::DefaultUnion,
                DefaultGraphMode::Strict => ResolvedView::DefaultStrict,
            },
            Some(list) => ResolvedView::Union(list),
        },
        GraphScopeView::Named(GraphSpecView::Iri(g)) => match s.dataset.named {
            None => ResolvedView::OneGraph(g),
            Some(list) => if list.contains(g) {
                ResolvedView::OneGraph(g)
            } else {
                ResolvedView::Union(Seq::empty())
            },
        },
        GraphScopeView::Named(GraphSpecView::Var(v)) => ResolvedView::UnboundGraphVar(v),
    }
}

impl<'a> ScanScope<'a> {
    pub open spec fn view(&self) -> ScopeView {
        ScopeView { graph: self.graph@, dataset: self.dataset@, mode: self.mode }
    }

    pub fn new(graph: &'a GraphScope, dataset: &'a DatasetSpec, mode: DefaultGraphMode) -> (r: Self)
        ensures
            r@ == (ScopeView { graph: graph@, dataset: dataset@, mode }),
    {
        ScanScope { graph, dataset, mode }
    }

    /// The graph a ground `GRAPH` block names.
    pub fn ground_graph(&self) -> (r: Option<&'a str>)
        ensures
            match r {
                Some(g) => self@.graph == GraphScopeView::Named(GraphSpecView::Iri(g@)),
                None => !(self@.graph is Named && self@.graph->Named_0 is Iri),
            },
    {
        match self.graph {
            GraphScope::Named(GraphSpec::Iri(g)) => Some(g.as_str()),
            _ => None,
        }
    }

    /// Folds scope, dataset and mode into the graphs to read.
    pub fn resolve(&self) -> (r: ResolvedScope<'a>)
        ensures
            r@ == resolved(self@),
    {
        match self.graph {
            GraphScope::DefaultGraph => match &self.dataset.default {
                None => match self.mode {
                    DefaultGraphMode::Union => ResolvedScope::DefaultUnion,
                    DefaultGraphMode::Strict => ResolvedScope::DefaultStrict,
                },
                Some(list) => ResolvedScope::Union(list.as_slice()),
            },
            GraphScope::Named(GraphSpec::Iri(g)) => match &self.dataset.named {
                None => ResolvedScope::OneGraph(g.as_str()),
                Some(list) => if listed(list, g.as_str()) {
                    ResolvedScope::OneGraph(g.as_str())
                } else {
                    let none: &'a [String] = &[];
                    assert(texts(none@) =~= Seq::<Text>::empty());
                    ResolvedScope::Union(none)
                },
            },
            GraphScope::Named(GraphSpec::Var(v)) => ResolvedScope::UnboundGraphVar(v),
        }
    }
}

impl ScanScope<'static> {
    /// A bare pattern in a query without a dataset clause.
    pub fn unscoped() -> (r: ScanScope<'static>)
        ensures
            r@ == (ScopeView {
                graph: GraphScopeView::DefaultGraph,
                dataset: DatasetView { default: None, named: None },
                mode: DefaultGraphMode::Union,
            }),
    {
        ScanScope {
            graph: &GraphScope::DefaultGraph,
            dataset: &DatasetSpec { default: None, named: None },
            mode: DefaultGraphMode::Union,
        }
    }
}

impl<'a> ScanScope<'a> {
    /// The scope to estimate a leaf's size in: the leaf's own, in a query
    /// without a dataset clause.
    pub fn estimating(graph: &'a GraphScope) -> (r: Self)
        ensures
            r@ == (ScopeView {
                graph: graph@,
                dataset: DatasetView { default: None, named: None },
                mode: DefaultGraphMode::Union,
            }),
    {
        ScanScope {
            graph,
            dataset: &DatasetSpec { default: None, named: None },
            mode: DefaultGraphMode::Union,
        }
    }
}

/// Does a list of strings hold a text?
pub fn listed(list: &Vec<String>, s: &str) -> (r: bool)
    ensures
        r == texts(list@).contains(s@),
{
    let ghost tv = texts(list@);
    let mut i: usize = 0;
    while i < list.len()
        invariant
            i <= list@.len(),
            tv == texts(list@),
            forall|j: int| 0 <= j < i ==> tv[j] != s@,
        decreases list@.len() - i,
    {
        if same_text(list[i].as_str(), s) {
            assert(tv[i as int] == s@);
            return true;
        }
        i = i + 1;
    }
    false
}

/// A graph that `GRAPH ?g` ranges over.
#[derive(Debug)]
pub struct NamedGraph {
    pub iri: String,
    /// What the variable is bound to in the graph's rows.
    pub binding: Slot,
}

#[allow(inconsistent_fields)]
#[verifier::ext_equal]
pub struct NamedGraphView {
    pub iri: Text,
    pub binding: SlotView,
}

impl NamedGraph {
    pub open spec fn view(&self) -> NamedGraphView {
        NamedGraphView { iri: self.iri@, binding: self.binding@ }
    }
}

pub open spec fn graphs_view(s: Seq<NamedGraph>) -> Seq<NamedGraphView> {
    Seq::new(s.len(), |i: int| s[i]@)
}

/// The error of a scan under a graph variable that nothing binds.
pub fn graph_var_needs_a_per_graph_node(var: &Var) -> (r: SparqlError)
    ensures
        r@ == ErrorView::Planner(
            "GRAPH ?"@ + var@ + " reached a scan with no enclosing PerGraph node"@,
        ),
{
    let mut s = "GRAPH ?".to_owned();
    s.append(var.name());
    s.append(" reached a scan with no enclosing PerGraph node");
    SparqlError::Planner(s)
}

/// A dataset clause decides the default graph whatever the mode.
pub proof fn from_wins_over_the_mode(dataset: DatasetView, a: DefaultGraphMode, b: DefaultGraphMode)
    requires
        dataset.default is Some,
    ensures
        resolved(ScopeView { graph: GraphScopeView::DefaultGraph, dataset, mode: a }) == resolved(
            ScopeView { graph: GraphScopeView::DefaultGraph, dataset, mode: b },
        ),
        resolved(ScopeView { graph: GraphScopeView::DefaultGraph, dataset, mode: a })
            == ResolvedView::Union(dataset.default->0),
{
}

/// Naming a graph reads that graph or nothing, never more.
pub proof fn a_named_graph_is_never_widened(g: Text, dataset: DatasetView, mode: DefaultGraphMode)
    ensures
        ({
            let r = resolved(
                ScopeView { graph: GraphScopeView::Named(GraphSpecView::Iri(g)), dataset, mode },
            );
            r == ResolvedView::OneGraph(g) || r == ResolvedView::Union(Seq::empty())
        }),
{
}

}
