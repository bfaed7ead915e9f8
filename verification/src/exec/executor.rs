//! What a store offers the query engine.

use crate::algebra::{
    patterns_view, DatasetSpec, DatasetView, PatternView, Term, TermView, TriplePattern,
};
use crate::error::SparqlError;
use crate::exec::batch::{slot_term, Batch, BatchView, Dict};
use crate::exec::join::bound_in;
use crate::exec::literal::number_of;
use crate::exec::number::Numbers;
use crate::exec::scope::{
    graphs_view, resolved, NamedGraph, NamedGraphView, ScanScope, ScopeView,
};
use crate::plan::passes::bgp_vars;
use crate::text::Text;
use vstd::prelude::*;

verus! {

/// May a batch hold solutions of patterns? Each column is a variable of the
/// patterns, and every row binds every variable.
pub open spec fn binds(patterns: Seq<PatternView>, b: BatchView) -> bool {
    &&& b.wf()
    &&& b.schema.no_duplicates()
    &&& forall|i: int| 0 <= i < b.schema.len() ==> bgp_vars(patterns).contains(#[trigger] b.schema[i])
    &&& forall|k: int, v: Text|
        #![trigger bound_in(b.schema, b.rows[k], v)]
        0 <= k < b.rows.len() && bgp_vars(patterns).contains(v) ==> bound_in(b.schema, b.rows[k], v)
}

/// Is each graph bound to its own name?
pub open spec fn bound_to_their_names(d: Dict, graphs: Seq<NamedGraphView>) -> bool {
    forall|i: int|
        0 <= i < graphs.len() ==> slot_term(d, (#[trigger] graphs[i]).binding) == Some(
            TermView::Iri(graphs[i].iri),
        )
}

/// A store that can be queried. Ids are the identity of the terms the store
/// holds: two slots with ids are equal when the ids are.
pub trait Executor {
    /// How the store represents numbers.
    type N: Numbers;

    /// The terms of the dictionary.
    open spec fn dict(&self) -> Dict {
        arbitrary()
    }

    /// May a scan of the patterns under the scope return the batch?
    open spec fn scans(&self, patterns: Seq<PatternView>, scope: ScopeView, out: BatchView) -> bool {
        arbitrary()
    }

    /// May the graphs of a dataset be enumerated as these?
    open spec fn enumerates(&self, dataset: DatasetView, out: Seq<NamedGraphView>) -> bool {
        arbitrary()
    }

    /// The estimated number of rows of a scan.
    open spec fn estimate(&self, patterns: Seq<PatternView>) -> Option<u64> {
        arbitrary()
    }

    /// Does no operation of the store fail, on a scope that names graphs?
    open spec fn reliable(&self) -> bool {
        arbitrary()
    }

    /// Does the dictionary hand out the term of an id?
    open spec fn knows(&self, id: u64) -> bool {
        arbitrary()
    }

    fn decode_term(&self, id: u64) -> (r: Result<Term, SparqlError>)
        ensures
            r matches Ok(t) ==> t@ == self.dict()[id],
            r is Ok == self.knows(id),
            self.reliable() ==> r is Ok,
    ;

    /// The plain number of a term of the dictionary.
    fn decode_numeric(&self, id: u64) -> (r: Result<
        Option<<Self::N as Numbers>::Num>,
        SparqlError,
    >)
        ensures
            r matches Ok(n) ==> n == number_of::<Self::N>(self.dict()[id]),
            r is Ok == self.knows(id),
            self.reliable() ==> r is Ok,
    ;

    /// The solutions of a basic graph pattern.
    fn scan_bgp_ids(&self, patterns: &Vec<TriplePattern>, scope: &ScanScope<'_>) -> (r: Result<
        Batch,
        SparqlError,
    >)
        ensures
            r matches Ok(b) ==> binds(patterns_view(patterns@), b@) && self.scans(
                patterns_view(patterns@),
                scope@,
                b@,
            ),
            self.reliable() && !(resolved(scope@) is UnboundGraphVar)
                ==> r is Ok,
    ;

    /// The number of solutions of a basic graph pattern, where the store can
    /// tell without listing them.
    fn count_bgp(&self, patterns: &Vec<TriplePattern>, scope: &ScanScope<'_>) -> (r: Result<
        Option<u64>,
        SparqlError,
    >)
        ensures
            r matches Ok(Some(n)) ==> exists|b: BatchView|
                #![trigger self.scans(patterns_view(patterns@), scope@, b)]
                binds(patterns_view(patterns@), b) && self.scans(patterns_view(patterns@), scope@, b)
                    && b.rows.len() == n,
            self.reliable() && !(resolved(scope@) is UnboundGraphVar)
                ==> r is Ok,
    ;

    /// The graphs `GRAPH ?g` ranges over.
    fn named_graphs(&self, dataset: &DatasetSpec) -> (r: Result<Vec<NamedGraph>, SparqlError>)
        ensures
            r matches Ok(g) ==> bound_to_their_names(self.dict(), graphs_view(g@)) && self.enumerates(
                dataset@,
                graphs_view(g@),
            ),
            self.reliable() ==> r is Ok,
    ;

    /// The estimated number of solutions of a basic graph pattern.
    fn cardinality_estimate(&self, patterns: &Vec<TriplePattern>) -> (r: Option<u64>)
        ensures
            r == self.estimate(patterns_view(patterns@)),
    ;
}

}
