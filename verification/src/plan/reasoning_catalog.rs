//! A read-only catalog the optimizer asks how much of what a pattern needs is
//! already materialized.

use crate::algebra::TriplePattern;
use vstd::prelude::*;

verus! {

/// How much of what a pattern needs is already materialized in the store.
#[derive(Debug, Clone, Copy, PartialEq, Eq, Structural)]
pub enum ClosureState {
    /// Every inferred triple matching the pattern is in the store.
    Closed,
    /// Some matching inferences are in the store, some are not.
    Partial,
    /// No matching inferences are in the store, or the catalog does not know.
    NotClosed,
}

/// Where inferred triples come from when they are not materialized.
#[derive(Debug, Clone, Copy, PartialEq, Eq, Structural)]
pub enum Resolver {
    CompiledRule,
    GraphblasClosure,
    Crosswalk,
}

/// The ways to answer a pattern that needs reasoning.
#[derive(Debug, Clone, Copy, PartialEq, Eq, Structural)]
pub enum Strategy {
    /// Derive the missing inferences into the store, then scan.
    Materialize,
    /// Rewrite the pattern and answer from asserted triples.
    Rewrite,
    /// Hand the pattern to a specialized operator.
    Delegate(Resolver),
}

/// A cost in rows touched.
#[derive(Debug, Clone, Copy, PartialEq, Eq, Structural)]
pub struct Cost {
    /// Estimated rows touched.
    pub rows: u64,
    /// False when `rows` is a placeholder.
    pub measured: bool,
}

/// The placeholder cost of every answer of the uninformed catalog.
pub const STUB_COST_ROWS: u64 = 1;

/// A read-only reasoning catalog. All methods are cheap lookups.
pub trait ReasoningCatalog {
    /// Do this catalog's answers carry real signal?
    open spec fn informed(&self) -> bool {
        arbitrary()
    }

    fn is_informed(&self) -> (r: bool)
        ensures
            r == self.informed(),
    ;

    fn closure_state(&self, pattern: &TriplePattern) -> (r: ClosureState);

    fn cost(&self, pattern: &TriplePattern, strategy: Strategy) -> (r: Cost);
}

/// The fallback catalog: nothing is known. It claims nothing is closed and
/// prices every strategy the same, so it cannot tip a choice.
pub struct UninformedCatalog;

impl ReasoningCatalog for UninformedCatalog {
    open spec fn informed(&self) -> bool {
        false
    }

    fn is_informed(&self) -> bool {
        false
    }

    /// Claiming a pattern closed wrongly would drop answers; claiming it open
    /// wrongly only costs redundant work.
    fn closure_state(&self, _pattern: &TriplePattern) -> (r: ClosureState)
        ensures
            r == ClosureState::NotClosed,
    {
        ClosureState::NotClosed
    }

    fn cost(&self, _pattern: &TriplePattern, _strategy: Strategy) -> (r: Cost)
        ensures
            r == (Cost { rows: STUB_COST_ROWS, measured: false }),
    {
        Cost { rows: STUB_COST_ROWS, measured: false }
    }
}

}
