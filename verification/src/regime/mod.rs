//! Entailment regimes.
//!
//! A regime says what a store must already hold before a query is run over it.
//! Queries are not rewritten for one.

pub mod owl_rl;
pub mod simple;

use crate::regime::simple::SimpleRegime;
use crate::text::Text;
use vstd::prelude::*;

verus! {

pub trait EntailmentRegime {
    /// The identifier of the regime.
    open spec fn identifier(&self) -> Text {
        arbitrary()
    }

    fn name(&self) -> (r: &'static str)
        ensures
            r@ == self.identifier(),
    ;
}

/// The regime a query is run under unless another is chosen: no inference.
pub fn default_regime() -> (r: SimpleRegime)
    ensures
        r.identifier() == "simple"@,
{
    SimpleRegime
}

}
