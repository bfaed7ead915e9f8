//! Materialized rule entailment: the store holds the closure already.

use crate::regime::EntailmentRegime;
use crate::text::Text;
use vstd::prelude::*;

verus! {

#[derive(Debug, Clone, Copy)]
pub struct MaterializedOwlRlRegime;

impl EntailmentRegime for MaterializedOwlRlRegime {
    open spec fn identifier(&self) -> Text {
        "http://www.w3.org/ns/entailment/OWL-RL"@
    }

    fn name(&self) -> (r: &'static str) {
        "http://www.w3.org/ns/entailment/OWL-RL"
    }
}

}
