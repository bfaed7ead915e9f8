//! Simple entailment: no inference.

use crate::regime::EntailmentRegime;
use crate::text::Text;
use vstd::prelude::*;

verus! {

#[derive(Debug, Clone, Copy)]
pub struct SimpleRegime;

impl EntailmentRegime for SimpleRegime {
    open spec fn identifier(&self) -> Text {
        "simple"@
    }

    fn name(&self) -> (r: &'static str) {
        "simple"
    }
}

}
