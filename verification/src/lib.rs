pub mod algebra;
pub mod collections;
pub mod error;
pub mod exec;
pub mod feed;
pub mod parser;
pub mod percent;
pub mod plan;
pub mod reasoning;
pub mod regime;
pub mod results;
pub mod server;
pub mod text;
pub mod update;

use crate::text::same_text;
use vstd::prelude::*;
use vstd::string::*;

verus! {

/// What the default graph is when a query has no dataset clause. Reserved
/// graphs are left out either way.
#[derive(Debug, Clone, Copy, PartialEq, Eq, Structural)]
pub enum DefaultGraphMode {
    /// The union of every graph that is not reserved.
    Union,
    /// The store's own default graph alone.
    Strict,
}

impl Default for DefaultGraphMode {
    fn default() -> (r: DefaultGraphMode)
        ensures
            r == DefaultGraphMode::Union,
    {
        DefaultGraphMode::Union
    }
}

impl DefaultGraphMode {
    /// The mode of the given name: `union` or `strict`, in lower case.
    pub fn parse(s: &str) -> (r: Option<DefaultGraphMode>)
        ensures
            match r {
                Some(DefaultGraphMode::Union) => s@ == "union"@,
                Some(DefaultGraphMode::Strict) => s@ == "strict"@,
                None => s@ != "union"@ && s@ != "strict"@,
            },
    {
        if same_text(s, "union") {
            Some(DefaultGraphMode::Union)
        } else if same_text(s, "strict") {
            Some(DefaultGraphMode::Strict)
        } else {
            None
        }
    }
}

/// How queries are read. The settings hold for one request, so two requests
/// may differ.
#[derive(Debug, Clone, Copy, PartialEq, Eq, Structural)]
pub struct SparqlConfig {
    /// Are triple terms allowed in queries?
    pub rdf12: bool,
    /// What the default graph is when a query has no dataset clause.
    pub default_graph: DefaultGraphMode,
}

impl Default for SparqlConfig {
    fn default() -> (r: SparqlConfig)
        ensures
            r == (SparqlConfig { rdf12: false, default_graph: DefaultGraphMode::Union }),
    {
        SparqlConfig { rdf12: false, default_graph: DefaultGraphMode::Union }
    }
}

impl SparqlConfig {
    /// The default settings, with triple terms allowed.
    pub fn rdf12() -> (r: SparqlConfig)
        ensures
            r == (SparqlConfig { rdf12: true, default_graph: DefaultGraphMode::Union }),
    {
        SparqlConfig { rdf12: true, default_graph: DefaultGraphMode::Union }
    }
}

}
