//! The errors the library reports.

use crate::text::Text;
use vstd::prelude::*;

verus! {

#[derive(Debug, PartialEq, Eq)]
pub enum SparqlError {
    Parse(String),
    UnsupportedAlgebra(String),
    Planner(String),
    Executor(String),
    /// A feed position was offered under another feed id than the slot's.
    FeedIdMismatch { slot: String, request: String },
    /// The query's deadline passed.
    QueryTimeout,
    /// The result held more rows than the query was allowed.
    ResultRowLimit(u64),
}

#[verifier::ext_equal]
pub enum ErrorView {
    Parse(Text),
    UnsupportedAlgebra(Text),
    Planner(Text),
    Executor(Text),
    FeedIdMismatch { slot: Text, request: Text },
    QueryTimeout,
    ResultRowLimit(u64),
}

impl SparqlError {
    pub open spec fn view(&self) -> ErrorView {
        match *self {
            SparqlError::Parse(s) => ErrorView::Parse(s@),
            SparqlError::UnsupportedAlgebra(s) => ErrorView::UnsupportedAlgebra(s@),
            SparqlError::Planner(s) => ErrorView::Planner(s@),
            SparqlError::Executor(s) => ErrorView::Executor(s@),
            SparqlError::FeedIdMismatch { slot, request } => ErrorView::FeedIdMismatch {
                slot: slot@,
                request: request@,
            },
            SparqlError::QueryTimeout => ErrorView::QueryTimeout,
            SparqlError::ResultRowLimit(n) => ErrorView::ResultRowLimit(n),
        }
    }
}

impl Clone for SparqlError {
    fn clone(&self) -> (r: SparqlError)
        ensures
            r@ == self@,
    {
        match self {
            SparqlError::Parse(s) => SparqlError::Parse(s.clone()),
            SparqlError::UnsupportedAlgebra(s) => SparqlError::UnsupportedAlgebra(s.clone()),
            SparqlError::Planner(s) => SparqlError::Planner(s.clone()),
            SparqlError::Executor(s) => SparqlError::Executor(s.clone()),
            SparqlError::FeedIdMismatch { slot, request } => SparqlError::FeedIdMismatch {
                slot: slot.clone(),
                request: request.clone(),
            },
            SparqlError::QueryTimeout => SparqlError::QueryTimeout,
            SparqlError::ResultRowLimit(n) => SparqlError::ResultRowLimit(*n),
        }
    }
}

}
