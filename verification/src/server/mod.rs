//! What an HTTP server for the library decides: which request is meant, what is
//! refused, and what is answered. Sockets and threads are left to the server.

pub mod form;
pub mod graph_store;
pub mod laws;
pub mod query;
pub mod request_id;
pub mod update;

use crate::text::{decimal, decimal_text, same_text};
use vstd::prelude::*;
use vstd::string::*;

verus! {

/// The header of every answer of a store that is known to be inconsistent.
pub const INCONSISTENT_HEADER: &'static str = "x-horndb-inconsistent";

/// How many queries run at once where the number of processors is not known.
pub const DEFAULT_MAX_CONCURRENT_QUERIES: usize = 8;

/// What a request asks of the server, as far as it is counted.
#[derive(Debug, Clone, Copy, PartialEq, Eq, Structural)]
pub enum Endpoint {
    Query,
    Update,
    Metrics,
}

/// The endpoint of a path.
pub fn endpoint_of(path: &str) -> (r: Option<Endpoint>)
    ensures
        match r {
            Some(Endpoint::Query) => path@ == "/query"@,
            Some(Endpoint::Update) => path@ == "/update"@,
            Some(Endpoint::Metrics) => path@ == "/metrics"@,
            None => path@ != "/query"@ && path@ != "/update"@ && path@ != "/metrics"@,
        },
{
    if same_text(path, "/query") {
        Some(Endpoint::Query)
    } else if same_text(path, "/update") {
        Some(Endpoint::Update)
    } else if same_text(path, "/metrics") {
        Some(Endpoint::Metrics)
    } else {
        None
    }
}

/// How many queries run at once: one at least, or the server would stand still.
pub fn query_slots(max_concurrent_queries: usize) -> (r: usize)
    ensures
        r == if max_concurrent_queries == 0 {
            1
        } else {
            max_concurrent_queries
        },
{
    if max_concurrent_queries == 0 {
        1
    } else {
        max_concurrent_queries
    }
}

/// What a client that finds no slot is told: to come back after this many
/// seconds, one at least.
pub fn retry_after(queue_seconds: u64) -> (r: String)
    ensures
        r@ == decimal(
            if queue_seconds == 0 {
                1
            } else {
                queue_seconds as nat
            },
        ),
{
    if queue_seconds == 0 {
        decimal_text(1)
    } else {
        decimal_text(queue_seconds)
    }
}

/// The status and text that say whether the store is loaded.
pub fn readiness(ready: bool) -> (r: (u16, &'static str))
    ensures
        ready ==> r.0 == 200 && r.1@ == "ready"@,
        !ready ==> r.0 == 503 && r.1@ == "loading"@,
{
    if ready {
        (200, "ready")
    } else {
        (503, "loading")
    }
}

/// An answer that turns a client away.
pub struct Shed {
    pub status: u16,
    /// After how many seconds to come back.
    pub retry_after: &'static str,
    pub text: &'static str,
}

/// Turns a request away while the store is loading: it must not be answered
/// from part of the data.
pub fn shed_while_loading(ready: bool) -> (r: Option<Shed>)
    ensures
        ready ==> r is None,
        !ready ==> r is Some && r->0.status == 503 && r->0.retry_after@ == "1"@ && r->0.text@
            == "store is still loading\n"@,
{
    if ready {
        None
    } else {
        Some(Shed { status: 503, retry_after: "1", text: "store is still loading\n" })
    }
}

}
