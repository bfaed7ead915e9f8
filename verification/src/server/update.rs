//! Answering updates.

use crate::error::SparqlError;
use crate::exec::literal::opt_text;
use crate::feed::FeedPosition;
use vstd::prelude::*;
use vstd::string::*;

verus! {

/// What a client is told that sends one header of a feed position alone.
pub const UNPAIRED_FEED_HEADERS: &'static str =
    "X-HornDB-Feed-Id and X-HornDB-Feed-Position must be given together";

/// The feed position of a request, from its two headers. They come together or
/// not at all.
pub fn feed_position_from_headers(id: Option<String>, position: Option<String>) -> (r: Result<
    Option<FeedPosition>,
    String,
>)
    ensures
        match (opt_text(id), opt_text(position)) {
            (Some(i), Some(p)) => r is Ok && r->Ok_0 is Some && r->Ok_0->0.id@ == i
                && r->Ok_0->0.position@ == p,
            (None, None) => r is Ok && r->Ok_0 is None,
            _ => r is Err && r->Err_0@ == UNPAIRED_FEED_HEADERS@,
        },
{
    match (id, position) {
        (Some(id), Some(position)) => Ok(Some(FeedPosition { id, position })),
        (None, None) => Ok(None),
        _ => Err(UNPAIRED_FEED_HEADERS.to_owned()),
    }
}

/// The status of an update. One of another feed is in conflict with the store;
/// any other error is the request's.
pub fn update_status(r: &Result<(), SparqlError>) -> (s: u16)
    ensures
        s == match *r {
            Ok(_) => 204u16,
            Err(SparqlError::FeedIdMismatch { .. }) => 409u16,
            Err(_) => 400u16,
        },
{
    match r {
        Ok(_) => 204,
        Err(SparqlError::FeedIdMismatch { .. }) => 409,
        Err(_) => 400,
    }
}

}
