//! Updates: what a request does to a store, and what it is refused.

pub mod apply;
pub mod hint_laws;
pub mod hints;
pub mod journal;
pub mod laws;
pub mod load;
pub mod request;
pub mod template;
