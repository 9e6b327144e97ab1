//! The request-handling core of a small HTTP/1.1 server: a parser from raw
//! request text to a structured request, a serializer from a structured
//! response to wire text, per-method route tries with a dispatcher, and route
//! groups that register under a shared prefix.
use vstd::prelude::*;

pub mod handler;
pub mod request;
pub mod response;
pub mod router;
pub mod server;
pub mod text;

verus! {

} // verus!
