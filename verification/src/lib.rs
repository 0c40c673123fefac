//! An HTTP search front end, verified where it decides: the query-string
//! binding for the search route (required `query`, optional `limit` with a
//! default of 30), the JSON response body with its proved round trip, and
//! the reply each route owes.  The transport (listener, routing, logging)
//! and the index-backed engine live outside the library and hand it plain
//! values.

pub mod binding_laws;
pub mod json;
pub mod query;
pub mod reply;
pub mod round_trip;
