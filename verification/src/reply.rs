use vstd::prelude::*;

verus! {

use crate::json::{SearchResult, json_of_search_result, encode_search_result};
use crate::query::BindError;

// ---------------------------------------------------------------------------
// What each route answers.
//
// The transport (listener, routing, headers on the wire) lives outside the
// library; a reply here is the status, whether the body is JSON, and the
// body bytes, which is everything the handlers decide.
// ---------------------------------------------------------------------------

/// A computed HTTP reply.
pub struct HttpReply {
    pub status: u16,
    pub json_body: bool,
    pub body: Vec<u8>,
}

impl HttpReply {
    /// A client error: the request was rejected before any work was done.
    pub open spec fn is_client_error(&self) -> bool {
        400 <= self.status < 500
    }
}

/// The reply to the health-check root: success with an empty body, whatever
/// the state of the rest of the process.
pub fn health_reply() -> (r: HttpReply)
    ensures
        r.status == 200,
        r.body@.len() == 0,
        !r.json_body,
{
    HttpReply { status: 200, json_body: false, body: Vec::new() }
}

/// The reply when the query string does not bind: a client error, issued
/// before the engine is consulted.
pub fn bind_error_reply(e: BindError) -> (r: HttpReply)
    ensures
        r.status == 400,
        r.is_client_error(),
{
    let _ = e;
    HttpReply { status: 400, json_body: false, body: Vec::new() }
}

/// The reply for a completed search: success, with the records serialised
/// as the JSON body, in engine order.
pub fn search_reply(result: &SearchResult) -> (r: HttpReply)
    ensures
        r.status == 200,
        r.json_body,
        r.body@ == json_of_search_result(result@),
{
    let body = encode_search_result(result);
    HttpReply { status: 200, json_body: true, body }
}

/// The reply when the engine itself fails: a server error, never a
/// fabricated empty result.
pub fn engine_error_reply() -> (r: HttpReply)
    ensures
        r.status == 500,
        !(200 <= r.status < 300),
{
    HttpReply { status: 500, json_body: false, body: Vec::new() }
}

} // verus!
