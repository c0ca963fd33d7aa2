//! Responses as plain values: a status code, an optional content type and
//! a body.  The surrounding binary turns them into transport-level
//! responses; streaming a file's bytes is the one response it builds
//! itself.

use vstd::prelude::*;

verus! {

/// One response, ready for the transport layer.
#[derive(Debug)]
pub struct Reply {
    pub status: u16,
    pub content_type: Option<String>,
    pub body: String,
}

/// A not-found response.
pub open spec fn is_not_found(r: Reply) -> bool {
    r.status == 404 && r.content_type is None && r.body@ == "File not found"@
}

/// A not-implemented response.
pub open spec fn is_not_implemented(r: Reply) -> bool {
    r.status == 501 && r.content_type is None && r.body@ == "not yet implemented"@
}

/// An internal-error response carrying the given message.
pub open spec fn is_server_error(r: Reply, msg: Seq<char>) -> bool {
    r.status == 500 && r.content_type is None && r.body@ == msg
}

/// A not-acceptable response.
pub open spec fn is_not_acceptable(r: Reply) -> bool {
    r.status == 406 && r.content_type is None && r.body@ == "Requested format can not be provided"@
}

/// A method-not-allowed response.
pub open spec fn is_method_not_allowed(r: Reply) -> bool {
    r.status == 405 && r.content_type is None && r.body@ == "Only get requests are possible"@
}

/// A successful HTML response with the given body.
pub open spec fn is_html_reply(r: Reply, body: Seq<char>) -> bool {
    &&& r.status == 200
    &&& r.content_type matches Some(ct) && ct@ == "text/html"@
    &&& r.body@ == body
}

/// The response for a path no root holds.
pub fn not_found() -> (r: Reply)
    ensures
        is_not_found(r),
{
    Reply { status: 404, content_type: None, body: String::from_str("File not found") }
}

/// The response for a request kind the server does not serve yet.
pub fn not_implemented() -> (r: Reply)
    ensures
        is_not_implemented(r),
{
    Reply { status: 501, content_type: None, body: String::from_str("not yet implemented") }
}

/// The response for an upstream failure; the message says no more than
/// the caller chose to disclose.
pub fn server_error(msg: &str) -> (r: Reply)
    ensures
        is_server_error(r, msg@),
{
    Reply { status: 500, content_type: None, body: msg.to_owned() }
}

/// The response when no requested format can be provided.
pub fn not_acceptable() -> (r: Reply)
    ensures
        is_not_acceptable(r),
{
    Reply {
        status: 406,
        content_type: None,
        body: String::from_str("Requested format can not be provided"),
    }
}

/// The response for a method other than the ones served.
pub fn method_not_allowed() -> (r: Reply)
    ensures
        is_method_not_allowed(r),
{
    Reply { status: 405, content_type: None, body: String::from_str("Only get requests are possible") }
}

/// A successful response with a plain body and no content type.
pub open spec fn is_plain_ok(r: Reply, body: Seq<char>) -> bool {
    r.status == 200 && r.content_type is None && r.body@ == body
}

/// A successful response around the given body, the content type left to
/// the client.
pub fn plain_ok(msg: &str) -> (r: Reply)
    ensures
        is_plain_ok(r, msg@),
{
    Reply { status: 200, content_type: None, body: msg.to_owned() }
}

/// A successful HTML response around the given body.
pub fn send_html(contents: String) -> (r: Reply)
    ensures
        is_html_reply(r, contents@),
{
    Reply { status: 200, content_type: Some(String::from_str("text/html")), body: contents }
}

} // verus!
