use vstd::prelude::*;
use vstd::string::*;

verus! {

/// The parts of an inbound request that routing and handlers read.
pub struct Request {
    /// The method token, as sent (`GET`, `POST`, ...).
    pub method: String,
    /// The path of the request's URI, without its query.
    pub path: String,
    /// The query of the request's URI, where it has one.
    pub query: Option<String>,
}

impl Request {
    pub fn new(method: String, path: String, query: Option<String>) -> (r: Request)
        ensures
            r.method == method,
            r.path == path,
            r.query == query,
    {
        Request { method, path, query }
    }

    /// The query, or the empty string where the URI has none.
    pub fn query_or_empty(&self) -> (r: &str)
        ensures
            r@ == match self.query {
                Some(q) => q@,
                None => Seq::<char>::empty(),
            },
    {
        match &self.query {
            Some(q) => q.as_str(),
            None => {
                let e = "";
                proof {
                    reveal_strlit("");
                }
                e
            },
        }
    }
}

/// A response to render: a status code and a body.
#[derive(Clone, Debug, PartialEq, Eq)]
pub struct Response {
    pub status: u16,
    pub body: String,
}

/// What a handler or middleware returns: a response, or the description of
/// an error.
pub type Outcome = Result<Response, String>;

/// The status of a response that no route matched.
pub const NOT_FOUND: u16 = 404;

/// The status of a response rendered from an error.
pub const INTERNAL_SERVER_ERROR: u16 = 500;

/// The status of a plain successful response.
pub const OK: u16 = 200;

impl Response {
    /// A response with status 200 and the given body.
    pub fn ok(body: String) -> (r: Response)
        ensures
            r.status == OK,
            r.body == body,
    {
        Response { status: OK, body }
    }

    /// The response to a request that no route matched: status 404, body
    /// `404`.
    pub fn not_found() -> (r: Response)
        ensures
            r.status == NOT_FOUND,
            r.body@ == "404"@,
    {
        Response { status: NOT_FOUND, body: String::from_str("404") }
    }
}

/// The response to send for an outcome: the response itself, or status 500
/// with the error's description as the body.
pub fn render(outcome: Outcome) -> (r: Response)
    ensures
        match outcome {
            Ok(resp) => r == resp,
            Err(msg) => r.status == INTERNAL_SERVER_ERROR && r.body == msg,
        },
{
    match outcome {
        Ok(resp) => resp,
        Err(msg) => Response { status: INTERNAL_SERVER_ERROR, body: msg },
    }
}

} // verus!
