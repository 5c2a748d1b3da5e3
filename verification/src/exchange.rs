//! Requests, responses, and the handler that answers everything alike.

use std::convert::Infallible;
use vstd::prelude::*;

verus! {

/// A request as a handler sees it.
#[derive(Clone, Debug, PartialEq, Eq)]
pub struct Request {
    pub method: String,
    pub target: String,
    pub headers: Vec<(String, String)>,
    pub body: Vec<u8>,
}

/// A handler's answer: the status code and the body.
#[derive(Clone, Debug, PartialEq, Eq)]
pub struct Response {
    pub status: u16,
    pub body: Vec<u8>,
}

/// Makes a response with `http::Response::new` around the given body and
/// takes it apart again. Believed of `http`: a new response has the status
/// 200, and holds the body that it was given.
#[verifier::external_body]
fn new_http_response(body: Vec<u8>) -> (fresh: (u16, Vec<u8>))
    ensures
        fresh.0 == 200,
        fresh.1@ == body@,
{
    let (head, body) = http::Response::new(body).into_parts();
    (head.status.as_u16(), body)
}

impl Response {
    /// Whether the response reports success with nothing in its body.
    pub open spec fn is_empty_ok(self) -> bool {
        self.status == 200 && self.body@ == Seq::<u8>::empty()
    }
}

/// Answers any request with the status 200 and an empty body, whatever its
/// method, target, headers and body are. It never fails.
pub fn always_200_response(_request: Request) -> (result: Result<Response, Infallible>)
    ensures
        result matches Ok(response) && response.is_empty_ok(),
{
    let (status, body) = new_http_response(Vec::new());
    Ok(Response { status, body })
}

} // verus!
