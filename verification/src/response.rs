//! Responses, and the failures that are turned into them.

use crate::request::{lookup, find, pairs, Method};
use vstd::prelude::*;
use vstd::string::*;
use vstd::utf8::encode_utf8;

verus! {

/// The status of a response to a request that no registered path matches.
pub const NOT_FOUND: u16 = 404;

/// The status of a response to a request whose path is registered, but not
/// with the request's method.
pub const METHOD_NOT_ALLOWED: u16 = 405;

/// The status of a response to a malformed request.
pub const BAD_REQUEST: u16 = 400;

/// The status of a response to a request whose handler failed.
pub const INTERNAL_SERVER_ERROR: u16 = 500;

/// A response: status, headers and body.
#[derive(Debug)]
pub struct Response {
    status: u16,
    headers: Vec<(String, String)>,
    body: Vec<u8>,
}

/// The mathematical value of a [`Response`].
pub struct ResponseView {
    pub status: u16,
    pub headers: Seq<(Seq<char>, Seq<char>)>,
    pub body: Seq<u8>,
}

impl View for Response {
    type V = ResponseView;

    closed spec fn view(&self) -> ResponseView {
        ResponseView { status: self.status, headers: pairs(self.headers@), body: self.body@ }
    }
}

/// The value of an `allow` header that lists `methods`: their tokens in
/// order, with a comma and a space between neighbours.
pub open spec fn allow_value(methods: Seq<Method>) -> Seq<char>
    decreases methods.len(),
{
    if methods.len() == 0 {
        Seq::empty()
    } else if methods.len() == 1 {
        methods[0].name_spec()
    } else {
        allow_value(methods.drop_last()) + ", "@ + methods.last().name_spec()
    }
}

/// The response to a request that no registered path matches.
pub open spec fn not_found() -> ResponseView {
    ResponseView { status: NOT_FOUND, headers: Seq::empty(), body: Seq::empty() }
}

/// The response to a request whose path is registered with `allowed`, none
/// of them the request's method.
pub open spec fn method_not_allowed(allowed: Seq<Method>) -> ResponseView {
    ResponseView {
        status: METHOD_NOT_ALLOWED,
        headers: seq![("allow"@, allow_value(allowed))],
        body: Seq::empty(),
    }
}

impl Response {
    /// A response with `status`, no headers and an empty body.
    pub fn new(status: u16) -> (resp: Response)
        ensures
            resp@ == (ResponseView { status, headers: Seq::empty(), body: Seq::empty() }),
    {
        let resp = Response { status, headers: Vec::new(), body: Vec::new() };
        assert(pairs(resp.headers@) == Seq::<(Seq<char>, Seq<char>)>::empty());
        resp
    }

    /// The response with `status` in place of its status.
    pub fn with_status(self, status: u16) -> (resp: Response)
        ensures
            resp@ == (ResponseView { status, ..self@ }),
    {
        let mut resp = self;
        resp.status = status;
        resp
    }

    /// The response with one more header at the end.
    pub fn with_header(self, name: &str, value: &str) -> (resp: Response)
        ensures
            resp@ == (ResponseView { headers: self@.headers.push((name@, value@)), ..self@ }),
    {
        let mut resp = self;
        let ghost before = pairs(resp.headers@);
        resp.headers.push((name.to_owned(), value.to_owned()));
        assert(pairs(resp.headers@) == before.push((name@, value@)));
        resp
    }

    /// The response with `body` in place of its body.
    pub fn with_body(self, body: Vec<u8>) -> (resp: Response)
        ensures
            resp@ == (ResponseView { body: body@, ..self@ }),
    {
        let mut resp = self;
        resp.body = body;
        resp
    }

    /// The response to a request that no registered path matches.
    pub fn not_found() -> (resp: Response)
        ensures
            resp@ == not_found(),
    {
        Response::new(NOT_FOUND)
    }

    /// The response to a request whose path is registered with `allowed`,
    /// none of them the request's method.
    pub fn method_not_allowed(allowed: &Vec<Method>) -> (resp: Response)
        ensures
            resp@ == method_not_allowed(allowed@),
    {
        let mut value = String::new();
        let mut i: usize = 0;
        while i < allowed.len()
            invariant
                i <= allowed.len(),
                value@ == allow_value(allowed@.take(i as int)),
            decreases allowed.len() - i,
        {
            let ghost done = allowed@.take(i as int);
            let ghost next = allowed@.take(i + 1);
            assert(next.drop_last() == done);
            assert(next.last() == allowed@[i as int]);
            if i > 0 {
                value.append(", ");
            } else {
                assert(value@ + allowed@[0].name_spec() == allowed@[0].name_spec());
            }
            value.append(allowed[i].name());
            i = i + 1;
        }
        assert(allowed@.take(allowed.len() as int) == allowed@);
        Response::new(METHOD_NOT_ALLOWED).with_header("allow", value.as_str())
    }

    /// The response's status.
    pub fn status(&self) -> (s: u16)
        ensures
            s == self@.status,
    {
        self.status
    }

    /// The response's body.
    pub fn body(&self) -> (b: &Vec<u8>)
        ensures
            b@ == self@.body,
    {
        &self.body
    }

    /// The headers, in the order in which they were added.
    pub fn headers(&self) -> (h: &Vec<(String, String)>)
        ensures
            pairs(h@) == self@.headers,
    {
        &self.headers
    }

    /// The value of the first header named `name`.
    pub fn header(&self, name: &str) -> (value: Option<&String>)
        ensures
            match value {
                Some(v) => lookup(self@.headers, name@) == Some(v@),
                None => lookup(self@.headers, name@) is None,
            },
    {
        find(&self.headers, name)
    }
}

/// Why a handler gave no response: a status and a reason.
#[derive(Debug)]
pub struct Error {
    status: u16,
    reason: String,
}

/// The mathematical value of an [`Error`].
pub struct ErrorView {
    pub status: u16,
    pub reason: Seq<char>,
}

impl View for Error {
    type V = ErrorView;

    closed spec fn view(&self) -> ErrorView {
        ErrorView { status: self.status, reason: self.reason@ }
    }
}

impl ErrorView {
    /// The request was at fault: the status is of the 4xx class.
    pub open spec fn blames_request(self) -> bool {
        400 <= self.status < 500
    }

    /// The response that stands for the failure. A failure of the 4xx class
    /// keeps its status and tells its reason. Any other is reported without
    /// its reason: under its own status if that is of the 5xx class, else
    /// as an internal server error.
    pub open spec fn response(self) -> ResponseView {
        if self.blames_request() {
            ResponseView {
                status: self.status,
                headers: Seq::empty(),
                body: encode_utf8(self.reason),
            }
        } else if 500 <= self.status < 600 {
            ResponseView { status: self.status, headers: Seq::empty(), body: Seq::empty() }
        } else {
            ResponseView { status: INTERNAL_SERVER_ERROR, headers: Seq::empty(), body: Seq::empty() }
        }
    }
}

impl Error {
    /// A failure with `status` and `reason`.
    pub fn new(status: u16, reason: &str) -> (err: Error)
        ensures
            err@ == (ErrorView { status, reason: reason@ }),
    {
        Error { status, reason: reason.to_owned() }
    }

    /// A malformed request.
    pub fn bad_request(reason: &str) -> (err: Error)
        ensures
            err@ == (ErrorView { status: BAD_REQUEST, reason: reason@ }),
    {
        Error::new(BAD_REQUEST, reason)
    }

    /// An unexpected failure of the handler.
    pub fn internal(reason: &str) -> (err: Error)
        ensures
            err@ == (ErrorView { status: INTERNAL_SERVER_ERROR, reason: reason@ }),
    {
        Error::new(INTERNAL_SERVER_ERROR, reason)
    }

    /// The status that the failure asks for.
    pub fn status(&self) -> (s: u16)
        ensures
            s == self@.status,
    {
        self.status
    }

    /// Why the handler failed.
    pub fn reason(&self) -> (r: &str)
        ensures
            r@ == self@.reason,
    {
        self.reason.as_str()
    }

    /// The response that stands for the failure.
    pub fn as_response(&self) -> (resp: Response)
        ensures
            resp@ == self@.response(),
    {
        if 400 <= self.status && self.status < 500 {
            let body = self.reason.as_str().as_bytes_vec();
            Response::new(self.status).with_body(body)
        } else if 500 <= self.status && self.status < 600 {
            Response::new(self.status)
        } else {
            Response::new(INTERNAL_SERVER_ERROR)
        }
    }
}

/// Turns what a handler gave into a response: a failure becomes the
/// response that stands for it, so that no failure of a handler ends the
/// connection.
pub open spec fn recovered(outcome: Result<ResponseView, ErrorView>) -> ResponseView {
    match outcome {
        Ok(resp) => resp,
        Err(err) => err.response(),
    }
}

/// Turns what a handler gave into a response.
pub fn map_to_response(outcome: Result<Response, Error>) -> (resp: Response)
    ensures
        resp@ == recovered(
            match outcome {
                Ok(r) => Ok(r@),
                Err(e) => Err(e@),
            },
        ),
{
    match outcome {
        Ok(resp) => resp,
        Err(err) => err.as_response(),
    }
}

} // verus!
