//! The one capability that handlers, routes and middleware share.

use crate::request::{Request, RequestView};
use crate::response::{map_to_response, Error, Response};
use vstd::prelude::*;

verus! {

/// Something that answers requests. This is the one place where behaviour
/// is added: a handler is an endpoint, and so is a route and an endpoint
/// wrapped in middleware.
pub trait Endpoint {
    /// Answers `req`.
    fn call(&self, req: Request) -> Response;
}

/// `resp` is what `endpoint` may return to a request of the value `req`.
pub open spec fn answers<E: Endpoint>(endpoint: E, req: RequestView, resp: Response) -> bool {
    exists|r: Request| #[trigger] call_ensures(E::call, (&endpoint, r), resp) && r@ == req
}

/// The endpoint answers by the value of the request alone: whatever it may
/// return to two requests of the same value has the same value.
pub open spec fn stateless<E: Endpoint>(endpoint: E) -> bool {
    forall|req: RequestView, first: Response, second: Response|
        #![trigger answers(endpoint, req, first), answers(endpoint, req, second)]
        answers(endpoint, req, first) && answers(endpoint, req, second) ==> first@ == second@
}

/// A handler that may fail.
pub trait Handler {
    /// Answers `req`, or says why not.
    fn handle(&self, req: Request) -> Result<Response, Error>;
}

/// A handler as an endpoint: where the handler fails, the endpoint gives
/// the response that stands for the failure, so that no failure of a
/// handler ends the connection.
pub struct MapToResponse<H> {
    pub handler: H,
}

/// `resp` is what `handler` may make of `req`, with a failure turned into
/// the response that stands for it.
pub open spec fn recovers<H: Handler>(handler: H, req: Request, resp: Response) -> bool {
    exists|outcome: Result<Response, Error>| #[trigger]
        call_ensures(H::handle, (&handler, req), outcome) && match outcome {
            Ok(given) => resp@ == given@,
            Err(failure) => resp@ == failure@.response(),
        }
}

impl<H: Handler> MapToResponse<H> {
    /// Makes `handler` an endpoint.
    pub fn new(handler: H) -> (endpoint: MapToResponse<H>)
        ensures
            endpoint.handler == handler,
    {
        MapToResponse { handler }
    }
}

impl<H: Handler> Endpoint for MapToResponse<H> {
    /// Answers `req` as the handler does, or with the response that stands
    /// for the handler's failure.
    fn call(&self, req: Request) -> (resp: Response)
        ensures
            recovers(self.handler, req, resp),
    {
        let outcome = self.handler.handle(req);
        let ghost witness = outcome;
        let resp = map_to_response(outcome);
        assert(call_ensures(H::handle, (&self.handler, req), witness));
        resp
    }
}

} // verus!
