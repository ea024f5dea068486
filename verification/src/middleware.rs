//! Middleware: endpoints wrapped in layers, like an onion.
//!
//! A layer works on the request before the endpoint inside sees it, and on
//! the response after the endpoint has given it. It may also answer in the
//! endpoint's place, which then is never called.

use crate::endpoint::Endpoint;
use crate::request::Request;
use crate::response::Response;
use vstd::prelude::*;

verus! {

/// One layer around an endpoint.
pub trait Middleware {
    /// Works on the request on its way in: hands it on, changed or not, or
    /// answers in place of the endpoint inside.
    fn before(&self, req: Request) -> Result<Request, Response>;

    /// Works on the response of the endpoint inside on its way out.
    fn after(&self, resp: Response) -> Response;
}

/// An endpoint inside one layer of middleware.
pub struct Wrapped<M, E> {
    pub middleware: M,
    pub inner: E,
}

/// `resp` is what the layer `m` around the endpoint `e` may return to
/// `req`: the layer works on the request first; where it hands a request
/// on, the endpoint answers that request and the layer works on the
/// answer; where it answers itself, that is the response.
pub open spec fn layered<M: Middleware, E: Endpoint>(m: M, e: E, req: Request, resp: Response) -> bool {
    exists|way_in: Result<Request, Response>| #[trigger]
        call_ensures(M::before, (&m, req), way_in) && match way_in {
            Ok(passed) => exists|answer: Response| #[trigger]
                call_ensures(E::call, (&e, passed), answer) && call_ensures(
                    M::after,
                    (&m, answer),
                    resp,
                ),
            Err(early) => resp == early,
        }
}

impl<M: Middleware, E: Endpoint> Wrapped<M, E> {
    /// Puts `inner` inside the layer `middleware`.
    pub fn new(middleware: M, inner: E) -> (wrapped: Wrapped<M, E>)
        ensures
            wrapped.middleware == middleware,
            wrapped.inner == inner,
    {
        Wrapped { middleware, inner }
    }
}

impl<M: Middleware, E: Endpoint> Endpoint for Wrapped<M, E> {
    /// Answers `req` through the layer.
    fn call(&self, req: Request) -> (resp: Response)
        ensures
            layered(self.middleware, self.inner, req, resp),
    {
        match self.middleware.before(req) {
            Ok(passed) => {
                let answer = self.inner.call(passed);
                let resp = self.middleware.after(answer);
                assert(call_ensures(E::call, (&self.inner, passed), answer));
                assert(call_ensures(M::before, (&self.middleware, req), Ok::<Request, Response>(
                    passed,
                )));
                resp
            },
            Err(early) => {
                assert(call_ensures(M::before, (&self.middleware, req), Err::<Request, Response>(
                    early,
                )));
                early
            },
        }
    }
}

/// Two layers as one: `outer` around `inner`.
pub struct Stack<Outer, Inner> {
    pub outer: Outer,
    pub inner: Inner,
}

/// `way_in` is what the layers `outer` around `inner` may make of `req` on
/// its way in. The outer layer works first. The inner layer works on what
/// the outer one hands on; where the inner layer answers itself, the outer
/// layer still works on that answer on its way out.
pub open spec fn stacked_before<Outer: Middleware, Inner: Middleware>(
    outer: Outer,
    inner: Inner,
    req: Request,
    way_in: Result<Request, Response>,
) -> bool {
    exists|first: Result<Request, Response>| #[trigger]
        call_ensures(Outer::before, (&outer, req), first) && match first {
            Ok(passed) => exists|second: Result<Request, Response>| #[trigger]
                call_ensures(Inner::before, (&inner, passed), second) && match second {
                    Ok(r) => way_in == Ok::<Request, Response>(r),
                    Err(early) => way_in matches Err(resp) && call_ensures(
                        Outer::after,
                        (&outer, early),
                        resp,
                    ),
                },
            Err(early) => way_in == Err::<Request, Response>(early),
        }
}

/// `out` is what the layers `outer` around `inner` may make of `resp` on
/// its way out: the inner layer works first, the outer layer last.
pub open spec fn stacked_after<Outer: Middleware, Inner: Middleware>(
    outer: Outer,
    inner: Inner,
    resp: Response,
    out: Response,
) -> bool {
    exists|mid: Response| #[trigger]
        call_ensures(Inner::after, (&inner, resp), mid) && call_ensures(
            Outer::after,
            (&outer, mid),
            out,
        )
}

impl<Outer: Middleware, Inner: Middleware> Middleware for Stack<Outer, Inner> {
    fn before(&self, req: Request) -> (way_in: Result<Request, Response>)
        ensures
            stacked_before(self.outer, self.inner, req, way_in),
    {
        match self.outer.before(req) {
            Ok(passed) => {
                assert(call_ensures(Outer::before, (&self.outer, req), Ok::<Request, Response>(
                    passed,
                )));
                match self.inner.before(passed) {
                    Ok(r) => {
                        assert(call_ensures(
                            Inner::before,
                            (&self.inner, passed),
                            Ok::<Request, Response>(r),
                        ));
                        Ok(r)
                    },
                    Err(early) => {
                        assert(call_ensures(
                            Inner::before,
                            (&self.inner, passed),
                            Err::<Request, Response>(early),
                        ));
                        Err(self.outer.after(early))
                    },
                }
            },
            Err(early) => {
                assert(call_ensures(Outer::before, (&self.outer, req), Err::<Request, Response>(
                    early,
                )));
                Err(early)
            },
        }
    }

    fn after(&self, resp: Response) -> (out: Response)
        ensures
            stacked_after(self.outer, self.inner, resp, out),
    {
        let mid = self.inner.after(resp);
        let out = self.outer.after(mid);
        assert(call_ensures(Inner::after, (&self.inner, resp), mid));
        out
    }
}

/// `resp` is what the endpoint `e` inside the layer `inner` inside the
/// layer `outer` may return to `req`, step by step: on the way in the
/// outer layer works before the inner one, on the way out the inner layer
/// works before the outer one, and a layer that answers itself keeps
/// everything inside it from being called.
pub open spec fn onion<Outer: Middleware, Inner: Middleware, E: Endpoint>(
    outer: Outer,
    inner: Inner,
    e: E,
    req: Request,
    resp: Response,
) -> bool {
    exists|first: Result<Request, Response>| #[trigger]
        call_ensures(Outer::before, (&outer, req), first) && match first {
            Err(early) => resp == early,
            Ok(passed) => exists|second: Result<Request, Response>, mid: Response|
                {
                    &&& #[trigger] call_ensures(Inner::before, (&inner, passed), second)
                    &&& #[trigger] call_ensures(Outer::after, (&outer, mid), resp)
                    &&& match second {
                        Err(early) => mid == early,
                        Ok(r) => exists|answer: Response| #[trigger]
                            call_ensures(E::call, (&e, r), answer) && call_ensures(
                                Inner::after,
                                (&inner, answer),
                                mid,
                            ),
                    }
                },
        }
}

/// Layers work in the order of an onion. Whatever an endpoint wrapped in
/// `inner` and then in `outer` returns is reached outermost first on the
/// way in and outermost last on the way out.
pub proof fn lemma_onion<Outer: Middleware, Inner: Middleware, E: Endpoint>(
    wrapped: Wrapped<Outer, Wrapped<Inner, E>>,
    req: Request,
    resp: Response,
)
    requires
        call_ensures(<Wrapped<Outer, Wrapped<Inner, E>> as Endpoint>::call, (&wrapped, req), resp),
    ensures
        onion(wrapped.middleware, wrapped.inner.middleware, wrapped.inner.inner, req, resp),
{
    let outer = wrapped.middleware;
    let inner = wrapped.inner.middleware;
    let e = wrapped.inner.inner;
    assert(layered(outer, wrapped.inner, req, resp));
    let first = choose|first: Result<Request, Response>| #[trigger]
        call_ensures(Outer::before, (&outer, req), first) && match first {
            Ok(passed) => exists|answer: Response| #[trigger]
                call_ensures(<Wrapped<Inner, E> as Endpoint>::call, (&wrapped.inner, passed), answer)
                    && call_ensures(Outer::after, (&outer, answer), resp),
            Err(early) => resp == early,
        };
    match first {
        Ok(passed) => {
            let mid = choose|answer: Response| #[trigger]
                call_ensures(<Wrapped<Inner, E> as Endpoint>::call, (&wrapped.inner, passed), answer)
                    && call_ensures(Outer::after, (&outer, answer), resp);
            assert(layered(inner, e, passed, mid));
            let second = choose|second: Result<Request, Response>| #[trigger]
                call_ensures(Inner::before, (&inner, passed), second) && match second {
                    Ok(r) => exists|answer: Response| #[trigger]
                        call_ensures(E::call, (&e, r), answer) && call_ensures(
                            Inner::after,
                            (&inner, answer),
                            mid,
                        ),
                    Err(early) => mid == early,
                };
            assert(call_ensures(Inner::before, (&inner, passed), second));
            assert(call_ensures(Outer::after, (&outer, mid), resp));
        },
        Err(early) => {},
    }
}

/// Wrapping is associative. An endpoint wrapped in two layers that were
/// put together first returns what it returns when it is wrapped in the
/// inner layer first and in the outer layer after that.
pub proof fn lemma_wrap_associative<Outer: Middleware, Inner: Middleware, E: Endpoint>(
    wrapped: Wrapped<Stack<Outer, Inner>, E>,
    req: Request,
    resp: Response,
)
    requires
        call_ensures(<Wrapped<Stack<Outer, Inner>, E> as Endpoint>::call, (&wrapped, req), resp),
    ensures
        onion(wrapped.middleware.outer, wrapped.middleware.inner, wrapped.inner, req, resp),
{
    let stack = wrapped.middleware;
    let outer = stack.outer;
    let inner = stack.inner;
    let e = wrapped.inner;
    assert(layered(stack, e, req, resp));
    let way_in = choose|way_in: Result<Request, Response>| #[trigger]
        call_ensures(<Stack<Outer, Inner> as Middleware>::before, (&stack, req), way_in)
            && match way_in {
            Ok(passed) => exists|answer: Response| #[trigger]
                call_ensures(E::call, (&e, passed), answer) && call_ensures(
                    <Stack<Outer, Inner> as Middleware>::after,
                    (&stack, answer),
                    resp,
                ),
            Err(early) => resp == early,
        };
    assert(stacked_before(outer, inner, req, way_in));
    let first = choose|first: Result<Request, Response>| #[trigger]
        call_ensures(Outer::before, (&outer, req), first) && match first {
            Ok(passed) => exists|second: Result<Request, Response>| #[trigger]
                call_ensures(Inner::before, (&inner, passed), second) && match second {
                    Ok(r) => way_in == Ok::<Request, Response>(r),
                    Err(early) => way_in matches Err(resp) && call_ensures(
                        Outer::after,
                        (&outer, early),
                        resp,
                    ),
                },
            Err(early) => way_in == Err::<Request, Response>(early),
        };
    match first {
        Ok(passed) => {
            let second = choose|second: Result<Request, Response>| #[trigger]
                call_ensures(Inner::before, (&inner, passed), second) && match second {
                    Ok(r) => way_in == Ok::<Request, Response>(r),
                    Err(early) => way_in matches Err(resp) && call_ensures(
                        Outer::after,
                        (&outer, early),
                        resp,
                    ),
                };
            match second {
                Ok(r) => {
                    let answer = choose|answer: Response| #[trigger]
                        call_ensures(E::call, (&e, r), answer) && call_ensures(
                            <Stack<Outer, Inner> as Middleware>::after,
                            (&stack, answer),
                            resp,
                        );
                    assert(stacked_after(outer, inner, answer, resp));
                    let mid = choose|mid: Response| #[trigger]
                        call_ensures(Inner::after, (&inner, answer), mid) && call_ensures(
                            Outer::after,
                            (&outer, mid),
                            resp,
                        );
                    assert(call_ensures(Inner::before, (&inner, passed), second));
                    assert(call_ensures(Outer::after, (&outer, mid), resp));
                    assert(call_ensures(E::call, (&e, r), answer));
                },
                Err(early) => {
                    assert(call_ensures(Inner::before, (&inner, passed), second));
                    assert(call_ensures(Outer::after, (&outer, early), resp));
                },
            }
        },
        Err(early) => {},
    }
}

/// A layer that puts text around the body. Where a layer hands every
/// request on as it is, and on the way out puts `pre` before the body and
/// `post` behind it, whatever the endpoint wrapped in it returns to a
/// request has as its body `pre`, then the body of an answer of the
/// endpoint to that request, then `post`.
pub proof fn lemma_wrapper_surrounds<M: Middleware, E: Endpoint>(
    wrapped: Wrapped<M, E>,
    pre: Seq<u8>,
    post: Seq<u8>,
    req: Request,
    resp: Response,
)
    requires
        forall|r: Request, way_in: Result<Request, Response>| #[trigger]
            call_ensures(M::before, (&wrapped.middleware, r), way_in) ==> way_in == Ok::<
                Request,
                Response,
            >(r),
        forall|answer: Response, out: Response| #[trigger]
            call_ensures(M::after, (&wrapped.middleware, answer), out) ==> out@.body == pre
                + answer@.body + post,
        call_ensures(<Wrapped<M, E> as Endpoint>::call, (&wrapped, req), resp),
    ensures
        exists|answer: Response| #[trigger]
            call_ensures(E::call, (&wrapped.inner, req), answer) && resp@.body == pre + answer@.body
                + post,
{
    assert(layered(wrapped.middleware, wrapped.inner, req, resp));
    let way_in = choose|way_in: Result<Request, Response>| #[trigger]
        call_ensures(M::before, (&wrapped.middleware, req), way_in) && match way_in {
            Ok(passed) => exists|answer: Response| #[trigger]
                call_ensures(E::call, (&wrapped.inner, passed), answer) && call_ensures(
                    M::after,
                    (&wrapped.middleware, answer),
                    resp,
                ),
            Err(early) => resp == early,
        };
    assert(way_in == Ok::<Request, Response>(req));
    let answer = choose|answer: Response| #[trigger]
        call_ensures(E::call, (&wrapped.inner, req), answer) && call_ensures(
            M::after,
            (&wrapped.middleware, answer),
            resp,
        );
    assert(call_ensures(E::call, (&wrapped.inner, req), answer));
}

} // verus!
