use std::sync::atomic::{AtomicUsize, Ordering};

use poem::endpoint::{Endpoint, Handler, MapToResponse};
use poem::middleware::{Middleware, Stack, Wrapped};
use poem::request::{Method, Request};
use poem::response::{Error, Response};

/// Answers with a fixed text.
struct Text(&'static str);

impl Endpoint for Text {
    fn call(&self, _req: Request) -> Response {
        Response::new(200).with_body(self.0.as_bytes().to_vec())
    }
}

/// Answers with the request's bag, written as `name=value` pairs.
struct Bag;

impl Endpoint for Bag {
    fn call(&self, req: Request) -> Response {
        let text: Vec<String> =
            req.params().iter().map(|(name, value)| format!("{}={}", name, value)).collect();
        Response::new(200).with_body(text.join("&").into_bytes())
    }
}

/// Counts its calls.
struct Counted<'a>(&'a AtomicUsize);

impl Endpoint for Counted<'_> {
    fn call(&self, _req: Request) -> Response {
        self.0.fetch_add(1, Ordering::SeqCst);
        Response::new(200).with_body(b"inside".to_vec())
    }
}

/// Puts text before and behind the body.
struct Around(&'static str, &'static str);

impl Middleware for Around {
    fn before(&self, req: Request) -> Result<Request, Response> {
        Ok(req)
    }

    fn after(&self, resp: Response) -> Response {
        let mut body = self.0.as_bytes().to_vec();
        body.extend_from_slice(resp.body());
        body.extend_from_slice(self.1.as_bytes());
        resp.with_body(body)
    }
}

/// Leaves a mark in the request's bag on the way in.
struct Mark(&'static str);

impl Middleware for Mark {
    fn before(&self, req: Request) -> Result<Request, Response> {
        Ok(req.bind(vec![("mark".to_string(), self.0.to_string())]))
    }

    fn after(&self, resp: Response) -> Response {
        resp
    }
}

/// Lets a request pass only if it carries a header.
struct Gate(&'static str);

impl Middleware for Gate {
    fn before(&self, req: Request) -> Result<Request, Response> {
        if req.header(self.0).is_some() {
            Ok(req)
        } else {
            Err(Response::new(401).with_body(b"denied".to_vec()))
        }
    }

    fn after(&self, resp: Response) -> Response {
        resp.with_header("gate", "passed")
    }
}

fn text(resp: &Response) -> String {
    String::from_utf8(resp.body().clone()).unwrap()
}

fn request() -> Request {
    Request::new(Method::Get, "/")
}

#[test]
fn a_wrapper_puts_its_text_around_what_the_handler_gives() {
    let wrapped = Wrapped::new(Around("[pre]", "[post]"), Text("hello"));
    let resp = wrapped.call(request());
    assert_eq!(resp.status(), 200);
    assert_eq!(text(&resp), "[pre]hello[post]");
    let wrapped = Wrapped::new(Around("[pre]", "[post]"), Text(""));
    assert_eq!(text(&wrapped.call(request())), "[pre][post]");
    let wrapped = Wrapped::new(Around("[pre]", "[post]"), Bag);
    let resp = wrapped.call(request().bind(vec![("a".to_string(), "1".to_string())]));
    assert_eq!(text(&resp), "[pre]a=1[post]");
}

#[test]
fn the_outer_layer_works_last_on_the_way_out() {
    let inner = Wrapped::new(Around("<i>", "</i>"), Text("x"));
    let outer = Wrapped::new(Around("<o>", "</o>"), inner);
    assert_eq!(text(&outer.call(request())), "<o><i>x</i></o>");
}

#[test]
fn the_outer_layer_works_first_on_the_way_in() {
    let inner = Wrapped::new(Mark("inner"), Bag);
    let outer = Wrapped::new(Mark("outer"), inner);
    assert_eq!(text(&outer.call(request())), "mark=outer&mark=inner");
}

#[test]
fn a_layer_that_answers_itself_keeps_the_endpoint_from_being_called() {
    let calls = AtomicUsize::new(0);
    let wrapped = Wrapped::new(Gate("authorization"), Counted(&calls));
    let resp = wrapped.call(request());
    assert_eq!(resp.status(), 401);
    assert_eq!(text(&resp), "denied");
    assert_eq!(resp.header("gate"), None);
    assert_eq!(calls.load(Ordering::SeqCst), 0);
    let resp = wrapped.call(request().with_header("authorization", "token"));
    assert_eq!(resp.status(), 200);
    assert_eq!(text(&resp), "inside");
    assert_eq!(resp.header("gate"), Some(&"passed".to_string()));
    assert_eq!(calls.load(Ordering::SeqCst), 1);
}

#[test]
fn an_outer_layer_still_works_on_the_answer_of_an_inner_layer() {
    let calls = AtomicUsize::new(0);
    let inner = Wrapped::new(Gate("authorization"), Counted(&calls));
    let outer = Wrapped::new(Around("[", "]"), inner);
    let resp = outer.call(request());
    assert_eq!(resp.status(), 401);
    assert_eq!(text(&resp), "[denied]");
    assert_eq!(calls.load(Ordering::SeqCst), 0);
}

#[test]
fn an_inner_layer_does_not_work_on_the_answer_of_an_outer_layer() {
    let calls = AtomicUsize::new(0);
    let inner = Wrapped::new(Around("[", "]"), Counted(&calls));
    let outer = Wrapped::new(Gate("authorization"), inner);
    let resp = outer.call(request());
    assert_eq!(resp.status(), 401);
    assert_eq!(text(&resp), "denied");
    assert_eq!(calls.load(Ordering::SeqCst), 0);
}

#[test]
fn layers_put_together_first_work_like_layers_put_on_one_by_one() {
    let one_by_one = Wrapped::new(Around("<o>", "</o>"), Wrapped::new(Around("<i>", "</i>"), Text("x")));
    let together =
        Wrapped::new(Stack { outer: Around("<o>", "</o>"), inner: Around("<i>", "</i>") }, Text("x"));
    assert_eq!(text(&together.call(request())), "<o><i>x</i></o>");
    assert_eq!(text(&together.call(request())), text(&one_by_one.call(request())));

    let one_by_one = Wrapped::new(Mark("outer"), Wrapped::new(Mark("inner"), Bag));
    let together = Wrapped::new(Stack { outer: Mark("outer"), inner: Mark("inner") }, Bag);
    assert_eq!(text(&together.call(request())), "mark=outer&mark=inner");
    assert_eq!(text(&together.call(request())), text(&one_by_one.call(request())));
}

#[test]
fn layers_put_together_keep_the_rules_for_early_answers() {
    let calls = AtomicUsize::new(0);
    let together =
        Wrapped::new(Stack { outer: Around("[", "]"), inner: Gate("authorization") }, Counted(&calls));
    let resp = together.call(request());
    assert_eq!(resp.status(), 401);
    assert_eq!(text(&resp), "[denied]");
    assert_eq!(calls.load(Ordering::SeqCst), 0);
    let resp = together.call(request().with_header("authorization", "token"));
    assert_eq!(text(&resp), "[inside]");
    assert_eq!(calls.load(Ordering::SeqCst), 1);

    let together =
        Wrapped::new(Stack { outer: Gate("authorization"), inner: Around("[", "]") }, Counted(&calls));
    let resp = together.call(request());
    assert_eq!(text(&resp), "denied");
    assert_eq!(calls.load(Ordering::SeqCst), 1);
}

#[test]
fn three_layers_may_be_grouped_either_way() {
    let a = || Around("a(", ")");
    let b = || Around("b(", ")");
    let c = || Around("c(", ")");
    let nested = Wrapped::new(a(), Wrapped::new(b(), Wrapped::new(c(), Text("x"))));
    let left = Wrapped::new(Stack { outer: Stack { outer: a(), inner: b() }, inner: c() }, Text("x"));
    let right = Wrapped::new(Stack { outer: a(), inner: Stack { outer: b(), inner: c() } }, Text("x"));
    assert_eq!(text(&nested.call(request())), "a(b(c(x)))");
    assert_eq!(text(&left.call(request())), "a(b(c(x)))");
    assert_eq!(text(&right.call(request())), "a(b(c(x)))");
}

/// Answers only requests for even numbers.
struct Even;

impl Handler for Even {
    fn handle(&self, req: Request) -> Result<Response, Error> {
        let number: u32 = match req.param("n").map(|n| n.parse()) {
            Some(Ok(number)) => number,
            Some(Err(_)) => return Err(Error::bad_request("n is no number")),
            None => return Err(Error::internal("the route binds no n")),
        };
        if number % 2 == 0 {
            Ok(Response::new(200).with_body(b"even".to_vec()))
        } else {
            Err(Error::new(422, "n is odd"))
        }
    }
}

fn with_n(n: &str) -> Request {
    request().bind(vec![("n".to_string(), n.to_string())])
}

#[test]
fn a_handler_that_succeeds_answers_itself() {
    let endpoint = MapToResponse::new(Even);
    let resp = endpoint.call(with_n("4"));
    assert_eq!(resp.status(), 200);
    assert_eq!(text(&resp), "even");
}

#[test]
fn a_failure_of_a_handler_becomes_a_response() {
    let endpoint = MapToResponse::new(Even);
    let resp = endpoint.call(with_n("3"));
    assert_eq!(resp.status(), 422);
    assert_eq!(text(&resp), "n is odd");
    let resp = endpoint.call(with_n("x"));
    assert_eq!(resp.status(), 400);
    assert_eq!(text(&resp), "n is no number");
    let resp = endpoint.call(request());
    assert_eq!(resp.status(), 500);
    assert_eq!(text(&resp), "");
}

#[test]
fn layers_work_on_the_response_that_stands_for_a_failure() {
    let wrapped = Wrapped::new(Around("[", "]"), MapToResponse::new(Even));
    let resp = wrapped.call(with_n("3"));
    assert_eq!(resp.status(), 422);
    assert_eq!(text(&resp), "[n is odd]");
}
