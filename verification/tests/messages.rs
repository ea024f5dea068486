use poem::request::{find, Method, Request};
use poem::response::{
    map_to_response, Error, Response, BAD_REQUEST, INTERNAL_SERVER_ERROR, METHOD_NOT_ALLOWED,
    NOT_FOUND,
};

fn pair(name: &str, value: &str) -> (String, String) {
    (name.to_string(), value.to_string())
}

#[test]
fn methods_have_their_tokens() {
    assert_eq!(Method::Get.name(), "GET");
    assert_eq!(Method::Post.name(), "POST");
    assert_eq!(Method::Put.name(), "PUT");
    assert_eq!(Method::Delete.name(), "DELETE");
    assert_eq!(Method::Head.name(), "HEAD");
    assert_eq!(Method::Options.name(), "OPTIONS");
    assert_eq!(Method::Connect.name(), "CONNECT");
    assert_eq!(Method::Patch.name(), "PATCH");
    assert_eq!(Method::Trace.name(), "TRACE");
}

#[test]
fn a_new_request_holds_method_and_path_only() {
    let req = Request::new(Method::Get, "/items/42");
    assert_eq!(req.method(), Method::Get);
    assert_eq!(req.path(), "/items/42");
    assert!(req.body().is_empty());
    assert_eq!(req.remote_addr(), "");
    assert!(req.params().is_empty());
    assert_eq!(req.header("host"), None);
    assert_eq!(req.param("id"), None);
}

#[test]
fn a_request_is_built_up_piece_by_piece() {
    let req = Request::new(Method::Post, "/upload")
        .with_header("host", "example.org")
        .with_header("accept", "*/*")
        .with_body(vec![1, 2, 3])
        .with_remote_addr("127.0.0.1:5000")
        .bind(vec![pair("id", "42")])
        .bind(vec![pair("name", "ann"), pair("id", "43")]);
    assert_eq!(req.method(), Method::Post);
    assert_eq!(req.path(), "/upload");
    assert_eq!(req.header("host"), Some(&"example.org".to_string()));
    assert_eq!(req.header("accept"), Some(&"*/*".to_string()));
    assert_eq!(req.header("Host"), None);
    assert_eq!(req.body(), &vec![1, 2, 3]);
    assert_eq!(req.remote_addr(), "127.0.0.1:5000");
    assert_eq!(req.params(), &vec![pair("id", "42"), pair("name", "ann"), pair("id", "43")]);
    assert_eq!(req.param("id"), Some(&"42".to_string()));
    assert_eq!(req.param("name"), Some(&"ann".to_string()));
    assert_eq!(req.param("other"), None);
}

#[test]
fn the_first_pair_of_a_name_is_found() {
    let bag = vec![pair("a", "1"), pair("b", "2"), pair("a", "3")];
    assert_eq!(find(&bag, "a"), Some(&"1".to_string()));
    assert_eq!(find(&bag, "b"), Some(&"2".to_string()));
    assert_eq!(find(&bag, "c"), None);
    assert_eq!(find(&vec![], "a"), None);
}

#[test]
fn a_response_is_built_up_piece_by_piece() {
    let resp = Response::new(201);
    assert_eq!(resp.status(), 201);
    assert!(resp.headers().is_empty());
    assert!(resp.body().is_empty());
    let resp = resp
        .with_header("content-type", "text/plain")
        .with_body(b"made".to_vec())
        .with_header("x-a", "1")
        .with_status(202);
    assert_eq!(resp.status(), 202);
    assert_eq!(resp.headers(), &vec![pair("content-type", "text/plain"), pair("x-a", "1")]);
    assert_eq!(resp.header("x-a"), Some(&"1".to_string()));
    assert_eq!(resp.header("x-b"), None);
    assert_eq!(resp.body().as_slice(), b"made");
}

#[test]
fn not_found_is_bare() {
    let resp = Response::not_found();
    assert_eq!(NOT_FOUND, 404);
    assert_eq!(resp.status(), 404);
    assert!(resp.headers().is_empty());
    assert!(resp.body().is_empty());
}

#[test]
fn a_refusal_lists_the_allowed_methods() {
    assert_eq!(METHOD_NOT_ALLOWED, 405);
    let resp = Response::method_not_allowed(&vec![Method::Get, Method::Post, Method::Delete]);
    assert_eq!(resp.status(), 405);
    assert_eq!(resp.headers(), &vec![pair("allow", "GET, POST, DELETE")]);
    assert!(resp.body().is_empty());
    let resp = Response::method_not_allowed(&vec![Method::Options]);
    assert_eq!(resp.headers(), &vec![pair("allow", "OPTIONS")]);
    let resp = Response::method_not_allowed(&vec![]);
    assert_eq!(resp.headers(), &vec![pair("allow", "")]);
}

#[test]
fn a_failure_holds_status_and_reason() {
    let err = Error::new(418, "teapot");
    assert_eq!(err.status(), 418);
    assert_eq!(err.reason(), "teapot");
    assert_eq!(BAD_REQUEST, 400);
    assert_eq!(Error::bad_request("no").status(), 400);
    assert_eq!(Error::bad_request("no").reason(), "no");
    assert_eq!(INTERNAL_SERVER_ERROR, 500);
    assert_eq!(Error::internal("broken").status(), 500);
    assert_eq!(Error::internal("broken").reason(), "broken");
}

#[test]
fn a_failure_of_the_request_tells_its_reason() {
    for status in [400u16, 404, 422, 499] {
        let resp = Error::new(status, "bad input: \u{fc}").as_response();
        assert_eq!(resp.status(), status);
        assert_eq!(resp.body().as_slice(), "bad input: \u{fc}".as_bytes());
        assert!(resp.headers().is_empty());
    }
}

#[test]
fn a_failure_of_the_handler_keeps_its_reason_to_itself() {
    for status in [500u16, 503, 599] {
        let resp = Error::new(status, "database password rejected").as_response();
        assert_eq!(resp.status(), status);
        assert!(resp.body().is_empty());
        assert!(resp.headers().is_empty());
    }
}

#[test]
fn a_failure_with_any_other_status_is_an_internal_error() {
    for status in [0u16, 200, 302, 399, 600, 65535] {
        let resp = Error::new(status, "odd").as_response();
        assert_eq!(resp.status(), 500);
        assert!(resp.body().is_empty());
    }
}

#[test]
fn a_response_passes_and_a_failure_becomes_one() {
    let resp = map_to_response(Ok(Response::new(204).with_header("x", "y")));
    assert_eq!(resp.status(), 204);
    assert_eq!(resp.headers(), &vec![pair("x", "y")]);
    let resp = map_to_response(Err(Error::bad_request("no id")));
    assert_eq!(resp.status(), 400);
    assert_eq!(resp.body().as_slice(), b"no id");
    let resp = map_to_response(Err(Error::internal("stack trace")));
    assert_eq!(resp.status(), 500);
    assert!(resp.body().is_empty());
}
