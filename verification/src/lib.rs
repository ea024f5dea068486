//! The request-serving core of an HTTP application framework.
//!
//! Requests are dispatched through a tree of endpoints selected by path and
//! method, endpoints are wrapped by middleware in onion layers, and a
//! connection supervisor decides when connections are taken, refused and
//! torn down during a graceful shutdown.
//!
//! Nothing here waits, reads or writes. Whoever owns the connections asks
//! the supervisor what to do and calls the endpoint with each request.

pub mod endpoint;
pub mod middleware;
pub mod path;
pub mod pattern;
pub mod payload;
pub mod request;
pub mod response;
pub mod route;
pub mod server;

pub use endpoint::{Endpoint, Handler, MapToResponse};
pub use middleware::{Middleware, Stack, Wrapped};
pub use payload::{ParsePayload, Payload};
pub use request::{Method, Request};
pub use response::{Error, Response};
pub use route::Route;
pub use server::{Acceptor, Server, Supervisor};
