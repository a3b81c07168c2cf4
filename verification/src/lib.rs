//! A minimal, verified HTTP request router.
//!
//! A [`router::Router`] maps a route key — a path together with an HTTP
//! method — to an ordered chain of handlers.  Dispatching a request runs the
//! chain for its route in registration order, stopping as soon as a handler
//! marks the response finished.  Routers compose: a sub-router built under a
//! path prefix can be merged into a parent, which re-prefixes every merged
//! route.
//!
//! The surrounding transport (socket handling, wire parsing, serialization)
//! is out of scope: it produces a [`request::Request`] and a route key, and
//! consumes the finished [`response::Response`].

pub mod errors;
pub mod headers;
pub mod method;
pub mod request;
pub mod response;
pub mod route;
pub mod router;
pub mod wire;
