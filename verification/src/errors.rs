//! Errors raised while parsing a route key.

use vstd::prelude::*;

verus! {

/// Why a route-key string was rejected.
#[derive(Clone, Copy, PartialEq, Eq, Structural, Debug)]
pub enum RouteError {
    /// The method token does not name any method of the closed enumeration.
    InvalidMethod,
    /// The route line has no space separating the method from the path.
    MalformedRouteLine,
}

} // verus!
