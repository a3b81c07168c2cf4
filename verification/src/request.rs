//! The immutable input of a dispatch: the request headers, as received.

use std::collections::HashMap;
use vstd::prelude::*;

verus! {

/// An inbound request: a mapping from header name to header value, with the
/// case as received and no normalization, read-only for the dispatch.
pub struct Request {
    headers: HashMap<String, String>,
}

impl View for Request {
    type V = Map<String, String>;

    closed spec fn view(&self) -> Map<String, String> {
        self.headers@
    }
}

impl Request {
    /// Wraps the header mapping the transport adapter parsed.
    pub fn new(headers: HashMap<String, String>) -> (r: Request)
        ensures
            r@ == headers@,
    {
        Request { headers }
    }

    /// The headers, exactly as supplied at construction.
    pub fn get_headers(&self) -> (r: &HashMap<String, String>)
        ensures
            r@ == self@,
    {
        &self.headers
    }
}

} // verus!
