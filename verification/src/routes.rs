//! Plain descriptions of the HTTP routes each API area exposes. The
//! transport layer mounts the handlers; these tables state, as data, which
//! method and path pattern each area serves.

use vstd::prelude::*;

verus! {

/// An HTTP method of the API surface.
#[derive(Debug, Clone, Copy, PartialEq, Eq, Structural)]
pub enum HttpMethod {
    Get,
    Post,
    Put,
    Delete,
}

/// One route: a method and a path pattern relative to the area's mount
/// point.
#[derive(Debug, Clone, Copy, PartialEq, Eq)]
pub struct Route {
    pub method: HttpMethod,
    pub path: &'static str,
}

} // verus!
