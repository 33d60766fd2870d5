//! A minimal newsletter-subscription service core.
//!
//! The library holds the request-acceptance logic of the service: decoding
//! `application/x-www-form-urlencoded` bodies into a two-field subscription
//! form, and mapping (method, path, body) triples to HTTP responses. The
//! surrounding process (socket binding, the HTTP server loop) lives outside
//! the library and hands it plain bytes.

pub mod form;
pub mod routes;

use vstd::prelude::*;

verus! {

/// The decoded subscription form: an email and a name, each an arbitrary
/// byte string (no format or length validation is performed).
#[derive(Debug)]
pub struct FormData {
    pub email: Vec<u8>,
    pub name: Vec<u8>,
}

} // verus!
