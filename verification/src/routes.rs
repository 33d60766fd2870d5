//! The service's routing table and its one handler.
//!
//! The service exposes exactly one route, `POST /subscriptions`. A request
//! on it whose body decodes into the subscription form is answered `200`
//! with an empty body; one whose body does not decode is answered `400`.
//! Any other method on the path is answered `405`, any other path `404`.

use vstd::prelude::*;

use crate::FormData;
use crate::form::form_decodes;
use crate::form::parse_form_body;

verus! {

/// An HTTP response: a status code and a body.
pub struct Response {
    pub status: u16,
    pub body: Vec<u8>,
}

/// The bytes of the method name `POST`.
pub open spec fn post_method() -> Seq<u8> {
    seq![80u8, 79u8, 83u8, 84u8]
}

/// The bytes of the path `/subscriptions`.
pub open spec fn subscriptions_path() -> Seq<u8> {
    seq![
        47u8,
        115u8,
        117u8,
        98u8,
        115u8,
        99u8,
        114u8,
        105u8,
        112u8,
        116u8,
        105u8,
        111u8,
        110u8,
        115u8,
    ]
}

/// Whether the request targets the one registered route.
pub open spec fn is_subscribe_route(method: Seq<u8>, path: Seq<u8>) -> bool {
    method == post_method() && path == subscriptions_path()
}

/// The status the service answers with: `200` on the registered route with
/// a decodable body, `400` on it with one that does not decode, `405` for
/// another method on the path, and `404` elsewhere.
pub open spec fn expected_status(method: Seq<u8>, path: Seq<u8>, body: Seq<u8>) -> int {
    if is_subscribe_route(method, path) {
        if form_decodes(body) {
            200
        } else {
            400
        }
    } else if path == subscriptions_path() {
        405
    } else {
        404
    }
}

/// Whether `method` spells `POST`.
pub fn is_post_method(method: &[u8]) -> (r: bool)
    ensures
        r == (method@ == post_method()),
{
    let r = method.len() == 4 && method[0] == 80 && method[1] == 79 && method[2] == 83
        && method[3] == 84;
    proof {
        if r {
            assert(method@ =~= post_method());
        }
    }
    r
}

/// Whether `path` spells `/subscriptions`.
pub fn is_subscriptions_path(path: &[u8]) -> (r: bool)
    ensures
        r == (path@ == subscriptions_path()),
{
    let r = path.len() == 14 && path[0] == 47 && path[1] == 115 && path[2] == 117 && path[3]
        == 98 && path[4] == 115 && path[5] == 99 && path[6] == 114 && path[7] == 105 && path[8]
        == 112 && path[9] == 116 && path[10] == 105 && path[11] == 111 && path[12] == 110
        && path[13] == 115;
    proof {
        if r {
            assert(path@ =~= subscriptions_path());
        }
    }
    r
}

/// The one route handler: accepts a decoded subscription form and answers
/// `200` with an empty body, discarding the form's content.
pub fn subscribe(_form: FormData) -> (r: Response)
    ensures
        r.status == 200,
        r.body@.len() == 0,
{
    Response { status: 200, body: Vec::new() }
}

/// Maps a request to the service's response.
///
/// The status is pinned for every input, and every response body is empty:
/// a body holding both keys answers `200` on the registered route, one
/// missing a key or ill-encoded answers `400` there, and requests off the
/// route answer `405` or `404`, never `200` and never `400`.
pub fn handle_request(method: &[u8], path: &[u8], body: &[u8]) -> (r: Response)
    ensures
        r.status == expected_status(method@, path@, body@),
        r.body@.len() == 0,
        is_subscribe_route(method@, path@) && form_decodes(body@) ==> r.status == 200,
        is_subscribe_route(method@, path@) && !form_decodes(body@) ==> 400 <= r.status < 500,
        !is_subscribe_route(method@, path@) ==> r.status != 200 && r.status != 400,
{
    let is_subs = is_subscriptions_path(path);
    if is_post_method(method) && is_subs {
        match parse_form_body(body) {
            Ok(form) => subscribe(form),
            Err(_) => Response { status: 400, body: Vec::new() },
        }
    } else if is_subs {
        Response { status: 405, body: Vec::new() }
    } else {
        Response { status: 404, body: Vec::new() }
    }
}

} // verus!
