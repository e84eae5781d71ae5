//! The HTTP surface of the service: route dispatch by method and path,
//! the response model with its permissive cross-origin headers, the
//! request handler, and the static-fallback decision.
//!
//! Responses are modelled completely: status, body, content type and the
//! two cross-origin headers are all plain byte values, so the contracts
//! pin every observable part of every response down.

use vstd::prelude::*;

use crate::json::spec_parse_create_user;
use crate::json::spec_user_json;
use crate::json::parse_create_user;
use crate::json::serialize_user;
use crate::json::spec_create_user_body;
use crate::json::lemma_create_user_round_trip;
use crate::user::USER_ID;
use crate::user::create_user;

verus! {

/// The request methods the router distinguishes; everything beyond GET
/// and POST falls through to the static service.
#[derive(Clone, Copy, Debug, PartialEq, Eq, Structural)]
pub enum Method {
    Get,
    Post,
    Other,
}

/// Where a request goes: the greeting handler, the user-creation
/// handler, or the static asset service.
#[derive(Clone, Copy, Debug, PartialEq, Eq, Structural)]
pub enum Route {
    Hello,
    CreateUser,
    Fallback,
}

/// The bytes of the path `/hello`.
pub open spec fn hello_path() -> Seq<u8> {
    seq![47u8, 104u8, 101u8, 108u8, 108u8, 111u8]
}

/// The bytes of the path `/users`.
pub open spec fn users_path() -> Seq<u8> {
    seq![47u8, 117u8, 115u8, 101u8, 114u8, 115u8]
}

/// The route table: `GET /hello` and `GET /users` both reach the
/// greeting handler (the latter reuses it verbatim), `POST /users`
/// creates a user, and everything else is served statically.
pub open spec fn spec_dispatch(m: Method, path: Seq<u8>) -> Route {
    if m == Method::Get && (path == hello_path() || path == users_path()) {
        Route::Hello
    } else if m == Method::Post && path == users_path() {
        Route::CreateUser
    } else {
        Route::Fallback
    }
}

/// Map a request's method and path to its route.
pub fn dispatch(m: Method, path: &[u8]) -> (r: Route)
    ensures
        r == spec_dispatch(m, path@),
{
    let hello: Vec<u8> = vec![47u8, 104u8, 101u8, 108u8, 108u8, 111u8];
    let users: Vec<u8> = vec![47u8, 117u8, 115u8, 101u8, 114u8, 115u8];
    proof {
        assert(hello@ =~= hello_path());
        assert(users@ =~= users_path());
    }
    match m {
        Method::Get => {
            if crate::json::bytes_eq(path, hello.as_slice()) || crate::json::bytes_eq(
                path,
                users.as_slice(),
            ) {
                Route::Hello
            } else {
                Route::Fallback
            }
        },
        Method::Post => {
            if crate::json::bytes_eq(path, users.as_slice()) {
                Route::CreateUser
            } else {
                Route::Fallback
            }
        },
        Method::Other => Route::Fallback,
    }
}

/// An HTTP response as the service describes it: status code, body,
/// content type (empty where none is set) and the two cross-origin
/// headers carried by every response.
pub struct Response {
    pub status: u16,
    pub body: Vec<u8>,
    pub content_type: Vec<u8>,
    pub allow_origin: Vec<u8>,
    pub allow_headers: Vec<u8>,
}

/// The mathematical model of a response.
pub ghost struct ResponseModel {
    pub status: int,
    pub body: Seq<u8>,
    pub content_type: Seq<u8>,
    pub allow_origin: Seq<u8>,
    pub allow_headers: Seq<u8>,
}

impl View for Response {
    type V = ResponseModel;

    open spec fn view(&self) -> ResponseModel {
        ResponseModel {
            status: self.status as int,
            body: self.body@,
            content_type: self.content_type@,
            allow_origin: self.allow_origin@,
            allow_headers: self.allow_headers@,
        }
    }
}

/// The value of the allow-origin header on every response: `*`.
pub open spec fn allow_origin_value() -> Seq<u8> {
    seq![42u8]
}

/// The value of the allow-headers header on every response:
/// `authorization,content-type`.
pub open spec fn allow_headers_value() -> Seq<u8> {
    seq![
        97u8,
        117u8,
        116u8,
        104u8,
        111u8,
        114u8,
        105u8,
        122u8,
        97u8,
        116u8,
        105u8,
        111u8,
        110u8,
        44u8,
        99u8,
        111u8,
        110u8,
        116u8,
        101u8,
        110u8,
        116u8,
        45u8,
        116u8,
        121u8,
        112u8,
        101u8,
    ]
}

/// A response carries the permissive cross-origin policy: any origin,
/// and only the authorization and content-type request headers.
pub open spec fn cors_permissive(r: ResponseModel) -> bool {
    r.allow_origin == allow_origin_value() && r.allow_headers == allow_headers_value()
}

/// Build a response with the given status, content type and body; the
/// cross-origin headers are always attached.
fn respond(status: u16, content_type: Vec<u8>, body: Vec<u8>) -> (r: Response)
    ensures
        r@.status == status as int,
        r@.content_type == content_type@,
        r@.body == body@,
        cors_permissive(r@),
{
    let origin: Vec<u8> = vec![42u8];
    let headers: Vec<u8> = vec![
        97u8,
        117u8,
        116u8,
        104u8,
        111u8,
        114u8,
        105u8,
        122u8,
        97u8,
        116u8,
        105u8,
        111u8,
        110u8,
        44u8,
        99u8,
        111u8,
        110u8,
        116u8,
        101u8,
        110u8,
        116u8,
        45u8,
        116u8,
        121u8,
        112u8,
        101u8,
    ];
    proof {
        assert(origin@ =~= allow_origin_value());
        assert(headers@ =~= allow_headers_value());
    }
    Response { status, body, content_type, allow_origin: origin, allow_headers: headers }
}

/// The greeting body: `Hello, World!`.
pub open spec fn hello_body() -> Seq<u8> {
    seq![72u8, 101u8, 108u8, 108u8, 111u8, 44u8, 32u8, 87u8, 111u8, 114u8, 108u8, 100u8, 33u8]
}

/// The content type of the greeting: `text/plain; charset=utf-8`.
pub open spec fn text_plain() -> Seq<u8> {
    seq![
        116u8,
        101u8,
        120u8,
        116u8,
        47u8,
        112u8,
        108u8,
        97u8,
        105u8,
        110u8,
        59u8,
        32u8,
        99u8,
        104u8,
        97u8,
        114u8,
        115u8,
        101u8,
        116u8,
        61u8,
        117u8,
        116u8,
        102u8,
        45u8,
        56u8,
    ]
}

/// The content type of the user-creation response: `application/json`.
pub open spec fn application_json() -> Seq<u8> {
    seq![
        97u8,
        112u8,
        112u8,
        108u8,
        105u8,
        99u8,
        97u8,
        116u8,
        105u8,
        111u8,
        110u8,
        47u8,
        106u8,
        115u8,
        111u8,
        110u8,
    ]
}

/// The greeting handler's body, `Hello, World!`, as it goes on the wire.
pub fn root() -> (r: Vec<u8>)
    ensures
        r@ == hello_body(),
{
    let v: Vec<u8> = vec![
        72u8,
        101u8,
        108u8,
        108u8,
        111u8,
        44u8,
        32u8,
        87u8,
        111u8,
        114u8,
        108u8,
        100u8,
        33u8,
    ];
    proof {
        assert(v@ =~= hello_body());
    }
    v
}

/// What the service replies, as a function of method, path and body:
/// the greeting with status 200; or the created user with status 201,
/// falling back to a bare 400 when the body is not in the request
/// grammar; or `None`, meaning the request is handed to the static
/// asset service.
pub open spec fn spec_handle(m: Method, path: Seq<u8>, body: Seq<u8>) -> Option<ResponseModel> {
    match spec_dispatch(m, path) {
        Route::Hello => Some(
            ResponseModel {
                status: 200,
                body: hello_body(),
                content_type: text_plain(),
                allow_origin: allow_origin_value(),
                allow_headers: allow_headers_value(),
            },
        ),
        Route::CreateUser => match spec_parse_create_user(body) {
            Some(name) => Some(
                ResponseModel {
                    status: 201,
                    body: spec_user_json(USER_ID as int, name),
                    content_type: application_json(),
                    allow_origin: allow_origin_value(),
                    allow_headers: allow_headers_value(),
                },
            ),
            None => Some(
                ResponseModel {
                    status: 400,
                    body: Seq::empty(),
                    content_type: Seq::empty(),
                    allow_origin: allow_origin_value(),
                    allow_headers: allow_headers_value(),
                },
            ),
        },
        Route::Fallback => None,
    }
}

/// What the handler decides for one request: a finished response, or
/// the instruction to serve a static asset.
pub enum Outcome {
    Reply(Response),
    ServeStatic,
}

/// Handle one request: dispatch on method and path, and produce exactly
/// the response that `spec_handle` describes, or the static-service
/// decision where no route matches.
pub fn handle_request(m: Method, path: &[u8], body: &[u8]) -> (r: Outcome)
    ensures
        match r {
            Outcome::Reply(resp) => spec_handle(m, path@, body@) == Some(resp@),
            Outcome::ServeStatic => spec_handle(m, path@, body@) is None,
        },
{
    match dispatch(m, path) {
        Route::Hello => {
            let ct: Vec<u8> = vec![
                116u8,
                101u8,
                120u8,
                116u8,
                47u8,
                112u8,
                108u8,
                97u8,
                105u8,
                110u8,
                59u8,
                32u8,
                99u8,
                104u8,
                97u8,
                114u8,
                115u8,
                101u8,
                116u8,
                61u8,
                117u8,
                116u8,
                102u8,
                45u8,
                56u8,
            ];
            proof {
                assert(ct@ =~= text_plain());
            }
            Outcome::Reply(respond(200, ct, root()))
        },
        Route::CreateUser => {
            match parse_create_user(body) {
                Some(req) => {
                    let made = create_user(req);
                    let out = serialize_user(&made);
                    let ct: Vec<u8> = vec![
                        97u8,
                        112u8,
                        112u8,
                        108u8,
                        105u8,
                        99u8,
                        97u8,
                        116u8,
                        105u8,
                        111u8,
                        110u8,
                        47u8,
                        106u8,
                        115u8,
                        111u8,
                        110u8,
                    ];
                    proof {
                        assert(ct@ =~= application_json());
                    }
                    Outcome::Reply(respond(201, ct, out))
                },
                None => {
                    let empty_ct: Vec<u8> = Vec::new();
                    let empty_body: Vec<u8> = Vec::new();
                    Outcome::Reply(respond(400, empty_ct, empty_body))
                },
            }
        },
        Route::Fallback => Outcome::ServeStatic,
    }
}

/// Build the response of the static asset service: the found file's
/// content with its content type, or — single-page-application fallback —
/// the designated fallback file with status 200, never a 404. The
/// cross-origin headers are attached here as everywhere.
pub fn static_response(found: Option<Vec<u8>>, content_type: Vec<u8>, fallback: Vec<u8>) -> (r:
    Response)
    ensures
        r@.status == 200,
        match found {
            Some(c) => r@.body == c@,
            None => r@.body == fallback@,
        },
        r@.content_type == content_type@,
        cors_permissive(r@),
{
    match found {
        Some(c) => respond(200, content_type, c),
        None => respond(200, content_type, fallback),
    }
}

/// The greeting route replies 200 `Hello, World!` to any request body,
/// with the permissive cross-origin policy.
pub proof fn lemma_hello_ok(body: Seq<u8>)
    ensures
        spec_handle(Method::Get, hello_path(), body) matches Some(r) && r.status == 200 && r.body
            == hello_body() && cors_permissive(r),
{
}

/// `GET /users` replies exactly as `GET /hello` does, for every request
/// body: the greeting handler is reused verbatim.
pub proof fn lemma_get_users_is_hello(body: Seq<u8>)
    ensures
        spec_handle(Method::Get, users_path(), body) == spec_handle(
            Method::Get,
            hello_path(),
            body,
        ),
{
}

/// Success of user creation is owed exactly on bodies in the request
/// grammar: any such body is answered with status 201 and the serialized
/// user carrying the fixed identifier and the body's own username.
pub proof fn lemma_create_user_ok(body: Seq<u8>, name: Seq<u8>)
    requires
        spec_parse_create_user(body) == Some(name),
    ensures
        spec_handle(Method::Post, users_path(), body) matches Some(r) && r.status == 201 && r.body
            == spec_user_json(USER_ID as int, name) && cors_permissive(r),
{
}

/// Echo property of user creation: for every username a JSON string can
/// decode to (well-formed UTF-8 up to the escaped bytes), posting the
/// canonical body carrying it yields status 201 and the serialized user
/// with the fixed identifier and that username, unchanged.
pub proof fn lemma_create_user_echo(name: Seq<u8>)
    requires
        crate::json::is_username_encodable(name),
    ensures
        spec_handle(Method::Post, users_path(), spec_create_user_body(name)) matches Some(r)
            && r.status == 201 && r.body == spec_user_json(USER_ID as int, name) && cors_permissive(
            r,
        ),
{
    lemma_create_user_round_trip(name);
}

/// A body outside the request grammar gets a client error: status 400.
pub proof fn lemma_bad_body_rejected(body: Seq<u8>)
    requires
        spec_parse_create_user(body) is None,
    ensures
        spec_handle(Method::Post, users_path(), body) matches Some(r) && 400 <= r.status < 500
            && cors_permissive(r),
{
}

/// Every response the handler produces carries the permissive
/// cross-origin policy.
pub proof fn lemma_handler_cors(m: Method, path: Seq<u8>, body: Seq<u8>)
    ensures
        spec_handle(m, path, body) matches Some(r) ==> cors_permissive(r),
{
}

} // verus!