use hello_server::http::handle_request;
use hello_server::http::static_response;
use hello_server::http::Method;
use hello_server::http::Outcome;
use hello_server::http::Response;
use hello_server::json::parse_create_user;
use hello_server::json::serialize_create_user;
use hello_server::json::serialize_user;
use hello_server::user::create_user;
use hello_server::user::CreateUser;
use hello_server::user::User;
use hello_server::user::USER_ID;

fn reply(o: Outcome) -> Response {
    match o {
        Outcome::Reply(r) => r,
        Outcome::ServeStatic => panic!("expected a finished response"),
    }
}

fn assert_cors(r: &Response) {
    assert_eq!(r.allow_origin, b"*".to_vec());
    assert_eq!(r.allow_headers, b"authorization,content-type".to_vec());
}

#[test]
fn get_hello_ok() {
    let r = reply(handle_request(Method::Get, b"/hello", b""));
    assert_eq!(r.status, 200);
    assert_eq!(r.body, b"Hello, World!".to_vec());
    assert_eq!(r.content_type, b"text/plain; charset=utf-8".to_vec());
    assert_cors(&r);
}

#[test]
fn get_hello_ignores_body() {
    let r = reply(handle_request(Method::Get, b"/hello", b"anything at all"));
    assert_eq!(r.status, 200);
    assert_eq!(r.body, b"Hello, World!".to_vec());
}

#[test]
fn post_users_alice() {
    let r = reply(handle_request(Method::Post, b"/users", b"{\"username\":\"alice\"}"));
    assert_eq!(r.status, 201);
    assert_eq!(r.body, b"{\"id\":1337,\"username\":\"alice\"}".to_vec());
    assert_eq!(r.content_type, b"application/json".to_vec());
    assert_cors(&r);
}

#[test]
fn post_users_with_whitespace() {
    let r = reply(handle_request(
        Method::Post,
        b"/users",
        b" \t\r\n{ \"username\" : \"bob\" } ",
    ));
    assert_eq!(r.status, 201);
    assert_eq!(r.body, b"{\"id\":1337,\"username\":\"bob\"}".to_vec());
}

#[test]
fn post_users_missing_username() {
    let r = reply(handle_request(Method::Post, b"/users", b"{\"user\":\"alice\"}"));
    assert_eq!(r.status, 400);
    assert_cors(&r);
}

#[test]
fn post_users_non_json() {
    let r = reply(handle_request(Method::Post, b"/users", b"not json"));
    assert_eq!(r.status, 400);
}

#[test]
fn post_users_empty_body() {
    let r = reply(handle_request(Method::Post, b"/users", b""));
    assert_eq!(r.status, 400);
}

#[test]
fn post_users_number_value() {
    let r = reply(handle_request(Method::Post, b"/users", b"{\"username\":7}"));
    assert_eq!(r.status, 400);
}

#[test]
fn post_users_trailing_garbage() {
    let r = reply(handle_request(Method::Post, b"/users", b"{\"username\":\"a\"}x"));
    assert_eq!(r.status, 400);
}

#[test]
fn post_users_raw_control_byte() {
    let r = reply(handle_request(Method::Post, b"/users", b"{\"username\":\"a\nb\"}"));
    assert_eq!(r.status, 400);
}

#[test]
fn get_users_same_as_hello() {
    let a = reply(handle_request(Method::Get, b"/users", b""));
    let b = reply(handle_request(Method::Get, b"/hello", b""));
    assert_eq!(a.status, b.status);
    assert_eq!(a.body, b.body);
    assert_eq!(a.content_type, b.content_type);
    assert_eq!(a.allow_origin, b.allow_origin);
    assert_eq!(a.allow_headers, b.allow_headers);
}

#[test]
fn unmatched_routes_go_static() {
    assert!(matches!(
        handle_request(Method::Get, b"/", b""),
        Outcome::ServeStatic
    ));
    assert!(matches!(
        handle_request(Method::Get, b"/assets/app.js", b""),
        Outcome::ServeStatic
    ));
    assert!(matches!(
        handle_request(Method::Post, b"/hello", b""),
        Outcome::ServeStatic
    ));
    assert!(matches!(
        handle_request(Method::Other, b"/users", b""),
        Outcome::ServeStatic
    ));
}

#[test]
fn static_serves_found_file() {
    let r = static_response(
        Some(b"var x = 1;".to_vec()),
        b"text/javascript".to_vec(),
        b"<html>app</html>".to_vec(),
    );
    assert_eq!(r.status, 200);
    assert_eq!(r.body, b"var x = 1;".to_vec());
    assert_eq!(r.content_type, b"text/javascript".to_vec());
    assert_cors(&r);
}

#[test]
fn static_miss_serves_fallback_with_200() {
    let r = static_response(None, b"text/html; charset=utf-8".to_vec(), b"<html>app</html>".to_vec());
    assert_eq!(r.status, 200);
    assert_eq!(r.body, b"<html>app</html>".to_vec());
    assert_cors(&r);
}

#[test]
fn created_user_echoes_username() {
    let u = create_user(CreateUser {
        username: b"carol".to_vec(),
    });
    assert_eq!(u.id, USER_ID);
    assert_eq!(u.id, 1337);
    assert_eq!(u.username, b"carol".to_vec());
}

#[test]
fn echo_survives_escaping_round_trip() {
    let names: Vec<&[u8]> = vec![
        b"alice",
        b"",
        b"with \"quotes\" and \\backslashes\\",
        b"tabs\tand\nnewlines\rand\x08bells\x0c",
        b"\x00\x01\x1f",
        b"caf\xc3\xa9",
    ];
    for name in names {
        let body = serialize_create_user(&CreateUser {
            username: name.to_vec(),
        });
        let parsed = parse_create_user(&body).expect("canonical body must parse");
        assert_eq!(parsed.username, name.to_vec());
        let r = reply(handle_request(Method::Post, b"/users", &body));
        assert_eq!(r.status, 201);
        let expected = serialize_user(&User {
            id: 1337,
            username: name.to_vec(),
        });
        assert_eq!(r.body, expected);
    }
}

#[test]
fn serializer_escapes_exactly() {
    let out = serialize_user(&User {
        id: 1337,
        username: b"a\"b\\c\nd".to_vec(),
    });
    assert_eq!(
        out,
        b"{\"id\":1337,\"username\":\"a\\\"b\\\\c\\u000ad\"}".to_vec()
    );
}

#[test]
fn serializer_writes_digits_exactly() {
    let zero = serialize_user(&User {
        id: 0,
        username: b"z".to_vec(),
    });
    assert_eq!(zero, b"{\"id\":0,\"username\":\"z\"}".to_vec());
    let max = serialize_user(&User {
        id: u64::MAX,
        username: b"m".to_vec(),
    });
    assert_eq!(
        max,
        b"{\"id\":18446744073709551615,\"username\":\"m\"}".to_vec()
    );
}

#[test]
fn parser_decodes_escapes() {
    let c = parse_create_user(b"{\"username\":\"a\\n\\t\\\"\\\\\\/\\b\\f\\r\"}").unwrap();
    assert_eq!(c.username, b"a\n\t\"\\/\x08\x0c\r".to_vec());
    let u = parse_create_user(b"{\"username\":\"\\u0041\\u007f\"}").unwrap();
    assert_eq!(u.username, b"A\x7f".to_vec());
}

#[test]
fn parser_decodes_unicode_escapes_to_utf8() {
    let two = parse_create_user(b"{\"username\":\"\\u0080\\u00e9\"}").unwrap();
    assert_eq!(two.username, vec![0xc2, 0x80, 0xc3, 0xa9]);
    let three = parse_create_user(b"{\"username\":\"\\u20ac\"}").unwrap();
    assert_eq!(three.username, vec![0xe2, 0x82, 0xac]);
    let pair = parse_create_user(b"{\"username\":\"\\ud83d\\ude00\"}").unwrap();
    assert_eq!(pair.username, vec![0xf0, 0x9f, 0x98, 0x80]);
}

#[test]
fn parser_rejects_lone_surrogates() {
    assert!(parse_create_user(b"{\"username\":\"\\ud800\"}").is_none());
    assert!(parse_create_user(b"{\"username\":\"\\udc00\"}").is_none());
    assert!(parse_create_user(b"{\"username\":\"\\ud800x\"}").is_none());
}

#[test]
fn parser_accepts_raw_utf8() {
    let c = parse_create_user("{\"username\":\"caf\u{e9} \u{20ac} \u{1f600}\"}".as_bytes())
        .unwrap();
    assert_eq!(c.username, "caf\u{e9} \u{20ac} \u{1f600}".as_bytes().to_vec());
}

#[test]
fn parser_rejects_malformed_utf8() {
    // a byte that cannot occur in UTF-8 text is not JSON
    assert!(parse_create_user(b"{\"username\":\"\xff\"}").is_none());
    // a stray continuation byte
    assert!(parse_create_user(b"{\"username\":\"\x80\"}").is_none());
    // a truncated two-byte sequence
    assert!(parse_create_user(b"{\"username\":\"\xc3\"}").is_none());
    // an overlong encoding
    assert!(parse_create_user(b"{\"username\":\"\xc0\xaf\"}").is_none());
    let r = reply(handle_request(Method::Post, b"/users", b"{\"username\":\"\xff\"}"));
    assert_eq!(r.status, 400);
}

#[test]
fn parser_rejects_bad_escape_and_unterminated() {
    assert!(parse_create_user(b"{\"username\":\"\\q\"}").is_none());
    assert!(parse_create_user(b"{\"username\":\"open").is_none());
    assert!(parse_create_user(b"{\"username\":\"a\"").is_none());
}

#[test]
fn parser_ignores_extra_members() {
    let c = parse_create_user(b"{\"username\":\"a\",\"role\":\"admin\"}").unwrap();
    assert_eq!(c.username, b"a".to_vec());
    let d = parse_create_user(
        b"{\"n\":-12.5e+3,\"t\":true,\"f\":false,\"z\":null,\"username\":\"b\"}",
    )
    .unwrap();
    assert_eq!(d.username, b"b".to_vec());
    let nested = parse_create_user(
        b"{\"deep\":{\"a\":[1,2,{\"b\":[]}],\"c\":{}},\"username\":\"c\",\"dup\":1,\"dup\":2}",
    )
    .unwrap();
    assert_eq!(nested.username, b"c".to_vec());
    let r = reply(handle_request(
        Method::Post,
        b"/users",
        b"{ \"role\" : \"admin\" , \"username\" : \"mixed\" }",
    ));
    assert_eq!(r.status, 201);
    assert_eq!(r.body, b"{\"id\":1337,\"username\":\"mixed\"}".to_vec());
}

#[test]
fn parser_rejects_bad_objects() {
    // the username member must be present exactly once and hold a string
    assert!(parse_create_user(b"{\"username\":\"a\",\"username\":\"b\"}").is_none());
    assert!(parse_create_user(b"{}").is_none());
    assert!(parse_create_user(b"{\"username\":7}").is_none());
    // malformed members are refused even though they would be skipped
    assert!(parse_create_user(b"{\"username\":\"a\",\"n\":01}").is_none());
    assert!(parse_create_user(b"{\"username\":\"a\",\"x\":[1,}").is_none());
    assert!(parse_create_user(b"{\"username\":\"a\",}").is_none());
    assert!(parse_create_user(b"{\"username\":\"a\" \"x\":1}").is_none());
}
