use mcp_client::codec::{decode_frame, encode_message};
use mcp_client::json::{json_encode, json_parse, Json};
use mcp_client::message::{Message, RespBody};

fn obj(pairs: Vec<(&str, Json)>) -> Json {
    Json::Obj(pairs.into_iter().map(|(k, v)| (k.as_bytes().to_vec(), v)).collect())
}

fn s(text: &str) -> Json {
    Json::Str(text.as_bytes().to_vec())
}

#[test]
fn request_round_trip() {
    let m = Message::Request {
        id: 7,
        method: b"tools/call".to_vec(),
        params: Some(obj(vec![("name", s("echo")), ("count", Json::Int(-3))])),
    };
    let frame = encode_message(m);
    let back = decode_frame(&frame).unwrap();
    match back {
        Message::Request { id, method, params } => {
            assert_eq!(id, 7);
            assert_eq!(method, b"tools/call".to_vec());
            let p = params.unwrap();
            assert_eq!(p.obj_get(b"name").unwrap().as_str().unwrap(), &b"echo".to_vec());
            assert_eq!(p.obj_get(b"count").unwrap().as_i64().unwrap(), -3);
        }
        _ => panic!("wrong message kind"),
    }
}

#[test]
fn response_error_round_trip() {
    let m = Message::Response {
        id: 4,
        body: RespBody::Failure { code: -32601, message: b"not found".to_vec() },
    };
    let frame = encode_message(m);
    match decode_frame(&frame).unwrap() {
        Message::Response { id, body: RespBody::Failure { code, message } } => {
            assert_eq!(id, 4);
            assert_eq!(code, -32601);
            assert_eq!(message, b"not found".to_vec());
        }
        _ => panic!("wrong message kind"),
    }
}

#[test]
fn notification_round_trip() {
    let m = Message::Notification { method: b"progress".to_vec(), params: None };
    let frame = encode_message(m);
    match decode_frame(&frame).unwrap() {
        Message::Notification { method, params } => {
            assert_eq!(method, b"progress".to_vec());
            assert!(params.is_none());
        }
        _ => panic!("wrong message kind"),
    }
}

#[test]
fn string_escapes_round_trip() {
    let m = Message::Response {
        id: 1,
        body: RespBody::Success(s("line\nwith \"quotes\" and \\slashes\\")),
    };
    let frame = encode_message(m);
    match decode_frame(&frame).unwrap() {
        Message::Response { body: RespBody::Success(Json::Str(t)), .. } => {
            assert_eq!(t, b"line\nwith \"quotes\" and \\slashes\\".to_vec());
        }
        _ => panic!("wrong message kind"),
    }
}

#[test]
fn decode_rejects_malformed() {
    // truncated text
    assert!(decode_frame(b"{\"id\":").is_err());
    // not an object
    assert!(decode_frame(b"[1,2]\n").is_err());
    // response without an id
    assert!(decode_frame(b"{\"result\":null}\n").is_err());
    // unknown shape: no method, no result, no error
    assert!(decode_frame(b"{}\n").is_err());
    // bad escape
    assert!(decode_frame(b"{\"method\":\"a\\q\"}\n").is_err());
    // trailing garbage after the value
    assert!(decode_frame(b"{\"method\":\"a\"} x\n").is_err());
    // arbitrary corruption decodes to an error, never a panic
    assert!(decode_frame(&[0xff, 0x00, 0x7b, 0x0a]).is_err());
}

#[test]
fn json_values_parse_exactly() {
    assert!(matches!(json_parse(b"null"), Some(Json::Null)));
    assert!(matches!(json_parse(b"true"), Some(Json::Bool(true))));
    assert!(matches!(json_parse(b"false"), Some(Json::Bool(false))));
    assert!(matches!(json_parse(b" -42 "), Some(Json::Int(-42))));
    assert!(matches!(
        json_parse(b"9223372036854775807"),
        Some(Json::Int(9223372036854775807))
    ));
    assert!(matches!(
        json_parse(b"-9223372036854775808"),
        Some(Json::Int(-9223372036854775808))
    ));
    // out of the signed 64-bit range: carried verbatim, not rejected
    assert!(matches!(
        json_parse(b"9223372036854775808"),
        Some(Json::Num(lex)) if lex == b"9223372036854775808".to_vec()
    ));
    assert!(json_parse(b"--5").is_none());
    assert!(json_parse(b"0x10").is_none());
    assert!(json_parse(b"1.").is_none());
    assert!(json_parse(b"1e").is_none());
    assert!(json_parse(b"1.5e").is_none());
}

#[test]
fn number_lexemes_round_trip_verbatim() {
    for lex in [
        &b"1.5"[..],
        b"-0.25",
        b"2e10",
        b"6.02E+23",
        b"1e-3",
        b"18446744073709551615",
    ] {
        let v = json_parse(lex).unwrap();
        assert!(matches!(&v, Json::Num(l) if l.as_slice() == lex));
        assert_eq!(json_encode(&v), lex.to_vec());
    }
    // a fractional value inside a response survives the frame round trip
    let payload = json_parse(b"{\"t\":1.5,\"n\":-2}").unwrap();
    let m = Message::Response { id: 3, body: RespBody::Success(payload) };
    match decode_frame(&encode_message(m)).unwrap() {
        Message::Response { body: RespBody::Success(p), .. } => {
            assert!(matches!(p.obj_get(b"t").unwrap(), Json::Num(l) if l == &b"1.5".to_vec()));
            assert_eq!(p.obj_get(b"n").unwrap().as_i64().unwrap(), -2);
        }
        _ => panic!("wrong message kind"),
    }
}

#[test]
fn standard_escapes_are_read() {
    let v = json_parse(b"\"a\\t b\\r c\\b d\\f e\\/ f\"").unwrap();
    match v {
        Json::Str(s) => assert_eq!(s, b"a\t b\r c\x08 d\x0c e/ f".to_vec()),
        _ => panic!("expected a string"),
    }
    // unicode escapes are not read
    assert!(json_parse(b"\"\\u0041\"").is_none());
}

#[test]
fn frames_carry_the_protocol_version() {
    let m = Message::Request { id: 1, method: b"tools/list".to_vec(), params: None };
    let text = String::from_utf8(encode_message(m)).unwrap();
    assert!(text.contains("\"jsonrpc\":\"2.0\""));
}

#[test]
fn canonical_encoding_bytes() {
    let v = obj(vec![("a", Json::Arr(vec![Json::Int(1), Json::Int(2)])), ("b", s("x"))]);
    assert_eq!(json_encode(&v), b"{\"a\":[1,2],\"b\":\"x\"}".to_vec());
    let nested = json_parse(b"{ \"a\" : [ 1 , 2 ] , \"b\" : \"x\" }").unwrap();
    assert_eq!(json_encode(&nested), b"{\"a\":[1,2],\"b\":\"x\"}".to_vec());
}

#[test]
fn correlation_id_round_trips_unchanged() {
    for id in [0u64, 1, 99999, 9223372036854775807] {
        let m = Message::Request { id, method: b"m".to_vec(), params: None };
        match decode_frame(&encode_message(m)).unwrap() {
            Message::Request { id: back, .. } => assert_eq!(back, id),
            _ => panic!("wrong message kind"),
        }
    }
}
