use mcp_client::client::{
    named_params, parse_contents, parse_descriptors, parse_prompt_result, parse_resource_contents,
    Content,
};
use mcp_client::codec::encode_message;
use mcp_client::json::Json;
use mcp_client::message::{Message, RespBody};
use mcp_client::session::{Routed, Session, SessionState};
use mcp_client::ClientError;

fn obj(pairs: Vec<(&str, Json)>) -> Json {
    Json::Obj(pairs.into_iter().map(|(k, v)| (k.as_bytes().to_vec(), v)).collect())
}

fn s(text: &str) -> Json {
    Json::Str(text.as_bytes().to_vec())
}

fn init_result() -> Json {
    obj(vec![("serverInfo", obj(vec![("name", s("srv")), ("version", s("1.0"))]))])
}

/// A session taken through a successful handshake.
fn ready_session() -> Session {
    let mut session = Session::new();
    let init = session.begin_connect(None).unwrap();
    let hid = match init {
        Message::Request { id, ref method, .. } => {
            assert_eq!(method, &b"initialize".to_vec());
            id
        }
        _ => panic!("handshake must be a request"),
    };
    let routed = session.handle_message(Message::Response {
        id: hid,
        body: RespBody::Success(init_result()),
    });
    assert!(matches!(routed, Routed::HandshakeDone));
    assert!(matches!(session.state, SessionState::Ready));
    session
}

#[test]
fn no_request_before_ready() {
    let mut session = Session::new();
    match session.begin_request(b"tools/list".to_vec(), None) {
        Err(ClientError::NotReady) => {}
        _ => panic!("a request before the handshake must fail with NotReady"),
    }
    // still not ready while the handshake is in flight
    session.begin_connect(None).unwrap();
    assert!(matches!(
        session.begin_request(b"tools/list".to_vec(), None),
        Err(ClientError::NotReady)
    ));
}

#[test]
fn handshake_failure_closes_session() {
    let mut session = Session::new();
    let init = session.begin_connect(None).unwrap();
    let hid = match init {
        Message::Request { id, .. } => id,
        _ => panic!("handshake must be a request"),
    };
    let routed = session.handle_message(Message::Response {
        id: hid,
        body: RespBody::Failure { code: -1, message: b"refused".to_vec() },
    });
    assert!(matches!(routed, Routed::HandshakeFault));
    assert!(matches!(session.state, SessionState::Closed));
    assert!(matches!(
        session.begin_request(b"tools/list".to_vec(), None),
        Err(ClientError::ConnectionClosed)
    ));
}

#[test]
fn responses_pair_by_id_in_any_order() {
    let mut session = ready_session();
    let id1 = match session.begin_request(b"a".to_vec(), None).unwrap() {
        Message::Request { id, .. } => id,
        _ => unreachable!(),
    };
    let id2 = match session.begin_request(b"b".to_vec(), None).unwrap() {
        Message::Request { id, .. } => id,
        _ => unreachable!(),
    };
    // the later request's response arrives first
    match session.handle_message(Message::Response { id: id2, body: RespBody::Success(s("two")) })
    {
        Routed::Completed(c) => {
            assert_eq!(c.id, id2);
            match c.outcome.unwrap() {
                Json::Str(t) => assert_eq!(t, b"two".to_vec()),
                _ => panic!("wrong payload"),
            }
        }
        _ => panic!("a pending id must complete"),
    }
    match session.handle_message(Message::Response { id: id1, body: RespBody::Success(s("one")) })
    {
        Routed::Completed(c) => {
            assert_eq!(c.id, id1);
            match c.outcome.unwrap() {
                Json::Str(t) => assert_eq!(t, b"one".to_vec()),
                _ => panic!("wrong payload"),
            }
        }
        _ => panic!("a pending id must complete"),
    }
}

#[test]
fn unknown_id_dropped_session_stays_usable() {
    let mut session = ready_session();
    let routed = session.handle_message(Message::Response {
        id: 555,
        body: RespBody::Success(Json::Null),
    });
    assert!(matches!(routed, Routed::Dropped));
    assert!(matches!(session.state, SessionState::Ready));
    assert!(session.begin_request(b"a".to_vec(), None).is_ok());
}

#[test]
fn notification_never_resolves_a_request() {
    let mut session = ready_session();
    session.begin_request(b"a".to_vec(), None).unwrap();
    let before = session.pending.len();
    let routed = session.handle_message(Message::Notification {
        method: b"progress".to_vec(),
        params: None,
    });
    assert!(matches!(routed, Routed::Notify { .. }));
    assert_eq!(session.pending.len(), before);
}

#[test]
fn close_resolves_all_pending_with_connection_closed() {
    let mut session = ready_session();
    let id1 = match session.begin_request(b"resources/read".to_vec(), None).unwrap() {
        Message::Request { id, .. } => id,
        _ => unreachable!(),
    };
    let id2 = match session.begin_request(b"tools/list".to_vec(), None).unwrap() {
        Message::Request { id, .. } => id,
        _ => unreachable!(),
    };
    let swept = session.close();
    assert_eq!(swept.len(), 2);
    assert_eq!(swept[0].id, id1);
    assert_eq!(swept[1].id, id2);
    for c in &swept {
        assert!(matches!(c.outcome, Err(ClientError::ConnectionClosed)));
    }
    assert!(matches!(session.state, SessionState::Closed));
    assert!(matches!(
        session.begin_request(b"c".to_vec(), None),
        Err(ClientError::ConnectionClosed)
    ));
}

#[test]
fn scenario_list_tools_then_echo() {
    let mut session = ready_session();
    // list_tools
    let id = match session.begin_request(b"tools/list".to_vec(), None).unwrap() {
        Message::Request { id, .. } => id,
        _ => unreachable!(),
    };
    let tools_payload = obj(vec![(
        "tools",
        Json::Arr(vec![
            obj(vec![("name", s("echo")), ("description", s("echoes"))]),
            obj(vec![("name", s("sum"))]),
        ]),
    )]);
    let payload = match session.handle_message(Message::Response {
        id,
        body: RespBody::Success(tools_payload),
    }) {
        Routed::Completed(c) => c.outcome.unwrap(),
        _ => panic!("must complete"),
    };
    let tools = parse_descriptors(&payload, b"tools", b"name").unwrap();
    assert_eq!(tools.len(), 2);
    assert_eq!(tools[0].name, b"echo".to_vec());
    assert_eq!(tools[1].name, b"sum".to_vec());
    // call_tool("echo", {"text":"hi"})
    let params = named_params(b"echo".to_vec(), vec![(b"text".to_vec(), s("hi"))]);
    let id = match session.begin_request(b"tools/call".to_vec(), Some(params)).unwrap() {
        Message::Request { id, .. } => id,
        _ => unreachable!(),
    };
    let call_payload = obj(vec![(
        "content",
        Json::Arr(vec![obj(vec![("type", s("text")), ("text", s("hi"))])]),
    )]);
    let payload = match session.handle_message(Message::Response {
        id,
        body: RespBody::Success(call_payload),
    }) {
        Routed::Completed(c) => c.outcome.unwrap(),
        _ => panic!("must complete"),
    };
    let content = parse_contents(&payload).unwrap();
    assert_eq!(content.len(), 1);
    match &content[0] {
        Content::Text(t) => assert_eq!(t, &b"hi".to_vec()),
        _ => panic!("expected text content"),
    }
}

#[test]
fn scenario_missing_tool_keeps_session_usable() {
    let mut session = ready_session();
    let id = match session.begin_request(b"tools/call".to_vec(), None).unwrap() {
        Message::Request { id, .. } => id,
        _ => unreachable!(),
    };
    match session.handle_message(Message::Response {
        id,
        body: RespBody::Failure { code: -32601, message: b"tool not found".to_vec() },
    }) {
        Routed::Completed(c) => match c.outcome {
            Err(ClientError::Protocol { code, message }) => {
                assert_eq!(code, -32601);
                assert_eq!(message, b"tool not found".to_vec());
            }
            _ => panic!("expected a protocol error"),
        },
        _ => panic!("must complete"),
    }
    assert!(matches!(session.state, SessionState::Ready));
    assert!(session.begin_request(b"tools/list".to_vec(), None).is_ok());
}

#[test]
fn scenario_peer_exit_fails_inflight_read() {
    let mut session = ready_session();
    let id = match session.begin_request(b"resources/read".to_vec(), None).unwrap() {
        Message::Request { id, .. } => id,
        _ => unreachable!(),
    };
    // the peer process exits: the transport closes
    let swept = session.close();
    assert_eq!(swept.len(), 1);
    assert_eq!(swept[0].id, id);
    assert!(matches!(swept[0].outcome, Err(ClientError::ConnectionClosed)));
}

#[test]
fn empty_arguments_are_transmitted_as_absent() {
    // a capturing look at the wire bytes of a call with empty arguments
    let params = named_params(b"echo".to_vec(), vec![]);
    let frame = encode_message(Message::Request {
        id: 1,
        method: b"tools/call".to_vec(),
        params: Some(params),
    });
    let text = String::from_utf8(frame.clone()).unwrap();
    assert!(!text.contains("arguments"));
    assert!(text.contains("\"name\":\"echo\""));
    // with entries, the mapping is transmitted
    let params = named_params(b"echo".to_vec(), vec![(b"text".to_vec(), s("hi"))]);
    let frame = encode_message(Message::Request {
        id: 2,
        method: b"tools/call".to_vec(),
        params: Some(params),
    });
    let text = String::from_utf8(frame).unwrap();
    assert!(text.contains("\"arguments\":{\"text\":\"hi\"}"));
}

#[test]
fn read_resource_and_prompt_results_parse() {
    let read_payload = obj(vec![(
        "contents",
        Json::Arr(vec![obj(vec![
            ("uri", s("file:///a.txt")),
            ("mimeType", s("text/plain")),
            ("text", s("hello")),
        ])]),
    )]);
    let contents = parse_resource_contents(&read_payload).unwrap();
    assert_eq!(contents.len(), 1);
    assert_eq!(contents[0].uri, b"file:///a.txt".to_vec());
    assert_eq!(contents[0].mime.as_ref().unwrap(), &b"text/plain".to_vec());
    assert_eq!(contents[0].body.as_ref().unwrap(), &b"hello".to_vec());
    assert!(contents[0].blob.is_none());

    let prompt_payload = obj(vec![
        ("description", s("greets")),
        (
            "messages",
            Json::Arr(vec![obj(vec![
                ("role", s("user")),
                ("content", obj(vec![("type", s("text")), ("text", s("hi there"))])),
            ])]),
        ),
    ]);
    let (description, messages) = parse_prompt_result(&prompt_payload).unwrap();
    assert_eq!(description.unwrap(), b"greets".to_vec());
    assert_eq!(messages.len(), 1);
    assert_eq!(messages[0].role, b"user".to_vec());
    assert!(matches!(&messages[0].content, Content::Text(t) if t == &b"hi there".to_vec()));

    // a malformed entry is a codec error
    let bad = obj(vec![("contents", Json::Arr(vec![obj(vec![("mimeType", s("x"))])]))]);
    assert!(parse_resource_contents(&bad).is_err());
}
