//! Framing of messages: one message per newline-terminated JSON object.
//!
//! A request carries `id`, `method` and optional `params`; a response echoes
//! `id` and carries `result` or `error` (an object with `code` and
//! `message`); a notification carries `method` without `id`. Every encoded
//! frame also carries the protocol-version member; the decoder accepts
//! frames with or without it. Decoding rejects anything else — a response
//! without an id, an unknown shape, malformed text — with a codec error
//! rather than a panic.

use vstd::prelude::*;

use crate::ClientError;
use crate::json::{
    ascii_of, enc_value, json_encode, json_parse, json_view, lemma_parse_of_encode, spec_obj_get,
    spec_parse, str_bytes, views_of_pairs, Json, JsonV,
};
use crate::message::{Message, RespBody};

verus! {

/// The mathematical shape of a response body.
pub enum RespBodyV {
    Success(JsonV),
    Failure { code: int, message: Seq<u8> },
}

/// The mathematical shape of a message.
pub enum MessageV {
    Request { id: int, method: Seq<u8>, params: Option<JsonV> },
    Response { id: int, body: RespBodyV },
    Notification { method: Seq<u8>, params: Option<JsonV> },
}

impl View for RespBody {
    type V = RespBodyV;

    open spec fn view(&self) -> RespBodyV {
        match *self {
            RespBody::Success(v) => RespBodyV::Success(v@),
            RespBody::Failure { code, message } => RespBodyV::Failure {
                code: code as int,
                message: message@,
            },
        }
    }
}

/// The view of an optional payload.
pub open spec fn opt_view(p: Option<Json>) -> Option<JsonV> {
    match p {
        Some(v) => Some(v@),
        None => None,
    }
}

impl View for Message {
    type V = MessageV;

    open spec fn view(&self) -> MessageV {
        match *self {
            Message::Request { id, method, params } => MessageV::Request {
                id: id as int,
                method: method@,
                params: opt_view(params),
            },
            Message::Response { id, body } => MessageV::Response { id: id as int, body: body@ },
            Message::Notification { method, params } => MessageV::Notification {
                method: method@,
                params: opt_view(params),
            },
        }
    }
}

/// The protocol-version member that every encoded message carries.
pub open spec fn version_member() -> (Seq<u8>, JsonV) {
    (ascii_of("jsonrpc"@), JsonV::Str(ascii_of("2.0"@)))
}

/// The member that `params` contributes, when present.
pub open spec fn params_members(p: Option<JsonV>) -> Seq<(Seq<u8>, JsonV)> {
    match p {
        Some(v) => seq![(ascii_of("params"@), v)],
        None => Seq::empty(),
    }
}

/// The JSON object that carries a message.
pub open spec fn msg_json(m: MessageV) -> JsonV {
    match m {
        MessageV::Request { id, method, params } => JsonV::Obj(
            seq![
                version_member(),
                (ascii_of("id"@), JsonV::Int(id)),
                (ascii_of("method"@), JsonV::Str(method)),
            ] + params_members(params),
        ),
        MessageV::Response { id, body } => match body {
            RespBodyV::Success(v) => JsonV::Obj(
                seq![version_member(), (ascii_of("id"@), JsonV::Int(id)), (ascii_of("result"@), v)],
            ),
            RespBodyV::Failure { code, message } => JsonV::Obj(
                seq![
                    version_member(),
                    (ascii_of("id"@), JsonV::Int(id)),
                    (
                        ascii_of("error"@),
                        JsonV::Obj(
                            seq![
                                (ascii_of("code"@), JsonV::Int(code)),
                                (ascii_of("message"@), JsonV::Str(message)),
                            ],
                        ),
                    ),
                ],
            ),
        },
        MessageV::Notification { method, params } => JsonV::Obj(
            seq![version_member(), (ascii_of("method"@), JsonV::Str(method))] + params_members(
                params,
            ),
        ),
    }
}

/// The wire frame of a message: its JSON text and a terminating newline.
pub open spec fn spec_frame(m: MessageV) -> Seq<u8> {
    enc_value(msg_json(m)) + seq![10u8]
}

/// Whether a message is expressible on the wire: correlation ids fit the
/// signed 64-bit numbers that the framing carries.
pub open spec fn msg_wf(m: MessageV) -> bool {
    match m {
        MessageV::Request { id, .. } => 0 <= id <= 0x7fff_ffff_ffff_ffff,
        MessageV::Response { id, .. } => 0 <= id <= 0x7fff_ffff_ffff_ffff,
        MessageV::Notification { .. } => true,
    }
}

/// Builds the JSON object that carries `m`.
pub fn msg_to_json(m: Message) -> (r: Json)
    requires
        msg_wf(m@),
    ensures
        r@ == msg_json(m@),
{
    proof {
        reveal_strlit("id");
        reveal_strlit("method");
        reveal_strlit("params");
        reveal_strlit("result");
        reveal_strlit("error");
        reveal_strlit("code");
        reveal_strlit("message");
        reveal_strlit("jsonrpc");
        reveal_strlit("2.0");
    }
    match m {
        Message::Request { id, method, params } => {
            let mut o: Vec<(Vec<u8>, Json)> = Vec::new();
            o.push((str_bytes("jsonrpc"), Json::Str(str_bytes("2.0"))));
            o.push((str_bytes("id"), int_of_u64(id)));
            o.push((str_bytes("method"), Json::Str(method)));
            match params {
                Some(p) => {
                    o.push((str_bytes("params"), p));
                },
                None => {},
            }
            let r = Json::Obj(o);
            proof {
                let ghost ps = r->Obj_0@;
                crate::json::lemma_views_of_pairs(ps);
                assert forall|i: int|
                    0 <= i < views_of_pairs(ps).len() implies views_of_pairs(ps)[i] == msg_json(
                    m@,
                )->Obj_0[i] by {
                    assert(ps[i] == ps[i]);
                }
                assert(views_of_pairs(ps) =~= msg_json(m@)->Obj_0);
            }
            r
        },
        Message::Response { id, body } => {
            let mut o: Vec<(Vec<u8>, Json)> = Vec::new();
            o.push((str_bytes("jsonrpc"), Json::Str(str_bytes("2.0"))));
            o.push((str_bytes("id"), int_of_u64(id)));
            match body {
                RespBody::Success(v) => {
                    o.push((str_bytes("result"), v));
                },
                RespBody::Failure { code, message } => {
                    let mut e: Vec<(Vec<u8>, Json)> = Vec::new();
                    e.push((str_bytes("code"), Json::Int(code)));
                    e.push((str_bytes("message"), Json::Str(message)));
                    proof {
                        crate::json::lemma_views_of_pairs(e@);
                        assert(views_of_pairs(e@)[0] == (e@[0].0@, json_view(e@[0].1)));
                        assert(views_of_pairs(e@)[1] == (e@[1].0@, json_view(e@[1].1)));
                        assert(views_of_pairs(e@) =~= seq![
                            (ascii_of("code"@), JsonV::Int(code as int)),
                            (ascii_of("message"@), JsonV::Str(message@)),
                        ]);
                    }
                    o.push((str_bytes("error"), Json::Obj(e)));
                },
            }
            let r = Json::Obj(o);
            proof {
                let ghost ps = r->Obj_0@;
                crate::json::lemma_views_of_pairs(ps);
                assert forall|i: int|
                    0 <= i < views_of_pairs(ps).len() implies views_of_pairs(ps)[i] == msg_json(
                    m@,
                )->Obj_0[i] by {
                    assert(ps[i] == ps[i]);
                }
                assert(views_of_pairs(ps) =~= msg_json(m@)->Obj_0);
            }
            r
        },
        Message::Notification { method, params } => {
            let mut o: Vec<(Vec<u8>, Json)> = Vec::new();
            o.push((str_bytes("jsonrpc"), Json::Str(str_bytes("2.0"))));
            o.push((str_bytes("method"), Json::Str(method)));
            match params {
                Some(p) => {
                    o.push((str_bytes("params"), p));
                },
                None => {},
            }
            let r = Json::Obj(o);
            proof {
                let ghost ps = r->Obj_0@;
                crate::json::lemma_views_of_pairs(ps);
                assert forall|i: int|
                    0 <= i < views_of_pairs(ps).len() implies views_of_pairs(ps)[i] == msg_json(
                    m@,
                )->Obj_0[i] by {
                    assert(ps[i] == ps[i]);
                }
                assert(views_of_pairs(ps) =~= msg_json(m@)->Obj_0);
            }
            r
        },
    }
}

/// A JSON number for a correlation id.
fn int_of_u64(id: u64) -> (r: Json)
    requires
        id <= 0x7fff_ffff_ffff_ffff,
    ensures
        r@ == JsonV::Int(id as int),
{
    Json::Int(id as i64)
}

// ------------------------------------------------------------------
// Decoding
// ------------------------------------------------------------------

/// The first value bound to `key` in a member list.
pub open spec fn obj_getv(pairs: Seq<(Seq<u8>, JsonV)>, key: Seq<u8>) -> Option<JsonV>
    decreases pairs.len(),
{
    if pairs.len() == 0 {
        None
    } else if pairs[0].0 == key {
        Some(pairs[0].1)
    } else {
        obj_getv(pairs.drop_first(), key)
    }
}

/// Looking a key up in the view of a member list is looking it up in the
/// member list and taking the view.
pub proof fn lemma_obj_getv(pairs: Seq<(Vec<u8>, Json)>, key: Seq<u8>)
    ensures
        obj_getv(views_of_pairs(pairs), key) == match spec_obj_get(pairs, key) {
            Some(j) => Some(json_view(j)),
            None => None::<JsonV>,
        },
    decreases pairs.len(),
{
    crate::json::lemma_views_of_pairs(pairs);
    if pairs.len() > 0 {
        assert(views_of_pairs(pairs)[0] == (pairs[0].0@, json_view(pairs[0].1)));
        assert(views_of_pairs(pairs).drop_first() =~= views_of_pairs(pairs.drop_first()));
        if pairs[0].0@ != key {
            lemma_obj_getv(pairs.drop_first(), key);
        }
    }
}

/// The message carried by an error member: an object holding a numeric
/// `code` and a string `message`.
pub open spec fn spec_err_of(id: int, ev: JsonV) -> Option<MessageV> {
    match ev {
        JsonV::Obj(eo) => match (obj_getv(eo, ascii_of("code"@)), obj_getv(
            eo,
            ascii_of("message"@),
        )) {
            (Some(JsonV::Int(code)), Some(JsonV::Str(msg))) => if -0x8000_0000_0000_0000 <= code
                <= 0x7fff_ffff_ffff_ffff {
                Some(MessageV::Response { id, body: RespBodyV::Failure { code, message: msg } })
            } else {
                None
            },
            _ => None,
        },
        _ => None,
    }
}

/// The message carried by a JSON value, if any: a `result` or `error` member
/// makes it a response and demands an id; otherwise a `method` member makes
/// it a request (with an id) or a notification (without).
pub open spec fn spec_msg_of(v: JsonV) -> Option<MessageV> {
    match v {
        JsonV::Obj(o) => {
            let idv = obj_getv(o, ascii_of("id"@));
            let resultv = obj_getv(o, ascii_of("result"@));
            let errorv = obj_getv(o, ascii_of("error"@));
            let methodv = obj_getv(o, ascii_of("method"@));
            let paramsv = obj_getv(o, ascii_of("params"@));
            if resultv is Some || errorv is Some {
                match idv {
                    Some(JsonV::Int(id)) => if 0 <= id <= 0x7fff_ffff_ffff_ffff {
                        match (resultv, errorv) {
                            (Some(rv), None) => Some(
                                MessageV::Response { id, body: RespBodyV::Success(rv) },
                            ),
                            (None, Some(ev)) => spec_err_of(id, ev),
                            _ => None,
                        }
                    } else {
                        None
                    },
                    _ => None,
                }
            } else {
                match methodv {
                    Some(JsonV::Str(method)) => match idv {
                        Some(JsonV::Int(id)) => if 0 <= id <= 0x7fff_ffff_ffff_ffff {
                            Some(MessageV::Request { id, method, params: paramsv })
                        } else {
                            None
                        },
                        Some(_) => None,
                        None => Some(MessageV::Notification { method, params: paramsv }),
                    },
                    _ => None,
                }
            }
        },
        _ => None,
    }
}

/// Reads the message carried by a JSON value; anything else is a codec error.
pub fn json_to_msg(j: &Json) -> (r: Result<Message, ClientError>)
    ensures
        match spec_msg_of(j@) {
            Some(mv) => r matches Ok(m) && m@ == mv,
            None => r == Err::<Message, ClientError>(ClientError::Codec),
        },
{
    proof {
        reveal_strlit("id");
        reveal_strlit("method");
        reveal_strlit("params");
        reveal_strlit("result");
        reveal_strlit("error");
        reveal_strlit("code");
        reveal_strlit("message");
        match j {
            Json::Obj(o) => {
                lemma_obj_getv(o@, ascii_of("id"@));
                lemma_obj_getv(o@, ascii_of("result"@));
                lemma_obj_getv(o@, ascii_of("error"@));
                lemma_obj_getv(o@, ascii_of("method"@));
                lemma_obj_getv(o@, ascii_of("params"@));
            },
            _ => {},
        }
    }
    let ido = j.obj_get(str_bytes("id").as_slice());
    let reso = j.obj_get(str_bytes("result").as_slice());
    let erro = j.obj_get(str_bytes("error").as_slice());
    if reso.is_some() || erro.is_some() {
        let id: u64 = match ido {
            Some(Json::Int(n)) => {
                if *n >= 0 {
                    *n as u64
                } else {
                    return Err(ClientError::Codec);
                }
            },
            _ => {
                return Err(ClientError::Codec);
            },
        };
        match (reso, erro) {
            (Some(rv), None) => Ok(
                Message::Response { id, body: RespBody::Success(rv.duplicate()) },
            ),
            (None, Some(ev)) => {
                proof {
                    match ev {
                        Json::Obj(eo) => {
                            lemma_obj_getv(eo@, ascii_of("code"@));
                            lemma_obj_getv(eo@, ascii_of("message"@));
                        },
                        _ => {},
                    }
                }
                let code: i64 = match ev.obj_get(str_bytes("code").as_slice()) {
                    Some(Json::Int(c)) => *c,
                    _ => {
                        return Err(ClientError::Codec);
                    },
                };
                let msgb: Vec<u8> = match ev.obj_get(str_bytes("message").as_slice()) {
                    Some(Json::Str(s)) => vstd::slice::slice_to_vec(s.as_slice()),
                    _ => {
                        return Err(ClientError::Codec);
                    },
                };
                Ok(Message::Response { id, body: RespBody::Failure { code, message: msgb } })
            },
            _ => Err(ClientError::Codec),
        }
    } else {
        let method: Vec<u8> = match j.obj_get(str_bytes("method").as_slice()) {
            Some(Json::Str(s)) => vstd::slice::slice_to_vec(s.as_slice()),
            _ => {
                return Err(ClientError::Codec);
            },
        };
        let params: Option<Json> = match j.obj_get(str_bytes("params").as_slice()) {
            Some(p) => Some(p.duplicate()),
            None => None,
        };
        match ido {
            Some(Json::Int(n)) => {
                if *n >= 0 {
                    Ok(Message::Request { id: *n as u64, method, params })
                } else {
                    Err(ClientError::Codec)
                }
            },
            Some(_) => Err(ClientError::Codec),
            None => Ok(Message::Notification { method, params }),
        }
    }
}

/// Encodes a message as one wire frame: its JSON text and a newline.
pub fn encode_message(m: Message) -> (r: Vec<u8>)
    requires
        msg_wf(m@),
    ensures
        r@ == spec_frame(m@),
{
    let j = msg_to_json(m);
    let mut out = json_encode(&j);
    out.push(10u8);
    proof {
        assert(out@ =~= spec_frame(m@));
    }
    out
}

/// The message denoted by a frame, if any.
pub open spec fn spec_decode(bytes: Seq<u8>) -> Option<MessageV> {
    match spec_parse(bytes) {
        Some(v) => spec_msg_of(v),
        None => None,
    }
}

/// Decodes one frame. The decode is exact — the result is the message the
/// frame denotes — and total: a malformed frame yields a codec error, never
/// a panic.
pub fn decode_frame(bytes: &[u8]) -> (r: Result<Message, ClientError>)
    ensures
        match spec_decode(bytes@) {
            Some(mv) => r matches Ok(m) && m@ == mv,
            None => r == Err::<Message, ClientError>(ClientError::Codec),
        },
{
    match json_parse(bytes) {
        Some(v) => json_to_msg(&v),
        None => Err(ClientError::Codec),
    }
}


// ------------------------------------------------------------------
// Round trip
// ------------------------------------------------------------------

/// Whether a message's payloads are representable values: integers in them
/// fit signed 64 bits.
pub open spec fn msg_payload_wf(m: MessageV) -> bool {
    match m {
        MessageV::Request { params, .. } => match params {
            Some(v) => crate::json::json_wf(v),
            None => true,
        },
        MessageV::Notification { params, .. } => match params {
            Some(v) => crate::json::json_wf(v),
            None => true,
        },
        MessageV::Response { body, .. } => match body {
            RespBodyV::Success(v) => crate::json::json_wf(v),
            RespBodyV::Failure { code, .. } => -0x8000_0000_0000_0000 <= code
                <= 0x7fff_ffff_ffff_ffff,
        },
    }
}

/// Round-trip law: encoding any expressible message and decoding the frame
/// yields the same message — in particular, the correlation id is echoed
/// unchanged. (Decoding a malformed frame yields `None`, and the executable
/// decoder then returns a codec error rather than panicking, by its
/// contract.)
#[verifier::rlimit(60)]
pub proof fn lemma_message_round_trip(m: MessageV)
    requires
        msg_wf(m),
        msg_payload_wf(m),
    ensures
        spec_decode(spec_frame(m)) == Some(m),
{
    reveal_strlit("jsonrpc");
    reveal_strlit("2.0");
    reveal_strlit("id");
    reveal_strlit("method");
    reveal_strlit("params");
    reveal_strlit("result");
    reveal_strlit("error");
    reveal_strlit("code");
    reveal_strlit("message");
    reveal_with_fuel(obj_getv, 7);
    let j = msg_json(m);
    let o = j->Obj_0;
    let vm = version_member();
    let kid = ascii_of("id"@);
    let kmethod = ascii_of("method"@);
    let kparams = ascii_of("params"@);
    let kresult = ascii_of("result"@);
    let kerror = ascii_of("error"@);
    assert(kid.len() == 2 && kmethod.len() == 6 && kparams.len() == 6 && kresult.len() == 6
        && kerror.len() == 5 && vm.0.len() == 7);
    assert(kmethod[0] == 'm' as u8 && kparams[0] == 'p' as u8 && kresult[0] == 'r' as u8);
    // the carried object is well-formed, so its text parses back
    match m {
        MessageV::Request { id, method, params } => {
            let base = seq![vm, (kid, JsonV::Int(id)), (kmethod, JsonV::Str(method))];
            assert(o == base + params_members(params));
            assert forall|k: int| 0 <= k < o.len() implies crate::json::json_wf(
                (#[trigger] o[k]).1,
            ) by {}
            assert(crate::json::json_wf(j));
            lemma_parse_of_encode(j, seq![10u8]);
            // the lookups that classify the object
            match params {
                Some(p) => {
                    assert(o.len() == 4);
                    assert(o.drop_first() =~= seq![(kid, JsonV::Int(id)), (
                    kmethod,
                    JsonV::Str(method),
                    )] + params_members(params));
                    assert(o.drop_first().drop_first() =~= seq![(kmethod, JsonV::Str(method))]
                        + params_members(params));
                    assert(o.drop_first().drop_first().drop_first() =~= seq![(kparams, p)]);
                    assert(o.drop_first().drop_first().drop_first().drop_first()
                        =~= Seq::<(Seq<u8>, JsonV)>::empty());
                },
                None => {
                    assert(o.len() == 3);
                    assert(o.drop_first() =~= seq![(kid, JsonV::Int(id)), (
                    kmethod,
                    JsonV::Str(method),
                    )]);
                    assert(o.drop_first().drop_first() =~= seq![(kmethod, JsonV::Str(method))]);
                    assert(o.drop_first().drop_first().drop_first()
                        =~= Seq::<(Seq<u8>, JsonV)>::empty());
                },
            }
            assert(obj_getv(o, kid) == Some(JsonV::Int(id)));
            assert(obj_getv(o, kresult) is None);
            assert(obj_getv(o, kerror) is None);
            assert(obj_getv(o, kmethod) == Some(JsonV::Str(method)));
            assert(obj_getv(o, kparams) == params);
            assert(spec_msg_of(j) == Some(m));
        },
        MessageV::Response { id, body } => {
            match body {
                RespBodyV::Success(v) => {
                    assert(o == seq![vm, (kid, JsonV::Int(id)), (kresult, v)]);
                    assert forall|k: int| 0 <= k < o.len() implies crate::json::json_wf(
                        (#[trigger] o[k]).1,
                    ) by {}
                    assert(crate::json::json_wf(j));
                    lemma_parse_of_encode(j, seq![10u8]);
                    assert(o.drop_first() =~= seq![(kid, JsonV::Int(id)), (kresult, v)]);
                    assert(o.drop_first().drop_first() =~= seq![(kresult, v)]);
                    assert(o.drop_first().drop_first().drop_first()
                        =~= Seq::<(Seq<u8>, JsonV)>::empty());
                    assert(obj_getv(o, kid) == Some(JsonV::Int(id)));
                    assert(obj_getv(o, kresult) == Some(v));
                    assert(obj_getv(o, kerror) is None);
                    assert(spec_msg_of(j) == Some(m));
                },
                RespBodyV::Failure { code, message } => {
                    let kcode = ascii_of("code"@);
                    let kmessage = ascii_of("message"@);
                    assert(kcode.len() == 4 && kmessage.len() == 7);
                    let eo = seq![(kcode, JsonV::Int(code)), (kmessage, JsonV::Str(message))];
                    assert(o == seq![vm, (kid, JsonV::Int(id)), (kerror, JsonV::Obj(eo))]);
                    assert forall|k: int| 0 <= k < eo.len() implies crate::json::json_wf(
                        (#[trigger] eo[k]).1,
                    ) by {}
                    assert(crate::json::json_wf(JsonV::Obj(eo)));
                    assert forall|k: int| 0 <= k < o.len() implies crate::json::json_wf(
                        (#[trigger] o[k]).1,
                    ) by {}
                    assert(crate::json::json_wf(j));
                    lemma_parse_of_encode(j, seq![10u8]);
                    assert(o.drop_first() =~= seq![(kid, JsonV::Int(id)), (
                    kerror,
                    JsonV::Obj(eo),
                    )]);
                    assert(o.drop_first().drop_first() =~= seq![(kerror, JsonV::Obj(eo))]);
                    assert(o.drop_first().drop_first().drop_first()
                        =~= Seq::<(Seq<u8>, JsonV)>::empty());
                    assert(eo.drop_first() =~= seq![(kmessage, JsonV::Str(message))]);
                    assert(eo.drop_first().drop_first() =~= Seq::<(Seq<u8>, JsonV)>::empty());
                    assert(obj_getv(o, kid) == Some(JsonV::Int(id)));
                    assert(obj_getv(o, kresult) is None);
                    assert(obj_getv(o, kerror) == Some(JsonV::Obj(eo)));
                    assert(obj_getv(eo, kcode) == Some(JsonV::Int(code)));
                    assert(obj_getv(eo, kmessage) == Some(JsonV::Str(message)));
                    assert(spec_err_of(id, JsonV::Obj(eo)) == Some(m));
                    assert(spec_msg_of(j) == Some(m));
                },
            }
        },
        MessageV::Notification { method, params } => {
            assert(o == seq![vm, (kmethod, JsonV::Str(method))] + params_members(params));
            assert forall|k: int| 0 <= k < o.len() implies crate::json::json_wf(
                (#[trigger] o[k]).1,
            ) by {}
            assert(crate::json::json_wf(j));
            lemma_parse_of_encode(j, seq![10u8]);
            match params {
                Some(p) => {
                    assert(o.len() == 3);
                    assert(o.drop_first() =~= seq![(kmethod, JsonV::Str(method))]
                        + params_members(params));
                    assert(o.drop_first().drop_first() =~= seq![(kparams, p)]);
                    assert(o.drop_first().drop_first().drop_first()
                        =~= Seq::<(Seq<u8>, JsonV)>::empty());
                },
                None => {
                    assert(o.len() == 2);
                    assert(o.drop_first() =~= seq![(kmethod, JsonV::Str(method))]);
                    assert(o.drop_first().drop_first() =~= Seq::<(Seq<u8>, JsonV)>::empty());
                },
            }
            assert(obj_getv(o, kid) is None);
            assert(obj_getv(o, kresult) is None);
            assert(obj_getv(o, kerror) is None);
            assert(obj_getv(o, kmethod) == Some(JsonV::Str(method)));
            assert(obj_getv(o, kparams) == params);
            assert(spec_msg_of(j) == Some(m));
        },
    }
}

} // verus!
