//! Protocol messages: requests, responses and notifications.
//!
//! Every request carries a correlation id that the matching response echoes;
//! notifications carry no id and expect no reply.

use vstd::prelude::*;

use crate::json::Json;

verus! {

/// The payload of a response: a success result or a structured error.
pub enum RespBody {
    Success(Json),
    Failure { code: i64, message: Vec<u8> },
}

/// A protocol message.
pub enum Message {
    Request { id: u64, method: Vec<u8>, params: Option<Json> },
    Response { id: u64, body: RespBody },
    Notification { method: Vec<u8>, params: Option<Json> },
}

} // verus!
