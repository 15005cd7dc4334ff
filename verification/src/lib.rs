//! Client-side core of a line-framed RPC protocol that exposes tools,
//! resources and prompts over a byte-stream transport.
//!
//! The crate is organised leaves-first:
//! - [`json`]: a small JSON-like value type, its canonical encoder and a parser;
//! - [`message`]: the protocol `Message` (request / response / notification);
//! - [`codec`]: framing of messages to and from wire bytes, with a round-trip proof;
//! - [`session`]: the session state machine (handshake, demultiplexing, shutdown);
//! - [`client`]: the typed operation layer (list/call tools, resources, prompts);
//! - [`cli`]: parsing of command-line tokens and of interactive-mode lines.
//!
//! All text is carried as `Vec<u8>` (UTF-8 bytes); input/output and process
//! management live outside the library and hand plain byte values in and out.

use vstd::prelude::*;

pub mod cli;
pub mod client;
pub mod codec;
pub mod json;
pub mod message;
pub mod session;

verus! {

/// The error taxonomy of the client core.
///
/// `Usage` reports malformed caller input before anything is sent; `Codec`
/// reports a malformed frame or payload; `Protocol` carries a well-formed
/// error response from the peer (the session stays usable); `NotReady` rejects
/// a request issued before the handshake completed; `HandshakeFailed` reports
/// a failed or interrupted handshake; `ConnectionClosed` is fatal to the
/// session and resolves every pending request.
#[derive(Clone, Debug)]
pub enum ClientError {
    Usage,
    Codec,
    Protocol { code: i64, message: Vec<u8> },
    NotReady,
    HandshakeFailed,
    ConnectionClosed,
}

} // verus!
