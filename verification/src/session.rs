//! The session state machine.
//!
//! A session owns one transport, runs a receive loop beside it, and pairs
//! inbound responses with pending outbound requests by correlation id. The
//! functions here are the decisions of that machine: what to send, how to
//! route a decoded inbound message, and how to sweep pending requests when
//! the transport closes. The surrounding process performs the transmission
//! and suspension that the decisions call for.

use vstd::prelude::*;

use crate::ClientError;
use crate::json::{ascii_of, spec_get, str_bytes, Json};
use crate::message::{Message, RespBody};

verus! {

broadcast use vstd::seq_lib::group_filter_ensures;

/// The lifecycle of a session.
pub enum SessionState {
    Created,
    Handshaking,
    Ready,
    Closed,
}

/// Server metadata captured at handshake.
pub struct ServerInfo {
    pub name: Vec<u8>,
    pub version: Vec<u8>,
}

/// The resolution of one pending request: its correlation id and the result
/// or error delivered to the caller that issued it.
pub struct Completion {
    pub id: u64,
    pub outcome: Result<Json, ClientError>,
}

/// Where one inbound message was routed.
pub enum Routed {
    /// A response matched a pending request, which it resolves.
    Completed(Completion),
    /// The initialize response arrived well-formed: the session is ready.
    HandshakeDone,
    /// The initialize exchange failed: the session is closed.
    HandshakeFault,
    /// A notification, for the registered handler if any.
    Notify { method: Vec<u8>, params: Option<Json> },
    /// A stray or unknown frame, logged and discarded.
    Dropped,
}

/// The session: transport ownership is modelled by the surrounding process
/// feeding every received frame to exactly one session value.
pub struct Session {
    pub state: SessionState,
    pub next_id: u64,
    pub pending: Vec<u64>,
    pub handshake_id: u64,
    pub server: Option<ServerInfo>,
}

/// Keeps every id other than `id`.
pub open spec fn keep_not(id: u64) -> spec_fn(u64) -> bool {
    |x: u64| x != id
}

/// The pending ids once `id` is resolved or swept.
pub open spec fn without_id(pending: Seq<u64>, id: u64) -> Seq<u64> {
    pending.filter(keep_not(id))
}

/// The outcome delivered for a response body: the payload on success, a
/// protocol error on failure.
pub open spec fn outcome_of(body: RespBody) -> Result<Json, ClientError> {
    match body {
        RespBody::Success(v) => Ok(v),
        RespBody::Failure { code, message } => Err(ClientError::Protocol { code, message }),
    }
}

/// The method name of the handshake request.
pub open spec fn spec_init_method() -> Seq<u8> {
    ascii_of("initialize"@)
}

/// Server metadata read from an initialize result: the `name` and `version`
/// strings of its `serverInfo` object.
pub open spec fn spec_server_info(v: Json) -> Option<(Seq<u8>, Seq<u8>)> {
    match spec_get(v, ascii_of("serverInfo"@)) {
        Some(si) => match (spec_get(si, ascii_of("name"@)), spec_get(si, ascii_of("version"@))) {
            (Some(Json::Str(n)), Some(Json::Str(ver))) => Some((n@, ver@)),
            _ => None,
        },
        None => None,
    }
}

/// Server metadata from an initialize result, or `None` when it is malformed.
pub fn parse_server_info(v: &Json) -> (r: Option<ServerInfo>)
    ensures
        match spec_server_info(*v) {
            Some(nv) => r matches Some(info) && info.name@ == nv.0 && info.version@ == nv.1,
            None => r is None,
        },
{
    proof {
        reveal_strlit("serverInfo");
        reveal_strlit("name");
        reveal_strlit("version");
    }
    let si = match v.obj_get(str_bytes("serverInfo").as_slice()) {
        Some(si) => si,
        None => {
            return None;
        },
    };
    let name = match si.obj_get(str_bytes("name").as_slice()) {
        Some(Json::Str(n)) => vstd::slice::slice_to_vec(n.as_slice()),
        _ => {
            return None;
        },
    };
    let version = match si.obj_get(str_bytes("version").as_slice()) {
        Some(Json::Str(n)) => vstd::slice::slice_to_vec(n.as_slice()),
        _ => {
            return None;
        },
    };
    Some(ServerInfo { name, version })
}

/// Keeps every pending id but `id`, in order.
#[verifier::loop_isolation(false)]
fn remove_id(pending: &mut Vec<u64>, id: u64)
    ensures
        final(pending)@ == without_id(old(pending)@, id),
{
    let mut out: Vec<u64> = Vec::new();
    let mut i: usize = 0;
    proof {
        reveal(Seq::filter);
        assert(pending@.subrange(0, 0) =~= Seq::<u64>::empty());
    }
    while i < pending.len()
        invariant
            i <= pending.len(),
            out@ == without_id(pending@.subrange(0, i as int), id),
        decreases pending.len() - i,
    {
        proof {
            reveal(Seq::filter);
            assert(pending@.subrange(0, i as int + 1).drop_last() =~= pending@.subrange(
                0,
                i as int,
            ));
            assert(pending@.subrange(0, i as int + 1).last() == pending@[i as int]);
        }
        let x = pending[i];
        if x != id {
            out.push(x);
        }
        i += 1;
    }
    proof {
        assert(pending@.subrange(0, pending@.len() as int) =~= pending@);
    }
    *pending = out;
}

/// Whether `id` is pending.
#[verifier::loop_isolation(false)]
fn contains_id(pending: &Vec<u64>, id: u64) -> (r: bool)
    ensures
        r == pending@.contains(id),
{
    let mut i: usize = 0;
    while i < pending.len()
        invariant
            i <= pending.len(),
            forall|j: int| 0 <= j < i ==> pending@[j] != id,
        decreases pending.len() - i,
    {
        if pending[i] == id {
            return true;
        }
        i += 1;
    }
    false
}

/// Every element of a filtered sequence is an element of the original that
/// satisfies the predicate.
pub proof fn lemma_filter_subset<A>(s: Seq<A>, pred: spec_fn(A) -> bool, x: A)
    requires
        s.filter(pred).contains(x),
    ensures
        s.contains(x),
        pred(x),
    decreases s.len(),
{
    reveal(Seq::filter);
    if s.len() > 0 {
        let dl = s.drop_last();
        if pred(s.last()) && x == s.last() {
            assert(s[s.len() - 1] == x);
        } else {
            assert(dl.filter(pred).contains(x));
            lemma_filter_subset(dl, pred, x);
            let i = choose|i: int| 0 <= i < dl.len() && dl[i] == x;
            assert(s[i] == x);
        }
    }
}

/// Filtering keeps a sequence free of duplicates.
pub proof fn lemma_filter_no_dup<A>(s: Seq<A>, pred: spec_fn(A) -> bool)
    requires
        s.no_duplicates(),
    ensures
        s.filter(pred).no_duplicates(),
    decreases s.len(),
{
    reveal(Seq::filter);
    if s.len() > 0 {
        let dl = s.drop_last();
        assert(dl.no_duplicates());
        lemma_filter_no_dup(dl, pred);
        if pred(s.last()) {
            if dl.filter(pred).contains(s.last()) {
                lemma_filter_subset(dl, pred, s.last());
                let i = choose|i: int| 0 <= i < dl.len() && dl[i] == s.last();
                assert(s[i] == s[s.len() - 1]);
                assert(false);
            }
            assert(s.filter(pred) == dl.filter(pred).push(s.last()));
        }
    }
}

/// Resolving two distinct pending ids leaves the same pending set whichever
/// response arrives first, and resolving one id never unregisters the other:
/// demultiplexing is insensitive to response arrival order.
pub proof fn lemma_demux_order_independent(pending: Seq<u64>, id1: u64, id2: u64)
    requires
        id1 != id2,
    ensures
        without_id(without_id(pending, id1), id2) == without_id(without_id(pending, id2), id1),
        without_id(pending, id1).contains(id2) <==> pending.contains(id2),
    decreases pending.len(),
{
    reveal(Seq::filter);
    if pending.len() == 0 {
        assert(without_id(pending, id1) =~= pending);
        assert(without_id(pending, id2) =~= pending);
    } else {
        let dl = pending.drop_last();
        let x = pending.last();
        lemma_demux_order_independent(dl, id1, id2);
        if x != id1 {
            assert(without_id(pending, id1) == without_id(dl, id1).push(x));
            assert(without_id(dl, id1).push(x).drop_last() =~= without_id(dl, id1));
        }
        if x != id2 {
            assert(without_id(pending, id2) == without_id(dl, id2).push(x));
            assert(without_id(dl, id2).push(x).drop_last() =~= without_id(dl, id2));
        }
        // order independence of the double removal
        if x != id1 && x != id2 {
            assert(without_id(without_id(pending, id1), id2) == without_id(
                without_id(dl, id1),
                id2,
            ).push(x));
            assert(without_id(without_id(pending, id2), id1) == without_id(
                without_id(dl, id2),
                id1,
            ).push(x));
        } else if x == id1 {
            assert(without_id(pending, id1) == without_id(dl, id1));
            assert(without_id(without_id(pending, id2), id1) == without_id(
                without_id(dl, id2),
                id1,
            ));
        } else {
            assert(without_id(pending, id2) == without_id(dl, id2));
            assert(without_id(without_id(pending, id1), id2) == without_id(
                without_id(dl, id1),
                id2,
            ));
        }
        // membership of the other id is untouched
        if pending.contains(id2) {
            if x == id2 {
                assert(without_id(pending, id1).last() == id2);
                assert(without_id(pending, id1).contains(id2));
            } else {
                let i = choose|i: int| 0 <= i < pending.len() && pending[i] == id2;
                assert(dl[i] == id2);
                assert(dl.contains(id2));
                assert(without_id(dl, id1).contains(id2));
                if x != id1 {
                    let j = choose|j: int|
                        0 <= j < without_id(dl, id1).len() && without_id(dl, id1)[j] == id2;
                    assert(without_id(pending, id1)[j] == id2);
                }
                assert(without_id(pending, id1).contains(id2));
            }
        }
        if without_id(pending, id1).contains(id2) {
            lemma_filter_subset(pending, keep_not(id1), id2);
        }
    }
}

impl Session {
    /// The internal invariant: pending ids are distinct and below the id
    /// generator, and each lifecycle state constrains what can be pending.
    pub open spec fn wf(self) -> bool {
        &&& self.pending@.no_duplicates()
        &&& (forall|i: int|
            0 <= i < self.pending@.len() ==> #[trigger] self.pending@[i] < self.next_id)
        &&& (self.state is Created ==> self.pending@.len() == 0)
        &&& (self.state is Handshaking ==> self.pending@ =~= seq![self.handshake_id])
        &&& (self.state is Closed ==> self.pending@.len() == 0)
        &&& (self.state is Ready ==> self.server is Some)
    }

    /// A fresh session: no transport yet, nothing pending, no request issued.
    pub fn new() -> (s: Session)
        ensures
            s.wf(),
            s.state is Created,
            s.next_id == 0,
            s.pending@.len() == 0,
            s.server is None,
    {
        Session {
            state: SessionState::Created,
            next_id: 0,
            pending: Vec::new(),
            handshake_id: 0,
            server: None,
        }
    }

    /// Starts the handshake: on a fresh session, moves to `Handshaking` and
    /// returns the initialize request to transmit, whose id is the one the
    /// machine now waits for. On any other session the call is refused and
    /// nothing changes.
    pub fn begin_connect(&mut self, params: Option<Json>) -> (r: Result<Message, ClientError>)
        requires
            old(self).wf(),
            old(self).next_id < u64::MAX,
        ensures
            final(self).wf(),
            r is Ok <==> old(self).state is Created,
            old(self).state is Created ==> {
                &&& final(self).state is Handshaking
                &&& final(self).handshake_id == old(self).next_id
                &&& final(self).next_id == old(self).next_id + 1
                &&& final(self).pending@ =~= seq![old(self).next_id]
                &&& (r matches Ok(msg) && msg matches Message::Request { id, method, params: p }
                    && id == old(self).next_id && method@ == spec_init_method() && p == params)
            },
            !(old(self).state is Created) ==> *final(self) == *old(self) && r == Err::<
                Message,
                ClientError,
            >(ClientError::Usage),
    {
        match self.state {
            SessionState::Created => {
                let id = self.next_id;
                self.next_id = id + 1;
                self.handshake_id = id;
                self.pending.push(id);
                self.state = SessionState::Handshaking;
                proof {
                    reveal_strlit("initialize");
                }
                Ok(Message::Request { id, method: str_bytes("initialize"), params })
            },
            _ => Err(ClientError::Usage),
        }
    }

    /// Issues a request: on a ready session, registers a fresh correlation id
    /// and returns the request message to transmit; the caller then suspends
    /// on that id. Before the handshake the call fails with `NotReady`, after
    /// closure with `ConnectionClosed`, and nothing changes.
    pub fn begin_request(&mut self, method: Vec<u8>, params: Option<Json>) -> (r: Result<
        Message,
        ClientError,
    >)
        requires
            old(self).wf(),
            old(self).next_id < u64::MAX,
        ensures
            final(self).wf(),
            r is Ok <==> old(self).state is Ready,
            old(self).state is Ready ==> {
                &&& final(self).state is Ready
                &&& final(self).next_id == old(self).next_id + 1
                &&& final(self).pending@ == old(self).pending@.push(old(self).next_id)
                &&& final(self).server == old(self).server
                &&& final(self).handshake_id == old(self).handshake_id
                &&& r == Ok::<Message, ClientError>(
                    Message::Request { id: old(self).next_id, method, params },
                )
            },
            !(old(self).state is Ready) ==> {
                &&& *final(self) == *old(self)
                &&& (old(self).state is Closed ==> r == Err::<Message, ClientError>(
                    ClientError::ConnectionClosed,
                ))
                &&& (!(old(self).state is Closed) ==> r == Err::<Message, ClientError>(
                    ClientError::NotReady,
                ))
            },
    {
        match self.state {
            SessionState::Ready => {
                let id = self.next_id;
                self.next_id = id + 1;
                self.pending.push(id);
                Ok(Message::Request { id, method, params })
            },
            SessionState::Closed => Err(ClientError::ConnectionClosed),
            _ => Err(ClientError::NotReady),
        }
    }

    /// Routes one decoded inbound message.
    ///
    /// A response bearing a pending id resolves exactly that id — the caller
    /// that issued it receives the response's own payload, whatever order
    /// responses arrive in — and leaves the session ready. A response with an
    /// unknown id, or any request from the peer, is discarded and changes
    /// nothing. A notification changes nothing and never resolves a pending
    /// request. The initialize response moves the handshake to `Ready` when
    /// well-formed and closes the session otherwise.
    pub fn handle_message(&mut self, m: Message) -> (r: Routed)
        requires
            old(self).wf(),
        ensures
            final(self).wf(),
            final(self).next_id == old(self).next_id,
            (m matches Message::Notification { method, params } ==> *final(self) == *old(self) && r
                == Routed::Notify { method, params }),
            (m matches Message::Request { .. } ==> *final(self) == *old(self) && r is Dropped),
            (m matches Message::Response { id, body } ==> {
                let s = *old(self);
                if s.state is Handshaking && id == s.handshake_id {
                    match body {
                        RespBody::Success(v) => match spec_server_info(v) {
                            Some(nv) => {
                                &&& final(self).state is Ready
                                &&& (final(self).server matches Some(info) && info.name@ == nv.0
                                    && info.version@ == nv.1)
                                &&& final(self).pending@.len() == 0
                                &&& r is HandshakeDone
                            },
                            None => {
                                &&& final(self).state is Closed
                                &&& final(self).pending@.len() == 0
                                &&& r is HandshakeFault
                            },
                        },
                        RespBody::Failure { .. } => {
                            &&& final(self).state is Closed
                            &&& final(self).pending@.len() == 0
                            &&& r is HandshakeFault
                        },
                    }
                } else if s.state is Ready {
                    if s.pending@.contains(id) {
                        &&& r == Routed::Completed(Completion { id, outcome: outcome_of(body) })
                        &&& final(self).state is Ready
                        &&& final(self).server == s.server
                        &&& final(self).pending@ == without_id(s.pending@, id)
                    } else {
                        &&& *final(self) == s
                        &&& r is Dropped
                    }
                } else {
                    &&& *final(self) == s
                    &&& r is Dropped
                }
            }),
    {
        match m {
            Message::Notification { method, params } => Routed::Notify { method, params },
            Message::Request { .. } => Routed::Dropped,
            Message::Response { id, body } => {
                match self.state {
                    SessionState::Handshaking => {
                        if id == self.handshake_id {
                            self.pending = Vec::new();
                            match body {
                                RespBody::Success(v) => match parse_server_info(&v) {
                                    Some(info) => {
                                        self.server = Some(info);
                                        self.state = SessionState::Ready;
                                        Routed::HandshakeDone
                                    },
                                    None => {
                                        self.state = SessionState::Closed;
                                        Routed::HandshakeFault
                                    },
                                },
                                RespBody::Failure { .. } => {
                                    self.state = SessionState::Closed;
                                    Routed::HandshakeFault
                                },
                            }
                        } else {
                            Routed::Dropped
                        }
                    },
                    SessionState::Ready => {
                        if contains_id(&self.pending, id) {
                            remove_id(&mut self.pending, id);
                            proof {
                                lemma_filter_no_dup(old(self).pending@, keep_not(id));
                                assert forall|i: int|
                                    0 <= i < self.pending@.len() implies #[trigger] self.pending@[i]
                                    < self.next_id by {
                                    assert(self.pending@.contains(self.pending@[i]));
                                    lemma_filter_subset(
                                        old(self).pending@,
                                        keep_not(id),
                                        self.pending@[i],
                                    );
                                }
                            }
                            let outcome = match body {
                                RespBody::Success(v) => Ok(v),
                                RespBody::Failure { code, message } => Err(
                                    ClientError::Protocol { code, message },
                                ),
                            };
                            Routed::Completed(Completion { id, outcome })
                        } else {
                            Routed::Dropped
                        }
                    },
                    _ => Routed::Dropped,
                }
            },
        }
    }

    /// Shuts the session down: every pending request resolves at once with
    /// `ConnectionClosed`, in registration order, and no request can be
    /// issued afterwards.
    #[verifier::loop_isolation(false)]
    pub fn close(&mut self) -> (r: Vec<Completion>)
        requires
            old(self).wf(),
        ensures
            final(self).wf(),
            final(self).state is Closed,
            final(self).pending@.len() == 0,
            final(self).next_id == old(self).next_id,
            r@.len() == old(self).pending@.len(),
            forall|i: int|
                0 <= i < r@.len() ==> (#[trigger] r@[i]).id == old(self).pending@[i]
                    && r@[i].outcome == Err::<Json, ClientError>(ClientError::ConnectionClosed),
    {
        let mut out: Vec<Completion> = Vec::new();
        let mut i: usize = 0;
        while i < self.pending.len()
            invariant
                i <= self.pending.len(),
                self.pending == old(self).pending,
                out@.len() == i,
                forall|j: int|
                    0 <= j < i ==> (#[trigger] out@[j]).id == old(self).pending@[j]
                        && out@[j].outcome == Err::<Json, ClientError>(
                        ClientError::ConnectionClosed,
                    ),
            decreases self.pending.len() - i,
        {
            out.push(Completion { id: self.pending[i], outcome: Err(ClientError::ConnectionClosed) });
            i += 1;
        }
        self.pending = Vec::new();
        self.state = SessionState::Closed;
        out
    }
}

} // verus!
