//! Websockets of the HTTP extension: the registry of streams the plugin
//! holds handles to, the decisions of the socket task (what to do with each
//! message from the plugin or from the server), and the decisions the game
//! thread takes on what the socket tasks send back. Sockets, channels and
//! plugin forwards are driven by the embedding code, by stream id.

use vstd::prelude::*;
use vstd::string::*;
use std::collections::HashMap;
use crate::cstr::{spec_strxx, strxx, text_bytes};
use crate::http::{text_arg, text_arg_exec};

verus! {

broadcast use vstd::std_specs::hash::group_hash_axioms;

/// What a websocket message tells the plugin.
#[derive(Clone, Copy, Debug, PartialEq, Eq, Structural)]
pub enum WsState {
    Open,
    Closed,
    Msg,
}

/// A websocket message between the plugin and a socket task.
#[derive(Debug)]
pub struct WsMsg {
    pub streamid: u32,
    pub state: WsState,
    pub text: Vec<u8>,
}

/// What a socket task receives: the connection coming up, a message from
/// the plugin (`None` once the plugin's side of the channel is gone), or
/// something from the server.
pub enum WsEvent {
    Connected,
    FromPlugin(Option<WsMsg>),
    FromServer(ServerEvent),
}

/// What the server side delivers.
pub enum ServerEvent {
    /// The stream ended.
    Ended,
    /// Reading failed; the error's text.
    Failed(Vec<u8>),
    Ping(Vec<u8>),
    Pong,
    /// A close frame: its code and reason, if it had them.
    Close(Option<(u16, Vec<u8>)>),
    Text(Vec<u8>),
    Binary(Vec<u8>),
}

/// What a socket task does next.
pub enum WsAction {
    /// Tell the plugin the stream is open (an `Open` message with no text).
    AnnounceOpen,
    /// Send a text message to the server.
    SendText(Vec<u8>),
    /// Answer a ping.
    SendPong(Vec<u8>),
    /// Close the connection normally and end the task without an error.
    CloseAndFinish,
    /// Hand a text message to the plugin.
    ForwardText(Vec<u8>),
    /// Nothing to do.
    Nothing,
    /// End the task with this error text (the plugin gets it as the close reason).
    Fail(Vec<u8>),
}

/// The decimal digits of `n`.
pub open spec fn decimal(n: nat) -> Seq<u8>
    decreases n,
{
    if n < 10 {
        seq![(48 + n) as u8]
    } else {
        decimal(n / 10) + seq![(48 + n % 10) as u8]
    }
}

/// `n` in decimal.
pub fn decimal_text(n: u64) -> (r: Vec<u8>)
    ensures
        r@ == decimal(n as nat),
{
    let mut rev: Vec<u8> = Vec::new();
    let mut m: u64 = n;
    let ghost mut done: Seq<u8> = Seq::empty();
    proof {
        assert(decimal(n as nat) == decimal(m as nat) + done);
    }
    while m >= 10
        invariant
            decimal(n as nat) == decimal(m as nat) + done,
            rev@.len() == done.len(),
            forall|i: int| 0 <= i < done.len() ==> rev@[i] == done[done.len() - 1 - i],
        decreases m,
    {
        let d = (m % 10) as u8;
        let ghost old_done = done;
        rev.push(48 + d);
        proof {
            done = seq![(48 + m % 10) as u8] + old_done;
            assert(decimal(m as nat) == decimal((m / 10) as nat) + seq![(48 + m % 10) as u8]);
            assert(decimal(n as nat) =~= decimal((m / 10) as nat) + done);
            assert forall|i: int| 0 <= i < done.len() implies rev@[i] == done[done.len() - 1 - i] by {
                if i < old_done.len() {
                    assert(rev@[i] == old_done[old_done.len() - 1 - i]);
                }
            }
        }
        m = m / 10;
    }
    let mut out: Vec<u8> = Vec::new();
    out.push(48 + m as u8);
    let ghost head = decimal(m as nat);
    assert(out@ =~= head);
    let mut k: usize = rev.len();
    while k > 0
        invariant
            k <= rev@.len(),
            rev@.len() == done.len(),
            forall|i: int| 0 <= i < done.len() ==> rev@[i] == done[done.len() - 1 - i],
            out@ == head + done.take(done.len() - k),
        decreases k,
    {
        k -= 1;
        out.push(rev[k]);
        assert(out@ =~= head + done.take(done.len() - k));
    }
    assert(done.take(done.len() as int) =~= done);
    out
}

/// `"Code <code> - <reason>"`: the error a close frame with a code ends a socket task with.
pub open spec fn close_text(code: u16, reason: Seq<u8>) -> Seq<u8> {
    "Code ".spec_bytes() + decimal(code as nat) + " - ".spec_bytes() + reason
}

/// What a socket task does with one event (`ws_thread`'s loop).
pub fn ws_step(ev: WsEvent) -> (r: WsAction)
    ensures
        match ev {
            WsEvent::Connected => r is AnnounceOpen,
            WsEvent::FromPlugin(None) => r matches WsAction::Fail(t) && t@ == "Failed to receive message from sourcepawn".spec_bytes(),
            WsEvent::FromPlugin(Some(m)) => if m.state == WsState::Closed {
                r is CloseAndFinish
            } else {
                r matches WsAction::SendText(t) && t@ == m.text@
            },
            WsEvent::FromServer(ServerEvent::Ended) => r matches WsAction::Fail(t) && t@ == "Failed to read next WS message".spec_bytes(),
            WsEvent::FromServer(ServerEvent::Failed(e)) => r matches WsAction::Fail(t) && t@ == e@,
            WsEvent::FromServer(ServerEvent::Ping(v)) => r matches WsAction::SendPong(t) && t@ == v@,
            WsEvent::FromServer(ServerEvent::Pong) => r is Nothing,
            WsEvent::FromServer(ServerEvent::Close(Some((code, reason)))) => r matches WsAction::Fail(t) && t@ == close_text(code, reason@),
            WsEvent::FromServer(ServerEvent::Close(None)) => r matches WsAction::Fail(t) && t@ == "Unknown".spec_bytes(),
            WsEvent::FromServer(ServerEvent::Text(x)) => r matches WsAction::ForwardText(t) && t@ == x@,
            WsEvent::FromServer(ServerEvent::Binary(x)) => if vstd::utf8::valid_utf8(x@) {
                r matches WsAction::ForwardText(t) && t@ == x@
            } else {
                r is Nothing
            },
        },
{
    match ev {
        WsEvent::Connected => WsAction::AnnounceOpen,
        WsEvent::FromPlugin(None) => WsAction::Fail(text_bytes("Failed to receive message from sourcepawn")),
        WsEvent::FromPlugin(Some(m)) => {
            if m.state == WsState::Closed {
                WsAction::CloseAndFinish
            } else {
                WsAction::SendText(m.text)
            }
        },
        WsEvent::FromServer(ServerEvent::Ended) => WsAction::Fail(text_bytes("Failed to read next WS message")),
        WsEvent::FromServer(ServerEvent::Failed(e)) => WsAction::Fail(e),
        WsEvent::FromServer(ServerEvent::Ping(v)) => WsAction::SendPong(v),
        WsEvent::FromServer(ServerEvent::Pong) => WsAction::Nothing,
        WsEvent::FromServer(ServerEvent::Close(Some((code, reason)))) => {
            let mut t = text_bytes("Code ");
            let mut d = decimal_text(code as u64);
            t.append(&mut d);
            let mut sep = text_bytes(" - ");
            t.append(&mut sep);
            let mut rs = reason;
            t.append(&mut rs);
            WsAction::Fail(t)
        },
        WsEvent::FromServer(ServerEvent::Close(None)) => WsAction::Fail(text_bytes("Unknown")),
        WsEvent::FromServer(ServerEvent::Text(x)) => WsAction::ForwardText(x),
        WsEvent::FromServer(ServerEvent::Binary(x)) => {
            if crate::cstr::is_valid_utf8(x.as_slice()) {
                WsAction::ForwardText(x)
            } else {
                WsAction::Nothing
            }
        },
    }
}

/// A stream's connection: still being set up, or handed to a socket task.
#[derive(Clone, Copy, Debug, PartialEq, Eq, Structural)]
pub enum WsInner {
    Request,
    Writer,
}

/// A websocket stream the plugin holds a handle to. The forwards are the
/// plugin callbacks, kept by the embedding code; here only whether they are set.
#[derive(Clone, Copy, Debug, PartialEq, Eq, Structural)]
pub struct WsStream {
    pub streamid: u32,
    pub handle: u32,
    pub inner: WsInner,
    pub user_value: u32,
    pub connection_forward: bool,
    pub message_forward: bool,
}

/// The streams by id, and the last id handed out.
pub struct WsRegistry {
    pub streams: HashMap<u32, WsStream>,
    pub last_streamid: u32,
}

/// The id after `x`, wrapping around.
pub open spec fn next_id(x: u32) -> u32 {
    if x == u32::MAX { 0 } else { (x + 1) as u32 }
}

/// A new stream.
pub open spec fn fresh_stream(id: u32) -> WsStream {
    WsStream { streamid: id, handle: 0, inner: WsInner::Request, user_value: 0, connection_forward: false, message_forward: false }
}

/// Which plugin callback a message goes to.
#[derive(Clone, Copy, Debug, PartialEq, Eq, Structural)]
pub enum ForwardKind {
    Message,
    Connection,
}

/// What the game thread does with a message from a socket task.
#[derive(Debug)]
pub enum WsDispatch {
    /// No such stream (any more): look at the next message.
    Unknown,
    /// Call the stream's callback (the message handed over for `Msg`, the
    /// text given as close reason for `Closed`); for `Closed` the stream was
    /// removed and its callbacks and handle are to be released. Then stop
    /// for this frame.
    Forward { stream: WsStream, kind: ForwardKind, removed: bool },
    /// The callback to call is not set: the native panics.
    Panics,
}

/// The callback a message state goes to.
pub open spec fn forward_kind(state: WsState) -> ForwardKind {
    match state {
        WsState::Msg => ForwardKind::Message,
        _ => ForwardKind::Connection,
    }
}

/// What removing a stream's handle leads to.
#[derive(Debug)]
pub enum WsRemoved {
    Missing,
    /// The stream was removed; `stop_writer` when its socket task is to be
    /// told to close.
    Removed { stream: WsStream, stop_writer: bool },
}

/// Whether a URL text makes a websocket client request
/// (`IntoClientRequest::into_client_request` succeeds).
pub uninterp spec fn ws_request_ok(url: Seq<char>) -> bool;

/// Whether a text parses as a URI (`http::Uri::from_str` succeeds).
pub uninterp spec fn uri_ok(url: Seq<char>) -> bool;

/// `tungstenite`'s `IntoClientRequest::into_client_request` on the text.
/// Trusted: it succeeds exactly when `ws_request_ok` of the text; success
/// depends on the text alone (the random key it adds cannot fail).
#[verifier::external_body]
fn client_request_valid(url: &str) -> (r: bool)
    ensures
        r == ws_request_ok(url@),
{
    tokio_tungstenite::tungstenite::client::IntoClientRequest::into_client_request(url).is_ok()
}

/// `http::Uri::from_str`. Trusted: it succeeds exactly when `uri_ok` of the text.
#[verifier::external_body]
fn uri_valid(url: &str) -> (r: bool)
    ensures
        r == uri_ok(url@),
{
    <http::Uri as std::str::FromStr>::from_str(url).is_ok()
}

/// A stream id the plugin does not hold: the native stops.
#[derive(Debug, PartialEq, Eq)]
pub struct StreamMissing;

impl WsRegistry {
    /// Every stream is kept under its own id, and a stream handed to a socket
    /// task has both callbacks set.
    pub open spec fn wf(&self) -> bool {
        forall|k: u32| #[trigger] self.streams@.contains_key(k) ==> {
            &&& self.streams@[k].streamid == k
            &&& self.streams@[k].inner == WsInner::Writer ==> self.streams@[k].connection_forward && self.streams@[k].message_forward
        }
    }

    pub fn new() -> (r: WsRegistry)
        ensures
            r.wf(),
            r.streams@ == Map::<u32, WsStream>::empty(),
            r.last_streamid == 0,
    {
        WsRegistry { streams: HashMap::new(), last_streamid: 0 }
    }

    /// Opens a new stream under the next id.
    pub fn rust_SRCWRWebsocket_SRCWRWebsocket(&mut self) -> (id: u32)
        requires
            old(self).wf(),
        ensures
            final(self).wf(),
            id == next_id(old(self).last_streamid),
            final(self).last_streamid == id,
            final(self).streams@ == old(self).streams@.insert(id, fresh_stream(id)),
    {
        let id = if self.last_streamid == u32::MAX { 0 } else { self.last_streamid + 1 };
        self.last_streamid = id;
        let _ = self.streams.insert(id, WsStream {
            streamid: id,
            handle: 0,
            inner: WsInner::Request,
            user_value: 0,
            connection_forward: false,
            message_forward: false,
        });
        id
    }

    /// Records the plugin's handle of the stream.
    pub fn rust_SRCWRWebsocket_set_handle(&mut self, streamid: u32, handle: u32)
        requires
            old(self).wf(),
            old(self).streams@.contains_key(streamid),
        ensures
            final(self).wf(),
            final(self).last_streamid == old(self).last_streamid,
            final(self).streams@ == old(self).streams@.insert(streamid, WsStream { handle, ..old(self).streams@[streamid] }),
    {
        let s = *self.streams.get(&streamid).unwrap();
        let _ = self.streams.insert(streamid, WsStream { handle, ..s });
    }

    /// Whether the stream is still being set up (so headers can be added).
    pub fn is_request(&self, streamid: u32) -> (r: bool)
        requires
            self.streams@.contains_key(streamid),
        ensures
            r == (self.streams@[streamid].inner == WsInner::Request),
    {
        self.streams.get(&streamid).unwrap().inner == WsInner::Request
    }

    /// Hands a stream that is still being set up to a socket task, with the
    /// plugin's callbacks and value, when `url` (the plugin's text) makes a
    /// websocket client request and parses as a URI. A URL that makes a
    /// request for a stream id that is not held stops the native
    /// (`StreamMissing`).
    pub fn rust_SRCWRWebsocket_YEET(&mut self, streamid: u32, url: &[u8], user_value: u32) -> (r: Result<Option<u32>, StreamMissing>)
        requires
            old(self).wf(),
        ensures
            final(self).wf(),
            final(self).last_streamid == old(self).last_streamid,
            ({
                let t = text_arg(url@);
                let request = t is Some && ws_request_ok(t->0);
                let go = request && old(self).streams@.contains_key(streamid)
                    && old(self).streams@[streamid].inner == WsInner::Request && uri_ok(t->0);
                &&& (request && !old(self).streams@.contains_key(streamid)) <==> r is Err
                &&& r is Ok ==> r == Ok::<Option<u32>, StreamMissing>(if go { Some(1u32) } else { None })
                &&& final(self).streams@ == if go {
                    old(self).streams@.insert(streamid, WsStream {
                        inner: WsInner::Writer,
                        user_value,
                        connection_forward: true,
                        message_forward: true,
                        ..old(self).streams@[streamid]
                    })
                } else {
                    old(self).streams@
                }
            }),
    {
        let t = match text_arg_exec(url) {
            Some(t) => t,
            None => { return Ok(None); },
        };
        if !client_request_valid(t.as_str()) {
            return Ok(None);
        }
        let s = match self.streams.get(&streamid) {
            Some(s) => *s,
            None => { return Err(StreamMissing); },
        };
        if s.inner == WsInner::Writer {
            return Ok(None);
        }
        if !uri_valid(t.as_str()) {
            return Ok(None);
        }
        let _ = self.streams.insert(streamid, WsStream {
            inner: WsInner::Writer,
            user_value,
            connection_forward: true,
            message_forward: true,
            ..s
        });
        Ok(Some(1))
    }

    /// The text to send to the stream's
    /// socket task, if the text is a non-empty UTF-8 string and the stream
    /// was handed to one. The native itself always reports nothing.
    pub fn rust_SRCWRWebsocket_write_str_inner(&self, streamid: u32, s: &[u8]) -> (r: Option<Vec<u8>>)
        requires
            spec_strxx(s@, false, 0) is Some ==> self.streams@.contains_key(streamid),
        ensures
            match spec_strxx(s@, false, 0) {
                Some(t) => if self.streams@[streamid].inner == WsInner::Writer {
                    r matches Some(x) && x@ == t
                } else {
                    r is None
                },
                None => r is None,
            },
    {
        let t = match strxx(s, false, 0) {
            Some(t) => t,
            None => { return None; },
        };
        if self.streams.get(&streamid).unwrap().inner == WsInner::Writer {
            Some(t)
        } else {
            None
        }
    }

    /// Removes the stream; a stream
    /// handed to a socket task has that task told to close.
    pub fn rust_handle_destroy_SRCWRWebsocket(&mut self, streamid: u32) -> (r: WsRemoved)
        requires
            old(self).wf(),
        ensures
            final(self).wf(),
            final(self).last_streamid == old(self).last_streamid,
            final(self).streams@ == old(self).streams@.remove(streamid),
            old(self).streams@.contains_key(streamid) ==> (r matches WsRemoved::Removed { stream, stop_writer }
                && stream == old(self).streams@[streamid] && stop_writer == (stream.inner == WsInner::Writer)),
            !old(self).streams@.contains_key(streamid) ==> r is Missing,
    {
        match self.streams.remove(&streamid) {
            Some(s) => {
                let stop = s.inner == WsInner::Writer;
                WsRemoved::Removed { stream: s, stop_writer: stop }
            },
            None => WsRemoved::Missing,
        }
    }

    /// What the game thread does with a websocket message from a socket
    /// task: which callback it goes to, and whether the stream is done with.
    pub fn handle_from_async(&mut self, streamid: u32, state: WsState) -> (r: WsDispatch)
        requires
            old(self).wf(),
        ensures
            final(self).wf(),
            final(self).last_streamid == old(self).last_streamid,
            !old(self).streams@.contains_key(streamid) ==> r is Unknown && final(self).streams@ == old(self).streams@,
            old(self).streams@.contains_key(streamid) ==> {
                let st = old(self).streams@[streamid];
                let set = match forward_kind(state) {
                    ForwardKind::Message => st.message_forward,
                    ForwardKind::Connection => st.connection_forward,
                };
                if !set {
                    r is Panics
                } else {
                    &&& r matches WsDispatch::Forward { stream, kind, removed }
                        && stream == st && kind == forward_kind(state) && removed == (state == WsState::Closed)
                        && ((kind is Message) <==> (state is Msg))
                        && ((kind is Connection) <==> (state is Open || state is Closed))
                    &&& final(self).streams@ == if state == WsState::Closed {
                        old(self).streams@.remove(streamid)
                    } else {
                        old(self).streams@
                    }
                }
            },
    {
        let st = match self.streams.get(&streamid) {
            Some(s) => *s,
            None => { return WsDispatch::Unknown; },
        };
        let kind = match state {
            WsState::Msg => ForwardKind::Message,
            _ => ForwardKind::Connection,
        };
        let set = match kind {
            ForwardKind::Message => st.message_forward,
            ForwardKind::Connection => st.connection_forward,
        };
        if !set {
            return WsDispatch::Panics;
        }
        let removed = state == WsState::Closed;
        if removed {
            let _ = self.streams.remove(&streamid);
        }
        WsDispatch::Forward { stream: st, kind, removed }
    }
}

/// A stream handed to a socket task cannot reach the panic on
/// removal: it always has its connection callback.
pub proof fn law_writer_has_callbacks(reg: &WsRegistry, streamid: u32)
    requires
        reg.wf(),
        reg.streams@.contains_key(streamid),
        reg.streams@[streamid].inner == WsInner::Writer,
    ensures
        reg.streams@[streamid].connection_forward,
        reg.streams@[streamid].message_forward,
{
}

/// The size of a message handle: its own `unit` bytes
/// plus its text, cut to 32 bits.
pub fn rust_handle_size_SRCWRWebsocketMsg(msg: &WsMsg, unit: usize, size: &mut u32) -> (r: bool)
    requires
        msg.text@.len() + unit <= usize::MAX,
    ensures
        r,
        *final(size) == ((msg.text@.len() + unit) as usize) as u32,
{
    *size = (msg.text.len() + unit) as u32;
    true
}

/// Which callback a socket task's message goes to: a text message to the
/// message callback, the stream opening and closing to the connection
/// callback.
pub proof fn law_forward_kinds(state: WsState)
    ensures
        (forward_kind(state) is Message) <==> (state is Msg),
        (forward_kind(state) is Connection) <==> (state is Open || state is Closed),
        forward_kind(WsState::Open) == forward_kind(WsState::Closed),
        forward_kind(WsState::Open) != forward_kind(WsState::Msg),
{
}

} // verus!
