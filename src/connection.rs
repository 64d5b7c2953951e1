//! The server side of an HTTP/2 connection as a state machine: bytes and
//! frames in, actions out (frames to send, requests and body chunks for the
//! driver, cancellations). The caller performs the actions.
use crate::frame::{
    error_code_value, frame_bytes, settings_payload, u32_bytes, check_preface, encode_frame, goaway_frame, header_of, ping_ack_frame, rst_stream_frame,
    settings_ack_frame, settings_frame, window_update_frame, PrefaceCheck, preface,
    apply_settings_payload, be_uint, decode_frame_header, payload_body, payload_body_spec,
    settings_payload_applied, window_increment, window_increment_spec, ErrorCode,
    FrameHeader, Settings, FLAG_ACK, FLAG_PADDED, FLAG_PRIORITY, FLAG_END_HEADERS, FLAG_END_STREAM, MAX_STREAM_ID,
    MAX_WINDOW,
};
use crate::hpack::{hpack_int, parse_rep, decode_block_spec, fields_view, Decoder, Field, HeaderField, TableView};
use crate::stream::{transition_spec, CloseReason, StreamEvent, StreamState, Transition};
use vstd::prelude::*;

verus! {

/// Where a connection stands.
#[derive(Debug, PartialEq, Eq, Structural, Clone, Copy)]
pub enum Phase {
    /// Waiting for the client preface.
    Preface,
    /// Waiting for the client's first SETTINGS frame.
    FirstSettings,
    /// Exchanging frames.
    Running,
    /// A GOAWAY was sent, or the connection failed: nothing more is read.
    Closed,
}

/// What the connection keeps of one stream.
#[derive(Debug, PartialEq, Eq, Structural, Clone, Copy)]
pub struct StreamRecord {
    pub id: u32,
    pub state: StreamState,
    pub send_window: i64,
    pub recv_window: i64,
}

/// Something for the caller to do.
#[derive(Debug)]
pub enum Action {
    SendSettings(Settings),
    SendSettingsAck,
    SendPingAck(Vec<u8>),
    SendWindowUpdate { stream_id: u32, increment: u32 },
    SendRstStream { stream_id: u32, code: ErrorCode },
    SendGoAway { last_stream_id: u32, code: ErrorCode },
    /// A complete request header block arrived on a stream.
    Request { stream_id: u32, headers: Vec<HeaderField>, end_stream: bool },
    /// Request body bytes arrived on a stream.
    Body { stream_id: u32, data: Vec<u8>, end_stream: bool },
    /// The peer reset a stream: its driver work is to be dropped.
    Cancel { stream_id: u32 },
    /// Close the transport.
    Close,
}

pub enum ActionView {
    SendSettings(Settings),
    SendSettingsAck,
    SendPingAck(Seq<u8>),
    SendWindowUpdate(u32, u32),
    SendRstStream(u32, ErrorCode),
    SendGoAway(u32, ErrorCode),
    Request(u32, Seq<Field>, bool),
    Body(u32, Seq<u8>, bool),
    Cancel(u32),
    Close,
}

impl View for Action {
    type V = ActionView;

    open spec fn view(&self) -> ActionView {
        match self {
            Action::SendSettings(s) => ActionView::SendSettings(*s),
            Action::SendSettingsAck => ActionView::SendSettingsAck,
            Action::SendPingAck(d) => ActionView::SendPingAck(d@),
            Action::SendWindowUpdate { stream_id, increment } => ActionView::SendWindowUpdate(
                *stream_id,
                *increment,
            ),
            Action::SendRstStream { stream_id, code } => ActionView::SendRstStream(*stream_id, *code),
            Action::SendGoAway { last_stream_id, code } => ActionView::SendGoAway(
                *last_stream_id,
                *code,
            ),
            Action::Request { stream_id, headers, end_stream } => ActionView::Request(
                *stream_id,
                fields_view(headers@),
                *end_stream,
            ),
            Action::Body { stream_id, data, end_stream } => ActionView::Body(
                *stream_id,
                data@,
                *end_stream,
            ),
            Action::Cancel { stream_id } => ActionView::Cancel(*stream_id),
            Action::Close => ActionView::Close,
        }
    }
}

pub open spec fn actions_view(v: Seq<Action>) -> Seq<ActionView> {
    v.map_values(|a: Action| a@)
}

/// A connection, as the contracts see it.
pub struct ConnView {
    pub phase: Phase,
    /// The settings of this side in force: what the peer acknowledged.
    pub local: Settings,
    /// What this side announced; in force once the peer acknowledges it.
    pub announced: Settings,
    /// What the peer announced.
    pub peer: Settings,
    pub send_window: int,
    pub recv_window: int,
    /// Highest stream id the peer opened.
    pub last_stream_id: u32,
    /// The stream whose header block is being continued, and whether its
    /// HEADERS frame carried END_STREAM.
    pub continuation: Option<(u32, bool)>,
    /// The header block received so far while continuing.
    pub fragment: Seq<u8>,
    /// Streams kept, by increasing id.
    pub streams: Seq<StreamRecord>,
    pub table: TableView,
    /// How many stream records are kept at most when a stream opens.
    pub retain: nat,
    pub goaway_received: bool,
    /// Body bytes the driver consumed that no connection WINDOW_UPDATE has
    /// announced yet.
    pub consumed: int,
    /// Bytes received and not yet taken as preface or frames.
    pub pending: Seq<u8>,
}

/// Position of stream `id` in `s`, if it is kept.
pub open spec fn find_stream(s: Seq<StreamRecord>, id: u32) -> Option<int>
    decreases s.len(),
{
    if s.len() == 0 {
        None
    } else if s.last().id == id {
        Some(s.len() - 1)
    } else {
        find_stream(s.drop_last(), id)
    }
}

/// The state of stream `id`: a stream not kept is idle when its id is above
/// every id opened so far, and closed otherwise.
pub open spec fn state_of(c: ConnView, id: u32) -> StreamState {
    match find_stream(c.streams, id) {
        Some(k) => c.streams[k].state,
        None => if id > c.last_stream_id {
            StreamState::Idle
        } else {
            StreamState::Closed(CloseReason::Reset)
        },
    }
}

/// How a frame is judged.
#[derive(Debug, PartialEq, Eq, Structural, Clone, Copy)]
pub enum Verdict {
    ConnectionError(ErrorCode),
    StreamError(u32, ErrorCode),
    Accept,
}

/// A stream-table outcome as a verdict on stream `id`.
pub open spec fn transition_verdict(t: Transition, id: u32) -> Verdict {
    match t {
        Transition::ConnectionError(e) => Verdict::ConnectionError(e),
        Transition::StreamError(e) => Verdict::StreamError(id, e),
        Transition::Next(_) => Verdict::Accept,
    }
}

pub open spec fn is_flagged(h: FrameHeader, flag: u8) -> bool {
    h.flags & flag != 0
}

/// The header block that ends with this frame's fragment.
pub open spec fn block_of(c: ConnView, h: FrameHeader, p: Seq<u8>) -> Seq<u8> {
    if h.frame_type == 9 {
        c.fragment + p
    } else {
        match payload_body_spec(h.flags, p, true) {
            Ok((a, b)) => p.subrange(a, b),
            Err(_) => Seq::empty(),
        }
    }
}

/// Every send window moved by `delta` (the change of the peer's initial
/// window), or `None` when one would exceed the largest window.
pub open spec fn windows_shifted(s: Seq<StreamRecord>, delta: int) -> Option<Seq<StreamRecord>>
    decreases s.len(),
{
    if s.len() == 0 {
        Some(s)
    } else {
        match windows_shifted(s.drop_last(), delta) {
            None => None,
            Some(front) => if s.last().send_window + delta > MAX_WINDOW {
                None
            } else {
                Some(
                    front.push(
                        StreamRecord {
                            send_window: (s.last().send_window + delta) as i64,
                            ..s.last()
                        },
                    ),
                )
            },
        }
    }
}

/// Every receive window moved by `delta` (the change of this side's initial
/// window), none above the largest window.
pub open spec fn recv_windows_shifted(s: Seq<StreamRecord>, delta: int) -> Seq<StreamRecord>
    decreases s.len(),
{
    if s.len() == 0 {
        s
    } else {
        recv_windows_shifted(s.drop_last(), delta).push(
            StreamRecord {
                recv_window: min_int(s.last().recv_window + delta, MAX_WINDOW as int) as i64,
                ..s.last()
            },
        )
    }
}

/// The judgement on frame `h` with payload `p` in connection `c`.
pub open spec fn frame_verdict(c: ConnView, h: FrameHeader, p: Seq<u8>) -> Verdict {
    let id = h.stream_id;
    let t = h.frame_type;
    if c.phase == Phase::FirstSettings && !(t == 4 && !is_flagged(h, FLAG_ACK)) {
        Verdict::ConnectionError(ErrorCode::ProtocolError)
    } else if h.len > c.local.max_frame_size {
        if t == 1 || t == 4 || t == 5 || t == 9 || id == 0 {
            Verdict::ConnectionError(ErrorCode::FrameSizeError)
        } else {
            Verdict::StreamError(id, ErrorCode::FrameSizeError)
        }
    } else if c.continuation matches Some((s, _)) && !(t == 9 && id == s) {
        Verdict::ConnectionError(ErrorCode::ProtocolError)
    } else if t == 0 {
        if id == 0 {
            Verdict::ConnectionError(ErrorCode::ProtocolError)
        } else if payload_body_spec(h.flags, p, false) is Err {
            Verdict::ConnectionError(payload_body_spec(h.flags, p, false)->Err_0)
        } else {
            match transition_spec(state_of(c, id), StreamEvent::RecvData { end_stream: is_flagged(h, FLAG_END_STREAM) }) {
                Transition::ConnectionError(e) => Verdict::ConnectionError(e),
                Transition::StreamError(e) => Verdict::StreamError(id, e),
                Transition::Next(_) => if c.recv_window < h.len {
                    Verdict::ConnectionError(ErrorCode::FlowControlError)
                } else if c.streams[find_stream(c.streams, id)->0].recv_window < h.len {
                    Verdict::StreamError(id, ErrorCode::FlowControlError)
                } else {
                    Verdict::Accept
                },
            }
        }
    } else if t == 1 {
        if id == 0 || id % 2 == 0 {
            Verdict::ConnectionError(ErrorCode::ProtocolError)
        } else if payload_body_spec(h.flags, p, true) is Err {
            Verdict::ConnectionError(payload_body_spec(h.flags, p, true)->Err_0)
        } else if find_stream(c.streams, id) is None && id <= c.last_stream_id {
            Verdict::ConnectionError(ErrorCode::ProtocolError)
        } else {
            match transition_spec(state_of(c, id), StreamEvent::RecvHeaders { end_stream: is_flagged(h, FLAG_END_STREAM) }) {
                Transition::ConnectionError(e) => Verdict::ConnectionError(e),
                Transition::StreamError(e) => Verdict::StreamError(id, e),
                Transition::Next(_) => if is_flagged(h, FLAG_END_HEADERS) && decode_block_spec(
                    c.table,
                    block_of(c, h, p),
                ) is None {
                    Verdict::ConnectionError(ErrorCode::CompressionError)
                } else {
                    Verdict::Accept
                },
            }
        }
    } else if t == 2 {
        if id == 0 {
            Verdict::ConnectionError(ErrorCode::ProtocolError)
        } else if h.len != 5 {
            Verdict::StreamError(id, ErrorCode::FrameSizeError)
        } else {
            Verdict::Accept
        }
    } else if t == 3 {
        if id == 0 {
            Verdict::ConnectionError(ErrorCode::ProtocolError)
        } else if h.len != 4 {
            Verdict::ConnectionError(ErrorCode::FrameSizeError)
        } else {
            transition_verdict(transition_spec(state_of(c, id), StreamEvent::RecvRstStream), id)
        }
    } else if t == 4 {
        if id != 0 {
            Verdict::ConnectionError(ErrorCode::ProtocolError)
        } else if is_flagged(h, FLAG_ACK) {
            if h.len != 0 {
                Verdict::ConnectionError(ErrorCode::FrameSizeError)
            } else {
                Verdict::Accept
            }
        } else {
            match settings_payload_applied(c.peer, p) {
                Err(e) => Verdict::ConnectionError(e),
                Ok(n) => if windows_shifted(
                    c.streams,
                    n.initial_window_size - c.peer.initial_window_size,
                ) is None {
                    Verdict::ConnectionError(ErrorCode::FlowControlError)
                } else {
                    Verdict::Accept
                },
            }
        }
    } else if t == 5 {
        Verdict::ConnectionError(ErrorCode::ProtocolError)
    } else if t == 6 {
        if id != 0 {
            Verdict::ConnectionError(ErrorCode::ProtocolError)
        } else if h.len != 8 {
            Verdict::ConnectionError(ErrorCode::FrameSizeError)
        } else {
            Verdict::Accept
        }
    } else if t == 7 {
        if id != 0 {
            Verdict::ConnectionError(ErrorCode::ProtocolError)
        } else if h.len < 8 {
            Verdict::ConnectionError(ErrorCode::FrameSizeError)
        } else {
            Verdict::Accept
        }
    } else if t == 8 {
        if id == 0 {
            match window_increment_spec(p) {
                Err(e) => Verdict::ConnectionError(e),
                Ok(inc) => if c.send_window + inc > MAX_WINDOW {
                    Verdict::ConnectionError(ErrorCode::FlowControlError)
                } else {
                    Verdict::Accept
                },
            }
        } else if h.len != 4 {
            Verdict::ConnectionError(ErrorCode::FrameSizeError)
        } else {
            match transition_spec(state_of(c, id), StreamEvent::RecvWindowUpdate) {
                Transition::ConnectionError(e) => Verdict::ConnectionError(e),
                Transition::StreamError(e) => Verdict::StreamError(id, e),
                Transition::Next(_) => match window_increment_spec(p) {
                    Err(e) => Verdict::StreamError(id, e),
                    Ok(inc) => if c.streams[find_stream(c.streams, id)->0].send_window + inc > MAX_WINDOW {
                        Verdict::StreamError(id, ErrorCode::FlowControlError)
                    } else {
                        Verdict::Accept
                    },
                },
            }
        }
    } else if t == 9 {
        if c.continuation is None {
            match transition_spec(state_of(c, id), StreamEvent::RecvContinuation) {
                Transition::StreamError(e) => Verdict::StreamError(id, e),
                Transition::ConnectionError(e) => Verdict::ConnectionError(e),
                Transition::Next(_) => Verdict::ConnectionError(ErrorCode::ProtocolError),
            }
        } else if is_flagged(h, FLAG_END_HEADERS) && decode_block_spec(c.table, block_of(c, h, p)) is None {
            Verdict::ConnectionError(ErrorCode::CompressionError)
        } else {
            Verdict::Accept
        }
    } else {
        Verdict::Accept
    }
}


/// Position of the first closed stream in `s`.
pub open spec fn first_closed(s: Seq<StreamRecord>) -> Option<int>
    decreases s.len(),
{
    if s.len() == 0 {
        None
    } else if s[0].state is Closed {
        Some(0)
    } else {
        match first_closed(s.drop_first()) {
            Some(k) => Some(k + 1),
            None => None,
        }
    }
}

/// The records kept once a stream opens: at `retain` records or more, the
/// oldest closed one goes.
pub open spec fn pruned(s: Seq<StreamRecord>, retain: nat) -> Seq<StreamRecord> {
    if s.len() < retain {
        s
    } else {
        match first_closed(s) {
            Some(k) => s.remove(k),
            None => s,
        }
    }
}

/// What a connection error leaves: GOAWAY naming the last stream opened,
/// then closing.
pub open spec fn goaway_actions(c: ConnView, e: ErrorCode) -> Seq<ActionView> {
    seq![ActionView::SendGoAway(c.last_stream_id, e), ActionView::Close]
}

/// What a stream error on `id` does: the stream, if kept, is reset, and an
/// RST_STREAM goes out.
pub open spec fn stream_error_effect(c: ConnView, id: u32, e: ErrorCode) -> (ConnView, Seq<ActionView>) {
    (
        match find_stream(c.streams, id) {
            Some(k) => ConnView {
                streams: c.streams.update(
                    k,
                    StreamRecord { state: StreamState::Closed(CloseReason::Reset), ..c.streams[k] },
                ),
                ..c
            },
            None => c,
        },
        seq![ActionView::SendRstStream(id, e)],
    )
}

/// The connection once a frame is taken: out of the first-SETTINGS phase.
pub open spec fn running(c: ConnView) -> ConnView {
    if c.phase == Phase::FirstSettings {
        ConnView { phase: Phase::Running, ..c }
    } else {
        c
    }
}

/// How many kept streams are open or half-closed.
pub open spec fn active_count(s: Seq<StreamRecord>) -> nat
    decreases s.len(),
{
    if s.len() == 0 {
        0
    } else {
        active_count(s.drop_last()) + if s.last().state is Open || s.last().state is HalfClosedLocal
            || s.last().state is HalfClosedRemote {
            1nat
        } else {
            0nat
        }
    }
}

/// A HEADERS frame on stream `id` would open one stream more than this side
/// allows: the stream is refused (its header block is still decoded).
pub open spec fn refused(c: ConnView, id: u32) -> bool {
    find_stream(c.streams, id) is None && active_count(c.streams) >= c.local.max_concurrent_streams
}

/// What an accepted frame does.
pub open spec fn accepted_effect(c: ConnView, h: FrameHeader, p: Seq<u8>) -> (ConnView, Seq<ActionView>) {
    let id = h.stream_id;
    let t = h.frame_type;
    let es = is_flagged(h, FLAG_END_STREAM);
    let c1 = running(c);
    let k = find_stream(c.streams, id)->0;
    if t == 0 {
        let (a, b) = payload_body_spec(h.flags, p, false)->Ok_0;
        let st = transition_spec(state_of(c, id), StreamEvent::RecvData { end_stream: es })->Next_0;
        (
            ConnView {
                recv_window: c.recv_window - h.len,
                streams: c.streams.update(
                    k,
                    StreamRecord {
                        state: st,
                        recv_window: (c.streams[k].recv_window - h.len) as i64,
                        ..c.streams[k]
                    },
                ),
                ..c1
            },
            seq![ActionView::Body(id, p.subrange(a, b), es)],
        )
    } else if t == 1 {
        let st0 = transition_spec(state_of(c, id), StreamEvent::RecvHeaders { end_stream: es })->Next_0;
        let st = if refused(c, id) {
            StreamState::Closed(CloseReason::Reset)
        } else {
            st0
        };
        let refusal = if refused(c, id) {
            seq![ActionView::SendRstStream(id, ErrorCode::RefusedStream)]
        } else {
            Seq::empty()
        };
        let c2 = match find_stream(c.streams, id) {
            Some(k) => ConnView {
                streams: c.streams.update(k, StreamRecord { state: st, ..c.streams[k] }),
                ..c1
            },
            None => ConnView {
                streams: pruned(c.streams, c.retain).push(
                    StreamRecord {
                        id,
                        state: st,
                        send_window: c.peer.initial_window_size as i64,
                        recv_window: c.local.initial_window_size as i64,
                    },
                ),
                last_stream_id: id,
                ..c1
            },
        };
        if is_flagged(h, FLAG_END_HEADERS) {
            let d = decode_block_spec(c.table, block_of(c, h, p))->Some_0;
            (
                ConnView { table: d.1, ..c2 },
                if refused(c, id) {
                    refusal
                } else {
                    seq![ActionView::Request(id, d.0, es)]
                },
            )
        } else {
            (ConnView { continuation: Some((id, es)), fragment: block_of(c, h, p), ..c2 }, refusal)
        }
    } else if t == 3 {
        (
            ConnView {
                streams: c.streams.update(
                    k,
                    StreamRecord { state: StreamState::Closed(CloseReason::Reset), ..c.streams[k] },
                ),
                ..c1
            },
            seq![ActionView::Cancel(id)],
        )
    } else if t == 4 {
        if is_flagged(h, FLAG_ACK) {
            (
                ConnView {
                    local: c.announced,
                    streams: recv_windows_shifted(
                        c.streams,
                        c.announced.initial_window_size - c.local.initial_window_size,
                    ),
                    ..c1
                },
                Seq::empty(),
            )
        } else {
            let n = settings_payload_applied(c.peer, p)->Ok_0;
            (
                ConnView {
                    peer: n,
                    streams: windows_shifted(
                        c.streams,
                        n.initial_window_size - c.peer.initial_window_size,
                    )->Some_0,
                    ..c1
                },
                seq![ActionView::SendSettingsAck],
            )
        }
    } else if t == 6 {
        if is_flagged(h, FLAG_ACK) {
            (c1, Seq::empty())
        } else {
            (c1, seq![ActionView::SendPingAck(p)])
        }
    } else if t == 7 {
        (ConnView { goaway_received: true, ..c1 }, Seq::empty())
    } else if t == 8 {
        let inc = window_increment_spec(p)->Ok_0;
        if id == 0 {
            (ConnView { send_window: c.send_window + inc, ..c1 }, Seq::empty())
        } else {
            (
                ConnView {
                    streams: c.streams.update(
                        k,
                        StreamRecord {
                            send_window: (c.streams[k].send_window + inc) as i64,
                            ..c.streams[k]
                        },
                    ),
                    ..c1
                },
                Seq::empty(),
            )
        }
    } else if t == 9 {
        let (sid, es0) = c.continuation->Some_0;
        if is_flagged(h, FLAG_END_HEADERS) {
            let d = decode_block_spec(c.table, block_of(c, h, p))->Some_0;
            (
                ConnView { continuation: None, fragment: Seq::empty(), table: d.1, ..c1 },
                if state_of(c, sid) == StreamState::Closed(CloseReason::Reset) {
                    Seq::empty()
                } else {
                    seq![ActionView::Request(sid, d.0, es0)]
                },
            )
        } else {
            (ConnView { fragment: c.fragment + p, ..c1 }, Seq::empty())
        }
    } else {
        (c1, Seq::empty())
    }
}

/// What taking frame `h` with payload `p` leaves (`post`) and asks for
/// (`acts`). After a connection error the connection is closed and nothing
/// more is said of its state.
pub open spec fn frame_outcome(c: ConnView, h: FrameHeader, p: Seq<u8>, post: ConnView, acts: Seq<ActionView>) -> bool {
    (post, acts) == frame_effect(c, h, p)
}

/// A connection once a connection error closed it: no header block is
/// continued any more and the header table is dropped.
pub open spec fn closed_state(c: ConnView) -> ConnView {
    ConnView {
        phase: Phase::Closed,
        continuation: None,
        fragment: Seq::empty(),
        table: TableView { entries: Seq::empty(), max_size: 4096, limit: 4096 },
        ..c
    }
}

/// What taking frame `h` with payload `p` does to connection `c`, and what
/// it asks for.
pub open spec fn frame_effect(c: ConnView, h: FrameHeader, p: Seq<u8>) -> (ConnView, Seq<ActionView>) {
    match frame_verdict(c, h, p) {
        Verdict::ConnectionError(e) => (closed_state(c), goaway_actions(c, e)),
        Verdict::StreamError(id, e) => stream_error_effect(c, id, e),
        Verdict::Accept => accepted_effect(c, h, p),
    }
}

/// Taking every whole frame at the front of `q`, in order, while the
/// connection takes frames: the connection afterwards (with what is left of
/// `q` pending) and every action asked for.
pub open spec fn frames_received(c: ConnView, q: Seq<u8>) -> (ConnView, Seq<ActionView>)
    decreases q.len(),
{
    if !(c.phase == Phase::FirstSettings || c.phase == Phase::Running) || !whole_frame_pending(q) {
        (ConnView { pending: q, ..c }, Seq::empty())
    } else {
        let h = header_of(q);
        let rest = q.subrange(9 + h.len, q.len() as int);
        let first = frame_effect(ConnView { pending: rest, ..c }, h, q.subrange(9, 9 + h.len));
        let more = frames_received(first.0, rest);
        (more.0, first.1 + more.1)
    }
}

/// What receiving `bytes` does to connection `c`: the preface first, while
/// it is awaited, then every whole frame.
pub open spec fn received(c: ConnView, bytes: Seq<u8>) -> (ConnView, Seq<ActionView>) {
    let q = c.pending + bytes;
    if c.phase == Phase::Closed {
        (c, Seq::empty())
    } else if c.phase == Phase::Preface {
        if q.len() >= 24 && q.subrange(0, 24) == preface() {
            let more = frames_received(ConnView { phase: Phase::FirstSettings, ..c }, q.subrange(24, q.len() as int));
            (more.0, seq![ActionView::SendSettings(c.announced)] + more.1)
        } else if q.len() < 24 && q == preface().subrange(0, q.len() as int) {
            (ConnView { pending: q, ..c }, Seq::empty())
        } else {
            (
                ConnView { phase: Phase::Closed, pending: q, ..c },
                seq![ActionView::SendGoAway(0, ErrorCode::ProtocolError), ActionView::Close],
            )
        }
    } else {
        frames_received(c, q)
    }
}


impl ConnView {
    pub open spec fn wf(self) -> bool {
        &&& self.local.valid()
        &&& self.announced.valid()
        &&& self.peer.valid()
        &&& -MAX_WINDOW <= self.send_window <= MAX_WINDOW
        &&& 0 <= self.consumed <= MAX_WINDOW
        &&& 0 <= self.recv_window <= MAX_WINDOW
        &&& self.last_stream_id <= MAX_STREAM_ID
        &&& self.table.wf()
        &&& forall|k: int| 0 <= k < self.streams.len() ==> #[trigger] self.streams[k].fits(self.peer, self.local)
    }

    /// The frame may be judged by its type: the connection takes frames, the
    /// length is within what this side announced, and no header block is
    /// being continued on another stream.
    pub open spec fn takes(self, h: FrameHeader) -> bool {
        &&& (self.phase == Phase::Running || (self.phase == Phase::FirstSettings && h.frame_type == 4
            && !is_flagged(h, FLAG_ACK)))
        &&& h.len <= self.local.max_frame_size
        &&& !(self.continuation matches Some((s, _)) && !(h.frame_type == 9 && h.stream_id == s))
    }
}

impl StreamRecord {
    /// Windows within the bounds flow control keeps them in.
    pub open spec fn fits(self, peer: Settings, local: Settings) -> bool {
        &&& self.send_window <= MAX_WINDOW
        &&& self.send_window >= peer.initial_window_size - MAX_WINDOW
        &&& self.recv_window <= MAX_WINDOW
        &&& self.recv_window >= local.initial_window_size - MAX_WINDOW
    }
}

/// The server side of one HTTP/2 connection.
pub struct Connection {
    phase: Phase,
    local: Settings,
    announced: Settings,
    peer: Settings,
    send_window: i64,
    recv_window: i64,
    last_stream_id: u32,
    continuation: Option<(u32, bool)>,
    fragment: Vec<u8>,
    streams: Vec<StreamRecord>,
    decoder: Decoder,
    retain: usize,
    goaway_received: bool,
    consumed: i64,
    input: Vec<u8>,
}

impl View for Connection {
    type V = ConnView;

    closed spec fn view(&self) -> ConnView {
        ConnView {
            phase: self.phase,
            local: self.local,
            announced: self.announced,
            peer: self.peer,
            send_window: self.send_window as int,
            recv_window: self.recv_window as int,
            last_stream_id: self.last_stream_id,
            continuation: self.continuation,
            fragment: self.fragment@,
            streams: self.streams@,
            table: self.decoder@,
            retain: self.retain as nat,
            goaway_received: self.goaway_received,
            consumed: self.consumed as int,
            pending: self.input@,
        }
    }
}

/// Where stream `id` is found, it is kept at that position.
proof fn lemma_find_stream(s: Seq<StreamRecord>, id: u32)
    ensures
        find_stream(s, id) matches Some(k) ==> 0 <= k < s.len() && s[k].id == id,
    decreases s.len(),
{
    if s.len() > 0 && s.last().id != id {
        lemma_find_stream(s.drop_last(), id);
    }
}

impl Connection {
    pub closed spec fn wf(&self) -> bool {
        &&& self@.wf()
        &&& self.decoder.wf()
    }

    /// A connection that waits for the client preface and will announce
    /// `announced`; until the peer acknowledges it, the initial settings of
    /// the protocol are in force. At most `retain` stream records are kept
    /// when a stream opens (closed ones go first).
    pub fn new(announced: Settings, retain: usize) -> (r: Connection)
        requires
            announced.valid(),
        ensures
            r.wf(),
            r@ == (ConnView {
                phase: Phase::Preface,
                local: Settings::initial_spec(),
                announced,
                peer: Settings::initial_spec(),
                send_window: 65535,
                recv_window: 65535,
                last_stream_id: 0,
                continuation: None,
                fragment: Seq::empty(),
                streams: Seq::empty(),
                table: TableView { entries: Seq::empty(), max_size: 4096, limit: 4096 },
                retain: retain as nat,
                goaway_received: false,
                consumed: 0,
                pending: Seq::empty(),
            }),
    {
        let r = Connection {
            phase: Phase::Preface,
            local: Settings::initial(),
            announced,
            peer: Settings::initial(),
            send_window: 65535,
            recv_window: 65535,
            last_stream_id: 0,
            continuation: None,
            fragment: Vec::new(),
            streams: Vec::new(),
            decoder: Decoder::new(4096),
            retain,
            goaway_received: false,
            consumed: 0,
            input: Vec::new(),
        };
        assert(r@.fragment =~= Seq::<u8>::empty());
        assert(r@.pending =~= Seq::<u8>::empty());
        assert(r@.streams =~= Seq::<StreamRecord>::empty());
        r
    }

    /// Where the connection stands.
    pub fn phase(&self) -> (r: Phase)
        ensures
            r == self@.phase,
    {
        self.phase
    }

    /// Where stream `id` is kept.
    fn find(&self, id: u32) -> (r: Option<usize>)
        ensures
            match r {
                Some(k) => find_stream(self@.streams, id) == Some(k as int),
                None => find_stream(self@.streams, id) is None,
            },
    {
        let mut i = self.streams.len();
        assert(self@.streams.subrange(0, i as int) =~= self@.streams);
        while i > 0
            invariant
                i <= self.streams@.len(),
                find_stream(self@.streams, id) == find_stream(self@.streams.subrange(0, i as int), id),
            decreases i,
        {
            let ghost sub = self@.streams.subrange(0, i as int);
            if self.streams[i - 1].id == id {
                assert(sub.last() == self@.streams[i - 1]);
                return Some(i - 1);
            }
            assert(sub.drop_last() =~= self@.streams.subrange(0, i - 1));
            i = i - 1;
        }
        assert(self@.streams.subrange(0, 0) =~= Seq::<StreamRecord>::empty());
        None
    }

    /// How many kept streams are open or half-closed.
    fn active_count(&self) -> (r: u64)
        ensures
            r == active_count(self@.streams),
    {
        let mut n: u64 = 0;
        let mut i: usize = 0;
        assert(self@.streams.subrange(0, 0) =~= Seq::<StreamRecord>::empty());
        while i < self.streams.len()
            invariant
                i <= self@.streams.len(),
                n == active_count(self@.streams.subrange(0, i as int)),
                n <= i,
            decreases self@.streams.len() - i,
        {
            let st = self.streams[i].state;
            let ghost sub = self@.streams.subrange(0, i as int + 1);
            assert(sub.drop_last() =~= self@.streams.subrange(0, i as int));
            assert(sub.last() == self@.streams[i as int]);
            match st {
                StreamState::Open | StreamState::HalfClosedLocal | StreamState::HalfClosedRemote => {
                    n = n + 1;
                },
                _ => {},
            }
            i = i + 1;
        }
        assert(self@.streams.subrange(0, i as int) =~= self@.streams);
        n
    }

    /// The state of stream `id`.
    fn state_of(&self, id: u32) -> (r: StreamState)
        ensures
            r == state_of(self@, id),
    {
        match self.find(id) {
            Some(k) => {
                proof {
                    lemma_find_stream(self@.streams, id);
                }
                self.streams[k].state
            },
            None => if id > self.last_stream_id {
                StreamState::Idle
            } else {
                StreamState::Closed(CloseReason::Reset)
            },
        }
    }

    /// A connection error: GOAWAY, then close.
    fn connection_error(&mut self, e: ErrorCode) -> (r: Vec<Action>)
        requires
            old(self).wf(),
        ensures
            final(self).wf(),
            final(self)@ == closed_state(old(self)@),
            actions_view(r@) == goaway_actions(old(self)@, e),
    {
        self.phase = Phase::Closed;
        self.continuation = None;
        self.fragment = Vec::new();
        self.decoder = Decoder::new(4096);
        assert(self@.fragment =~= Seq::<u8>::empty());
        assert(self@.table.entries =~= Seq::<Field>::empty());
        let r = vec![Action::SendGoAway { last_stream_id: self.last_stream_id, code: e }, Action::Close];
        assert(actions_view(r@) =~= goaway_actions(old(self)@, e));
        r
    }

    /// A stream error on `id`: the stream, if kept, is reset; RST_STREAM.
    fn stream_error(&mut self, id: u32, e: ErrorCode) -> (r: Vec<Action>)
        requires
            old(self).wf(),
        ensures
            final(self).wf(),
            (final(self)@, actions_view(r@)) == stream_error_effect(old(self)@, id, e),
    {
        if let Some(k) = self.find(id) {
            proof {
                lemma_find_stream(self@.streams, id);
            }
            let rec = self.streams[k];
            assert(old(self)@.streams[k as int].fits(old(self)@.peer, old(self)@.local));
            self.streams.set(k, StreamRecord { state: StreamState::Closed(CloseReason::Reset), ..rec });
            proof {
                assert(self@.streams[k as int].fits(self@.peer, self@.local));
                assert forall|j: int| 0 <= j < self@.streams.len() implies #[trigger] self@.streams[j].fits(self@.peer, self@.local) by {
                    if j != k {
                        assert(self@.streams[j] == old(self)@.streams[j]);
                    }
                }
            }
        }
        let r = vec![Action::SendRstStream { stream_id: id, code: e }];
        assert(actions_view(r@) =~= seq![ActionView::SendRstStream(id, e)]);
        r
    }

    /// Leaves the first-SETTINGS phase.
    fn mark_running(&mut self)
        requires
            old(self).wf(),
            old(self)@.phase == Phase::FirstSettings || old(self)@.phase == Phase::Running,
        ensures
            final(self).wf(),
            final(self)@ == running(old(self)@),
    {
        self.phase = Phase::Running;
    }
}


/// Well-formedness does not look at the header block being continued.
proof fn lemma_wf_ignores_fragment(c: ConnView, d: ConnView)
    requires
        c.wf(),
        d == (ConnView { fragment: d.fragment, continuation: d.continuation, phase: d.phase, pending: d.pending, ..c }),
    ensures
        d.wf(),
{
    assert forall|k: int| 0 <= k < d.streams.len() implies #[trigger] d.streams[k].fits(d.peer, d.local) by {
        assert(c.streams[k].fits(c.peer, c.local));
    }
}

/// A window shift that fails on a prefix fails on the whole.
proof fn lemma_shift_none_extends(s: Seq<StreamRecord>, i: int, delta: int)
    requires
        0 <= i <= s.len(),
        windows_shifted(s.subrange(0, i), delta) is None,
    ensures
        windows_shifted(s, delta) is None,
    decreases s.len() - i,
{
    if i < s.len() {
        assert(s.subrange(0, i + 1).drop_last() =~= s.subrange(0, i));
        lemma_shift_none_extends(s, i + 1, delta);
    } else {
        assert(s.subrange(0, i) =~= s);
    }
}

/// Where no record before `i` is closed, the first closed record is found
/// at or after `i`.
proof fn lemma_first_closed_from(s: Seq<StreamRecord>, i: int)
    requires
        0 <= i <= s.len(),
        forall|j: int| 0 <= j < i ==> !(#[trigger] s[j].state is Closed),
    ensures
        first_closed(s) == (match first_closed(s.subrange(i, s.len() as int)) {
            Some(k) => Some(k + i),
            None => None::<int>,
        }),
    decreases i,
{
    if i > 0 {
        let t = s.drop_first();
        assert forall|j: int| 0 <= j < i - 1 implies !(#[trigger] t[j].state is Closed) by {
            assert(t[j] == s[j + 1]);
        }
        lemma_first_closed_from(t, i - 1);
        assert(t.subrange(i - 1, t.len() as int) =~= s.subrange(i, s.len() as int));
    } else {
        assert(s.subrange(0, s.len() as int) =~= s);
    }
}

impl Connection {
    /// Every send window moved by `delta`, or `None` when one would exceed
    /// the largest window.
    fn shift_windows(&self, delta: i64, n: Settings) -> (r: Option<Vec<StreamRecord>>)
        requires
            self.wf(),
            n.valid(),
            delta == n.initial_window_size - self@.peer.initial_window_size,
        ensures
            match r {
                Some(v) => windows_shifted(self@.streams, delta as int) == Some(v@) && forall|k: int|
                    0 <= k < v@.len() ==> #[trigger] v@[k].fits(n, self@.local),
                None => windows_shifted(self@.streams, delta as int) is None,
            },
    {
        let mut out: Vec<StreamRecord> = Vec::new();
        let mut i: usize = 0;
        assert(self@.streams.subrange(0, 0) =~= Seq::<StreamRecord>::empty());
        while i < self.streams.len()
            invariant
                self.wf(),
                n.valid(),
                delta == n.initial_window_size - self@.peer.initial_window_size,
                i <= self@.streams.len(),
                windows_shifted(self@.streams.subrange(0, i as int), delta as int) == Some(out@),
                forall|k: int| 0 <= k < out@.len() ==> #[trigger] out@[k].fits(n, self@.local),
            decreases self@.streams.len() - i,
        {
            let rec = self.streams[i];
            assert(self@.streams[i as int].fits(self@.peer, self@.local));
            let ghost sub = self@.streams.subrange(0, i as int + 1);
            assert(sub.drop_last() =~= self@.streams.subrange(0, i as int));
            assert(sub.last() == rec);
            if rec.send_window + delta > MAX_WINDOW as i64 {
                proof {
                    lemma_shift_none_extends(self@.streams, i as int + 1, delta as int);
                }
                return None;
            }
            out.push(StreamRecord { send_window: rec.send_window + delta, ..rec });
            i = i + 1;
        }
        assert(self@.streams.subrange(0, i as int) =~= self@.streams);
        Some(out)
    }

    /// At `retain` records or more, drops the oldest closed one.
    fn prune(&mut self)
        requires
            old(self).wf(),
        ensures
            final(self).wf(),
            final(self)@ == (ConnView { streams: pruned(old(self)@.streams, old(self)@.retain), ..old(self)@ }),
    {
        if self.streams.len() < self.retain {
            return;
        }
        let mut i: usize = 0;
        while i < self.streams.len()
            invariant
                self@ == old(self)@,
                self.wf(),
                self@.streams.len() >= self@.retain,
                i <= self@.streams.len(),
                forall|j: int| 0 <= j < i ==> !(#[trigger] self@.streams[j].state is Closed),
            decreases self@.streams.len() - i,
        {
            if let StreamState::Closed(_) = self.streams[i].state {
                proof {
                    lemma_first_closed_from(self@.streams, i as int);
                    let sub = self@.streams.subrange(i as int, self@.streams.len() as int);
                    assert(sub[0] == self@.streams[i as int]);
                    assert(first_closed(sub) == Some(0int));
                    assert(first_closed(self@.streams) == Some(i as int));
                }
                let ghost before = self@.streams;
                self.streams.remove(i);
                proof {
                    assert(self@.streams == before.remove(i as int));
                    assert(pruned(before, old(self)@.retain) == before.remove(i as int));
                    assert forall|k: int| 0 <= k < self@.streams.len() implies #[trigger] self@.streams[k].fits(self@.peer, self@.local) by {
                        if k < i {
                            assert(self@.streams[k] == before[k]);
                        } else {
                            assert(self@.streams[k] == before[k + 1]);
                        }
                    }
                }
                return;
            }
            i = i + 1;
        }
        proof {
            lemma_first_closed_from(self@.streams, i as int);
            assert(self@.streams.subrange(i as int, self@.streams.len() as int) =~= Seq::<StreamRecord>::empty());
        }
    }

    fn on_ping(&mut self, h: FrameHeader, p: &[u8]) -> (r: Vec<Action>)
        requires
            old(self).wf(),
            old(self)@.takes(h),
            h.valid(),
            h.frame_type == 6,
            h.len == p@.len(),
        ensures
            final(self).wf(),
            frame_outcome(old(self)@, h, p@, final(self)@, actions_view(r@)),
            final(self)@.pending == old(self)@.pending,
    {
        if h.stream_id != 0 {
            return self.connection_error(ErrorCode::ProtocolError);
        }
        if h.len != 8 {
            return self.connection_error(ErrorCode::FrameSizeError);
        }
        self.mark_running();
        if h.flag(FLAG_ACK) {
            let r: Vec<Action> = Vec::new();
            assert(actions_view(r@) =~= Seq::<ActionView>::empty());
            return r;
        }
        let mut data: Vec<u8> = Vec::new();
        let mut i: usize = 0;
        while i < p.len()
            invariant
                i <= p@.len(),
                data@ == p@.subrange(0, i as int),
            decreases p@.len() - i,
        {
            data.push(p[i]);
            i = i + 1;
            assert(data@ =~= p@.subrange(0, i as int));
        }
        assert(data@ =~= p@);
        let r = vec![Action::SendPingAck(data)];
        assert(actions_view(r@) =~= seq![ActionView::SendPingAck(p@)]);
        r
    }

    fn on_goaway(&mut self, h: FrameHeader) -> (r: Vec<Action>)
        requires
            old(self).wf(),
            old(self)@.takes(h),
            h.valid(),
            h.frame_type == 7,
        ensures
            final(self).wf(),
            forall|p: Seq<u8>| frame_outcome(old(self)@, h, p, final(self)@, actions_view(r@)),
            final(self)@.pending == old(self)@.pending,
    {
        if h.stream_id != 0 {
            return self.connection_error(ErrorCode::ProtocolError);
        }
        if h.len < 8 {
            return self.connection_error(ErrorCode::FrameSizeError);
        }
        self.mark_running();
        self.goaway_received = true;
        let r: Vec<Action> = Vec::new();
        assert(actions_view(r@) =~= Seq::<ActionView>::empty());
        r
    }

    fn on_priority(&mut self, h: FrameHeader) -> (r: Vec<Action>)
        requires
            old(self).wf(),
            old(self)@.takes(h),
            h.valid(),
            h.frame_type == 2,
        ensures
            final(self).wf(),
            forall|p: Seq<u8>| frame_outcome(old(self)@, h, p, final(self)@, actions_view(r@)),
            final(self)@.pending == old(self)@.pending,
    {
        if h.stream_id == 0 {
            return self.connection_error(ErrorCode::ProtocolError);
        }
        if h.len != 5 {
            return self.stream_error(h.stream_id, ErrorCode::FrameSizeError);
        }
        self.mark_running();
        let r: Vec<Action> = Vec::new();
        assert(actions_view(r@) =~= Seq::<ActionView>::empty());
        r
    }

    fn on_rst_stream(&mut self, h: FrameHeader) -> (r: Vec<Action>)
        requires
            old(self).wf(),
            old(self)@.takes(h),
            h.valid(),
            h.frame_type == 3,
        ensures
            final(self).wf(),
            forall|p: Seq<u8>| frame_outcome(old(self)@, h, p, final(self)@, actions_view(r@)),
            final(self)@.pending == old(self)@.pending,
    {
        let id = h.stream_id;
        if id == 0 {
            return self.connection_error(ErrorCode::ProtocolError);
        }
        if h.len != 4 {
            return self.connection_error(ErrorCode::FrameSizeError);
        }
        match self.state_of(id).transition(StreamEvent::RecvRstStream) {
            Transition::ConnectionError(e) => self.connection_error(e),
            Transition::StreamError(e) => self.stream_error(id, e),
            Transition::Next(_) => {
                let k = match self.find(id) {
                    Some(k) => k,
                    None => {
                        return self.connection_error(ErrorCode::InternalError);
                    },
                };
                proof {
                    lemma_find_stream(self@.streams, id);
                }
                let rec = self.streams[k];
                assert(self@.streams[k as int].fits(self@.peer, self@.local));
                self.streams.set(k, StreamRecord { state: StreamState::Closed(CloseReason::Reset), ..rec });
                proof {
                    assert forall|j: int| 0 <= j < self@.streams.len() implies #[trigger] self@.streams[j].fits(self@.peer, self@.local) by {
                        if j != k {
                            assert(self@.streams[j] == old(self)@.streams[j]);
                        }
                    }
                }
                self.mark_running();
                let r = vec![Action::Cancel { stream_id: id }];
                assert(actions_view(r@) =~= seq![ActionView::Cancel(id)]);
                r
            },
        }
    }
}


impl Connection {
    fn on_window_update(&mut self, h: FrameHeader, p: &[u8]) -> (r: Vec<Action>)
        requires
            old(self).wf(),
            old(self)@.takes(h),
            h.valid(),
            h.frame_type == 8,
            h.len == p@.len(),
        ensures
            final(self).wf(),
            frame_outcome(old(self)@, h, p@, final(self)@, actions_view(r@)),
            final(self)@.pending == old(self)@.pending,
    {
        let id = h.stream_id;
        if id == 0 {
            let inc = match window_increment(p) {
                Ok(inc) => inc,
                Err(e) => {
                    return self.connection_error(e);
                },
            };
            if self.send_window + inc as i64 > MAX_WINDOW as i64 {
                return self.connection_error(ErrorCode::FlowControlError);
            }
            self.send_window = self.send_window + inc as i64;
            self.mark_running();
            let r: Vec<Action> = Vec::new();
            assert(actions_view(r@) =~= Seq::<ActionView>::empty());
            return r;
        }
        if h.len != 4 {
            return self.connection_error(ErrorCode::FrameSizeError);
        }
        match self.state_of(id).transition(StreamEvent::RecvWindowUpdate) {
            Transition::ConnectionError(e) => self.connection_error(e),
            Transition::StreamError(e) => self.stream_error(id, e),
            Transition::Next(_) => {
                let k = match self.find(id) {
                    Some(k) => k,
                    None => {
                        return self.connection_error(ErrorCode::InternalError);
                    },
                };
                proof {
                    lemma_find_stream(self@.streams, id);
                }
                let inc = match window_increment(p) {
                    Ok(inc) => inc,
                    Err(e) => {
                        return self.stream_error(id, e);
                    },
                };
                let rec = self.streams[k];
                assert(self@.streams[k as int].fits(self@.peer, self@.local));
                if rec.send_window + inc as i64 > MAX_WINDOW as i64 {
                    return self.stream_error(id, ErrorCode::FlowControlError);
                }
                self.streams.set(k, StreamRecord { send_window: rec.send_window + inc as i64, ..rec });
                proof {
                    assert forall|j: int| 0 <= j < self@.streams.len() implies #[trigger] self@.streams[j].fits(self@.peer, self@.local) by {
                        if j != k {
                            assert(self@.streams[j] == old(self)@.streams[j]);
                        }
                    }
                }
                self.mark_running();
                let r: Vec<Action> = Vec::new();
                assert(actions_view(r@) =~= Seq::<ActionView>::empty());
                r
            },
        }
    }

    /// The peer acknowledged what this side announced: it is in force now,
    /// and every receive window moves by the change of the initial window.
    fn apply_announced(&mut self)
        requires
            old(self).wf(),
        ensures
            final(self).wf(),
            final(self)@ == (ConnView {
                local: old(self)@.announced,
                streams: recv_windows_shifted(
                    old(self)@.streams,
                    old(self)@.announced.initial_window_size - old(self)@.local.initial_window_size,
                ),
                ..old(self)@
            }),
    {
        let delta = self.announced.initial_window_size as i64 - self.local.initial_window_size as i64;
        let ghost c0 = self@;
        let mut out: Vec<StreamRecord> = Vec::new();
        let mut i: usize = 0;
        assert(c0.streams.subrange(0, 0) =~= Seq::<StreamRecord>::empty());
        while i < self.streams.len()
            invariant
                self@ == c0,
                c0.wf(),
                delta == c0.announced.initial_window_size - c0.local.initial_window_size,
                i <= c0.streams.len(),
                out@ == recv_windows_shifted(c0.streams.subrange(0, i as int), delta as int),
                forall|k: int| 0 <= k < out@.len() ==> #[trigger] out@[k].fits(c0.peer, c0.announced),
            decreases c0.streams.len() - i,
        {
            let rec = self.streams[i];
            assert(c0.streams[i as int].fits(c0.peer, c0.local));
            let ghost sub = c0.streams.subrange(0, i as int + 1);
            assert(sub.drop_last() =~= c0.streams.subrange(0, i as int));
            assert(sub.last() == rec);
            let w = if rec.recv_window + delta > MAX_WINDOW as i64 {
                MAX_WINDOW as i64
            } else {
                rec.recv_window + delta
            };
            out.push(StreamRecord { recv_window: w, ..rec });
            i = i + 1;
        }
        assert(c0.streams.subrange(0, i as int) =~= c0.streams);
        self.streams = out;
        self.local = self.announced;
    }

    fn on_settings(&mut self, h: FrameHeader, p: &[u8]) -> (r: Vec<Action>)
        requires
            old(self).wf(),
            old(self)@.takes(h),
            h.valid(),
            h.frame_type == 4,
            h.len == p@.len(),
        ensures
            final(self).wf(),
            frame_outcome(old(self)@, h, p@, final(self)@, actions_view(r@)),
            final(self)@.pending == old(self)@.pending,
    {
        if h.stream_id != 0 {
            return self.connection_error(ErrorCode::ProtocolError);
        }
        if h.flag(FLAG_ACK) {
            if h.len != 0 {
                return self.connection_error(ErrorCode::FrameSizeError);
            }
            self.apply_announced();
            self.mark_running();
            let r: Vec<Action> = Vec::new();
            assert(actions_view(r@) =~= Seq::<ActionView>::empty());
            return r;
        }
        let n = match apply_settings_payload(self.peer, p) {
            Ok(n) => n,
            Err(e) => {
                return self.connection_error(e);
            },
        };
        proof {
            crate::frame::lemma_settings_payload_keeps_valid(self.peer, p@);
        }
        let delta = n.initial_window_size as i64 - self.peer.initial_window_size as i64;
        let shifted = match self.shift_windows(delta, n) {
            Some(v) => v,
            None => {
                return self.connection_error(ErrorCode::FlowControlError);
            },
        };
        self.streams = shifted;
        self.peer = n;
        self.mark_running();
        let r = vec![Action::SendSettingsAck];
        assert(actions_view(r@) =~= seq![ActionView::SendSettingsAck]);
        r
    }

    fn on_data(&mut self, h: FrameHeader, p: &[u8]) -> (r: Vec<Action>)
        requires
            old(self).wf(),
            old(self)@.takes(h),
            h.valid(),
            h.frame_type == 0,
            h.len == p@.len(),
        ensures
            final(self).wf(),
            frame_outcome(old(self)@, h, p@, final(self)@, actions_view(r@)),
            final(self)@.pending == old(self)@.pending,
    {
        let id = h.stream_id;
        if id == 0 {
            return self.connection_error(ErrorCode::ProtocolError);
        }
        let (a, b) = match payload_body(h.flags, p, false) {
            Ok(x) => x,
            Err(e) => {
                return self.connection_error(e);
            },
        };
        let es = h.flag(FLAG_END_STREAM);
        match self.state_of(id).transition(StreamEvent::RecvData { end_stream: es }) {
            Transition::ConnectionError(e) => self.connection_error(e),
            Transition::StreamError(e) => self.stream_error(id, e),
            Transition::Next(ns) => {
                let k = match self.find(id) {
                    Some(k) => k,
                    None => {
                        return self.connection_error(ErrorCode::InternalError);
                    },
                };
                proof {
                    lemma_find_stream(self@.streams, id);
                }
                if self.recv_window < h.len as i64 {
                    return self.connection_error(ErrorCode::FlowControlError);
                }
                let rec = self.streams[k];
                assert(self@.streams[k as int].fits(self@.peer, self@.local));
                if rec.recv_window < h.len as i64 {
                    return self.stream_error(id, ErrorCode::FlowControlError);
                }
                let data = crate::hpack::slice_subrange(p, a, b);
                self.recv_window = self.recv_window - h.len as i64;
                self.streams.set(k, StreamRecord { state: ns, recv_window: rec.recv_window - h.len as i64, ..rec });
                proof {
                    assert forall|j: int| 0 <= j < self@.streams.len() implies #[trigger] self@.streams[j].fits(self@.peer, self@.local) by {
                        if j != k {
                            assert(self@.streams[j] == old(self)@.streams[j]);
                        }
                    }
                }
                self.mark_running();
                let r = vec![Action::Body { stream_id: id, data, end_stream: es }];
                assert(actions_view(r@) =~= seq![ActionView::Body(id, p@.subrange(a as int, b as int), es)]);
                r
            },
        }
    }
}


impl Connection {
    /// Moves stream `id` to `st`, opening it when it is not kept.
    fn enter_state(&mut self, id: u32, st: StreamState)
        requires
            old(self).wf(),
            find_stream(old(self)@.streams, id) is None ==> id > old(self)@.last_stream_id,
            id <= MAX_STREAM_ID,
        ensures
            final(self).wf(),
            final(self)@ == (match find_stream(old(self)@.streams, id) {
                Some(k) => ConnView {
                    streams: old(self)@.streams.update(k, StreamRecord { state: st, ..old(self)@.streams[k] }),
                    ..old(self)@
                },
                None => ConnView {
                    streams: pruned(old(self)@.streams, old(self)@.retain).push(
                        StreamRecord {
                            id,
                            state: st,
                            send_window: old(self)@.peer.initial_window_size as i64,
                            recv_window: old(self)@.local.initial_window_size as i64,
                        },
                    ),
                    last_stream_id: id,
                    ..old(self)@
                },
            }),
    {
        match self.find(id) {
            Some(k) => {
                proof {
                    lemma_find_stream(self@.streams, id);
                }
                let rec = self.streams[k];
                assert(self@.streams[k as int].fits(self@.peer, self@.local));
                self.streams.set(k, StreamRecord { state: st, ..rec });
                proof {
                    assert forall|j: int| 0 <= j < self@.streams.len() implies #[trigger] self@.streams[j].fits(self@.peer, self@.local) by {
                        if j != k {
                            assert(self@.streams[j] == old(self)@.streams[j]);
                        }
                    }
                }
            },
            None => {
                self.prune();
                let ghost before = self@.streams;
                let rec = StreamRecord {
                    id,
                    state: st,
                    send_window: self.peer.initial_window_size as i64,
                    recv_window: self.local.initial_window_size as i64,
                };
                self.streams.push(rec);
                self.last_stream_id = id;
                proof {
                    assert forall|j: int| 0 <= j < self@.streams.len() implies #[trigger] self@.streams[j].fits(self@.peer, self@.local) by {
                        if j < before.len() {
                            assert(self@.streams[j] == before[j]);
                        }
                    }
                }
            },
        }
    }

    fn on_headers(&mut self, h: FrameHeader, p: &[u8]) -> (r: Vec<Action>)
        requires
            old(self).wf(),
            old(self)@.takes(h),
            h.valid(),
            h.frame_type == 1,
            h.len == p@.len(),
        ensures
            final(self).wf(),
            frame_outcome(old(self)@, h, p@, final(self)@, actions_view(r@)),
            final(self)@.pending == old(self)@.pending,
    {
        let id = h.stream_id;
        if id == 0 || id % 2 == 0 {
            return self.connection_error(ErrorCode::ProtocolError);
        }
        let (a, b) = match payload_body(h.flags, p, true) {
            Ok(x) => x,
            Err(e) => {
                return self.connection_error(e);
            },
        };
        let es = h.flag(FLAG_END_STREAM);
        if self.find(id).is_none() && id <= self.last_stream_id {
            return self.connection_error(ErrorCode::ProtocolError);
        }
        match self.state_of(id).transition(StreamEvent::RecvHeaders { end_stream: es }) {
            Transition::ConnectionError(e) => self.connection_error(e),
            Transition::StreamError(e) => self.stream_error(id, e),
            Transition::Next(ns0) => {
                let block = crate::hpack::slice_subrange(p, a, b);
                assert(block@ == block_of(old(self)@, h, p@));
                let refuse = self.find(id).is_none() && self.active_count() >= self.local.max_concurrent_streams as u64;
                assert(refuse == refused(old(self)@, id));
                let ns = if refuse {
                    StreamState::Closed(CloseReason::Reset)
                } else {
                    ns0
                };
                let mut r: Vec<Action> = Vec::new();
                if refuse {
                    r.push(Action::SendRstStream { stream_id: id, code: ErrorCode::RefusedStream });
                }
                if h.flag(FLAG_END_HEADERS) {
                    let fields = match self.decoder.decode(block.as_slice()) {
                        Some(f) => f,
                        None => {
                            return self.connection_error(ErrorCode::CompressionError);
                        },
                    };
                    self.enter_state(id, ns);
                    self.mark_running();
                    if !refuse {
                        r.push(Action::Request { stream_id: id, headers: fields, end_stream: es });
                        assert(actions_view(r@) =~= seq![ActionView::Request(id, fields_view(fields@), es)]);
                    } else {
                        assert(actions_view(r@) =~= seq![ActionView::SendRstStream(id, ErrorCode::RefusedStream)]);
                    }
                    r
                } else {
                    self.enter_state(id, ns);
                    let ghost c1 = self@;
                    self.continuation = Some((id, es));
                    self.fragment = block;
                    proof {
                        lemma_wf_ignores_fragment(c1, self@);
                    }
                    self.mark_running();
                    if refuse {
                        assert(actions_view(r@) =~= seq![ActionView::SendRstStream(id, ErrorCode::RefusedStream)]);
                    } else {
                        assert(actions_view(r@) =~= Seq::<ActionView>::empty());
                    }
                    r
                }
            },
        }
    }

    /// Appends `p` to the header block being continued.
    fn extend_fragment(&mut self, p: &[u8])
        requires
            old(self).wf(),
        ensures
            final(self).wf(),
            final(self)@ == (ConnView { fragment: old(self)@.fragment + p@, ..old(self)@ }),
    {
        let ghost frag0 = self@.fragment;
        let ghost c0 = self@;
        let mut i: usize = 0;
        while i < p.len()
            invariant
                c0.wf(),
                c0 == old(self)@,
                self.wf(),
                self@ == (ConnView { fragment: frag0 + p@.subrange(0, i as int), ..old(self)@ }),
                i <= p@.len(),
            decreases p@.len() - i,
        {
            self.fragment.push(p[i]);
            i = i + 1;
            assert(self@.fragment =~= frag0 + p@.subrange(0, i as int));
            proof {
                lemma_wf_ignores_fragment(c0, self@);
            }
        }
        assert(p@.subrange(0, i as int) =~= p@);
    }

    fn on_continuation(&mut self, h: FrameHeader, p: &[u8]) -> (r: Vec<Action>)
        requires
            old(self).wf(),
            old(self)@.takes(h),
            h.valid(),
            h.frame_type == 9,
            h.len == p@.len(),
        ensures
            final(self).wf(),
            frame_outcome(old(self)@, h, p@, final(self)@, actions_view(r@)),
            final(self)@.pending == old(self)@.pending,
    {
        let id = h.stream_id;
        let (sid, es0) = match self.continuation {
            Some(x) => x,
            None => {
                return match self.state_of(id).transition(StreamEvent::RecvContinuation) {
                    Transition::StreamError(e) => self.stream_error(id, e),
                    Transition::ConnectionError(e) => self.connection_error(e),
                    Transition::Next(_) => self.connection_error(ErrorCode::ProtocolError),
                };
            },
        };
        self.extend_fragment(p);
        if h.flag(FLAG_END_HEADERS) {
            let fields = match self.decoder.decode(self.fragment.as_slice()) {
                Some(f) => f,
                None => {
                    return self.connection_error(ErrorCode::CompressionError);
                },
            };
            let ghost c1 = self@;
            self.continuation = None;
            self.fragment = Vec::new();
            assert(self@.fragment =~= Seq::<u8>::empty());
            proof {
                lemma_wf_ignores_fragment(c1, self@);
            }
            self.mark_running();
            if self.state_of(sid) == StreamState::Closed(CloseReason::Reset) {
                let r: Vec<Action> = Vec::new();
                assert(actions_view(r@) =~= Seq::<ActionView>::empty());
                return r;
            }
            let r = vec![Action::Request { stream_id: sid, headers: fields, end_stream: es0 }];
            assert(actions_view(r@) =~= seq![ActionView::Request(sid, fields_view(fields@), es0)]);
            r
        } else {
            self.mark_running();
            let r: Vec<Action> = Vec::new();
            assert(actions_view(r@) =~= Seq::<ActionView>::empty());
            r
        }
    }

    /// Takes one frame whose whole payload is there: judges it and carries
    /// out what it asks for. See `frame_verdict` and `accepted_effect`.
    pub fn on_frame(&mut self, h: FrameHeader, p: &[u8]) -> (r: Vec<Action>)
        requires
            old(self).wf(),
            old(self)@.phase == Phase::FirstSettings || old(self)@.phase == Phase::Running,
            h.valid(),
            h.len == p@.len(),
        ensures
            final(self).wf(),
            frame_outcome(old(self)@, h, p@, final(self)@, actions_view(r@)),
            final(self)@.pending == old(self)@.pending,
    {
        let t = h.frame_type;
        let id = h.stream_id;
        if self.phase == Phase::FirstSettings && !(t == 4 && !h.flag(FLAG_ACK)) {
            return self.connection_error(ErrorCode::ProtocolError);
        }
        if h.len > self.local.max_frame_size {
            if t == 1 || t == 4 || t == 5 || t == 9 || id == 0 {
                return self.connection_error(ErrorCode::FrameSizeError);
            } else {
                return self.stream_error(id, ErrorCode::FrameSizeError);
            }
        }
        if let Some((s, _)) = self.continuation {
            if !(t == 9 && id == s) {
                return self.connection_error(ErrorCode::ProtocolError);
            }
        }
        if t == 0 {
            self.on_data(h, p)
        } else if t == 1 {
            self.on_headers(h, p)
        } else if t == 2 {
            self.on_priority(h)
        } else if t == 3 {
            self.on_rst_stream(h)
        } else if t == 4 {
            self.on_settings(h, p)
        } else if t == 5 {
            self.connection_error(ErrorCode::ProtocolError)
        } else if t == 6 {
            self.on_ping(h, p)
        } else if t == 7 {
            self.on_goaway(h)
        } else if t == 8 {
            self.on_window_update(h, p)
        } else if t == 9 {
            self.on_continuation(h, p)
        } else {
            self.mark_running();
            let r: Vec<Action> = Vec::new();
            assert(actions_view(r@) =~= Seq::<ActionView>::empty());
            r
        }
    }
}


/// `q` starts with a whole frame.
pub open spec fn whole_frame_pending(q: Seq<u8>) -> bool {
    q.len() >= 9 && q.len() >= 9 + header_of(q).len
}

impl Connection {
    /// Appends received bytes to what is pending.
    fn buffer(&mut self, bytes: &[u8])
        requires
            old(self).wf(),
        ensures
            final(self).wf(),
            final(self)@ == (ConnView { pending: old(self)@.pending + bytes@, ..old(self)@ }),
    {
        let ghost c0 = self@;
        let mut i: usize = 0;
        while i < bytes.len()
            invariant
                c0 == old(self)@,
                c0.wf(),
                self.decoder.wf(),
                self@ == (ConnView { pending: c0.pending + bytes@.subrange(0, i as int), ..c0 }),
                i <= bytes@.len(),
            decreases bytes@.len() - i,
        {
            self.input.push(bytes[i]);
            i = i + 1;
            assert(self@.pending =~= c0.pending + bytes@.subrange(0, i as int));
        }
        assert(bytes@.subrange(0, i as int) =~= bytes@);
        proof {
            lemma_wf_ignores_fragment(c0, self@);
        }
    }

    /// Drops the first `n` pending bytes.
    fn consume(&mut self, n: usize)
        requires
            old(self).wf(),
            n <= old(self)@.pending.len(),
        ensures
            final(self).wf(),
            final(self)@ == (ConnView {
                pending: old(self)@.pending.subrange(n as int, old(self)@.pending.len() as int),
                ..old(self)@
            }),
    {
        let rest = crate::hpack::slice_subrange(self.input.as_slice(), n, self.input.len());
        let ghost c0 = self@;
        self.input = rest;
        proof {
            lemma_wf_ignores_fragment(c0, self@);
        }
    }

    /// Takes the client preface off the pending bytes: on a match, this
    /// side's SETTINGS go out and the first frame is awaited; on a mismatch,
    /// GOAWAY(PROTOCOL_ERROR) and close, with no SETTINGS; while only part of
    /// it has come, nothing happens.
    pub fn take_preface(&mut self) -> (r: Vec<Action>)
        requires
            old(self).wf(),
            old(self)@.phase == Phase::Preface,
        ensures
            final(self).wf(),
            ({
                let c = old(self)@;
                let q = c.pending;
                if q.len() >= 24 && q.subrange(0, 24) == preface() {
                    &&& final(self)@ == (ConnView {
                        phase: Phase::FirstSettings,
                        pending: q.subrange(24, q.len() as int),
                        ..c
                    })
                    &&& actions_view(r@) == seq![ActionView::SendSettings(c.announced)]
                } else if q.len() < 24 && q == preface().subrange(0, q.len() as int) {
                    &&& final(self)@ == c
                    &&& r@.len() == 0
                } else {
                    &&& final(self)@ == (ConnView { phase: Phase::Closed, ..c })
                    &&& actions_view(r@) == seq![
                        ActionView::SendGoAway(0, ErrorCode::ProtocolError),
                        ActionView::Close,
                    ]
                }
            }),
    {
        match check_preface(self.input.as_slice()) {
            PrefaceCheck::Complete => {
                self.consume(24);
                self.phase = Phase::FirstSettings;
                let r = vec![Action::SendSettings(self.announced)];
                assert(actions_view(r@) =~= seq![ActionView::SendSettings(old(self)@.announced)]);
                r
            },
            PrefaceCheck::Incomplete => Vec::new(),
            PrefaceCheck::Invalid => {
                self.phase = Phase::Closed;
                let r = vec![
                    Action::SendGoAway { last_stream_id: 0, code: ErrorCode::ProtocolError },
                    Action::Close,
                ];
                assert(actions_view(r@) =~= seq![
                    ActionView::SendGoAway(0, ErrorCode::ProtocolError),
                    ActionView::Close,
                ]);
                r
            },
        }
    }

    /// Takes the first whole frame off the pending bytes, if one is there.
    pub fn next_frame(&mut self) -> (r: Option<(FrameHeader, Vec<u8>)>)
        requires
            old(self).wf(),
        ensures
            final(self).wf(),
            ({
                let q = old(self)@.pending;
                match r {
                    Some((h, p)) => {
                        &&& q.len() >= 9
                        &&& h == header_of(q)
                        &&& h.valid()
                        &&& q.len() >= 9 + h.len
                        &&& p@ == q.subrange(9, 9 + h.len)
                        &&& final(self)@ == (ConnView {
                            pending: q.subrange(9 + h.len, q.len() as int),
                            ..old(self)@
                        })
                    },
                    None => {
                        &&& q.len() < 9 || q.len() < 9 + header_of(q).len
                        &&& final(self)@ == old(self)@
                    },
                }
            }),
    {
        let h = match decode_frame_header(self.input.as_slice()) {
            Some(h) => h,
            None => {
                return None;
            },
        };
        if self.input.len() - 9 < h.len as usize {
            return None;
        }
        let end = 9 + h.len as usize;
        let p = crate::hpack::slice_subrange(self.input.as_slice(), 9, end);
        self.consume(end);
        Some((h, p))
    }

    /// Takes received bytes: the preface first, then every whole frame, in
    /// order, each as `on_frame` does, until the connection closes or only
    /// part of a frame is left.
    pub fn receive(&mut self, bytes: &[u8]) -> (r: Vec<Action>)
        requires
            old(self).wf(),
        ensures
            final(self).wf(),
            (final(self)@, actions_view(r@)) == received(old(self)@, bytes@),
    {
        let mut out: Vec<Action> = Vec::new();
        if self.phase == Phase::Closed {
            assert(actions_view(out@) =~= Seq::<ActionView>::empty());
            return out;
        }
        let ghost c0 = old(self)@;
        let ghost q = c0.pending + bytes@;
        self.buffer(bytes);
        let ghost target = received(c0, bytes@);
        if self.phase == Phase::Preface {
            let mut first = self.take_preface();
            if self.phase != Phase::FirstSettings {
                return first;
            }
            out.append(&mut first);
            proof {
                assert(self@ == ConnView { phase: Phase::FirstSettings, pending: q.subrange(24, q.len() as int), ..c0 });
                assert(ConnView { pending: self@.pending, ..ConnView { phase: Phase::FirstSettings, ..c0 } } == self@);
            }
        }
        assert(frames_received(self@, self@.pending).0 == target.0 && actions_view(out@) + frames_received(self@, self@.pending).1 == target.1) by {
            if c0.phase == Phase::Preface {
                assert(ConnView { phase: Phase::FirstSettings, ..c0 } == ConnView { pending: c0.pending, ..self@ });
                lemma_frames_received_ignores_pending(ConnView { phase: Phase::FirstSettings, ..c0 }, self@, self@.pending);
            } else {
                assert(actions_view(out@) =~= Seq::<ActionView>::empty());
                assert(Seq::<ActionView>::empty() + frames_received(self@, self@.pending).1 =~= frames_received(self@, self@.pending).1);
                lemma_frames_received_ignores_pending(c0, self@, q);
            }
        }
        loop
            invariant
                self.wf(),
                frames_received(self@, self@.pending).0 == target.0,
                actions_view(out@) + frames_received(self@, self@.pending).1 == target.1,
            ensures
                self.wf(),
                self@ == target.0,
                actions_view(out@) == target.1,
            decreases self@.pending.len(),
        {
            let ghost before = self@;
            if !(self.phase == Phase::FirstSettings || self.phase == Phase::Running) {
                assert(actions_view(out@) + Seq::<ActionView>::empty() =~= actions_view(out@));
                assert(ConnView { pending: self@.pending, ..self@ } == self@);
                break;
            }
            let (h, p) = match self.next_frame() {
                Some(x) => x,
                None => {
                    assert(actions_view(out@) + Seq::<ActionView>::empty() =~= actions_view(out@));
                    assert(ConnView { pending: self@.pending, ..self@ } == self@);
                    break;
                },
            };
            let ghost mid = self@;
            let ghost outs = actions_view(out@);
            let mut acts = self.on_frame(h, p.as_slice());
            let ghost av = actions_view(acts@);
            out.append(&mut acts);
            proof {
                assert(mid == ConnView { pending: mid.pending, ..before });
                assert(actions_view(out@) =~= outs + av);
                let more = frames_received(self@, self@.pending);
                assert(frames_received(before, before.pending) == (more.0, av + more.1));
                assert(outs + (av + more.1) =~= (outs + av) + more.1);
            }
        }
        out
    }
}

/// Taking frames depends on the pending bytes handed to it, not on those
/// the connection had pending before.
proof fn lemma_frames_received_ignores_pending(c: ConnView, d: ConnView, q: Seq<u8>)
    requires
        d == (ConnView { pending: d.pending, ..c }),
    ensures
        frames_received(c, q) == frames_received(d, q),
    decreases q.len(),
{
    if (c.phase == Phase::FirstSettings || c.phase == Phase::Running) && whole_frame_pending(q) {
        let h = header_of(q);
        let rest = q.subrange(9 + h.len, q.len() as int);
        assert(ConnView { pending: rest, ..c } == ConnView { pending: rest, ..d });
    }
}

/// The bytes that carry an action to the peer; none for actions that are
/// not frames to send.
pub open spec fn action_bytes(a: ActionView) -> Seq<u8> {
    match a {
        ActionView::SendSettings(s) => frame_bytes(4, 0, 0, settings_payload(s)),
        ActionView::SendSettingsAck => frame_bytes(4, FLAG_ACK, 0, Seq::empty()),
        ActionView::SendPingAck(d) => frame_bytes(6, FLAG_ACK, 0, d),
        ActionView::SendWindowUpdate(id, inc) => frame_bytes(8, 0, id, u32_bytes(inc)),
        ActionView::SendRstStream(id, code) => frame_bytes(3, 0, id, u32_bytes(error_code_value(code))),
        ActionView::SendGoAway(last, code) => frame_bytes(
            7,
            0,
            0,
            u32_bytes(last) + u32_bytes(error_code_value(code)),
        ),
        _ => Seq::empty(),
    }
}

impl Action {
    /// The bytes that carry this action to the peer; empty for actions that
    /// are not frames to send.
    pub fn to_bytes(&self) -> (r: Vec<u8>)
        requires
            match self {
                Action::SendSettings(s) => s.valid(),
                Action::SendPingAck(d) => d@.len() == 8,
                Action::SendWindowUpdate { stream_id, .. } => *stream_id <= MAX_STREAM_ID,
                Action::SendRstStream { stream_id, .. } => *stream_id <= MAX_STREAM_ID,
                Action::SendGoAway { last_stream_id, .. } => *last_stream_id <= MAX_STREAM_ID,
                _ => true,
            },
        ensures
            r@ == action_bytes(self@),
    {
        match self {
            Action::SendSettings(s) => settings_frame(s),
            Action::SendSettingsAck => settings_ack_frame(),
            Action::SendPingAck(d) => ping_ack_frame(d.as_slice()),
            Action::SendWindowUpdate { stream_id, increment } => window_update_frame(*stream_id, *increment),
            Action::SendRstStream { stream_id, code } => rst_stream_frame(*stream_id, *code),
            Action::SendGoAway { last_stream_id, code } => goaway_frame(*last_stream_id, *code),
            _ => Vec::new(),
        }
    }
}


/// The smaller of two integers.
pub open spec fn min_int(a: int, b: int) -> int {
    if a < b {
        a
    } else {
        b
    }
}

/// How many bytes of body may go out on stream record `rec` now, when
/// `wanted` are ready: never more than either window allows.
pub open spec fn send_allowance(c: ConnView, rec: StreamRecord, wanted: nat) -> nat {
    let a = min_int(min_int(wanted as int, c.send_window), rec.send_window as int);
    if a < 0 {
        0
    } else {
        a as nat
    }
}

impl Connection {
    /// This side sends a frame on stream `id` (response HEADERS or DATA, or
    /// RST_STREAM): the stream moves as the table says, or the send is
    /// refused with the error the table names and nothing changes.
    pub fn on_send(&mut self, id: u32, e: StreamEvent) -> (r: Result<(), ErrorCode>)
        requires
            old(self).wf(),
            e matches StreamEvent::SendHeaders { .. } || e matches StreamEvent::SendData { .. }
                || e == StreamEvent::SendRstStream,
        ensures
            final(self).wf(),
            match transition_spec(state_of(old(self)@, id), e) {
                Transition::Next(st) => r is Ok && final(self)@ == (match find_stream(old(self)@.streams, id) {
                    Some(k) => ConnView {
                        streams: old(self)@.streams.update(k, StreamRecord { state: st, ..old(self)@.streams[k] }),
                        ..old(self)@
                    },
                    None => old(self)@,
                }),
                Transition::StreamError(c) => r == Err::<(), ErrorCode>(c) && final(self)@ == old(self)@,
                Transition::ConnectionError(c) => r == Err::<(), ErrorCode>(c) && final(self)@ == old(self)@,
            },
    {
        match self.state_of(id).transition(e) {
            Transition::Next(st) => {
                if let Some(k) = self.find(id) {
                    proof {
                        lemma_find_stream(self@.streams, id);
                    }
                    let rec = self.streams[k];
                    assert(self@.streams[k as int].fits(self@.peer, self@.local));
                    self.streams.set(k, StreamRecord { state: st, ..rec });
                    proof {
                        assert forall|j: int| 0 <= j < self@.streams.len() implies #[trigger] self@.streams[j].fits(self@.peer, self@.local) by {
                            if j != k {
                                assert(self@.streams[j] == old(self)@.streams[j]);
                            }
                        }
                    }
                }
                Ok(())
            },
            Transition::StreamError(c) => Err(c),
            Transition::ConnectionError(c) => Err(c),
        }
    }

    /// Takes send credit for up to `wanted` body bytes on stream `id` from
    /// both windows, and returns how much was granted: the most both windows
    /// allow, nothing for a stream that is not kept. Neither window goes
    /// below zero through this.
    pub fn reserve_send(&mut self, id: u32, wanted: u32) -> (r: u32)
        requires
            old(self).wf(),
        ensures
            final(self).wf(),
            match find_stream(old(self)@.streams, id) {
                Some(k) => {
                    let rec = old(self)@.streams[k];
                    &&& r == send_allowance(old(self)@, rec, wanted as nat)
                    &&& final(self)@ == (ConnView {
                        send_window: old(self)@.send_window - r,
                        streams: old(self)@.streams.update(
                            k,
                            StreamRecord { send_window: (rec.send_window - r) as i64, ..rec },
                        ),
                        ..old(self)@
                    })
                },
                None => r == 0 && final(self)@ == old(self)@,
            },
    {
        let k = match self.find(id) {
            Some(k) => k,
            None => {
                return 0;
            },
        };
        proof {
            lemma_find_stream(self@.streams, id);
        }
        let rec = self.streams[k];
        assert(self@.streams[k as int].fits(self@.peer, self@.local));
        let mut a: i64 = wanted as i64;
        if self.send_window < a {
            a = self.send_window;
        }
        if rec.send_window < a {
            a = rec.send_window;
        }
        if a < 0 {
            a = 0;
        }
        self.send_window = self.send_window - a;
        self.streams.set(k, StreamRecord { send_window: rec.send_window - a, ..rec });
        proof {
            assert forall|j: int| 0 <= j < self@.streams.len() implies #[trigger] self@.streams[j].fits(self@.peer, self@.local) by {
                if j != k {
                    assert(self@.streams[j] == old(self)@.streams[j]);
                }
            }
        }
        a as u32
    }

    /// The driver consumed `n` body bytes of stream `id`. The stream's
    /// receive window grows back by `n` at once, with a WINDOW_UPDATE, when
    /// the stream is kept and the peer may still send on it. On the
    /// connection the bytes add up, and one WINDOW_UPDATE announces them
    /// once they pass half the initial window.
    pub fn release_capacity(&mut self, id: u32, n: u32) -> (r: Vec<Action>)
        requires
            old(self).wf(),
            id <= MAX_STREAM_ID,
        ensures
            final(self).wf(),
            (final(self)@, actions_view(r@)) == capacity_released(old(self)@, id, n),
    {
        let mut out: Vec<Action> = Vec::new();
        if n == 0 {
            assert(actions_view(out@) =~= Seq::<ActionView>::empty());
            return out;
        }
        let ghost c0 = self@;
        match self.find(id) {
            Some(k) => {
                proof {
                    lemma_find_stream(self@.streams, id);
                }
                let rec = self.streams[k];
                assert(self@.streams[k as int].fits(self@.peer, self@.local));
                let open = rec.state == StreamState::Open || rec.state == StreamState::HalfClosedLocal;
                if open && rec.recv_window + n as i64 <= MAX_WINDOW as i64 {
                    self.streams.set(k, StreamRecord { recv_window: rec.recv_window + n as i64, ..rec });
                    proof {
                        assert forall|j: int| 0 <= j < self@.streams.len() implies #[trigger] self@.streams[j].fits(self@.peer, self@.local) by {
                            if j != k {
                                assert(self@.streams[j] == old(self)@.streams[j]);
                            }
                        }
                    }
                    out.push(Action::SendWindowUpdate { stream_id: id, increment: n });
                }
            },
            None => {},
        }
        let ghost c1 = self@;
        let ghost a1 = actions_view(out@);
        assert(capacity_released_stream(c0, id, n) == (c1, a1));
        let total = self.consumed + n as i64;
        if total > HALF_WINDOW as i64 && self.recv_window + total <= MAX_WINDOW as i64 {
            self.recv_window = self.recv_window + total;
            self.consumed = 0;
            out.push(Action::SendWindowUpdate { stream_id: 0, increment: total as u32 });
            assert(actions_view(out@) =~= a1.push(ActionView::SendWindowUpdate(0, total as u32)));
        } else if total <= MAX_WINDOW as i64 {
            self.consumed = total;
        }
        out
    }
}

/// Half the initial connection window: consumed bytes are announced once
/// they pass it.
pub const HALF_WINDOW: u32 = 32767;

/// The stream part of releasing `n` bytes of stream `id`.
pub open spec fn capacity_released_stream(c: ConnView, id: u32, n: u32) -> (ConnView, Seq<ActionView>) {
    match find_stream(c.streams, id) {
        Some(k) => if c.streams[k].state.remote_open() && c.streams[k].recv_window + n <= MAX_WINDOW {
            (
                ConnView {
                    streams: c.streams.update(
                        k,
                        StreamRecord { recv_window: (c.streams[k].recv_window + n) as i64, ..c.streams[k] },
                    ),
                    ..c
                },
                seq![ActionView::SendWindowUpdate(id, n)],
            )
        } else {
            (c, Seq::empty())
        },
        None => (c, Seq::empty()),
    }
}

/// What releasing `n` consumed bytes of stream `id` does.
pub open spec fn capacity_released(c: ConnView, id: u32, n: u32) -> (ConnView, Seq<ActionView>) {
    if n == 0 {
        (c, Seq::empty())
    } else {
        let (c1, a1) = capacity_released_stream(c, id, n);
        let total = c1.consumed + n;
        if total > HALF_WINDOW && c1.recv_window + total <= MAX_WINDOW {
            (
                ConnView { recv_window: c1.recv_window + total, consumed: 0, ..c1 },
                a1.push(ActionView::SendWindowUpdate(0, total as u32)),
            )
        } else if total <= MAX_WINDOW {
            (ConnView { consumed: total, ..c1 }, a1)
        } else {
            (c1, a1)
        }
    }
}


/// A running connection that takes frame `h`: past the first SETTINGS, no
/// header block being continued, and `h` within the frame size in force.
pub open spec fn plain_running(c: ConnView, h: FrameHeader) -> bool {
    &&& c.wf()
    &&& c.phase == Phase::Running
    &&& c.continuation is None
    &&& h.valid()
    &&& h.len <= c.local.max_frame_size
}

/// Bytes that do not begin the client preface close the connection with
/// GOAWAY(PROTOCOL_ERROR), and no SETTINGS goes out.
pub proof fn lemma_bad_preface_is_refused(c: ConnView, bytes: Seq<u8>)
    requires
        c.phase == Phase::Preface,
        c.pending.len() == 0,
        exists|i: int| 0 <= i < bytes.len() && i < 24 && bytes[i] != preface()[i],
    ensures
        received(c, bytes).0.phase == Phase::Closed,
        received(c, bytes).1 == seq![ActionView::SendGoAway(0, ErrorCode::ProtocolError), ActionView::Close],
{
    let q = c.pending + bytes;
    assert(q =~= bytes);
    let i = choose|i: int| 0 <= i < bytes.len() && i < 24 && bytes[i] != preface()[i];
    if q.len() >= 24 {
        assert(q.subrange(0, 24)[i] != preface()[i]);
    } else {
        assert(q[i] != preface().subrange(0, q.len() as int)[i]);
    }
}

/// DATA on an idle stream is a connection error PROTOCOL_ERROR.
pub proof fn lemma_data_on_idle_stream(c: ConnView, h: FrameHeader, p: Seq<u8>)
    requires
        plain_running(c, h),
        h.frame_type == 0,
        h.stream_id != 0,
        payload_body_spec(h.flags, p, false) is Ok,
        state_of(c, h.stream_id) == StreamState::Idle,
    ensures
        frame_verdict(c, h, p) == Verdict::ConnectionError(ErrorCode::ProtocolError),
{
}

/// While a header block is being continued, any frame but CONTINUATION on
/// that stream is a connection error PROTOCOL_ERROR; and a CONTINUATION
/// that follows no header block, on an open stream, is one too.
pub proof fn lemma_header_block_is_contiguous(c: ConnView, h: FrameHeader, p: Seq<u8>)
    requires
        c.wf(),
        c.phase == Phase::Running,
        h.valid(),
        h.len <= c.local.max_frame_size,
        c.continuation matches Some((s, _)) ==> !(h.frame_type == 9 && h.stream_id == s),
        c.continuation is None ==> h.frame_type == 9 && state_of(c, h.stream_id) == StreamState::Open,
    ensures
        frame_verdict(c, h, p) == Verdict::ConnectionError(ErrorCode::ProtocolError),
{
}

/// Once both sides ended a stream, DATA or HEADERS on it is a connection
/// error STREAM_CLOSED.
pub proof fn lemma_frames_after_end_stream(c: ConnView, h: FrameHeader, p: Seq<u8>)
    requires
        plain_running(c, h),
        h.frame_type == 0 || h.frame_type == 1,
        h.stream_id % 2 == 1,
        payload_body_spec(h.flags, p, h.frame_type == 1) is Ok,
        find_stream(c.streams, h.stream_id) is Some,
        state_of(c, h.stream_id) == StreamState::Closed(CloseReason::EndStream),
    ensures
        frame_verdict(c, h, p) == Verdict::ConnectionError(ErrorCode::StreamClosed),
{
}

/// After RST_STREAM, HEADERS on the same stream is a stream error
/// STREAM_CLOSED: RST_STREAM goes out and the connection keeps running.
pub proof fn lemma_headers_after_reset(c: ConnView, h: FrameHeader, p: Seq<u8>)
    requires
        plain_running(c, h),
        h.frame_type == 1,
        h.stream_id % 2 == 1,
        payload_body_spec(h.flags, p, true) is Ok,
        find_stream(c.streams, h.stream_id) is Some,
        state_of(c, h.stream_id) == StreamState::Closed(CloseReason::Reset),
    ensures
        frame_verdict(c, h, p) == Verdict::StreamError(h.stream_id, ErrorCode::StreamClosed),
        frame_effect(c, h, p).0.phase == Phase::Running,
        frame_effect(c, h, p).1 == seq![ActionView::SendRstStream(h.stream_id, ErrorCode::StreamClosed)],
{
}

/// A frame longer than the frame size in force is a FRAME_SIZE_ERROR: on
/// the connection for HEADERS, SETTINGS, PUSH_PROMISE, CONTINUATION and
/// anything on stream 0, on the stream otherwise.
pub proof fn lemma_oversized_frame(c: ConnView, h: FrameHeader, p: Seq<u8>)
    requires
        c.phase == Phase::Running,
        h.len > c.local.max_frame_size,
    ensures
        frame_verdict(c, h, p) == (if h.frame_type == 1 || h.frame_type == 4 || h.frame_type == 5
            || h.frame_type == 9 || h.stream_id == 0 {
            Verdict::ConnectionError(ErrorCode::FrameSizeError)
        } else {
            Verdict::StreamError(h.stream_id, ErrorCode::FrameSizeError)
        }),
{
}

/// The header block `01 40` (a literal with incremental indexing whose
/// name string is missing) is a connection error COMPRESSION_ERROR.
pub proof fn lemma_truncated_header_block(c: ConnView, h: FrameHeader, p: Seq<u8>)
    requires
        plain_running(c, h),
        h.frame_type == 1,
        h.flags == 5,
        h.stream_id == 1,
        p == seq![0x40u8],
        state_of(c, 1) == StreamState::Idle,
        find_stream(c.streams, 1) is None,
        c.last_stream_id < 1,
    ensures
        frame_verdict(c, h, p) == Verdict::ConnectionError(ErrorCode::CompressionError),
{
    assert(payload_body_spec(h.flags, p, true) == Ok::<(int, int), ErrorCode>((0, 1))) by {
        assert(5u8 & FLAG_PADDED == 0) by (bit_vector);
        assert(5u8 & FLAG_PRIORITY == 0) by (bit_vector);
    }
    assert(is_flagged(h, FLAG_END_HEADERS)) by {
        assert(5u8 & FLAG_END_HEADERS != 0) by (bit_vector);
    }
    assert(p.subrange(0, 1) =~= p);
    assert(block_of(c, h, p) == p);
    let pm: nat = 63;
    assert((0x40u8 as nat) % (pm + 1) == 0);
    assert(hpack_int(p, 0, 63) == Some((0nat, 1int)));
    assert(hpack_int(p, 1, 127) is None);
    assert(parse_rep(c.table, p, 0) is None);
}

/// DATA beyond the connection's receive window is a connection error
/// FLOW_CONTROL_ERROR; within it but beyond the stream's window, a stream
/// error FLOW_CONTROL_ERROR.
pub proof fn lemma_data_beyond_window(c: ConnView, h: FrameHeader, p: Seq<u8>)
    requires
        plain_running(c, h),
        h.frame_type == 0,
        h.stream_id != 0,
        payload_body_spec(h.flags, p, false) is Ok,
        find_stream(c.streams, h.stream_id) is Some,
        state_of(c, h.stream_id).remote_open(),
        h.len > c.recv_window || h.len > c.streams[find_stream(c.streams, h.stream_id)->0].recv_window,
    ensures
        frame_verdict(c, h, p) == (if h.len > c.recv_window {
            Verdict::ConnectionError(ErrorCode::FlowControlError)
        } else {
            Verdict::StreamError(h.stream_id, ErrorCode::FlowControlError)
        }),
{
}

/// WINDOW_UPDATE frames on the connection add up: taking increments `a`
/// then `b` leaves the same send window as taking `a + b` at once.
pub proof fn lemma_window_updates_add(c: ConnView, a: u32, b: u32)
    requires
        c.wf(),
        c.phase == Phase::Running,
        c.continuation is None,
        0 < a <= MAX_WINDOW,
        0 < b <= MAX_WINDOW,
        c.send_window + a + b <= MAX_WINDOW,
    ensures
        ({
            let h = FrameHeader { len: 4, frame_type: 8, flags: 0, stream_id: 0 };
            let pa = crate::frame::u32_bytes(a);
            let pb = crate::frame::u32_bytes(b);
            let c1 = accepted_effect(c, h, pa).0;
            &&& frame_verdict(c, h, pa) == Verdict::Accept
            &&& frame_verdict(c1, h, pb) == Verdict::Accept
            &&& accepted_effect(c1, h, pb).0.send_window == c.send_window + a + b
            &&& accepted_effect(c1, h, pb).1.len() == 0
        }),
{
    crate::frame::lemma_u32_bytes(a);
    crate::frame::lemma_u32_bytes(b);
    let h = FrameHeader { len: 4, frame_type: 8, flags: 0, stream_id: 0 };
    let pa = crate::frame::u32_bytes(a);
    let pb = crate::frame::u32_bytes(b);
    assert(window_increment_spec(pa) == Ok::<u32, ErrorCode>(a));
    assert(window_increment_spec(pb) == Ok::<u32, ErrorCode>(b));
    assert(frame_verdict(c, h, pa) == Verdict::Accept);
    let c1 = accepted_effect(c, h, pa).0;
    assert(c1 == ConnView { send_window: c.send_window + a, ..c });
    assert(frame_verdict(c1, h, pb) == Verdict::Accept);
}

/// A frame of a type this side does not know changes nothing and asks for
/// nothing (beyond leaving the first-SETTINGS phase, where it is refused).
pub proof fn lemma_unknown_frame_is_ignored(c: ConnView, h: FrameHeader, p: Seq<u8>)
    requires
        c.phase == Phase::Running,
        h.frame_type > 9,
        h.len <= c.local.max_frame_size,
        c.continuation is None,
    ensures
        frame_verdict(c, h, p) == Verdict::Accept,
        accepted_effect(c, h, p) == (c, Seq::<ActionView>::empty()),
{
}

} // verus!
