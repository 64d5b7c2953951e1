//! The lifecycle of one HTTP/2 stream, as seen by a server: a table from
//! (state, event) to the next state or to the error the event is.
use crate::frame::ErrorCode;
use vstd::prelude::*;

verus! {

/// How a stream came to be closed.
#[derive(Debug, PartialEq, Eq, Structural, Clone, Copy)]
pub enum CloseReason {
    /// An RST_STREAM was sent or received.
    Reset,
    /// Both sides sent END_STREAM.
    EndStream,
}

#[derive(Debug, PartialEq, Eq, Structural, Clone, Copy)]
pub enum StreamState {
    Idle,
    ReservedLocal,
    ReservedRemote,
    Open,
    HalfClosedLocal,
    HalfClosedRemote,
    Closed(CloseReason),
}

/// Something that happens to a stream: a frame received from the peer, or
/// one this side sends.
#[derive(Debug, PartialEq, Eq, Structural, Clone, Copy)]
pub enum StreamEvent {
    RecvHeaders { end_stream: bool },
    RecvData { end_stream: bool },
    RecvContinuation,
    RecvPriority,
    RecvRstStream,
    RecvWindowUpdate,
    SendHeaders { end_stream: bool },
    SendData { end_stream: bool },
    SendRstStream,
}

/// What an event leads to.
#[derive(Debug, PartialEq, Eq, Structural, Clone, Copy)]
pub enum Transition {
    /// The stream moves to this state.
    Next(StreamState),
    /// The event is a stream error: RST_STREAM with this code.
    StreamError(ErrorCode),
    /// The event is a connection error: GOAWAY with this code.
    ConnectionError(ErrorCode),
}

/// Where a stream whose receiving side is open goes once the peer ends it.
pub open spec fn after_remote_end(end_stream: bool, open: StreamState, ended: StreamState) -> Transition {
    if end_stream {
        Transition::Next(ended)
    } else {
        Transition::Next(open)
    }
}

/// The transition table of a server-side stream. Events this side must not
/// cause (sending on a stream it may not send on) are internal errors.
pub open spec fn transition_spec(s: StreamState, e: StreamEvent) -> Transition {
    match (s, e) {
        (_, StreamEvent::RecvPriority) => Transition::Next(s),
        (StreamState::Idle, StreamEvent::RecvHeaders { end_stream }) => after_remote_end(
            end_stream,
            StreamState::Open,
            StreamState::HalfClosedRemote,
        ),
        (StreamState::Idle, StreamEvent::RecvData { .. }) => Transition::ConnectionError(
            ErrorCode::ProtocolError,
        ),
        (StreamState::Idle, StreamEvent::RecvContinuation) => Transition::ConnectionError(
            ErrorCode::ProtocolError,
        ),
        (StreamState::Idle, StreamEvent::RecvRstStream) => Transition::ConnectionError(
            ErrorCode::ProtocolError,
        ),
        (StreamState::Idle, StreamEvent::RecvWindowUpdate) => Transition::ConnectionError(
            ErrorCode::ProtocolError,
        ),
        (StreamState::Open, StreamEvent::RecvHeaders { end_stream }) => if end_stream {
            Transition::Next(StreamState::HalfClosedRemote)
        } else {
            Transition::StreamError(ErrorCode::ProtocolError)
        },
        (StreamState::Open, StreamEvent::RecvData { end_stream }) => after_remote_end(
            end_stream,
            StreamState::Open,
            StreamState::HalfClosedRemote,
        ),
        (StreamState::Open, StreamEvent::SendHeaders { end_stream }) => if end_stream {
            Transition::Next(StreamState::HalfClosedLocal)
        } else {
            Transition::Next(StreamState::Open)
        },
        (StreamState::Open, StreamEvent::SendData { end_stream }) => if end_stream {
            Transition::Next(StreamState::HalfClosedLocal)
        } else {
            Transition::Next(StreamState::Open)
        },
        (StreamState::HalfClosedRemote, StreamEvent::RecvHeaders { .. }) => Transition::StreamError(
            ErrorCode::StreamClosed,
        ),
        (StreamState::HalfClosedRemote, StreamEvent::RecvData { .. }) => Transition::StreamError(
            ErrorCode::StreamClosed,
        ),
        (StreamState::HalfClosedRemote, StreamEvent::RecvContinuation) => Transition::StreamError(
            ErrorCode::StreamClosed,
        ),
        (StreamState::HalfClosedRemote, StreamEvent::SendHeaders { end_stream }) => if end_stream {
            Transition::Next(StreamState::Closed(CloseReason::EndStream))
        } else {
            Transition::Next(StreamState::HalfClosedRemote)
        },
        (StreamState::HalfClosedRemote, StreamEvent::SendData { end_stream }) => if end_stream {
            Transition::Next(StreamState::Closed(CloseReason::EndStream))
        } else {
            Transition::Next(StreamState::HalfClosedRemote)
        },
        (StreamState::HalfClosedLocal, StreamEvent::RecvHeaders { end_stream }) => after_remote_end(
            end_stream,
            StreamState::HalfClosedLocal,
            StreamState::Closed(CloseReason::EndStream),
        ),
        (StreamState::HalfClosedLocal, StreamEvent::RecvData { end_stream }) => after_remote_end(
            end_stream,
            StreamState::HalfClosedLocal,
            StreamState::Closed(CloseReason::EndStream),
        ),
        (StreamState::Closed(CloseReason::Reset), StreamEvent::SendRstStream) => Transition::Next(s),
        (StreamState::Closed(CloseReason::Reset), StreamEvent::SendHeaders { .. }) => Transition::Next(s),
        (StreamState::Closed(CloseReason::Reset), StreamEvent::SendData { .. }) => Transition::Next(s),
        (StreamState::Closed(CloseReason::Reset), _) => Transition::StreamError(
            ErrorCode::StreamClosed,
        ),
        (StreamState::Closed(CloseReason::EndStream), StreamEvent::SendRstStream) => Transition::Next(s),
        (StreamState::Closed(CloseReason::EndStream), StreamEvent::RecvHeaders { .. }) => Transition::ConnectionError(
            ErrorCode::StreamClosed,
        ),
        (StreamState::Closed(CloseReason::EndStream), StreamEvent::RecvData { .. }) => Transition::ConnectionError(
            ErrorCode::StreamClosed,
        ),
        (StreamState::Closed(CloseReason::EndStream), StreamEvent::RecvContinuation) => Transition::ConnectionError(
            ErrorCode::StreamClosed,
        ),
        (StreamState::Closed(CloseReason::EndStream), StreamEvent::RecvRstStream) => Transition::ConnectionError(
            ErrorCode::StreamClosed,
        ),
        (StreamState::Closed(CloseReason::EndStream), StreamEvent::RecvWindowUpdate) => Transition::ConnectionError(
            ErrorCode::StreamClosed,
        ),
        (StreamState::Idle, _) => Transition::ConnectionError(ErrorCode::InternalError),
        (_, StreamEvent::RecvRstStream) => Transition::Next(StreamState::Closed(CloseReason::Reset)),
        (_, StreamEvent::SendRstStream) => Transition::Next(StreamState::Closed(CloseReason::Reset)),
        (_, StreamEvent::RecvWindowUpdate) => Transition::Next(s),
        (_, StreamEvent::RecvContinuation) => Transition::ConnectionError(ErrorCode::ProtocolError),
        (StreamState::ReservedRemote, StreamEvent::RecvHeaders { end_stream }) => after_remote_end(
            end_stream,
            StreamState::HalfClosedLocal,
            StreamState::Closed(CloseReason::EndStream),
        ),
        (StreamState::ReservedLocal, StreamEvent::SendHeaders { end_stream }) => if end_stream {
            Transition::Next(StreamState::Closed(CloseReason::EndStream))
        } else {
            Transition::Next(StreamState::HalfClosedRemote)
        },
        (_, StreamEvent::RecvHeaders { .. }) => Transition::ConnectionError(ErrorCode::ProtocolError),
        (_, StreamEvent::RecvData { .. }) => Transition::StreamError(ErrorCode::StreamClosed),
        (_, _) => Transition::ConnectionError(ErrorCode::InternalError),
    }
}

impl StreamState {
    /// Applies one event to a stream in this state.
    pub fn transition(self, e: StreamEvent) -> (r: Transition)
        ensures
            r == transition_spec(self, e),
    {
        match (self, e) {
            (_, StreamEvent::RecvPriority) => Transition::Next(self),
            (StreamState::Idle, StreamEvent::RecvHeaders { end_stream }) => if end_stream {
                Transition::Next(StreamState::HalfClosedRemote)
            } else {
                Transition::Next(StreamState::Open)
            },
            (StreamState::Idle, StreamEvent::RecvData { .. }) => Transition::ConnectionError(
                ErrorCode::ProtocolError,
            ),
            (StreamState::Idle, StreamEvent::RecvContinuation) => Transition::ConnectionError(
                ErrorCode::ProtocolError,
            ),
            (StreamState::Idle, StreamEvent::RecvRstStream) => Transition::ConnectionError(
                ErrorCode::ProtocolError,
            ),
            (StreamState::Idle, StreamEvent::RecvWindowUpdate) => Transition::ConnectionError(
                ErrorCode::ProtocolError,
            ),
            (StreamState::Open, StreamEvent::RecvHeaders { end_stream }) => if end_stream {
                Transition::Next(StreamState::HalfClosedRemote)
            } else {
                Transition::StreamError(ErrorCode::ProtocolError)
            },
            (StreamState::Open, StreamEvent::RecvData { end_stream }) => if end_stream {
                Transition::Next(StreamState::HalfClosedRemote)
            } else {
                Transition::Next(StreamState::Open)
            },
            (StreamState::Open, StreamEvent::SendHeaders { end_stream }) => if end_stream {
                Transition::Next(StreamState::HalfClosedLocal)
            } else {
                Transition::Next(StreamState::Open)
            },
            (StreamState::Open, StreamEvent::SendData { end_stream }) => if end_stream {
                Transition::Next(StreamState::HalfClosedLocal)
            } else {
                Transition::Next(StreamState::Open)
            },
            (StreamState::HalfClosedRemote, StreamEvent::RecvHeaders { .. }) => Transition::StreamError(
                ErrorCode::StreamClosed,
            ),
            (StreamState::HalfClosedRemote, StreamEvent::RecvData { .. }) => Transition::StreamError(
                ErrorCode::StreamClosed,
            ),
            (StreamState::HalfClosedRemote, StreamEvent::RecvContinuation) => Transition::StreamError(
                ErrorCode::StreamClosed,
            ),
            (StreamState::HalfClosedRemote, StreamEvent::SendHeaders { end_stream }) => if end_stream {
                Transition::Next(StreamState::Closed(CloseReason::EndStream))
            } else {
                Transition::Next(StreamState::HalfClosedRemote)
            },
            (StreamState::HalfClosedRemote, StreamEvent::SendData { end_stream }) => if end_stream {
                Transition::Next(StreamState::Closed(CloseReason::EndStream))
            } else {
                Transition::Next(StreamState::HalfClosedRemote)
            },
            (StreamState::HalfClosedLocal, StreamEvent::RecvHeaders { end_stream }) => if end_stream {
                Transition::Next(StreamState::Closed(CloseReason::EndStream))
            } else {
                Transition::Next(StreamState::HalfClosedLocal)
            },
            (StreamState::HalfClosedLocal, StreamEvent::RecvData { end_stream }) => if end_stream {
                Transition::Next(StreamState::Closed(CloseReason::EndStream))
            } else {
                Transition::Next(StreamState::HalfClosedLocal)
            },
            (StreamState::Closed(CloseReason::Reset), StreamEvent::SendRstStream) => Transition::Next(self),
            (StreamState::Closed(CloseReason::Reset), StreamEvent::SendHeaders { .. }) => Transition::Next(self),
            (StreamState::Closed(CloseReason::Reset), StreamEvent::SendData { .. }) => Transition::Next(self),
            (StreamState::Closed(CloseReason::Reset), _) => Transition::StreamError(
                ErrorCode::StreamClosed,
            ),
            (StreamState::Closed(CloseReason::EndStream), StreamEvent::SendRstStream) => Transition::Next(self),
            (StreamState::Closed(CloseReason::EndStream), StreamEvent::RecvHeaders { .. }) => Transition::ConnectionError(
                ErrorCode::StreamClosed,
            ),
            (StreamState::Closed(CloseReason::EndStream), StreamEvent::RecvData { .. }) => Transition::ConnectionError(
                ErrorCode::StreamClosed,
            ),
            (StreamState::Closed(CloseReason::EndStream), StreamEvent::RecvContinuation) => Transition::ConnectionError(
                ErrorCode::StreamClosed,
            ),
            (StreamState::Closed(CloseReason::EndStream), StreamEvent::RecvRstStream) => Transition::ConnectionError(
                ErrorCode::StreamClosed,
            ),
            (StreamState::Closed(CloseReason::EndStream), StreamEvent::RecvWindowUpdate) => Transition::ConnectionError(
                ErrorCode::StreamClosed,
            ),
            (StreamState::Idle, _) => Transition::ConnectionError(ErrorCode::InternalError),
            (_, StreamEvent::RecvRstStream) => Transition::Next(StreamState::Closed(CloseReason::Reset)),
            (_, StreamEvent::SendRstStream) => Transition::Next(StreamState::Closed(CloseReason::Reset)),
            (_, StreamEvent::RecvWindowUpdate) => Transition::Next(self),
            (_, StreamEvent::RecvContinuation) => Transition::ConnectionError(ErrorCode::ProtocolError),
            (StreamState::ReservedRemote, StreamEvent::RecvHeaders { end_stream }) => if end_stream {
                Transition::Next(StreamState::Closed(CloseReason::EndStream))
            } else {
                Transition::Next(StreamState::HalfClosedLocal)
            },
            (StreamState::ReservedLocal, StreamEvent::SendHeaders { end_stream }) => if end_stream {
                Transition::Next(StreamState::Closed(CloseReason::EndStream))
            } else {
                Transition::Next(StreamState::HalfClosedRemote)
            },
            (_, StreamEvent::RecvHeaders { .. }) => Transition::ConnectionError(ErrorCode::ProtocolError),
            (_, StreamEvent::RecvData { .. }) => Transition::StreamError(ErrorCode::StreamClosed),
            (_, _) => Transition::ConnectionError(ErrorCode::InternalError),
        }
    }

    /// Whether the peer may still send on a stream in this state.
    pub open spec fn remote_open(self) -> bool {
        self == StreamState::Open || self == StreamState::HalfClosedLocal
    }
}

/// A stream closed by RST_STREAM answers every frame but PRIORITY with a
/// stream error STREAM_CLOSED.
pub proof fn lemma_reset_stream_refuses(e: StreamEvent)
    requires
        e != StreamEvent::RecvPriority,
        e matches StreamEvent::RecvHeaders { .. } || e matches StreamEvent::RecvData { .. } || e
            == StreamEvent::RecvContinuation || e == StreamEvent::RecvRstStream || e
            == StreamEvent::RecvWindowUpdate,
    ensures
        transition_spec(StreamState::Closed(CloseReason::Reset), e) == Transition::StreamError(
            ErrorCode::StreamClosed,
        ),
{
}

/// RST_STREAM, from either side, closes every stream that is not idle.
pub proof fn lemma_reset_closes(s: StreamState)
    requires
        s != StreamState::Idle,
        !(s matches StreamState::Closed(_)),
    ensures
        transition_spec(s, StreamEvent::RecvRstStream) == Transition::Next(
            StreamState::Closed(CloseReason::Reset),
        ),
        transition_spec(s, StreamEvent::SendRstStream) == Transition::Next(
            StreamState::Closed(CloseReason::Reset),
        ),
{
}

/// PRIORITY never changes a stream's state.
pub proof fn lemma_priority_is_ignored(s: StreamState)
    ensures
        transition_spec(s, StreamEvent::RecvPriority) == Transition::Next(s),
{
}

} // verus!
