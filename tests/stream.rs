use fluke::frame::ErrorCode;
use fluke::stream::CloseReason;
use fluke::stream::StreamEvent::{RecvData, RecvHeaders, RecvPriority, RecvRstStream, RecvWindowUpdate, SendData, SendHeaders};
use fluke::stream::StreamState::{Closed, HalfClosedLocal, HalfClosedRemote, Idle, Open};
use fluke::stream::Transition;
use fluke::testbed::{big_body, Proto, Ready};

#[test]
fn stream_table() {
    assert_eq!(Idle.transition(RecvHeaders { end_stream: false }), Transition::Next(Open));
    assert_eq!(Idle.transition(RecvHeaders { end_stream: true }), Transition::Next(HalfClosedRemote));
    assert_eq!(Idle.transition(RecvData { end_stream: false }), Transition::ConnectionError(ErrorCode::ProtocolError));
    assert_eq!(Idle.transition(RecvPriority), Transition::Next(Idle));
    assert_eq!(Open.transition(RecvData { end_stream: true }), Transition::Next(HalfClosedRemote));
    assert_eq!(Open.transition(SendData { end_stream: true }), Transition::Next(HalfClosedLocal));
    assert_eq!(HalfClosedRemote.transition(RecvData { end_stream: false }), Transition::StreamError(ErrorCode::StreamClosed));
    assert_eq!(HalfClosedRemote.transition(RecvWindowUpdate), Transition::Next(HalfClosedRemote));
    assert_eq!(HalfClosedRemote.transition(SendHeaders { end_stream: true }), Transition::Next(Closed(CloseReason::EndStream)));
    assert_eq!(HalfClosedLocal.transition(RecvData { end_stream: true }), Transition::Next(Closed(CloseReason::EndStream)));
    assert_eq!(Open.transition(RecvRstStream), Transition::Next(Closed(CloseReason::Reset)));
    assert_eq!(Closed(CloseReason::Reset).transition(RecvHeaders { end_stream: false }), Transition::StreamError(ErrorCode::StreamClosed));
    assert_eq!(Closed(CloseReason::Reset).transition(RecvPriority), Transition::Next(Closed(CloseReason::Reset)));
    assert_eq!(Closed(CloseReason::EndStream).transition(RecvData { end_stream: false }), Transition::ConnectionError(ErrorCode::StreamClosed));
}

#[test]
fn testbed_items() {
    let b = big_body();
    assert_eq!(b.len(), 19 * 256 * 128);
    assert!(b.starts_with("this is a big chunkthis is"));
    assert_eq!(b, "this is a big chunk".repeat(256).repeat(128));
    let r = Ready { port: 8080 };
    assert_eq!(r.port, 8080);
    assert_ne!(Proto::H1, Proto::H2);
}
