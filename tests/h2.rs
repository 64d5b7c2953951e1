use fluke::connection::{Action, Connection, Phase};
use fluke::frame::{encode_frame, preface_bytes, ErrorCode, Settings};
use fluke::hpack::HeaderField;
use fluke::stream::StreamEvent;

const DATA: u8 = 0;
const HEADERS: u8 = 1;
const PRIORITY: u8 = 2;
const RST_STREAM: u8 = 3;
const SETTINGS: u8 = 4;
const PING: u8 = 6;
const WINDOW_UPDATE: u8 = 8;
const CONTINUATION: u8 = 9;

const END_STREAM: u8 = 1;
const END_HEADERS: u8 = 4;

/// `:method GET`, `:path /`, `:scheme http`, `:authority localhost`.
const REQUEST_BLOCK: &[u8] = &[
    0x82, 0x84, 0x86, 0x41, 0x09, b'l', b'o', b'c', b'a', b'l', b'h', b'o', b's', b't',
];

fn frame(t: u8, flags: u8, id: u32, payload: &[u8]) -> Vec<u8> {
    encode_frame(t, flags, id, payload)
}

fn server() -> Connection {
    Connection::new(Settings::server(100, 65536), 200)
}

fn handshake(c: &mut Connection) {
    let mut b = preface_bytes();
    b.extend(frame(SETTINGS, 0, 0, &[]));
    let acts = c.receive(&b);
    assert_eq!(acts.len(), 2);
    assert!(matches!(acts[0], Action::SendSettings(_)));
    assert!(matches!(acts[1], Action::SendSettingsAck));
    assert_eq!(c.phase(), Phase::Running);
}

fn goaway(acts: &[Action]) -> Option<ErrorCode> {
    acts.iter().find_map(|a| match a {
        Action::SendGoAway { code, .. } => Some(*code),
        _ => None,
    })
}

fn rst(acts: &[Action]) -> Option<(u32, ErrorCode)> {
    acts.iter().find_map(|a| match a {
        Action::SendRstStream { stream_id, code } => Some((*stream_id, *code)),
        _ => None,
    })
}

fn open_stream(c: &mut Connection, id: u32, flags: u8) -> Vec<Action> {
    c.receive(&frame(HEADERS, flags, id, REQUEST_BLOCK))
}

#[test]
fn wrong_preface_is_a_protocol_error_without_settings() {
    let mut c = server();
    let acts = c.receive(b"GET / HTTP/1.1\r\nHost: x\r\n\r\n");
    assert_eq!(goaway(&acts), Some(ErrorCode::ProtocolError));
    assert!(!acts.iter().any(|a| matches!(a, Action::SendSettings(_))));
    assert!(matches!(acts.last(), Some(Action::Close)));
    assert_eq!(c.phase(), Phase::Closed);
    assert!(c.receive(&preface_bytes()).is_empty());
}

#[test]
fn missing_preface_is_a_protocol_error() {
    let mut c = server();
    let acts = c.receive(&frame(SETTINGS, 0, 0, &[]));
    assert_eq!(goaway(&acts), Some(ErrorCode::ProtocolError));
    assert!(!acts.iter().any(|a| matches!(a, Action::SendSettings(_))));
}

#[test]
fn preface_may_arrive_in_pieces() {
    let mut c = server();
    let p = preface_bytes();
    assert!(c.receive(&p[..10]).is_empty());
    assert_eq!(c.phase(), Phase::Preface);
    let acts = c.receive(&p[10..]);
    assert!(matches!(acts[..], [Action::SendSettings(_)]));
    assert_eq!(c.phase(), Phase::FirstSettings);
}

#[test]
fn first_frame_must_be_settings() {
    let mut c = server();
    let mut b = preface_bytes();
    b.extend(frame(PING, 0, 0, &[0; 8]));
    let acts = c.receive(&b);
    assert_eq!(goaway(&acts), Some(ErrorCode::ProtocolError));
}

#[test]
fn data_on_idle_stream_is_a_connection_error() {
    let mut c = server();
    handshake(&mut c);
    let acts = c.receive(&frame(DATA, END_STREAM, 1, b"test"));
    assert_eq!(goaway(&acts), Some(ErrorCode::ProtocolError));
}

#[test]
fn other_frames_on_idle_streams_are_connection_errors() {
    for f in [
        frame(RST_STREAM, 0, 1, &[0, 0, 0, 8]),
        frame(WINDOW_UPDATE, 0, 1, &[0, 0, 0, 100]),
        frame(CONTINUATION, END_HEADERS, 1, REQUEST_BLOCK),
    ] {
        let mut c = server();
        handshake(&mut c);
        assert_eq!(goaway(&c.receive(&f)), Some(ErrorCode::ProtocolError));
    }
}

#[test]
fn priority_inside_a_header_block_is_a_protocol_error() {
    let mut c = server();
    handshake(&mut c);
    assert!(open_stream(&mut c, 1, 0).is_empty());
    let acts = c.receive(&frame(PRIORITY, 0, 1, &[0, 0, 0, 0, 255]));
    assert_eq!(goaway(&acts), Some(ErrorCode::ProtocolError));
}

#[test]
fn priority_then_continuation_after_a_complete_block() {
    let mut c = server();
    handshake(&mut c);
    let acts = open_stream(&mut c, 1, END_HEADERS);
    assert!(matches!(acts[..], [Action::Request { stream_id: 1, end_stream: false, .. }]));
    assert!(c.receive(&frame(PRIORITY, 0, 1, &[0, 0, 0, 0, 255])).is_empty());
    let acts = c.receive(&frame(CONTINUATION, END_HEADERS, 1, &[0x82]));
    assert_eq!(goaway(&acts), Some(ErrorCode::ProtocolError));
}

#[test]
fn headers_to_another_stream_inside_a_block() {
    let mut c = server();
    handshake(&mut c);
    assert!(open_stream(&mut c, 1, 0).is_empty());
    let acts = open_stream(&mut c, 3, END_HEADERS);
    assert_eq!(goaway(&acts), Some(ErrorCode::ProtocolError));
}

#[test]
fn data_after_both_sides_ended_is_stream_closed_connection_error() {
    let mut c = server();
    handshake(&mut c);
    let acts = open_stream(&mut c, 1, END_HEADERS | END_STREAM);
    assert!(matches!(acts[..], [Action::Request { stream_id: 1, end_stream: true, .. }]));
    assert_eq!(c.on_send(1, StreamEvent::SendHeaders { end_stream: true }), Ok(()));
    let acts = c.receive(&frame(DATA, END_STREAM, 1, b"test"));
    assert_eq!(goaway(&acts), Some(ErrorCode::StreamClosed));
}

#[test]
fn headers_after_both_sides_ended_is_stream_closed_connection_error() {
    let mut c = server();
    handshake(&mut c);
    open_stream(&mut c, 1, END_HEADERS | END_STREAM);
    assert_eq!(c.on_send(1, StreamEvent::SendData { end_stream: true }), Ok(()));
    let acts = open_stream(&mut c, 1, END_HEADERS | END_STREAM);
    assert_eq!(goaway(&acts), Some(ErrorCode::StreamClosed));
}

#[test]
fn headers_after_rst_stream_is_a_stream_error() {
    let mut c = server();
    handshake(&mut c);
    open_stream(&mut c, 1, END_HEADERS);
    let acts = c.receive(&frame(RST_STREAM, 0, 1, &[0, 0, 0, 8]));
    assert!(matches!(acts[..], [Action::Cancel { stream_id: 1 }]));
    let acts = open_stream(&mut c, 1, END_HEADERS);
    assert_eq!(rst(&acts), Some((1, ErrorCode::StreamClosed)));
    assert_eq!(goaway(&acts), None);
    assert_eq!(c.phase(), Phase::Running);
}

#[test]
fn data_and_continuation_after_rst_stream_are_stream_errors() {
    let mut c = server();
    handshake(&mut c);
    open_stream(&mut c, 1, END_HEADERS);
    c.receive(&frame(RST_STREAM, 0, 1, &[0, 0, 0, 8]));
    let acts = c.receive(&frame(DATA, END_STREAM, 1, b"test"));
    assert_eq!(rst(&acts), Some((1, ErrorCode::StreamClosed)));
    let acts = c.receive(&frame(CONTINUATION, END_HEADERS, 1, &[0x82]));
    assert_eq!(rst(&acts), Some((1, ErrorCode::StreamClosed)));
    assert!(c.receive(&frame(PRIORITY, 0, 1, &[0, 0, 0, 0, 1])).is_empty());
}

#[test]
fn frames_on_half_closed_remote_streams_are_stream_errors() {
    let mut c = server();
    handshake(&mut c);
    open_stream(&mut c, 1, END_HEADERS | END_STREAM);
    let acts = c.receive(&frame(DATA, END_STREAM, 1, b"test"));
    assert_eq!(rst(&acts), Some((1, ErrorCode::StreamClosed)));

    let mut c = server();
    handshake(&mut c);
    open_stream(&mut c, 1, END_HEADERS | END_STREAM);
    let acts = open_stream(&mut c, 1, END_HEADERS);
    assert_eq!(rst(&acts), Some((1, ErrorCode::StreamClosed)));
}

#[test]
fn oversized_frames() {
    let big = vec![0u8; 16385];

    let mut c = server();
    handshake(&mut c);
    open_stream(&mut c, 1, END_HEADERS);
    let acts = c.receive(&frame(DATA, 0, 1, &big));
    assert_eq!(rst(&acts), Some((1, ErrorCode::FrameSizeError)));
    assert_eq!(goaway(&acts), None);

    let mut c = server();
    handshake(&mut c);
    let acts = c.receive(&frame(HEADERS, END_HEADERS, 1, &big));
    assert_eq!(goaway(&acts), Some(ErrorCode::FrameSizeError));

    let mut c = server();
    handshake(&mut c);
    let acts = c.receive(&frame(PING, 0, 0, &big));
    assert_eq!(goaway(&acts), Some(ErrorCode::FrameSizeError));

    let mut c = server();
    handshake(&mut c);
    let acts = c.receive(&frame(SETTINGS, 0, 0, &big[..16386 - 2]));
    assert_eq!(goaway(&acts), Some(ErrorCode::FrameSizeError));
}

#[test]
fn invalid_header_block_fragment() {
    let mut c = server();
    handshake(&mut c);
    let acts = c.receive(b"\x00\x00\x01\x01\x05\x00\x00\x00\x01\x40");
    assert_eq!(goaway(&acts), Some(ErrorCode::CompressionError));
}

#[test]
fn data_beyond_the_window_is_a_flow_control_error() {
    let mut c = server();
    handshake(&mut c);
    open_stream(&mut c, 1, END_HEADERS);
    let chunk = vec![7u8; 16384];
    for _ in 0..3 {
        let acts = c.receive(&frame(DATA, 0, 1, &chunk));
        assert!(matches!(acts[..], [Action::Body { stream_id: 1, .. }]));
    }
    let acts = c.receive(&frame(DATA, 0, 1, &chunk));
    assert_eq!(goaway(&acts), Some(ErrorCode::FlowControlError));
}

#[test]
fn released_capacity_is_announced() {
    let mut c = server();
    handshake(&mut c);
    open_stream(&mut c, 1, END_HEADERS);
    c.receive(&frame(DATA, 0, 1, &[1, 2, 3, 4, 5]));
    // The stream is updated at once; the connection waits for more.
    let acts = c.release_capacity(1, 5);
    assert!(matches!(acts[..], [Action::SendWindowUpdate { stream_id: 1, increment: 5 }]));
    assert!(c.release_capacity(1, 0).is_empty());
    let acts = c.release_capacity(1, 32762);
    assert!(matches!(acts[..], [Action::SendWindowUpdate { stream_id: 1, increment: 32762 }]));
    let acts = c.release_capacity(1, 1);
    assert!(matches!(
        acts[..],
        [
            Action::SendWindowUpdate { stream_id: 1, increment: 1 },
            Action::SendWindowUpdate { stream_id: 0, increment: 32768 }
        ]
    ));
    // Nothing for a stream that is not kept, but the connection still counts.
    assert!(c.release_capacity(9, 100).is_empty());
}

#[test]
fn headers_on_a_lower_unopened_stream_is_a_protocol_error() {
    let mut c = server();
    handshake(&mut c);
    open_stream(&mut c, 5, END_HEADERS);
    let acts = open_stream(&mut c, 3, END_HEADERS);
    assert_eq!(goaway(&acts), Some(ErrorCode::ProtocolError));
}

#[test]
fn frames_after_a_connection_error_are_not_read() {
    let mut c = server();
    let mut b = preface_bytes();
    b.extend(frame(SETTINGS, 0, 0, &[]));
    b.extend(frame(DATA, 0, 1, b"x"));
    b.extend(frame(PING, 0, 0, b"12345678"));
    let acts = c.receive(&b);
    assert_eq!(acts.len(), 4);
    assert_eq!(goaway(&acts), Some(ErrorCode::ProtocolError));
    assert!(matches!(acts[3], Action::Close));
}

#[test]
fn window_updates_add_up() {
    let mut c = server();
    handshake(&mut c);
    open_stream(&mut c, 1, END_HEADERS);
    assert!(c.receive(&frame(WINDOW_UPDATE, 0, 1, &[0, 0, 0, 100])).is_empty());
    assert!(c.receive(&frame(WINDOW_UPDATE, 0, 1, &[0, 0, 1, 0])).is_empty());
    assert!(c.receive(&frame(WINDOW_UPDATE, 0, 0, &[0, 0, 1, 0x2c])).is_empty());
    assert_eq!(c.reserve_send(1, 100000), 65535 + 300);
    assert_eq!(c.reserve_send(1, 10), 0);
}

#[test]
fn zero_window_increments_are_protocol_errors() {
    let mut c = server();
    handshake(&mut c);
    open_stream(&mut c, 1, END_HEADERS);
    let acts = c.receive(&frame(WINDOW_UPDATE, 0, 1, &[0, 0, 0, 0]));
    assert_eq!(rst(&acts), Some((1, ErrorCode::ProtocolError)));
    let acts = c.receive(&frame(WINDOW_UPDATE, 0, 0, &[0, 0, 0, 0]));
    assert_eq!(goaway(&acts), Some(ErrorCode::ProtocolError));
}

#[test]
fn window_overflow_is_a_flow_control_error() {
    let mut c = server();
    handshake(&mut c);
    let acts = c.receive(&frame(WINDOW_UPDATE, 0, 0, &[0x7f, 0xff, 0xff, 0xff]));
    assert_eq!(goaway(&acts), Some(ErrorCode::FlowControlError));
}

#[test]
fn unknown_frame_types_are_ignored() {
    let mut c = server();
    handshake(&mut c);
    assert!(c.receive(&frame(0x20, 0xff, 0, b"whatever")).is_empty());
    assert!(c.receive(&frame(0x20, 0, 5, b"x")).is_empty());
    let acts = c.receive(&frame(PING, 0, 0, b"12345678"));
    match &acts[..] {
        [Action::SendPingAck(d)] => assert_eq!(d, b"12345678"),
        other => panic!("unexpected {:?}", other),
    }
}

#[test]
fn ping_rules() {
    let mut c = server();
    handshake(&mut c);
    let acts = c.receive(&frame(PING, 0, 0, b"abcdefgh"));
    assert_eq!(acts.len(), 1);
    let bytes = acts[0].to_bytes();
    assert_eq!(bytes, frame(PING, 1, 0, b"abcdefgh"));
    assert!(c.receive(&frame(PING, 1, 0, b"abcdefgh")).is_empty());
    let acts = c.receive(&frame(PING, 0, 0, b"short"));
    assert_eq!(goaway(&acts), Some(ErrorCode::FrameSizeError));

    let mut c = server();
    handshake(&mut c);
    let acts = c.receive(&frame(PING, 0, 1, b"abcdefgh"));
    assert_eq!(goaway(&acts), Some(ErrorCode::ProtocolError));
}

#[test]
fn settings_change_the_send_windows() {
    let mut c = server();
    handshake(&mut c);
    open_stream(&mut c, 1, END_HEADERS);
    let acts = c.receive(&frame(SETTINGS, 0, 0, &[0, 4, 0, 0, 0, 100]));
    assert!(matches!(acts[..], [Action::SendSettingsAck]));
    assert_eq!(c.reserve_send(1, 1000), 100);
    let acts = c.receive(&frame(SETTINGS, 0, 0, &[0, 4, 0, 0, 0, 50]));
    assert!(matches!(acts[..], [Action::SendSettingsAck]));
    assert_eq!(c.reserve_send(1, 1000), 0);
    assert!(c.receive(&frame(SETTINGS, 0, 0, &[0, 4, 0, 0, 0, 160])).len() == 1);
    assert_eq!(c.reserve_send(1, 1000), 60);
}

#[test]
fn invalid_settings() {
    let cases: [(&[u8], ErrorCode); 4] = [
        (&[0, 2, 0, 0, 0, 2], ErrorCode::ProtocolError),
        (&[0, 4, 0x80, 0, 0, 0], ErrorCode::FlowControlError),
        (&[0, 5, 0, 0, 0, 1], ErrorCode::ProtocolError),
        (&[0, 4, 0, 0, 0], ErrorCode::FrameSizeError),
    ];
    for (payload, code) in cases {
        let mut c = server();
        handshake(&mut c);
        assert_eq!(goaway(&c.receive(&frame(SETTINGS, 0, 0, payload))), Some(code));
    }
    let mut c = server();
    handshake(&mut c);
    assert!(matches!(c.receive(&frame(SETTINGS, 0, 0, &[0, 9, 0, 0, 0, 9]))[..], [Action::SendSettingsAck]));
    assert_eq!(goaway(&c.receive(&frame(SETTINGS, 1, 0, &[0, 4, 0, 0, 0, 9]))), Some(ErrorCode::FrameSizeError));
}

fn header(f: &HeaderField) -> (String, String) {
    (String::from_utf8(f.name.clone()).unwrap(), String::from_utf8(f.value.clone()).unwrap())
}

#[test]
fn request_headers_are_decoded_across_continuations() {
    let mut c = server();
    handshake(&mut c);
    assert!(c.receive(&frame(HEADERS, END_STREAM, 1, &REQUEST_BLOCK[..4])).is_empty());
    let acts = c.receive(&frame(CONTINUATION, END_HEADERS, 1, &REQUEST_BLOCK[4..]));
    match &acts[..] {
        [Action::Request { stream_id: 1, headers, end_stream: true }] => {
            let h: Vec<(String, String)> = headers.iter().map(header).collect();
            assert_eq!(
                h,
                vec![
                    (":method".to_string(), "GET".to_string()),
                    (":path".to_string(), "/".to_string()),
                    (":scheme".to_string(), "http".to_string()),
                    (":authority".to_string(), "localhost".to_string()),
                ]
            );
        }
        other => panic!("unexpected {:?}", other),
    }
    // The second request refers to the dynamic table entry (index 62).
    let acts = c.receive(&frame(HEADERS, END_HEADERS | END_STREAM, 3, &[0x82, 0x84, 0x86, 0xbe]));
    match &acts[..] {
        [Action::Request { stream_id: 3, headers, .. }] => {
            assert_eq!(header(&headers[3]), (":authority".to_string(), "localhost".to_string()));
        }
        other => panic!("unexpected {:?}", other),
    }
}

#[test]
fn padded_data_and_headers_are_stripped() {
    let mut c = server();
    handshake(&mut c);
    let mut p = vec![2u8, 0, 0, 0, 0, 16];
    p.extend_from_slice(REQUEST_BLOCK);
    p.extend_from_slice(&[0, 0]);
    let acts = c.receive(&frame(HEADERS, END_HEADERS | 8 | 32, 1, &p));
    assert!(matches!(acts[..], [Action::Request { stream_id: 1, .. }]));
    let acts = c.receive(&frame(DATA, END_STREAM | 8, 1, &[3, b'h', b'i', 0, 0, 0]));
    match &acts[..] {
        [Action::Body { stream_id: 1, data, end_stream: true }] => assert_eq!(data, b"hi"),
        other => panic!("unexpected {:?}", other),
    }
    let acts = c.receive(&frame(DATA, 8, 1, &[9, b'h']));
    assert!(goaway(&acts).is_some());
}

#[test]
fn even_stream_ids_are_refused() {
    let mut c = server();
    handshake(&mut c);
    assert_eq!(goaway(&open_stream(&mut c, 2, END_HEADERS)), Some(ErrorCode::ProtocolError));
}

#[test]
fn goaway_names_the_last_stream() {
    let mut c = server();
    handshake(&mut c);
    open_stream(&mut c, 5, END_HEADERS);
    let acts = c.receive(&frame(DATA, 0, 7, b"x"));
    match &acts[..] {
        [Action::SendGoAway { last_stream_id: 5, code: ErrorCode::ProtocolError }, Action::Close] => {}
        other => panic!("unexpected {:?}", other),
    }
    assert_eq!(acts[0].to_bytes(), frame(7, 0, 0, &[0, 0, 0, 5, 0, 0, 0, 1]));
}

#[test]
fn sending_follows_the_stream_table() {
    let mut c = server();
    handshake(&mut c);
    open_stream(&mut c, 1, END_HEADERS | END_STREAM);
    assert_eq!(c.on_send(1, StreamEvent::SendHeaders { end_stream: false }), Ok(()));
    assert_eq!(c.on_send(1, StreamEvent::SendData { end_stream: true }), Ok(()));
    assert_eq!(c.on_send(3, StreamEvent::SendData { end_stream: true }), Err(ErrorCode::InternalError));
}

#[test]
fn streams_beyond_the_limit_are_refused() {
    let mut c = Connection::new(Settings::server(1, 65536), 200);
    handshake(&mut c);
    assert!(c.receive(&frame(SETTINGS, 1, 0, &[])).is_empty());
    let acts = open_stream(&mut c, 1, END_HEADERS);
    assert!(matches!(acts[..], [Action::Request { stream_id: 1, .. }]));
    let acts = open_stream(&mut c, 3, END_HEADERS);
    match &acts[..] {
        [Action::SendRstStream { stream_id: 3, code: ErrorCode::RefusedStream }] => {}
        other => panic!("unexpected {:?}", other),
    }
    // The refused block was still decoded: index 62 is the refused
    // request's authority.
    c.receive(&frame(RST_STREAM, 0, 1, &[0, 0, 0, 8]));
    let acts = c.receive(&frame(HEADERS, END_HEADERS | END_STREAM, 5, &[0x82, 0x84, 0x86, 0xbe]));
    match &acts[..] {
        [Action::Request { stream_id: 5, headers, .. }] => {
            assert_eq!(header(&headers[3]), (":authority".to_string(), "localhost".to_string()));
        }
        other => panic!("unexpected {:?}", other),
    }
}

#[test]
fn announced_settings_apply_once_acknowledged() {
    let mut announced = Settings::server(1, 65536);
    announced.initial_window_size = 1000;
    let mut c = Connection::new(announced, 200);
    handshake(&mut c);
    // Not acknowledged yet: the default limits hold.
    assert!(matches!(open_stream(&mut c, 1, END_HEADERS)[..], [Action::Request { stream_id: 1, .. }]));
    assert!(matches!(open_stream(&mut c, 3, END_HEADERS)[..], [Action::Request { stream_id: 3, .. }]));
    assert!(matches!(c.receive(&frame(DATA, 0, 1, &[0; 2000]))[..], [Action::Body { .. }]));
    assert!(c.receive(&frame(SETTINGS, 1, 0, &[])).is_empty());
    // Stream 1 had 65535 - 2000 left; the window shrinks by 64535.
    let acts = c.receive(&frame(DATA, 0, 1, &[0; 10]));
    assert_eq!(rst(&acts), Some((1, ErrorCode::FlowControlError)));
    let acts = open_stream(&mut c, 5, END_HEADERS);
    assert_eq!(rst(&acts), Some((5, ErrorCode::RefusedStream)));
}
