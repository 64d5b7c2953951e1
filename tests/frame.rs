use fluke::frame::{
    apply_settings_payload, check_preface, decode_frame_header, encode_data, encode_frame,
    encode_frame_header, encode_header_block, payload_body, preface_bytes, rst_code,
    settings_frame, window_increment, ErrorCode, FrameHeader, FrameType, PrefaceCheck, Settings,
};

#[test]
fn frame_header_round_trip() {
    let h = FrameHeader { len: 0x123456, frame_type: 1, flags: 0x25, stream_id: 0x7fff_fffe };
    let b = encode_frame_header(&h);
    assert_eq!(b, vec![0x12, 0x34, 0x56, 1, 0x25, 0x7f, 0xff, 0xff, 0xfe]);
    assert_eq!(decode_frame_header(&b), Some(h));
    assert_eq!(decode_frame_header(&b[..8]), None);
}

#[test]
fn reserved_bit_is_ignored() {
    let b = [0, 0, 4, 8, 0, 0x80, 0, 0, 3];
    let h = decode_frame_header(&b).unwrap();
    assert_eq!(h.stream_id, 3);
    assert_eq!(h.kind(), FrameType::WindowUpdate);
    assert_eq!(FrameType::from_byte(0x42), FrameType::Unknown(0x42));
    assert_eq!(FrameType::Unknown(0x42).to_byte(), 0x42);
}

#[test]
fn error_codes() {
    assert_eq!(ErrorCode::from_u32(9), ErrorCode::CompressionError);
    assert_eq!(ErrorCode::Http11Required.to_u32(), 13);
    assert_eq!(ErrorCode::from_u32(99), ErrorCode::Unknown(99));
    assert_eq!(rst_code(&[0, 0, 0, 8]), Ok(8));
    assert_eq!(rst_code(&[0, 0, 8]), Err(ErrorCode::FrameSizeError));
}

#[test]
fn preface() {
    let p = preface_bytes();
    assert_eq!(p, b"PRI * HTTP/2.0\r\n\r\nSM\r\n\r\n".to_vec());
    assert_eq!(check_preface(&p), PrefaceCheck::Complete);
    assert_eq!(check_preface(&p[..5]), PrefaceCheck::Incomplete);
    assert_eq!(check_preface(b""), PrefaceCheck::Incomplete);
    assert_eq!(check_preface(b"PRI * HTTP/1.1"), PrefaceCheck::Invalid);
}

#[test]
fn settings_payloads() {
    let s = Settings::initial();
    let n = apply_settings_payload(s, &[0, 1, 0, 0, 0x10, 0, 0, 3, 0, 0, 0, 10]).unwrap();
    assert_eq!(n.header_table_size, 4096);
    assert_eq!(n.max_concurrent_streams, 10);
    assert_eq!(apply_settings_payload(s, &[0, 5, 0, 0x40, 0, 0]).unwrap().max_frame_size, 0x400000);
    assert_eq!(apply_settings_payload(s, &[0, 5, 0x01, 0, 0, 0]), Err(ErrorCode::ProtocolError));
    let ours = Settings::server(100, 65536);
    let f = settings_frame(&ours);
    assert_eq!(f.len(), 45);
    assert_eq!(apply_settings_payload(Settings::initial(), &f[9..]), Ok(ours));
}

#[test]
fn window_increments() {
    assert_eq!(window_increment(&[0x80, 0, 0, 5]), Ok(5));
    assert_eq!(window_increment(&[0, 0, 0, 0]), Err(ErrorCode::ProtocolError));
    assert_eq!(window_increment(&[0, 0, 1]), Err(ErrorCode::FrameSizeError));
}

#[test]
fn padding() {
    assert_eq!(payload_body(8, &[2, 1, 2, 0, 0], false), Ok((1, 3)));
    assert_eq!(payload_body(8 | 32, &[0, 0, 0, 0, 0, 9, 7], true), Ok((6, 7)));
    assert_eq!(payload_body(32, &[0, 0, 0, 0, 9, 7], false), Ok((0, 6)));
    assert_eq!(payload_body(8, &[5, 1], false), Err(ErrorCode::ProtocolError));
    assert_eq!(payload_body(8, &[], false), Err(ErrorCode::FrameSizeError));
}

#[test]
fn header_blocks_are_cut_into_continuations() {
    let block: Vec<u8> = (0..40000u32).map(|i| (i % 251) as u8).collect();
    let out = encode_header_block(3, &block, true, 16384);
    let h1 = decode_frame_header(&out).unwrap();
    assert_eq!((h1.len, h1.frame_type, h1.flags, h1.stream_id), (16384, 1, 1, 3));
    let second = &out[9 + 16384..];
    let h2 = decode_frame_header(second).unwrap();
    assert_eq!((h2.len, h2.frame_type, h2.flags), (16384, 9, 0));
    let third = &second[9 + 16384..];
    let h3 = decode_frame_header(third).unwrap();
    assert_eq!((h3.len, h3.frame_type, h3.flags), (40000 - 32768, 9, 4));
    assert_eq!(out.len(), 40000 + 27);
    let small = encode_header_block(1, &[0x88], false, 16384);
    assert_eq!(small, encode_frame(1, 4, 1, &[0x88]));
}

#[test]
fn data_is_cut_into_frames() {
    let data = vec![1u8; 20000];
    let out = encode_data(5, &data, true, 16384);
    let h1 = decode_frame_header(&out).unwrap();
    assert_eq!((h1.len, h1.flags), (16384, 0));
    let h2 = decode_frame_header(&out[9 + 16384..]).unwrap();
    assert_eq!((h2.len, h2.flags, h2.stream_id), (20000 - 16384, 1, 5));
    assert_eq!(encode_data(1, &[], true, 16384), encode_frame(0, 1, 1, &[]));
}
