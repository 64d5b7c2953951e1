//! HTTP/2 framing: the connection preface, the 9-byte frame header, frame
//! types, flags and error codes, and the fixed-layout payloads.
use vstd::prelude::*;

verus! {

/// Length of a frame header on the wire.
pub const FRAME_HEADER_LEN: usize = 9;

/// Length of the client connection preface.
pub const PREFACE_LEN: usize = 24;

/// Largest frame length the 24-bit length field can carry.
pub const MAX_FRAME_LEN: u32 = 16777215;

/// Largest stream identifier (31 bits).
pub const MAX_STREAM_ID: u32 = 2147483647;

pub const FLAG_END_STREAM: u8 = 1;
pub const FLAG_ACK: u8 = 1;
pub const FLAG_END_HEADERS: u8 = 4;
pub const FLAG_PADDED: u8 = 8;
pub const FLAG_PRIORITY: u8 = 32;

/// The client preface `PRI * HTTP/2.0\r\n\r\nSM\r\n\r\n`.
pub open spec fn preface() -> Seq<u8> {
    seq![
        0x50u8, 0x52, 0x49, 0x20, 0x2a, 0x20, 0x48, 0x54, 0x54, 0x50, 0x2f, 0x32, 0x2e, 0x30,
        0x0d, 0x0a, 0x0d, 0x0a, 0x53, 0x4d, 0x0d, 0x0a, 0x0d, 0x0a,
    ]
}

/// The client preface as bytes.
pub fn preface_bytes() -> (r: Vec<u8>)
    ensures
        r@ == preface(),
{
    let r = vec![
        0x50u8, 0x52, 0x49, 0x20, 0x2a, 0x20, 0x48, 0x54, 0x54, 0x50, 0x2f, 0x32, 0x2e, 0x30,
        0x0d, 0x0a, 0x0d, 0x0a, 0x53, 0x4d, 0x0d, 0x0a, 0x0d, 0x0a,
    ];
    assert(r@ =~= preface());
    r
}

/// How far the bytes received so far match the client preface.
#[derive(Debug, PartialEq, Eq, Structural, Clone, Copy)]
pub enum PrefaceCheck {
    /// The whole preface is there.
    Complete,
    /// What is there is a proper prefix of the preface.
    Incomplete,
    /// The bytes differ from the preface.
    Invalid,
}

/// Checks the first bytes a client sent against the preface.
pub fn check_preface(buf: &[u8]) -> (r: PrefaceCheck)
    ensures
        r == PrefaceCheck::Complete <==> buf@.len() >= PREFACE_LEN && buf@.subrange(0, 24)
            == preface(),
        r == PrefaceCheck::Incomplete <==> buf@.len() < PREFACE_LEN && buf@ == preface().subrange(
            0,
            buf@.len() as int,
        ),
{
    let p = preface_bytes();
    let n = if buf.len() < PREFACE_LEN {
        buf.len()
    } else {
        PREFACE_LEN
    };
    let mut i: usize = 0;
    while i < n
        invariant
            i <= n,
            n <= buf@.len(),
            n <= 24,
            p@ == preface(),
            buf@.subrange(0, i as int) == preface().subrange(0, i as int),
        decreases n - i,
    {
        if buf[i] != p[i] {
            assert(buf@.subrange(0, n as int)[i as int] != preface().subrange(0, n as int)[i as int]);
            return PrefaceCheck::Invalid;
        }
        i = i + 1;
        assert(buf@.subrange(0, i as int) =~= preface().subrange(0, i as int));
    }
    if n == PREFACE_LEN {
        assert(preface().subrange(0, 24) =~= preface());
        PrefaceCheck::Complete
    } else {
        assert(buf@ =~= buf@.subrange(0, n as int));
        PrefaceCheck::Incomplete
    }
}

/// The frame types of RFC 9113, and any other type byte.
#[derive(Debug, PartialEq, Eq, Structural, Clone, Copy)]
pub enum FrameType {
    Data,
    Headers,
    Priority,
    RstStream,
    Settings,
    PushPromise,
    Ping,
    GoAway,
    WindowUpdate,
    Continuation,
    Unknown(u8),
}

pub open spec fn frame_type_spec(b: u8) -> FrameType {
    if b == 0 {
        FrameType::Data
    } else if b == 1 {
        FrameType::Headers
    } else if b == 2 {
        FrameType::Priority
    } else if b == 3 {
        FrameType::RstStream
    } else if b == 4 {
        FrameType::Settings
    } else if b == 5 {
        FrameType::PushPromise
    } else if b == 6 {
        FrameType::Ping
    } else if b == 7 {
        FrameType::GoAway
    } else if b == 8 {
        FrameType::WindowUpdate
    } else if b == 9 {
        FrameType::Continuation
    } else {
        FrameType::Unknown(b)
    }
}

pub open spec fn frame_type_byte(t: FrameType) -> u8 {
    match t {
        FrameType::Data => 0,
        FrameType::Headers => 1,
        FrameType::Priority => 2,
        FrameType::RstStream => 3,
        FrameType::Settings => 4,
        FrameType::PushPromise => 5,
        FrameType::Ping => 6,
        FrameType::GoAway => 7,
        FrameType::WindowUpdate => 8,
        FrameType::Continuation => 9,
        FrameType::Unknown(b) => b,
    }
}

impl FrameType {
    pub fn from_byte(b: u8) -> (r: FrameType)
        ensures
            r == frame_type_spec(b),
    {
        match b {
            0 => FrameType::Data,
            1 => FrameType::Headers,
            2 => FrameType::Priority,
            3 => FrameType::RstStream,
            4 => FrameType::Settings,
            5 => FrameType::PushPromise,
            6 => FrameType::Ping,
            7 => FrameType::GoAway,
            8 => FrameType::WindowUpdate,
            9 => FrameType::Continuation,
            _ => FrameType::Unknown(b),
        }
    }

    pub fn to_byte(self) -> (r: u8)
        ensures
            r == frame_type_byte(self),
    {
        match self {
            FrameType::Data => 0,
            FrameType::Headers => 1,
            FrameType::Priority => 2,
            FrameType::RstStream => 3,
            FrameType::Settings => 4,
            FrameType::PushPromise => 5,
            FrameType::Ping => 6,
            FrameType::GoAway => 7,
            FrameType::WindowUpdate => 8,
            FrameType::Continuation => 9,
            FrameType::Unknown(b) => b,
        }
    }
}

/// Every type byte names the type it came from.
pub proof fn lemma_frame_type_round_trip(b: u8)
    ensures
        frame_type_byte(frame_type_spec(b)) == b,
{
}

/// The error codes of RFC 9113, and any other code.
#[derive(Debug, PartialEq, Eq, Structural, Clone, Copy)]
pub enum ErrorCode {
    NoError,
    ProtocolError,
    InternalError,
    FlowControlError,
    SettingsTimeout,
    StreamClosed,
    FrameSizeError,
    RefusedStream,
    Cancel,
    CompressionError,
    ConnectError,
    EnhanceYourCalm,
    InadequateSecurity,
    Http11Required,
    Unknown(u32),
}

pub open spec fn error_code_spec(c: u32) -> ErrorCode {
    if c == 0 {
        ErrorCode::NoError
    } else if c == 1 {
        ErrorCode::ProtocolError
    } else if c == 2 {
        ErrorCode::InternalError
    } else if c == 3 {
        ErrorCode::FlowControlError
    } else if c == 4 {
        ErrorCode::SettingsTimeout
    } else if c == 5 {
        ErrorCode::StreamClosed
    } else if c == 6 {
        ErrorCode::FrameSizeError
    } else if c == 7 {
        ErrorCode::RefusedStream
    } else if c == 8 {
        ErrorCode::Cancel
    } else if c == 9 {
        ErrorCode::CompressionError
    } else if c == 10 {
        ErrorCode::ConnectError
    } else if c == 11 {
        ErrorCode::EnhanceYourCalm
    } else if c == 12 {
        ErrorCode::InadequateSecurity
    } else if c == 13 {
        ErrorCode::Http11Required
    } else {
        ErrorCode::Unknown(c)
    }
}

pub open spec fn error_code_value(e: ErrorCode) -> u32 {
    match e {
        ErrorCode::NoError => 0,
        ErrorCode::ProtocolError => 1,
        ErrorCode::InternalError => 2,
        ErrorCode::FlowControlError => 3,
        ErrorCode::SettingsTimeout => 4,
        ErrorCode::StreamClosed => 5,
        ErrorCode::FrameSizeError => 6,
        ErrorCode::RefusedStream => 7,
        ErrorCode::Cancel => 8,
        ErrorCode::CompressionError => 9,
        ErrorCode::ConnectError => 10,
        ErrorCode::EnhanceYourCalm => 11,
        ErrorCode::InadequateSecurity => 12,
        ErrorCode::Http11Required => 13,
        ErrorCode::Unknown(c) => c,
    }
}

impl ErrorCode {
    pub fn from_u32(c: u32) -> (r: ErrorCode)
        ensures
            r == error_code_spec(c),
    {
        match c {
            0 => ErrorCode::NoError,
            1 => ErrorCode::ProtocolError,
            2 => ErrorCode::InternalError,
            3 => ErrorCode::FlowControlError,
            4 => ErrorCode::SettingsTimeout,
            5 => ErrorCode::StreamClosed,
            6 => ErrorCode::FrameSizeError,
            7 => ErrorCode::RefusedStream,
            8 => ErrorCode::Cancel,
            9 => ErrorCode::CompressionError,
            10 => ErrorCode::ConnectError,
            11 => ErrorCode::EnhanceYourCalm,
            12 => ErrorCode::InadequateSecurity,
            13 => ErrorCode::Http11Required,
            _ => ErrorCode::Unknown(c),
        }
    }

    pub fn to_u32(self) -> (r: u32)
        ensures
            r == error_code_value(self),
    {
        match self {
            ErrorCode::NoError => 0,
            ErrorCode::ProtocolError => 1,
            ErrorCode::InternalError => 2,
            ErrorCode::FlowControlError => 3,
            ErrorCode::SettingsTimeout => 4,
            ErrorCode::StreamClosed => 5,
            ErrorCode::FrameSizeError => 6,
            ErrorCode::RefusedStream => 7,
            ErrorCode::Cancel => 8,
            ErrorCode::CompressionError => 9,
            ErrorCode::ConnectError => 10,
            ErrorCode::EnhanceYourCalm => 11,
            ErrorCode::InadequateSecurity => 12,
            ErrorCode::Http11Required => 13,
            ErrorCode::Unknown(c) => c,
        }
    }
}

/// Every code on the wire names the code it came from.
pub proof fn lemma_error_code_round_trip(c: u32)
    ensures
        error_code_value(error_code_spec(c)) == c,
{
}

/// A decoded frame header. The reserved bit is not kept.
#[derive(Debug, PartialEq, Eq, Structural, Clone, Copy)]
pub struct FrameHeader {
    pub len: u32,
    pub frame_type: u8,
    pub flags: u8,
    pub stream_id: u32,
}

impl FrameHeader {
    pub open spec fn valid(self) -> bool {
        &&& self.len <= MAX_FRAME_LEN
        &&& self.stream_id <= MAX_STREAM_ID
    }

    pub open spec fn has_flag(self, flag: u8) -> bool {
        self.flags & flag != 0
    }

    pub fn kind(&self) -> (r: FrameType)
        ensures
            r == frame_type_spec(self.frame_type),
    {
        FrameType::from_byte(self.frame_type)
    }

    pub fn flag(&self, flag: u8) -> (r: bool)
        ensures
            r == self.has_flag(flag),
    {
        self.flags & flag != 0
    }
}

/// A big-endian number of `n` bytes read at `at`.
pub open spec fn be_uint(s: Seq<u8>, at: int, n: nat) -> nat
    decreases n,
{
    if n == 0 {
        0
    } else {
        be_uint(s, at, (n - 1) as nat) * 256 + s[at + n - 1] as nat
    }
}

/// The header that the first nine bytes of `s` stand for.
pub open spec fn header_of(s: Seq<u8>) -> FrameHeader {
    FrameHeader {
        len: (s[0] as nat * 65536 + s[1] as nat * 256 + s[2] as nat) as u32,
        frame_type: s[3],
        flags: s[4],
        stream_id: ((s[5] % 128) as nat * 16777216 + s[6] as nat * 65536 + s[7] as nat * 256
            + s[8] as nat) as u32,
    }
}

/// The nine bytes that stand for `h`, reserved bit clear.
pub open spec fn header_bytes(h: FrameHeader) -> Seq<u8> {
    seq![
        (h.len / 65536) as u8,
        (h.len / 256 % 256) as u8,
        (h.len % 256) as u8,
        h.frame_type,
        h.flags,
        (h.stream_id / 16777216) as u8,
        (h.stream_id / 65536 % 256) as u8,
        (h.stream_id / 256 % 256) as u8,
        (h.stream_id % 256) as u8,
    ]
}

/// Reads a frame header from the front of `buf`; `None` when fewer than
/// nine bytes are there. The reserved bit is ignored.
pub fn decode_frame_header(buf: &[u8]) -> (r: Option<FrameHeader>)
    ensures
        buf@.len() < 9 ==> r is None,
        buf@.len() >= 9 ==> r == Some(header_of(buf@)),
        r matches Some(h) ==> h.valid(),
{
    if buf.len() < FRAME_HEADER_LEN {
        return None;
    }
    let len = buf[0] as u32 * 65536 + buf[1] as u32 * 256 + buf[2] as u32;
    let stream_id = (buf[5] % 128) as u32 * 16777216 + buf[6] as u32 * 65536 + buf[7] as u32 * 256
        + buf[8] as u32;
    Some(FrameHeader { len, frame_type: buf[3], flags: buf[4], stream_id })
}

/// Writes `h` as nine bytes.
pub fn encode_frame_header(h: &FrameHeader) -> (r: Vec<u8>)
    requires
        h.valid(),
    ensures
        r@ == header_bytes(*h),
{
    let mut r: Vec<u8> = Vec::with_capacity(FRAME_HEADER_LEN);
    r.push((h.len / 65536) as u8);
    r.push((h.len / 256 % 256) as u8);
    r.push((h.len % 256) as u8);
    r.push(h.frame_type);
    r.push(h.flags);
    r.push((h.stream_id / 16777216) as u8);
    r.push((h.stream_id / 65536 % 256) as u8);
    r.push((h.stream_id / 256 % 256) as u8);
    r.push((h.stream_id % 256) as u8);
    assert(r@ =~= header_bytes(*h));
    r
}

/// Encoding a valid header and decoding the bytes gives the header back.
pub proof fn lemma_header_round_trip(h: FrameHeader)
    requires
        h.valid(),
    ensures
        header_bytes(h).len() == 9,
        header_of(header_bytes(h)) == h,
{
    let b = header_bytes(h);
    assert(b[5] % 128 == b[5]);
    assert(h.len == (h.len / 65536) * 65536 + (h.len / 256 % 256) * 256 + h.len % 256);
    assert(h.stream_id == (h.stream_id / 16777216) * 16777216 + (h.stream_id / 65536 % 256) * 65536
        + (h.stream_id / 256 % 256) * 256 + h.stream_id % 256);
}

/// Reads the big-endian `u32` at `at`.
pub fn read_u32(buf: &[u8], at: usize) -> (r: u32)
    requires
        at + 4 <= buf@.len(),
    ensures
        r == be_uint(buf@, at as int, 4),
{
    let a = buf[at] as u32;
    let b = a * 256 + buf[at + 1] as u32;
    let c = b * 256 + buf[at + 2] as u32;
    let d = c as u64 * 256 + buf[at + 3] as u64;
    assert(d == be_uint(buf@, at as int, 4)) by {
        reveal_with_fuel(be_uint, 5);
    }
    assert(be_uint(buf@, at as int, 4) < 4294967296) by {
        reveal_with_fuel(be_uint, 5);
    }
    d as u32
}

/// The four big-endian bytes of `v`.
pub open spec fn u32_bytes(v: u32) -> Seq<u8> {
    seq![(v / 16777216) as u8, (v / 65536 % 256) as u8, (v / 256 % 256) as u8, (v % 256) as u8]
}

/// Four big-endian bytes read back as the number they were written from.
pub proof fn lemma_u32_bytes(v: u32)
    ensures
        u32_bytes(v).len() == 4,
        be_uint(u32_bytes(v), 0, 4) == v,
        v < 2147483648 ==> window_increment_spec(u32_bytes(v)) == (if v == 0 {
            Err::<u32, ErrorCode>(ErrorCode::ProtocolError)
        } else {
            Ok::<u32, ErrorCode>(v)
        }),
{
    reveal_with_fuel(be_uint, 5);
    let s = u32_bytes(v);
    assert(be_uint(s, 0, 4) == ((s[0] as nat * 256 + s[1] as nat) * 256 + s[2] as nat) * 256 + s[3] as nat);
}

/// Reads the big-endian `u16` at `at`.
pub fn read_u16(buf: &[u8], at: usize) -> (r: u16)
    requires
        at + 2 <= buf@.len(),
    ensures
        r == be_uint(buf@, at as int, 2),
{
    assert(be_uint(buf@, at as int, 2) == buf@[at as int] as nat * 256 + buf@[at + 1] as nat) by {
        reveal_with_fuel(be_uint, 3);
    }
    buf[at] as u16 * 256 + buf[at + 1] as u16
}

/// Appends the big-endian bytes of `v`.
pub fn push_u32(out: &mut Vec<u8>, v: u32)
    ensures
        final(out)@.len() == old(out)@.len() + 4,
        final(out)@.subrange(0, old(out)@.len() as int) == old(out)@,
        be_uint(final(out)@, old(out)@.len() as int, 4) == v,
        final(out)@ == old(out)@ + u32_bytes(v),
{
    let ghost n = out@.len() as int;
    out.push((v / 16777216) as u8);
    out.push((v / 65536 % 256) as u8);
    out.push((v / 256 % 256) as u8);
    out.push((v % 256) as u8);
    assert(out@.subrange(0, n) =~= old(out)@);
    assert(out@ =~= old(out)@ + u32_bytes(v));
    assert(be_uint(out@, n, 4) == v) by {
        reveal_with_fuel(be_uint, 5);
    }
}

/// The settings one side of a connection announced, each with the value it
/// stands at (or its default).
#[derive(Debug, PartialEq, Eq, Structural, Clone, Copy)]
pub struct Settings {
    pub header_table_size: u32,
    pub enable_push: bool,
    pub max_concurrent_streams: u32,
    pub initial_window_size: u32,
    pub max_frame_size: u32,
    pub max_header_list_size: u32,
}

pub const SETTINGS_HEADER_TABLE_SIZE: u16 = 1;
pub const SETTINGS_ENABLE_PUSH: u16 = 2;
pub const SETTINGS_MAX_CONCURRENT_STREAMS: u16 = 3;
pub const SETTINGS_INITIAL_WINDOW_SIZE: u16 = 4;
pub const SETTINGS_MAX_FRAME_SIZE: u16 = 5;
pub const SETTINGS_MAX_HEADER_LIST_SIZE: u16 = 6;

/// Default (and smallest) maximum frame size.
pub const DEFAULT_MAX_FRAME_SIZE: u32 = 16384;
/// Default flow-control window.
pub const DEFAULT_WINDOW: u32 = 65535;
/// Largest flow-control window.
pub const MAX_WINDOW: u32 = 2147483647;

impl Settings {
    /// What a peer's settings are before its first SETTINGS frame.
    pub fn initial() -> (r: Settings)
        ensures
            r == Settings::initial_spec(),
    {
        Settings {
            header_table_size: 4096,
            enable_push: true,
            max_concurrent_streams: 4294967295,
            initial_window_size: DEFAULT_WINDOW,
            max_frame_size: DEFAULT_MAX_FRAME_SIZE,
            max_header_list_size: 4294967295,
        }
    }

    pub open spec fn initial_spec() -> Settings {
        Settings {
            header_table_size: 4096,
            enable_push: true,
            max_concurrent_streams: 4294967295,
            initial_window_size: DEFAULT_WINDOW,
            max_frame_size: DEFAULT_MAX_FRAME_SIZE,
            max_header_list_size: 4294967295,
        }
    }

    /// What a server announces: no push, and the given stream and header-list
    /// limits.
    pub fn server(max_concurrent_streams: u32, max_header_list_size: u32) -> (r: Settings)
        ensures
            r == (Settings {
                enable_push: false,
                max_concurrent_streams,
                max_header_list_size,
                ..Settings::initial_spec()
            }),
    {
        Settings {
            header_table_size: 4096,
            enable_push: false,
            max_concurrent_streams,
            initial_window_size: DEFAULT_WINDOW,
            max_frame_size: DEFAULT_MAX_FRAME_SIZE,
            max_header_list_size,
        }
    }

    pub open spec fn valid(self) -> bool {
        &&& self.initial_window_size <= MAX_WINDOW
        &&& DEFAULT_MAX_FRAME_SIZE <= self.max_frame_size <= MAX_FRAME_LEN
    }
}

/// `s` with parameter `id` set to `value`, or the error that value is.
/// Unknown parameters are ignored.
pub open spec fn setting_applied(s: Settings, id: u16, value: u32) -> Result<Settings, ErrorCode> {
    if id == SETTINGS_HEADER_TABLE_SIZE {
        Ok(Settings { header_table_size: value, ..s })
    } else if id == SETTINGS_ENABLE_PUSH {
        if value > 1 {
            Err(ErrorCode::ProtocolError)
        } else {
            Ok(Settings { enable_push: value == 1, ..s })
        }
    } else if id == SETTINGS_MAX_CONCURRENT_STREAMS {
        Ok(Settings { max_concurrent_streams: value, ..s })
    } else if id == SETTINGS_INITIAL_WINDOW_SIZE {
        if value > MAX_WINDOW {
            Err(ErrorCode::FlowControlError)
        } else {
            Ok(Settings { initial_window_size: value, ..s })
        }
    } else if id == SETTINGS_MAX_FRAME_SIZE {
        if value < DEFAULT_MAX_FRAME_SIZE || value > MAX_FRAME_LEN {
            Err(ErrorCode::ProtocolError)
        } else {
            Ok(Settings { max_frame_size: value, ..s })
        }
    } else if id == SETTINGS_MAX_HEADER_LIST_SIZE {
        Ok(Settings { max_header_list_size: value, ..s })
    } else {
        Ok(s)
    }
}

/// `s` after the first `k` six-byte entries of payload `p`.
pub open spec fn settings_after(s: Settings, p: Seq<u8>, k: nat) -> Result<Settings, ErrorCode>
    decreases k,
{
    if k == 0 {
        Ok(s)
    } else {
        match settings_after(s, p, (k - 1) as nat) {
            Ok(prev) => setting_applied(
                prev,
                be_uint(p, 6 * (k - 1), 2) as u16,
                be_uint(p, 6 * (k - 1) + 2, 4) as u32,
            ),
            Err(e) => Err(e),
        }
    }
}

/// `s` after a whole SETTINGS payload `p`.
pub open spec fn settings_payload_applied(s: Settings, p: Seq<u8>) -> Result<Settings, ErrorCode> {
    if p.len() % 6 != 0 {
        Err(ErrorCode::FrameSizeError)
    } else {
        settings_after(s, p, p.len() / 6)
    }
}

/// Sets one parameter.
pub fn apply_setting(s: Settings, id: u16, value: u32) -> (r: Result<Settings, ErrorCode>)
    ensures
        r == setting_applied(s, id, value),
{
    if id == SETTINGS_HEADER_TABLE_SIZE {
        Ok(Settings { header_table_size: value, ..s })
    } else if id == SETTINGS_ENABLE_PUSH {
        if value > 1 {
            Err(ErrorCode::ProtocolError)
        } else {
            Ok(Settings { enable_push: value == 1, ..s })
        }
    } else if id == SETTINGS_MAX_CONCURRENT_STREAMS {
        Ok(Settings { max_concurrent_streams: value, ..s })
    } else if id == SETTINGS_INITIAL_WINDOW_SIZE {
        if value > MAX_WINDOW {
            Err(ErrorCode::FlowControlError)
        } else {
            Ok(Settings { initial_window_size: value, ..s })
        }
    } else if id == SETTINGS_MAX_FRAME_SIZE {
        if value < DEFAULT_MAX_FRAME_SIZE || value > MAX_FRAME_LEN {
            Err(ErrorCode::ProtocolError)
        } else {
            Ok(Settings { max_frame_size: value, ..s })
        }
    } else if id == SETTINGS_MAX_HEADER_LIST_SIZE {
        Ok(Settings { max_header_list_size: value, ..s })
    } else {
        Ok(s)
    }
}

/// Applies every entry of a SETTINGS payload, in order.
pub fn apply_settings_payload(s: Settings, payload: &[u8]) -> (r: Result<Settings, ErrorCode>)
    ensures
        r == settings_payload_applied(s, payload@),
{
    if payload.len() % 6 != 0 {
        return Err(ErrorCode::FrameSizeError);
    }
    let len = payload.len();
    let n = len / 6;
    let mut cur = s;
    let mut k: usize = 0;
    while k < n
        invariant
            k <= n,
            n == payload@.len() / 6,
            len == payload@.len(),
            len % 6 == 0,
            settings_after(s, payload@, k as nat) == Ok::<Settings, ErrorCode>(cur),
        decreases n - k,
    {
        assert(6 * k + 6 <= payload@.len()) by (nonlinear_arith)
            requires
                k < n,
                n == len / 6,
                len == payload@.len(),
        ;
        let id = read_u16(payload, 6 * k);
        let value = read_u32(payload, 6 * k + 2);
        match apply_setting(cur, id, value) {
            Ok(next) => {
                cur = next;
            },
            Err(e) => {
                assert(settings_after(s, payload@, (k + 1) as nat) == setting_applied(cur, id, value));
                assert(settings_after(s, payload@, (k + 1) as nat) == Err::<Settings, ErrorCode>(e));
                proof {
                    lemma_settings_error_sticks(s, payload@, (k + 1) as nat, n as nat);
                    assert(payload@.len() % 6 == 0);
                    assert(settings_payload_applied(s, payload@) == settings_after(s, payload@, n as nat));
                }
                return Err(e);
            },
        }
        k = k + 1;
    }
    Ok(cur)
}

/// Once an entry is refused, the whole payload is.
proof fn lemma_settings_error_sticks(s: Settings, p: Seq<u8>, k: nat, n: nat)
    requires
        k <= n,
        settings_after(s, p, k) is Err,
    ensures
        settings_after(s, p, n) == settings_after(s, p, k),
    decreases n - k,
{
    if k < n {
        lemma_settings_error_sticks(s, p, k, (n - 1) as nat);
    }
}

/// Applying a valid SETTINGS payload keeps the settings valid.
pub proof fn lemma_settings_payload_keeps_valid(s: Settings, p: Seq<u8>)
    requires
        s.valid(),
    ensures
        settings_payload_applied(s, p) matches Ok(t) ==> t.valid(),
{
    if p.len() % 6 == 0 {
        lemma_settings_after_keeps_valid(s, p, p.len() / 6);
    }
}

proof fn lemma_settings_after_keeps_valid(s: Settings, p: Seq<u8>, k: nat)
    requires
        s.valid(),
    ensures
        settings_after(s, p, k) matches Ok(t) ==> t.valid(),
    decreases k,
{
    if k > 0 {
        lemma_settings_after_keeps_valid(s, p, (k - 1) as nat);
    }
}

/// Where the data of a DATA or HEADERS payload lies, as `(start, end)`:
/// after the pad-length field and, when `priority` is allowed and flagged,
/// the five priority bytes; before the padding.
pub open spec fn payload_body_spec(flags: u8, p: Seq<u8>, allow_priority: bool) -> Result<
    (int, int),
    ErrorCode,
> {
    let padded = flags & FLAG_PADDED != 0;
    let prio = allow_priority && flags & FLAG_PRIORITY != 0;
    let start: int = (if padded { 1int } else { 0int }) + (if prio { 5int } else { 0int });
    if p.len() < start {
        Err(ErrorCode::FrameSizeError)
    } else {
        let pad: int = if padded { p[0] as int } else { 0 };
        if start + pad > p.len() {
            Err(ErrorCode::ProtocolError)
        } else {
            Ok((start, p.len() - pad))
        }
    }
}

/// Strips padding (and, for HEADERS, the priority fields) off a payload.
pub fn payload_body(flags: u8, payload: &[u8], allow_priority: bool) -> (r: Result<(usize, usize), ErrorCode>)
    ensures
        match r {
            Ok((a, b)) => payload_body_spec(flags, payload@, allow_priority) == Ok::<(int, int), ErrorCode>((a as int, b as int)),
            Err(e) => payload_body_spec(flags, payload@, allow_priority) == Err::<(int, int), ErrorCode>(e),
        },
{
    let padded = flags & FLAG_PADDED != 0;
    let prio = allow_priority && flags & FLAG_PRIORITY != 0;
    let start: usize = (if padded { 1 } else { 0 }) + (if prio { 5 } else { 0 });
    if payload.len() < start {
        return Err(ErrorCode::FrameSizeError);
    }
    let pad: usize = if padded { payload[0] as usize } else { 0 };
    if pad > payload.len() - start {
        return Err(ErrorCode::ProtocolError);
    }
    Ok((start, payload.len() - pad))
}

/// The increment a WINDOW_UPDATE payload carries (reserved bit ignored).
pub open spec fn window_increment_spec(p: Seq<u8>) -> Result<u32, ErrorCode> {
    if p.len() != 4 {
        Err(ErrorCode::FrameSizeError)
    } else if be_uint(p, 0, 4) % 2147483648 == 0 {
        Err(ErrorCode::ProtocolError)
    } else {
        Ok((be_uint(p, 0, 4) % 2147483648) as u32)
    }
}

pub fn window_increment(payload: &[u8]) -> (r: Result<u32, ErrorCode>)
    ensures
        r == window_increment_spec(payload@),
{
    if payload.len() != 4 {
        return Err(ErrorCode::FrameSizeError);
    }
    let v = read_u32(payload, 0) % 2147483648;
    if v == 0 {
        Err(ErrorCode::ProtocolError)
    } else {
        Ok(v)
    }
}

/// The error code an RST_STREAM payload carries.
pub open spec fn rst_code_spec(p: Seq<u8>) -> Result<u32, ErrorCode> {
    if p.len() != 4 {
        Err(ErrorCode::FrameSizeError)
    } else {
        Ok(be_uint(p, 0, 4) as u32)
    }
}

pub fn rst_code(payload: &[u8]) -> (r: Result<u32, ErrorCode>)
    ensures
        r == rst_code_spec(payload@),
{
    if payload.len() != 4 {
        return Err(ErrorCode::FrameSizeError);
    }
    Ok(read_u32(payload, 0))
}

/// A whole frame: header, then payload.
pub open spec fn frame_bytes(frame_type: u8, flags: u8, stream_id: u32, p: Seq<u8>) -> Seq<u8> {
    header_bytes(FrameHeader { len: p.len() as u32, frame_type, flags, stream_id }) + p
}

/// Writes a frame.
pub fn encode_frame(frame_type: u8, flags: u8, stream_id: u32, payload: &[u8]) -> (r: Vec<u8>)
    requires
        payload@.len() <= MAX_FRAME_LEN,
        stream_id <= MAX_STREAM_ID,
    ensures
        r@ == frame_bytes(frame_type, flags, stream_id, payload@),
{
    let h = FrameHeader { len: payload.len() as u32, frame_type, flags, stream_id };
    let mut r = encode_frame_header(&h);
    let mut i: usize = 0;
    while i < payload.len()
        invariant
            i <= payload@.len(),
            r@ == header_bytes(h) + payload@.subrange(0, i as int),
        decreases payload@.len() - i,
    {
        r.push(payload[i]);
        i = i + 1;
        assert(r@ =~= header_bytes(h) + payload@.subrange(0, i as int));
    }
    assert(payload@.subrange(0, i as int) =~= payload@);
    r
}

/// One SETTINGS entry: the parameter's id in two bytes, its value in four.
pub open spec fn setting_bytes(id: u16, v: u32) -> Seq<u8> {
    seq![(id / 256) as u8, (id % 256) as u8] + u32_bytes(v)
}

/// The first `k` entries of `ids` and `vals`, one after the other.
pub open spec fn entries_bytes(ids: Seq<u16>, vals: Seq<u32>, k: nat) -> Seq<u8>
    decreases k,
{
    if k == 0 {
        Seq::empty()
    } else {
        entries_bytes(ids, vals, (k - 1) as nat) + setting_bytes(ids[k - 1], vals[k - 1])
    }
}

/// The payload announcing every parameter of `s`, in id order.
pub open spec fn settings_payload(s: Settings) -> Seq<u8> {
    entries_bytes(
        seq![1u16, 2, 3, 4, 5, 6],
        seq![
            s.header_table_size,
            if s.enable_push { 1u32 } else { 0u32 },
            s.max_concurrent_streams,
            s.initial_window_size,
            s.max_frame_size,
            s.max_header_list_size,
        ],
        6,
    )
}

/// A SETTINGS frame announcing every parameter of `s`.
pub fn settings_frame(s: &Settings) -> (r: Vec<u8>)
    ensures
        r@.len() == 45,
        header_of(r@) == (FrameHeader { len: 36, frame_type: 4, flags: 0, stream_id: 0 }),
        settings_payload_applied(Settings::initial_spec(), r@.subrange(9, 45)) == Ok::<Settings, ErrorCode>(*s) || !s.valid(),
        r@ == frame_bytes(4, 0, 0, settings_payload(*s)),
{
    let mut p: Vec<u8> = Vec::new();
    let ids: [u16; 6] = [1, 2, 3, 4, 5, 6];
    let vals: [u32; 6] = [
        s.header_table_size,
        if s.enable_push { 1 } else { 0 },
        s.max_concurrent_streams,
        s.initial_window_size,
        s.max_frame_size,
        s.max_header_list_size,
    ];
    let mut k: usize = 0;
    while k < 6
        invariant
            k <= 6,
            p@.len() == 6 * k,
            forall|j: int| 0 <= j < k ==> be_uint(p@, 6 * j, 2) == ids@[j] && be_uint(p@, 6 * j + 2, 4) == vals@[j],
            p@ == entries_bytes(ids@, vals@, k as nat),
        decreases 6 - k,
    {
        let ghost before = p@;
        p.push((ids[k] / 256) as u8);
        p.push((ids[k] % 256) as u8);
        let ghost mid = p@;
        push_u32(&mut p, vals[k]);
        assert(p@ =~= entries_bytes(ids@, vals@, k as nat) + setting_bytes(ids@[k as int], vals@[k as int]));
        proof {
            assert(p@.subrange(0, before.len() as int) =~= before) by {
                assert(p@.subrange(0, mid.len() as int) == mid);
                assert(mid.subrange(0, before.len() as int) =~= before);
            }
            assert forall|j: int| 0 <= j < k + 1 implies be_uint(p@, 6 * j, 2) == ids@[j] && be_uint(p@, 6 * j + 2, 4) == vals@[j] by {
                if j < k {
                    lemma_be_uint_prefix(before, p@, 6 * j, 2);
                    lemma_be_uint_prefix(before, p@, 6 * j + 2, 4);
                } else {
                    assert(p@[6 * j] == mid[6 * j]);
                    assert(p@[6 * j + 1] == mid[6 * j + 1]);
                    reveal_with_fuel(be_uint, 3);
                }
            }
        }
        k = k + 1;
    }
    let r = encode_frame(4, 0, 0, p.as_slice());
    assert(ids@ =~= seq![1u16, 2, 3, 4, 5, 6]);
    assert(vals@ =~= seq![
        s.header_table_size,
        if s.enable_push { 1u32 } else { 0u32 },
        s.max_concurrent_streams,
        s.initial_window_size,
        s.max_frame_size,
        s.max_header_list_size,
    ]);
    assert(p@ == settings_payload(*s));
    proof {
        let h = FrameHeader { len: 36, frame_type: 4, flags: 0, stream_id: 0 };
        lemma_header_round_trip(h);
        assert(r@.subrange(0, 9) =~= header_bytes(h));
        assert(r@.subrange(9, 45) =~= p@);
        assert(header_of(r@) == header_of(r@.subrange(0, 9)));
        if s.valid() {
            reveal_with_fuel(settings_after, 7);
            assert(settings_after(Settings::initial_spec(), p@, 6) == Ok::<Settings, ErrorCode>(*s));
        }
    }
    r
}


/// A header block cut into a HEADERS frame and CONTINUATION frames of at
/// most `max` bytes each; END_HEADERS on the last, END_STREAM on the first
/// when asked.
pub open spec fn header_block_frames(stream_id: u32, block: Seq<u8>, end_stream: bool, max: nat) -> Seq<u8> {
    let first_len = if block.len() <= max { block.len() } else { max };
    let flags: u8 = (if end_stream { FLAG_END_STREAM } else { 0u8 }) | (if block.len() <= max { FLAG_END_HEADERS } else { 0u8 });
    frame_bytes(1, flags, stream_id, block.subrange(0, first_len as int))
        + continuation_frames(stream_id, block.subrange(first_len as int, block.len() as int), max)
}

/// What is left of a header block, as CONTINUATION frames.
pub open spec fn continuation_frames(stream_id: u32, rest: Seq<u8>, max: nat) -> Seq<u8>
    decreases rest.len(),
{
    if rest.len() == 0 || max == 0 {
        Seq::empty()
    } else if rest.len() <= max {
        frame_bytes(9, FLAG_END_HEADERS, stream_id, rest)
    } else {
        frame_bytes(9, 0, stream_id, rest.subrange(0, max as int)) + continuation_frames(
            stream_id,
            rest.subrange(max as int, rest.len() as int),
            max,
        )
    }
}

/// Body bytes cut into DATA frames of at most `max` bytes each; END_STREAM
/// on the last when asked. An empty body is one empty frame.
pub open spec fn data_frames(stream_id: u32, data: Seq<u8>, end_stream: bool, max: nat) -> Seq<u8>
    decreases data.len(),
{
    if data.len() <= max || max == 0 {
        frame_bytes(0, if end_stream { FLAG_END_STREAM } else { 0u8 }, stream_id, data)
    } else {
        frame_bytes(0, 0, stream_id, data.subrange(0, max as int)) + data_frames(
            stream_id,
            data.subrange(max as int, data.len() as int),
            end_stream,
            max,
        )
    }
}

/// Writes a header block as HEADERS and CONTINUATION frames.
pub fn encode_header_block(stream_id: u32, block: &[u8], end_stream: bool, max: u32) -> (r: Vec<u8>)
    requires
        stream_id <= MAX_STREAM_ID,
        DEFAULT_MAX_FRAME_SIZE <= max <= MAX_FRAME_LEN,
    ensures
        r@ == header_block_frames(stream_id, block@, end_stream, max as nat),
{
    let m = max as usize;
    let first_len = if block.len() <= m { block.len() } else { m };
    let flags: u8 = (if end_stream { FLAG_END_STREAM } else { 0u8 }) | (if block.len() <= m { FLAG_END_HEADERS } else { 0u8 });
    let first = crate::hpack::slice_subrange(block, 0, first_len);
    let mut out = encode_frame(1, flags, stream_id, first.as_slice());
    let mut pos = first_len;
    while pos < block.len()
        invariant
            first_len <= pos <= block@.len(),
            m == max,
            max >= 1,
            stream_id <= MAX_STREAM_ID,
            max <= MAX_FRAME_LEN,
            header_block_frames(stream_id, block@, end_stream, max as nat) == out@
                + continuation_frames(stream_id, block@.subrange(pos as int, block@.len() as int), max as nat),
        decreases block@.len() - pos,
    {
        let ghost rest = block@.subrange(pos as int, block@.len() as int);
        let n = if block.len() - pos <= m { block.len() - pos } else { m };
        let last = block.len() - pos <= m;
        let piece = crate::hpack::slice_subrange(block, pos, pos + n);
        let mut f = encode_frame(9, if last { FLAG_END_HEADERS } else { 0u8 }, stream_id, piece.as_slice());
        let ghost before = out@;
        out.append(&mut f);
        proof {
            if last {
                assert(piece@ =~= rest);
                assert(block@.subrange(pos + n, block@.len() as int) =~= Seq::<u8>::empty());
            } else {
                assert(piece@ =~= rest.subrange(0, max as int));
                assert(rest.subrange(max as int, rest.len() as int) =~= block@.subrange(pos + n, block@.len() as int));
            }
            assert(continuation_frames(stream_id, Seq::<u8>::empty(), max as nat) == Seq::<u8>::empty());
            assert(out@ + continuation_frames(stream_id, block@.subrange(pos + n, block@.len() as int), max as nat)
                =~= before + continuation_frames(stream_id, rest, max as nat));
        }
        pos = pos + n;
    }
    proof {
        assert(block@.subrange(pos as int, block@.len() as int) =~= Seq::<u8>::empty());
        assert(out@ + Seq::<u8>::empty() =~= out@);
    }
    out
}

/// Writes body bytes as DATA frames.
pub fn encode_data(stream_id: u32, data: &[u8], end_stream: bool, max: u32) -> (r: Vec<u8>)
    requires
        stream_id <= MAX_STREAM_ID,
        DEFAULT_MAX_FRAME_SIZE <= max <= MAX_FRAME_LEN,
    ensures
        r@ == data_frames(stream_id, data@, end_stream, max as nat),
{
    let m = max as usize;
    let mut out: Vec<u8> = Vec::new();
    let mut pos: usize = 0;
    assert(data@.subrange(0, data@.len() as int) =~= data@);
    loop
        invariant
            pos <= data@.len(),
            m == max,
            max >= 1,
            stream_id <= MAX_STREAM_ID,
            max <= MAX_FRAME_LEN,
            data_frames(stream_id, data@, end_stream, max as nat) == out@ + data_frames(
                stream_id,
                data@.subrange(pos as int, data@.len() as int),
                end_stream,
                max as nat,
            ),
        decreases data@.len() - pos,
    {
        let ghost rest = data@.subrange(pos as int, data@.len() as int);
        let ghost before = out@;
        if data.len() - pos <= m {
            let piece = crate::hpack::slice_subrange(data, pos, data.len());
            let mut f = encode_frame(0, if end_stream { FLAG_END_STREAM } else { 0u8 }, stream_id, piece.as_slice());
            out.append(&mut f);
            assert(piece@ =~= rest);
            return out;
        }
        let piece = crate::hpack::slice_subrange(data, pos, pos + m);
        let mut f = encode_frame(0, 0, stream_id, piece.as_slice());
        out.append(&mut f);
        proof {
            assert(piece@ =~= rest.subrange(0, max as int));
            assert(rest.subrange(max as int, rest.len() as int) =~= data@.subrange(pos + m, data@.len() as int));
            assert(out@ + data_frames(stream_id, data@.subrange(pos + m, data@.len() as int), end_stream, max as nat)
                =~= before + data_frames(stream_id, rest, end_stream, max as nat));
        }
        pos = pos + m;
    }
}

/// Reading a prefix of a sequence is not changed by appending to it.
pub proof fn lemma_be_uint_prefix(a: Seq<u8>, b: Seq<u8>, at: int, n: nat)
    requires
        0 <= at,
        at + n <= a.len() <= b.len(),
        a == b.subrange(0, a.len() as int),
    ensures
        be_uint(a, at, n) == be_uint(b, at, n),
    decreases n,
{
    if n > 0 {
        lemma_be_uint_prefix(a, b, at, (n - 1) as nat);
        assert(a[at + n - 1] == b[at + n - 1]);
    }
}

/// An acknowledgement of the peer's SETTINGS.
pub fn settings_ack_frame() -> (r: Vec<u8>)
    ensures
        r@ == frame_bytes(4, FLAG_ACK, 0, Seq::empty()),
{
    let empty: Vec<u8> = Vec::new();
    encode_frame(4, FLAG_ACK, 0, empty.as_slice())
}

/// The acknowledgement of a PING: the same eight bytes, ACK set.
pub fn ping_ack_frame(data: &[u8]) -> (r: Vec<u8>)
    requires
        data@.len() == 8,
    ensures
        r@ == frame_bytes(6, FLAG_ACK, 0, data@),
{
    encode_frame(6, FLAG_ACK, 0, data)
}

/// RST_STREAM on `stream_id` with `code`.
pub fn rst_stream_frame(stream_id: u32, code: ErrorCode) -> (r: Vec<u8>)
    requires
        stream_id <= MAX_STREAM_ID,
    ensures
        r@.len() == 13,
        header_of(r@) == (FrameHeader { len: 4, frame_type: 3, flags: 0, stream_id }),
        be_uint(r@, 9, 4) == error_code_value(code),
        r@ == frame_bytes(3, 0, stream_id, u32_bytes(error_code_value(code))),
{
    let mut p: Vec<u8> = Vec::new();
    push_u32(&mut p, code.to_u32());
    assert(p@ =~= u32_bytes(error_code_value(code)));
    let r = encode_frame(3, 0, stream_id, p.as_slice());
    proof {
        let h = FrameHeader { len: 4, frame_type: 3, flags: 0, stream_id };
        lemma_header_round_trip(h);
        assert(r@.subrange(0, 9) =~= header_bytes(h));
        assert(header_of(r@) == header_of(r@.subrange(0, 9)));
        lemma_be_uint_shift(p@, header_bytes(h), 0, 4);
    }
    r
}

/// GOAWAY naming the last stream processed and `code`.
pub fn goaway_frame(last_stream_id: u32, code: ErrorCode) -> (r: Vec<u8>)
    requires
        last_stream_id <= MAX_STREAM_ID,
    ensures
        r@.len() == 17,
        header_of(r@) == (FrameHeader { len: 8, frame_type: 7, flags: 0, stream_id: 0 }),
        be_uint(r@, 9, 4) == last_stream_id,
        be_uint(r@, 13, 4) == error_code_value(code),
        r@ == frame_bytes(7, 0, 0, u32_bytes(last_stream_id) + u32_bytes(error_code_value(code))),
{
    let mut p: Vec<u8> = Vec::new();
    push_u32(&mut p, last_stream_id);
    let ghost first_half = p@;
    push_u32(&mut p, code.to_u32());
    assert(p@ =~= u32_bytes(last_stream_id) + u32_bytes(error_code_value(code)));
    let r = encode_frame(7, 0, 0, p.as_slice());
    proof {
        let h = FrameHeader { len: 8, frame_type: 7, flags: 0, stream_id: 0 };
        lemma_header_round_trip(h);
        assert(r@.subrange(0, 9) =~= header_bytes(h));
        assert(header_of(r@) == header_of(r@.subrange(0, 9)));
        lemma_be_uint_prefix(first_half, p@, 0, 4);
        lemma_be_uint_shift(p@, header_bytes(h), 0, 4);
        lemma_be_uint_shift(p@, header_bytes(h), 4, 4);
    }
    r
}

/// WINDOW_UPDATE on `stream_id` by `increment`.
pub fn window_update_frame(stream_id: u32, increment: u32) -> (r: Vec<u8>)
    requires
        stream_id <= MAX_STREAM_ID,
    ensures
        r@.len() == 13,
        header_of(r@) == (FrameHeader { len: 4, frame_type: 8, flags: 0, stream_id }),
        be_uint(r@, 9, 4) == increment,
        r@ == frame_bytes(8, 0, stream_id, u32_bytes(increment)),
{
    let mut p: Vec<u8> = Vec::new();
    push_u32(&mut p, increment);
    assert(p@ =~= u32_bytes(increment));
    let r = encode_frame(8, 0, stream_id, p.as_slice());
    proof {
        let h = FrameHeader { len: 4, frame_type: 8, flags: 0, stream_id };
        lemma_header_round_trip(h);
        assert(r@.subrange(0, 9) =~= header_bytes(h));
        assert(header_of(r@) == header_of(r@.subrange(0, 9)));
        lemma_be_uint_shift(p@, header_bytes(h), 0, 4);
    }
    r
}

/// Reading after a prefix reads the same as reading the rest alone.
pub proof fn lemma_be_uint_shift(p: Seq<u8>, pre: Seq<u8>, at: int, n: nat)
    requires
        0 <= at,
        at + n <= p.len(),
    ensures
        be_uint(pre + p, pre.len() + at, n) == be_uint(p, at, n),
    decreases n,
{
    if n > 0 {
        lemma_be_uint_shift(p, pre, at, (n - 1) as nat);
        assert((pre + p)[pre.len() + at + n - 1] == p[at + n - 1]);
    }
}

/// Three bytes read as a big-endian number are written back unchanged.
proof fn lemma_be3(a: u8, b: u8, c: u8)
    ensures
        ({
            let v = (a as u32) * 65536 + (b as u32) * 256 + (c as u32);
            &&& v / 65536 == a as u32
            &&& v / 256 % 256 == b as u32
            &&& v % 256 == c as u32
        }),
{
    assert(((a as u32) * 65536 + (b as u32) * 256 + (c as u32)) / 65536 == a as u32) by (bit_vector);
    assert(((a as u32) * 65536 + (b as u32) * 256 + (c as u32)) / 256 % 256 == b as u32) by (bit_vector);
    assert(((a as u32) * 65536 + (b as u32) * 256 + (c as u32)) % 256 == c as u32) by (bit_vector);
}

/// Four bytes, the first below 128, read as a big-endian number are written
/// back unchanged.
proof fn lemma_be4(a: u8, b: u8, c: u8, d: u8)
    requires
        a < 128,
    ensures
        ({
            let v = (a as u32) * 16777216 + (b as u32) * 65536 + (c as u32) * 256 + (d as u32);
            &&& v / 16777216 == a as u32
            &&& v / 65536 % 256 == b as u32
            &&& v / 256 % 256 == c as u32
            &&& v % 256 == d as u32
        }),
{
    assert(((a as u32) * 16777216 + (b as u32) * 65536 + (c as u32) * 256 + (d as u32)) / 16777216
        == a as u32) by (bit_vector)
        requires
            a < 128,
    ;
    assert(((a as u32) * 16777216 + (b as u32) * 65536 + (c as u32) * 256 + (d as u32)) / 65536
        % 256 == b as u32) by (bit_vector)
        requires
            a < 128,
    ;
    assert(((a as u32) * 16777216 + (b as u32) * 65536 + (c as u32) * 256 + (d as u32)) / 256 % 256
        == c as u32) by (bit_vector)
        requires
            a < 128,
    ;
    assert(((a as u32) * 16777216 + (b as u32) * 65536 + (c as u32) * 256 + (d as u32)) % 256
        == d as u32) by (bit_vector)
        requires
            a < 128,
    ;
}

/// Decoding nine bytes and encoding the header gives the same bytes, with
/// the reserved bit cleared.
pub proof fn lemma_bytes_round_trip(s: Seq<u8>)
    requires
        s.len() == 9,
    ensures
        header_of(s).valid(),
        header_bytes(header_of(s)) == s.update(5, (s[5] % 128) as u8),
{
    let h = header_of(s);
    lemma_be3(s[0], s[1], s[2]);
    lemma_be4((s[5] % 128) as u8, s[6], s[7], s[8]);
    assert(header_bytes(h) =~= s.update(5, (s[5] % 128) as u8));
}

} // verus!
