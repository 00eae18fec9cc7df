//! The Volcengine (Doubao) streaming ASR binary protocol: every message is a
//! 4-byte header, a big-endian payload size and the payload.

use vstd::prelude::*;
use crate::asr::{AsrConfig, AsrEvent};
use crate::codec::{
    from_utf8_lossy, gzip_compress, gzip_decoded, gzip_decompress, gzip_encoded, json_pointer_str,
    json_str_at, utf8_lossy,
};
use crate::errors::KoeError;
use crate::prompt::contains_run;
use crate::codec::json_quoted;
use crate::json::{json_bool, push_json_bool, push_json_string};
use crate::text::{copy_str, decimal, push_char, push_str, strings_view, u64_to_decimal};

verus! {

broadcast use vstd::string::group_string_axioms;

// ─── Binary protocol constants ──────────────────────────────────────

/// Header byte 0: version (high nibble) | header size in 4-byte words (low nibble).
pub const PROTOCOL_VERSION: u8 = 0b0001;
pub const HEADER_SIZE: u8 = 0b0001;

/// Message types (high nibble of byte 1).
pub const MSG_FULL_CLIENT_REQUEST: u8 = 0b0001;
pub const MSG_AUDIO_ONLY: u8 = 0b0010;
pub const MSG_FULL_SERVER_RESPONSE: u8 = 0b1001;
pub const MSG_ERROR: u8 = 0b1111;

/// Message type specific flags (low nibble of byte 1).
pub const FLAG_NONE: u8 = 0b0000;
pub const FLAG_HAS_SEQUENCE: u8 = 0b0001;
pub const FLAG_LAST_PACKET: u8 = 0b0010;
pub const FLAG_LAST_PACKET_WITH_SEQ: u8 = 0b0011;

/// Serialization (high nibble of byte 2).
pub const SERIAL_NONE: u8 = 0b0000;
pub const SERIAL_JSON: u8 = 0b0001;

/// Compression (low nibble of byte 2).
pub const COMPRESS_NONE: u8 = 0b0000;
pub const COMPRESS_GZIP: u8 = 0b0001;

// ─── Framing ────────────────────────────────────────────────────────

/// The 4 header bytes for the given message type, flags, serialization and compression.
pub open spec fn header_bytes(msg_type: u8, flags: u8, serialization: u8, compression: u8) -> Seq<u8> {
    seq![
        (PROTOCOL_VERSION << 4u8) | HEADER_SIZE,
        (msg_type << 4u8) | flags,
        (serialization << 4u8) | compression,
        0u8,
    ]
}

/// Big-endian bytes of `x`.
pub open spec fn be32(x: u32) -> Seq<u8> {
    seq![(x >> 24u32) as u8, (x >> 16u32) as u8, (x >> 8u32) as u8, x as u8]
}

/// The big-endian number in `d[off..off + 4]`.
pub open spec fn be32_at(d: Seq<u8>, off: int) -> nat {
    (d[off] as nat) * 16777216 + (d[off + 1] as nat) * 65536 + (d[off + 2] as nat) * 256 + (
    d[off + 3] as nat)
}

/// A frame: header, payload size (as the 32-bit number the protocol carries), payload.
pub open spec fn frame_bytes(header: Seq<u8>, payload: Seq<u8>) -> Seq<u8> {
    header + be32(payload.len() as u32) + payload
}

pub fn build_header(msg_type: u8, flags: u8, serialization: u8, compression: u8) -> (h: [u8; 4])
    ensures
        h@ == header_bytes(msg_type, flags, serialization, compression),
{
    let h = [
        (PROTOCOL_VERSION << 4u8) | HEADER_SIZE,
        (msg_type << 4u8) | flags,
        (serialization << 4u8) | compression,
        0x00,
    ];
    assert(h@ =~= header_bytes(msg_type, flags, serialization, compression));
    h
}

/// Builds a binary frame: header + payload size (big-endian u32) + payload.
pub fn build_frame(header: [u8; 4], payload: &[u8]) -> (frame: Vec<u8>)
    ensures
        frame@ == frame_bytes(header@, payload@),
{
    let payload_len = payload.len() as u32;
    let mut frame: Vec<u8> = Vec::new();
    frame.push(header[0]);
    frame.push(header[1]);
    frame.push(header[2]);
    frame.push(header[3]);
    frame.push((payload_len >> 24u32) as u8);
    frame.push((payload_len >> 16u32) as u8);
    frame.push((payload_len >> 8u32) as u8);
    frame.push(payload_len as u8);
    let ghost prefix = frame@;
    let mut k: usize = 0;
    while k < payload.len()
        invariant
            0 <= k <= payload@.len(),
            frame@ == prefix + payload@.take(k as int),
        decreases payload@.len() - k,
    {
        frame.push(payload[k]);
        assert(payload@.take(k + 1) =~= payload@.take(k as int).push(payload@[k as int]));
        k = k + 1;
    }
    assert(payload@.take(payload@.len() as int) =~= payload@);
    assert(frame@ =~= frame_bytes(header@, payload@));
    frame
}

// ─── Client messages ────────────────────────────────────────────────

/// The JSON object announcing the session, as serde_json writes it (keys in
/// sorted order, no spaces).
pub open spec fn request_json(
    rate: u32,
    enable_itn: bool,
    enable_punc: bool,
    enable_ddc: bool,
    hotwords: Seq<Seq<char>>,
) -> Seq<char> {
    "{\"audio\":{\"bits\":16,\"channel\":1,\"codec\":\"raw\",\"format\":\"pcm\",\"rate\":"@ + decimal(
        rate as nat,
    ) + "},\"request\":{\"enable_ddc\":"@ + json_bool(enable_ddc) + ",\"enable_itn\":"@ + json_bool(
        enable_itn,
    ) + ",\"enable_punc\":"@ + json_bool(enable_punc) + hotwords_json(hotwords)
        + ",\"model_name\":\"bigmodel\",\"result_type\":\"full\",\"show_utterances\":true},\"user\":{\"uid\":\"koe-app\"}}"@
}

/// The `hotwords` member: nothing without hotwords, otherwise
/// `,"hotwords":[{"word":...},...]`.
pub open spec fn hotwords_json(hotwords: Seq<Seq<char>>) -> Seq<char> {
    if hotwords.len() == 0 {
        Seq::empty()
    } else {
        ",\"hotwords\":["@ + hotword_items(hotwords) + "]"@
    }
}

pub open spec fn hotword_items(hotwords: Seq<Seq<char>>) -> Seq<char>
    decreases hotwords.len(),
{
    if hotwords.len() == 0 {
        Seq::empty()
    } else if hotwords.len() == 1 {
        hotword_item(hotwords[0])
    } else {
        hotword_items(hotwords.drop_last()) + ","@ + hotword_item(hotwords.last())
    }
}

pub open spec fn hotword_item(w: Seq<char>) -> Seq<char> {
    "{\"word\":"@ + json_quoted(w) + "}"@
}

/// The session request text for `config`.
pub fn client_request_json(config: &AsrConfig) -> (s: String)
    ensures
        s@ == request_json(
            config.sample_rate_hz,
            config.enable_itn,
            config.enable_punc,
            config.enable_ddc,
            strings_view(config.hotwords@),
        ),
{
    let mut s = String::new();
    push_str(&mut s, "{\"audio\":{\"bits\":16,\"channel\":1,\"codec\":\"raw\",\"format\":\"pcm\",\"rate\":");
    let rate = u64_to_decimal(config.sample_rate_hz as u64);
    push_str(&mut s, rate.as_str());
    push_str(&mut s, "},\"request\":{\"enable_ddc\":");
    push_json_bool(&mut s, config.enable_ddc);
    push_str(&mut s, ",\"enable_itn\":");
    push_json_bool(&mut s, config.enable_itn);
    push_str(&mut s, ",\"enable_punc\":");
    push_json_bool(&mut s, config.enable_punc);
    let ghost before_hot = s@;
    let ghost hw = strings_view(config.hotwords@);
    if config.hotwords.len() > 0 {
        push_str(&mut s, ",\"hotwords\":[");
        let ghost start = s@;
        let mut i: usize = 0;
        while i < config.hotwords.len()
            invariant
                0 <= i <= config.hotwords@.len() == hw.len(),
                hw == strings_view(config.hotwords@),
                s@ == start + hotword_items(hw.take(i as int)),
            decreases config.hotwords@.len() - i,
        {
            assert(hw.take(i + 1).drop_last() =~= hw.take(i as int));
            assert(hw[i as int] == config.hotwords@[i as int]@);
            if i > 0 {
                push_str(&mut s, ",");
            } else {
                assert(hw.take(i as int).len() == 0);
            }
            push_str(&mut s, "{\"word\":");
            push_json_string(&mut s, config.hotwords[i].as_str());
            push_str(&mut s, "}");
            assert(s@ =~= start + hotword_items(hw.take(i + 1)));
            i = i + 1;
        }
        assert(hw.take(hw.len() as int) =~= hw);
        push_str(&mut s, "]");
        assert(s@ =~= before_hot + hotwords_json(hw));
    } else {
        assert(s@ =~= before_hot + hotwords_json(hw));
    }
    push_str(
        &mut s,
        ",\"model_name\":\"bigmodel\",\"result_type\":\"full\",\"show_utterances\":true},\"user\":{\"uid\":\"koe-app\"}}",
    );
    s
}


fn with_prefix(prefix: &str, detail: &str) -> (s: String)
    ensures
        s@ == prefix@ + detail@,
{
    let mut s = String::new();
    push_str(&mut s, prefix);
    push_str(&mut s, detail);
    s
}

/// The frame announcing a session: the request JSON, gzip-compressed, as a
/// full client request.
pub open spec fn full_client_request_frame(config_json: Seq<char>) -> Seq<u8> {
    frame_bytes(
        header_bytes(MSG_FULL_CLIENT_REQUEST, FLAG_NONE, SERIAL_JSON, COMPRESS_GZIP),
        gzip_encoded(vstd::utf8::encode_utf8(config_json)),
    )
}

/// Builds the full client request frame (JSON, then gzip compressed): it
/// always succeeds and carries the compressed session request for `config`.
pub fn build_full_client_request(config: &AsrConfig) -> (r: Result<Vec<u8>, KoeError>)
    ensures
        r matches Ok(frame) && frame@ == full_client_request_frame(
            request_json(
                config.sample_rate_hz,
                config.enable_itn,
                config.enable_punc,
                config.enable_ddc,
                strings_view(config.hotwords@),
            ),
        ),
{
    let json = client_request_json(config);
    let json_bytes = json.as_str().as_bytes();
    match gzip_compress(json_bytes) {
        Ok(compressed) => {
            let header = build_header(MSG_FULL_CLIENT_REQUEST, FLAG_NONE, SERIAL_JSON, COMPRESS_GZIP);
            Ok(build_frame(header, compressed.as_slice()))
        },
        Err(e) => Err(KoeError::AsrProtocol(with_prefix("gzip finish: ", e.as_str()))),
    }
}

/// The frame carrying a piece of audio: gzip-compressed PCM, flagged as the
/// last packet when `is_last`.
pub open spec fn audio_frame(data: Seq<u8>, is_last: bool) -> Seq<u8> {
    frame_bytes(
        header_bytes(
            MSG_AUDIO_ONLY,
            if is_last { FLAG_LAST_PACKET } else { FLAG_NONE },
            SERIAL_NONE,
            COMPRESS_GZIP,
        ),
        gzip_encoded(data),
    )
}

/// Builds an audio-only frame (gzip compressed PCM data); it always succeeds.
pub fn build_audio_frame(data: &[u8], is_last: bool) -> (r: Result<Vec<u8>, KoeError>)
    ensures
        r matches Ok(frame) && frame@ == audio_frame(data@, is_last),
{
    match gzip_compress(data) {
        Ok(compressed) => {
            let flags = if is_last { FLAG_LAST_PACKET } else { FLAG_NONE };
            let header = build_header(MSG_AUDIO_ONLY, flags, SERIAL_NONE, COMPRESS_GZIP);
            Ok(build_frame(header, compressed.as_slice()))
        },
        Err(e) => Err(KoeError::AsrProtocol(with_prefix("gzip finish: ", e.as_str()))),
    }
}

// ─── Server messages ────────────────────────────────────────────────

/// What a server frame holds, read off its bytes.
pub enum FrameLayout {
    Response { payload: Seq<u8>, gzip: bool, json: bool, is_last: bool },
    /// The message bytes, when the frame holds them in full.
    ServerError { code: u32, message: Option<Seq<u8>> },
    TooShort,
    MissingSequence,
    MissingPayloadSize,
    IncompletePayload,
    UnknownType { msg_type: u8 },
}

/// Reads a server frame: the message type picks a response or an error; a
/// response may carry a sequence number (skipped), then payload size and
/// payload; an error carries a code and a message, each optional.
pub open spec fn frame_layout(d: Seq<u8>) -> FrameLayout {
    if d.len() < 4 {
        FrameLayout::TooShort
    } else {
        let msg_type = (d[1] >> 4u8) & 0x0Fu8;
        let flags = d[1] & 0x0Fu8;
        let serialization = (d[2] >> 4u8) & 0x0Fu8;
        let compression = d[2] & 0x0Fu8;
        let header_len = ((d[0] & 0x0Fu8) as nat) * 4;
        if msg_type == MSG_FULL_SERVER_RESPONSE {
            let has_sequence = (flags & 0b0001u8) != 0;
            let is_last = (flags & 0b0010u8) != 0;
            if has_sequence && d.len() < header_len + 4 {
                FrameLayout::MissingSequence
            } else {
                let off = if has_sequence { header_len + 4 } else { header_len };
                if d.len() < off + 4 {
                    FrameLayout::MissingPayloadSize
                } else {
                    let size = be32_at(d, off as int);
                    if d.len() < off + 4 + size {
                        FrameLayout::IncompletePayload
                    } else {
                        FrameLayout::Response {
                            payload: d.subrange((off + 4) as int, (off + 4 + size) as int),
                            gzip: compression == COMPRESS_GZIP,
                            json: serialization == SERIAL_JSON,
                            is_last,
                        }
                    }
                }
            }
        } else if msg_type == MSG_ERROR {
            let has_code = d.len() >= header_len + 4;
            let code: u32 = if has_code { be32_at(d, header_len as int) as u32 } else { 0 };
            let off = if has_code { header_len + 4 } else { header_len };
            let message = if d.len() >= off + 4 {
                let size = be32_at(d, off as int);
                if d.len() >= off + 4 + size {
                    Some(d.subrange((off + 4) as int, (off + 4 + size) as int))
                } else {
                    None
                }
            } else {
                None
            };
            FrameLayout::ServerError { code, message }
        } else {
            FrameLayout::UnknownType { msg_type }
        }
    }
}

/// A parsed server message.
pub enum ServerMessage {
    /// Recognition result: the text at `result.text` (empty if absent).
    Response { text: String, is_last: bool },
    Error { code: u32, message: String },
}

/// `0b` and the four low bits of `t`, as `{:#06b}` writes a nibble.
pub open spec fn binary_nibble(t: u8) -> Seq<char> {
    seq![
        '0',
        'b',
        if (t >> 3u8) & 1u8 == 1u8 { '1' } else { '0' },
        if (t >> 2u8) & 1u8 == 1u8 { '1' } else { '0' },
        if (t >> 1u8) & 1u8 == 1u8 { '1' } else { '0' },
        if t & 1u8 == 1u8 { '1' } else { '0' },
    ]
}

pub open spec fn protocol_error_is(r: Result<ServerMessage, KoeError>, msg: Seq<char>) -> bool {
    r matches Err(KoeError::AsrProtocol(m)) && m@ == msg
}

pub open spec fn protocol_error_starts(r: Result<ServerMessage, KoeError>, prefix: Seq<char>) -> bool {
    r matches Err(KoeError::AsrProtocol(m)) && prefix.is_prefix_of(m@)
}

pub open spec fn response_is(r: Result<ServerMessage, KoeError>, text: Seq<char>, is_last: bool) -> bool {
    r matches Ok(ServerMessage::Response { text: t, is_last: l }) && t@ == text && l == is_last
}

/// What parsing a server frame gives.
pub open spec fn parsed_as(d: Seq<u8>, r: Result<ServerMessage, KoeError>) -> bool {
    match frame_layout(d) {
        FrameLayout::TooShort => protocol_error_is(r, "frame too short"@),
        FrameLayout::MissingSequence => protocol_error_is(r, "missing sequence"@),
        FrameLayout::MissingPayloadSize => protocol_error_is(r, "missing payload size"@),
        FrameLayout::IncompletePayload => protocol_error_is(r, "incomplete payload"@),
        FrameLayout::UnknownType { msg_type } => protocol_error_is(
            r,
            "unknown message type: "@ + binary_nibble(msg_type),
        ),
        FrameLayout::ServerError { code, message } => r matches Ok(
            ServerMessage::Error { code: c, message: m },
        ) && c == code && m@ == match message {
            Some(b) => utf8_lossy(b),
            None => Seq::empty(),
        },
        FrameLayout::Response { payload, gzip, json, is_last } => {
            let body = if gzip { gzip_decoded(payload) } else { Some(payload) };
            match body {
                None => protocol_error_starts(r, "gzip decompress: "@),
                Some(b) => if json {
                    match json_pointer_str(b, "/result/text"@) {
                        None => protocol_error_starts(r, "parse JSON: "@),
                        Some(t) => response_is(
                            r,
                            match t {
                                Some(x) => x,
                                None => Seq::empty(),
                            },
                            is_last,
                        ),
                    }
                } else {
                    response_is(r, Seq::empty(), is_last)
                },
            }
        },
    }
}

fn read_be32(d: &[u8], off: usize) -> (v: u32)
    requires
        off + 4 <= d@.len(),
    ensures
        v as nat == be32_at(d@, off as int),
{
    (d[off] as u32) * 16777216 + (d[off + 1] as u32) * 65536 + (d[off + 2] as u32) * 256 + (d[off
        + 3] as u32)
}

fn binary_nibble_text(t: u8) -> (s: String)
    ensures
        s@ == binary_nibble(t),
{
    let mut s = String::new();
    push_char(&mut s, '0');
    push_char(&mut s, 'b');
    push_char(&mut s, if (t >> 3u8) & 1u8 == 1u8 { '1' } else { '0' });
    push_char(&mut s, if (t >> 2u8) & 1u8 == 1u8 { '1' } else { '0' });
    push_char(&mut s, if (t >> 1u8) & 1u8 == 1u8 { '1' } else { '0' });
    push_char(&mut s, if t & 1u8 == 1u8 { '1' } else { '0' });
    s
}

fn protocol_error(msg: &str) -> (e: KoeError)
    ensures
        e matches KoeError::AsrProtocol(m) && m@ == msg@,
{
    KoeError::AsrProtocol(copy_str(msg))
}

/// Parses a binary server response frame.
pub fn parse_server_response(data: &[u8]) -> (r: Result<ServerMessage, KoeError>)
    ensures
        parsed_as(data@, r),
{
    let n = data.len();
    if n < 4 {
        return Err(protocol_error("frame too short"));
    }
    let msg_type = (data[1] >> 4u8) & 0x0Fu8;
    let flags = data[1] & 0x0Fu8;
    let serialization = (data[2] >> 4u8) & 0x0Fu8;
    let compression = data[2] & 0x0Fu8;
    let b0 = data[0];
    assert(b0 & 0x0Fu8 <= 15u8) by (bit_vector);
    let header_len = ((b0 & 0x0Fu8) as usize) * 4;
    if msg_type == MSG_FULL_SERVER_RESPONSE {
        let has_sequence = (flags & 0b0001u8) != 0;
        let is_last = (flags & 0b0010u8) != 0;
        let mut offset = header_len;
        if has_sequence {
            if n < offset + 4 {
                return Err(protocol_error("missing sequence"));
            }
            offset = offset + 4;
        }
        if n < offset + 4 {
            return Err(protocol_error("missing payload size"));
        }
        let payload_size = read_be32(data, offset);
        offset = offset + 4;
        if (n - offset) < (payload_size as usize) || (payload_size as u64) > ((n - offset) as u64) {
            return Err(protocol_error("incomplete payload"));
        }
        let size = payload_size as usize;
        let mut payload: Vec<u8> = Vec::new();
        let mut k: usize = 0;
        while k < size
            invariant
                offset + size <= n == data@.len(),
                0 <= k <= size,
                payload@ == data@.subrange(offset as int, offset + k),
            decreases size - k,
        {
            payload.push(data[offset + k]);
            assert(data@.subrange(offset as int, offset + k + 1) =~= data@.subrange(
                offset as int,
                offset + k,
            ).push(data@[offset + k]));
            k = k + 1;
        }
        let body = if compression == COMPRESS_GZIP {
            match gzip_decompress(payload.as_slice()) {
                Ok(b) => b,
                Err(e) => {
                    return Err(KoeError::AsrProtocol(with_prefix("gzip decompress: ", e.as_str())));
                },
            }
        } else {
            payload
        };
        if serialization == SERIAL_JSON {
            match json_str_at(body.as_slice(), "/result/text") {
                Ok(Some(t)) => Ok(ServerMessage::Response { text: t, is_last }),
                Ok(None) => Ok(ServerMessage::Response { text: String::new(), is_last }),
                Err(e) => Err(KoeError::AsrProtocol(with_prefix("parse JSON: ", e.as_str()))),
            }
        } else {
            Ok(ServerMessage::Response { text: String::new(), is_last })
        }
    } else if msg_type == MSG_ERROR {
        let mut offset = header_len;
        let code = if n >= offset + 4 {
            let c = read_be32(data, offset);
            offset = offset + 4;
            c
        } else {
            0
        };
        let message = if n >= offset + 4 {
            let msg_size = read_be32(data, offset);
            offset = offset + 4;
            if (msg_size as u64) <= ((n - offset) as u64) {
                let size = msg_size as usize;
                let mut bytes: Vec<u8> = Vec::new();
                let mut k: usize = 0;
                while k < size
                    invariant
                        offset + size <= n == data@.len(),
                        0 <= k <= size,
                        bytes@ == data@.subrange(offset as int, offset + k),
                    decreases size - k,
                {
                    bytes.push(data[offset + k]);
                    assert(data@.subrange(offset as int, offset + k + 1) =~= data@.subrange(
                        offset as int,
                        offset + k,
                    ).push(data@[offset + k]));
                    k = k + 1;
                }
                from_utf8_lossy(bytes.as_slice())
            } else {
                String::new()
            }
        } else {
            String::new()
        };
        proof {
            if n >= header_len + 4 && n >= header_len + 8 {
                assert(be32_at(data@, header_len as int) < 0x1_0000_0000);
            }
        }
        Ok(ServerMessage::Error { code, message })
    } else {
        let t = binary_nibble_text(msg_type);
        Err(KoeError::AsrProtocol(with_prefix("unknown message type: ", t.as_str())))
    }
}


/// What the WebSocket delivered to the session.
pub enum WsIncoming {
    Binary(Vec<u8>),
    Close,
    /// A text, ping or pong frame.
    Other,
    /// The transport failed, with its message.
    Failed(String),
    /// The stream ended.
    Ended,
}

/// The event (or error) a parsed server message stands for.
pub open spec fn event_for(parsed: Result<ServerMessage, KoeError>, r: Result<AsrEvent, KoeError>) -> bool {
    match parsed {
        Ok(ServerMessage::Response { text, is_last }) => if is_last {
            r matches Ok(AsrEvent::Final(t)) && t@ == text@
        } else {
            r matches Ok(AsrEvent::Interim(t)) && t@ == text@
        },
        Ok(ServerMessage::Error { code, message }) => r matches Err(KoeError::AsrProtocol(m)) && m@
            == "server error "@ + decimal(code as nat) + ": "@ + message@,
        Err(e) => r == Err::<AsrEvent, KoeError>(e),
    }
}

/// Decides what a message received from the server means for the session;
/// `None` stands for a session that is not connected.
pub fn event_from_message(msg: Option<WsIncoming>) -> (r: Result<AsrEvent, KoeError>)
    ensures
        msg is None ==> (r matches Err(KoeError::AsrConnection(m)) && m@ == "not connected"@),
        msg matches Some(WsIncoming::Binary(d)) ==> exists|p: Result<ServerMessage, KoeError>|
            parsed_as(d@, p) && #[trigger] event_for(p, r),
        msg matches Some(WsIncoming::Close) ==> (r matches Ok(AsrEvent::Closed)),
        msg matches Some(WsIncoming::Other) ==> (r matches Ok(AsrEvent::Interim(t)) && t@.len() == 0),
        msg matches Some(WsIncoming::Failed(e)) ==> (r matches Err(KoeError::AsrProtocol(m)) && m@
            == e@),
        msg matches Some(WsIncoming::Ended) ==> (r matches Ok(AsrEvent::Closed)),
{
    match msg {
        None => Err(KoeError::AsrConnection(copy_str("not connected"))),
        Some(WsIncoming::Binary(data)) => {
            let parsed = parse_server_response(data.as_slice());
            let ghost p = parsed;
            let r = match parsed {
                Ok(ServerMessage::Response { text, is_last }) => {
                    if is_last {
                        Ok(AsrEvent::Final(text))
                    } else {
                        Ok(AsrEvent::Interim(text))
                    }
                },
                Ok(ServerMessage::Error { code, message }) => {
                    let mut m = String::new();
                    push_str(&mut m, "server error ");
                    let c = u64_to_decimal(code as u64);
                    push_str(&mut m, c.as_str());
                    push_str(&mut m, ": ");
                    push_str(&mut m, message.as_str());
                    Err(KoeError::AsrProtocol(m))
                },
                Err(e) => Err(e),
            };
            assert(event_for(p, r));
            r
        },
        Some(WsIncoming::Close) => Ok(AsrEvent::Closed),
        Some(WsIncoming::Other) => Ok(AsrEvent::Interim(String::new())),
        Some(WsIncoming::Failed(e)) => Err(KoeError::AsrProtocol(e)),
        Some(WsIncoming::Ended) => Ok(AsrEvent::Closed),
    }
}

proof fn lemma_be32_roundtrip(x: u32)
    ensures
        be32_at(be32(x), 0) == x,
{
    let b0 = (x >> 24u32) as u8;
    let b1 = (x >> 16u32) as u8;
    let b2 = (x >> 8u32) as u8;
    let b3 = x as u8;
    assert(b0 as u32 * 16777216u32 + b1 as u32 * 65536u32 + b2 as u32 * 256u32 + b3 as u32 == x)
        by (bit_vector)
        requires
            b0 == (x >> 24u32) as u8,
            b1 == (x >> 16u32) as u8,
            b2 == (x >> 8u32) as u8,
            b3 == x as u8,
    ;
}

/// A response frame built with the client's framing reads back as the same
/// payload with the flags, serialization and compression it was given.
pub proof fn law_response_frame_roundtrip(flags: u8, serialization: u8, compression: u8, payload: Seq<u8>)
    requires
        flags < 16,
        serialization < 16,
        compression < 16,
        flags & 1u8 == 0,
        payload.len() < 0x1_0000_0000,
    ensures
        frame_layout(
            frame_bytes(
                header_bytes(MSG_FULL_SERVER_RESPONSE, flags, serialization, compression),
                payload,
            ),
        ) == (FrameLayout::Response {
            payload,
            gzip: compression == COMPRESS_GZIP,
            json: serialization == SERIAL_JSON,
            is_last: flags & 2u8 != 0,
        }),
{
    let h = header_bytes(MSG_FULL_SERVER_RESPONSE, flags, serialization, compression);
    let d = frame_bytes(h, payload);
    let b0 = (PROTOCOL_VERSION << 4u8) | HEADER_SIZE;
    let b1 = (MSG_FULL_SERVER_RESPONSE << 4u8) | flags;
    let b2 = (serialization << 4u8) | compression;
    assert(b0 & 0x0Fu8 == 1u8) by (bit_vector)
        requires
            b0 == (1u8 << 4u8) | 1u8,
    ;
    assert((b1 >> 4u8) & 0x0Fu8 == 9u8 && b1 & 0x0Fu8 == flags) by (bit_vector)
        requires
            b1 == (9u8 << 4u8) | flags,
            flags < 16,
    ;
    assert((b2 >> 4u8) & 0x0Fu8 == serialization && b2 & 0x0Fu8 == compression) by (bit_vector)
        requires
            b2 == (serialization << 4u8) | compression,
            serialization < 16,
            compression < 16,
    ;
    assert(flags & 0x0Fu8 == flags) by (bit_vector)
        requires
            flags < 16,
    ;
    let len = payload.len() as u32;
    lemma_be32_roundtrip(len);
    assert(d[0] == b0 && d[1] == b1 && d[2] == b2);
    assert(be32_at(d, 4) == be32_at(be32(len), 0));
    assert(d.subrange(8, 8 + payload.len() as int) =~= payload);
}


/// A response frame built with the client's framing, carrying a JSON body
/// as it is or gzip-compressed, parses back to the text at `result.text` of
/// that body (empty when there is none) and the frame's last-packet flag;
/// a body that is not JSON is reported as such.
pub proof fn law_parse_built_response(
    flags: u8,
    compression: u8,
    body: Seq<u8>,
    payload: Seq<u8>,
    r: Result<ServerMessage, KoeError>,
)
    requires
        flags == FLAG_NONE || flags == FLAG_LAST_PACKET,
        compression == COMPRESS_NONE || compression == COMPRESS_GZIP,
        compression == COMPRESS_GZIP ==> gzip_decoded(payload) == Some(body),
        compression == COMPRESS_NONE ==> payload == body,
        payload.len() < 0x1_0000_0000,
        parsed_as(
            frame_bytes(header_bytes(MSG_FULL_SERVER_RESPONSE, flags, SERIAL_JSON, compression), payload),
            r,
        ),
    ensures
        match json_pointer_str(body, "/result/text"@) {
            None => protocol_error_starts(r, "parse JSON: "@),
            Some(t) => response_is(
                r,
                match t {
                    Some(x) => x,
                    None => Seq::empty(),
                },
                flags == FLAG_LAST_PACKET,
            ),
        },
{
    assert(flags < 16 && flags & 1u8 == 0 && (flags & 2u8 != 0) == (flags == 2u8)) by (bit_vector)
        requires
            flags == 0u8 || flags == 2u8,
    ;
    law_response_frame_roundtrip(flags, SERIAL_JSON, compression, payload);
}


/// A full server response whose flags carry a sequence number reads back
/// past the sequence number: its payload, compression and serialization as
/// given, and `is_last` exactly when the last-packet bit (0b0010) is set,
/// whatever the sequence bit says.
pub proof fn law_sequenced_response_frame_roundtrip(
    flags: u8,
    serialization: u8,
    compression: u8,
    sequence: u32,
    payload: Seq<u8>,
)
    requires
        flags < 16,
        serialization < 16,
        compression < 16,
        flags & 1u8 == 1u8,
        payload.len() < 0x1_0000_0000,
    ensures
        frame_layout(
            header_bytes(MSG_FULL_SERVER_RESPONSE, flags, serialization, compression) + be32(sequence)
                + be32(payload.len() as u32) + payload,
        ) == (FrameLayout::Response {
            payload,
            gzip: compression == COMPRESS_GZIP,
            json: serialization == SERIAL_JSON,
            is_last: flags & 2u8 != 0,
        }),
{
    let h = header_bytes(MSG_FULL_SERVER_RESPONSE, flags, serialization, compression);
    let d = h + be32(sequence) + be32(payload.len() as u32) + payload;
    let b0 = (PROTOCOL_VERSION << 4u8) | HEADER_SIZE;
    let b1 = (MSG_FULL_SERVER_RESPONSE << 4u8) | flags;
    let b2 = (serialization << 4u8) | compression;
    assert(b0 & 0x0Fu8 == 1u8) by (bit_vector)
        requires
            b0 == (1u8 << 4u8) | 1u8,
    ;
    assert((b1 >> 4u8) & 0x0Fu8 == 9u8 && b1 & 0x0Fu8 == flags) by (bit_vector)
        requires
            b1 == (9u8 << 4u8) | flags,
            flags < 16,
    ;
    assert((b2 >> 4u8) & 0x0Fu8 == serialization && b2 & 0x0Fu8 == compression) by (bit_vector)
        requires
            b2 == (serialization << 4u8) | compression,
            serialization < 16,
            compression < 16,
    ;
    assert(flags & 0b0001u8 != 0) by (bit_vector)
        requires
            flags & 1u8 == 1u8,
    ;
    let len = payload.len() as u32;
    lemma_be32_roundtrip(len);
    assert(d[0] == b0 && d[1] == b1 && d[2] == b2);
    assert(be32_at(d, 8) == be32_at(be32(len), 0));
    assert(d.subrange(12, 12 + payload.len() as int) =~= payload);
}

/// A response frame with a sequence number (flags 0b0001, or 0b0011 for the
/// last packet), carrying a JSON body as it is or gzip-compressed, parses to
/// the text at `result.text` of that body and is the last packet exactly
/// when the flags say so: 0b0001 gives an interim response.
pub proof fn law_parse_sequenced_response(
    flags: u8,
    compression: u8,
    sequence: u32,
    body: Seq<u8>,
    payload: Seq<u8>,
    r: Result<ServerMessage, KoeError>,
)
    requires
        flags == FLAG_HAS_SEQUENCE || flags == FLAG_LAST_PACKET_WITH_SEQ,
        compression == COMPRESS_NONE || compression == COMPRESS_GZIP,
        compression == COMPRESS_GZIP ==> gzip_decoded(payload) == Some(body),
        compression == COMPRESS_NONE ==> payload == body,
        payload.len() < 0x1_0000_0000,
        parsed_as(
            header_bytes(MSG_FULL_SERVER_RESPONSE, flags, SERIAL_JSON, compression) + be32(sequence)
                + be32(payload.len() as u32) + payload,
            r,
        ),
    ensures
        match json_pointer_str(body, "/result/text"@) {
            None => protocol_error_starts(r, "parse JSON: "@),
            Some(t) => response_is(
                r,
                match t {
                    Some(x) => x,
                    None => Seq::empty(),
                },
                flags == FLAG_LAST_PACKET_WITH_SEQ,
            ),
        },
{
    assert(flags < 16 && flags & 1u8 == 1u8 && (flags & 2u8 != 0) == (flags == 3u8)) by (bit_vector)
        requires
            flags == 1u8 || flags == 3u8,
    ;
    law_sequenced_response_frame_roundtrip(flags, SERIAL_JSON, compression, sequence, payload);
}


proof fn lemma_member_run(x: Seq<char>, lead_key: Seq<char>, lead: Seq<char>, key: Seq<char>, v: Seq<char>)
    requires
        lead_key == lead + key,
    ensures
        contains_run(x + lead_key + v, key + v),
{
    let s = x + lead_key + v;
    let i: int = (x.len() + lead.len()) as int;
    assert(s.subrange(i, i + (key + v).len()) =~= key + v);
}

proof fn lemma_run_extends(s: Seq<char>, t: Seq<char>, k: Seq<char>)
    requires
        contains_run(s, k),
    ensures
        contains_run(s + t, k),
{
    let i = choose|i: int| 0 <= i <= s.len() - k.len() && #[trigger] s.subrange(i, i + k.len()) == k;
    assert((s + t).subrange(i, i + k.len()) =~= s.subrange(i, i + k.len()));
}

/// The session request carries each setting under its own key:
/// `"enable_ddc":`, `"enable_itn":` and `"enable_punc":` are each followed by
/// their own flag.
pub proof fn law_request_carries_settings(
    rate: u32,
    enable_itn: bool,
    enable_punc: bool,
    enable_ddc: bool,
    hotwords: Seq<Seq<char>>,
)
    ensures
        contains_run(
            request_json(rate, enable_itn, enable_punc, enable_ddc, hotwords),
            "\"enable_ddc\":"@ + json_bool(enable_ddc),
        ),
        contains_run(
            request_json(rate, enable_itn, enable_punc, enable_ddc, hotwords),
            "\"enable_itn\":"@ + json_bool(enable_itn),
        ),
        contains_run(
            request_json(rate, enable_itn, enable_punc, enable_ddc, hotwords),
            "\"enable_punc\":"@ + json_bool(enable_punc),
        ),
{
    let head = "{\"audio\":{\"bits\":16,\"channel\":1,\"codec\":\"raw\",\"format\":\"pcm\",\"rate\":"@
        + decimal(rate as nat);
    let mid = "},\"request\":{\"enable_ddc\":"@;
    let itn = ",\"enable_itn\":"@;
    let punc = ",\"enable_punc\":"@;
    let hw = hotwords_json(hotwords);
    let tail = ",\"model_name\":\"bigmodel\",\"result_type\":\"full\",\"show_utterances\":true},\"user\":{\"uid\":\"koe-app\"}}"@;
    let ddc = json_bool(enable_ddc);
    let vi = json_bool(enable_itn);
    let vp = json_bool(enable_punc);
    assert(itn == seq![','] + "\"enable_itn\":"@) by {
        reveal_strlit(",\"enable_itn\":");
        reveal_strlit("\"enable_itn\":");
        assert(itn =~= seq![','] + "\"enable_itn\":"@);
    }
    assert(punc == seq![','] + "\"enable_punc\":"@) by {
        reveal_strlit(",\"enable_punc\":");
        reveal_strlit("\"enable_punc\":");
        assert(punc =~= seq![','] + "\"enable_punc\":"@);
    }
    let pre = "},\"request\":{"@;
    assert(mid == pre + "\"enable_ddc\":"@) by {
        reveal_strlit("},\"request\":{\"enable_ddc\":");
        reveal_strlit("},\"request\":{");
        reveal_strlit("\"enable_ddc\":");
        assert(mid =~= pre + "\"enable_ddc\":"@);
    }
    let kd = "\"enable_ddc\":"@ + ddc;
    lemma_member_run(head, mid, pre, "\"enable_ddc\":"@, ddc);
    lemma_run_extends(head + mid + ddc, itn, kd);
    lemma_run_extends(head + mid + ddc + itn, vi, kd);
    lemma_run_extends(head + mid + ddc + itn + vi, punc, kd);
    lemma_run_extends(head + mid + ddc + itn + vi + punc, vp, kd);
    lemma_run_extends(head + mid + ddc + itn + vi + punc + vp, hw, kd);
    lemma_run_extends(head + mid + ddc + itn + vi + punc + vp + hw, tail, kd);
    let ki = "\"enable_itn\":"@ + vi;
    lemma_member_run(head + mid + ddc, itn, seq![','], "\"enable_itn\":"@, vi);
    lemma_run_extends(head + mid + ddc + itn + vi, punc, ki);
    lemma_run_extends(head + mid + ddc + itn + vi + punc, vp, ki);
    lemma_run_extends(head + mid + ddc + itn + vi + punc + vp, hw, ki);
    lemma_run_extends(head + mid + ddc + itn + vi + punc + vp + hw, tail, ki);
    let kp = "\"enable_punc\":"@ + vp;
    lemma_member_run(head + mid + ddc + itn + vi, punc, seq![','], "\"enable_punc\":"@, vp);
    lemma_run_extends(head + mid + ddc + itn + vi + punc + vp, hw, kp);
    lemma_run_extends(head + mid + ddc + itn + vi + punc + vp + hw, tail, kp);
}

} // verus!
