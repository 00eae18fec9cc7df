use koe::asr::doubao::{
    build_audio_frame, build_frame, build_full_client_request, build_header, client_request_json,
    event_from_message, parse_server_response, ServerMessage, WsIncoming, COMPRESS_GZIP,
    COMPRESS_NONE, FLAG_LAST_PACKET, FLAG_NONE, MSG_AUDIO_ONLY, MSG_ERROR, MSG_FULL_CLIENT_REQUEST,
    MSG_FULL_SERVER_RESPONSE, SERIAL_JSON, SERIAL_NONE,
};
use koe::asr::{AsrConfig, AsrEvent};
use koe::codec::{gzip_compress, gzip_decompress};
use koe::errors::KoeError;

fn config(hotwords: &[&str]) -> AsrConfig {
    AsrConfig {
        url: "wss://example".into(),
        app_key: "app".into(),
        access_key: "key".into(),
        resource_id: "res".into(),
        sample_rate_hz: 16000,
        connect_timeout_ms: 3000,
        final_wait_timeout_ms: 5000,
        enable_ddc: false,
        enable_itn: true,
        enable_punc: true,
        hotwords: hotwords.iter().map(|s| s.to_string()).collect(),
    }
}

fn protocol_msg(e: KoeError) -> String {
    match e {
        KoeError::AsrProtocol(m) => m,
        other => panic!("unexpected error {:?}", other),
    }
}

#[test]
fn header_layout() {
    assert_eq!(build_header(MSG_FULL_CLIENT_REQUEST, FLAG_NONE, SERIAL_JSON, COMPRESS_GZIP), [0x11, 0x10, 0x11, 0x00]);
    assert_eq!(build_header(MSG_AUDIO_ONLY, FLAG_LAST_PACKET, SERIAL_NONE, COMPRESS_GZIP), [0x11, 0x22, 0x01, 0x00]);
}

#[test]
fn frame_layout_big_endian_size() {
    let f = build_frame([1, 2, 3, 4], &[9, 8, 7]);
    assert_eq!(f, vec![1, 2, 3, 4, 0, 0, 0, 3, 9, 8, 7]);
    let big = vec![0u8; 0x0102];
    let f = build_frame([0; 4], &big);
    assert_eq!(&f[4..8], &[0, 0, 1, 2]);
}

#[test]
fn request_json_matches_serde_json() {
    let cfg = config(&["Rust", "a\"b"]);
    let text = client_request_json(&cfg);
    assert_eq!(
        text,
        "{\"audio\":{\"bits\":16,\"channel\":1,\"codec\":\"raw\",\"format\":\"pcm\",\"rate\":16000},\"request\":{\"enable_ddc\":false,\"enable_itn\":true,\"enable_punc\":true,\"hotwords\":[{\"word\":\"Rust\"},{\"word\":\"a\\\"b\"}],\"model_name\":\"bigmodel\",\"result_type\":\"full\",\"show_utterances\":true},\"user\":{\"uid\":\"koe-app\"}}"
    );
    // The same document as serde_json writes it.
    let v: serde_json::Value = serde_json::from_str(&text).unwrap();
    assert_eq!(serde_json::to_string(&v).unwrap(), text);
    let plain = client_request_json(&config(&[]));
    assert!(!plain.contains("hotwords"));
}

#[test]
fn full_client_request_decompresses_to_json() {
    let cfg = config(&["Kubernetes"]);
    let frame = build_full_client_request(&cfg).unwrap();
    assert_eq!(&frame[0..4], &[0x11, 0x10, 0x11, 0x00]);
    let size = u32::from_be_bytes([frame[4], frame[5], frame[6], frame[7]]) as usize;
    assert_eq!(size, frame.len() - 8);
    let json = gzip_decompress(&frame[8..]).unwrap();
    assert_eq!(String::from_utf8(json).unwrap(), client_request_json(&cfg));
}

#[test]
fn audio_frame_round_trip() {
    let pcm = vec![1u8, 2, 3, 4, 5, 6];
    let frame = build_audio_frame(&pcm, false).unwrap();
    assert_eq!(&frame[0..4], &[0x11, 0x20, 0x01, 0x00]);
    assert_eq!(gzip_decompress(&frame[8..]).unwrap(), pcm);
    let last = build_audio_frame(&[], true).unwrap();
    assert_eq!(last[1], 0x22);
    assert_eq!(gzip_decompress(&last[8..]).unwrap(), Vec::<u8>::new());
}

fn server_frame(flags: u8, serialization: u8, compression: u8, payload: &[u8]) -> Vec<u8> {
    build_frame(build_header(MSG_FULL_SERVER_RESPONSE, flags, serialization, compression), payload)
}

#[test]
fn parse_gzip_json_response() {
    let body = gzip_compress(b"{\"result\":{\"text\":\"hello\",\"utterances\":[]}}").unwrap();
    match parse_server_response(&server_frame(0, SERIAL_JSON, COMPRESS_GZIP, &body)) {
        Ok(ServerMessage::Response { text, is_last }) => {
            assert_eq!(text, "hello");
            assert!(!is_last);
        }
        _ => panic!("expected a response"),
    }
    match parse_server_response(&server_frame(0b0010, SERIAL_JSON, COMPRESS_NONE, b"{\"result\":{}}")) {
        Ok(ServerMessage::Response { text, is_last }) => {
            assert_eq!(text, "");
            assert!(is_last);
        }
        _ => panic!("expected a response"),
    }
}

#[test]
fn parse_response_with_sequence_number() {
    let mut data = vec![0x11, 0x93, 0x10, 0x00, 0xff, 0xff, 0xff, 0xfe];
    let payload = b"{\"result\":{\"text\":\"end\"}}";
    data.extend_from_slice(&(payload.len() as u32).to_be_bytes());
    data.extend_from_slice(payload);
    match parse_server_response(&data) {
        Ok(ServerMessage::Response { text, is_last }) => {
            assert_eq!(text, "end");
            assert!(is_last);
        }
        _ => panic!("expected a response"),
    }
}

#[test]
fn parse_errors() {
    let short = parse_server_response(&[0x11, 0x90]).err().unwrap();
    assert_eq!(protocol_msg(short), "frame too short");
    let no_seq = parse_server_response(&[0x11, 0x91, 0x10, 0x00, 0x00]).err().unwrap();
    assert_eq!(protocol_msg(no_seq), "missing sequence");
    let no_size = parse_server_response(&[0x11, 0x90, 0x10, 0x00, 0x00, 0x00]).err().unwrap();
    assert_eq!(protocol_msg(no_size), "missing payload size");
    let incomplete = parse_server_response(&[0x11, 0x90, 0x10, 0x00, 0, 0, 0, 5, 1, 2]).err().unwrap();
    assert_eq!(protocol_msg(incomplete), "incomplete payload");
    let unknown = parse_server_response(&[0x11, 0x30, 0x10, 0x00]).err().unwrap();
    assert_eq!(protocol_msg(unknown), "unknown message type: 0b0011");
    let bad_gzip = parse_server_response(&server_frame(0, SERIAL_JSON, COMPRESS_GZIP, b"nope")).err().unwrap();
    assert!(protocol_msg(bad_gzip).starts_with("gzip decompress: "));
    let bad_json = parse_server_response(&server_frame(0, SERIAL_JSON, COMPRESS_NONE, b"{oops")).err().unwrap();
    assert!(protocol_msg(bad_json).starts_with("parse JSON: "));
}

#[test]
fn parse_server_error_frames() {
    let mut data = vec![0x11, 0xf0, 0x10, 0x00];
    data.extend_from_slice(&45000001u32.to_be_bytes());
    data.extend_from_slice(&3u32.to_be_bytes());
    data.extend_from_slice(b"bad");
    match parse_server_response(&data) {
        Ok(ServerMessage::Error { code, message }) => {
            assert_eq!(code, 45000001);
            assert_eq!(message, "bad");
        }
        _ => panic!("expected an error message"),
    }
    match parse_server_response(&[0x11, 0xf0, 0x00, 0x00]) {
        Ok(ServerMessage::Error { code, message }) => {
            assert_eq!(code, 0);
            assert_eq!(message, "");
        }
        _ => panic!("expected an error message"),
    }
    match event_from_message(Some(WsIncoming::Binary(data))) {
        Err(KoeError::AsrProtocol(m)) => assert_eq!(m, "server error 45000001: bad"),
        _ => panic!("expected a protocol error"),
    }
}

#[test]
fn events_from_messages() {
    let body = b"{\"result\":{\"text\":\"final words\"}}";
    match event_from_message(Some(WsIncoming::Binary(server_frame(0b0010, SERIAL_JSON, COMPRESS_NONE, body)))) {
        Ok(AsrEvent::Final(t)) => assert_eq!(t, "final words"),
        _ => panic!("expected final"),
    }
    match event_from_message(Some(WsIncoming::Binary(server_frame(0, SERIAL_JSON, COMPRESS_NONE, body)))) {
        Ok(AsrEvent::Interim(t)) => assert_eq!(t, "final words"),
        _ => panic!("expected interim"),
    }
    assert!(matches!(event_from_message(Some(WsIncoming::Close)), Ok(AsrEvent::Closed)));
    assert!(matches!(event_from_message(Some(WsIncoming::Ended)), Ok(AsrEvent::Closed)));
    assert!(matches!(event_from_message(Some(WsIncoming::Other)), Ok(AsrEvent::Interim(t)) if t.is_empty()));
    match event_from_message(Some(WsIncoming::Failed("reset".into()))) {
        Err(KoeError::AsrProtocol(m)) => assert_eq!(m, "reset"),
        _ => panic!("expected a protocol error"),
    }
    match event_from_message(None) {
        Err(KoeError::AsrConnection(m)) => assert_eq!(m, "not connected"),
        _ => panic!("expected a connection error"),
    }
}

#[test]
fn server_error_message_is_lossy_utf8() {
    let mut data = vec![0x11, 0xf0, 0x10, 0x00];
    data.extend_from_slice(&1u32.to_be_bytes());
    data.extend_from_slice(&2u32.to_be_bytes());
    data.extend_from_slice(&[0xff, b'a']);
    match parse_server_response(&data) {
        Ok(ServerMessage::Error { message, .. }) => assert_eq!(message, "\u{fffd}a"),
        _ => panic!("expected an error message"),
    }
    assert_eq!(MSG_ERROR, 0b1111);
}

#[test]
fn gzip_round_trip_keeps_bytes() {
    for data in [Vec::new(), b"koe".to_vec(), vec![0u8; 1000], (0..=255u8).collect::<Vec<u8>>()] {
        let z = gzip_compress(&data).unwrap();
        assert_ne!(z, data);
        assert_eq!(gzip_decompress(&z).unwrap(), data);
    }
}

#[test]
fn built_response_frames_parse_back() {
    let body = b"{\"result\":{\"text\":\"\xe4\xbd\xa0\xe5\xa5\xbd world\"}}".to_vec();
    for (flags, compression) in [(0u8, COMPRESS_NONE), (0b0010, COMPRESS_NONE), (0, COMPRESS_GZIP), (0b0010, COMPRESS_GZIP)] {
        let payload = if compression == COMPRESS_GZIP { gzip_compress(&body).unwrap() } else { body.clone() };
        match parse_server_response(&server_frame(flags, SERIAL_JSON, compression, &payload)) {
            Ok(ServerMessage::Response { text, is_last }) => {
                assert_eq!(text, "你好 world");
                assert_eq!(is_last, flags == 0b0010);
            }
            _ => panic!("expected a response"),
        }
    }
    assert!(matches!(
        parse_server_response(&server_frame(0, SERIAL_JSON, COMPRESS_NONE, b"not json")),
        Err(KoeError::AsrProtocol(m)) if m.starts_with("parse JSON: ")
    ));
}
