use koe::streaming::funasr::{
    build_finish_message, build_init_message, hotword_table, FunAsrIncoming, FunAsrSession,
};
use koe::streaming::local_models::{
    discover_model_files, find_model_files, offline_result_event, plan_recognizer, StreamingText,
};
use koe::streaming::transcript::TranscriptAggregator;
use koe::streaming::{AsrConfig, AsrError, AsrEvent};

#[test]
fn test_default_config() {
    let config = AsrConfig::default();
    assert_eq!(config.sample_rate_hz, 16000);
    assert_eq!(config.url, "ws://localhost:10096");
    assert_eq!(config.mode, "2pass");
    assert_eq!(config.chunk_size, vec![5, 10, 5]);
    assert!(config.enable_itn);
    assert!(config.hotwords.is_empty());
}

#[test]
fn test_custom_config() {
    let config = AsrConfig {
        url: "ws://localhost:9090".into(),
        hotwords: vec!["Rust".into(), "Tokio".into()],
        mode: "online".into(),
        ..Default::default()
    };
    assert_eq!(config.url, "ws://localhost:9090");
    assert_eq!(config.hotwords.len(), 2);
    assert_eq!(config.mode, "online");
}

#[test]
fn test_transcript_aggregator_interim() {
    let mut agg = TranscriptAggregator::new();
    assert!(!agg.has_any_text());
    assert!(!agg.has_final_result());

    agg.update_interim("hello");
    assert!(agg.has_any_text());
    assert_eq!(agg.best_text(), "hello");

    agg.update_interim("hello world");
    assert_eq!(agg.best_text(), "hello world");
    assert_eq!(agg.interim_history(10).len(), 2);
}

#[test]
fn test_transcript_aggregator_definite_overrides_interim() {
    let mut agg = TranscriptAggregator::new();
    agg.update_interim("interim text");
    agg.update_definite("definite text");
    assert_eq!(agg.best_text(), "definite text");
}

#[test]
fn test_transcript_aggregator_final_overrides_all() {
    let mut agg = TranscriptAggregator::new();
    agg.update_interim("interim");
    agg.update_definite("definite");
    agg.update_final("final result");
    assert!(agg.has_final_result());
    assert_eq!(agg.best_text(), "final result");
}

#[test]
fn test_transcript_aggregator_history_limit() {
    let mut agg = TranscriptAggregator::new();
    for i in 0..20 {
        agg.update_interim(&format!("revision {i}"));
    }
    let history = agg.interim_history(5);
    assert_eq!(history.len(), 5);
    assert_eq!(history[0], "revision 15");
    assert_eq!(history[4], "revision 19");
}

#[test]
fn test_transcript_aggregator_dedup_consecutive() {
    let mut agg = TranscriptAggregator::new();
    agg.update_interim("same text");
    agg.update_interim("same text");
    agg.update_interim("same text");
    assert_eq!(agg.interim_history(10).len(), 1);
}

#[test]
fn test_asr_event_variants() {
    // Ensure all variants can be constructed and debug-printed
    let events = vec![
        AsrEvent::Connected,
        AsrEvent::Interim("partial".into()),
        AsrEvent::Definite("confirmed".into()),
        AsrEvent::Final("done".into()),
        AsrEvent::Error("oops".into()),
        AsrEvent::Closed,
    ];
    for event in &events {
        let _ = format!("{:?}", event);
    }
    assert_eq!(events.len(), 6);
}

// ─── Further scenarios ──────────────────────────────────────────────

#[test]
fn aggregator_repeats_allowed_when_not_consecutive() {
    let mut agg = TranscriptAggregator::new();
    agg.update_interim("a");
    agg.update_interim("b");
    agg.update_interim("a");
    assert_eq!(agg.interim_history(10), vec!["a".to_string(), "b".to_string(), "a".to_string()]);
    assert_eq!(agg.interim_history(0).len(), 0);
}

#[test]
fn funasr_hotword_table_sorted_and_unique() {
    let hw = vec!["Tokio".to_string(), "Rust".to_string(), "Tokio".to_string(), "a\"b".to_string()];
    assert_eq!(hotword_table(&hw), "{\"Rust\":20,\"Tokio\":20,\"a\\\"b\":20}");
    assert_eq!(hotword_table(&[]), "");
}

#[test]
fn funasr_init_message_layout() {
    let config = AsrConfig { hotwords: vec!["Rust".into()], ..Default::default() };
    assert_eq!(
        build_init_message(&config),
        "{\"audio_fs\":16000,\"chunk_size\":[5,10,5],\"hotwords\":\"{\\\"Rust\\\":20}\",\"is_speaking\":true,\"itn\":true,\"mode\":\"2pass\",\"wav_format\":\"pcm\",\"wav_name\":\"koe\"}"
    );
    let plain = AsrConfig::default();
    assert_eq!(
        build_init_message(&plain),
        "{\"audio_fs\":16000,\"chunk_size\":[5,10,5],\"hotwords\":\"\",\"is_speaking\":true,\"itn\":true,\"mode\":\"2pass\",\"wav_format\":\"pcm\",\"wav_name\":\"koe\"}"
    );
    assert_eq!(build_finish_message(), "{\"is_speaking\":false}");
}

#[test]
fn funasr_events_by_mode() {
    let mut s = FunAsrSession::new();
    let text = |t: &str| Some(FunAsrIncoming::Text(t.to_string()));
    match s.on_message(text("{\"mode\":\"2pass-online\",\"text\":\"he\"}")) {
        Ok(AsrEvent::Interim(t)) => assert_eq!(t, "he"),
        other => panic!("unexpected {:?}", other),
    }
    match s.on_message(text("{\"mode\":\"2pass-offline\",\"text\":\"hello\"}")) {
        Ok(AsrEvent::Definite(t)) => assert_eq!(t, "hello"),
        other => panic!("unexpected {:?}", other),
    }
    match s.on_message(text("{\"mode\":\"strange\",\"text\":\"x\"}")) {
        Ok(AsrEvent::Interim(t)) => assert_eq!(t, "x"),
        other => panic!("unexpected {:?}", other),
    }
    match s.on_message(text("{\"mode\":\"offline\",\"text\":\"done\",\"is_final\":true}")) {
        Ok(AsrEvent::Final(t)) => assert_eq!(t, "done"),
        other => panic!("unexpected {:?}", other),
    }
    assert!(s.closed);
    assert!(matches!(s.on_message(text("{\"text\":\"late\"}")), Ok(AsrEvent::Closed)));
}

#[test]
fn funasr_errors() {
    let mut s = FunAsrSession::new();
    match s.on_message(Some(FunAsrIncoming::Text("not json".to_string()))) {
        Err(AsrError::Protocol(m)) => assert!(m.starts_with("parse JSON: ")),
        other => panic!("unexpected {:?}", other),
    }
    match s.on_message(None) {
        Err(AsrError::Connection(m)) => assert_eq!(m, "not connected"),
        other => panic!("unexpected {:?}", other),
    }
    match s.on_message(Some(FunAsrIncoming::Failed("boom".to_string()))) {
        Err(AsrError::Protocol(m)) => assert_eq!(m, "boom"),
        other => panic!("unexpected {:?}", other),
    }
    assert!(matches!(s.on_message(Some(FunAsrIncoming::Other)), Ok(AsrEvent::Interim(t)) if t.is_empty()));
    assert!(!s.closed);
    assert!(matches!(s.on_message(Some(FunAsrIncoming::Close)), Ok(AsrEvent::Closed)));
    assert!(s.closed);
}

fn entries(names: &[&str]) -> Vec<(String, String)> {
    names.iter().map(|n| (n.to_string(), format!("/m/{n}"))).collect()
}

#[test]
fn sense_voice_model_prefers_int8() {
    let e = entries(&["model.onnx", "tokens.txt", "model.int8.onnx"]);
    let (model, tokens) = find_model_files(&e, "/m").unwrap();
    assert_eq!(model, "/m/model.int8.onnx");
    assert_eq!(tokens, "/m/tokens.txt");
    let e = entries(&["model.onnx", "tokens.txt"]);
    assert_eq!(find_model_files(&e, "/m").unwrap().0, "/m/model.onnx");
}

#[test]
fn sense_voice_model_missing_files() {
    match find_model_files(&entries(&["tokens.txt"]), "/m") {
        Err(AsrError::Connection(m)) => assert_eq!(m, "no .onnx model found in /m"),
        other => panic!("unexpected {:?}", other.map(|_| ())),
    }
    match find_model_files(&entries(&["a.onnx"]), "/m") {
        Err(AsrError::Connection(m)) => assert_eq!(m, "no tokens.txt found in /m"),
        other => panic!("unexpected {:?}", other.map(|_| ())),
    }
}

#[test]
fn sherpa_model_discovery() {
    let e = entries(&[
        "Encoder-epoch-99.onnx",
        "encoder-epoch-99.int8.onnx",
        "decoder-epoch-99.onnx",
        "joiner-epoch-99.int8.onnx",
        "tokens.txt",
        "bpe.vocab",
    ]);
    let f = discover_model_files(&e, "/m").unwrap();
    assert_eq!(f.encoder, "/m/encoder-epoch-99.int8.onnx");
    assert_eq!(f.decoder, "/m/decoder-epoch-99.onnx");
    assert_eq!(f.joiner.as_deref(), Some("/m/joiner-epoch-99.int8.onnx"));
    assert_eq!(f.tokens, "/m/tokens.txt");
    assert_eq!(f.bpe_vocab.as_deref(), Some("/m/bpe.vocab"));
    let plan = plan_recognizer(&f, true);
    assert!(plan.transducer && plan.use_hotwords);
    assert_eq!(plan.decoding_method, "modified_beam_search");
    assert_eq!(plan.modeling_unit.as_deref(), Some("cjkchar+bpe"));

    let para = entries(&["encoder.onnx", "decoder.onnx", "tokens.txt"]);
    let f = discover_model_files(&para, "/m").unwrap();
    assert!(f.joiner.is_none());
    let plan = plan_recognizer(&f, true);
    assert!(!plan.use_hotwords);
    assert_eq!(plan.decoding_method, "greedy_search");

    match discover_model_files(&entries(&["decoder.onnx", "tokens.txt"]), "/m") {
        Err(AsrError::Connection(m)) => assert_eq!(m, "no encoder model found in /m"),
        _ => panic!("expected an error"),
    }
    match discover_model_files(&entries(&["encoder.onnx", "tokens.txt"]), "/m") {
        Err(AsrError::Connection(m)) => assert_eq!(m, "no decoder model found in /m"),
        _ => panic!("expected an error"),
    }
    match discover_model_files(&entries(&["encoder.onnx", "decoder.onnx"]), "/m") {
        Err(AsrError::Connection(m)) => assert_eq!(m, "no tokens.txt found in /m"),
        _ => panic!("expected an error"),
    }
}

#[test]
fn streaming_text_accumulates_segments() {
    let mut st = StreamingText::new();
    match st.on_partial(Some(" hel ".to_string())) {
        Some(AsrEvent::Interim(t)) => assert_eq!(t, "hel"),
        _ => panic!("expected interim"),
    }
    assert!(st.on_partial(Some("hel".to_string())).is_none());
    match st.on_endpoint(Some("hello".to_string())) {
        Some(AsrEvent::Definite(t)) => assert_eq!(t, "hello"),
        _ => panic!("expected definite"),
    }
    match st.on_partial(Some("wor".to_string())) {
        Some(AsrEvent::Interim(t)) => assert_eq!(t, "hello wor"),
        _ => panic!("expected interim"),
    }
    assert!(st.on_endpoint(Some("  ".to_string())).is_none());
    match st.on_finish(Some("world".to_string())) {
        AsrEvent::Final(t) => assert_eq!(t, "hello world"),
        _ => panic!("expected final"),
    }
    let mut empty = StreamingText::new();
    assert!(matches!(empty.on_finish(None), AsrEvent::Closed));
}

#[test]
fn offline_result_events() {
    assert!(matches!(offline_result_event(true, Some("x".into())), AsrEvent::Closed));
    assert!(matches!(offline_result_event(false, Some("  ".into())), AsrEvent::Closed));
    assert!(matches!(offline_result_event(false, None), AsrEvent::Closed));
    match offline_result_event(false, Some(" hi ".into())) {
        AsrEvent::Final(t) => assert_eq!(t, "hi"),
        _ => panic!("expected final"),
    }
}

#[test]
fn funasr_members_of_other_types_read_as_absent() {
    let mut s = FunAsrSession::new();
    match s.on_message(Some(FunAsrIncoming::Text("[1,2]".to_string()))) {
        Ok(AsrEvent::Interim(t)) => assert!(t.is_empty()),
        other => panic!("unexpected {:?}", other),
    }
    match s.on_message(Some(FunAsrIncoming::Text("{\"text\":7,\"is_final\":\"yes\",\"mode\":\"offline\"}".to_string()))) {
        Ok(AsrEvent::Definite(t)) => assert!(t.is_empty()),
        other => panic!("unexpected {:?}", other),
    }
    assert!(!s.closed);
}
