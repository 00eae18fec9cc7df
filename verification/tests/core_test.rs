use koe::audio_buffer::AudioBuffer;
use koe::dictionary::parse_dictionary;
use koe::errors::KoeError;
use koe::prompt::{
    build_default_system_prompt, build_default_user_prompt_template, filter_dictionary_candidates,
    render_user_prompt, replace_str, system_prompt_from, user_prompt_template_from,
};
use koe::telemetry::SessionMetrics;

fn strings(v: &[&str]) -> Vec<String> {
    v.iter().map(|s| s.to_string()).collect()
}

#[test]
fn audio_buffer_keeps_newest_frames() {
    let mut b = AudioBuffer::new(100, 20);
    assert!(b.is_empty());
    for i in 0..7u8 {
        b.push(vec![i]);
    }
    assert_eq!(b.len(), 5);
    assert_eq!(b.drain(), vec![vec![2], vec![3], vec![4], vec![5], vec![6]]);
    assert!(b.is_empty());
    assert_eq!(b.drain(), Vec::<Vec<u8>>::new());
}

#[test]
fn audio_buffer_without_room_keeps_nothing() {
    let mut b = AudioBuffer::new(100, 0);
    b.push(vec![1]);
    assert!(b.is_empty());
    let mut c = AudioBuffer::new(10, 20);
    c.push(vec![1]);
    assert_eq!(c.len(), 0);
}

#[test]
fn audio_buffer_clear() {
    let mut b = AudioBuffer::new(60, 20);
    b.push(vec![1, 2]);
    b.push(vec![3]);
    b.clear();
    assert_eq!(b.len(), 0);
    b.push(vec![4]);
    assert_eq!(b.drain(), vec![vec![4]]);
}

#[test]
fn render_prompt_replaces_placeholders() {
    let template = "T: {{asr_text}} | D: {{dictionary_entries}} | {{asr_text}}";
    let out = render_user_prompt(template, "hi", &strings(&["Rust", "Go"]));
    assert_eq!(out, "T: hi | D: Rust\nGo | hi");
    let empty = render_user_prompt(template, "x", &[]);
    assert_eq!(empty, "T: x | D: （无） | x");
}

#[test]
fn render_prompt_does_not_rescan_inserted_text() {
    // The transcript holds the dictionary placeholder: the second
    // replacement sees it, as with two successive `str::replace` calls.
    let out = render_user_prompt("{{asr_text}}", "{{dictionary_entries}}", &strings(&["A"]));
    assert_eq!(out, "A");
    assert_eq!(replace_str("aaa", "aa", "b"), "ba");
}

#[test]
fn default_prompts() {
    let t = build_default_user_prompt_template();
    assert_eq!(t, "ASR transcript:\n{{asr_text}}\n\nUser dictionary:\n{{dictionary_entries}}\n\nOutput the corrected text only.");
    let s = build_default_system_prompt();
    assert!(s.starts_with("You are a speech-to-text post-processor"));
    assert!(s.contains("\n1. Preserve the original meaning."));
    assert!(s.ends_with("no quotation marks."));
}

#[test]
fn prompt_files_fall_back_to_defaults() {
    assert_eq!(system_prompt_from(None), build_default_system_prompt());
    assert_eq!(system_prompt_from(Some("  \n ")), build_default_system_prompt());
    assert_eq!(system_prompt_from(Some("  custom  \n")), "custom");
    assert_eq!(user_prompt_template_from(None), build_default_user_prompt_template());
    assert_eq!(user_prompt_template_from(Some("\tmine {{asr_text}}\n")), "mine {{asr_text}}");
}

#[test]
fn filter_keeps_small_dictionaries() {
    let d = strings(&["b", "a"]);
    assert_eq!(filter_dictionary_candidates(&d, "zzz", 2), d);
}

#[test]
fn filter_ranks_by_overlap_and_substring() {
    let d = strings(&["Kubernetes", "Redis", "Go", "xyz"]);
    // "redis" occurs in the transcript: 5 shared letters + 5 bytes * 10.
    let out = filter_dictionary_candidates(&d, "use REDIS and k8s", 2);
    assert_eq!(out, strings(&["Redis", "Kubernetes"]));
}

#[test]
fn filter_ties_keep_dictionary_order() {
    let d = strings(&["ab", "ba", "cc"]);
    let out = filter_dictionary_candidates(&d, "ab", 2);
    // "ab": 2 + 20 (substring); "ba": 2; "cc": 0.
    assert_eq!(out, strings(&["ab", "ba"]));
    // One shared letter each, no substring: dictionary order decides.
    let tie = filter_dictionary_candidates(&strings(&["qa", "pa", "ra"]), "az", 2);
    assert_eq!(tie, strings(&["qa", "pa"]));
}

#[test]
fn filter_drops_entries_without_shared_characters() {
    let d = strings(&["cc", "ab", "dd"]);
    assert_eq!(filter_dictionary_candidates(&d, "ab", 2), strings(&["ab"]));
    let none = filter_dictionary_candidates(&strings(&["qq", "pp", "rr"]), "z", 2);
    assert!(none.is_empty());
}

#[test]
fn dictionary_parsing() {
    let content = "# comment\nCloudflare\n\n  PostgreSQL  \r\nKubernetes\nCloudflare\n#x\nGitHub Actions";
    assert_eq!(
        parse_dictionary(content),
        strings(&["Cloudflare", "PostgreSQL", "Kubernetes", "GitHub Actions"])
    );
    assert!(parse_dictionary("").is_empty());
}

#[test]
fn error_messages() {
    assert_eq!(KoeError::Config("bad".into()).message(), "config error: bad");
    assert_eq!(KoeError::AsrTimeout.message(), "ASR final result timed out");
    assert_eq!(KoeError::LlmTimeout.message(), "LLM correction timed out");
    assert_eq!(KoeError::AsrProtocol("x".into()).message(), "ASR protocol error: x");
    assert_eq!(
        KoeError::SessionInvalidState { from: "Idle".into(), action: "stop".into() }.message(),
        "invalid state transition: stop from Idle"
    );
    assert_eq!(KoeError::Internal("z".into()).message(), "internal error: z");
}

#[test]
fn session_durations() {
    let mut m = SessionMetrics::new("s1");
    assert_eq!(m.recording_duration_ms(), None);
    m.hotkey_start = Some(1_000_000_000);
    m.hotkey_end = Some(3_500_000_000);
    m.asr_connect_start = Some(10_000_000);
    m.asr_connected = Some(5_000_000);
    m.llm_start = Some(0);
    m.llm_end = Some(999_999);
    assert_eq!(m.recording_duration_ms(), Some(2500));
    assert_eq!(m.asr_connect_duration_ms(), Some(0));
    assert_eq!(m.asr_finalize_duration_ms(), None);
    assert_eq!(m.llm_duration_ms(), Some(0));
}

#[test]
fn session_summary_line() {
    let mut m = SessionMetrics::new("abc");
    m.hotkey_start = Some(0);
    m.hotkey_end = Some(1_200_000_000);
    m.auto_pasted = true;
    assert_eq!(
        m.summary(),
        "session=abc recording=1200ms asr_connect=?ms asr_finalize=?ms llm=?ms pasted=true error=None"
    );
    m.error_type = Some("time\"out".into());
    assert!(m.summary().ends_with("pasted=true error=Some(\"time\\\"out\")"));
}
