use vstd::prelude::*;
use crate::text::{copy_str, decimal, push_str, u64_to_decimal};

verus! {

broadcast use vstd::string::group_string_axioms;

/// Milliseconds between two instants given in nanoseconds on a monotonic
/// clock; zero when `end` is not after `start`.
pub open spec fn elapsed_ms(start: u64, end: u64) -> nat {
    if end >= start { ((end - start) as nat) / 1_000_000 } else { 0 }
}

pub open spec fn span_ms(start: Option<u64>, end: Option<u64>) -> Option<nat> {
    match (start, end) {
        (Some(s), Some(e)) => Some(elapsed_ms(s, e)),
        _ => None,
    }
}

/// What `format!("{:?}", s)` writes for a string: the string quoted, with
/// Rust's debug escapes.
pub uninterp spec fn debug_quoted(s: Seq<char>) -> Seq<char>;

/// Writes `s` with `{:?}` (`<str as Debug>::fmt`).
#[verifier::external_body]
fn debug_str(s: &str) -> (r: String)
    ensures
        r@ == debug_quoted(s@),
{
    format!("{:?}", s)
}

/// Metrics collected for each session. Instants are nanoseconds on a
/// monotonic clock.
pub struct SessionMetrics {
    pub session_id: String,
    pub hotkey_start: Option<u64>,
    pub hotkey_end: Option<u64>,
    pub asr_connect_start: Option<u64>,
    pub asr_connected: Option<u64>,
    pub asr_final_received: Option<u64>,
    pub llm_start: Option<u64>,
    pub llm_end: Option<u64>,
    pub paste_done: Option<u64>,
    pub clipboard_restored: Option<u64>,
    pub error_type: Option<String>,
    pub auto_pasted: bool,
}

pub open spec fn opt_nat(o: Option<u64>) -> Option<nat> {
    match o {
        Some(v) => Some(v as nat),
        None => None,
    }
}

/// A duration as the summary shows it: milliseconds, or `?` when unknown.
pub open spec fn duration_text(d: Option<nat>) -> Seq<char> {
    match d {
        Some(v) => decimal(v),
        None => "?"@,
    }
}

impl SessionMetrics {
    pub fn new(session_id: &str) -> (m: SessionMetrics)
        ensures
            m.session_id@ == session_id@,
            m.hotkey_start is None,
            m.hotkey_end is None,
            m.asr_connect_start is None,
            m.asr_connected is None,
            m.asr_final_received is None,
            m.llm_start is None,
            m.llm_end is None,
            m.paste_done is None,
            m.clipboard_restored is None,
            m.error_type is None,
            !m.auto_pasted,
    {
        SessionMetrics {
            session_id: copy_str(session_id),
            hotkey_start: None,
            hotkey_end: None,
            asr_connect_start: None,
            asr_connected: None,
            asr_final_received: None,
            llm_start: None,
            llm_end: None,
            paste_done: None,
            clipboard_restored: None,
            error_type: None,
            auto_pasted: false,
        }
    }

    pub fn duration_ms(start: Option<u64>, end: Option<u64>) -> (r: Option<u64>)
        ensures
            opt_nat(r) == span_ms(start, end),
    {
        match (start, end) {
            (Some(s), Some(e)) => {
                if e >= s {
                    Some((e - s) / 1_000_000)
                } else {
                    Some(0)
                }
            },
            _ => None,
        }
    }

    pub open spec fn recording_ms(&self) -> Option<nat> {
        span_ms(self.hotkey_start, self.hotkey_end)
    }

    pub open spec fn asr_connect_ms(&self) -> Option<nat> {
        span_ms(self.asr_connect_start, self.asr_connected)
    }

    pub open spec fn asr_finalize_ms(&self) -> Option<nat> {
        span_ms(self.hotkey_end, self.asr_final_received)
    }

    pub open spec fn llm_ms(&self) -> Option<nat> {
        span_ms(self.llm_start, self.llm_end)
    }

    pub fn recording_duration_ms(&self) -> (r: Option<u64>)
        ensures
            opt_nat(r) == self.recording_ms(),
    {
        Self::duration_ms(self.hotkey_start, self.hotkey_end)
    }

    pub fn asr_connect_duration_ms(&self) -> (r: Option<u64>)
        ensures
            opt_nat(r) == self.asr_connect_ms(),
    {
        Self::duration_ms(self.asr_connect_start, self.asr_connected)
    }

    pub fn asr_finalize_duration_ms(&self) -> (r: Option<u64>)
        ensures
            opt_nat(r) == self.asr_finalize_ms(),
    {
        Self::duration_ms(self.hotkey_end, self.asr_final_received)
    }

    pub fn llm_duration_ms(&self) -> (r: Option<u64>)
        ensures
            opt_nat(r) == self.llm_ms(),
    {
        Self::duration_ms(self.llm_start, self.llm_end)
    }

    /// The one-line report of the session.
    pub open spec fn summary_text(&self) -> Seq<char> {
        "session="@ + self.session_id@ + " recording="@ + duration_text(self.recording_ms())
            + "ms asr_connect="@ + duration_text(self.asr_connect_ms()) + "ms asr_finalize="@
            + duration_text(self.asr_finalize_ms()) + "ms llm="@ + duration_text(self.llm_ms())
            + "ms pasted="@ + (if self.auto_pasted { "true"@ } else { "false"@ }) + " error="@ + (
        match self.error_type {
            Some(e) => "Some("@ + debug_quoted(e@) + ")"@,
            None => "None"@,
        })
    }

    /// One-line report of the session for the log.
    pub fn summary(&self) -> (s: String)
        ensures
            s@ == self.summary_text(),
    {
        let mut s = String::new();
        push_str(&mut s, "session=");
        push_str(&mut s, self.session_id.as_str());
        push_str(&mut s, " recording=");
        push_duration(&mut s, self.recording_duration_ms());
        push_str(&mut s, "ms asr_connect=");
        push_duration(&mut s, self.asr_connect_duration_ms());
        push_str(&mut s, "ms asr_finalize=");
        push_duration(&mut s, self.asr_finalize_duration_ms());
        push_str(&mut s, "ms llm=");
        push_duration(&mut s, self.llm_duration_ms());
        push_str(&mut s, "ms pasted=");
        if self.auto_pasted {
            push_str(&mut s, "true");
        } else {
            push_str(&mut s, "false");
        }
        push_str(&mut s, " error=");
        match &self.error_type {
            Some(e) => {
                push_str(&mut s, "Some(");
                let q = debug_str(e.as_str());
                push_str(&mut s, q.as_str());
                push_str(&mut s, ")");
            },
            None => push_str(&mut s, "None"),
        }
        s
    }
}

fn push_duration(s: &mut String, d: Option<u64>)
    ensures
        final(s)@ == old(s)@ + duration_text(opt_nat(d)),
{
    match d {
        Some(v) => {
            let t = u64_to_decimal(v);
            push_str(s, t.as_str());
        },
        None => push_str(s, "?"),
    }
}

} // verus!
