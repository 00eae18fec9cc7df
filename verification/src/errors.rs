use vstd::prelude::*;
use crate::text::push_str;

verus! {

/// Errors of the Koe core.
#[derive(Debug)]
pub enum KoeError {
    Config(String),
    AsrConnection(String),
    AsrTimeout,
    AsrProtocol(String),
    LlmFailed(String),
    LlmTimeout,
    SessionInvalidState { from: String, action: String },
    PermissionDenied(String),
    PasteFailed(String),
    AudioBuffer(String),
    Internal(String),
}

impl KoeError {
    /// The human-readable description of the error.
    pub open spec fn description(&self) -> Seq<char> {
        match self {
            KoeError::Config(msg) => "config error: "@ + msg@,
            KoeError::AsrConnection(msg) => "ASR connection failed: "@ + msg@,
            KoeError::AsrTimeout => "ASR final result timed out"@,
            KoeError::AsrProtocol(msg) => "ASR protocol error: "@ + msg@,
            KoeError::LlmFailed(msg) => "LLM correction failed: "@ + msg@,
            KoeError::LlmTimeout => "LLM correction timed out"@,
            KoeError::SessionInvalidState { from, action } => "invalid state transition: "@ + action@
                + " from "@ + from@,
            KoeError::PermissionDenied(msg) => "permission denied: "@ + msg@,
            KoeError::PasteFailed(msg) => "paste failed: "@ + msg@,
            KoeError::AudioBuffer(msg) => "audio buffer error: "@ + msg@,
            KoeError::Internal(msg) => "internal error: "@ + msg@,
        }
    }

    /// Renders the error as text (what `Display` shows).
    pub fn message(&self) -> (r: String)
        ensures
            r@ == self.description(),
    {
        let (prefix, detail): (&str, Option<&String>) = match self {
            KoeError::Config(msg) => ("config error: ", Some(msg)),
            KoeError::AsrConnection(msg) => ("ASR connection failed: ", Some(msg)),
            KoeError::AsrTimeout => ("ASR final result timed out", None),
            KoeError::AsrProtocol(msg) => ("ASR protocol error: ", Some(msg)),
            KoeError::LlmFailed(msg) => ("LLM correction failed: ", Some(msg)),
            KoeError::LlmTimeout => ("LLM correction timed out", None),
            KoeError::SessionInvalidState { from, action } => {
                let mut s = String::new();
                push_str(&mut s, "invalid state transition: ");
                push_str(&mut s, action.as_str());
                push_str(&mut s, " from ");
                push_str(&mut s, from.as_str());
                return s;
            },
            KoeError::PermissionDenied(msg) => ("permission denied: ", Some(msg)),
            KoeError::PasteFailed(msg) => ("paste failed: ", Some(msg)),
            KoeError::AudioBuffer(msg) => ("audio buffer error: ", Some(msg)),
            KoeError::Internal(msg) => ("internal error: ", Some(msg)),
        };
        let mut s = String::new();
        push_str(&mut s, prefix);
        match detail {
            Some(d) => push_str(&mut s, d.as_str()),
            None => {},
        }
        s
    }
}

} // verus!
