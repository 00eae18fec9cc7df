use vstd::prelude::*;

verus! {

/// Request for LLM text correction.
pub struct CorrectionRequest {
    pub asr_text: String,
    pub dictionary_entries: Vec<String>,
    pub system_prompt: String,
    pub user_prompt: String,
}

} // verus!
