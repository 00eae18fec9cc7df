//! Core logic of the Koe voice-input tool: text correction, prompt
//! construction, the streaming ASR wire protocol and session bookkeeping.

pub mod asr;
pub mod audio_buffer;
pub mod codec;
pub mod dictionary;
pub mod errors;
pub mod json;
pub mod llm;
pub mod prompt;
pub mod spellfix;
pub mod streaming;
pub mod telemetry;
pub mod text;
