//! Streaming speech recognition with several providers: a FunASR server over
//! WebSocket, and local sherpa-onnx models.

pub mod funasr;
pub mod local_models;
pub mod transcript;

use vstd::prelude::*;
use crate::text::copy_str;

verus! {

/// What a recognition provider reports.
#[derive(Debug, Clone)]
pub enum AsrEvent {
    Connected,
    /// Partial text, still changing.
    Interim(String),
    /// Text of a finished segment, confirmed but possibly revised later.
    Definite(String),
    /// The final text of the session.
    Final(String),
    Error(String),
    Closed,
}

/// Errors of a recognition provider.
#[derive(Debug)]
pub enum AsrError {
    /// Connecting, or finding and loading a model, failed.
    Connection(String),
    /// The provider broke the protocol or the transport failed.
    Protocol(String),
}

/// Configuration for an ASR session.
pub struct AsrConfig {
    /// WebSocket endpoint URL (e.g. "ws://localhost:10096")
    pub url: String,
    /// Audio sample rate in Hz (default: 16000)
    pub sample_rate_hz: u32,
    /// Connection timeout in milliseconds (default: 3000)
    pub connect_timeout_ms: u64,
    /// Timeout waiting for final ASR result after finish signal (default: 5000)
    pub final_wait_timeout_ms: u64,
    /// Enable ITN (inverse text normalization)
    pub enable_itn: bool,
    /// Hotwords for improved recognition accuracy
    pub hotwords: Vec<String>,
    /// FunASR mode: "2pass", "online", or "offline"
    pub mode: String,
    /// FunASR chunk size for streaming latency control, e.g. [5, 10, 5]
    pub chunk_size: Vec<u32>,
}

impl AsrConfig {
    /// The standard settings: a local FunASR server in 2pass mode.
    pub fn default_config() -> (c: AsrConfig)
        ensures
            c.url@ == "ws://localhost:10096"@,
            c.sample_rate_hz == 16000,
            c.connect_timeout_ms == 3000,
            c.final_wait_timeout_ms == 5000,
            c.enable_itn,
            c.hotwords@.len() == 0,
            c.mode@ == "2pass"@,
            c.chunk_size@ == seq![5u32, 10u32, 5u32],
    {
        let mut chunk_size: Vec<u32> = Vec::new();
        chunk_size.push(5);
        chunk_size.push(10);
        chunk_size.push(5);
        AsrConfig {
            url: copy_str("ws://localhost:10096"),
            sample_rate_hz: 16000,
            connect_timeout_ms: 3000,
            final_wait_timeout_ms: 5000,
            enable_itn: true,
            hotwords: Vec::new(),
            mode: copy_str("2pass"),
            chunk_size,
        }
    }
}

impl Default for AsrConfig {
    fn default() -> (c: AsrConfig)
        ensures
            c.url@ == "ws://localhost:10096"@,
            c.sample_rate_hz == 16000,
            c.connect_timeout_ms == 3000,
            c.final_wait_timeout_ms == 5000,
            c.enable_itn,
            c.hotwords@.len() == 0,
            c.mode@ == "2pass"@,
            c.chunk_size@ == seq![5u32, 10u32, 5u32],
    {
        AsrConfig::default_config()
    }
}

} // verus!
