//! Client core for a JSON-over-HTTP API with resumable Server-Sent-Event
//! streams: status classification, error-payload codec, incremental SSE
//! frame decoding, and the reconnecting stream state machine.

pub mod bytes;
pub mod utf8;
pub mod sse;
pub mod error;
pub mod horizon_error;
pub mod stream;
pub mod dispatch;
pub mod client;
pub mod status;
