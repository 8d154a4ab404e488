//! A verified core for an RTMP live-streaming relay: the AMF-0 value codec,
//! the chunk-stream framing layer, the handshake checks, and the per-connection
//! session engine with its publisher/subscriber registry.

pub mod amf;
pub mod constant;
pub mod error;
pub mod server;
pub mod stream;
pub mod utils;
