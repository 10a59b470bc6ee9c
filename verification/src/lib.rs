//! Bybit V5 client library: option-symbol decoding and the bookkeeping
//! behind the streaming (WebSocket) client, with the requests it sends.

pub mod auth;
pub mod json;
pub mod utils;
pub mod websocket;

pub use websocket::client::BybitError;
