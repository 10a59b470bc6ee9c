//! The streaming (WebSocket) side of the exchange.
pub mod client;
pub mod fast_models;

pub use client::{BybitError, BybitWebSocket};
