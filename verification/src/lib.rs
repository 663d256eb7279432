//! An in-memory key-value store speaking a line-oriented wire protocol.
//!
//! The crate has three parts: a codec that turns a byte stream into typed
//! frames and back (`resp`), a command model that maps frames to operations
//! (`command`), and a keyed store with lazy time-based expiry (`store`).
//! All payloads are byte strings; the connection driver that owns the socket
//! and the clock lives outside this crate and hands in plain bytes and a
//! current time in milliseconds.

pub mod decimal;
pub mod laws;
pub mod resp;
pub mod command;
pub mod store;
