//! Verified core of a co-op multiplayer replication system: the wire protocol
//! and display-name rules, the NDJSON session event log, the server's
//! handshake and per-connection state machine, the bridge's handshake and
//! offline buffer, session replay, and the divergence analysis of two
//! unsynchronised game instances.
pub mod text;
pub mod json;
pub mod proto;
pub mod event_log;
pub mod session;
pub mod server;
pub mod offline_buffer;
pub mod bridge;
pub mod replay;
pub mod divergence;
