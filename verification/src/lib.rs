//! Grain-side WebSocket backend core.
//!
//! - `web_socket`: the wire format — opcodes, frame encoding, and the
//!   incrementally-resumable frame parser.
//! - `adapter`: message reassembly over the parser, the handler dispatch,
//!   the liveness (ping/pong) protocol and the outbound frame queue.
//! - `supervisor`: the fire-and-forget task registry with its single
//!   failure observer.
//! - `views`: the saved-view registry and the status events it broadcasts.
//! - `json`: string escaping and the status-event serializers.
//! - `identity`: identity keys, web tokens and persisted sturdyref links.
//! - `web_session`: the web session itself, request routing and the canonical-path guard.
//! - `laws`: the properties proved across these parts — chunking
//!   invariance, decode of every length form, mask transparency, and the
//!   closed-state guarantees.

pub mod adapter;
pub mod identity;
pub mod json;
pub mod laws;
pub mod web_session;
pub mod supervisor;
pub mod views;
pub mod web_socket;
