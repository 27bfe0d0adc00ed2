//! Core logic of a multi-peer Moonlight/WebRTC streaming bridge.
//!
//! The crate holds the parts of the bridge that decide and compute: the
//! H.264 Annex B reader, the peer registries, the input aggregation rules,
//! the media fan-out and the session and pairing decisions. Sockets, child
//! processes and the Moonlight protocol stack live around it.

pub mod annexb;
pub mod broadcaster;
pub mod channel;
pub mod h264;
pub mod hold_table;
pub mod input_aggregator;
pub mod keyed_table;
pub mod pairing;
pub mod streamers;
pub mod reader;
pub mod session;
pub mod signaling;
