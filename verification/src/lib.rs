//! Session log normalization: decoding raw terminal-session logs into typed
//! events, reconstructing canonical cast recordings, merging heartbeat pulses
//! into coverage intervals, and planning the commit of the derived artifacts.

pub mod cast;
pub mod commit;
pub mod decode;
pub mod events;
pub mod filename;
pub mod fmt;
pub mod interval;
pub mod pipeline;
pub mod render;
pub mod session;
pub mod strip;
pub mod upload;
