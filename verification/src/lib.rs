//! Per-user accounting of cumulative voice-session time.
//!
//! The crate is the single-owner core of a voice-time tracker: an accounting
//! store that applies presence events, an opt-out exclusion list, a query over
//! settled totals, a flat little-endian persistence codec, and the message
//! handler that a worker thread drains one message at a time.
//!
//! All identifiers (users, communities, channels) are opaque 64-bit values;
//! durations are unsigned 64-bit second counts with saturating accumulation.

pub mod actor;
pub mod codec;
pub mod control;
pub mod store;
