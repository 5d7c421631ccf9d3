//! The persisted state of a Double-Ratchet session and its byte-exact codec.
//!
//! - `wire`: the byte sink and source, and the big-endian integer encoding;
//! - `keys`: the key material with its fixed-length encodings;
//! - `session`: the state model and its views;
//! - `format`: the wire format as functions on byte strings;
//! - `binary`: the encoders and decoders;
//! - `order`: the order in which a session's states are written;
//! - `error`: why a decode stopped;
//! - `laws`: what holds of the format.

pub mod binary;
pub mod error;
pub mod format;
pub mod keys;
pub mod laws;
pub mod order;
pub mod session;
pub mod wire;
