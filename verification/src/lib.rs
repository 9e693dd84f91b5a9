//! A signaling relay for one-to-many real-time sessions.
//!
//! A room holds at most one broadcasting participant (the sender) and any
//! number of viewers.  The relay exchanges session descriptions (offers and
//! answers) and connectivity candidates between them; it never moves media
//! itself.  Inbound envelopes are dispatched against the room registry and
//! zero or more outbound envelopes are produced for the transport layer to
//! deliver.

pub mod signaling;
pub mod sfu;
pub mod sfu_simple;
