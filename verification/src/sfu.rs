//! Records kept about the media backend's forwarding state.
//!
//! The media engine itself (transports, producers, consumers) is an external
//! collaborator; only the plain bookkeeping records live here.

use vstd::prelude::*;

verus! {

/// A room as the media backend sees it: the routing node it was assigned and
/// the forwarding endpoints created in it.
#[derive(Clone, Debug)]
pub struct SfuRoom {
    pub id: String,
    pub router_id: String,
    pub producer_id: Option<String>,
    pub consumer_ids: Vec<String>,
}

/// A peer connection as the media backend sees it.
#[derive(Clone, Debug)]
pub struct SfuConnection {
    pub id: String,
    pub is_sender: bool,
    pub transport_id: Option<String>,
    pub producer_id: Option<String>,
    pub consumer_ids: Vec<String>,
}

} // verus!
