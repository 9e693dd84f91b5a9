use sfu_relay::sfu_simple::SimpleSfuManager;
use sfu_relay::signaling::{MessageData, MissingField, SignalingMessage, SignalingMessageType};

fn msg(
    message_type: SignalingMessageType,
    connection_id: Option<&str>,
    data: Option<MessageData>,
    is_sender: Option<bool>,
) -> SignalingMessage {
    SignalingMessage {
        message_type,
        connection_id: connection_id.map(|s| s.to_string()),
        sender_id: None,
        offer_id: None,
        data,
        is_sender,
    }
}

fn sdp_data(sdp: &str) -> Option<MessageData> {
    Some(MessageData::Sdp { sdp: sdp.to_string() })
}

fn candidate_data(candidate: &str) -> Option<MessageData> {
    Some(MessageData::Candidate { candidate: candidate.to_string() })
}

#[test]
fn create_room_is_idempotent() {
    let mut mgr = SimpleSfuManager::new();
    mgr.create_room("r1".to_string());
    let joined = mgr.add_connection("r1", "s1".to_string(), true);
    assert_eq!(joined.len(), 0);
    let joined = mgr.add_connection("r1", "v1".to_string(), false);
    assert_eq!(joined.len(), 0);

    // a second create_room for the same id must not corrupt membership
    mgr.create_room("r1".to_string());
    let room = mgr.get_room("r1").expect("room should exist");
    assert_eq!(room.sender_id.as_deref(), Some("s1"));
    assert_eq!(room.viewer_ids, vec!["v1".to_string()]);
}

#[test]
fn viewer_join_with_cached_sdp_gets_one_offer() {
    let mut mgr = SimpleSfuManager::new();
    mgr.create_room("r1".to_string());
    mgr.add_connection("r1", "s1".to_string(), true);
    mgr.handle_sdp("r1", "s1", "O1", true);

    let out = mgr.add_connection("r1", "v1".to_string(), false);
    assert_eq!(out.len(), 1);
    let offer = &out[0];
    assert_eq!(offer.message_type, SignalingMessageType::Offer);
    assert_eq!(offer.connection_id.as_deref(), Some("v1"));
    assert_eq!(offer.sender_id.as_deref(), Some("s1"));
    assert_eq!(offer.is_sender, Some(false));
    match &offer.data {
        Some(MessageData::Sdp { sdp }) => assert_eq!(sdp, "O1"),
        other => panic!("unexpected payload: {:?}", other),
    }
    assert_eq!(offer.offer_id.as_ref().expect("offer id").len(), 36);
}

#[test]
fn viewer_join_without_cached_sdp_gets_nothing() {
    let mut mgr = SimpleSfuManager::new();
    mgr.create_room("r1".to_string());
    let out = mgr.add_connection("r1", "v1".to_string(), false);
    assert_eq!(out.len(), 0);
}

#[test]
fn viewer_join_catches_up_even_without_a_sender_seat() {
    let mut mgr = SimpleSfuManager::new();
    mgr.create_room("r1".to_string());
    // a viewer's offer is stored unvalidated, so the room caches a
    // description while the sender seat stays empty
    mgr.add_connection("r1", "v0".to_string(), false);
    mgr.handle_sdp("r1", "v0", "O1", true);

    let out = mgr.add_connection("r1", "v1".to_string(), false);
    assert_eq!(out.len(), 1);
    let offer = &out[0];
    assert_eq!(offer.message_type, SignalingMessageType::Offer);
    assert_eq!(offer.connection_id.as_deref(), Some("v1"));
    assert_eq!(offer.sender_id, None);
    match &offer.data {
        Some(MessageData::Sdp { sdp }) => assert_eq!(sdp, "O1"),
        other => panic!("unexpected payload: {:?}", other),
    }
}

#[test]
fn join_without_room_orphans_the_connection() {
    let mut mgr = SimpleSfuManager::new();
    let out = mgr.add_connection("nowhere", "c1".to_string(), false);
    assert_eq!(out.len(), 0);
    assert!(mgr.get_connection("c1").is_some());
    assert!(mgr.get_room("nowhere").is_none());
}

#[test]
fn offer_fans_out_to_every_viewer() {
    let mut mgr = SimpleSfuManager::new();
    mgr.create_room("r1".to_string());
    mgr.add_connection("r1", "s1".to_string(), true);
    mgr.add_connection("r1", "v1".to_string(), false);
    mgr.add_connection("r1", "v2".to_string(), false);

    let out = mgr.handle_sdp("r1", "s1", "the-sdp", true);
    assert_eq!(out.len(), 2);
    let targets: Vec<&str> = out.iter().map(|m| m.connection_id.as_deref().unwrap()).collect();
    assert_eq!(targets, vec!["v1", "v2"]);
    for m in &out {
        assert_eq!(m.message_type, SignalingMessageType::Offer);
        assert_eq!(m.sender_id.as_deref(), Some("s1"));
        match &m.data {
            Some(MessageData::Sdp { sdp }) => assert_eq!(sdp, "the-sdp"),
            other => panic!("unexpected payload: {:?}", other),
        }
    }
    // fresh correlation ids: 36 characters each and pairwise distinct
    let id0 = out[0].offer_id.as_ref().expect("offer id");
    let id1 = out[1].offer_id.as_ref().expect("offer id");
    assert_eq!(id0.len(), 36);
    assert_eq!(id1.len(), 36);
    assert_ne!(id0, id1);
}

#[test]
fn offer_is_cached_on_connection_and_room() {
    let mut mgr = SimpleSfuManager::new();
    mgr.create_room("r1".to_string());
    mgr.add_connection("r1", "s1".to_string(), true);
    mgr.handle_sdp("r1", "s1", "desc", true);
    let room = mgr.get_room("r1").expect("room");
    assert_eq!(room.sender_sdp.as_deref(), Some("desc"));
    let conn = mgr.get_connection("s1").expect("connection");
    assert_eq!(conn.sdp_offer.as_deref(), Some("desc"));
}

#[test]
fn answer_is_stored_and_not_forwarded() {
    let mut mgr = SimpleSfuManager::new();
    mgr.create_room("r1".to_string());
    mgr.add_connection("r1", "s1".to_string(), true);
    mgr.add_connection("r1", "v1".to_string(), false);
    let out = mgr.handle_sdp("r1", "v1", "the-answer", false);
    assert_eq!(out.len(), 0);
    let conn = mgr.get_connection("v1").expect("connection");
    assert_eq!(conn.sdp_answer.as_deref(), Some("the-answer"));
    // the room's cached sender description is untouched
    let room = mgr.get_room("r1").expect("room");
    assert_eq!(room.sender_sdp, None);
}

#[test]
fn ice_from_sender_reaches_every_viewer() {
    let mut mgr = SimpleSfuManager::new();
    mgr.create_room("r1".to_string());
    mgr.add_connection("r1", "s1".to_string(), true);
    mgr.add_connection("r1", "v1".to_string(), false);
    mgr.add_connection("r1", "v2".to_string(), false);
    let out = mgr.handle_ice_candidate("r1", "s1", "cand-a");
    assert_eq!(out.len(), 2);
    let targets: Vec<&str> = out.iter().map(|m| m.connection_id.as_deref().unwrap()).collect();
    assert_eq!(targets, vec!["v1", "v2"]);
    for m in &out {
        assert_eq!(m.message_type, SignalingMessageType::IceCandidate);
        assert_eq!(m.sender_id.as_deref(), Some("s1"));
        assert_eq!(m.offer_id, None);
        match &m.data {
            Some(MessageData::Candidate { candidate }) => assert_eq!(candidate, "cand-a"),
            other => panic!("unexpected payload: {:?}", other),
        }
    }
}

#[test]
fn ice_from_viewer_reaches_only_the_sender() {
    let mut mgr = SimpleSfuManager::new();
    mgr.create_room("r1".to_string());
    mgr.add_connection("r1", "s1".to_string(), true);
    mgr.add_connection("r1", "v1".to_string(), false);
    mgr.add_connection("r1", "v2".to_string(), false);
    let out = mgr.handle_ice_candidate("r1", "v1", "cand-b");
    assert_eq!(out.len(), 1);
    assert_eq!(out[0].connection_id.as_deref(), Some("s1"));
    assert_eq!(out[0].sender_id.as_deref(), Some("v1"));
}

#[test]
fn ice_with_no_sender_goes_nowhere() {
    let mut mgr = SimpleSfuManager::new();
    mgr.create_room("r1".to_string());
    mgr.add_connection("r1", "v1".to_string(), false);
    let out = mgr.handle_ice_candidate("r1", "v1", "cand-c");
    assert_eq!(out.len(), 0);
}

#[test]
fn ice_in_unknown_room_goes_nowhere() {
    let mgr = SimpleSfuManager::new();
    let out = mgr.handle_ice_candidate("r1", "v1", "cand-d");
    assert_eq!(out.len(), 0);
}

#[test]
fn leave_notifies_each_remaining_participant() {
    let mut mgr = SimpleSfuManager::new();
    mgr.create_room("r1".to_string());
    mgr.add_connection("r1", "s1".to_string(), true);
    mgr.add_connection("r1", "v1".to_string(), false);
    mgr.add_connection("r1", "v2".to_string(), false);

    let out = mgr.remove_connection("r1", "v1");
    assert_eq!(out.len(), 2);
    // viewers first, then the sender
    let targets: Vec<&str> = out.iter().map(|m| m.connection_id.as_deref().unwrap()).collect();
    assert_eq!(targets, vec!["v2", "s1"]);
    for m in &out {
        assert_eq!(m.message_type, SignalingMessageType::Leave);
        match &m.data {
            Some(MessageData::LeaveInfo { connection_id, connection_count }) => {
                assert_eq!(connection_id, "v1");
                assert_eq!(*connection_count, 2);
            },
            other => panic!("unexpected payload: {:?}", other),
        }
    }
    assert!(mgr.get_connection("v1").is_none());
}

#[test]
fn sender_leave_clears_cached_description() {
    let mut mgr = SimpleSfuManager::new();
    mgr.create_room("r1".to_string());
    mgr.add_connection("r1", "s1".to_string(), true);
    mgr.handle_sdp("r1", "s1", "O1", true);
    mgr.add_connection("r1", "v1".to_string(), false);

    let out = mgr.remove_connection("r1", "s1");
    assert_eq!(out.len(), 1);
    assert_eq!(out[0].connection_id.as_deref(), Some("v1"));
    let room = mgr.get_room("r1").expect("room");
    assert_eq!(room.sender_id, None);
    assert_eq!(room.sender_sdp, None);
    assert_eq!(room.viewer_ids, vec!["v1".to_string()]);
}

#[test]
fn leave_in_unknown_room_only_deletes_the_record() {
    let mut mgr = SimpleSfuManager::new();
    mgr.add_connection("nowhere", "c1".to_string(), false);
    let out = mgr.remove_connection("nowhere", "c1");
    assert_eq!(out.len(), 0);
    assert!(mgr.get_connection("c1").is_none());
}

#[test]
fn dispatch_join_requires_connection_id() {
    let mut mgr = SimpleSfuManager::new();
    let r = mgr.handle_message("r1", &msg(SignalingMessageType::Join, None, None, Some(true)));
    assert!(matches!(r, Err(MissingField::ConnectionId)));
}

#[test]
fn dispatch_offer_requires_connection_id() {
    let mut mgr = SimpleSfuManager::new();
    let r = mgr.handle_message("r1", &msg(SignalingMessageType::Offer, None, sdp_data("x"), None));
    assert!(matches!(r, Err(MissingField::ConnectionId)));
}

#[test]
fn dispatch_offer_requires_sdp() {
    let mut mgr = SimpleSfuManager::new();
    let r = mgr.handle_message("r1", &msg(SignalingMessageType::Offer, Some("c1"), None, None));
    assert!(matches!(r, Err(MissingField::Sdp)));
    let r = mgr.handle_message(
        "r1",
        &msg(SignalingMessageType::Offer, Some("c1"), candidate_data("nope"), None),
    );
    assert!(matches!(r, Err(MissingField::Sdp)));
}

#[test]
fn dispatch_answer_requires_sdp() {
    let mut mgr = SimpleSfuManager::new();
    let r = mgr.handle_message("r1", &msg(SignalingMessageType::Answer, Some("c1"), None, None));
    assert!(matches!(r, Err(MissingField::Sdp)));
}

#[test]
fn dispatch_ice_requires_candidate() {
    let mut mgr = SimpleSfuManager::new();
    let r = mgr.handle_message(
        "r1",
        &msg(SignalingMessageType::IceCandidate, Some("c1"), sdp_data("not-a-candidate"), None),
    );
    assert!(matches!(r, Err(MissingField::Candidate)));
    let r = mgr.handle_message("r1", &msg(SignalingMessageType::IceCandidate, Some("c1"), None, None));
    assert!(matches!(r, Err(MissingField::Candidate)));
}

#[test]
fn dispatch_leave_requires_connection_id() {
    let mut mgr = SimpleSfuManager::new();
    let r = mgr.handle_message("r1", &msg(SignalingMessageType::Leave, None, None, None));
    assert!(matches!(r, Err(MissingField::ConnectionId)));
}

#[test]
fn dispatch_join_defaults_to_viewer() {
    let mut mgr = SimpleSfuManager::new();
    mgr.create_room("r1".to_string());
    let r = mgr
        .handle_message("r1", &msg(SignalingMessageType::Join, Some("c1"), None, None))
        .expect("join");
    assert_eq!(r.len(), 0);
    let room = mgr.get_room("r1").expect("room");
    assert_eq!(room.sender_id, None);
    assert_eq!(room.viewer_ids, vec!["c1".to_string()]);
    let conn = mgr.get_connection("c1").expect("connection");
    assert!(!conn.is_sender);
}

#[test]
fn full_session_walkthrough() {
    let mut mgr = SimpleSfuManager::new();
    mgr.create_room("r1".to_string());

    // the sender joins: no messages
    let out = mgr
        .handle_message("r1", &msg(SignalingMessageType::Join, Some("s1"), None, Some(true)))
        .expect("sender join");
    assert_eq!(out.len(), 0);

    // a viewer joins before any description is cached: no messages
    let out = mgr
        .handle_message("r1", &msg(SignalingMessageType::Join, Some("v1"), None, Some(false)))
        .expect("viewer join");
    assert_eq!(out.len(), 0);

    // the sender submits an offer: one copy reaches the viewer
    let out = mgr
        .handle_message("r1", &msg(SignalingMessageType::Offer, Some("s1"), sdp_data("O1"), None))
        .expect("offer");
    assert_eq!(out.len(), 1);
    assert_eq!(out[0].connection_id.as_deref(), Some("v1"));
    match &out[0].data {
        Some(MessageData::Sdp { sdp }) => assert_eq!(sdp, "O1"),
        other => panic!("unexpected payload: {:?}", other),
    }

    // a late viewer joins and is caught up with the cached offer
    let out = mgr
        .handle_message("r1", &msg(SignalingMessageType::Join, Some("v2"), None, Some(false)))
        .expect("late join");
    assert_eq!(out.len(), 1);
    assert_eq!(out[0].connection_id.as_deref(), Some("v2"));
    match &out[0].data {
        Some(MessageData::Sdp { sdp }) => assert_eq!(sdp, "O1"),
        other => panic!("unexpected payload: {:?}", other),
    }

    // the sender leaves: both viewers are told, count is 2
    let out = mgr
        .handle_message("r1", &msg(SignalingMessageType::Leave, Some("s1"), None, None))
        .expect("leave");
    assert_eq!(out.len(), 2);
    for m in &out {
        match &m.data {
            Some(MessageData::LeaveInfo { connection_id, connection_count }) => {
                assert_eq!(connection_id, "s1");
                assert_eq!(*connection_count, 2);
            },
            other => panic!("unexpected payload: {:?}", other),
        }
    }
    let targets: Vec<&str> = out.iter().map(|m| m.connection_id.as_deref().unwrap()).collect();
    assert_eq!(targets, vec!["v1", "v2"]);
}

#[test]
fn joining_twice_as_viewer_does_not_duplicate() {
    let mut mgr = SimpleSfuManager::new();
    mgr.create_room("r1".to_string());
    mgr.add_connection("r1", "v1".to_string(), false);
    mgr.add_connection("r1", "v1".to_string(), false);
    let room = mgr.get_room("r1").expect("room");
    assert_eq!(room.viewer_ids, vec!["v1".to_string()]);
}

#[test]
fn new_sender_replaces_the_seat() {
    let mut mgr = SimpleSfuManager::new();
    mgr.create_room("r1".to_string());
    mgr.add_connection("r1", "s1".to_string(), true);
    mgr.add_connection("r1", "s2".to_string(), true);
    let room = mgr.get_room("r1").expect("room");
    assert_eq!(room.sender_id.as_deref(), Some("s2"));
}
