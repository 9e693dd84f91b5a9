//! The wire envelope exchanged with signaling peers, and its payloads.

use vstd::prelude::*;

verus! {

/// The kind of a signaling envelope.
#[derive(Clone, Copy, PartialEq, Eq, Structural, Debug)]
pub enum SignalingMessageType {
    Join,
    Offer,
    Answer,
    IceCandidate,
    Leave,
}

/// The free-form payload of an envelope: a session description for
/// `Offer`/`Answer`, a connectivity candidate for `IceCandidate`, and the
/// departed connection with the remaining participant count for `Leave`.
#[derive(Clone, Debug)]
pub enum MessageData {
    Sdp { sdp: String },
    Candidate { candidate: String },
    LeaveInfo { connection_id: String, connection_count: usize },
}

/// Mathematical model of a payload.
pub ghost enum DataModel {
    Sdp { sdp: Seq<char> },
    Candidate { candidate: Seq<char> },
    LeaveInfo { connection_id: Seq<char>, connection_count: usize },
}

impl View for MessageData {
    type V = DataModel;

    open spec fn view(&self) -> DataModel {
        match self {
            MessageData::Sdp { sdp } => DataModel::Sdp { sdp: sdp@ },
            MessageData::Candidate { candidate } => DataModel::Candidate { candidate: candidate@ },
            MessageData::LeaveInfo { connection_id, connection_count } => DataModel::LeaveInfo {
                connection_id: connection_id@,
                connection_count: *connection_count,
            },
        }
    }
}

impl DeepView for MessageData {
    type V = DataModel;

    open spec fn deep_view(&self) -> DataModel {
        self.view()
    }
}

/// The wire envelope.  On an inbound message `connection_id` names the
/// subject connection; on an outbound message it names the addressee.
#[derive(Clone, Debug)]
pub struct SignalingMessage {
    pub message_type: SignalingMessageType,
    pub connection_id: Option<String>,
    pub sender_id: Option<String>,
    pub offer_id: Option<String>,
    pub data: Option<MessageData>,
    pub is_sender: Option<bool>,
}

/// Mathematical model of an envelope.
pub ghost struct MsgModel {
    pub message_type: SignalingMessageType,
    pub connection_id: Option<Seq<char>>,
    pub sender_id: Option<Seq<char>>,
    pub offer_id: Option<Seq<char>>,
    pub data: Option<DataModel>,
    pub is_sender: Option<bool>,
}

impl View for SignalingMessage {
    type V = MsgModel;

    open spec fn view(&self) -> MsgModel {
        MsgModel {
            message_type: self.message_type,
            connection_id: self.connection_id.deep_view(),
            sender_id: self.sender_id.deep_view(),
            offer_id: self.offer_id.deep_view(),
            data: match self.data {
                Some(d) => Some(d@),
                None => None,
            },
            is_sender: self.is_sender,
        }
    }
}

impl DeepView for SignalingMessage {
    type V = MsgModel;

    open spec fn deep_view(&self) -> MsgModel {
        self.view()
    }
}

/// A required field was absent from an inbound envelope.  Dispatch rejects
/// such a message before any state mutation.
#[derive(Clone, Copy, PartialEq, Eq, Structural, Debug)]
pub enum MissingField {
    ConnectionId,
    Sdp,
    Candidate,
}

/// The shape of an outbound `Offer` envelope: addressed to `viewer`,
/// attributed to `sender`, carrying `sdp` under a correlation id `offer_id`.
pub open spec fn offer_msg(
    viewer: Seq<char>,
    sender: Seq<char>,
    sdp: Seq<char>,
    offer_id: Seq<char>,
) -> MsgModel {
    MsgModel {
        message_type: SignalingMessageType::Offer,
        connection_id: Some(viewer),
        sender_id: Some(sender),
        offer_id: Some(offer_id),
        data: Some(DataModel::Sdp { sdp }),
        is_sender: Some(false),
    }
}

/// The shape of an outbound `IceCandidate` envelope: addressed to `to`,
/// attributed to `from`, carrying `candidate`.
pub open spec fn ice_msg(to: Seq<char>, from: Seq<char>, candidate: Seq<char>) -> MsgModel {
    MsgModel {
        message_type: SignalingMessageType::IceCandidate,
        connection_id: Some(to),
        sender_id: Some(from),
        offer_id: None,
        data: Some(DataModel::Candidate { candidate }),
        is_sender: None,
    }
}

/// The shape of an outbound `Leave` envelope: addressed to `to`, carrying the
/// departed connection and the number of participants that remain.
pub open spec fn leave_msg(to: Seq<char>, departed: Seq<char>, remaining: usize) -> MsgModel {
    MsgModel {
        message_type: SignalingMessageType::Leave,
        connection_id: Some(to),
        sender_id: None,
        offer_id: None,
        data: Some(DataModel::LeaveInfo { connection_id: departed, connection_count: remaining }),
        is_sender: None,
    }
}

} // verus!
