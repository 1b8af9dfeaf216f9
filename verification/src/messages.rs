//! The typed envelopes peers exchange.
//!
//! Data-channel traffic carries [`RtcMessage`] records; signaling traffic
//! through the relay carries [`SignalingMessage`] records. The host's
//! transport turns these into its wire text and back.

use vstd::prelude::*;

use crate::component::VersionedComponent;

verus! {

/// What a data-channel message asks of the receiving peer.
#[derive(Debug, Clone, Copy, PartialEq, Eq, Structural)]
pub enum RtcCommand {
    Share,
    Put,
    CrdtPut,
    Remove,
    Done,
}

/// A message sent over a data-channel.
pub struct RtcMessage {
    pub command: RtcCommand,
    pub key: String,
    pub value: Option<VersionedComponent>,
}

/// How the relay fans a signaling message out.
#[derive(Debug, Clone, Copy, PartialEq, Eq, Structural)]
pub enum Protocol {
    OneToAll,
    OneToOne,
    OneToRoom,
    OneToSelf,
}

/// What a signaling message carries.
#[derive(Debug, Clone, Copy, PartialEq, Eq, Structural)]
pub enum SignalingAction {
    Answer,
    Candidate,
    HandleConnection,
    Heartbeat,
    Offer,
    ReconnectOffer,
}

/// An envelope relayed between peers of a room.
pub struct SignalingMessage {
    pub action: SignalingAction,
    pub data: Option<String>,
    pub endpoint: Option<String>,
    pub from: String,
    pub protocol: Protocol,
    pub room: String,
}

/// An ICE candidate, carried inside a signaling message's data.
pub struct IceCandidate {
    pub candidate: String,
    pub sdp_mid: Option<String>,
}

/// The keep-alive envelope a client sends itself every heartbeat period,
/// to defeat idle timeouts at the relay.
pub fn heartbeat_message(room: String) -> (m: SignalingMessage)
    ensures
        m.action == SignalingAction::Heartbeat,
        m.protocol == Protocol::OneToSelf,
        m.room@ == room@,
        m.from@.len() == 0,
        m.endpoint is None,
        m.data is None,
{
    SignalingMessage {
        action: SignalingAction::Heartbeat,
        data: None,
        endpoint: None,
        from: String::new(),
        protocol: Protocol::OneToSelf,
        room,
    }
}

/// The envelope a client sends its room when its signaling stream opens,
/// asking the members to start a handshake with it.
pub fn handle_connection_message(room: String, from: String) -> (m: SignalingMessage)
    ensures
        m.action == SignalingAction::HandleConnection,
        m.protocol == Protocol::OneToRoom,
        m.room@ == room@,
        m.from@ == from@,
        m.endpoint matches Some(e) && e@ == "any"@,
        m.data is None,
{
    SignalingMessage {
        action: SignalingAction::HandleConnection,
        data: None,
        endpoint: Some("any".to_owned()),
        from,
        protocol: Protocol::OneToRoom,
        room,
    }
}

} // verus!
