//! Wire types: packets between clients and the signaling server, and the
//! relay messages that clients exchange end-to-end encrypted.
use vstd::prelude::*;

verus! {

/// An identifier the server gives to one signaling connection.
#[derive(Debug, Hash, Clone, Copy, PartialEq, Eq, Structural)]
pub struct Client(pub u64);

/// Packets the server sends to a client.
#[derive(Debug, Clone, PartialEq, Eq)]
pub enum ClientboundPacket {
    Init { your_id: Client, version: String },
    ClientJoin { id: Client },
    ClientLeave { id: Client },
    Message { sender: Client, message: String },
    RoomInfo { hash: String, user_count: usize },
}

/// Packets a client sends to the server.
#[derive(Debug, Clone, PartialEq, Eq)]
pub enum ServerboundPacket {
    Join { hash: Option<String> },
    Ping,
    Relay { recipient: Option<Client>, message: String },
    WatchRooms(Vec<String>),
}

/// The plaintext of a relayed message; `sender` repeats the outer packet's
/// sender so that a receiver can notice a server that lies about the origin.
#[derive(Debug, Clone, PartialEq, Eq)]
pub struct RelayMessageWrapper {
    pub sender: Client,
    pub inner: RelayMessage,
}

#[derive(Debug, Clone, PartialEq, Eq)]
pub enum RelayMessage {
    Chat(ChatMesssage),
    Identify { username: String },
    Provide(ProvideInfo),
    Request { id: String },
    ProvideStop { id: String },
    RequestStop { id: String },
    Offer(String),
    Answer(String),
    IceCandidate(RTCIceCandidateInit),
}

#[derive(Debug, Clone, PartialEq, Eq)]
pub enum ChatMesssage {
    Text(String),
    Image(String),
}

#[derive(Debug, Clone, Copy, PartialEq, Eq, Structural)]
pub enum TrackKind {
    Audio,
    Video,
}

/// A resource that a peer offers; `kind` is free-form so that peers with
/// other extensions do not fail on kinds they do not know.
#[derive(Debug, Clone, PartialEq, Eq)]
pub struct ProvideInfo {
    pub id: String,
    pub kind: String,
    pub track_kind: Option<TrackKind>,
    pub label: Option<String>,
    pub size: Option<usize>,
}

/// An ICE candidate as exchanged between peers.
#[derive(Debug, Clone, PartialEq, Eq)]
pub struct RTCIceCandidateInit {
    pub candidate: String,
    pub sdp_m_line_index: Option<usize>,
    pub sdp_mid: Option<String>,
    pub username_fragment: Option<String>,
}

pub fn duplicate_opt_string(s: &Option<String>) -> (r: Option<String>)
    ensures
        r == *s,
{
    match s {
        Some(s) => Some(s.clone()),
        None => None,
    }
}

impl ProvideInfo {
    pub fn duplicate(&self) -> (r: ProvideInfo)
        ensures
            r == *self,
    {
        ProvideInfo {
            id: self.id.clone(),
            kind: self.kind.clone(),
            track_kind: self.track_kind,
            label: duplicate_opt_string(&self.label),
            size: self.size,
        }
    }
}

impl RTCIceCandidateInit {
    pub fn duplicate(&self) -> (r: RTCIceCandidateInit)
        ensures
            r == *self,
    {
        RTCIceCandidateInit {
            candidate: self.candidate.clone(),
            sdp_m_line_index: self.sdp_m_line_index,
            sdp_mid: duplicate_opt_string(&self.sdp_mid),
            username_fragment: duplicate_opt_string(&self.username_fragment),
        }
    }
}

impl ChatMesssage {
    pub fn duplicate(&self) -> (r: ChatMesssage)
        ensures
            r == *self,
    {
        match self {
            ChatMesssage::Text(t) => ChatMesssage::Text(t.clone()),
            ChatMesssage::Image(t) => ChatMesssage::Image(t.clone()),
        }
    }
}

impl RelayMessage {
    pub fn duplicate(&self) -> (r: RelayMessage)
        ensures
            r == *self,
    {
        match self {
            RelayMessage::Chat(c) => RelayMessage::Chat(c.duplicate()),
            RelayMessage::Identify { username } => RelayMessage::Identify {
                username: username.clone(),
            },
            RelayMessage::Provide(info) => RelayMessage::Provide(info.duplicate()),
            RelayMessage::Request { id } => RelayMessage::Request { id: id.clone() },
            RelayMessage::ProvideStop { id } => RelayMessage::ProvideStop { id: id.clone() },
            RelayMessage::RequestStop { id } => RelayMessage::RequestStop { id: id.clone() },
            RelayMessage::Offer(s) => RelayMessage::Offer(s.clone()),
            RelayMessage::Answer(s) => RelayMessage::Answer(s.clone()),
            RelayMessage::IceCandidate(c) => RelayMessage::IceCandidate(c.duplicate()),
        }
    }
}

impl ClientboundPacket {
    pub fn duplicate(&self) -> (r: ClientboundPacket)
        ensures
            r == *self,
    {
        match self {
            ClientboundPacket::Init { your_id, version } => ClientboundPacket::Init {
                your_id: *your_id,
                version: version.clone(),
            },
            ClientboundPacket::ClientJoin { id } => ClientboundPacket::ClientJoin { id: *id },
            ClientboundPacket::ClientLeave { id } => ClientboundPacket::ClientLeave { id: *id },
            ClientboundPacket::Message { sender, message } => ClientboundPacket::Message {
                sender: *sender,
                message: message.clone(),
            },
            ClientboundPacket::RoomInfo { hash, user_count } => ClientboundPacket::RoomInfo {
                hash: hash.clone(),
                user_count: *user_count,
            },
        }
    }
}

} // verus!
