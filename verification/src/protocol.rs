//! The protocol envelope: the tagged message union exchanged on the wire.
//!
//! Every variant carries the sender's identity; no frame is meaningful
//! without it.

use vstd::prelude::*;

verus! {

/// Abstract form of a protocol frame, used by all contracts of this crate.
pub enum MessageView {
    Presence { agent_id: Seq<char> },
    PresenceAck { agent_id: Seq<char> },
    Ping { agent_id: Seq<char>, seq: u64 },
    Pong { agent_id: Seq<char>, seq: u64 },
    Text { agent_id: Seq<char>, content: Seq<char> },
    Number { agent_id: Seq<char>, value: u64 },
}

/// The identity carried by a frame, in its abstract form.
pub open spec fn sender_of(m: MessageView) -> Seq<char> {
    match m {
        MessageView::Presence { agent_id } => agent_id,
        MessageView::PresenceAck { agent_id } => agent_id,
        MessageView::Ping { agent_id, .. } => agent_id,
        MessageView::Pong { agent_id, .. } => agent_id,
        MessageView::Text { agent_id, .. } => agent_id,
        MessageView::Number { agent_id, .. } => agent_id,
    }
}

/// Protocol message types for agent-to-agent communication.
#[derive(Debug, Clone, PartialEq, Eq)]
pub enum AgentMessage {
    /// Announce presence when connecting.
    Presence { agent_id: String },
    /// Acknowledge a presence message; completes the handshake.
    PresenceAck { agent_id: String },
    /// Ping to check if a peer is alive.
    Ping { agent_id: String, seq: u64 },
    /// Pong response to a ping.
    Pong { agent_id: String, seq: u64 },
    /// Conversational text payload.
    Text { agent_id: String, content: String },
    /// Numeric probe payload, used when no text backend is available.
    Number { agent_id: String, value: u64 },
}

impl View for AgentMessage {
    type V = MessageView;

    open spec fn view(&self) -> MessageView {
        match self {
            AgentMessage::Presence { agent_id } => MessageView::Presence { agent_id: agent_id@ },
            AgentMessage::PresenceAck { agent_id } => MessageView::PresenceAck {
                agent_id: agent_id@,
            },
            AgentMessage::Ping { agent_id, seq } => MessageView::Ping {
                agent_id: agent_id@,
                seq: *seq,
            },
            AgentMessage::Pong { agent_id, seq } => MessageView::Pong {
                agent_id: agent_id@,
                seq: *seq,
            },
            AgentMessage::Text { agent_id, content } => MessageView::Text {
                agent_id: agent_id@,
                content: content@,
            },
            AgentMessage::Number { agent_id, value } => MessageView::Number {
                agent_id: agent_id@,
                value: *value,
            },
        }
    }
}

impl AgentMessage {
    /// The identity of the sender of this frame.
    pub fn sender_id(&self) -> (r: &str)
        ensures
            r@ == sender_of(self@),
    {
        match self {
            AgentMessage::Presence { agent_id } => agent_id.as_str(),
            AgentMessage::PresenceAck { agent_id } => agent_id.as_str(),
            AgentMessage::Ping { agent_id, .. } => agent_id.as_str(),
            AgentMessage::Pong { agent_id, .. } => agent_id.as_str(),
            AgentMessage::Text { agent_id, .. } => agent_id.as_str(),
            AgentMessage::Number { agent_id, .. } => agent_id.as_str(),
        }
    }
}

/// Result of attempting to connect to a peer: either the URL is now (or was
/// already) linked, or the attempt failed with a human-readable reason.
#[derive(Debug, Clone, PartialEq, Eq)]
pub enum PeerConnectionResult {
    Connected(String),
    Failed(String, String),
}

} // verus!
