//! A small fleet of peer processes that discover each other over explicit
//! addresses, perform a presence handshake, and exchange a bounded sequence of
//! typed messages over persistent bidirectional links.
//!
//! This crate holds the verified core: the protocol envelope and its wire
//! codec, the connection registry, the handshake transitions, the relay bus,
//! and the bounded conversation coordinator.

pub mod protocol;
pub mod strutil;
pub mod digits;
pub mod codec;
pub mod registry;
pub mod relay;
pub mod handshake;
pub mod prompts;
pub mod conversation;
pub mod config;
pub mod executor;
pub mod writer;
pub mod ollama;
pub mod output;
pub mod agent;
pub mod textutil;
pub mod logmux;

use vstd::prelude::*;

verus! {

/// Total number of text messages allowed in one conversation, both sides
/// together; each side may send at most half of them.
pub const MAX_CONVERSATION_MESSAGES: usize = 4;

/// The per-side share of the conversation budget.
pub fn per_side_budget() -> (r: usize)
    ensures
        r == MAX_CONVERSATION_MESSAGES / 2,
{
    MAX_CONVERSATION_MESSAGES / 2
}

} // verus!
