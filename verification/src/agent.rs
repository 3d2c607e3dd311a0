//! The agent's own decisions around the conversation coordinator: what to do
//! with a received text, how a generated reply is accounted for, how an
//! opening greeting is counted against every peer, and the numeric probe
//! sent when no text backend is available.  The surrounding process performs
//! the backend calls and the waiting in between.

use vstd::prelude::*;
use crate::conversation::{bump, count_of, ConversationState, ConversationView};
use crate::handshake::PeerNode;
use crate::codec::wire_view;
use crate::protocol::{AgentMessage, MessageView};
use crate::prompts::{peer_response_prompt, peer_response_prompt_view};
use crate::strutil::seq_views;

verus! {

/// What the coordinator decided to do with one received text message.
pub enum ReplyDecision {
    /// Our budget for this peer is spent: no reply; reports whether the
    /// completion notification fired now.
    BudgetReached { completed_now: bool },
    /// A reply is wanted: this prompt goes to the text backend.
    RequestReply { prompt: String },
    /// The backend is disabled or unreachable: the turn is skipped.
    NoBackend,
}

/// Handles a text message received from a peer: the received count always
/// rises; when our side of the budget is spent the exchange may complete,
/// otherwise a reply is requested from the backend if one is ready.
pub fn on_text_received(
    state: &mut ConversationState,
    agent_id: &str,
    peer_id: &str,
    content: &str,
    backend_ready: bool,
) -> (r: ReplyDecision)
    requires
        old(state).wf(),
        count_of(old(state)@.received, peer_id@) < usize::MAX,
    ensures
        final(state).wf(),
        final(state)@.received == bump(old(state)@.received, peer_id@),
        final(state)@.sent == old(state)@.sent,
        ({
            let mid = ConversationView {
                received: bump(old(state)@.received, peer_id@),
                ..old(state)@
            };
            if count_of(old(state)@.sent, peer_id@) >= crate::MAX_CONVERSATION_MESSAGES / 2 {
                r matches ReplyDecision::BudgetReached { completed_now } && completed_now
                    == ConversationState::completes_now(mid, peer_id@) && final(state)@.completed
                    == (if completed_now {
                    old(state)@.completed.insert(peer_id@)
                } else {
                    old(state)@.completed
                })
            } else if backend_ready {
                (r matches ReplyDecision::RequestReply { prompt } && prompt@
                    == peer_response_prompt_view(agent_id@, peer_id@, content@))
                    && final(state)@.completed == old(state)@.completed
            } else {
                r is NoBackend && final(state)@.completed == old(state)@.completed
            }
        }),
{
    state.record_received(peer_id);
    let our = state.sent_count(peer_id);
    if our >= crate::per_side_budget() {
        let completed_now = state.maybe_complete(peer_id);
        ReplyDecision::BudgetReached { completed_now }
    } else if backend_ready {
        ReplyDecision::RequestReply { prompt: peer_response_prompt(agent_id, peer_id, content) }
    } else {
        ReplyDecision::NoBackend
    }
}

/// Accounts for a reply this process just sent to a peer: the sent count
/// rises, and the exchange may complete.  Returns the new sent count and
/// whether the completion fired now.
pub fn on_reply_sent(state: &mut ConversationState, peer_id: &str) -> (r: (usize, bool))
    requires
        old(state).wf(),
        count_of(old(state)@.sent, peer_id@) < usize::MAX,
    ensures
        final(state).wf(),
        final(state)@.sent == bump(old(state)@.sent, peer_id@),
        final(state)@.received == old(state)@.received,
        r.0 == count_of(old(state)@.sent, peer_id@) + 1,
        ({
            let mid = ConversationView { sent: bump(old(state)@.sent, peer_id@), ..old(state)@ };
            r.1 == ConversationState::completes_now(mid, peer_id@) && final(state)@.completed
                == (if r.1 {
                old(state)@.completed.insert(peer_id@)
            } else {
                old(state)@.completed
            })
        }),
{
    let new_count = state.record_sent(peer_id);
    let completed_now = state.maybe_complete(peer_id);
    (new_count, completed_now)
}

/// Every listed peer's sent count incremented once, in order.
pub open spec fn bump_all(m: Map<Seq<char>, nat>, ids: Seq<Seq<char>>) -> Map<Seq<char>, nat>
    decreases ids.len(),
{
    if ids.len() == 0 {
        m
    } else {
        bump(bump_all(m, ids.drop_last()), ids.last())
    }
}

/// A peer not in the list keeps its count.
pub proof fn lemma_bump_all_absent(m: Map<Seq<char>, nat>, ids: Seq<Seq<char>>, k: Seq<char>)
    requires
        forall|i: int| 0 <= i < ids.len() ==> ids[i] != k,
    ensures
        count_of(bump_all(m, ids), k) == count_of(m, k),
    decreases ids.len(),
{
    if ids.len() > 0 {
        assert(forall|i: int| 0 <= i < ids.drop_last().len() ==> ids.drop_last()[i] == ids[i]);
        lemma_bump_all_absent(m, ids.drop_last(), k);
        assert(ids.last() != k);
    }
}

/// Counts one greeting frame against every listed peer.
pub fn count_greeting(state: &mut ConversationState, peers: &Vec<String>)
    requires
        old(state).wf(),
        seq_views(peers@).no_duplicates(),
        forall|j: int| 0 <= j < peers@.len() ==> count_of(old(state)@.sent, #[trigger] peers@[j]@)
            < usize::MAX,
    ensures
        final(state).wf(),
        final(state)@.sent == bump_all(old(state)@.sent, seq_views(peers@)),
        final(state)@.received == old(state)@.received,
        final(state)@.completed == old(state)@.completed,
{
    let ghost ids = seq_views(peers@);
    proof {
        assert(forall|j: int| 0 <= j < peers@.len() ==> ids[j] == #[trigger] peers@[j]@);
    }
    let mut i: usize = 0;
    proof {
        assert(ids.subrange(0, 0) =~= Seq::<Seq<char>>::empty());
    }
    while i < peers.len()
        invariant
            state.wf(),
            i <= peers@.len(),
            ids == seq_views(peers@),
            ids.len() == peers@.len(),
            forall|j: int| 0 <= j < peers@.len() ==> ids[j] == #[trigger] peers@[j]@,
            ids.no_duplicates(),
            forall|j: int| 0 <= j < peers@.len() ==> count_of(old(state)@.sent, #[trigger] peers@[j]@)
                < usize::MAX,
            state@.sent == bump_all(old(state)@.sent, ids.subrange(0, i as int)),
            state@.received == old(state)@.received,
            state@.completed == old(state)@.completed,
        decreases peers@.len() - i,
    {
        proof {
            assert(forall|j: int|
                0 <= j < i ==> ids.subrange(0, i as int)[j] != ids[i as int]);
            lemma_bump_all_absent(old(state)@.sent, ids.subrange(0, i as int), ids[i as int]);
            assert(count_of(state@.sent, peers@[i as int]@) < usize::MAX);
        }
        state.record_sent(peers[i].as_str());
        proof {
            assert(ids.subrange(0, i + 1).drop_last() =~= ids.subrange(0, i as int));
            assert(ids.subrange(0, i + 1).last() == ids[i as int]);
            assert(peers@[i as int]@ == ids[i as int]);
        }
        i = i + 1;
    }
    proof {
        assert(ids.subrange(0, peers@.len() as int) =~= ids);
    }
}

/// Relies on `rand::random_range`: a uniformly random value in the given
/// nonempty range, so always between one and one million inclusive.
#[verifier::external_body]
fn random_probe_value() -> (r: u64)
    ensures
        1 <= r <= 1000000,
{
    rand::random_range(1u64..=1000000u64)
}

/// Broadcasts a numeric probe in place of a text message: a random value in
/// `[1, 1000000]`, sent to every peer, not counted against the text budget.
pub fn send_random_number(node: &mut PeerNode) -> (r: u64)
    requires
        old(node).wf(),
        old(node)@.log.len() < u64::MAX,
    ensures
        final(node).wf(),
        1 <= r <= 1000000,
        final(node)@.log == old(node)@.log.push(
            wire_view(MessageView::Number { agent_id: old(node)@.agent_id, value: r }),
        ),
        final(node).bus_oldest() == (if old(node)@.log.len() - old(node).bus_oldest()
            < crate::handshake::RELAY_CAPACITY {
            old(node).bus_oldest()
        } else {
            old(node).bus_oldest() + 1
        }),
        final(node)@.agent_id == old(node)@.agent_id,
        final(node)@.peers == old(node)@.peers,
        final(node)@.urls == old(node)@.urls,
        final(node)@.pending == old(node)@.pending,
        final(node)@.receiver_taken == old(node)@.receiver_taken,
{
    let value = random_probe_value();
    let frame = AgentMessage::Number { agent_id: String::from_str(node.agent_id_str()), value };
    node.broadcast(&frame);
    value
}

} // verus!
