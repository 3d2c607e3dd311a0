//! The conversation coordinator: the bounded exchange, the single
//! completion notification, and the deterministic initiator.

use ferris_lab::agent::{on_reply_sent, on_text_received, ReplyDecision};
use ferris_lab::conversation::{should_initiate, ConversationState};
use ferris_lab::MAX_CONVERSATION_MESSAGES;

#[test]
fn budget_is_four_messages_total() {
    assert_eq!(MAX_CONVERSATION_MESSAGES, 4);
    assert_eq!(ferris_lab::per_side_budget(), 2);
}

#[test]
fn full_exchange_sends_exactly_two_each_and_completes_once() {
    // The initiator's side of a full exchange with budget four.
    let mut a = ConversationState::new();
    let peer = "agent-2";
    // Greeting.
    a.record_sent(peer);
    // The peer replies; our side still has budget, so a reply is requested.
    match on_text_received(&mut a, "agent-1", peer, "hello back", true) {
        ReplyDecision::RequestReply { prompt } => {
            assert!(prompt.contains("agent-1"));
        }
        _ => panic!("a reply should be requested"),
    }
    let (count, done) = on_reply_sent(&mut a, peer);
    assert_eq!(count, 2);
    assert!(!done, "only one message received so far");
    // The peer's second message exhausts our budget; completion fires once.
    match on_text_received(&mut a, "agent-1", peer, "goodbye", true) {
        ReplyDecision::BudgetReached { completed_now } => assert!(completed_now),
        _ => panic!("the budget is spent"),
    }
    assert_eq!(a.sent_count(peer), 2);
    assert_eq!(a.received_count(peer), 2);
    // A repeated qualifying event must not notify again.
    match on_text_received(&mut a, "agent-1", peer, "still there?", true) {
        ReplyDecision::BudgetReached { completed_now } => assert!(!completed_now),
        _ => panic!("the budget stays spent"),
    }
    assert!(!a.maybe_complete(peer), "completion fired already");
}

#[test]
fn responder_side_also_sends_exactly_two() {
    let mut b = ConversationState::new();
    let peer = "agent-1";
    let mut completions = 0;
    for received in ["hi", "second"] {
        match on_text_received(&mut b, "agent-2", peer, received, true) {
            ReplyDecision::RequestReply { .. } => {
                let (_, completed_now) = on_reply_sent(&mut b, peer);
                if completed_now {
                    completions += 1;
                }
            }
            other => panic!("a reply should be requested, got {:?}", decision_name(&other)),
        }
    }
    assert_eq!(b.sent_count(peer), 2);
    assert_eq!(b.received_count(peer), 2);
    assert_eq!(completions, 1, "the completion fires with the second reply");
    assert!(!b.maybe_complete(peer), "the completion notifies once per peer");
}

fn decision_name(d: &ReplyDecision) -> &'static str {
    match d {
        ReplyDecision::BudgetReached { .. } => "BudgetReached",
        ReplyDecision::RequestReply { .. } => "RequestReply",
        ReplyDecision::NoBackend => "NoBackend",
    }
}

#[test]
fn no_backend_skips_the_turn_but_counts_the_message() {
    let mut a = ConversationState::new();
    match on_text_received(&mut a, "agent-1", "agent-2", "hello", false) {
        ReplyDecision::NoBackend => {}
        _ => panic!("without a backend the turn is skipped"),
    }
    assert_eq!(a.received_count("agent-2"), 1);
    assert_eq!(a.sent_count("agent-2"), 0);
}

#[test]
fn conversations_are_tracked_per_peer() {
    let mut a = ConversationState::new();
    a.record_sent("agent-2");
    a.record_sent("agent-2");
    a.record_sent("agent-3");
    assert_eq!(a.sent_count("agent-2"), 2);
    assert_eq!(a.sent_count("agent-3"), 1);
    assert_eq!(a.sent_count("agent-4"), 0);
    a.record_received("agent-2");
    a.record_received("agent-2");
    assert!(a.maybe_complete("agent-2"));
    assert!(!a.maybe_complete("agent-3"), "the other conversation is not complete");
}

#[test]
fn lexicographically_smaller_identity_initiates() {
    // Of the pair, only the smaller identity ever sends the greeting.
    let peers_of_one = vec!["agent-2".to_string()];
    let peers_of_two = vec!["agent-1".to_string()];
    assert!(should_initiate("agent-1", &peers_of_one));
    assert!(!should_initiate("agent-2", &peers_of_two));
}

#[test]
fn initiator_must_precede_every_peer() {
    let peers = vec!["agent-b".to_string(), "agent-c".to_string()];
    assert!(should_initiate("agent-a", &peers));
    let mixed = vec!["agent-a".to_string(), "agent-c".to_string()];
    assert!(!should_initiate("agent-b", &mixed));
    // With no peers at all the rule holds vacuously.
    assert!(should_initiate("anyone", &Vec::new()));
    // A proper prefix sorts first.
    assert!(should_initiate("agent", &vec!["agent-1".to_string()]));
    assert!(!should_initiate("agent-1", &vec!["agent".to_string()]));
}

#[test]
fn greeting_counts_against_every_peer() {
    let mut a = ConversationState::new();
    let peers = vec!["agent-2".to_string(), "agent-3".to_string()];
    ferris_lab::agent::count_greeting(&mut a, &peers);
    assert_eq!(a.sent_count("agent-2"), 1);
    assert_eq!(a.sent_count("agent-3"), 1);
    assert_eq!(a.sent_count("agent-4"), 0);
}

#[test]
fn random_probe_stays_in_range() {
    let mut node = ferris_lab::handshake::PeerNode::new("agent-1".to_string(), 19001);
    for _ in 0..32 {
        let value = ferris_lab::agent::send_random_number(&mut node);
        assert!((1..=1_000_000).contains(&value));
    }
}
