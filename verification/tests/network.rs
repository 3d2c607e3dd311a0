//! The registry, the relay bus, the delivery queue and the handshake
//! transitions, exercised the way two or three processes would drive them.

use ferris_lab::codec::decode_message;
use ferris_lab::handshake::{AcceptAction, PeerNode};
use ferris_lab::protocol::{AgentMessage, PeerConnectionResult};
use ferris_lab::relay::{BusRecv, RelayBus};

/// Drives a full outbound handshake from `a` against the accept side of
/// `b`, the way the two processes exchange frames over a fresh socket.
fn connect(a: &mut PeerNode, b: &mut PeerNode, url: &str) -> PeerConnectionResult {
    if let Some(done) = a.connect_begin(url) {
        return done;
    }
    // A opens the link with its presence; B accepts it and enqueues the
    // acknowledgement on its relay bus.
    let presence = a.presence_frame();
    let mut b_cursor = b.subscribe();
    let action = b.accept_frame(presence);
    assert!(matches!(action, AcceptAction::PeerJoined));
    // B's writer task sends the acknowledgement frame back to A.
    let ack_frame = match b.next_frame(&mut b_cursor) {
        BusRecv::Frame(f) => f,
        _ => panic!("the acknowledgement should be on B's bus"),
    };
    let ack = decode_message(ack_frame.as_str()).expect("the acknowledgement should decode");
    // A awaits the acknowledgement and completes.
    match a.outbound_wait_step(ack) {
        Some(peer_id) => a.complete_outbound(peer_id, url.to_string()),
        None => a.fail_outbound(url.to_string(), "Handshake timeout".to_string()),
    }
}

#[test]
fn two_nodes_shake_hands_symmetrically() {
    let mut a = PeerNode::new("agent-1".to_string(), 19001);
    let mut b = PeerNode::new("agent-2".to_string(), 19002);
    let result = connect(&mut a, &mut b, "ws://localhost:19002/ws");
    assert!(matches!(result, PeerConnectionResult::Connected(_)));
    assert!(a.has_peers());
    assert!(b.has_peers());
    assert_eq!(a.peer_count(), 1);
    assert_eq!(b.peer_count(), 1);
    assert_eq!(a.get_peer_ids(), vec!["agent-2".to_string()]);
    assert_eq!(b.get_peer_ids(), vec!["agent-1".to_string()]);
}

#[test]
fn connecting_twice_is_idempotent() {
    let mut a = PeerNode::new("agent-1".to_string(), 19001);
    let mut b = PeerNode::new("agent-2".to_string(), 19002);
    let url = "ws://localhost:19002/ws";
    let first = connect(&mut a, &mut b, url);
    assert!(matches!(first, PeerConnectionResult::Connected(_)));
    // The second attempt reports success at once and opens nothing new.
    let second = connect(&mut a, &mut b, url);
    assert_eq!(second, PeerConnectionResult::Connected(url.to_string()));
    assert_eq!(a.peer_count(), 1);
    assert_eq!(b.peer_count(), 1);
}

#[test]
fn failed_connect_leaves_no_peers() {
    let a = PeerNode::new("agent-solo".to_string(), 19003);
    let result = a.fail_outbound(
        "ws://localhost:19999/ws".to_string(),
        "Connection timeout".to_string(),
    );
    assert!(matches!(result, PeerConnectionResult::Failed(_, _)));
    assert!(!a.has_peers());
    assert_eq!(a.peer_count(), 0);
}

#[test]
fn three_node_chain_counts_peers() {
    let mut a = PeerNode::new("agent-a".to_string(), 19004);
    let mut b = PeerNode::new("agent-b".to_string(), 19005);
    let mut c = PeerNode::new("agent-c".to_string(), 19006);
    assert!(matches!(
        connect(&mut a, &mut b, "ws://localhost:19005/ws"),
        PeerConnectionResult::Connected(_)
    ));
    assert!(matches!(
        connect(&mut b, &mut c, "ws://localhost:19006/ws"),
        PeerConnectionResult::Connected(_)
    ));
    assert_eq!(a.peer_count(), 1, "the first node sees one peer");
    assert_eq!(b.peer_count(), 2, "the middle node sees both ends");
    assert_eq!(c.peer_count(), 1, "the last node sees one peer");
}

#[test]
fn retry_succeeds_once_the_listener_exists() {
    let mut early = PeerNode::new("agent-early".to_string(), 19007);
    let url = "ws://localhost:19008/ws";
    // The remote listener does not exist yet: the attempt fails and leaves
    // no state, so the supervisor still wants this URL.
    let result = early.fail_outbound(url.to_string(), "Connection timeout".to_string());
    assert!(matches!(result, PeerConnectionResult::Failed(_, _)));
    assert!(!early.has_peers());
    let configured = vec![url.to_string()];
    assert_eq!(early.urls_to_retry(&configured), vec![url.to_string()]);
    // The listener starts; the retried attempt completes the handshake.
    let mut late = PeerNode::new("agent-late".to_string(), 19008);
    let result = connect(&mut early, &mut late, url);
    assert!(matches!(result, PeerConnectionResult::Connected(_)), "the retry should connect");
    assert!(early.has_peers());
    assert!(late.has_peers());
    assert!(early.urls_to_retry(&configured).is_empty());
}

#[test]
fn accept_side_answers_ping_and_filters_control_frames() {
    let mut b = PeerNode::new("agent-b".to_string(), 19005);
    let mut cursor = b.subscribe();
    let action = b.accept_frame(AgentMessage::Ping { agent_id: "agent-a".to_string(), seq: 9 });
    assert!(matches!(action, AcceptAction::PongSent));
    match b.next_frame(&mut cursor) {
        BusRecv::Frame(f) => {
            let pong = decode_message(f.as_str()).expect("the pong should decode");
            assert_eq!(pong, AgentMessage::Pong { agent_id: "agent-b".to_string(), seq: 9 });
        }
        _ => panic!("the pong should be on the bus"),
    }
    // Acknowledgements and pongs never reach the delivery queue.
    let action = b.accept_frame(AgentMessage::PresenceAck { agent_id: "x".to_string() });
    assert!(matches!(action, AcceptAction::Ignored));
    let action = b.accept_frame(AgentMessage::Pong { agent_id: "x".to_string(), seq: 1 });
    assert!(matches!(action, AcceptAction::Ignored));
    let receiver = b.take_incoming_receiver().expect("the first take yields the receiver");
    assert_eq!(b.recv_incoming(&receiver), None);
}

#[test]
fn payload_frames_reach_the_single_consumer_in_order() {
    let mut b = PeerNode::new("agent-b".to_string(), 19005);
    let text = AgentMessage::Text { agent_id: "agent-a".to_string(), content: "hello".to_string() };
    let number = AgentMessage::Number { agent_id: "agent-a".to_string(), value: 42 };
    assert!(matches!(b.accept_frame(text.clone()), AcceptAction::Delivered));
    assert!(matches!(b.accept_frame(number.clone()), AcceptAction::Delivered));
    let receiver = b.take_incoming_receiver().expect("the first take yields the receiver");
    // A second take must not create a second consumer.
    assert!(b.take_incoming_receiver().is_none());
    assert_eq!(b.recv_incoming(&receiver), Some(text));
    assert_eq!(b.recv_incoming(&receiver), Some(number));
    assert_eq!(b.recv_incoming(&receiver), None);
}

#[test]
fn disconnect_removes_a_peer_exactly_once() {
    let mut a = PeerNode::new("agent-1".to_string(), 19001);
    let mut b = PeerNode::new("agent-2".to_string(), 19002);
    let url = "ws://localhost:19002/ws";
    connect(&mut a, &mut b, url);
    assert!(a.disconnect_peer("agent-2"), "the first removal removes the entry");
    assert!(!a.disconnect_peer("agent-2"), "the second removal is a no-op");
    assert!(a.unlink_url(url));
    assert!(!a.unlink_url(url));
    assert!(!a.has_peers());
}

#[test]
fn relay_bus_drops_oldest_for_lagging_readers() {
    let mut bus = RelayBus::new(3);
    let mut reader = bus.subscribe();
    bus.publish("f1".to_string());
    bus.publish("f2".to_string());
    bus.publish("f3".to_string());
    bus.publish("f4".to_string());
    bus.publish("f5".to_string());
    // Capacity three: f1 and f2 are gone; the reader learns how many.
    match bus.recv(&mut reader) {
        BusRecv::Lagged { lost } => assert_eq!(lost, 2),
        _ => panic!("the reader lagged"),
    }
    // The rest arrive in publish order.
    match bus.recv(&mut reader) {
        BusRecv::Frame(f) => assert_eq!(f, "f3"),
        _ => panic!("expected a frame"),
    }
    match bus.recv(&mut reader) {
        BusRecv::Frame(f) => assert_eq!(f, "f4"),
        _ => panic!("expected a frame"),
    }
    match bus.recv(&mut reader) {
        BusRecv::Frame(f) => assert_eq!(f, "f5"),
        _ => panic!("expected a frame"),
    }
    assert!(matches!(bus.recv(&mut reader), BusRecv::Empty));
}

#[test]
fn relay_bus_keeps_everything_within_its_window() {
    // A reader no further behind than the capacity never lags.
    let mut bus = RelayBus::new(3);
    let mut reader = bus.subscribe();
    bus.publish("f1".to_string());
    bus.publish("f2".to_string());
    bus.publish("f3".to_string());
    for expected in ["f1", "f2", "f3"] {
        match bus.recv(&mut reader) {
            BusRecv::Frame(f) => assert_eq!(f, expected),
            _ => panic!("nothing may be lost within the retention window"),
        }
    }
    assert!(matches!(bus.recv(&mut reader), BusRecv::Empty));
}

#[test]
fn broadcast_reaches_every_writer_subscribed() {
    let mut a = PeerNode::new("agent-1".to_string(), 19001);
    let mut w1 = a.subscribe();
    let mut w2 = a.subscribe();
    let frame = AgentMessage::Number { agent_id: "agent-1".to_string(), value: 42 };
    a.broadcast(&frame);
    for cursor in [&mut w1, &mut w2] {
        match a.next_frame(cursor) {
            BusRecv::Frame(f) => {
                assert_eq!(decode_message(f.as_str()), Some(frame.clone()));
            }
            _ => panic!("each writer sees the broadcast once"),
        }
        assert!(matches!(a.next_frame(cursor), BusRecv::Empty));
    }
}
