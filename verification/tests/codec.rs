//! The wire codec: canonical encoding, round trips, and rejection of
//! malformed frames.

use ferris_lab::codec::{decode_message, encode_message};
use ferris_lab::protocol::AgentMessage;

fn round_trips(m: AgentMessage) {
    let wire = encode_message(&m);
    let back = decode_message(wire.as_str());
    assert_eq!(back, Some(m));
}

#[test]
fn encodes_presence_canonically() {
    let m = AgentMessage::Presence { agent_id: "agent-1".to_string() };
    assert_eq!(encode_message(&m), "{\"type\":\"presence\",\"agent_id\":\"agent-1\"}");
}

#[test]
fn encodes_presence_ack_canonically() {
    let m = AgentMessage::PresenceAck { agent_id: "agent-2".to_string() };
    assert_eq!(encode_message(&m), "{\"type\":\"presence_ack\",\"agent_id\":\"agent-2\"}");
}

#[test]
fn encodes_ping_and_pong_canonically() {
    let ping = AgentMessage::Ping { agent_id: "a".to_string(), seq: 7 };
    assert_eq!(encode_message(&ping), "{\"type\":\"ping\",\"agent_id\":\"a\",\"seq\":7}");
    let pong = AgentMessage::Pong { agent_id: "b".to_string(), seq: 0 };
    assert_eq!(encode_message(&pong), "{\"type\":\"pong\",\"agent_id\":\"b\",\"seq\":0}");
}

#[test]
fn encodes_text_canonically() {
    let m = AgentMessage::Text { agent_id: "x".to_string(), content: "hi there".to_string() };
    assert_eq!(encode_message(&m), "{\"type\":\"text\",\"agent_id\":\"x\",\"content\":\"hi there\"}");
}

#[test]
fn encodes_number_canonically() {
    let m = AgentMessage::Number { agent_id: "x".to_string(), value: 42 };
    assert_eq!(encode_message(&m), "{\"type\":\"number\",\"agent_id\":\"x\",\"value\":42}");
}

#[test]
fn escapes_match_the_peers_encoder() {
    let m = AgentMessage::Text {
        agent_id: "q\"u\\o".to_string(),
        content: "line1\nline2\ttab\rcr\u{8}b\u{c}f\u{1}one".to_string(),
    };
    let wire = encode_message(&m);
    // The same value serialized by the peers' JSON encoder.
    assert_eq!(
        wire,
        "{\"type\":\"text\",\"agent_id\":\"q\\\"u\\\\o\",\"content\":\"line1\\nline2\\ttab\\rcr\\bb\\ff\\u0001one\"}"
    );
    assert_eq!(decode_message(wire.as_str()), Some(m));
}

#[test]
fn number_frame_round_trips_verbatim() {
    // A Number frame sent from one side arrives with the same identity and
    // value on the other.
    round_trips(AgentMessage::Number { agent_id: "x".to_string(), value: 42 });
}

#[test]
fn all_variants_round_trip() {
    round_trips(AgentMessage::Presence { agent_id: "agent-1".to_string() });
    round_trips(AgentMessage::PresenceAck { agent_id: "".to_string() });
    round_trips(AgentMessage::Ping { agent_id: "p".to_string(), seq: u64::MAX });
    round_trips(AgentMessage::Pong { agent_id: "p".to_string(), seq: 1 });
    round_trips(AgentMessage::Text { agent_id: "t".to_string(), content: "".to_string() });
    round_trips(AgentMessage::Text {
        agent_id: "Ünïcødé-āgent".to_string(),
        content: "emoji \u{1F980} and controls \u{1b}[0m \u{0} end".to_string(),
    });
    round_trips(AgentMessage::Number { agent_id: "n".to_string(), value: 0 });
    round_trips(AgentMessage::Number { agent_id: "n".to_string(), value: u64::MAX });
}

#[test]
fn rejects_malformed_frames() {
    // Unknown discriminant.
    assert_eq!(decode_message("{\"type\":\"hello\",\"agent_id\":\"x\"}"), None);
    // Not a frame at all.
    assert_eq!(decode_message(""), None);
    assert_eq!(decode_message("not json"), None);
    // Truncated.
    assert_eq!(decode_message("{\"type\":\"presence\",\"agent_id\":\"x\""), None);
    // Trailing garbage.
    assert_eq!(decode_message("{\"type\":\"presence\",\"agent_id\":\"x\"}x"), None);
    // Unescaped control character inside a string.
    assert_eq!(decode_message("{\"type\":\"presence\",\"agent_id\":\"a\nb\"}"), None);
    // Unknown escape.
    assert_eq!(decode_message("{\"type\":\"presence\",\"agent_id\":\"a\\qb\"}"), None);
    // A non-canonical unicode escape (printable character).
    assert_eq!(decode_message("{\"type\":\"presence\",\"agent_id\":\"\\u0041\"}"), None);
    // A short-escaped control written in long form is not canonical.
    assert_eq!(decode_message("{\"type\":\"presence\",\"agent_id\":\"\\u000a\"}"), None);
    // Numbers: leading zeros and overflow are rejected.
    assert_eq!(decode_message("{\"type\":\"number\",\"agent_id\":\"x\",\"value\":042}"), None);
    assert_eq!(
        decode_message("{\"type\":\"number\",\"agent_id\":\"x\",\"value\":18446744073709551616}"),
        None
    );
    // Largest value still accepted.
    assert_eq!(
        decode_message("{\"type\":\"number\",\"agent_id\":\"x\",\"value\":18446744073709551615}"),
        Some(AgentMessage::Number { agent_id: "x".to_string(), value: u64::MAX })
    );
}

#[test]
fn decodes_canonical_control_escapes() {
    let wire = "{\"type\":\"text\",\"agent_id\":\"x\",\"content\":\"a\\u0000b\\u001fc\"}";
    assert_eq!(
        decode_message(wire),
        Some(AgentMessage::Text {
            agent_id: "x".to_string(),
            content: "a\u{0}b\u{1f}c".to_string()
        })
    );
}

#[test]
fn sender_id_names_every_variant() {
    assert_eq!(AgentMessage::Presence { agent_id: "a".to_string() }.sender_id(), "a");
    assert_eq!(AgentMessage::PresenceAck { agent_id: "b".to_string() }.sender_id(), "b");
    assert_eq!(AgentMessage::Ping { agent_id: "c".to_string(), seq: 1 }.sender_id(), "c");
    assert_eq!(AgentMessage::Pong { agent_id: "d".to_string(), seq: 2 }.sender_id(), "d");
    assert_eq!(
        AgentMessage::Text { agent_id: "e".to_string(), content: "hi".to_string() }.sender_id(),
        "e"
    );
    assert_eq!(AgentMessage::Number { agent_id: "f".to_string(), value: 3 }.sender_id(), "f");
}
