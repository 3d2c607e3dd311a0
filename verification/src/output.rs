//! The decisions behind the human-readable status lines: which label a
//! message carries, which payload frames get logged, and the suppression of
//! duplicate peer-message lines.  The printing itself, with its colors, is
//! the surrounding process's business.

use vstd::prelude::*;
use vstd::string::*;
use crate::digits::dec_digits;
use crate::protocol::{AgentMessage, MessageView};
use crate::registry::{lemma_views_set_contains, lemma_views_set_push, views_set};
use crate::strutil::{seq_views, strings_contain};

verus! {

/// An unsigned value written in decimal.
pub fn u64_string(v: u64) -> (r: String)
    ensures
        r@ == dec_digits(v as nat),
{
    let mut out = String::new();
    crate::digits::push_u64_decimal(&mut out, v);
    proof {
        assert(out@ =~= dec_digits(v as nat));
    }
    out
}

/// The identity label shown in front of a message, present only when
/// per-agent labels are requested.
pub fn agent_label(agent_id: &str, show: bool) -> (r: Option<String>)
    ensures
        show ==> (r matches Some(l) && l@ == "["@ + agent_id@ + "]"@),
        !show ==> r is None,
{
    if show {
        let mut out = String::from_str("[");
        out.append(agent_id);
        out.append("]");
        proof {
            assert(out@ =~= "["@ + agent_id@ + "]"@);
        }
        Some(out)
    } else {
        None
    }
}

/// The deduplication key of one peer-message line: a direction-and-kind
/// prefix, the identity, and the payload text.
pub fn log_key(prefix: &str, agent_id: &str, payload: &str) -> (r: String)
    ensures
        r@ == prefix@ + agent_id@ + ":"@ + payload@,
{
    let mut out = String::from_str(prefix);
    out.append(agent_id);
    out.append(":");
    out.append(payload);
    proof {
        assert(out@ =~= prefix@ + agent_id@ + ":"@ + payload@);
    }
    out
}

/// The payload lines a received frame contributes to the log: text and
/// number frames are shown, control frames are silent.
pub enum PeerLogLine {
    Text { agent_id: String, content: String },
    Number { agent_id: String, value: u64 },
    Silent,
}

/// What to log for one received frame.
pub fn log_peer_message_received(message: &AgentMessage) -> (r: PeerLogLine)
    ensures
        match message@ {
            MessageView::Text { agent_id, content } => r matches PeerLogLine::Text {
                agent_id: a,
                content: c,
            } && a@ == agent_id && c@ == content,
            MessageView::Number { agent_id, value } => r matches PeerLogLine::Number {
                agent_id: a,
                value: v,
            } && a@ == agent_id && v == value,
            _ => r is Silent,
        },
{
    match message {
        AgentMessage::Text { agent_id, content } => PeerLogLine::Text {
            agent_id: agent_id.clone(),
            content: content.clone(),
        },
        AgentMessage::Number { agent_id, value } => PeerLogLine::Number {
            agent_id: agent_id.clone(),
            value: *value,
        },
        _ => PeerLogLine::Silent,
    }
}

/// The recently logged peer-message keys, used to keep a line from being
/// printed twice; the set is cleared once it outgrows a hundred entries so
/// it cannot grow without bound.
pub struct RecentMessages {
    seen: Vec<String>,
}

impl View for RecentMessages {
    type V = Set<Seq<char>>;

    closed spec fn view(&self) -> Set<Seq<char>> {
        views_set(self.seen@)
    }
}

impl RecentMessages {
    pub closed spec fn wf(&self) -> bool {
        seq_views(self.seen@).no_duplicates()
    }

    /// An empty record of recent messages.
    pub fn new() -> (r: RecentMessages)
        ensures
            r.wf(),
            r@ == Set::<Seq<char>>::empty(),
            r@.finite(),
    {
        let r = RecentMessages { seen: Vec::new() };
        proof {
            assert forall|y: Seq<char>| !views_set(r.seen@).contains(y) by {
                lemma_views_set_contains(r.seen@, y);
            }
            assert(views_set(r.seen@) =~= Set::<Seq<char>>::empty());
        }
        r
    }

    /// Checks whether a key was recently logged, and marks it as seen.  When
    /// the record has outgrown a hundred entries it is cleared first.
    pub fn is_duplicate(&mut self, key: &str) -> (r: bool)
        requires
            old(self).wf(),
        ensures
            final(self).wf(),
            final(self)@.finite(),
            final(self)@.len() <= 101,
            ({
                let base: Set<Seq<char>> = if old(self)@.len() > 100 {
                    Set::empty()
                } else {
                    old(self)@
                };
                r == base.contains(key@) && final(self)@ == base.insert(key@)
            }),
    {
        proof {
            broadcast use vstd::seq_lib::seq_to_set_is_finite;

            seq_views(self.seen@).unique_seq_to_set();
        }
        if self.seen.len() > 100 {
            self.seen = Vec::new();
            proof {
                assert forall|y: Seq<char>| !views_set(self.seen@).contains(y) by {
                    lemma_views_set_contains(self.seen@, y);
                }
                assert(views_set(self.seen@) =~= Set::<Seq<char>>::empty());
            }
        }
        proof {
            lemma_views_set_contains(self.seen@, key@);
        }
        proof {
            broadcast use vstd::seq_lib::seq_to_set_is_finite;

            seq_views(self.seen@).unique_seq_to_set();
            assert(self@.len() == self.seen@.len());
        }
        if strings_contain(&self.seen, key) {
            proof {
                assert(self@.insert(key@) =~= self@);
            }
            return true;
        }
        let owned = String::from_str(key);
        proof {
            lemma_views_set_push(self.seen@, owned);
            let q = seq_views(self.seen@);
            let qp = seq_views(self.seen@.push(owned));
            assert(qp =~= q.push(owned@)) by {
                assert(forall|i: int|
                    0 <= i < self.seen@.len() ==> qp[i] == #[trigger] self.seen@[i]@);
            }
            assert(q.push(owned@).no_duplicates()) by {
                assert(forall|i: int| 0 <= i < q.len() ==> q.push(owned@)[i] == q[i]);
                assert(forall|i: int| 0 <= i < self.seen@.len() ==> q[i] == #[trigger] self.seen@[i]@);
            }
        }
        self.seen.push(owned);
        false
    }
}

} // verus!
