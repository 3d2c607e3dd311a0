//! The conversation coordinator: a per-peer turn-taking state machine that
//! bounds the number of exchanged text messages and deterministically selects
//! exactly one side to initiate.
//!
//! Each side may send at most half of [`crate::MAX_CONVERSATION_MESSAGES`]
//! messages per peer.  A conversation with a peer is complete once both the
//! sent and the received count have reached that half; the completion
//! notification fires at most once per peer.  Among connected peers, a
//! process initiates if and only if its own identity sorts strictly below
//! every peer's identity.

use vstd::prelude::*;
use crate::strutil::{lex_lt, lemma_lex_trichotomy, seq_views, str_lt, strings_contain};
use crate::registry::{views_set, lemma_views_set_contains, lemma_views_set_push};

verus! {

/// A count map read with zero as the default.
pub open spec fn count_of(m: Map<Seq<char>, nat>, k: Seq<char>) -> nat {
    if m.dom().contains(k) {
        m[k]
    } else {
        0
    }
}

/// Incrementing one peer's count.
pub open spec fn bump(m: Map<Seq<char>, nat>, k: Seq<char>) -> Map<Seq<char>, nat> {
    m.insert(k, count_of(m, k) + 1)
}

/// The abstract coordinator state.
pub struct ConversationView {
    /// Messages this process has sent, per peer.
    pub sent: Map<Seq<char>, nat>,
    /// Messages received from each peer.
    pub received: Map<Seq<char>, nat>,
    /// The peers whose completion has already been observed.
    pub completed: Set<Seq<char>>,
}

/// The association list holding one count per peer.
pub open spec fn assoc_map(v: Seq<(String, usize)>) -> Map<Seq<char>, nat>
    decreases v.len(),
{
    if v.len() == 0 {
        Map::empty()
    } else {
        assoc_map(v.drop_last()).insert(v.last().0@, v.last().1 as nat)
    }
}

/// No two entries name the same peer.
pub open spec fn keys_unique(v: Seq<(String, usize)>) -> bool {
    forall|i: int, j: int| 0 <= i < j < v.len() ==> v[i].0@ != v[j].0@
}

/// With unique keys the association list reads as its map: a key is present
/// exactly when some entry names it, and that entry gives its count.
pub proof fn lemma_assoc_props(v: Seq<(String, usize)>)
    requires
        keys_unique(v),
    ensures
        forall|k: Seq<char>|
            #[trigger] assoc_map(v).dom().contains(k) <==> exists|i: int|
                0 <= i < v.len() && #[trigger] v[i].0@ == k,
        forall|i: int| 0 <= i < v.len() ==> assoc_map(v)[#[trigger] v[i].0@] == v[i].1,
    decreases v.len(),
{
    if v.len() > 0 {
        let w = v.drop_last();
        assert(keys_unique(w)) by {
            assert(forall|i: int, j: int| 0 <= i < j < w.len() ==> w[i] == v[i] && w[j] == v[j]);
        }
        lemma_assoc_props(w);
        assert forall|k: Seq<char>| #[trigger] assoc_map(v).dom().contains(k) implies exists|i: int|
            0 <= i < v.len() && #[trigger] v[i].0@ == k by {
            if k == v.last().0@ {
                assert(v[v.len() - 1].0@ == k);
            } else {
                assert(assoc_map(v) == assoc_map(w).insert(v.last().0@, v.last().1 as nat));
                assert(assoc_map(w).dom().contains(k));
                let i = choose|i: int| 0 <= i < w.len() && #[trigger] w[i].0@ == k;
                assert(w[i] == v[i]);
                assert(v[i].0@ == k);
            }
        }
        assert forall|k: Seq<char>| (exists|i: int| 0 <= i < v.len() && #[trigger] v[i].0@ == k)
            implies #[trigger] assoc_map(v).dom().contains(k) by {
            let i = choose|i: int| 0 <= i < v.len() && #[trigger] v[i].0@ == k;
            if i < v.len() - 1 {
                assert(w[i].0@ == k);
            }
        }
        assert forall|i: int| 0 <= i < v.len() implies assoc_map(v)[#[trigger] v[i].0@]
            == v[i].1 by {
            if i < v.len() - 1 {
                assert(w[i].0@ == v[i].0@);
                assert(v[i].0@ != v.last().0@);
            }
        }
    }
}

/// Replacing the entry at `i` by one for the same peer updates that peer's
/// count and no other.
pub proof fn lemma_assoc_update(v: Seq<(String, usize)>, i: int, p: (String, usize))
    requires
        keys_unique(v),
        0 <= i < v.len(),
        p.0@ == v[i].0@,
    ensures
        keys_unique(v.update(i, p)),
        assoc_map(v.update(i, p)) == assoc_map(v).insert(p.0@, p.1 as nat),
    decreases v.len(),
{
    let u = v.update(i, p);
    assert(keys_unique(u)) by {
        assert(forall|q: int| 0 <= q < v.len() && q != i ==> u[q] == v[q]);
        assert(u[i].0@ == v[i].0@);
    }
    if i == v.len() - 1 {
        assert(u.drop_last() =~= v.drop_last());
        assert(u.last() == p);
        assert(assoc_map(u) == assoc_map(v.drop_last()).insert(p.0@, p.1 as nat));
        assert(assoc_map(v) == assoc_map(v.drop_last()).insert(v.last().0@, v.last().1 as nat));
        assert(assoc_map(v).insert(p.0@, p.1 as nat) =~= assoc_map(v.drop_last()).insert(
            p.0@,
            p.1 as nat,
        ));
    } else {
        let w = v.drop_last();
        assert(keys_unique(w)) by {
            assert(forall|q: int, j: int| 0 <= q < j < w.len() ==> w[q] == v[q] && w[j] == v[j]);
        }
        assert(u.drop_last() =~= w.update(i, p));
        assert(u.last() == v.last());
        lemma_assoc_update(w, i, p);
        assert(assoc_map(u) == assoc_map(w).insert(p.0@, p.1 as nat).insert(
            v.last().0@,
            v.last().1 as nat,
        ));
        assert(p.0@ != v.last().0@) by {
            assert(v[i].0@ != v[v.len() - 1].0@);
        }
        assert(assoc_map(w).insert(p.0@, p.1 as nat).insert(v.last().0@, v.last().1 as nat)
            =~= assoc_map(w).insert(v.last().0@, v.last().1 as nat).insert(p.0@, p.1 as nat));
    }
}

/// Appending an entry for a fresh peer inserts its count.
pub proof fn lemma_assoc_push(v: Seq<(String, usize)>, p: (String, usize))
    requires
        keys_unique(v),
        forall|i: int| 0 <= i < v.len() ==> #[trigger] v[i].0@ != p.0@,
    ensures
        keys_unique(v.push(p)),
        assoc_map(v.push(p)) == assoc_map(v).insert(p.0@, p.1 as nat),
{
    assert(v.push(p).drop_last() =~= v);
    assert(v.push(p).last() == p);
    assert(keys_unique(v.push(p))) by {
        assert(forall|i: int| 0 <= i < v.len() ==> v.push(p)[i] == v[i]);
    }
}

/// One count map of the coordinator, keyed by peer identity.
struct CountMap {
    entries: Vec<(String, usize)>,
}

impl CountMap {
    spec fn wf(&self) -> bool {
        keys_unique(self.entries@)
    }

    spec fn view_map(&self) -> Map<Seq<char>, nat> {
        assoc_map(self.entries@)
    }

    fn new() -> (r: CountMap)
        ensures
            r.wf(),
            r.view_map() == Map::<Seq<char>, nat>::empty(),
    {
        CountMap { entries: Vec::new() }
    }

    /// The count recorded for a peer, zero if none.
    fn get(&self, peer: &str) -> (r: usize)
        requires
            self.wf(),
        ensures
            r == count_of(self.view_map(), peer@),
    {
        proof {
            lemma_assoc_props(self.entries@);
        }
        let mut i: usize = 0;
        while i < self.entries.len()
            invariant
                self.wf(),
                i <= self.entries@.len(),
                forall|j: int| 0 <= j < i ==> #[trigger] self.entries@[j].0@ != peer@,
                forall|j: int|
                    0 <= j < self.entries@.len() ==> assoc_map(self.entries@)[
                    #[trigger] self.entries@[j].0@] == self.entries@[j].1,
                forall|k: Seq<char>|
                    #[trigger] assoc_map(self.entries@).dom().contains(k) <==> exists|j: int|
                        0 <= j < self.entries@.len() && #[trigger] self.entries@[j].0@ == k,
            decreases self.entries@.len() - i,
        {
            if crate::strutil::str_eq(self.entries[i].0.as_str(), peer) {
                return self.entries[i].1;
            }
            i = i + 1;
        }
        proof {
            if count_of(self.view_map(), peer@) != 0 {
                assert(assoc_map(self.entries@).dom().contains(peer@));
            }
        }
        0
    }

    /// Increments the count for a peer and returns the new value.
    fn increment(&mut self, peer: &str) -> (r: usize)
        requires
            old(self).wf(),
            count_of(old(self).view_map(), peer@) < usize::MAX,
        ensures
            final(self).wf(),
            final(self).view_map() == bump(old(self).view_map(), peer@),
            r == count_of(old(self).view_map(), peer@) + 1,
    {
        proof {
            lemma_assoc_props(self.entries@);
        }
        let mut i: usize = 0;
        while i < self.entries.len()
            invariant
                self.wf(),
                self.entries@ == old(self).entries@,
                i <= self.entries@.len(),
                forall|j: int| 0 <= j < i ==> #[trigger] self.entries@[j].0@ != peer@,
                forall|j: int|
                    0 <= j < self.entries@.len() ==> assoc_map(self.entries@)[
                    #[trigger] self.entries@[j].0@] == self.entries@[j].1,
                forall|k: Seq<char>|
                    #[trigger] assoc_map(self.entries@).dom().contains(k) <==> exists|j: int|
                        0 <= j < self.entries@.len() && #[trigger] self.entries@[j].0@ == k,
                count_of(self.view_map(), peer@) < usize::MAX,
            decreases self.entries@.len() - i,
        {
            if crate::strutil::str_eq(self.entries[i].0.as_str(), peer) {
                let c = self.entries[i].1;
                proof {
                    assert(assoc_map(self.entries@)[self.entries@[i as int].0@]
                        == self.entries@[i as int].1);
                    assert(assoc_map(self.entries@).dom().contains(peer@));
                    assert(c == count_of(self.view_map(), peer@));
                    lemma_assoc_update(
                        self.entries@,
                        i as int,
                        (self.entries@[i as int].0, (c + 1) as usize),
                    );
                }
                let key = self.entries[i].0.clone();
                let ghost entry0 = self.entries@[i as int];
                self.entries[i] = (key, c + 1);
                proof {
                    assert(self.entries@ =~= old(self).entries@.update(
                        i as int,
                        (entry0.0, (c + 1) as usize),
                    )) by {
                        assert(self.entries@[i as int].0@ == entry0.0@);
                        assert(forall|q: int|
                            0 <= q < self.entries@.len() && q != i ==> self.entries@[q] == old(
                                self,
                            ).entries@[q]);
                        assert(self.entries@[i as int].1 == c + 1);
                        assert(self.entries@[i as int].0 == entry0.0) by {
                            assert(self.entries@[i as int].0@ == entry0.0@);
                        }
                    }
                }
                return c + 1;
            }
            i = i + 1;
        }
        proof {
            if assoc_map(self.entries@).dom().contains(peer@) {
                let j = choose|j: int|
                    0 <= j < self.entries@.len() && #[trigger] self.entries@[j].0@ == peer@;
                assert(false);
            }
            assert(count_of(self.view_map(), peer@) == 0);
        }
        let owned = String::from_str(peer);
        proof {
            lemma_assoc_push(self.entries@, (owned, 1usize));
        }
        self.entries.push((owned, 1));
        1
    }
}

/// Per-peer turn-taking state: how much each side has said, and which
/// conversations were already observed complete.
pub struct ConversationState {
    sent: CountMap,
    received: CountMap,
    completed: Vec<String>,
}

impl View for ConversationState {
    type V = ConversationView;

    closed spec fn view(&self) -> ConversationView {
        ConversationView {
            sent: self.sent.view_map(),
            received: self.received.view_map(),
            completed: views_set(self.completed@),
        }
    }
}

impl ConversationState {
    pub closed spec fn wf(&self) -> bool {
        self.sent.wf() && self.received.wf()
    }

    /// A fresh coordinator: no counts, nothing complete.
    pub fn new() -> (r: ConversationState)
        ensures
            r.wf(),
            r@.sent == Map::<Seq<char>, nat>::empty(),
            r@.received == Map::<Seq<char>, nat>::empty(),
            r@.completed == Set::<Seq<char>>::empty(),
    {
        let r = ConversationState {
            sent: CountMap::new(),
            received: CountMap::new(),
            completed: Vec::new(),
        };
        proof {
            assert forall|y: Seq<char>| !views_set(r.completed@).contains(y) by {
                lemma_views_set_contains(r.completed@, y);
            }
            assert(views_set(r.completed@) =~= Set::<Seq<char>>::empty());
        }
        r
    }

    /// Messages this process has sent to a peer in the current exchange.
    pub fn sent_count(&self, peer: &str) -> (r: usize)
        requires
            self.wf(),
        ensures
            r == count_of(self@.sent, peer@),
    {
        self.sent.get(peer)
    }

    /// Messages received from a peer.
    pub fn received_count(&self, peer: &str) -> (r: usize)
        requires
            self.wf(),
        ensures
            r == count_of(self@.received, peer@),
    {
        self.received.get(peer)
    }

    /// Records one received message and returns the new count.
    pub fn record_received(&mut self, peer: &str) -> (r: usize)
        requires
            old(self).wf(),
            count_of(old(self)@.received, peer@) < usize::MAX,
        ensures
            final(self).wf(),
            final(self)@.received == bump(old(self)@.received, peer@),
            final(self)@.sent == old(self)@.sent,
            final(self)@.completed == old(self)@.completed,
            r == count_of(old(self)@.received, peer@) + 1,
    {
        self.received.increment(peer)
    }

    /// Records one sent message and returns the new count.
    pub fn record_sent(&mut self, peer: &str) -> (r: usize)
        requires
            old(self).wf(),
            count_of(old(self)@.sent, peer@) < usize::MAX,
        ensures
            final(self).wf(),
            final(self)@.sent == bump(old(self)@.sent, peer@),
            final(self)@.received == old(self)@.received,
            final(self)@.completed == old(self)@.completed,
            r == count_of(old(self)@.sent, peer@) + 1,
    {
        self.sent.increment(peer)
    }

    /// Whether the exchange with this peer has reached its bound on both
    /// sides and its completion has not been observed yet.
    pub open spec fn completes_now(v: ConversationView, peer: Seq<char>) -> bool {
        &&& count_of(v.sent, peer) >= crate::MAX_CONVERSATION_MESSAGES / 2
        &&& count_of(v.received, peer) >= crate::MAX_CONVERSATION_MESSAGES / 2
        &&& !v.completed.contains(peer)
    }

    /// Observes a possible completion.  Returns whether the completion fired
    /// now; it fires at most once per peer, so repeated qualifying events
    /// notify once.
    pub fn maybe_complete(&mut self, peer: &str) -> (r: bool)
        requires
            old(self).wf(),
        ensures
            final(self).wf(),
            r == Self::completes_now(old(self)@, peer@),
            final(self)@.completed == (if r {
                old(self)@.completed.insert(peer@)
            } else {
                old(self)@.completed
            }),
            final(self)@.sent == old(self)@.sent,
            final(self)@.received == old(self)@.received,
    {
        let limit = crate::per_side_budget();
        let our = self.sent.get(peer);
        let theirs = self.received.get(peer);
        if our < limit || theirs < limit {
            return false;
        }
        proof {
            lemma_views_set_contains(self.completed@, peer@);
        }
        if strings_contain(&self.completed, peer) {
            return false;
        }
        let owned = String::from_str(peer);
        proof {
            lemma_views_set_push(self.completed@, owned);
        }
        self.completed.push(owned);
        true
    }
}

/// Whether this process's identity sorts strictly below every connected
/// peer's identity: the deterministic symmetry-breaking rule that selects
/// exactly one initiator for any pair.
pub open spec fn spec_should_initiate(me: Seq<char>, peers: Seq<Seq<char>>) -> bool {
    forall|i: int| 0 <= i < peers.len() ==> lex_lt(me, #[trigger] peers[i])
}

/// The initiator decision over the currently connected peers.
pub fn should_initiate(agent_id: &str, peers: &Vec<String>) -> (r: bool)
    ensures
        r == spec_should_initiate(agent_id@, seq_views(peers@)),
{
    let mut i: usize = 0;
    while i < peers.len()
        invariant
            i <= peers@.len(),
            forall|j: int| 0 <= j < i ==> lex_lt(agent_id@, #[trigger] seq_views(peers@)[j]),
        decreases peers@.len() - i,
    {
        if !str_lt(agent_id, peers[i].as_str()) {
            proof {
                assert(seq_views(peers@)[i as int] == peers@[i as int]@);
            }
            return false;
        }
        proof {
            assert(seq_views(peers@)[i as int] == peers@[i as int]@);
        }
        i = i + 1;
    }
    true
}

/// Law: initiator determinism.  For two processes with distinct identities
/// connected to each other, exactly one of them initiates.
pub proof fn lemma_exactly_one_initiator(a: Seq<char>, b: Seq<char>)
    requires
        a != b,
    ensures
        spec_should_initiate(a, seq![b]) <==> !spec_should_initiate(b, seq![a]),
{
    lemma_lex_trichotomy(a, b);
    assert(seq![b][0] == b);
    assert(seq![a][0] == a);
    if lex_lt(a, b) {
        assert(spec_should_initiate(a, seq![b]));
    } else {
        assert(!spec_should_initiate(a, seq![b]));
        assert(spec_should_initiate(b, seq![a]));
    }
}

/// Law: bounded exchange.  For the conversation budget of four messages, a
/// full exchange between two peers leaves each side's sent count for the
/// other at exactly two, and the completion fires exactly once per peer even
/// when the qualifying event repeats.
pub proof fn lemma_bounded_exchange(a_id: Seq<char>, b_id: Seq<char>)
    ensures
        ({
            // The initiator A greets, receives a reply, replies once more and
            // receives again; the responder B mirrors this.
            let a0 = ConversationView {
                sent: Map::empty(),
                received: Map::empty(),
                completed: Set::empty(),
            };
            let a1 = ConversationView { sent: bump(a0.sent, b_id), ..a0 };
            let a2 = ConversationView { received: bump(a1.received, b_id), ..a1 };
            let a3 = ConversationView { sent: bump(a2.sent, b_id), ..a2 };
            let a4 = ConversationView { received: bump(a3.received, b_id), ..a3 };
            let b0 = ConversationView {
                sent: Map::empty(),
                received: Map::empty(),
                completed: Set::empty(),
            };
            let b1 = ConversationView { received: bump(b0.received, a_id), ..b0 };
            let b2 = ConversationView { sent: bump(b1.sent, a_id), ..b1 };
            let b3 = ConversationView { received: bump(b2.received, a_id), ..b2 };
            let b4 = ConversationView { sent: bump(b3.sent, a_id), ..b3 };
            &&& count_of(a4.sent, b_id) == 2
            &&& count_of(b4.sent, a_id) == 2
            &&& ConversationState::completes_now(a4, b_id)
            &&& !ConversationState::completes_now(
                ConversationView { completed: a4.completed.insert(b_id), ..a4 },
                b_id,
            )
            &&& ConversationState::completes_now(b4, a_id)
            &&& !ConversationState::completes_now(
                ConversationView { completed: b4.completed.insert(a_id), ..b4 },
                a_id,
            )
        }),
{
}

} // verus!
