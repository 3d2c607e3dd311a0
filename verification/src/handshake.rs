//! The handshake engine and the peer node it drives.
//!
//! A [`PeerNode`] owns the connection registry, the relay bus and the
//! delivery queue of one process.  The functions here are the decisions and
//! state transitions of the connect and accept sequences; the surrounding
//! process performs the transport work (opening sockets, reading and writing
//! frames, waiting under deadlines) and feeds every received frame back in.
//!
//! Outbound: if the URL is already linked, [`PeerNode::connect_begin`]
//! answers `Connected` at once and nothing else happens.  Otherwise the
//! process opens the transport, sends the frame from
//! [`PeerNode::presence_frame`], and hands every frame received while
//! awaiting the acknowledgement to [`PeerNode::outbound_wait_step`]; on the
//! acknowledgement it calls [`PeerNode::complete_outbound`], and on a timeout
//! or a closed stream [`PeerNode::fail_outbound`], which touches no state.
//!
//! Inbound: every frame of an accepted link goes through
//! [`PeerNode::accept_frame`], which registers presences, answers pings, and
//! delivers application payloads.

use vstd::prelude::*;
use crate::codec::{encode_message, wire_view};
use crate::protocol::{AgentMessage, MessageView, PeerConnectionResult};
use crate::registry::ConnectionRegistry;
use crate::relay::{BusCursor, BusRecv, DeliveryQueue, DeliveryReceiver, RelayBus};

verus! {

/// How many frames the relay bus retains for a lagging link.
pub const RELAY_CAPACITY: usize = 100;

/// The abstract state of one peer process.
pub struct NodeView {
    /// This process's own identity.
    pub agent_id: Seq<char>,
    /// The identities considered live peers.
    pub peers: Set<Seq<char>>,
    /// The outbound URLs already linked.
    pub urls: Set<Seq<char>>,
    /// Every frame ever published on the relay bus, in publish order.
    pub log: Seq<Seq<char>>,
    /// The application frames awaiting the in-process consumer.
    pub pending: Seq<MessageView>,
    /// Whether the single delivery receiver has been taken.
    pub receiver_taken: bool,
}

/// What the accept sequence did with one inbound frame.
pub enum AcceptAction {
    /// A presence was registered and an acknowledgement was enqueued.
    PeerJoined,
    /// A ping was answered with a pong.
    PongSent,
    /// An application payload was handed to the delivery queue.
    Delivered,
    /// A non-application control frame; nothing to do on the accept side.
    Ignored,
}

/// One peer process: identity, listen port, registry, relay bus and delivery
/// queue.
pub struct PeerNode {
    agent_id: String,
    port: u16,
    registry: ConnectionRegistry,
    bus: RelayBus,
    incoming: DeliveryQueue,
}

impl View for PeerNode {
    type V = NodeView;

    closed spec fn view(&self) -> NodeView {
        NodeView {
            agent_id: self.agent_id@,
            peers: self.registry@.peers,
            urls: self.registry@.urls,
            log: self.bus.log(),
            pending: self.incoming@.pending,
            receiver_taken: self.incoming@.taken,
        }
    }
}

impl PeerNode {
    pub closed spec fn wf(&self) -> bool {
        self.registry.wf() && self.bus.wf() && self.bus.cap() == RELAY_CAPACITY
    }

    /// A fresh node: no peers, no links, nothing published or pending.
    pub fn new(agent_id: String, port: u16) -> (r: PeerNode)
        ensures
            r.wf(),
            r@.agent_id == agent_id@,
            r@.peers == Set::<Seq<char>>::empty(),
            r@.urls == Set::<Seq<char>>::empty(),
            r@.log == Seq::<Seq<char>>::empty(),
            r@.pending == Seq::<MessageView>::empty(),
            !r@.receiver_taken,
            r.bus_oldest() == 0,
            r.listen_port_spec() == port,
    {
        PeerNode {
            agent_id,
            port,
            registry: ConnectionRegistry::new(),
            bus: RelayBus::new(RELAY_CAPACITY),
            incoming: DeliveryQueue::new(),
        }
    }

    pub closed spec fn listen_port_spec(&self) -> u16 {
        self.port
    }

    /// This node's own identity.
    pub fn agent_id_str(&self) -> (r: &str)
        ensures
            r@ == self@.agent_id,
    {
        self.agent_id.as_str()
    }

    /// The port this node accepts inbound links on.
    pub fn listen_port(&self) -> (r: u16)
        ensures
            r == self.listen_port_spec(),
    {
        self.port
    }

    /// Whether an outbound link to this URL already exists.
    pub fn is_connected_to_url(&self, url: &str) -> (r: bool)
        ensures
            r == self@.urls.contains(url@),
    {
        self.registry.is_connected_to_url(url)
    }

    /// The first step of the outbound connect sequence: if the URL is
    /// already linked the attempt is a no-op success and no second socket is
    /// opened; otherwise the transport work begins.
    pub fn connect_begin(&self, url: &str) -> (r: Option<PeerConnectionResult>)
        ensures
            (r is Some) == self@.urls.contains(url@),
            r matches Some(pr) ==> pr matches PeerConnectionResult::Connected(u) && u@ == url@,
    {
        if self.registry.is_connected_to_url(url) {
            Some(PeerConnectionResult::Connected(String::from_str(url)))
        } else {
            None
        }
    }

    /// The presence announcement this node opens every outbound link with.
    pub fn presence_frame(&self) -> (r: AgentMessage)
        ensures
            r@ == (MessageView::Presence { agent_id: self@.agent_id }),
    {
        AgentMessage::Presence { agent_id: self.agent_id.clone() }
    }

    /// One frame received while awaiting the acknowledgement: an
    /// acknowledgement yields the remote identity and changes nothing; any
    /// other well-formed frame is forwarded to the delivery queue so that
    /// messages arriving before the acknowledgement are not lost.
    pub fn outbound_wait_step(&mut self, msg: AgentMessage) -> (r: Option<String>)
        requires
            old(self).wf(),
        ensures
            final(self).wf(),
            final(self)@.agent_id == old(self)@.agent_id,
            final(self)@.peers == old(self)@.peers,
            final(self)@.urls == old(self)@.urls,
            final(self)@.log == old(self)@.log,
            final(self).bus_oldest() == old(self).bus_oldest(),
            final(self)@.receiver_taken == old(self)@.receiver_taken,
            match msg@ {
                MessageView::PresenceAck { agent_id } => r matches Some(p) && p@ == agent_id
                    && final(self)@.pending == old(self)@.pending,
                _ => r is None && final(self)@.pending == old(self)@.pending.push(msg@),
            },
    {
        match msg {
            AgentMessage::PresenceAck { agent_id } => Some(agent_id),
            other => {
                self.incoming.push(other);
                None
            },
        }
    }

    /// Completes a successful outbound handshake: the remote identity and
    /// the URL are registered, and the attempt reports `Connected`.
    pub fn complete_outbound(&mut self, peer_id: String, url: String) -> (r: PeerConnectionResult)
        requires
            old(self).wf(),
        ensures
            final(self).wf(),
            final(self)@.agent_id == old(self)@.agent_id,
            final(self)@.peers == old(self)@.peers.insert(peer_id@),
            final(self)@.urls == old(self)@.urls.insert(url@),
            final(self)@.log == old(self)@.log,
            final(self).bus_oldest() == old(self).bus_oldest(),
            final(self)@.pending == old(self)@.pending,
            final(self)@.receiver_taken == old(self)@.receiver_taken,
            r matches PeerConnectionResult::Connected(u) && u@ == url@,
    {
        self.registry.register_peer(peer_id);
        let result = PeerConnectionResult::Connected(url.clone());
        self.registry.register_url(url);
        result
    }

    /// A failed outbound attempt: the result names the URL and the reason,
    /// and no state is mutated (the node is not even borrowed mutably).
    pub fn fail_outbound(&self, url: String, reason: String) -> (r: PeerConnectionResult)
        ensures
            r matches PeerConnectionResult::Failed(u, e) && u@ == url@ && e@ == reason@,
    {
        PeerConnectionResult::Failed(url, reason)
    }

    /// The accept sequence for one inbound frame: a presence registers the
    /// remote identity and enqueues an acknowledgement carrying this node's
    /// identity; a ping is answered with a pong echoing its sequence number;
    /// a payload frame goes to the delivery queue; the remaining control
    /// frames are filtered out before the queue.
    pub fn accept_frame(&mut self, msg: AgentMessage) -> (r: AcceptAction)
        requires
            old(self).wf(),
            old(self)@.log.len() < u64::MAX,
        ensures
            final(self).wf(),
            final(self)@.agent_id == old(self)@.agent_id,
            final(self)@.urls == old(self)@.urls,
            final(self)@.receiver_taken == old(self)@.receiver_taken,
            final(self).bus_oldest() == (if final(self)@.log == old(self)@.log {
                old(self).bus_oldest()
            } else if old(self)@.log.len() - old(self).bus_oldest() < RELAY_CAPACITY {
                old(self).bus_oldest()
            } else {
                old(self).bus_oldest() + 1
            }),
            match msg@ {
                MessageView::Presence { agent_id } => r is PeerJoined && final(self)@.peers == old(
                    self,
                )@.peers.insert(agent_id) && final(self)@.log == old(self)@.log.push(
                    wire_view(MessageView::PresenceAck { agent_id: old(self)@.agent_id }),
                ) && final(self)@.pending == old(self)@.pending,
                MessageView::Ping { agent_id, seq } => r is PongSent && final(self)@.peers == old(
                    self,
                )@.peers && final(self)@.log == old(self)@.log.push(
                    wire_view(MessageView::Pong { agent_id: old(self)@.agent_id, seq: seq }),
                ) && final(self)@.pending == old(self)@.pending,
                MessageView::Text { .. } => r is Delivered && final(self)@.peers == old(
                    self,
                )@.peers && final(self)@.log == old(self)@.log && final(self)@.pending == old(
                    self,
                )@.pending.push(msg@),
                MessageView::Number { .. } => r is Delivered && final(self)@.peers == old(
                    self,
                )@.peers && final(self)@.log == old(self)@.log && final(self)@.pending == old(
                    self,
                )@.pending.push(msg@),
                _ => r is Ignored && final(self)@.peers == old(self)@.peers && final(self)@.log
                    == old(self)@.log && final(self)@.pending == old(self)@.pending,
            },
    {
        match msg {
            AgentMessage::Presence { agent_id } => {
                self.registry.register_peer(agent_id);
                let ack = AgentMessage::PresenceAck { agent_id: self.agent_id.clone() };
                let frame = encode_message(&ack);
                self.bus.publish(frame);
                AcceptAction::PeerJoined
            },
            AgentMessage::Ping { agent_id: _, seq } => {
                let pong = AgentMessage::Pong { agent_id: self.agent_id.clone(), seq };
                let frame = encode_message(&pong);
                self.bus.publish(frame);
                AcceptAction::PongSent
            },
            AgentMessage::Text { agent_id, content } => {
                self.incoming.push(AgentMessage::Text { agent_id, content });
                AcceptAction::Delivered
            },
            AgentMessage::Number { agent_id, value } => {
                self.incoming.push(AgentMessage::Number { agent_id, value });
                AcceptAction::Delivered
            },
            _ => AcceptAction::Ignored,
        }
    }

    /// Publishes one frame to every connected link, in its wire form.
    pub fn broadcast(&mut self, message: &AgentMessage)
        requires
            old(self).wf(),
            old(self)@.log.len() < u64::MAX,
        ensures
            final(self).wf(),
            final(self)@.log == old(self)@.log.push(wire_view(message@)),
            final(self).bus_oldest() == (if old(self)@.log.len() - old(self).bus_oldest()
                < RELAY_CAPACITY {
                old(self).bus_oldest()
            } else {
                old(self).bus_oldest() + 1
            }),
            final(self)@.agent_id == old(self)@.agent_id,
            final(self)@.peers == old(self)@.peers,
            final(self)@.urls == old(self)@.urls,
            final(self)@.pending == old(self)@.pending,
            final(self)@.receiver_taken == old(self)@.receiver_taken,
    {
        let frame = encode_message(message);
        self.bus.publish(frame);
    }

    /// How many frames were ever published on the relay bus.
    pub fn published_count(&self) -> (r: u64)
        requires
            self.wf(),
        ensures
            r == self@.log.len(),
    {
        self.bus.published_count()
    }

    /// A writer task's view of the relay bus, starting at the present end of
    /// the log.
    pub fn subscribe(&self) -> (r: BusCursor)
        requires
            self.wf(),
        ensures
            r.next == self@.log.len(),
    {
        self.bus.subscribe()
    }

    /// The index of the oldest frame the relay bus still retains.
    pub closed spec fn bus_oldest(&self) -> int {
        self.bus.oldest()
    }

    /// The next frame for a writer task, in publish order; a lagging task
    /// loses the oldest frames rather than blocking the relay.
    pub fn next_frame(&self, cursor: &mut BusCursor) -> (r: BusRecv)
        requires
            self.wf(),
            old(cursor).next <= self@.log.len(),
        ensures
            match r {
                BusRecv::Empty => final(cursor).next == old(cursor).next && old(cursor).next
                    == self@.log.len(),
                BusRecv::Lagged { lost } => old(cursor).next < self.bus_oldest() && old(
                    cursor,
                ).next + lost == self.bus_oldest() && final(cursor).next == self.bus_oldest()
                    && self@.log.len() - self.bus_oldest() <= RELAY_CAPACITY,
                BusRecv::Frame(f) => old(cursor).next < self@.log.len() && f@
                    == self@.log[old(cursor).next as int] && final(cursor).next == old(cursor).next
                    + 1,
            },
    {
        proof {
            self.bus.lemma_retention_bounded();
        }
        self.bus.recv(cursor)
    }

    /// The number of connected peers.
    pub fn peer_count(&self) -> (r: usize)
        requires
            self.wf(),
        ensures
            r == self@.peers.len(),
    {
        self.registry.peer_count()
    }

    /// Whether any peer is connected.
    pub fn has_peers(&self) -> (r: bool)
        requires
            self.wf(),
        ensures
            r == (self@.peers.len() != 0),
    {
        self.registry.has_peers()
    }

    /// All connected peer identities, in no particular order.
    pub fn get_peer_ids(&self) -> (r: Vec<String>)
        requires
            self.wf(),
        ensures
            crate::registry::views_set(r@) == self@.peers,
            crate::strutil::seq_views(r@).no_duplicates(),
            r@.len() == self@.peers.len(),
    {
        self.registry.get_peer_ids()
    }

    /// Takes the single receiver for the delivery queue; a second take
    /// yields nothing.
    pub fn take_incoming_receiver(&mut self) -> (r: Option<DeliveryReceiver>)
        requires
            old(self).wf(),
        ensures
            final(self).wf(),
            (r is Some) == !old(self)@.receiver_taken,
            final(self)@.receiver_taken,
            final(self)@.agent_id == old(self)@.agent_id,
            final(self)@.peers == old(self)@.peers,
            final(self)@.urls == old(self)@.urls,
            final(self)@.log == old(self)@.log,
            final(self).bus_oldest() == old(self).bus_oldest(),
            final(self)@.pending == old(self)@.pending,
    {
        self.incoming.take_receiver()
    }

    /// The next application payload for the consumer holding the receiver.
    pub fn recv_incoming(&mut self, receiver: &DeliveryReceiver) -> (r: Option<AgentMessage>)
        requires
            old(self).wf(),
            old(self)@.receiver_taken,
        ensures
            final(self).wf(),
            final(self)@.agent_id == old(self)@.agent_id,
            final(self)@.peers == old(self)@.peers,
            final(self)@.urls == old(self)@.urls,
            final(self)@.log == old(self)@.log,
            final(self).bus_oldest() == old(self).bus_oldest(),
            final(self)@.receiver_taken,
            match r {
                Option::Some(m) => old(self)@.pending.len() > 0 && m@ == old(self)@.pending[0]
                    && final(self)@.pending == old(self)@.pending.drop_first(),
                Option::None => old(self)@.pending.len() == 0 && final(self)@.pending == old(
                    self,
                )@.pending,
            },
    {
        self.incoming.recv(receiver)
    }

    /// A link closed: the peer is removed exactly once; the second removal
    /// of the same peer reports that nothing was removed, so the disconnect
    /// is logged once.
    pub fn disconnect_peer(&mut self, peer_id: &str) -> (r: bool)
        requires
            old(self).wf(),
        ensures
            final(self).wf(),
            r == old(self)@.peers.contains(peer_id@),
            final(self)@.peers == old(self)@.peers.remove(peer_id@),
            final(self)@.agent_id == old(self)@.agent_id,
            final(self)@.urls == old(self)@.urls,
            final(self)@.log == old(self)@.log,
            final(self).bus_oldest() == old(self).bus_oldest(),
            final(self)@.pending == old(self)@.pending,
            final(self)@.receiver_taken == old(self)@.receiver_taken,
    {
        self.registry.unregister_peer(peer_id)
    }

    /// An outbound link closed: its URL becomes eligible for retry.
    pub fn unlink_url(&mut self, url: &str) -> (r: bool)
        requires
            old(self).wf(),
        ensures
            final(self).wf(),
            r == old(self)@.urls.contains(url@),
            final(self)@.urls == old(self)@.urls.remove(url@),
            final(self)@.agent_id == old(self)@.agent_id,
            final(self)@.peers == old(self)@.peers,
            final(self)@.log == old(self)@.log,
            final(self).bus_oldest() == old(self).bus_oldest(),
            final(self)@.pending == old(self)@.pending,
            final(self)@.receiver_taken == old(self)@.receiver_taken,
    {
        self.registry.unregister_url(url)
    }

    /// The retry supervisor's decision: the configured addresses not linked
    /// yet, in their configured order, each to be attempted again.
    pub fn urls_to_retry(&self, peer_addresses: &Vec<String>) -> (r: Vec<String>)
        ensures
            crate::strutil::seq_views(r@) == retry_list(self@.urls, crate::strutil::seq_views(
                peer_addresses@,
            )),
    {
        let mut r: Vec<String> = Vec::new();
        let mut i: usize = 0;
        proof {
            assert(crate::strutil::seq_views(peer_addresses@).subrange(0, 0)
                =~= Seq::<Seq<char>>::empty());
            assert(crate::strutil::seq_views(r@) =~= Seq::<Seq<char>>::empty());
        }
        while i < peer_addresses.len()
            invariant
                i <= peer_addresses@.len(),
                crate::strutil::seq_views(r@) == retry_list(
                    self@.urls,
                    crate::strutil::seq_views(peer_addresses@).subrange(0, i as int),
                ),
            decreases peer_addresses@.len() - i,
        {
            let ghost pre = crate::strutil::seq_views(peer_addresses@).subrange(0, i as int);
            let ghost post = crate::strutil::seq_views(peer_addresses@).subrange(0, i + 1);
            let ghost rv = crate::strutil::seq_views(r@);
            proof {
                assert(post =~= pre.push(peer_addresses@[i as int]@)) by {
                    assert(forall|j: int|
                        0 <= j < peer_addresses@.len() ==> crate::strutil::seq_views(
                            peer_addresses@,
                        )[j] == #[trigger] peer_addresses@[j]@);
                }
                lemma_retry_list_push(self@.urls, pre, peer_addresses@[i as int]@);
            }
            if !self.registry.is_connected_to_url(peer_addresses[i].as_str()) {
                r.push(peer_addresses[i].clone());
                proof {
                    assert(crate::strutil::seq_views(r@) =~= rv.push(peer_addresses@[i as int]@))
                        by {
                        assert(forall|j: int|
                            0 <= j < r@.len() ==> crate::strutil::seq_views(r@)[j]
                                == #[trigger] r@[j]@);
                    }
                }
            }
            i = i + 1;
        }
        proof {
            assert(crate::strutil::seq_views(peer_addresses@).subrange(0, peer_addresses@.len() as int)
                =~= crate::strutil::seq_views(peer_addresses@));
        }
        r
    }
}

/// The addresses of `pa` not contained in `urls`, in order.
pub open spec fn retry_list(urls: Set<Seq<char>>, pa: Seq<Seq<char>>) -> Seq<Seq<char>>
    decreases pa.len(),
{
    if pa.len() == 0 {
        Seq::empty()
    } else {
        let head = retry_list(urls, pa.drop_last());
        if urls.contains(pa.last()) {
            head
        } else {
            head.push(pa.last())
        }
    }
}

/// One more configured address extends the retry list by that address
/// exactly when it is not yet linked.
pub proof fn lemma_retry_list_push(urls: Set<Seq<char>>, pa: Seq<Seq<char>>, x: Seq<char>)
    ensures
        retry_list(urls, pa.push(x)) == (if urls.contains(x) {
            retry_list(urls, pa)
        } else {
            retry_list(urls, pa).push(x)
        }),
{
    assert(pa.push(x).drop_last() =~= pa);
    assert(pa.push(x).last() == x);
}

/// Law: connecting to an already linked URL is idempotent.  After a
/// successful connect the URL is linked and the remote identity registered,
/// so a second attempt to the same URL reports success at once and a repeat
/// of the registration changes nothing.
pub proof fn lemma_idempotent_connect(n0: NodeView, peer_id: Seq<char>, url: Seq<char>)
    ensures
        ({
            let n1 = NodeView {
                peers: n0.peers.insert(peer_id),
                urls: n0.urls.insert(url),
                ..n0
            };
            &&& n1.urls.contains(url)
            &&& NodeView { peers: n1.peers.insert(peer_id), urls: n1.urls.insert(url), ..n1 }
                == n1
        }),
{
    let n1 = NodeView { peers: n0.peers.insert(peer_id), urls: n0.urls.insert(url), ..n0 };
    assert(n1.peers.insert(peer_id) =~= n1.peers);
    assert(n1.urls.insert(url) =~= n1.urls);
}

/// Law: a failed connect attempt is pure.  The failure transition does not
/// change the node's state at all, so a process that never completed a
/// handshake still has no peers.
pub proof fn lemma_graceful_failure(n0: NodeView)
    requires
        n0.peers == Set::<Seq<char>>::empty(),
    ensures
        n0.peers.len() == 0,
        n0.peers.finite(),
{
    assert(Set::<Seq<char>>::empty().len() == 0);
}

/// Law: handshake symmetry.  When a process A completes an outbound
/// handshake to B while B accepts A's presence, each side's peer set
/// contains exactly the other's identity.
pub proof fn lemma_handshake_symmetry(a0: NodeView, b0: NodeView, b_url: Seq<char>)
    requires
        a0.peers == Set::<Seq<char>>::empty(),
        b0.peers == Set::<Seq<char>>::empty(),
    ensures
        ({
            let a1 = NodeView {
                peers: a0.peers.insert(b0.agent_id),
                urls: a0.urls.insert(b_url),
                ..a0
            };
            let b1 = NodeView { peers: b0.peers.insert(a0.agent_id), ..b0 };
            &&& a1.peers.contains(b0.agent_id)
            &&& b1.peers.contains(a0.agent_id)
            &&& a1.peers.len() == 1
            &&& b1.peers.len() == 1
        }),
{
}

/// Law: chain fan-out.  In a three-node chain where A connects to B and B
/// connects to C, A and C each count one peer and B counts two.
pub proof fn lemma_chain_fan_out(a0: NodeView, b0: NodeView, c0: NodeView, b_url: Seq<char>, c_url: Seq<char>)
    requires
        a0.peers == Set::<Seq<char>>::empty(),
        b0.peers == Set::<Seq<char>>::empty(),
        c0.peers == Set::<Seq<char>>::empty(),
        a0.agent_id != c0.agent_id,
    ensures
        ({
            let a1 = NodeView {
                peers: a0.peers.insert(b0.agent_id),
                urls: a0.urls.insert(b_url),
                ..a0
            };
            let b1 = NodeView {
                peers: b0.peers.insert(a0.agent_id).insert(c0.agent_id),
                urls: b0.urls.insert(c_url),
                ..b0
            };
            let c1 = NodeView { peers: c0.peers.insert(b0.agent_id), ..c0 };
            &&& a1.peers.len() == 1
            &&& b1.peers.len() == 2
            &&& c1.peers.len() == 1
        }),
{
    let e = Set::<Seq<char>>::empty();
    assert(e.insert(a0.agent_id).len() == 1);
    assert(!e.insert(a0.agent_id).contains(c0.agent_id));
}

/// Law: retry convergence.  A failed attempt leaves the URL unlinked, so the
/// retry supervisor attempts it again; once the remote listener exists and
/// the retried handshake completes, both sides register each other.
pub proof fn lemma_retry_convergence(e0: NodeView, l0: NodeView, l_url: Seq<char>)
    requires
        e0.peers == Set::<Seq<char>>::empty(),
        e0.urls == Set::<Seq<char>>::empty(),
        l0.peers == Set::<Seq<char>>::empty(),
    ensures
        !e0.urls.contains(l_url),
        retry_list(e0.urls, seq![l_url]) == seq![l_url],
        ({
            let e1 = NodeView {
                peers: e0.peers.insert(l0.agent_id),
                urls: e0.urls.insert(l_url),
                ..e0
            };
            let l1 = NodeView { peers: l0.peers.insert(e0.agent_id), ..l0 };
            &&& e1.peers.contains(l0.agent_id)
            &&& l1.peers.contains(e0.agent_id)
            &&& e1.urls.contains(l_url)
        }),
{
    assert(seq![l_url].drop_last() =~= Seq::<Seq<char>>::empty());
    assert(seq![l_url].last() == l_url);
    assert(retry_list(e0.urls, Seq::empty()) == Seq::<Seq<char>>::empty());
    assert(Seq::<Seq<char>>::empty().push(l_url) =~= seq![l_url]);
}

} // verus!
