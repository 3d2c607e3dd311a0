//! The relay bus: one bounded broadcast queue through which every accepted
//! application frame is retransmitted to every connected link, and the
//! point-to-point delivery queue that carries application payloads to the
//! single in-process consumer.
//!
//! The broadcast queue keeps the newest frames up to its capacity and drops
//! the oldest on overflow: a reader that falls behind loses the oldest
//! undelivered frames and never blocks a publisher.  The delivery queue has
//! take-once semantics: only one consumer may ever drain it.

use vstd::prelude::*;
use crate::protocol::{AgentMessage, MessageView};

verus! {

/// A single fan-out broadcaster with a bounded retention window.
pub struct RelayBus {
    capacity: usize,
    published: u64,
    retained: Vec<String>,
    hist: Ghost<Seq<Seq<char>>>,
}

/// A reader's position in the broadcast log; each connected link's writer
/// task owns one.
pub struct BusCursor {
    pub next: u64,
}

/// What one receive attempt on the bus yields.
pub enum BusRecv {
    /// Nothing published past this cursor yet.
    Empty,
    /// The reader fell behind the retention window; `lost` frames were
    /// dropped, oldest first, and the cursor moved to the oldest retained
    /// frame.
    Lagged { lost: u64 },
    /// The next frame, in publish order.
    Frame(String),
}

impl RelayBus {
    /// The full publish history, as character strings.
    pub closed spec fn log(&self) -> Seq<Seq<char>> {
        self.hist@
    }

    /// The retention capacity the bus was created with.
    pub closed spec fn cap(&self) -> nat {
        self.capacity as nat
    }

    /// The index of the oldest frame still retained.
    pub open spec fn oldest(&self) -> int {
        self.log().len() - self.retained_len()
    }

    /// How many frames are currently retained.
    pub closed spec fn retained_len(&self) -> nat {
        self.retained@.len()
    }

    pub closed spec fn wf(&self) -> bool {
        &&& self.capacity >= 1
        &&& self.retained@.len() <= self.capacity
        &&& self.retained@.len() <= self.hist@.len()
        &&& self.hist@.len() == self.published
        &&& forall|j: int|
            0 <= j < self.retained@.len() ==> self.retained@[j]@ == self.hist@[self.hist@.len()
                - self.retained@.len() + j]
    }

    /// The bus retains at most its capacity.
    pub proof fn lemma_retention_bounded(&self)
        requires
            self.wf(),
        ensures
            self.log().len() - self.oldest() <= self.cap(),
            0 <= self.oldest() <= self.log().len(),
    {
    }

    /// A fresh bus with the given retention capacity.
    pub fn new(capacity: usize) -> (r: RelayBus)
        requires
            capacity >= 1,
        ensures
            r.wf(),
            r.log() == Seq::<Seq<char>>::empty(),
            r.cap() == capacity,
            r.oldest() == 0,
    {
        RelayBus { capacity, published: 0, retained: Vec::new(), hist: Ghost(Seq::empty()) }
    }

    /// Publishes one frame: it is appended to the log and retained; only
    /// when the retention window is already full does the oldest retained
    /// frame make room, so a reader within the window loses nothing.
    pub fn publish(&mut self, frame: String)
        requires
            old(self).wf(),
            old(self).log().len() < u64::MAX,
        ensures
            final(self).wf(),
            final(self).log() == old(self).log().push(frame@),
            final(self).cap() == old(self).cap(),
            final(self).oldest() == (if old(self).log().len() - old(self).oldest()
                < old(self).cap() {
                old(self).oldest()
            } else {
                old(self).oldest() + 1
            }),
    {
        let ghost old_ret = self.retained@;
        let ghost old_hist = self.hist@;
        let evicted = self.retained.len() == self.capacity;
        if evicted {
            self.retained.remove(0);
        }
        self.retained.push(frame);
        self.published = self.published + 1;
        proof {
            self.hist@ = self.hist@.push(frame@);
            let ret = self.retained@;
            let hist = self.hist@;
            assert forall|j: int|
                0 <= j < ret.len() implies ret[j]@ == hist[hist.len() - ret.len() + j] by {
                if j == ret.len() - 1 {
                    assert(ret[j] == frame);
                    assert(hist[hist.len() - 1] == frame@);
                } else {
                    if evicted {
                        assert(ret[j] == old_ret.remove(0)[j]);
                        assert(old_ret.remove(0)[j] == old_ret[j + 1]);
                        assert(old_ret[j + 1]@ == old_hist[old_hist.len() - old_ret.len() + j + 1]);
                        assert(hist[hist.len() - ret.len() + j] == old_hist[old_hist.len()
                            - old_ret.len() + j + 1]);
                    } else {
                        assert(ret[j] == old_ret[j]);
                        assert(old_ret[j]@ == old_hist[old_hist.len() - old_ret.len() + j]);
                        assert(hist[hist.len() - ret.len() + j] == old_hist[old_hist.len()
                            - old_ret.len() + j]);
                    }
                }
            }
        }
    }

    /// How many frames were ever published.
    pub fn published_count(&self) -> (r: u64)
        requires
            self.wf(),
        ensures
            r == self.log().len(),
    {
        self.published
    }

    /// A new reader starts at the current end of the log: it sees only what
    /// is published after it subscribes.
    pub fn subscribe(&self) -> (r: BusCursor)
        requires
            self.wf(),
        ensures
            r.next == self.log().len(),
    {
        BusCursor { next: self.published }
    }

    /// One receive attempt for the reader at `cursor`: the next frame in
    /// publish order, or a report of how many frames the reader lost by
    /// lagging, or nothing if it has seen everything.
    pub fn recv(&self, cursor: &mut BusCursor) -> (r: BusRecv)
        requires
            self.wf(),
            old(cursor).next <= self.log().len(),
        ensures
            match r {
                BusRecv::Empty => final(cursor).next == old(cursor).next && old(cursor).next
                    == self.log().len(),
                BusRecv::Lagged { lost } => old(cursor).next < self.oldest() && final(cursor).next
                    == self.oldest() && lost == self.oldest() - old(cursor).next,
                BusRecv::Frame(f) => self.oldest() <= old(cursor).next < self.log().len() && f@
                    == self.log()[old(cursor).next as int] && final(cursor).next == old(
                    cursor,
                ).next + 1,
            },
    {
        if cursor.next == self.published {
            return BusRecv::Empty;
        }
        let oldest = self.published - self.retained.len() as u64;
        if cursor.next < oldest {
            let lost = oldest - cursor.next;
            cursor.next = oldest;
            return BusRecv::Lagged { lost };
        }
        let idx = (cursor.next - oldest) as usize;
        let frame = self.retained[idx].clone();
        proof {
            assert(self.retained@[idx as int]@ == self.hist@[self.hist@.len()
                - self.retained@.len() + idx]);
        }
        cursor.next = cursor.next + 1;
        BusRecv::Frame(frame)
    }
}

/// The abstract state of the delivery queue: the payload frames waiting for
/// the consumer, and whether the single receiver has been taken.
pub struct DeliveryView {
    pub pending: Seq<MessageView>,
    pub taken: bool,
}

/// The right to drain the delivery queue; there is at most one per queue.
pub struct DeliveryReceiver {
    marker: bool,
}

/// The point-to-point delivery queue that surfaces application-level frames
/// to the owning process.
pub struct DeliveryQueue {
    frames: Vec<AgentMessage>,
    taken: bool,
}

impl View for DeliveryQueue {
    type V = DeliveryView;

    closed spec fn view(&self) -> DeliveryView {
        DeliveryView {
            pending: self.frames@.map_values(|m: AgentMessage| m@),
            taken: self.taken,
        }
    }
}

impl DeliveryQueue {
    /// A fresh queue: nothing pending, receiver not yet taken.
    pub fn new() -> (r: DeliveryQueue)
        ensures
            r@.pending == Seq::<MessageView>::empty(),
            !r@.taken,
    {
        let r = DeliveryQueue { frames: Vec::new(), taken: false };
        proof {
            assert(r@.pending =~= Seq::<MessageView>::empty());
        }
        r
    }

    /// Enqueues one frame for the consumer.
    pub fn push(&mut self, m: AgentMessage)
        ensures
            final(self)@.pending == old(self)@.pending.push(m@),
            final(self)@.taken == old(self)@.taken,
    {
        let ghost before = self.frames@;
        self.frames.push(m);
        proof {
            assert(self.frames@.map_values(|x: AgentMessage| x@) =~= before.map_values(
                |x: AgentMessage| x@,
            ).push(m@)) by {
                assert(forall|j: int|
                    0 <= j < before.len() ==> self.frames@.map_values(|x: AgentMessage| x@)[j]
                        == #[trigger] before[j]@);
            }
        }
    }

    /// Takes the single receiver.  The first call yields it; every later
    /// call yields nothing, since splitting consumption would silently
    /// partition messages.
    pub fn take_receiver(&mut self) -> (r: Option<DeliveryReceiver>)
        ensures
            (r is Some) == !old(self)@.taken,
            final(self)@.taken,
            final(self)@.pending == old(self)@.pending,
    {
        if self.taken {
            None
        } else {
            self.taken = true;
            Some(DeliveryReceiver { marker: true })
        }
    }

    /// Dequeues the oldest pending frame; only the holder of the receiver
    /// may call this.
    pub fn recv(&mut self, receiver: &DeliveryReceiver) -> (r: Option<AgentMessage>)
        requires
            old(self)@.taken,
        ensures
            final(self)@.taken,
            match r {
                Option::Some(m) => old(self)@.pending.len() > 0 && m@ == old(
                    self,
                )@.pending[0] && final(self)@.pending == old(self)@.pending.drop_first(),
                Option::None => old(self)@.pending.len() == 0 && final(self)@.pending == old(
                    self,
                )@.pending,
            },
    {
        let _ = receiver;
        if self.frames.len() == 0 {
            return None;
        }
        let ghost before = self.frames@;
        let m = self.frames.remove(0);
        proof {
            assert(self.frames@.map_values(|x: AgentMessage| x@) =~= before.map_values(
                |x: AgentMessage| x@,
            ).drop_first()) by {
                assert(forall|j: int|
                    0 <= j < self.frames@.len() ==> self.frames@.map_values(
                        |x: AgentMessage| x@,
                    )[j] == #[trigger] self.frames@[j]@);
                assert(forall|j: int|
                    0 <= j < self.frames@.len() ==> self.frames@[j] == before[j + 1]);
            }
        }
        Some(m)
    }
}

} // verus!
