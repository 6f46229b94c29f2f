//! Outbound messages that wait for the transport, one bounded queue per
//! peer, first in first out.

use vstd::prelude::*;
use std::collections::VecDeque;
use crate::netaddr::RawNetMessage;

verus! {

/// What happens to a message that finds its queue full.
#[derive(Clone, Copy, Debug, PartialEq, Eq, Structural)]
pub enum OverflowPolicy {
    /// The oldest message leaves and the new one is queued.
    DropOldest,
    /// The new message is refused.
    Reject,
}

/// What became of a message handed to a queue.
#[derive(Clone, Copy, Debug, PartialEq, Eq, Structural)]
pub enum PushOutcome {
    /// Queued behind the others.
    Queued,
    /// Queued, and the oldest message was dropped to make room.
    QueuedAfterDrop,
    /// Refused: the queue is full.
    Rejected,
    /// Refused: the peer has no established connection.
    NotEstablished,
}

/// The queue after `msg` was handed to it, and what became of `msg`. A
/// queue with room takes it at its end. A full queue drops its oldest
/// message for it where the policy says so and there is one to drop, and
/// refuses it otherwise.
pub open spec fn queue_after_push(
    queue: Seq<RawNetMessage>,
    capacity: usize,
    policy: OverflowPolicy,
    msg: RawNetMessage,
) -> (Seq<RawNetMessage>, PushOutcome) {
    if queue.len() < capacity {
        (queue.push(msg), PushOutcome::Queued)
    } else if policy == OverflowPolicy::DropOldest && queue.len() > 0 {
        (queue.skip(1).push(msg), PushOutcome::QueuedAfterDrop)
    } else {
        (queue, PushOutcome::Rejected)
    }
}

/// The queues of all peers. Its view maps every number to the queue of
/// the peer of that number, oldest message first; a peer that was never
/// sent anything has an empty queue.
pub struct RelayTable {
    queues: Vec<VecDeque<RawNetMessage>>,
    capacity: usize,
    policy: OverflowPolicy,
}

impl View for RelayTable {
    type V = Map<int, Seq<RawNetMessage>>;

    closed spec fn view(&self) -> Map<int, Seq<RawNetMessage>> {
        Map::total(|id: int| queue_of(self.raw(), id))
    }
}

/// The queue at index `id`, empty beyond the end.
spec fn queue_of(queues: Seq<Seq<RawNetMessage>>, id: int) -> Seq<RawNetMessage> {
    if 0 <= id < queues.len() {
        queues[id]
    } else {
        Seq::empty()
    }
}

impl RelayTable {
    closed spec fn raw(&self) -> Seq<Seq<RawNetMessage>> {
        Seq::new(self.queues@.len(), |i: int| self.queues@[i]@)
    }

    /// The most messages that one queue holds.
    pub closed spec fn capacity(&self) -> usize {
        self.capacity
    }

    /// What a full queue does.
    pub closed spec fn policy(&self) -> OverflowPolicy {
        self.policy
    }

    /// Every number has a queue, and none holds more than the capacity.
    pub open spec fn inv(&self) -> bool {
        forall|id: int| self@.contains_key(id) && (#[trigger] self@[id]).len() <= self.capacity()
    }

    /// A table of empty queues.
    pub fn new(capacity: usize, policy: OverflowPolicy) -> (r: Self)
        ensures
            r.inv(),
            r.capacity() == capacity,
            r.policy() == policy,
            r@ == Map::<int, Seq<RawNetMessage>>::total(|id: int| Seq::<RawNetMessage>::empty()),
    {
        let r = RelayTable { queues: Vec::new(), capacity, policy };
        assert(r@ =~= Map::<int, Seq<RawNetMessage>>::total(|id: int| Seq::<RawNetMessage>::empty()));
        r
    }

    /// The number of messages that wait for peer `id`.
    pub fn pending(&self, id: usize) -> (n: usize)
        ensures
            n == self@[id as int].len(),
    {
        if id < self.queues.len() {
            self.queues[id].len()
        } else {
            0
        }
    }

    fn grow_to(&mut self, id: usize)
        requires
            old(self).inv(),
        ensures
            final(self).inv(),
            final(self).capacity() == old(self).capacity(),
            final(self).policy() == old(self).policy(),
            id < final(self).raw().len(),
            final(self)@ == old(self)@,
    {
        while self.queues.len() <= id
            invariant
                self.capacity() == old(self).capacity(),
                self.policy() == old(self).policy(),
                self@ == old(self)@,
            decreases id + 1 - self.queues@.len(),
        {
            let ghost before: Seq<Seq<RawNetMessage>> = self.raw();
            self.queues.push(VecDeque::new());
            proof {
                assert forall|other: int| #[trigger] queue_of(self.raw(), other) == queue_of(before, other) by {
                    if 0 <= other < before.len() {
                        assert(self.raw()[other] == before[other]);
                    }
                }
                assert(self@ =~= old(self)@);
            }
        }
    }

    /// Queues `msg` for peer `id` behind the messages that wait already.
    /// The caller never waits: a full queue drops its oldest message or
    /// refuses the new one, as the policy says. No other queue changes.
    pub fn push(&mut self, id: usize, msg: RawNetMessage) -> (outcome: PushOutcome)
        requires
            old(self).inv(),
        ensures
            final(self).inv(),
            final(self).capacity() == old(self).capacity(),
            final(self).policy() == old(self).policy(),
            outcome == queue_after_push(
                old(self)@[id as int],
                old(self).capacity(),
                old(self).policy(),
                msg,
            ).1,
            final(self)@ == old(self)@.insert(
                id as int,
                queue_after_push(old(self)@[id as int], old(self).capacity(), old(self).policy(), msg).0,
            ),
    {
        self.grow_to(id);
        let ghost before: Seq<Seq<RawNetMessage>> = self.raw();
        assert(queue_of(before, id as int) == old(self)@[id as int]);
        let len: usize = self.queues[id].len();
        assert(len == queue_of(before, id as int).len());
        let outcome: PushOutcome = if len < self.capacity {
            self.queues[id].push_back(msg);
            PushOutcome::Queued
        } else if self.policy == OverflowPolicy::DropOldest && len > 0 {
            let _ = self.queues[id].pop_front();
            self.queues[id].push_back(msg);
            PushOutcome::QueuedAfterDrop
        } else {
            PushOutcome::Rejected
        };
        proof {
            let after: Seq<RawNetMessage> = queue_after_push(
                queue_of(before, id as int),
                self.capacity,
                self.policy,
                msg,
            ).0;
            assert forall|other: int| other != id implies #[trigger] queue_of(self.raw(), other)
                == queue_of(before, other) by {
                if 0 <= other < before.len() {
                    assert(self.raw()[other] == before[other]);
                }
            }
            assert(queue_of(self.raw(), id as int) =~= after);
            assert forall|x: int| #[trigger] old(self)@[x] == queue_of(before, x) by {}
            assert(self@ =~= old(self)@.insert(id as int, after));
            assert forall|x: int| self@.contains_key(x) && (#[trigger] self@[x]).len()
                <= self.capacity() by {
                if x != id {
                    assert(old(self)@[x].len() <= self.capacity());
                }
            }
        }
        outcome
    }

    /// Takes the oldest message that waits for peer `id`.
    pub fn pop(&mut self, id: usize) -> (r: Option<RawNetMessage>)
        requires
            old(self).inv(),
        ensures
            final(self).inv(),
            final(self).capacity() == old(self).capacity(),
            final(self).policy() == old(self).policy(),
            match r {
                Some(msg) => old(self)@[id as int].len() > 0 && msg == old(self)@[id as int][0]
                    && final(self)@ == old(self)@.insert(id as int, old(self)@[id as int].skip(1)),
                None => old(self)@[id as int].len() == 0 && final(self)@ == old(self)@,
            },
    {
        if id >= self.queues.len() {
            return None;
        }
        let ghost before: Seq<Seq<RawNetMessage>> = self.raw();
        let r: Option<RawNetMessage> = self.queues[id].pop_front();
        proof {
            assert forall|other: int| other != id implies #[trigger] queue_of(self.raw(), other)
                == queue_of(before, other) by {
                if 0 <= other < before.len() {
                    assert(self.raw()[other] == before[other]);
                }
            }
            assert forall|x: int| #[trigger] old(self)@[x] == queue_of(before, x) by {}
            if r is Some {
                assert(queue_of(self.raw(), id as int) =~= queue_of(before, id as int).skip(1));
                assert(self@ =~= old(self)@.insert(id as int, old(self)@[id as int].skip(1)));
            } else {
                assert(queue_of(self.raw(), id as int) =~= queue_of(before, id as int));
                assert(self@ =~= old(self)@);
            }
            assert forall|x: int| self@.contains_key(x) && (#[trigger] self@[x]).len()
                <= self.capacity() by {
                assert(old(self)@[x].len() <= self.capacity());
            }
        }
        r
    }

    /// Drops every message that waits for peer `id`.
    pub fn clear(&mut self, id: usize)
        requires
            old(self).inv(),
        ensures
            final(self).inv(),
            final(self).capacity() == old(self).capacity(),
            final(self).policy() == old(self).policy(),
            final(self)@ == old(self)@.insert(id as int, Seq::<RawNetMessage>::empty()),
    {
        if id >= self.queues.len() {
            assert(self@ =~= old(self)@.insert(id as int, Seq::<RawNetMessage>::empty()));
            return ;
        }
        let ghost before: Seq<Seq<RawNetMessage>> = self.raw();
        self.queues[id].clear();
        proof {
            assert forall|other: int| other != id implies #[trigger] queue_of(self.raw(), other)
                == queue_of(before, other) by {
                if 0 <= other < before.len() {
                    assert(self.raw()[other] == before[other]);
                }
            }
            assert forall|x: int| #[trigger] old(self)@[x] == queue_of(before, x) by {}
            assert(queue_of(self.raw(), id as int) =~= Seq::<RawNetMessage>::empty());
            assert(self@ =~= old(self)@.insert(id as int, Seq::<RawNetMessage>::empty()));
            assert forall|x: int| self@.contains_key(x) && (#[trigger] self@[x]).len()
                <= self.capacity() by {
                if x != id {
                    assert(old(self)@[x].len() <= self.capacity());
                }
            }
        }
    }
}

} // verus!
