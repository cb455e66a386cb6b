//! Fan-out message bus: every subscriber owns one ring, and `publish` copies
//! the message into each of them. Nothing is allocated after construction.
use vstd::prelude::*;
use crate::runtime::ring::{rounded, SpscRing};

verus! {

/// Identifier for a live subscription.
#[derive(Debug, Clone, Copy, PartialEq, Eq, Structural)]
pub struct SubscriberId(pub usize);

/// Fan-out message bus.
pub struct MessageBus<T> {
    subscribers: Vec<SpscRing<T>>,
    per_subscriber_capacity: usize,
}

impl<T> View for MessageBus<T> {
    type V = Seq<Seq<T>>;

    /// The pending messages of each subscriber, oldest first.
    closed spec fn view(&self) -> Seq<Seq<T>> {
        self.subscribers@.map_values(|r: SpscRing<T>| r@)
    }
}

/// A queue after a message came to it: a full one drops the message.
pub open spec fn offered<T>(queue: Seq<T>, limit: nat, value: T) -> Seq<T> {
    if queue.len() < limit {
        queue.push(value)
    } else {
        queue
    }
}

/// How many of several queues have room.
pub open spec fn with_room<T>(queues: Seq<Seq<T>>, limit: nat) -> nat
    decreases queues.len(),
{
    if queues.len() == 0 {
        0
    } else {
        with_room(queues.drop_last(), limit) + if queues.last().len() < limit {
            1nat
        } else {
            0nat
        }
    }
}

impl<T> MessageBus<T> {
    /// All rings are well formed and of the bus's capacity.
    pub closed spec fn wf(&self) -> bool {
        &&& self.per_subscriber_capacity <= usize::MAX / 2 + 1
        &&& forall|i: int|
            0 <= i < self.subscribers@.len() ==> (#[trigger] self.subscribers@[i]).wf()
                && self.subscribers@[i].limit() == self.limit()
    }

    /// How many messages may be pending for one subscriber.
    pub closed spec fn limit(&self) -> nat {
        rounded(self.per_subscriber_capacity as nat)
    }
}

impl<T: Copy> MessageBus<T> {
    /// Empty bus; subscribers attach later via [`subscribe`](Self::subscribe).
    pub fn new(per_subscriber_capacity: usize) -> (bus: MessageBus<T>)
        requires
            per_subscriber_capacity <= usize::MAX / 2 + 1,
        ensures
            bus.wf(),
            bus@ == Seq::<Seq<T>>::empty(),
            bus.limit() == rounded(per_subscriber_capacity as nat),
    {
        let bus: MessageBus<T> = MessageBus { subscribers: Vec::new(), per_subscriber_capacity };
        assert(bus@ =~= Seq::<Seq<T>>::empty());
        bus
    }

    /// Attaches a new subscriber; rings are pre-allocated here (the only
    /// allocation in the bus's life).
    pub fn subscribe(&mut self) -> (id: SubscriberId)
        requires
            old(self).wf(),
        ensures
            final(self).wf(),
            final(self).limit() == old(self).limit(),
            id.0 == old(self)@.len(),
            final(self)@ == old(self)@.push(Seq::empty()),
    {
        let id: usize = self.subscribers.len();
        let ring: SpscRing<T> = SpscRing::with_capacity(self.per_subscriber_capacity);
        self.subscribers.push(ring);
        assert(self@ =~= old(self)@.push(Seq::empty()));
        SubscriberId(id)
    }

    /// Number of attached subscribers.
    pub fn subscriber_count(&self) -> (r: usize)
        ensures
            r == self@.len(),
    {
        self.subscribers.len()
    }

    /// Publishes `value` to every subscriber. Returns how many accepted it;
    /// a subscriber whose ring is full drops this message (backpressure by
    /// policy: control-plane messages are superseded by newer ones anyway).
    ///
    /// Acceptance is evaluated per subscriber independently, so a
    /// partially-delivered publish is not retried here. Use
    /// [`try_deliver`](Self::try_deliver) for exactly-once fan-out loops.
    pub fn publish(&mut self, value: T) -> (delivered: usize)
        requires
            old(self).wf(),
        ensures
            final(self).wf(),
            final(self).limit() == old(self).limit(),
            delivered == with_room(old(self)@, old(self).limit()),
            final(self)@ == old(self)@.map_values(
                |q: Seq<T>| offered(q, old(self).limit(), value),
            ),
    {
        let mut delivered: usize = 0;
        let mut i: usize = 0;
        let ghost before = self@;
        let ghost limit = self.limit();
        proof {
            assert(before.take(0) =~= Seq::<Seq<T>>::empty());
        }
        while i < self.subscribers.len()
            invariant
                i <= self.subscribers@.len(),
                self.wf(),
                limit == self.limit(),
                limit == old(self).limit(),
                before == old(self)@,
                self.subscribers@.len() == before.len(),
                delivered <= i,
                delivered == with_room(before.take(i as int), limit),
                forall|j: int|
                    0 <= j < i ==> (#[trigger] self.subscribers@[j])@ == offered(
                        before[j],
                        limit,
                        value,
                    ),
                forall|j: int|
                    i <= j < before.len() ==> (#[trigger] self.subscribers@[j])@ == before[j],
            decreases self.subscribers@.len() - i,
        {
            proof {
                let more = before.take(i + 1);
                assert(more.drop_last() =~= before.take(i as int));
                assert(more.last() == before[i as int]);
                self.subscribers@[i as int].lemma_bounded();
            }
            match self.subscribers[i].push(value) {
                Ok(_) => {
                    delivered = delivered + 1;
                },
                Err(_) => {},
            }
            i = i + 1;
        }
        proof {
            assert(before.take(i as int) =~= before);
            assert(self@ =~= before.map_values(|q: Seq<T>| offered(q, limit, value)));
        }
        delivered
    }

    /// Attempts delivery to one subscriber only. `false` = its ring is full.
    pub fn try_deliver(&mut self, id: SubscriberId, value: T) -> (r: bool)
        requires
            old(self).wf(),
            id.0 < old(self)@.len(),
        ensures
            final(self).wf(),
            final(self).limit() == old(self).limit(),
            r == (old(self)@[id.0 as int].len() < old(self).limit()),
            final(self)@ == old(self)@.update(
                id.0 as int,
                offered(old(self)@[id.0 as int], old(self).limit(), value),
            ),
    {
        let i: usize = id.0;
        let ghost limit = self.limit();
        proof {
            self.subscribers@[i as int].lemma_bounded();
        }
        let r: bool = self.subscribers[i].push(value).is_ok();
        proof {
            assert(self@ =~= old(self)@.update(
                i as int,
                offered(old(self)@[i as int], limit, value),
            ));
        }
        r
    }

    /// Drains all pending messages for `id` into `out` (FIFO); returns count.
    pub fn poll(&mut self, id: SubscriberId, out: &mut Vec<T>) -> (n: usize)
        requires
            old(self).wf(),
            id.0 < old(self)@.len(),
        ensures
            final(self).wf(),
            final(self).limit() == old(self).limit(),
            n == old(self)@[id.0 as int].len(),
            final(out)@ == old(out)@ + old(self)@[id.0 as int],
            final(self)@ == old(self)@.update(id.0 as int, Seq::empty()),
    {
        let mut n: usize = 0;
        let i: usize = id.0;
        let ghost all = self@[i as int];
        let ghost limit = self.limit();
        proof {
            self.subscribers@[i as int].lemma_bounded();
            assert(all.skip(0) =~= all);
            assert(out@ =~= old(out)@ + all.take(0));
        }
        loop
            invariant
                self.wf(),
                self.limit() == limit,
                limit == old(self).limit(),
                i < self.subscribers@.len(),
                i == id.0,
                all == old(self)@[i as int],
                all.len() <= usize::MAX,
                self.subscribers@.len() == old(self)@.len(),
                n <= all.len(),
                self.subscribers@[i as int]@ == all.skip(n as int),
                out@ == old(out)@ + all.take(n as int),
                forall|j: int|
                    0 <= j < self.subscribers@.len() && j != i ==> (
                    #[trigger] self.subscribers@[j])@ == old(self)@[j],
            ensures
                self.subscribers@[i as int]@ == Seq::<T>::empty(),
                n == all.len(),
            decreases all.len() - n,
        {
            match self.subscribers[i].pop() {
                Some(v) => {
                    proof {
                        assert(all.skip(n as int)[0] == all[n as int]);
                        assert(all.skip(n as int).drop_first() =~= all.skip(n + 1));
                        assert(all.take(n + 1) =~= all.take(n as int).push(all[n as int]));
                    }
                    out.push(v);
                    n = n + 1;
                },
                None => {
                    assert(self.subscribers@[i as int]@ =~= Seq::<T>::empty());
                    break;
                },
            }
        }
        proof {
            assert(all.take(n as int) =~= all);
            assert(self@ =~= old(self)@.update(i as int, Seq::empty()));
        }
        n
    }

    /// Non-consuming snapshot of pending count for `id`.
    pub fn pending(&self, id: SubscriberId) -> (r: usize)
        requires
            self.wf(),
            id.0 < self@.len(),
        ensures
            r == self@[id.0 as int].len(),
    {
        self.subscribers[id.0].len()
    }
}

/// A message that was published reaches every subscriber with room as its
/// newest one and changes nothing for the others; messages that were pending
/// stay pending, in order.
pub proof fn law_publish_keeps_order<T>(queues: Seq<Seq<T>>, limit: nat, value: T, i: int)
    requires
        0 <= i < queues.len(),
    ensures
        ({
            let after = queues.map_values(|q: Seq<T>| offered(q, limit, value));
            &&& queues[i].is_prefix_of(after[i])
            &&& queues[i].len() < limit ==> after[i].last() == value && after[i].len()
                == queues[i].len() + 1
            &&& queues[i].len() >= limit ==> after[i] == queues[i]
        }),
{
}

/// The number of deliveries counts each queue with room once.
pub proof fn law_deliveries_are_counted<T>(a: Seq<Seq<T>>, b: Seq<Seq<T>>, q: Seq<T>, limit: nat)
    ensures
        with_room(a + b, limit) == with_room(a, limit) + with_room(b, limit),
        with_room(seq![q], limit) == (if q.len() < limit {
            1nat
        } else {
            0nat
        }),
    decreases b.len(),
{
    assert(seq![q].drop_last() =~= Seq::<Seq<T>>::empty());
    assert(seq![q].last() == q);
    assert(with_room(seq![q].drop_last(), limit) == 0);
    if b.len() == 0 {
        assert(a + b =~= a);
    } else {
        law_deliveries_are_counted(a, b.drop_last(), q, limit);
        assert((a + b).drop_last() =~= a + b.drop_last());
        assert((a + b).last() == b.last());
    }
}

} // verus!
