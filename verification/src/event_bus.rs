//! An event bus that decouples the systems of the engine. Publishers enqueue
//! events under a topic with a priority; the owner of the bus drains the
//! queue, which hands back every queued event once, highest priority first
//! and in publishing order within a priority, each with the subscriptions
//! to its topic that should receive it, in subscription order.
use crossbeam_queue::SegQueue;
use vstd::prelude::*;

verus! {

/// Crossbeam's unbounded queue, `crossbeam_queue::SegQueue`. Its contents
/// are known to the proofs only through `queued_keys` and the contracts of
/// the wrappers below.
#[verifier::external_type_specification]
#[verifier::external_body]
#[verifier::reject_recursive_types(T)]
pub struct ExSegQueue<T>(SegQueue<T>);

/// What a queue of event keys `(priority, sequence number, topic)` holds,
/// head first.
pub uninterp spec fn queued_keys(q: SegQueue<(i32, u64, u64)>) -> Seq<(i32, u64, u64)>;

/// `SegQueue::new`: a queue that holds nothing.
#[verifier::external_body]
fn new_key_queue() -> (q: SegQueue<(i32, u64, u64)>)
    ensures
        queued_keys(q) == Seq::<(i32, u64, u64)>::empty(),
{
    SegQueue::new()
}

/// `SegQueue::push_mut`: `key` joins the queue at its tail.
#[verifier::external_body]
fn push_key(q: &mut SegQueue<(i32, u64, u64)>, key: (i32, u64, u64))
    ensures
        queued_keys(*final(q)) == queued_keys(*old(q)).push(key),
{
    q.push_mut(key)
}

/// `SegQueue::pop_mut`: the key at the head leaves the queue and is
/// returned; an empty queue returns `None` and stays empty.
#[verifier::external_body]
fn pop_key(q: &mut SegQueue<(i32, u64, u64)>) -> (r: Option<(i32, u64, u64)>)
    ensures
        queued_keys(*old(q)).len() == 0 ==> r is None && queued_keys(*final(q)) == queued_keys(*old(q)),
        queued_keys(*old(q)).len() > 0 ==> r == Some(queued_keys(*old(q))[0]) && queued_keys(*final(q))
            == queued_keys(*old(q)).drop_first(),
{
    q.pop_mut()
}

/// `SegQueue::len`: the number of keys in the queue.
#[verifier::external_body]
fn key_count(q: &SegQueue<(i32, u64, u64)>) -> (n: usize)
    ensures
        n == queued_keys(*q).len(),
{
    q.len()
}

/// Values that can travel on the bus.
pub trait EventPayload: Send + Sync + 'static {

}

impl<T: Send + Sync + 'static> EventPayload for T {

}

/// The handle of a subscription, used to cancel it.
pub type SubscriptionId = u64;

/// An event waiting in the queue.
pub struct QueuedEvent<P> {
    /// The kind of event; subscribers choose the topics they receive.
    pub topic: u64,
    pub priority: i32,
    /// Publishing sequence number: later publications get larger numbers.
    pub seq: u64,
    pub payload: P,
}

/// An event handed out by `drain`, with the subscriptions that receive it.
pub struct DrainedEvent<P> {
    pub event: QueuedEvent<P>,
    pub subscribers: Vec<SubscriptionId>,
}

/// `a` is delivered before `b`: higher priority first, then lower sequence
/// number first.
pub open spec fn goes_before<P>(a: QueuedEvent<P>, b: QueuedEvent<P>) -> bool {
    a.priority > b.priority || (a.priority == b.priority && a.seq < b.seq)
}

/// No event of `s` should have been delivered before one that precedes it.
pub open spec fn in_delivery_order<P>(s: Seq<QueuedEvent<P>>) -> bool {
    forall|a: int, b: int| 0 <= a < b < s.len() ==> !goes_before(#[trigger] s[b], #[trigger] s[a])
}

/// The events of a drained sequence.
pub open spec fn events_of<P>(d: Seq<DrainedEvent<P>>) -> Seq<QueuedEvent<P>> {
    d.map_values(|x: DrainedEvent<P>| x.event)
}

/// The subscriptions to `topic`, in the order they were made.
pub open spec fn subscribers_of(subs: Seq<(SubscriptionId, u64)>, topic: u64) -> Seq<SubscriptionId>
    decreases subs.len(),
{
    if subs.len() == 0 {
        Seq::empty()
    } else {
        let rest = subscribers_of(subs.drop_last(), topic);
        if subs.last().1 == topic {
            rest.push(subs.last().0)
        } else {
            rest
        }
    }
}

/// The subscriptions with `id` removed, the others kept in order.
pub open spec fn without(subs: Seq<(SubscriptionId, u64)>, id: SubscriptionId) -> Seq<(SubscriptionId, u64)>
    decreases subs.len(),
{
    if subs.len() == 0 {
        Seq::empty()
    } else {
        let rest = without(subs.drop_last(), id);
        if subs.last().0 != id {
            rest.push(subs.last())
        } else {
            rest
        }
    }
}

/// The event that `publish_with_priority` appends.
pub open spec fn next_event<P>(topic: u64, priority: i32, seq: u64, payload: P) -> QueuedEvent<P> {
    QueuedEvent { topic, priority, seq, payload }
}

/// An ordered, optionally bounded event bus. The ordering keys of queued
/// events travel through a `SegQueue`; their payloads, of the caller's type,
/// sit beside them in the same order.
pub struct EventBusImpl<P> {
    keys: SegQueue<(i32, u64, u64)>,
    payloads: Vec<P>,
    subscribers: Vec<(SubscriptionId, u64)>,
    next_sub_id: u64,
    next_seq: u64,
    capacity: Option<usize>,
}

impl<P: EventPayload> EventBusImpl<P> {
    /// The events waiting to be drained, in publishing order.
    pub closed spec fn pending(&self) -> Seq<QueuedEvent<P>> {
        let k = queued_keys(self.keys);
        Seq::new(
            k.len(),
            |i: int| QueuedEvent { topic: k[i].2, priority: k[i].0, seq: k[i].1, payload: self.payloads@[i] },
        )
    }

    /// Every queued key has its payload beside it.
    pub closed spec fn inv(&self) -> bool {
        queued_keys(self.keys).len() == self.payloads@.len()
    }

    /// The live subscriptions `(id, topic)`, in subscription order.
    pub closed spec fn subscriptions(&self) -> Seq<(SubscriptionId, u64)> {
        self.subscribers@
    }

    /// The identifier the next subscription receives.
    pub closed spec fn next_subscription(&self) -> u64 {
        self.next_sub_id
    }

    /// The sequence number the next publication receives.
    pub closed spec fn next_sequence(&self) -> u64 {
        self.next_seq
    }

    /// The bound on queued events that `try_publish_with_priority` observes.
    pub closed spec fn bound(&self) -> Option<usize> {
        self.capacity
    }

    /// Sequence numbers grow in publishing order and stay below the next
    /// one; subscription identifiers grow in subscription order and stay
    /// below the next one. This holds from creation until a counter wraps.
    pub open spec fn wf(&self) -> bool {
        &&& forall|a: int, b: int|
            0 <= a < b < self.pending().len() ==> (#[trigger] self.pending()[a]).seq < (
            #[trigger] self.pending()[b]).seq
        &&& forall|a: int| 0 <= a < self.pending().len() ==> (#[trigger] self.pending()[a]).seq < self.next_sequence()
        &&& forall|a: int, b: int|
            0 <= a < b < self.subscriptions().len() ==> (#[trigger] self.subscriptions()[a]).0 < (
            #[trigger] self.subscriptions()[b]).0
        &&& forall|a: int|
            0 <= a < self.subscriptions().len() ==> (#[trigger] self.subscriptions()[a]).0 < self.next_subscription()
    }

    /// An unbounded bus with no events and no subscriptions.
    pub fn new() -> (bus: Self)
        ensures
            bus.pending() == Seq::<QueuedEvent<P>>::empty(),
            bus.subscriptions() == Seq::<(SubscriptionId, u64)>::empty(),
            bus.next_subscription() == 1,
            bus.next_sequence() == 1,
            bus.bound() == None::<usize>,
            bus.wf(),
            bus.inv(),
    {
        let bus = EventBusImpl {
            keys: new_key_queue(),
            payloads: Vec::new(),
            subscribers: Vec::new(),
            next_sub_id: 1,
            next_seq: 1,
            capacity: None,
        };
        assert(bus.pending() =~= Seq::<QueuedEvent<P>>::empty());
        bus
    }

    /// A bus on which `try_publish_with_priority` refuses events while `cap`
    /// are queued.
    pub fn with_capacity(cap: usize) -> (bus: Self)
        ensures
            bus.pending() == Seq::<QueuedEvent<P>>::empty(),
            bus.subscriptions() == Seq::<(SubscriptionId, u64)>::empty(),
            bus.next_subscription() == 1,
            bus.next_sequence() == 1,
            bus.bound() == Some(cap),
            bus.wf(),
            bus.inv(),
    {
        let bus = EventBusImpl {
            keys: new_key_queue(),
            payloads: Vec::new(),
            subscribers: Vec::new(),
            next_sub_id: 1,
            next_seq: 1,
            capacity: Some(cap),
        };
        assert(bus.pending() =~= Seq::<QueuedEvent<P>>::empty());
        bus
    }

    /// The number of queued events.
    pub fn len(&self) -> (n: usize)
        ensures
            n == self.pending().len(),
    {
        key_count(&self.keys)
    }

    /// Publish with the default priority 0.
    pub fn publish(&mut self, topic: u64, payload: P)
        requires
            old(self).inv(),
        ensures
            final(self).inv(),
            final(self).pending() == old(self).pending().push(
                next_event(topic, 0, old(self).next_sequence(), payload),
            ),
            final(self).next_sequence() == old(self).next_sequence().wrapping_add(1),
            final(self).subscriptions() == old(self).subscriptions(),
            final(self).next_subscription() == old(self).next_subscription(),
            final(self).bound() == old(self).bound(),
            old(self).wf() && old(self).next_sequence() < u64::MAX ==> final(self).wf(),
    {
        self.publish_with_priority(topic, payload, 0);
    }

    /// Publish with a priority (higher is delivered first). Always enqueues,
    /// whatever the bound.
    pub fn publish_with_priority(&mut self, topic: u64, payload: P, priority: i32)
        requires
            old(self).inv(),
        ensures
            final(self).inv(),
            final(self).pending() == old(self).pending().push(
                next_event(topic, priority, old(self).next_sequence(), payload),
            ),
            final(self).next_sequence() == old(self).next_sequence().wrapping_add(1),
            final(self).subscriptions() == old(self).subscriptions(),
            final(self).next_subscription() == old(self).next_subscription(),
            final(self).bound() == old(self).bound(),
            old(self).wf() && old(self).next_sequence() < u64::MAX ==> final(self).wf(),
    {
        let seq = self.next_seq;
        self.next_seq = self.next_seq.wrapping_add(1);
        let ghost before = self.pending();
        push_key(&mut self.keys, (priority, seq, topic));
        self.payloads.push(payload);
        assert(self.pending() =~= before.push(next_event(topic, priority, seq, payload)));
    }

    /// Publish unless the bus is bounded and already holds as many events as
    /// its bound; then the payload is handed back and nothing changes.
    pub fn try_publish_with_priority(&mut self, topic: u64, payload: P, priority: i32) -> (r: Result<(), P>)
        requires
            old(self).inv(),
        ensures
            final(self).inv(),
            r is Err <==> (old(self).bound() matches Some(cap) && old(self).pending().len() >= cap),
            r matches Err(p) ==> {
                &&& p == payload
                &&& final(self).pending() == old(self).pending()
                &&& final(self).next_sequence() == old(self).next_sequence()
            },
            r is Ok ==> {
                &&& final(self).pending() == old(self).pending().push(
                    next_event(topic, priority, old(self).next_sequence(), payload),
                )
                &&& final(self).next_sequence() == old(self).next_sequence().wrapping_add(1)
            },
            final(self).subscriptions() == old(self).subscriptions(),
            final(self).next_subscription() == old(self).next_subscription(),
            final(self).bound() == old(self).bound(),
            old(self).wf() && old(self).next_sequence() < u64::MAX ==> final(self).wf(),
    {
        if let Some(cap) = self.capacity {
            let cur = key_count(&self.keys);
            if cur >= cap {
                return Err(payload);
            }
        }
        self.publish_with_priority(topic, payload, priority);
        Ok(())
    }

    /// Subscribe to `topic`; returns the handle of the new subscription.
    pub fn subscribe(&mut self, topic: u64) -> (id: SubscriptionId)
        ensures
            final(self).inv() == old(self).inv(),
            id == old(self).next_subscription(),
            final(self).subscriptions() == old(self).subscriptions().push((id, topic)),
            final(self).next_subscription() == old(self).next_subscription().wrapping_add(1),
            final(self).pending() == old(self).pending(),
            final(self).next_sequence() == old(self).next_sequence(),
            final(self).bound() == old(self).bound(),
            old(self).wf() && old(self).next_subscription() < u64::MAX ==> final(self).wf(),
            old(self).wf() ==> forall|a: int|
                0 <= a < old(self).subscriptions().len() ==> (#[trigger] old(self).subscriptions()[a]).0 != id,
    {
        let id = self.next_sub_id;
        self.next_sub_id = self.next_sub_id.wrapping_add(1);
        let ghost before = self.subscribers@;
        self.subscribers.push((id, topic));
        proof {
            if old(self).wf() && old(self).next_subscription() < u64::MAX {
                let w = self.subscribers@;
                assert forall|a: int, b: int| 0 <= a < b < w.len() implies (#[trigger] w[a]).0 < (
                #[trigger] w[b]).0 by {
                    assert(w[a] == before[a]);
                    assert(old(self).subscriptions()[a] == before[a]);
                    if b < before.len() {
                        assert(w[b] == before[b]);
                        assert(old(self).subscriptions()[b] == before[b]);
                    }
                }
                assert forall|a: int| 0 <= a < w.len() implies (#[trigger] w[a]).0 < self.next_sub_id by {
                    if a < before.len() {
                        assert(w[a] == before[a]);
                        assert(old(self).subscriptions()[a] == before[a]);
                    }
                }
                assert(self.pending() == old(self).pending());
                assert(self.wf());
            }
        }
        id
    }

    /// Cancel every subscription with handle `subscription_id`.
    pub fn unsubscribe(&mut self, subscription_id: SubscriptionId)
        ensures
            final(self).inv() == old(self).inv(),
            final(self).subscriptions() == without(old(self).subscriptions(), subscription_id),
            final(self).next_subscription() == old(self).next_subscription(),
            final(self).pending() == old(self).pending(),
            final(self).next_sequence() == old(self).next_sequence(),
            final(self).bound() == old(self).bound(),
            old(self).wf() ==> final(self).wf(),
    {
        let ghost subs = self.subscribers@;
        let mut kept: Vec<(SubscriptionId, u64)> = Vec::new();
        let mut i: usize = 0;
        while i < self.subscribers.len()
            invariant
                subs == self.subscribers@,
                i <= subs.len(),
                kept@ == without(subs.subrange(0, i as int), subscription_id),
            decreases subs.len() - i,
        {
            let s = self.subscribers[i];
            assert(subs.subrange(0, i + 1).drop_last() =~= subs.subrange(0, i as int));
            if s.0 != subscription_id {
                kept.push(s);
            }
            i = i + 1;
        }
        assert(subs.subrange(0, subs.len() as int) =~= subs);
        proof {
            lemma_without_sub(subs, subscription_id);
        }
        self.subscribers = kept;
        proof {
            if old(self).wf() {
                let w = self.subscribers@;
                assert forall|a: int, b: int| 0 <= a < b < w.len() implies (#[trigger] w[a]).0 < (
                #[trigger] w[b]).0 by {
                    let (i, j) = choose|i: int, j: int|
                        0 <= i < j < subs.len() && subs[i] == #[trigger] w[a] && subs[j] == #[trigger] w[b];
                    assert(old(self).subscriptions()[i] == subs[i] && old(self).subscriptions()[j] == subs[j]);
                }
                assert forall|a: int| 0 <= a < w.len() implies (#[trigger] w[a]).0 < self.next_sub_id by {
                    assert(subs.contains(w[a]));
                    let i = choose|i: int| 0 <= i < subs.len() && subs[i] == w[a];
                    assert(old(self).subscriptions()[i] == subs[i]);
                }
            }
        }
    }

    /// The handles of the subscriptions to `topic`, in subscription order.
    pub fn subscribers_for(&self, topic: u64) -> (ids: Vec<SubscriptionId>)
        ensures
            ids@ == subscribers_of(self.subscriptions(), topic),
    {
        let ghost subs = self.subscribers@;
        let mut ids: Vec<SubscriptionId> = Vec::new();
        let mut i: usize = 0;
        while i < self.subscribers.len()
            invariant
                subs == self.subscribers@,
                i <= subs.len(),
                ids@ == subscribers_of(subs.subrange(0, i as int), topic),
            decreases subs.len() - i,
        {
            let s = self.subscribers[i];
            assert(subs.subrange(0, i + 1).drop_last() =~= subs.subrange(0, i as int));
            if s.1 == topic {
                ids.push(s.0);
            }
            i = i + 1;
        }
        assert(subs.subrange(0, subs.len() as int) =~= subs);
        ids
    }

    /// Take the queued events out of the bus, in publishing order.
    fn take_pending(&mut self) -> (taken: Vec<QueuedEvent<P>>)
        requires
            old(self).inv(),
        ensures
            taken@ == old(self).pending(),
            final(self).pending() == Seq::<QueuedEvent<P>>::empty(),
            final(self).inv(),
            final(self).subscribers == old(self).subscribers,
            final(self).next_sub_id == old(self).next_sub_id,
            final(self).next_seq == old(self).next_seq,
            final(self).capacity == old(self).capacity,
    {
        let ghost all = self.pending();
        let ghost all_keys = queued_keys(self.keys);
        let mut payloads: Vec<P> = Vec::new();
        std::mem::swap(&mut payloads, &mut self.payloads);
        let ghost all_payloads = payloads@;
        let mut taken: Vec<QueuedEvent<P>> = Vec::new();
        let n = key_count(&self.keys);
        let mut i: usize = 0;
        while i < n
            invariant
                n == all_keys.len(),
                all_keys.len() == all_payloads.len(),
                all.len() == all_keys.len(),
                forall|j: int|
                    0 <= j < all.len() ==> #[trigger] all[j] == (QueuedEvent {
                        topic: all_keys[j].2,
                        priority: all_keys[j].0,
                        seq: all_keys[j].1,
                        payload: all_payloads[j],
                    }),
                i <= n,
                queued_keys(self.keys) == all_keys.skip(i as int),
                payloads@ == all_payloads.skip(i as int),
                taken@ == all.take(i as int),
                self.payloads@ == Seq::<P>::empty(),
                self.subscribers == old(self).subscribers,
                self.next_sub_id == old(self).next_sub_id,
                self.next_seq == old(self).next_seq,
                self.capacity == old(self).capacity,
            decreases n - i,
        {
            let k = pop_key(&mut self.keys);
            match k {
                Some(key) => {
                    let payload = payloads.remove(0);
                    taken.push(QueuedEvent { topic: key.2, priority: key.0, seq: key.1, payload });
                    proof {
                        assert(all_keys.skip(i as int).drop_first() =~= all_keys.skip(i + 1));
                        assert(all_payloads.skip(i as int).remove(0) =~= all_payloads.skip(i + 1));
                        assert(all[i as int] == taken@.last());
                        assert(taken@ =~= all.take(i + 1));
                    }
                },
                None => {},
            }
            i = i + 1;
        }
        assert(taken@ =~= all);
        assert(self.pending() =~= Seq::<QueuedEvent<P>>::empty());
        taken
    }

    /// Take every queued event, in delivery order, each with the
    /// subscriptions to its topic. The queue is left empty.
    pub fn drain(&mut self) -> (out: Vec<DrainedEvent<P>>)
        requires
            old(self).inv(),
        ensures
            final(self).inv(),
            final(self).pending() == Seq::<QueuedEvent<P>>::empty(),
            final(self).subscriptions() == old(self).subscriptions(),
            final(self).next_subscription() == old(self).next_subscription(),
            final(self).next_sequence() == old(self).next_sequence(),
            final(self).bound() == old(self).bound(),
            old(self).wf() ==> final(self).wf(),
            events_of(out@).to_multiset() == old(self).pending().to_multiset(),
            in_delivery_order(events_of(out@)),
            forall|k: int|
                0 <= k < out@.len() ==> (#[trigger] out@[k]).subscribers@ == subscribers_of(
                    old(self).subscriptions(),
                    out@[k].event.topic,
                ),
    {
        broadcast use vstd::seq_lib::group_to_multiset_ensures;
        let mut taken = self.take_pending();
        let ghost all = taken@;
        let mut sorted: Vec<DrainedEvent<P>> = Vec::new();
        assert(all.to_multiset() =~= events_of(sorted@).to_multiset().add(taken@.to_multiset()));
        while taken.len() > 0
            invariant
                self.subscribers@ == old(self).subscriptions(),
                events_of(sorted@).to_multiset().add(taken@.to_multiset()) == all.to_multiset(),
                in_delivery_order(events_of(sorted@)),
                forall|k: int|
                    0 <= k < sorted@.len() ==> (#[trigger] sorted@[k]).subscribers@ == subscribers_of(
                        self.subscribers@,
                        sorted@[k].event.topic,
                    ),
            decreases taken.len(),
        {
            let ghost before_taken = taken@;
            let ev = taken.remove(0);
            let ghost evg = ev;
            proof {
                vstd::seq_lib::to_multiset_remove(before_taken, 0);
                assert(before_taken[0] == evg);
                assert(before_taken.contains(evg));
                vstd::seq_lib::to_multiset_contains(before_taken, evg);
                assert(before_taken.to_multiset().count(evg) > 0);
            }
            let subs = self.subscribers_for(ev.topic);
            let mut pos: usize = 0;
            while pos < sorted.len() && !(ev.priority > sorted[pos].event.priority || (ev.priority
                == sorted[pos].event.priority && ev.seq < sorted[pos].event.seq))
                invariant
                    pos <= sorted@.len(),
                    forall|a: int| 0 <= a < pos ==> !goes_before(ev, #[trigger] sorted@[a].event),
                decreases sorted@.len() - pos,
            {
                pos = pos + 1;
            }
            let ghost before = sorted@;
            sorted.insert(pos, DrainedEvent { event: ev, subscribers: subs });
            proof {
                assert(events_of(sorted@) =~= events_of(before).insert(pos as int, evg));
                vstd::seq_lib::to_multiset_insert(events_of(before), pos as int, evg);
                assert(events_of(sorted@).to_multiset() =~= events_of(before).to_multiset().insert(evg));
                assert(taken@.to_multiset() =~= before_taken.to_multiset().remove(evg));
                assert(events_of(sorted@).to_multiset().add(taken@.to_multiset()) =~= all.to_multiset());
                assert(in_delivery_order(events_of(sorted@))) by {
                    let e = events_of(sorted@);
                    let b = events_of(before);
                    assert forall|x: int, y: int| 0 <= x < y < e.len() implies !goes_before(
                        #[trigger] e[y],
                        #[trigger] e[x],
                    ) by {
                        if x < pos && y < pos {
                            assert(e[x] == b[x] && e[y] == b[y]);
                        } else if x < pos && y == pos {
                            assert(e[x] == b[x]);
                        } else if x < pos && y > pos {
                            assert(e[x] == b[x] && e[y] == b[y - 1]);
                        } else if x == pos {
                            assert(e[y] == b[y - 1]);
                            if (pos as int) < b.len() {
                                assert(goes_before(evg, b[pos as int]));
                                if y - 1 > pos {
                                    assert(!goes_before(b[y - 1], b[pos as int]));
                                }
                            }
                        } else {
                            assert(e[x] == b[x - 1] && e[y] == b[y - 1]);
                        }
                    }
                }
                assert forall|k: int| 0 <= k < sorted@.len() implies (#[trigger] sorted@[k]).subscribers@
                    == subscribers_of(self.subscribers@, sorted@[k].event.topic) by {
                    if k < pos {
                        assert(sorted@[k] == before[k]);
                    } else if k > pos {
                        assert(sorted@[k] == before[k - 1]);
                    }
                }
            }
        }
        assert(taken@.to_multiset() =~= vstd::multiset::Multiset::<QueuedEvent<P>>::empty());
        sorted
    }
}

impl<P: EventPayload> Default for EventBusImpl<P> {
    /// The same bus as `new`: unbounded, empty, with no subscriptions.
    fn default() -> (bus: Self)
        ensures
            bus.pending() == Seq::<QueuedEvent<P>>::empty(),
            bus.subscriptions() == Seq::<(SubscriptionId, u64)>::empty(),
            bus.next_subscription() == 1,
            bus.next_sequence() == 1,
            bus.bound() == None::<usize>,
            bus.wf(),
            bus.inv(),
    {
        Self::new()
    }
}

proof fn lemma_without_sub(subs: Seq<(SubscriptionId, u64)>, id: SubscriptionId)
    ensures
        forall|a: int|
            0 <= a < without(subs, id).len() ==> subs.contains(#[trigger] without(subs, id)[a]) && without(
                subs,
                id,
            )[a].0 != id,
        forall|a: int, b: int|
            0 <= a < b < without(subs, id).len() ==> exists|i: int, j: int|
                0 <= i < j < subs.len() && subs[i] == #[trigger] without(subs, id)[a] && subs[j]
                    == #[trigger] without(subs, id)[b],
    decreases subs.len(),
{
    if subs.len() > 0 {
        let rest = subs.drop_last();
        lemma_without_sub(rest, id);
        let w = without(subs, id);
        let wr = without(rest, id);
        assert forall|a: int| 0 <= a < w.len() implies subs.contains(#[trigger] w[a]) && w[a].0 != id by {
            if a < wr.len() {
                assert(w[a] == wr[a]);
                let i = choose|i: int| 0 <= i < rest.len() && rest[i] == wr[a];
                assert(subs[i] == rest[i]);
            } else {
                assert(w[a] == subs.last());
                assert(subs[subs.len() - 1] == subs.last());
            }
        }
        assert forall|a: int, b: int| 0 <= a < b < w.len() implies exists|i: int, j: int|
            0 <= i < j < subs.len() && subs[i] == #[trigger] w[a] && subs[j] == #[trigger] w[b] by {
            if b < wr.len() {
                assert(w[a] == wr[a] && w[b] == wr[b]);
                let (i, j) = choose|i: int, j: int|
                    0 <= i < j < rest.len() && rest[i] == #[trigger] wr[a] && rest[j] == #[trigger] wr[b];
                assert(subs[i] == rest[i] && subs[j] == rest[j]);
            } else {
                assert(w[a] == wr[a]);
                assert(w[b] == subs.last());
                let i = choose|i: int| 0 <= i < rest.len() && rest[i] == wr[a];
                assert(subs[i] == rest[i]);
                assert(subs[subs.len() - 1] == subs.last());
            }
        }
    }
}


/// Drained events come highest priority first, and events of equal priority
/// come in the order they were published.
pub proof fn lemma_delivery_order<P: EventPayload>(bus: EventBusImpl<P>, delivered: Seq<QueuedEvent<P>>)
    requires
        bus.wf(),
        delivered.to_multiset() == bus.pending().to_multiset(),
        in_delivery_order(delivered),
    ensures
        forall|p: int, q: int|
            0 <= p < q < delivered.len() ==> (#[trigger] delivered[p]).priority >= (#[trigger] delivered[q]).priority,
        forall|p: int, q: int|
            0 <= p < q < delivered.len() && (#[trigger] delivered[p]).priority == (#[trigger] delivered[q]).priority
                ==> exists|i: int, j: int|
                0 <= i < j < bus.pending().len() && bus.pending()[i] == delivered[p] && bus.pending()[j]
                    == delivered[q],
{
    let pending = bus.pending();
    assert(pending.no_duplicates()) by {
        assert forall|i: int, j: int| 0 <= i < pending.len() && 0 <= j < pending.len() && i != j implies pending[i]
            != pending[j] by {
            if i < j {
                assert(pending[i].seq < pending[j].seq);
            } else {
                assert(pending[j].seq < pending[i].seq);
            }
        }
    }
    pending.lemma_multiset_has_no_duplicates();
    assert forall|x: QueuedEvent<P>| delivered.to_multiset().contains(x) implies delivered.to_multiset().count(x) == 1 by {
        assert(pending.to_multiset().contains(x));
    }
    delivered.lemma_multiset_has_no_duplicates_conv();
    assert forall|p: int, q: int|
        0 <= p < q < delivered.len() && (#[trigger] delivered[p]).priority == (#[trigger] delivered[q]).priority
            implies exists|i: int, j: int|
            0 <= i < j < pending.len() && pending[i] == delivered[p] && pending[j] == delivered[q] by {
        assert(delivered.contains(delivered[p]));
        assert(delivered.contains(delivered[q]));
        vstd::seq_lib::to_multiset_contains(delivered, delivered[p]);
        vstd::seq_lib::to_multiset_contains(delivered, delivered[q]);
        vstd::seq_lib::to_multiset_contains(pending, delivered[p]);
        vstd::seq_lib::to_multiset_contains(pending, delivered[q]);
        let i = choose|i: int| 0 <= i < pending.len() && pending[i] == delivered[p];
        let j = choose|j: int| 0 <= j < pending.len() && pending[j] == delivered[q];
        assert(!goes_before(delivered[q], delivered[p]));
        if j < i {
            assert(pending[j].seq < pending[i].seq);
        }
        if i == j {
            assert(delivered[p] == delivered[q]);
        }
        assert(i != j);
    }
}

/// An event published on the bus comes out of the next drain, addressed to
/// the subscriptions to its topic as they stand at the drain.
pub proof fn lemma_published_is_delivered<P: EventPayload>(
    before: EventBusImpl<P>,
    after: EventBusImpl<P>,
    e: QueuedEvent<P>,
    out: Seq<DrainedEvent<P>>,
)
    requires
        after.pending() == before.pending().push(e),
        events_of(out).to_multiset() == after.pending().to_multiset(),
        forall|k: int|
            0 <= k < out.len() ==> (#[trigger] out[k]).subscribers@ == subscribers_of(
                after.subscriptions(),
                out[k].event.topic,
            ),
    ensures
        exists|k: int|
            0 <= k < out.len() && (#[trigger] out[k]).event == e && out[k].subscribers@ == subscribers_of(
                after.subscriptions(),
                e.topic,
            ),
{
    let p = after.pending();
    assert(p[p.len() - 1] == e);
    assert(p.contains(e));
    vstd::seq_lib::to_multiset_contains(p, e);
    vstd::seq_lib::to_multiset_contains(events_of(out), e);
    let k = choose|k: int| 0 <= k < events_of(out).len() && events_of(out)[k] == e;
    assert(out[k].event == e);
}

/// Cancelling a subscription stops it from receiving anything, and leaves
/// the other subscriptions to every topic in their order.
pub proof fn lemma_unsubscribed_receives_nothing(subs: Seq<(SubscriptionId, u64)>, id: SubscriptionId, topic: u64)
    ensures
        !subscribers_of(without(subs, id), topic).contains(id),
        subscribers_of(without(subs, id), topic) == subscribers_of(subs, topic).filter(|x: SubscriptionId| x != id),
    decreases subs.len(),
{
    reveal_with_fuel(Seq::filter, 1);
    if subs.len() > 0 {
        let rest = subs.drop_last();
        lemma_unsubscribed_receives_nothing(rest, id, topic);
        let l = subs.last();
        let w = without(subs, id);
        if l.0 != id {
            assert(w.drop_last() == without(rest, id));
            assert(w.last() == l);
        } else {
            assert(w == without(rest, id));
        }
        let sr = subscribers_of(rest, topic);
        if l.1 == topic {
            assert(subscribers_of(subs, topic).drop_last() == sr);
        } else {
            assert(subscribers_of(subs, topic) == sr);
        }
        let f = subscribers_of(without(subs, id), topic);
        if f.contains(id) {
            let a = choose|a: int| 0 <= a < f.len() && f[a] == id;
            if l.0 != id && l.1 == topic {
                assert(f == subscribers_of(without(rest, id), topic).push(l.0));
                if a < f.len() - 1 {
                    assert(subscribers_of(without(rest, id), topic)[a] == id);
                }
            }
        }
    }
}

/// A bus bounded by `cap` that holds at most `cap` events still holds at
/// most `cap` after `try_publish_with_priority`.
pub proof fn lemma_bound_respected<P: EventPayload>(before: EventBusImpl<P>, after: EventBusImpl<P>, accepted: bool, cap: usize)
    requires
        before.bound() == Some(cap),
        before.pending().len() <= cap,
        accepted <==> !(before.pending().len() >= cap),
        accepted ==> after.pending().len() == before.pending().len() + 1,
        !accepted ==> after.pending() == before.pending(),
    ensures
        after.pending().len() <= cap,
{
}

} // verus!
