//! Double-buffered event buses with subscribers, and readers that track
//! what they have read.
use vstd::prelude::*;

use std::collections::VecDeque;

verus! {

/// Identifier handed out to a subscriber.
pub type SubscriberId = usize;

/// A handler that may be called on any event.
pub open spec fn handler_ok<E, H: Fn(&E)>(h: H) -> bool {
    forall|x: &E| #[trigger] call_requires(h, (x,))
}

/// Subscriber identifiers strictly increase along the list and stay below
/// the next identifier to hand out.
pub open spec fn ids_ordered(ids: Seq<usize>, next: usize) -> bool {
    &&& forall|i: int, j: int| 0 <= i < j < ids.len() ==> ids[i] < ids[j]
    &&& forall|i: int| 0 <= i < ids.len() ==> ids[i] < next
}

/// Double-buffered event bus for events of type `E`, with subscribers of
/// handler type `H` (use a boxed closure type to mix handlers).
pub struct EventBus<E, H: Fn(&E)> {
    events: VecDeque<E>,
    last_events: VecDeque<E>,
    subscribers: Vec<(SubscriberId, H)>,
    next_subscriber_id: SubscriberId,
}

impl<E, H: Fn(&E)> EventBus<E, H> {
    #[verifier::type_invariant]
    spec fn inv(self) -> bool {
        &&& ids_ordered(self.subscriber_ids(), self.next_subscriber_id)
        &&& forall|i: int| 0 <= i < self.subscribers@.len() ==> handler_ok(#[trigger] self.subscribers@[i].1)
    }

    /// Events sent since the last update, oldest first.
    pub closed spec fn pending(self) -> Seq<E> {
        self.events@
    }

    /// Events of the previous frame, oldest first.
    pub closed spec fn last(self) -> Seq<E> {
        self.last_events@
    }

    /// Identifiers of the current subscribers, in subscription order.
    pub closed spec fn subscriber_ids(self) -> Seq<SubscriberId> {
        self.subscribers@.map_values(|s: (SubscriberId, H)| s.0)
    }

    /// The handlers of the current subscribers, in subscription order.
    pub closed spec fn handlers(self) -> Seq<H> {
        self.subscribers@.map_values(|s: (SubscriberId, H)| s.1)
    }

    /// The identifier the next subscriber will get.
    pub closed spec fn next_id(self) -> SubscriberId {
        self.next_subscriber_id
    }

    /// An empty bus with no subscribers.
    pub fn new() -> (r: Self)
        ensures
            r.pending() == Seq::<E>::empty(),
            r.last() == Seq::<E>::empty(),
            r.subscriber_ids() == Seq::<SubscriberId>::empty(),
            r.handlers() == Seq::<H>::empty(),
            r.next_id() == 0,
    {
        let r = EventBus {
            events: VecDeque::new(),
            last_events: VecDeque::new(),
            subscribers: Vec::new(),
            next_subscriber_id: 0,
        };
        assert(r.subscriber_ids() =~= Seq::<SubscriberId>::empty());
        assert(r.handlers() =~= Seq::<H>::empty());
        r
    }

    /// Send (emit) an event: every subscriber's handler is called on it, in
    /// subscription order, then it is queued for this frame.
    pub fn send(&mut self, event: E)
        ensures
            forall|k: int| 0 <= k < old(self).handlers().len() ==> call_ensures(
                #[trigger] old(self).handlers()[k],
                (&event,),
                (),
            ),
            final(self).pending() == old(self).pending().push(event),
            final(self).last() == old(self).last(),
            final(self).subscriber_ids() == old(self).subscriber_ids(),
            final(self).handlers() == old(self).handlers(),
            final(self).next_id() == old(self).next_id(),
    {
        proof {
            use_type_invariant(&*self);
        }
        let mut i: usize = 0;
        while i < self.subscribers.len()
            invariant
                i <= self.subscribers.len(),
                *self == *old(self),
                forall|k: int| 0 <= k < self.subscribers@.len() ==> handler_ok(#[trigger] self.subscribers@[k].1),
                forall|k: int| 0 <= k < i ==> call_ensures(#[trigger] self.subscribers@[k].1, (&event,), ()),
            decreases self.subscribers.len() - i,
        {
            let handler = &self.subscribers[i].1;
            assert(handler_ok(self.subscribers@[i as int].1));
            handler(&event);
            i = i + 1;
        }
        proof {
            assert forall|k: int| 0 <= k < old(self).handlers().len() implies call_ensures(
                #[trigger] old(self).handlers()[k],
                (&event,),
                (),
            ) by {
                assert(old(self).handlers()[k] == self.subscribers@[k].1);
            }
        }
        let mut q: VecDeque<E> = VecDeque::new();
        std::mem::swap(&mut q, &mut self.events);
        q.push_back(event);
        self.events = q;
    }

    /// Subscribe a handler; returns its identifier.
    pub fn subscribe(&mut self, handler: H) -> (id: SubscriberId)
        requires
            handler_ok(handler),
            old(self).next_id() < usize::MAX,
        ensures
            id == old(self).next_id(),
            !old(self).subscriber_ids().contains(id),
            forall|i: int| 0 <= i < old(self).subscriber_ids().len() ==> #[trigger] old(self).subscriber_ids()[i] < id,
            final(self).next_id() == old(self).next_id() + 1,
            final(self).subscriber_ids() == old(self).subscriber_ids().push(id),
            final(self).handlers() == old(self).handlers().push(handler),
            final(self).pending() == old(self).pending(),
            final(self).last() == old(self).last(),
    {
        proof {
            use_type_invariant(&*self);
        }
        let id = self.next_subscriber_id;
        let mut subs: Vec<(SubscriberId, H)> = Vec::new();
        std::mem::swap(&mut subs, &mut self.subscribers);
        subs.push((id, handler));
        let ghost s = subs@;
        assert(s.map_values(|x: (SubscriberId, H)| x.0) =~= old(self).subscriber_ids().push(id));
        assert(s.map_values(|x: (SubscriberId, H)| x.1) =~= old(self).handlers().push(handler));
        self.next_subscriber_id = id + 1;
        assert forall|k: int| 0 <= k < subs@.len() implies handler_ok(#[trigger] subs@[k].1) by {
            if k < subs@.len() - 1 {
                assert(subs@[k] == old(self).subscribers@[k]);
            }
        }
        self.subscribers = subs;
        id
    }

    /// Unsubscribe a handler by its identifier; `true` if one was removed.
    pub fn unsubscribe(&mut self, id: SubscriberId) -> (r: bool)
        ensures
            r == old(self).subscriber_ids().contains(id),
            r ==> exists|k: int|
                0 <= k < old(self).subscriber_ids().len() && old(self).subscriber_ids()[k] == id
                    && final(self).subscriber_ids() == old(self).subscriber_ids().remove(k)
                    && final(self).handlers() == old(self).handlers().remove(k),
            !r ==> final(self).subscriber_ids() == old(self).subscriber_ids() && final(self).handlers() == old(self).handlers(),
            !final(self).subscriber_ids().contains(id),
            final(self).next_id() == old(self).next_id(),
            final(self).pending() == old(self).pending(),
            final(self).last() == old(self).last(),
    {
        proof {
            use_type_invariant(&*self);
        }
        let ghost ids = self.subscriber_ids();
        let mut i: usize = 0;
        while i < self.subscribers.len()
            invariant
                i <= self.subscribers.len(),
                *self == *old(self),
                ids == self.subscriber_ids(),
                ids.len() == self.subscribers@.len(),
                forall|k: int| 0 <= k < i ==> ids[k] != id,
                ids_ordered(ids, self.next_subscriber_id),
                forall|k: int| 0 <= k < self.subscribers@.len() ==> handler_ok(#[trigger] self.subscribers@[k].1),
            decreases self.subscribers.len() - i,
        {
            assert(ids[i as int] == self.subscribers@[i as int].0);
            if self.subscribers[i].0 == id {
                let mut subs: Vec<(SubscriberId, H)> = Vec::new();
                std::mem::swap(&mut subs, &mut self.subscribers);
                let ghost before = subs@;
                let _removed = subs.remove(i);
                proof {
                    assert(subs@.map_values(|x: (SubscriberId, H)| x.0) =~= ids.remove(i as int));
                    assert(subs@.map_values(|x: (SubscriberId, H)| x.1) =~= old(self).handlers().remove(i as int));
                    assert forall|k: int| 0 <= k < subs@.len() implies handler_ok(#[trigger] subs@[k].1) by {
                        if k < i {
                            assert(subs@[k] == before[k]);
                        } else {
                            assert(subs@[k] == before[k + 1]);
                        }
                    }
                    assert forall|a: int, b: int| 0 <= a < b < ids.remove(i as int).len() implies ids.remove(
                        i as int,
                    )[a] < ids.remove(i as int)[b] by {
                        let oa = if a < i { a } else { a + 1 };
                        let ob = if b < i { b } else { b + 1 };
                        assert(ids[oa] < ids[ob]);
                    }
                    assert(!ids.remove(i as int).contains(id)) by {
                        if ids.remove(i as int).contains(id) {
                            let k = choose|k: int| 0 <= k < ids.remove(i as int).len() && ids.remove(i as int)[k] == id;
                            if k < i {
                                assert(ids[k] < ids[i as int]);
                            } else {
                                assert(ids[i as int] < ids[k + 1]);
                            }
                        }
                    }
                    assert(ids.contains(id)) by {
                        assert(ids[i as int] == id);
                    }
                }
                self.subscribers = subs;
                return true;
            }
            i = i + 1;
        }
        proof {
            assert(!ids.contains(id)) by {
                if ids.contains(id) {
                    let k = choose|k: int| 0 <= k < ids.len() && ids[k] == id;
                    assert(ids[k] != id);
                }
            }
        }
        false
    }

    /// Advance the bus to the next frame: this frame's events become the
    /// last frame's, and the queue starts empty.
    pub fn update(&mut self)
        ensures
            final(self).last() == old(self).pending(),
            final(self).pending() == Seq::<E>::empty(),
            final(self).subscriber_ids() == old(self).subscriber_ids(),
            final(self).handlers() == old(self).handlers(),
            final(self).next_id() == old(self).next_id(),
    {
        proof {
            use_type_invariant(&*self);
        }
        let mut current: VecDeque<E> = VecDeque::new();
        std::mem::swap(&mut current, &mut self.events);
        self.last_events = current;
    }

    /// The previous frame's events.
    pub fn last_events(&self) -> (r: &VecDeque<E>)
        ensures
            r@ == self.last(),
    {
        &self.last_events
    }

    /// Take the oldest event of this frame, if any.
    pub fn try_recv(&mut self) -> (r: Option<E>)
        ensures
            old(self).pending().len() == 0 ==> r is None && final(self).pending() == old(self).pending(),
            old(self).pending().len() > 0 ==> r == Some(old(self).pending()[0])
                && final(self).pending() == old(self).pending().drop_first(),
            final(self).last() == old(self).last(),
            final(self).subscriber_ids() == old(self).subscriber_ids(),
            final(self).handlers() == old(self).handlers(),
            final(self).next_id() == old(self).next_id(),
    {
        proof {
            use_type_invariant(&*self);
        }
        let mut q: VecDeque<E> = VecDeque::new();
        std::mem::swap(&mut q, &mut self.events);
        let r = q.pop_front();
        self.events = q;
        r
    }

    /// Number of current subscribers.
    pub fn subscriber_count(&self) -> (r: usize)
        ensures
            r == self.subscriber_ids().len(),
    {
        self.subscribers.len()
    }
}

/// Reader for events, tracks which of a bus's last-frame events it has read.
pub struct EventReader {
    last_index: usize,
}

impl EventReader {
    /// How many of the last frame's events this reader has seen.
    pub closed spec fn seen(self) -> usize {
        self.last_index
    }

    /// A reader that has read nothing.
    pub fn new() -> (r: Self)
        ensures
            r.seen() == 0,
    {
        EventReader { last_index: 0 }
    }

    /// The last frame's events this reader has not read yet; afterwards it
    /// has read them all.
    pub fn read<'a, E, H: Fn(&E)>(&mut self, bus: &'a EventBus<E, H>) -> (r: Vec<&'a E>)
        ensures
            final(self).seen() == bus.last().len(),
            ({
                let start = if old(self).seen() < bus.last().len() { old(self).seen() as int } else { bus.last().len() as int };
                &&& r@.len() == bus.last().len() - start
                &&& forall|k: int| 0 <= k < r@.len() ==> *r@[k] == bus.last()[start + k]
            }),
    {
        let events = &bus.last_events;
        let n = events.len();
        let start = if self.last_index < n { self.last_index } else { n };
        self.last_index = n;
        let mut out: Vec<&'a E> = Vec::new();
        let mut i = start;
        while i < n
            invariant
                start <= i <= n,
                n == bus.last().len(),
                events@ == bus.last(),
                out@.len() == i - start,
                forall|k: int| 0 <= k < out@.len() ==> *out@[k] == bus.last()[start + k],
            decreases n - i,
        {
            out.push(&events[i]);
            i = i + 1;
        }
        out
    }

    /// All of the last frame's events, without marking anything read.
    pub fn read_all<'a, E, H: Fn(&E)>(&self, bus: &'a EventBus<E, H>) -> (r: Vec<&'a E>)
        ensures
            r@.len() == bus.last().len(),
            forall|k: int| 0 <= k < r@.len() ==> *r@[k] == bus.last()[k],
    {
        let events = &bus.last_events;
        let mut out: Vec<&'a E> = Vec::new();
        let mut i: usize = 0;
        while i < events.len()
            invariant
                i <= events@.len(),
                events@ == bus.last(),
                out@.len() == i,
                forall|k: int| 0 <= k < out@.len() ==> *out@[k] == bus.last()[k],
            decreases events@.len() - i,
        {
            out.push(&events[i]);
            i = i + 1;
        }
        out
    }
}


/// An event sent during a frame is the newest of the last frame's events
/// after the next update, and is gone from them after the update after
/// that when nothing else was sent.
pub proof fn law_event_lives_one_frame<E, H: Fn(&E)>(
    before: EventBus<E, H>,
    sent: EventBus<E, H>,
    advanced: EventBus<E, H>,
    later: EventBus<E, H>,
    event: E,
)
    requires
        sent.pending() == before.pending().push(event),
        advanced.last() == sent.pending(),
        advanced.pending() == Seq::<E>::empty(),
        later.last() == advanced.pending(),
    ensures
        advanced.last().len() == before.pending().len() + 1,
        advanced.last().last() == event,
        advanced.last().drop_last() == before.pending(),
        later.last().len() == 0,
{
    assert(advanced.last().drop_last() =~= before.pending());
}

} // verus!
