//! An append-only log of timestamped events that can be replayed in order.
use vstd::prelude::*;

use std::time::{SystemTime, UNIX_EPOCH};

verus! {

/// Milliseconds since the Unix epoch by the system clock
/// (`SystemTime::now().duration_since(UNIX_EPOCH)`, then `as_millis`); 0 if
/// the clock reads before the epoch. Nothing is stated of the value, which
/// is the time.
#[verifier::external_body]
fn now_millis() -> u128 {
    match SystemTime::now().duration_since(UNIX_EPOCH) {
        Ok(d) => d.as_millis(),
        Err(_) => 0,
    }
}

/// A single logged event, with timestamp and payload.
#[derive(Debug)]
pub struct LoggedEvent<E> {
    pub timestamp: u128,
    pub event_type: String,
    pub payload: E,
}

impl<E: Clone> Clone for LoggedEvent<E> {
    fn clone(&self) -> (r: Self)
        ensures
            r.timestamp == self.timestamp,
            r.event_type@ == self.event_type@,
            cloned::<E>(self.payload, r.payload),
    {
        LoggedEvent { timestamp: self.timestamp, event_type: self.event_type.clone(), payload: self.payload.clone() }
    }
}

impl<E> LoggedEvent<E> {
    /// A logged event of the given type and payload, stamped with the
    /// current time.
    pub fn new(event_type: &str, payload: E) -> (r: Self)
        ensures
            r.event_type@ == event_type@,
            r.payload == payload,
    {
        let now = now_millis();
        LoggedEvent::with_timestamp(now, event_type, payload)
    }

    /// A logged event of the given type and payload, stamped with the given
    /// time (milliseconds since the Unix epoch).
    pub fn with_timestamp(timestamp: u128, event_type: &str, payload: E) -> (r: Self)
        ensures
            r.timestamp == timestamp,
            r.event_type@ == event_type@,
            r.payload == payload,
    {
        LoggedEvent { timestamp, event_type: String::from_str(event_type), payload }
    }
}

/// Append-only event logger.
pub struct EventLogger<E> {
    events: Vec<LoggedEvent<E>>,
}

impl<E> EventLogger<E> {
    /// The logged events, oldest first.
    pub closed spec fn events(self) -> Seq<LoggedEvent<E>> {
        self.events@
    }

    /// An empty logger.
    pub fn new() -> (r: Self)
        ensures
            r.events() == Seq::<LoggedEvent<E>>::empty(),
    {
        EventLogger { events: Vec::new() }
    }

    /// A logger holding the given events (as loaded from a saved log).
    pub fn from_events(events: Vec<LoggedEvent<E>>) -> (r: Self)
        ensures
            r.events() == events@,
    {
        EventLogger { events }
    }

    /// Append an event of the given type and payload, stamped now.
    pub fn log(&mut self, event_type: &str, payload: E)
        ensures
            final(self).events().len() == old(self).events().len() + 1,
            final(self).events().drop_last() == old(self).events(),
            final(self).events().last().event_type@ == event_type@,
            final(self).events().last().payload == payload,
    {
        let event = LoggedEvent::new(event_type, payload);
        self.events.push(event);
        assert(self.events@.drop_last() =~= old(self).events@);
    }

    /// Copies of all logged events, oldest first.
    pub fn all(&self) -> (r: Vec<LoggedEvent<E>>)
        where
            E: Clone,
        ensures
            r@.len() == self.events().len(),
            forall|i: int| 0 <= i < r@.len() ==> {
                &&& (#[trigger] r@[i]).timestamp == self.events()[i].timestamp
                &&& r@[i].event_type@ == self.events()[i].event_type@
                &&& cloned::<E>(self.events()[i].payload, r@[i].payload)
            },
    {
        let mut out: Vec<LoggedEvent<E>> = Vec::new();
        let mut i: usize = 0;
        while i < self.events.len()
            invariant
                i <= self.events@.len(),
                out@.len() == i,
                forall|j: int| 0 <= j < i ==> {
                    &&& (#[trigger] out@[j]).timestamp == self.events@[j].timestamp
                    &&& out@[j].event_type@ == self.events@[j].event_type@
                    &&& cloned::<E>(self.events@[j].payload, out@[j].payload)
                },
            decreases self.events@.len() - i,
        {
            out.push(self.events[i].clone());
            i = i + 1;
        }
        out
    }

    /// The logged events, oldest first, without copying.
    pub fn events_ref(&self) -> (r: &Vec<LoggedEvent<E>>)
        ensures
            r@ == self.events(),
    {
        &self.events
    }

    /// Forget all logged events.
    pub fn clear(&mut self)
        ensures
            final(self).events() == Seq::<LoggedEvent<E>>::empty(),
    {
        self.events.clear();
    }

    /// Hand every logged event to `f`, oldest first. The logger is left as
    /// it is; nothing is stated of what `f` does with the events, since it
    /// may keep state of its own between calls.
    pub fn replay_into<F: FnMut(&LoggedEvent<E>)>(&self, mut f: F)
        requires
            forall|x: &LoggedEvent<E>, g: F| #[trigger] call_requires(g, (x,)),
    {
        let mut i: usize = 0;
        while i < self.events.len()
            invariant
                i <= self.events@.len(),
                forall|x: &LoggedEvent<E>, g: F| #[trigger] call_requires(g, (x,)),
            decreases self.events@.len() - i,
        {
            f(&self.events[i]);
            i = i + 1;
        }
    }
}

} // verus!
