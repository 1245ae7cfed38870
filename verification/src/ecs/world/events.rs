//! The world's named event buses: registering, subscribing, advancing and
//! listing them.
use vstd::prelude::*;

use crate::ecs::event::{handler_ok, EventBus, SubscriberId};
use crate::ecs::event_bus_registry::{advanced, EventBusInfo};
use crate::ecs::world::World;
use crate::json::Json;

verus! {

impl<H: Fn(&Json)> World<H> {
    /// Whether only the event buses may differ between the two worlds.
    pub open spec fn same_but_buses(self, other: World<H>) -> bool {
        &&& self.entities == other.entities
        &&& self.components@ == other.components@
        &&& self.next_id == other.next_id
        &&& self.current_mode == other.current_mode
        &&& self.registry == other.registry
        &&& self.next_zone_id == other.next_zone_id
        &&& self.event_queues@ == other.event_queues@
    }

    /// Register an empty event bus under `name`, replacing any bus of that
    /// name.
    pub fn register_event_bus(&mut self, name: &str)
        ensures
            final(self).event_buses.buses().dom() == old(self).event_buses.buses().dom().insert(name@),
            forall|n: Seq<char>| n != name@ ==> #[trigger] final(self).event_buses.buses().get(n)
                == old(self).event_buses.buses().get(n),
            final(self).event_buses.buses()[name@].pending() == Seq::<Json>::empty(),
            final(self).event_buses.buses()[name@].last() == Seq::<Json>::empty(),
            final(self).event_buses.buses()[name@].subscriber_ids() == Seq::<SubscriberId>::empty(),
            final(self).event_buses.buses()[name@].next_id() == 0,
            final(self).same_but_buses(*old(self)),
    {
        let bus: EventBus<Json, H> = EventBus::new();
        let ghost b = bus;
        self.event_buses.register_event_bus(String::from_str(name), bus);
        proof {
            assert(self.event_buses.buses()[name@] == b);
            assert(self.event_buses.buses().dom() =~= old(self).event_buses.buses().dom().insert(name@));
        }
    }

    /// The event bus registered under `name`, if any.
    pub fn get_event_bus(&self, name: &str) -> (r: Option<&EventBus<Json, H>>)
        ensures
            r matches Some(b) ==> self.event_buses.buses().contains_key(name@) && *b == self.event_buses.buses()[name@],
            r is None ==> !self.event_buses.buses().contains_key(name@),
    {
        self.event_buses.get_event_bus(name)
    }

    /// Make sure an event bus is registered under `name`: an existing one
    /// is kept as it is, else an empty one is registered.
    pub fn get_or_create_event_bus(&mut self, name: &str)
        ensures
            final(self).event_buses.buses().dom() == old(self).event_buses.buses().dom().insert(name@),
            old(self).event_buses.buses().contains_key(name@) ==> final(self).event_buses.buses() == old(
                self,
            ).event_buses.buses(),
            !old(self).event_buses.buses().contains_key(name@) ==> {
                let nb = final(self).event_buses.buses()[name@];
                &&& forall|n: Seq<char>| n != name@ ==> #[trigger] final(self).event_buses.buses().get(n)
                    == old(self).event_buses.buses().get(n)
                &&& nb.pending() == Seq::<Json>::empty()
                &&& nb.last() == Seq::<Json>::empty()
                &&& nb.subscriber_ids() == Seq::<SubscriberId>::empty()
                &&& nb.next_id() == 0
            },
            final(self).same_but_buses(*old(self)),
    {
        if self.event_buses.get_event_bus(name).is_none() {
            self.register_event_bus(name);
        } else {
            assert(old(self).event_buses.buses().dom().insert(name@) =~= old(self).event_buses.buses().dom());
        }
    }

    /// Advance every registered event bus to the next frame.
    pub fn update_event_buses(&mut self)
        ensures
            final(self).event_buses.buses().dom() == old(self).event_buses.buses().dom(),
            forall|n: Seq<char>| #[trigger] old(self).event_buses.buses().contains_key(n) ==> advanced(
                final(self).event_buses.buses()[n],
                old(self).event_buses.buses()[n],
            ),
            final(self).same_but_buses(*old(self)),
    {
        self.event_buses.update_event_buses();
    }

    /// Subscribe `handler` to the bus named `name`; `None` when no bus has
    /// that name. The new subscriber's identifier is the bus's next one.
    pub fn subscribe(&mut self, name: &str, handler: H) -> (r: Option<SubscriberId>)
        requires
            handler_ok(handler),
            old(self).event_buses.buses().contains_key(name@) ==> old(self).event_buses.buses()[name@].next_id()
                < usize::MAX,
        ensures
            r is None <==> !old(self).event_buses.buses().contains_key(name@),
            r is None ==> final(self).event_buses.buses() == old(self).event_buses.buses(),
            r matches Some(id) ==> {
                let b = old(self).event_buses.buses()[name@];
                let nb = final(self).event_buses.buses()[name@];
                &&& id == b.next_id()
                &&& !b.subscriber_ids().contains(id)
                &&& forall|i: int| 0 <= i < b.subscriber_ids().len() ==> #[trigger] b.subscriber_ids()[i] < id
                &&& nb.handlers() == b.handlers().push(handler)
                &&& nb.subscriber_ids() == b.subscriber_ids().push(id)
                &&& nb.next_id() == b.next_id() + 1
                &&& nb.pending() == b.pending()
                &&& nb.last() == b.last()
                &&& final(self).event_buses.buses().dom() == old(self).event_buses.buses().dom()
                &&& forall|n: Seq<char>| n != name@ ==> #[trigger] final(self).event_buses.buses().get(n)
                    == old(self).event_buses.buses().get(n)
            },
            final(self).same_but_buses(*old(self)),
    {
        self.event_buses.subscribe(name, handler)
    }

    /// Remove subscriber `id` from the bus named `name`; `true` if it was
    /// subscribed there.
    pub fn unsubscribe(&mut self, name: &str, id: SubscriberId) -> (r: bool)
        ensures
            r == (old(self).event_buses.buses().contains_key(name@) && old(self).event_buses.buses()[name@].subscriber_ids().contains(id)),
            final(self).event_buses.buses().dom() == old(self).event_buses.buses().dom(),
            forall|n: Seq<char>| n != name@ ==> #[trigger] final(self).event_buses.buses().get(n)
                == old(self).event_buses.buses().get(n),
            old(self).event_buses.buses().contains_key(name@) ==> {
                let b = old(self).event_buses.buses()[name@];
                let nb = final(self).event_buses.buses()[name@];
                &&& !nb.subscriber_ids().contains(id)
                &&& (!r ==> nb.subscriber_ids() == b.subscriber_ids())
                &&& (r ==> exists|k: int| 0 <= k < b.subscriber_ids().len() && b.subscriber_ids()[k] == id
                    && nb.subscriber_ids() == b.subscriber_ids().remove(k))
                &&& nb.next_id() == b.next_id()
            },
            final(self).same_but_buses(*old(self)),
    {
        self.event_buses.unsubscribe(name, id)
    }

    /// One record per registered bus: its name, type label and number of
    /// subscribers.
    pub fn list_event_buses(&self) -> (r: Vec<EventBusInfo>)
        ensures
            r@.len() == self.event_buses.buses().len(),
            forall|i: int| 0 <= i < r@.len() ==> {
                &&& self.event_buses.buses().contains_key(#[trigger] r@[i].name@)
                &&& r@[i].type_label@ == "<unknown>"@
                &&& r@[i].subscriber_count == self.event_buses.buses()[r@[i].name@].subscriber_ids().len()
            },
            forall|n: Seq<char>| self.event_buses.buses().contains_key(n) ==> exists|i: int| 0 <= i < r@.len()
                && #[trigger] r@[i].name@ == n,
    {
        self.event_buses.list_buses()
    }

    /// Names of all registered event buses.
    pub fn list_event_bus_names(&self) -> (r: Vec<String>)
        ensures
            r@.len() == self.event_buses.buses().len(),
            forall|i: int| 0 <= i < r@.len() ==> self.event_buses.buses().contains_key(#[trigger] r@[i]@),
            forall|n: Seq<char>| self.event_buses.buses().contains_key(n) ==> exists|i: int| 0 <= i < r@.len()
                && #[trigger] r@[i]@ == n,
            forall|i: int, j: int| 0 <= i < r@.len() && 0 <= j < r@.len() && i != j ==> r@[i]@ != r@[j]@,
    {
        self.event_buses.list_bus_names()
    }

    /// A (type label, name) pair for each registered event bus.
    pub fn list_event_bus_types_and_names(&self) -> (r: Vec<(String, String)>)
        ensures
            r@.len() == self.event_buses.buses().len(),
            forall|i: int| 0 <= i < r@.len() ==> self.event_buses.buses().contains_key(#[trigger] r@[i].1@),
            forall|n: Seq<char>| self.event_buses.buses().contains_key(n) ==> exists|i: int| 0 <= i < r@.len()
                && #[trigger] r@[i].1@ == n,
    {
        self.event_buses.list_bus_types_and_names()
    }

    /// Number of subscribers of the bus named `name`, if registered.
    pub fn event_bus_subscriber_count(&self, name: &str) -> (r: Option<usize>)
        ensures
            r is None <==> !self.event_buses.buses().contains_key(name@),
            r matches Some(c) ==> c == self.event_buses.buses()[name@].subscriber_ids().len(),
    {
        self.event_buses.subscriber_count(name)
    }
}

} // verus!
