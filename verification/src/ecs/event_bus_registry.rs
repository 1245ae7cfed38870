//! Registry of named event buses for one event type.
use vstd::prelude::*;

use crate::collections::KeyMap;
use crate::ecs::event::{handler_ok, EventBus, SubscriberId};
use std::any::TypeId;

verus! {

#[verifier::external_type_specification]
#[verifier::external_body]
pub struct ExTypeId(TypeId);

/// `TypeId::of::<T>()`: the compiler's identifier of the type `T`. Nothing
/// is stated of its value.
#[verifier::external_body]
fn type_id_of<T: ?Sized + 'static>() -> TypeId {
    TypeId::of::<T>()
}

/// The `Debug` rendering of a type identifier. Nothing is stated of its
/// text, which the compiler chooses.
#[verifier::external_body]
fn type_id_label(t: &TypeId) -> String {
    format!("{:?}", t)
}

/// Metadata about a registered event bus.
pub struct EventBusInfo {
    /// The type ID of the event bus.
    pub type_id: TypeId,
    /// The type name (best effort).
    pub type_label: &'static str,
    /// The name of the event bus.
    pub name: String,
    /// The number of subscribers.
    pub subscriber_count: usize,
}

/// What `update` does to one bus: this frame's events become the last
/// frame's, the queue is emptied, and the subscribers stay.
pub open spec fn advanced<E, H: Fn(&E)>(after: EventBus<E, H>, before: EventBus<E, H>) -> bool {
    &&& after.last() == before.pending()
    &&& after.pending() == Seq::<E>::empty()
    &&& after.subscriber_ids() == before.subscriber_ids()
    &&& after.next_id() == before.next_id()
}

/// Registry of named event buses carrying events of type `E`.
pub struct EventBusRegistry<E: 'static, H: Fn(&E)> {
    buses: KeyMap<String, EventBus<E, H>>,
}

impl<E: 'static, H: Fn(&E)> EventBusRegistry<E, H> {
    /// The registered buses, by name.
    pub closed spec fn buses(self) -> Map<Seq<char>, EventBus<E, H>> {
        self.buses@
    }

    /// Creates a new, empty event bus registry.
    pub fn new() -> (r: Self)
        ensures
            r.buses() == Map::<Seq<char>, EventBus<E, H>>::empty(),
    {
        EventBusRegistry { buses: KeyMap::new() }
    }

    /// Registers an event bus under the given name, replacing any bus of
    /// that name.
    pub fn register_event_bus(&mut self, name: String, bus: EventBus<E, H>)
        ensures
            final(self).buses() == old(self).buses().insert(name@, bus),
    {
        self.buses.insert(name, bus);
    }

    /// Retrieves an event bus by name.
    pub fn get_event_bus(&self, name: &str) -> (r: Option<&EventBus<E, H>>)
        ensures
            r matches Some(b) ==> self.buses().contains_key(name@) && *b == self.buses()[name@],
            r is None ==> !self.buses().contains_key(name@),
    {
        self.buses.get(&String::from_str(name))
    }

    /// Unregisters an event bus by name; `true` if one was registered.
    pub fn unregister_event_bus(&mut self, name: &str) -> (r: bool)
        ensures
            r == old(self).buses().contains_key(name@),
            final(self).buses() == old(self).buses().remove(name@),
    {
        self.buses.remove(&String::from_str(name)).is_some()
    }

    /// All registered buses with their names.
    pub fn iter(&self) -> (r: Vec<(&String, &EventBus<E, H>)>)
        ensures
            r@.len() == self.buses().len(),
            forall|i: int| 0 <= i < r@.len() ==> self.buses().contains_key(#[trigger] r@[i].0@)
                && self.buses()[r@[i].0@] == *r@[i].1,
            forall|n: Seq<char>| self.buses().contains_key(n) ==> exists|i: int| 0 <= i < r@.len() && #[trigger] r@[i].0@ == n,
    {
        let mut out: Vec<(&String, &EventBus<E, H>)> = Vec::new();
        let n = self.buses.len();
        let mut i: usize = 0;
        while i < n
            invariant
                n == self.buses.entries().len(),
                n == self.buses().len(),
                i <= n,
                out@.len() == i,
                forall|j: int| 0 <= j < i ==> (*(#[trigger] out@[j]).0 == self.buses.entries()[j].0 && *out@[j].1 == self.buses.entries()[j].1),
                forall|j: int| 0 <= j < i ==> self.buses().contains_key(#[trigger] out@[j].0@) && self.buses()[out@[j].0@] == *out@[j].1,
            decreases n - i,
        {
            let k = self.buses.key_at(i);
            let v = self.buses.value_at(i);
            out.push((k, v));
            i = i + 1;
        }
        proof {
            assert forall|nm: Seq<char>| self.buses().contains_key(nm) implies exists|j: int| 0 <= j < out@.len() && #[trigger] out@[j].0@ == nm by {
                let j = choose|j: int| 0 <= j < self.buses.entries().len() && #[trigger] self.buses.entries()[j].0@ == nm;
                assert(out@[j].0@ == nm);
            }
        }
        out
    }

    /// Advance every registered bus to the next frame.
    pub fn update_event_buses(&mut self)
        ensures
            final(self).buses().dom() == old(self).buses().dom(),
            forall|n: Seq<char>| #[trigger] old(self).buses().contains_key(n) ==> advanced(final(self).buses()[n], old(self).buses()[n]),
    {
        let names = self.buses.keys();
        let ghost before = self.buses();
        let mut i: usize = 0;
        while i < names.len()
            invariant
                i <= names.len(),
                self.buses().dom() == before.dom(),
                forall|j: int| 0 <= j < names.len() ==> before.contains_key(#[trigger] names@[j]@),
                forall|n: Seq<char>| before.contains_key(n) ==> exists|j: int| 0 <= j < names.len() && #[trigger] names@[j]@ == n,
                forall|a: int, b: int| 0 <= a < names.len() && 0 <= b < names.len() && a != b ==> names@[a]@ != names@[b]@,
                forall|j: int| 0 <= j < i ==> advanced(self.buses()[#[trigger] names@[j]@], before[names@[j]@]),
                forall|j: int| i <= j < names.len() ==> self.buses()[#[trigger] names@[j]@] == before[names@[j]@],
            decreases names.len() - i,
        {
            let key = names[i].clone();
            let ghost k = key@;
            let taken = self.buses.remove(&key);
            match taken {
                Some(mut bus) => {
                    bus.update();
                    self.buses.insert(key, bus);
                    proof {
                        assert(self.buses().dom() =~= before.dom());
                    }
                },
                None => {
                    assert(false);
                },
            }
            i = i + 1;
        }
        proof {
            assert forall|n: Seq<char>| #[trigger] before.contains_key(n) implies advanced(self.buses()[n], before[n]) by {
                let j = choose|j: int| 0 <= j < names.len() && #[trigger] names@[j]@ == n;
                assert(advanced(self.buses()[names@[j]@], before[names@[j]@]));
            }
        }
    }

    /// Send an event on the bus of the given name, creating an empty bus
    /// of that name first when there is none.
    pub fn send(&mut self, name: &str, event: E)
        ensures
            final(self).buses().dom() == old(self).buses().dom().insert(name@),
            forall|n: Seq<char>| n != name@ ==> #[trigger] final(self).buses().get(n) == old(self).buses().get(n),
            old(self).buses().contains_key(name@) ==> {
                let b = old(self).buses()[name@];
                let nb = final(self).buses()[name@];
                &&& forall|k: int| 0 <= k < b.handlers().len() ==> call_ensures(#[trigger] b.handlers()[k], (&event,), ())
                &&& nb.pending() == b.pending().push(event)
                &&& nb.last() == b.last()
                &&& nb.subscriber_ids() == b.subscriber_ids()
                &&& nb.handlers() == b.handlers()
                &&& nb.next_id() == b.next_id()
            },
            !old(self).buses().contains_key(name@) ==> {
                let nb = final(self).buses()[name@];
                &&& nb.pending() == seq![event]
                &&& nb.last() == Seq::<E>::empty()
                &&& nb.subscriber_ids() == Seq::<SubscriberId>::empty()
                &&& nb.handlers() == Seq::<H>::empty()
                &&& nb.next_id() == 0
            },
    {
        let key = String::from_str(name);
        let mut bus = match self.buses.remove(&key) {
            Some(b) => b,
            None => EventBus::new(),
        };
        let ghost b0 = bus.pending();
        bus.send(event);
        assert(b0.len() == 0 ==> bus.pending() =~= seq![event]);
        self.buses.insert(key, bus);
        proof {
            assert(self.buses().dom() =~= old(self).buses().dom().insert(name@));
        }
    }

    /// Advance the bus of the given name, if any, to the next frame.
    pub fn update_one(&mut self, name: &str)
        ensures
            final(self).buses().dom() == old(self).buses().dom(),
            forall|n: Seq<char>| n != name@ ==> #[trigger] final(self).buses().get(n) == old(self).buses().get(n),
            old(self).buses().contains_key(name@) ==> advanced(final(self).buses()[name@], old(self).buses()[name@]),
    {
        let key = String::from_str(name);
        match self.buses.remove(&key) {
            Some(mut bus) => {
                bus.update();
                self.buses.insert(key, bus);
                proof {
                    assert(self.buses().dom() =~= old(self).buses().dom());
                }
            },
            None => {
                proof {
                    assert(self.buses() =~= old(self).buses());
                }
            },
        }
    }

    /// Subscribe to the bus of the given name; `None` if there is none.
    pub fn subscribe(&mut self, name: &str, handler: H) -> (r: Option<SubscriberId>)
        requires
            handler_ok(handler),
            old(self).buses().contains_key(name@) ==> old(self).buses()[name@].next_id() < usize::MAX,
        ensures
            r is None <==> !old(self).buses().contains_key(name@),
            r is None ==> final(self).buses() == old(self).buses(),
            r matches Some(id) ==> {
                let b = old(self).buses()[name@];
                let nb = final(self).buses()[name@];
                &&& id == b.next_id()
                &&& !b.subscriber_ids().contains(id)
                &&& forall|i: int| 0 <= i < b.subscriber_ids().len() ==> #[trigger] b.subscriber_ids()[i] < id
                &&& nb.handlers() == b.handlers().push(handler)
                &&& nb.subscriber_ids() == b.subscriber_ids().push(id)
                &&& nb.next_id() == b.next_id() + 1
                &&& nb.pending() == b.pending()
                &&& nb.last() == b.last()
                &&& final(self).buses().dom() == old(self).buses().dom()
                &&& forall|n: Seq<char>| n != name@ ==> #[trigger] final(self).buses().get(n) == old(self).buses().get(n)
            },
    {
        let key = String::from_str(name);
        match self.buses.remove(&key) {
            Some(mut bus) => {
                let id = bus.subscribe(handler);
                self.buses.insert(key, bus);
                proof {
                    assert(self.buses().dom() =~= old(self).buses().dom());
                }
                Some(id)
            },
            None => None,
        }
    }

    /// Unsubscribe from the bus of the given name; `true` if a subscriber
    /// was removed.
    pub fn unsubscribe(&mut self, name: &str, id: SubscriberId) -> (r: bool)
        ensures
            r == (old(self).buses().contains_key(name@) && old(self).buses()[name@].subscriber_ids().contains(id)),
            final(self).buses().dom() == old(self).buses().dom(),
            forall|n: Seq<char>| n != name@ ==> #[trigger] final(self).buses().get(n) == old(self).buses().get(n),
            old(self).buses().contains_key(name@) ==> {
                let b = old(self).buses()[name@];
                let nb = final(self).buses()[name@];
                &&& !nb.subscriber_ids().contains(id)
                &&& (!r ==> nb.subscriber_ids() == b.subscriber_ids())
                &&& (r ==> exists|k: int| 0 <= k < b.subscriber_ids().len() && b.subscriber_ids()[k] == id
                    && nb.subscriber_ids() == b.subscriber_ids().remove(k))
                &&& nb.next_id() == b.next_id()
                &&& nb.pending() == b.pending()
                &&& nb.last() == b.last()
            },
    {
        let key = String::from_str(name);
        match self.buses.remove(&key) {
            Some(mut bus) => {
                let r = bus.unsubscribe(id);
                self.buses.insert(key, bus);
                proof {
                    assert(self.buses().dom() =~= old(self).buses().dom());
                }
                r
            },
            None => {
                proof {
                    assert(self.buses() =~= old(self).buses());
                }
                false
            },
        }
    }

    /// Names of all registered buses.
    pub fn list_bus_names(&self) -> (r: Vec<String>)
        ensures
            r@.len() == self.buses().len(),
            forall|i: int| 0 <= i < r@.len() ==> self.buses().contains_key(#[trigger] r@[i]@),
            forall|n: Seq<char>| self.buses().contains_key(n) ==> exists|i: int| 0 <= i < r@.len() && #[trigger] r@[i]@ == n,
            forall|i: int, j: int| 0 <= i < r@.len() && 0 <= j < r@.len() && i != j ==> r@[i]@ != r@[j]@,
    {
        self.buses.keys()
    }

    /// The type identifier of each registered bus (all buses here carry `E`).
    pub fn list_bus_type_ids(&self) -> (r: Vec<TypeId>)
        ensures
            r@.len() == self.buses().len(),
    {
        let n = self.buses.len();
        let mut out: Vec<TypeId> = Vec::new();
        let mut i: usize = 0;
        while i < n
            invariant
                i <= n,
                out@.len() == i,
            decreases n - i,
        {
            out.push(type_id_of::<E>());
            i = i + 1;
        }
        out
    }

    /// Metadata of every registered bus: its type identifier, the type
    /// label `<unknown>`, its name and its number of subscribers.
    pub fn list_buses(&self) -> (r: Vec<EventBusInfo>)
        ensures
            r@.len() == self.buses().len(),
            forall|i: int| 0 <= i < r@.len() ==> {
                &&& self.buses().contains_key(#[trigger] r@[i].name@)
                &&& r@[i].type_label@ == "<unknown>"@
                &&& r@[i].subscriber_count == self.buses()[r@[i].name@].subscriber_ids().len()
            },
            forall|n: Seq<char>| self.buses().contains_key(n) ==> exists|i: int| 0 <= i < r@.len() && #[trigger] r@[i].name@ == n,
            forall|i: int, j: int| 0 <= i < r@.len() && 0 <= j < r@.len() && i != j ==> r@[i].name@ != r@[j].name@,
            forall|i: int, j: int| 0 <= i < r@.len() && 0 <= j < r@.len() ==> r@[i].type_id == r@[j].type_id,
    {
        let names = self.buses.keys();
        let tid = type_id_of::<E>();
        let mut out: Vec<EventBusInfo> = Vec::new();
        let mut i: usize = 0;
        while i < names.len()
            invariant
                i <= names.len(),
                out@.len() == i,
                forall|k: int| 0 <= k < names@.len() ==> self.buses@.contains_key(#[trigger] names@[k]@),
                forall|j: int| 0 <= j < i ==> {
                    &&& (#[trigger] out@[j]).name@ == names@[j]@
                    &&& out@[j].type_id == tid
                    &&& out@[j].type_label@ == "<unknown>"@
                    &&& out@[j].subscriber_count == self.buses()[names@[j]@].subscriber_ids().len()
                },
            decreases names.len() - i,
        {
            let count = match self.buses.get(&names[i]) {
                Some(bus) => bus.subscriber_count(),
                None => 0,
            };
            out.push(EventBusInfo { type_id: tid, type_label: "<unknown>", name: names[i].clone(), subscriber_count: count });
            i = i + 1;
        }
        proof {
            assert forall|nm: Seq<char>| self.buses().contains_key(nm) implies exists|j: int| 0 <= j < out@.len() && #[trigger] out@[j].name@ == nm by {
                let j = choose|j: int| 0 <= j < names.len() && #[trigger] names@[j]@ == nm;
                assert(out@[j].name@ == nm);
            }
        }
        out
    }

    /// A (type label, name) pair for each registered bus.
    pub fn list_bus_types_and_names(&self) -> (r: Vec<(String, String)>)
        ensures
            r@.len() == self.buses().len(),
            forall|i: int| 0 <= i < r@.len() ==> self.buses().contains_key(#[trigger] r@[i].1@),
            forall|n: Seq<char>| self.buses().contains_key(n) ==> exists|i: int| 0 <= i < r@.len() && #[trigger] r@[i].1@ == n,
            forall|i: int, j: int| 0 <= i < r@.len() && 0 <= j < r@.len() && i != j ==> r@[i].1@ != r@[j].1@,
            forall|i: int, j: int| 0 <= i < r@.len() && 0 <= j < r@.len() ==> r@[i].0@ == r@[j].0@,
    {
        let names = self.buses.keys();
        let tid = type_id_of::<E>();
        let label = type_id_label(&tid);
        let mut out: Vec<(String, String)> = Vec::new();
        let mut i: usize = 0;
        while i < names.len()
            invariant
                i <= names.len(),
                out@.len() == i,
                forall|j: int| 0 <= j < i ==> (#[trigger] out@[j]).1@ == names@[j]@ && out@[j].0@ == label@,
            decreases names.len() - i,
        {
            out.push((label.clone(), names[i].clone()));
            i = i + 1;
        }
        proof {
            assert forall|nm: Seq<char>| self.buses().contains_key(nm) implies exists|j: int| 0 <= j < out@.len() && #[trigger] out@[j].1@ == nm by {
                let j = choose|j: int| 0 <= j < names.len() && #[trigger] names@[j]@ == nm;
                assert(out@[j].1@ == nm);
            }
        }
        out
    }

    /// Subscriber count of the bus of the given name, if registered.
    pub fn subscriber_count(&self, name: &str) -> (r: Option<usize>)
        ensures
            r is None <==> !self.buses().contains_key(name@),
            r matches Some(c) ==> c == self.buses()[name@].subscriber_ids().len(),
    {
        match self.buses.get(&String::from_str(name)) {
            Some(b) => Some(b.subscriber_count()),
            None => None,
        }
    }
}

} // verus!
