//! The ECS world: entities, their component values (JSON), the game mode
//! that gates which components are in play, and the event buses.
use vstd::prelude::*;

use crate::collections::{KeyMap, KeySet};
use crate::ecs::equipment_set::EquipmentSetRegistry;
use crate::ecs::event::{handler_ok, EventBus};
use crate::ecs::event_bus_registry::EventBusRegistry;
use crate::ecs::item::ItemRegistry;
use crate::ecs::template::UnitTemplateRegistry;
use crate::ecs::registry::{has_mode, has_mode_exec, ComponentRegistry};
use crate::ecs::time::TimeOfDay;
use crate::json::{entries_view, Json, JsonV};
use crate::json_text::{check_against_schema, schema_check};
use crate::loot::LootTableRegistry;
use crate::map::cell_key::CellKey;
use crate::map::WorldMap;

pub mod events;
pub mod fog;
pub mod maps;
pub mod queries;
pub mod queues;
pub mod regions;
pub mod resources;
pub mod schemas;
pub mod skills;
pub mod template_spawn;
pub mod zone;

verus! {

/// A scale-generic link from a source map to a target map. Cells are
/// topology-generic [`CellKey`]s, so a link may connect any two topologies.
pub struct MapLink {
    /// Name of the target map.
    pub target_map: String,
    /// Cell on the source map that anchors the link.
    pub source_cell: CellKey,
    /// Cell on the target map that anchors the link.
    pub target_cell: CellKey,
}

/// `s` without any occurrence of `e`, order kept.
pub open spec fn without(s: Seq<u32>, e: u32) -> Seq<u32>
    decreases s.len(),
{
    if s.len() == 0 {
        s
    } else if s.last() == e {
        without(s.drop_last(), e)
    } else {
        without(s.drop_last(), e).push(s.last())
    }
}

/// `s` without the elements of `d`, order kept.
pub open spec fn drop_set(s: Seq<u32>, d: Set<u32>) -> Seq<u32>
    decreases s.len(),
{
    if s.len() == 0 {
        s
    } else if d.contains(s.last()) {
        drop_set(s.drop_last(), d)
    } else {
        drop_set(s.drop_last(), d).push(s.last())
    }
}

/// Dropping one more element after a set is dropping the set with it.
pub proof fn lemma_drop_set_without(s: Seq<u32>, d: Set<u32>, e: u32)
    ensures
        without(drop_set(s, d), e) == drop_set(s, d.insert(e)),
    decreases s.len(),
{
    if s.len() > 0 {
        lemma_drop_set_without(s.drop_last(), d, e);
        let r = drop_set(s.drop_last(), d);
        if !d.contains(s.last()) {
            assert(r.push(s.last()).drop_last() =~= r);
        }
    }
}

/// Dropping one set after another is dropping both.
pub proof fn lemma_drop_set_union(s: Seq<u32>, a: Set<u32>, b: Set<u32>)
    ensures
        drop_set(drop_set(s, a), b) == drop_set(s, a.union(b)),
    decreases s.len(),
{
    if s.len() > 0 {
        lemma_drop_set_union(s.drop_last(), a, b);
        let r = drop_set(s.drop_last(), a);
        if !a.contains(s.last()) {
            assert(r.push(s.last()).drop_last() =~= r);
        }
    }
}

/// Dropping nothing keeps the sequence.
pub proof fn lemma_drop_set_empty(s: Seq<u32>)
    ensures
        drop_set(s, Set::empty()) == s,
    decreases s.len(),
{
    if s.len() > 0 {
        lemma_drop_set_empty(s.drop_last());
        assert(s.drop_last().push(s.last()) =~= s);
    }
}

/// A JSON value or `null`.
pub open spec fn or_null(v: Option<JsonV>) -> JsonV {
    match v {
        Some(x) => x,
        None => JsonV::Null,
    }
}

/// The `component_changed` event payload.
pub open spec fn change_event(e: u32, name: Seq<char>, action: Seq<char>, old: Option<JsonV>, new: Option<JsonV>) -> JsonV {
    JsonV::Object(
        seq![
            ("action"@, JsonV::Str(action)),
            ("component"@, JsonV::Str(name)),
            ("entity"@, JsonV::Int(e as i64)),
            ("new"@, or_null(new)),
            ("old"@, or_null(old)),
        ],
    )
}

/// The message of a failed schema check: the compile error, or the
/// validation errors joined by `, `.
pub open spec fn join_comma(msgs: Seq<Seq<char>>) -> Seq<char>
    decreases msgs.len(),
{
    if msgs.len() == 0 {
        Seq::empty()
    } else if msgs.len() == 1 {
        msgs[0]
    } else {
        join_comma(msgs.drop_last()) + ", "@ + msgs.last()
    }
}

/// The ECS world, which holds all entities, components and registries.
pub struct World<H: Fn(&Json)> {
    /// List of all entity IDs in the world.
    pub entities: Vec<u32>,
    /// Map from component name to a map of entity IDs to component data.
    pub components: KeyMap<String, KeyMap<u32, Json>>,
    /// Identifier the next spawned entity gets.
    pub next_id: u32,
    /// Current game mode.
    pub current_mode: String,
    /// Current turn number.
    pub turn: u32,
    /// Current time of day.
    pub time_of_day: TimeOfDay,
    /// Component registry
    pub registry: ComponentRegistry,
    /// Event bus registry
    pub event_buses: EventBusRegistry<Json, H>,
    /// Loot table registry
    pub loot_tables: LootTableRegistry,
    /// Equipment set registry
    pub equipment_set_registry: EquipmentSetRegistry,
    /// Item definition registry
    pub item_registry: ItemRegistry,
    /// Unit template registry
    pub template_registry: UnitTemplateRegistry,
    /// Number the next designated zone gets.
    pub next_zone_id: u64,
    /// The active map, if any.
    pub map: Option<WorldMap>,
    /// Named maps; `map` holds a copy of the active one.
    pub maps: KeyMap<String, WorldMap>,
    /// Name of the map currently held in `map` (empty when none).
    pub active_map: String,
    /// Source map name to its link to a target map.
    pub map_links: KeyMap<String, MapLink>,
    /// The maps entered before the active one, most recent last.
    pub map_stack: Vec<String>,
    /// Per event type, the events emitted this frame and the events
    /// delivered for processing.
    pub event_queues: KeyMap<String, (Vec<Json>, Vec<Json>)>,
    /// Per entity, the cells it currently sees.
    pub visible_cells: KeyMap<u32, KeySet<CellKey>>,
    /// Per entity, the cells it has seen (fog-of-war memory).
    pub explored_cells: KeyMap<u32, KeySet<CellKey>>,
}

impl<H: Fn(&Json)> World<H> {
    /// The value of component `name` on entity `e`, if stored.
    pub open spec fn comp(self, name: Seq<char>, e: u32) -> Option<JsonV> {
        if self.components@.contains_key(name) && self.components@[name]@.contains_key(e) {
            Some(self.components@[name]@[e]@)
        } else {
            None
        }
    }

    /// Whether component `name` is registered for game mode `mode`.
    pub open spec fn allowed(self, name: Seq<char>, mode: Seq<char>) -> bool {
        self.registry.schemas().contains_key(name) && has_mode(self.registry.schemas()[name].modes@, mode)
    }

    /// The identifier the next spawned entity gets.
    pub open spec fn next_entity(self) -> u32 {
        self.next_id
    }

    /// The number the next designated zone gets.
    pub open spec fn next_zone(self) -> u64 {
        self.next_zone_id
    }

    /// Every listed entity has an identifier below the next one.
    pub open spec fn ids_below_next(self) -> bool {
        forall|i: int| 0 <= i < self.entities@.len() ==> #[trigger] self.entities@[i] < self.next_entity()
    }

    /// Creates a new World with the given component registry, in `colony`
    /// mode, with no entities.
    pub fn new(registry: ComponentRegistry) -> (r: Self)
        ensures
            r.entities@ == Seq::<u32>::empty(),
            r.components@ == Map::<Seq<char>, KeyMap<u32, Json>>::empty(),
            r.next_entity() == 1,
            r.next_zone() == 1,
            r.current_mode@ == "colony"@,
            r.turn == 0,
            r.registry == registry,
            r.event_buses.buses() == Map::<Seq<char>, EventBus<Json, H>>::empty(),
            r.map is None,
            r.maps@ == Map::<Seq<char>, WorldMap>::empty(),
            r.active_map@.len() == 0,
            r.map_links@ == Map::<Seq<char>, MapLink>::empty(),
            r.map_stack@.len() == 0,
            r.event_queues@ == Map::<Seq<char>, (Vec<Json>, Vec<Json>)>::empty(),
            r.visible_cells@ == Map::<u32, KeySet<CellKey>>::empty(),
            r.explored_cells@ == Map::<u32, KeySet<CellKey>>::empty(),
    {
        World {
            entities: Vec::new(),
            components: KeyMap::new(),
            next_id: 1,
            current_mode: String::from_str("colony"),
            turn: 0,
            time_of_day: TimeOfDay::new(),
            registry,
            event_buses: EventBusRegistry::new(),
            loot_tables: LootTableRegistry::new(),
            equipment_set_registry: EquipmentSetRegistry::new(),
            item_registry: ItemRegistry::new(),
            template_registry: UnitTemplateRegistry::new(),
            next_zone_id: 1,
            map: None,
            maps: KeyMap::new(),
            active_map: String::new(),
            map_links: KeyMap::new(),
            map_stack: Vec::new(),
            event_queues: KeyMap::new(),
            visible_cells: KeyMap::new(),
            explored_cells: KeyMap::new(),
        }
    }

    /// Returns the current game mode.
    pub fn get_mode(&self) -> (r: &str)
        ensures
            r@ == self.current_mode@,
    {
        self.current_mode.as_str()
    }

    /// Spawn a new entity, returning its identifier.
    pub fn spawn_entity(&mut self) -> (id: u32)
        requires
            old(self).next_entity() < u32::MAX,
        ensures
            id == old(self).next_entity(),
            final(self).next_entity() == id + 1,
            final(self).entities@ == old(self).entities@.push(id),
            final(self).components@ == old(self).components@,
            final(self).current_mode == old(self).current_mode,
            final(self).registry == old(self).registry,
            final(self).event_buses == old(self).event_buses,
            final(self).next_zone() == old(self).next_zone(),
    {
        let id = self.next_id;
        self.next_id = id + 1;
        self.entities.push(id);
        id
    }

    /// Despawn an entity: its component values are removed from every
    /// table, and it leaves the entity list.
    pub fn despawn_entity(&mut self, entity: u32)
        ensures
            final(self).entities@ == without(old(self).entities@, entity),
            final(self).components@.dom() == old(self).components@.dom(),
            forall|n: Seq<char>, e: u32| #[trigger] final(self).comp(n, e) == if e == entity {
                None
            } else {
                old(self).comp(n, e)
            },
            final(self).next_entity() == old(self).next_entity(),
            final(self).current_mode == old(self).current_mode,
            final(self).registry == old(self).registry,
            final(self).event_buses == old(self).event_buses,
            final(self).next_zone() == old(self).next_zone(),
    {
        let names = self.components.keys();
        let ghost before = self.components@;
        let mut i: usize = 0;
        while i < names.len()
            invariant
                i <= names.len(),
                self.entities == old(self).entities,
                self.next_id == old(self).next_id,
                self.current_mode == old(self).current_mode,
                self.registry == old(self).registry,
                self.event_buses == old(self).event_buses,
                self.next_zone_id == old(self).next_zone_id,
                self.components@.dom() == before.dom(),
                forall|j: int| 0 <= j < names.len() ==> before.contains_key(#[trigger] names@[j]@),
                forall|n: Seq<char>| before.contains_key(n) ==> exists|j: int| 0 <= j < names.len() && #[trigger] names@[j]@ == n,
                forall|a: int, b: int| 0 <= a < names.len() && 0 <= b < names.len() && a != b ==> names@[a]@ != names@[b]@,
                forall|j: int| 0 <= j < i ==> self.components@[#[trigger] names@[j]@]@ == before[names@[j]@]@.remove(entity),
                forall|j: int| i <= j < names.len() ==> self.components@[#[trigger] names@[j]@] == before[names@[j]@],
            decreases names.len() - i,
        {
            let key = names[i].clone();
            match self.components.remove(&key) {
                Some(mut table) => {
                    table.remove(&entity);
                    self.components.insert(key, table);
                    proof {
                        assert(self.components@.dom() =~= before.dom());
                    }
                },
                None => {
                    assert(false);
                },
            }
            i = i + 1;
        }
        proof {
            assert forall|n: Seq<char>, e: u32| #[trigger] self.comp(n, e) == if e == entity {
                None
            } else {
                old(self).comp(n, e)
            } by {
                if before.contains_key(n) {
                    let j = choose|j: int| 0 <= j < names.len() && #[trigger] names@[j]@ == n;
                    assert(self.components@[names@[j]@]@ == before[names@[j]@]@.remove(entity));
                }
            }
        }
        let mut kept: Vec<u32> = Vec::new();
        let mut k: usize = 0;
        while k < self.entities.len()
            invariant
                k <= self.entities@.len(),
                self.entities == old(self).entities,
                self.next_id == old(self).next_id,
                self.current_mode == old(self).current_mode,
                self.registry == old(self).registry,
                self.event_buses == old(self).event_buses,
                self.next_zone_id == old(self).next_zone_id,
                forall|n: Seq<char>, e: u32| #[trigger] self.comp(n, e) == if e == entity {
                    None
                } else {
                    old(self).comp(n, e)
                },
                self.components@.dom() == old(self).components@.dom(),
                kept@ == without(self.entities@.subrange(0, k as int), entity),
            decreases self.entities@.len() - k,
        {
            let x = self.entities[k];
            assert(self.entities@.subrange(0, k + 1).drop_last() =~= self.entities@.subrange(0, k as int));
            if x != entity {
                kept.push(x);
            }
            k = k + 1;
        }
        assert(self.entities@.subrange(0, k as int) =~= self.entities@);
        self.entities = kept;
    }

    /// Despawn every entity of `ids`, in order.
    pub fn despawn_all(&mut self, ids: &Vec<u32>)
        ensures
            final(self).entities@ == drop_set(old(self).entities@, ids@.to_set()),
            final(self).components@.dom() == old(self).components@.dom(),
            forall|n: Seq<char>, e: u32| #[trigger] final(self).comp(n, e) == if ids@.contains(e) {
                None
            } else {
                old(self).comp(n, e)
            },
            final(self).next_id == old(self).next_id,
            final(self).current_mode == old(self).current_mode,
            final(self).registry == old(self).registry,
            final(self).event_buses == old(self).event_buses,
            final(self).next_zone_id == old(self).next_zone_id,
    {
        proof {
            lemma_drop_set_empty(self.entities@);
            assert(ids@.subrange(0, 0).to_set() =~= Set::<u32>::empty());
        }
        let mut i: usize = 0;
        while i < ids.len()
            invariant
                i <= ids.len(),
                self.entities@ == drop_set(old(self).entities@, ids@.subrange(0, i as int).to_set()),
                self.components@.dom() == old(self).components@.dom(),
                forall|n: Seq<char>, e: u32| #[trigger] self.comp(n, e) == if ids@.subrange(0, i as int).contains(e) {
                    None
                } else {
                    old(self).comp(n, e)
                },
                self.next_id == old(self).next_id,
                self.current_mode == old(self).current_mode,
                self.registry == old(self).registry,
                self.event_buses == old(self).event_buses,
                self.next_zone_id == old(self).next_zone_id,
            decreases ids.len() - i,
        {
            let e = ids[i];
            let ghost prev = self.entities@;
            self.despawn_entity(e);
            proof {
                let d = ids@.subrange(0, i as int).to_set();
                lemma_drop_set_without(old(self).entities@, d, e);
                assert forall|x: u32| #[trigger] ids@.subrange(0, i + 1).to_set().contains(x) <==> d.insert(e).contains(x) by {
                    if ids@.subrange(0, i + 1).contains(x) {
                        let k = choose|k: int| 0 <= k < i + 1 && #[trigger] ids@.subrange(0, i + 1)[k] == x;
                        if k < i {
                            assert(ids@.subrange(0, i as int)[k] == x);
                        }
                    }
                    if ids@.subrange(0, i as int).contains(x) {
                        let k = choose|k: int| 0 <= k < i && #[trigger] ids@.subrange(0, i as int)[k] == x;
                        assert(ids@.subrange(0, i + 1)[k] == x);
                    }
                    if x == e {
                        assert(ids@.subrange(0, i + 1)[i as int] == x);
                    }
                }
                assert(ids@.subrange(0, i + 1).to_set() =~= d.insert(e));
                assert forall|x: u32| #[trigger] ids@.subrange(0, i + 1).contains(x) == (ids@.subrange(0, i as int).contains(x) || x == e) by {
                    assert(ids@.subrange(0, i + 1).to_set().contains(x) == d.insert(e).contains(x));
                }
            }
            i = i + 1;
        }
        assert(ids@.subrange(0, i as int) =~= ids@);
    }

    /// Checks if an entity exists: it is listed, or some table holds a
    /// value for it.
    pub fn entity_exists(&self, entity: u32) -> (r: bool)
        ensures
            r == (self.entities@.contains(entity) || exists|n: Seq<char>| #[trigger] self.comp(n, entity) is Some),
    {
        let mut i: usize = 0;
        while i < self.entities.len()
            invariant
                i <= self.entities@.len(),
                forall|j: int| 0 <= j < i ==> self.entities@[j] != entity,
            decreases self.entities@.len() - i,
        {
            if self.entities[i] == entity {
                assert(self.entities@[i as int] == entity);
                return true;
            }
            i = i + 1;
        }
        let n = self.components.len();
        let mut j: usize = 0;
        while j < n
            invariant
                j <= n,
                n == self.components.entries().len(),
                forall|k: int| 0 <= k < n ==> self.components@.contains_key(#[trigger] self.components.entries()[k].0@)
                    && self.components@[self.components.entries()[k].0@] == self.components.entries()[k].1,
                forall|k: int| 0 <= k < j ==> !(#[trigger] self.components.entries()[k]).1@.contains_key(entity),
            decreases n - j,
        {
            let table = self.components.value_at(j);
            if table.contains_key(&entity) {
                assert(self.comp(self.components.entries()[j as int].0@, entity) is Some);
                return true;
            }
            j = j + 1;
        }
        proof {
            assert forall|nm: Seq<char>| !(#[trigger] self.comp(nm, entity) is Some) by {
                if self.components@.contains_key(nm) {
                    let k = choose|k: int| 0 <= k < n && #[trigger] self.components.entries()[k].0@ == nm;
                    assert(!self.components.entries()[k].1@.contains_key(entity));
                }
            }
            assert(!self.entities@.contains(entity));
        }
        false
    }

    /// All listed entities.
    pub fn get_entities(&self) -> (r: Vec<u32>)
        ensures
            r@ == self.entities@,
    {
        self.entities.clone()
    }

    /// Returns true if the component is allowed in the given mode: it is
    /// registered and its schema lists the mode.
    pub fn is_component_allowed_in_mode(&self, component: &str, mode: &str) -> (r: bool)
        ensures
            r == self.allowed(component@, mode@),
    {
        match self.registry.get_schema_by_name(component) {
            Some(schema) => has_mode_exec(&schema.modes, mode),
            None => false,
        }
    }

    /// Entities holding component `name`, when it is allowed in the current
    /// mode (none otherwise).
    pub fn get_entities_with_component(&self, name: &str) -> (r: Vec<u32>)
        ensures
            !self.allowed(name@, self.current_mode@) ==> r@.len() == 0,
            self.allowed(name@, self.current_mode@) ==> {
                &&& forall|i: int| 0 <= i < r@.len() ==> #[trigger] self.comp(name@, r@[i]) is Some
                &&& forall|e: u32| #[trigger] self.comp(name@, e) is Some ==> r@.contains(e)
                &&& forall|a: int, b: int| 0 <= a < r@.len() && 0 <= b < r@.len() && a != b ==> r@[a] != r@[b]
            },
    {
        if !self.is_component_allowed_in_mode(name, self.current_mode.as_str()) {
            return Vec::new();
        }
        match self.components.get(&String::from_str(name)) {
            Some(table) => {
                let r = table.keys();
                proof {
                    assert forall|e: u32| #[trigger] self.comp(name@, e) is Some implies r@.contains(e) by {
                        let i = choose|i: int| 0 <= i < r.len() && #[trigger] r@[i]@ == e;
                        assert(r@[i] == e);
                    }
                }
                r
            },
            None => Vec::new(),
        }
    }

    /// Checks if an entity has a component (whatever the mode).
    pub fn has_component(&self, entity: u32, name: &str) -> (r: bool)
        ensures
            r == self.comp(name@, entity) is Some,
    {
        match self.components.get(&String::from_str(name)) {
            Some(table) => table.contains_key(&entity),
            None => false,
        }
    }

    /// The value of a component of an entity, when the component is allowed
    /// in the current mode.
    pub fn get_component(&self, entity: u32, name: &str) -> (r: Option<&Json>)
        ensures
            !self.allowed(name@, self.current_mode@) ==> r is None,
            self.allowed(name@, self.current_mode@) ==> match r {
                Some(v) => self.comp(name@, entity) == Some(v@),
                None => self.comp(name@, entity) is None,
            },
    {
        if !self.is_component_allowed_in_mode(name, self.current_mode.as_str()) {
            return None;
        }
        match self.components.get(&String::from_str(name)) {
            Some(table) => table.get(&entity),
            None => None,
        }
    }

    /// Send an event on the event bus of the given type, creating the bus
    /// when there is none. Every subscriber's handler is called on it.
    pub fn send_event(&mut self, event_type: &str, payload: Json) -> (r: Result<(), String>)
        ensures
            r is Ok,
            final(self).event_buses.buses().dom() == old(self).event_buses.buses().dom().insert(event_type@),
            forall|n: Seq<char>| n != event_type@ ==> #[trigger] final(self).event_buses.buses().get(n)
                == old(self).event_buses.buses().get(n),
            old(self).event_buses.buses().contains_key(event_type@) ==> {
                let b = old(self).event_buses.buses()[event_type@];
                let nb = final(self).event_buses.buses()[event_type@];
                &&& forall|k: int| 0 <= k < b.handlers().len() ==> call_ensures(#[trigger] b.handlers()[k], (&payload,), ())
                &&& nb.pending() == b.pending().push(payload)
                &&& nb.last() == b.last()
                &&& nb.subscriber_ids() == b.subscriber_ids()
                &&& nb.handlers() == b.handlers()
            },
            !old(self).event_buses.buses().contains_key(event_type@) ==> {
                let nb = final(self).event_buses.buses()[event_type@];
                &&& nb.pending() == seq![payload]
                &&& nb.last() == Seq::<Json>::empty()
                &&& nb.subscriber_ids() == Seq::<usize>::empty()
                &&& nb.handlers() == Seq::<H>::empty()
            },
            final(self).entities == old(self).entities,
            final(self).components@ == old(self).components@,
            final(self).next_entity() == old(self).next_entity(),
            final(self).current_mode == old(self).current_mode,
            final(self).registry == old(self).registry,
            final(self).next_zone() == old(self).next_zone(),
    {
        self.event_buses.send(event_type, payload);
        Ok(())
    }

    /// Store a component value for an entity. The component must be allowed
    /// in the current mode and the value must pass its schema; a
    /// `component_changed` event records the change.
    pub fn set_component(&mut self, entity: u32, name: &str, value: Json) -> (r: Result<(), String>)
        ensures
            !old(self).allowed(name@, old(self).current_mode@) ==> r is Err && err_text(r)@ == "Component "@ + name@
                + " not allowed in mode "@ + old(self).current_mode@,
            old(self).allowed(name@, old(self).current_mode@) ==> match schema_check(
                old(self).registry.schemas()[name@].schema@,
                value@,
            ) {
                Err(e) => r is Err && err_text(r)@ == "Schema compile error: "@ + e,
                Ok(msgs) => if msgs.len() > 0 {
                    r is Err && err_text(r)@ == "Schema validation failed: "@ + join_comma(msgs)
                } else {
                    r is Ok
                },
            },
            r is Err ==> *final(self) == *old(self),
            r is Ok ==> {
                &&& final(self).components@.dom() == old(self).components@.dom().insert(name@)
                &&& forall|n: Seq<char>, e: u32| #[trigger] final(self).comp(n, e) == if n == name@ && e == entity {
                    Some(value@)
                } else {
                    old(self).comp(n, e)
                }
                &&& sent_event(*old(self), *final(self), "component_changed"@, change_event(entity, name@, "set"@, old(self).comp(name@, entity), Some(value@)))
                &&& final(self).entities == old(self).entities
                &&& final(self).next_entity() == old(self).next_entity()
                &&& final(self).current_mode == old(self).current_mode
                &&& final(self).registry == old(self).registry
                &&& final(self).next_zone() == old(self).next_zone()
            },
    {
        if !self.is_component_allowed_in_mode(name, self.current_mode.as_str()) {
            let mut msg = String::from_str("Component ");
            msg.append(name);
            msg.append(" not allowed in mode ");
            msg.append(self.current_mode.as_str());
            return Err(msg);
        }
        let schema = match self.registry.get_schema_by_name(name) {
            Some(s) => s,
            None => {
                return Err(String::new());
            },
        };
        match check_against_schema(&schema.schema, &value) {
            Err(e) => {
                let mut msg = String::from_str("Schema compile error: ");
                msg.append(e.as_str());
                return Err(msg);
            },
            Ok(msgs) => {
                if msgs.len() > 0 {
                    let mut msg = String::from_str("Schema validation failed: ");
                    let joined = join_messages(&msgs);
                    msg.append(joined.as_str());
                    return Err(msg);
                }
            },
        }
        let key = String::from_str(name);
        let old_value: Option<Json> = match self.components.get(&key) {
            Some(table) => match table.get(&entity) {
                Some(v) => Some(v.deep_clone()),
                None => None,
            },
            None => None,
        };
        let event = component_changed(entity, name, "set", old_value, Some(value.deep_clone()));
        let ghost before = self.components@;
        let mut table = match self.components.remove(&key) {
            Some(t) => t,
            None => KeyMap::new(),
        };
        table.insert(entity, value);
        self.components.insert(key, table);
        proof {
            assert(self.components@.dom() =~= before.dom().insert(name@));
        }
        let _ = self.send_event("component_changed", event);
        Ok(())
    }

    /// Remove a component from an entity. The component must be allowed in
    /// the current mode and present; a `component_changed` event records
    /// the removal.
    pub fn remove_component(&mut self, entity: u32, name: &str) -> (r: Result<(), String>)
        ensures
            !old(self).allowed(name@, old(self).current_mode@) ==> r is Err && err_text(r)@ == "Component "@ + name@
                + " not allowed in mode "@ + old(self).current_mode@,
            old(self).allowed(name@, old(self).current_mode@) && old(self).comp(name@, entity) is None ==> r is Err
                && err_text(r)@ == "Component not found"@,
            r is Err ==> *final(self) == *old(self),
            old(self).allowed(name@, old(self).current_mode@) && old(self).comp(name@, entity) is Some ==> {
                &&& r is Ok
                &&& final(self).components@.dom() == old(self).components@.dom()
                &&& forall|n: Seq<char>, e: u32| #[trigger] final(self).comp(n, e) == if n == name@ && e == entity {
                    None
                } else {
                    old(self).comp(n, e)
                }
                &&& sent_event(*old(self), *final(self), "component_changed"@, change_event(entity, name@, "removed"@, old(self).comp(name@, entity), None))
                &&& final(self).entities == old(self).entities
                &&& final(self).next_entity() == old(self).next_entity()
                &&& final(self).current_mode == old(self).current_mode
                &&& final(self).registry == old(self).registry
                &&& final(self).next_zone() == old(self).next_zone()
            },
    {
        if !self.is_component_allowed_in_mode(name, self.current_mode.as_str()) {
            let mut msg = String::from_str("Component ");
            msg.append(name);
            msg.append(" not allowed in mode ");
            msg.append(self.current_mode.as_str());
            return Err(msg);
        }
        let key = String::from_str(name);
        let present = match self.components.get(&key) {
            Some(table) => table.contains_key(&entity),
            None => false,
        };
        if !present {
            return Err(String::from_str("Component not found"));
        }
        let ghost before = self.components@;
        let mut table = match self.components.remove(&key) {
            Some(t) => t,
            None => KeyMap::new(),
        };
        let old_value = table.remove(&entity);
        self.components.insert(key, table);
        proof {
            assert(self.components@.dom() =~= before.dom());
        }
        let event = component_changed(entity, name, "removed", old_value, None);
        let _ = self.send_event("component_changed", event);
        Ok(())
    }

    /// Switch the game mode; tables of components not registered for the
    /// new mode are dropped.
    pub fn set_mode(&mut self, mode: &str)
        ensures
            final(self).current_mode@ == mode@,
            forall|n: Seq<char>| #[trigger] final(self).components@.contains_key(n) <==> old(self).components@.contains_key(n)
                && old(self).allowed(n, mode@),
            forall|n: Seq<char>| #[trigger] final(self).components@.contains_key(n) ==> final(self).components@[n]
                == old(self).components@[n],
            final(self).entities == old(self).entities,
            final(self).next_entity() == old(self).next_entity(),
            final(self).registry == old(self).registry,
            final(self).event_buses == old(self).event_buses,
            final(self).next_zone() == old(self).next_zone(),
    {
        self.current_mode = String::from_str(mode);
        let names = self.components.keys();
        let ghost before = self.components@;
        let mut i: usize = 0;
        while i < names.len()
            invariant
                i <= names.len(),
                self.current_mode@ == mode@,
                self.entities == old(self).entities,
                self.next_id == old(self).next_id,
                self.event_buses == old(self).event_buses,
                self.next_zone_id == old(self).next_zone_id,
                self.registry == old(self).registry,
                before == old(self).components@,
                forall|j: int| 0 <= j < names.len() ==> before.contains_key(#[trigger] names@[j]@),
                forall|n: Seq<char>| before.contains_key(n) ==> exists|j: int| 0 <= j < names.len() && #[trigger] names@[j]@ == n,
                forall|a: int, b: int| 0 <= a < names.len() && 0 <= b < names.len() && a != b ==> names@[a]@ != names@[b]@,
                forall|n: Seq<char>| #[trigger] self.components@.contains_key(n) ==> before.contains_key(n) && self.components@[n] == before[n],
                forall|j: int| 0 <= j < i ==> (self.components@.contains_key(#[trigger] names@[j]@) <==> old(self).allowed(names@[j]@, mode@)),
                forall|j: int| i <= j < names.len() ==> self.components@.contains_key(#[trigger] names@[j]@),
            decreases names.len() - i,
        {
            if !self.is_component_allowed_in_mode(names[i].as_str(), mode) {
                self.components.remove(&names[i]);
            }
            i = i + 1;
        }
        proof {
            assert forall|n: Seq<char>| #[trigger] self.components@.contains_key(n) <==> old(self).components@.contains_key(n)
                && old(self).allowed(n, mode@) by {
                if before.contains_key(n) {
                    let j = choose|j: int| 0 <= j < names.len() && #[trigger] names@[j]@ == n;
                    assert(self.components@.contains_key(names@[j]@) <==> old(self).allowed(names@[j]@, mode@));
                }
            }
        }
    }

    /// Drop a component's schema and every stored value of it.
    pub fn unregister_component_and_cleanup(&mut self, name: &str)
        ensures
            final(self).registry.schemas() == old(self).registry.schemas().remove(name@),
            final(self).components@ == old(self).components@.remove(name@),
            final(self).entities == old(self).entities,
            final(self).current_mode == old(self).current_mode,
    {
        self.registry.unregister_external_schema(name);
        self.components.remove(&String::from_str(name));
    }

    /// Events of the given type from the last frame, oldest first; then the
    /// bus moves to the next frame. None when there is no such bus.
    pub fn take_events(&mut self, event_type: &str) -> (r: Vec<Json>)
        ensures
            !old(self).event_buses.buses().contains_key(event_type@) ==> r@.len() == 0 && *final(self) == *old(self),
            old(self).event_buses.buses().contains_key(event_type@) ==> {
                let b = old(self).event_buses.buses()[event_type@];
                let nb = final(self).event_buses.buses()[event_type@];
                &&& r@.len() == b.last().len()
                &&& forall|i: int| 0 <= i < r@.len() ==> (#[trigger] r@[i])@ == b.last()[i]@
                &&& nb.last() == b.pending()
                &&& nb.pending() == Seq::<Json>::empty()
                &&& nb.subscriber_ids() == b.subscriber_ids()
                &&& final(self).event_buses.buses().dom() == old(self).event_buses.buses().dom()
                &&& forall|n: Seq<char>| n != event_type@ ==> #[trigger] final(self).event_buses.buses().get(n)
                    == old(self).event_buses.buses().get(n)
            },
            final(self).components@ == old(self).components@,
            final(self).entities == old(self).entities,
            final(self).current_mode == old(self).current_mode,
            final(self).registry == old(self).registry,
    {
        let out = match self.event_buses.get_event_bus(event_type) {
            Some(bus) => {
                let last = bus.last_events();
                let mut v: Vec<Json> = Vec::new();
                let mut i: usize = 0;
                while i < last.len()
                    invariant
                        i <= last@.len(),
                        v@.len() == i,
                        forall|k: int| 0 <= k < i ==> (#[trigger] v@[k])@ == last@[k]@,
                    decreases last@.len() - i,
                {
                    v.push(last[i].deep_clone());
                    i = i + 1;
                }
                v
            },
            None => {
                return Vec::new();
            },
        };
        self.event_buses.update_one(event_type);
        out
    }
}

/// `after` is `before` with `event` sent on the bus named `name` (created
/// when missing), everything else about the buses unchanged.
pub open spec fn sent_event<H: Fn(&Json)>(before: World<H>, after: World<H>, name: Seq<char>, event: JsonV) -> bool {
    &&& after.event_buses.buses().dom() == before.event_buses.buses().dom().insert(name)
    &&& forall|n: Seq<char>| n != name ==> #[trigger] after.event_buses.buses().get(n) == before.event_buses.buses().get(n)
    &&& after.event_buses.buses()[name].pending().len() == (if before.event_buses.buses().contains_key(name) {
        before.event_buses.buses()[name].pending().len()
    } else {
        0
    }) + 1
    &&& after.event_buses.buses()[name].pending().last()@ == event
}

/// The error text of a failed result.
pub open spec fn err_text<T>(r: Result<T, String>) -> String {
    match r {
        Err(e) => e,
        Ok(_) => arbitrary(),
    }
}

/// Join messages with `, `.
pub fn join_messages(msgs: &Vec<String>) -> (r: String)
    ensures
        r@ == join_comma(msgs@.map_values(|m: String| m@)),
{
    let mut out = String::new();
    let mut i: usize = 0;
    while i < msgs.len()
        invariant
            i <= msgs.len(),
            out@ == join_comma(msgs@.subrange(0, i as int).map_values(|m: String| m@)),
        decreases msgs.len() - i,
    {
        let ghost prev = msgs@.subrange(0, i as int).map_values(|m: String| m@);
        let ghost next = msgs@.subrange(0, i + 1).map_values(|m: String| m@);
        assert(next.drop_last() =~= prev);
        if i > 0 {
            out.append(", ");
        }
        out.append(msgs[i].as_str());
        proof {
            reveal_strlit(", ");
            if i == 0 {
                assert(out@ =~= next[0]);
            } else {
                assert(out@ =~= join_comma(prev) + ", "@ + next.last());
            }
        }
        i = i + 1;
    }
    assert(msgs@.subrange(0, i as int) =~= msgs@);
    out
}

/// The `component_changed` event payload for a change of component `name`
/// on `entity`.
pub fn component_changed(entity: u32, name: &str, action: &str, old: Option<Json>, new: Option<Json>) -> (r: Json)
    ensures
        r@ == change_event(
            entity,
            name@,
            action@,
            match old {
                Some(v) => Some(v@),
                None => None,
            },
            match new {
                Some(v) => Some(v@),
                None => None,
            },
        ),
{
    let ghost nv = match &new { Some(v) => Some(v@), None => None::<JsonV> };
    let ghost ov = match &old { Some(v) => Some(v@), None => None::<JsonV> };
    let mut e: Vec<(String, Json)> = Vec::new();
    e.push((String::from_str("action"), Json::Str(String::from_str(action))));
    e.push((String::from_str("component"), Json::Str(String::from_str(name))));
    e.push((String::from_str("entity"), Json::Int(entity as i64)));
    e.push((String::from_str("new"), match new { Some(v) => v, None => Json::Null }));
    e.push((String::from_str("old"), match old { Some(v) => v, None => Json::Null }));
    let ghost ev = entries_view(&e);
    assert(ev[0] == ("action"@, JsonV::Str(action@)));
    assert(ev[1] == ("component"@, JsonV::Str(name@)));
    assert(ev[2] == ("entity"@, JsonV::Int(entity as i64)));
    assert(ev[3] == ("new"@, or_null(nv)));
    assert(ev[4] == ("old"@, or_null(ov)));
    assert(ev.len() == 5);
    let r = Json::Object(e);
    proof {
        reveal_strlit("action");
        reveal_strlit("component");
        reveal_strlit("entity");
        reveal_strlit("new");
        reveal_strlit("old");
        assert(entries_view(&e) =~= seq![
            ("action"@, JsonV::Str(action@)),
            ("component"@, JsonV::Str(name@)),
            ("entity"@, JsonV::Int(entity as i64)),
            ("new"@, or_null(nv)),
            ("old"@, or_null(ov)),
        ]);
        assert(r@ == JsonV::Object(ev));
        assert(r@ == change_event(entity, name@, action@, ov, nv));
    }
    r
}


proof fn lemma_without_drops(s: Seq<u32>, e: u32)
    ensures
        !without(s, e).contains(e),
        forall|x: u32| x != e ==> (without(s, e).contains(x) <==> s.contains(x)),
    decreases s.len(),
{
    if s.len() > 0 {
        let p = s.drop_last();
        let l = s.last();
        let w = without(p, e);
        lemma_without_drops(p, e);
        assert(s =~= p.push(l));
        assert forall|x: u32| x != e implies (without(s, e).contains(x) <==> s.contains(x)) by {
            assert(s.contains(x) <==> (p.contains(x) || l == x)) by {
                if s.contains(x) {
                    let i = choose|i: int| 0 <= i < s.len() && s[i] == x;
                    if i < p.len() {
                        assert(p[i] == x);
                    }
                }
                if p.contains(x) {
                    let i = choose|i: int| 0 <= i < p.len() && p[i] == x;
                    assert(s[i] == x);
                }
                if l == x {
                    assert(s[s.len() - 1] == x);
                }
            }
            if l != e {
                assert(without(s, e) == w.push(l));
                assert(w.push(l).contains(x) <==> (w.contains(x) || l == x)) by {
                    if w.push(l).contains(x) {
                        let i = choose|i: int| 0 <= i < w.push(l).len() && w.push(l)[i] == x;
                        if i < w.len() {
                            assert(w[i] == x);
                        }
                    }
                    if w.contains(x) {
                        let i = choose|i: int| 0 <= i < w.len() && w[i] == x;
                        assert(w.push(l)[i] == x);
                    }
                    if l == x {
                        assert(w.push(l)[w.len() as int] == x);
                    }
                }
            }
        }
        if l != e {
            assert(without(s, e) == w.push(l));
            if w.push(l).contains(e) {
                let i = choose|i: int| 0 <= i < w.push(l).len() && w.push(l)[i] == e;
                if i < w.len() {
                    assert(w[i] == e);
                }
            }
        }
    }
}

/// A successful store is what a later read of that component on that
/// entity gives back, and no other read changes.
pub proof fn law_get_after_set<H: Fn(&Json)>(before: World<H>, after: World<H>, entity: u32, name: Seq<char>, value: JsonV)
    requires
        before.allowed(name, before.current_mode@),
        forall|n: Seq<char>, e: u32| #[trigger] after.comp(n, e) == if n == name && e == entity {
            Some(value)
        } else {
            before.comp(n, e)
        },
        after.current_mode == before.current_mode,
        after.registry == before.registry,
    ensures
        after.gated(name, entity) == Some(value),
        forall|n: Seq<char>, e: u32| !(n == name && e == entity) ==> #[trigger] after.gated(n, e) == before.gated(n, e),
{
    assert(after.comp(name, entity) == Some(value));
    assert forall|n: Seq<char>, e: u32| !(n == name && e == entity) implies #[trigger] after.gated(n, e) == before.gated(n, e) by {
        assert(after.comp(n, e) == before.comp(n, e));
    }
}

/// A spawned entity is new: its id was not listed, and every listed id
/// stays below the next one.
pub proof fn law_spawn_fresh<H: Fn(&Json)>(before: World<H>, after: World<H>, id: u32)
    requires
        before.ids_below_next(),
        id == before.next_entity(),
        after.next_entity() == id + 1,
        after.entities@ == before.entities@.push(id),
    ensures
        !before.entities@.contains(id),
        after.entities@.contains(id),
        after.ids_below_next(),
{
    assert(after.entities@[before.entities@.len() as int] == id);
    if before.entities@.contains(id) {
        let i = choose|i: int| 0 <= i < before.entities@.len() && before.entities@[i] == id;
        assert(before.entities@[i] < before.next_entity());
    }
    assert forall|i: int| 0 <= i < after.entities@.len() implies #[trigger] after.entities@[i] < after.next_entity() by {
        if i < before.entities@.len() {
            assert(after.entities@[i] == before.entities@[i]);
        }
    }
}

/// A despawned entity is no longer listed and carries no component; the
/// other entities keep theirs.
pub proof fn law_despawn_removes<H: Fn(&Json)>(before: World<H>, after: World<H>, entity: u32)
    requires
        after.entities@ == without(before.entities@, entity),
        forall|n: Seq<char>, e: u32| #[trigger] after.comp(n, e) == if e == entity {
            None
        } else {
            before.comp(n, e)
        },
    ensures
        !after.entities@.contains(entity),
        forall|e: u32| e != entity ==> (after.entities@.contains(e) <==> before.entities@.contains(e)),
        forall|n: Seq<char>| #[trigger] after.comp(n, entity) is None,
{
    lemma_without_drops(before.entities@, entity);
}

} // verus!
