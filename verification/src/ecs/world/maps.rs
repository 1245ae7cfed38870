//! Named maps, the active map, links between maps and map transitions.
use vstd::prelude::*;

use crate::ecs::loadout::set_outcome;
use crate::ecs::world::{MapLink, World};
use crate::json::{entries_view, push_entry, Json, JsonV};
use crate::map::cell_key::{CellKey, CellKeyV};
use crate::map::WorldMap;
use crate::wasm_map::{cell_json, write_cell};

verus! {

/// Whether two maps are the same map: same topology kind, cells,
/// neighbors and metadata.
pub open spec fn same_map(a: WorldMap, b: WorldMap) -> bool {
    &&& a.topology.kind_name() == b.topology.kind_name()
    &&& forall|c: CellKeyV| #[trigger] a.topology.has_cell(c) == b.topology.has_cell(c)
    &&& forall|c: CellKeyV| #[trigger] a.topology.nbrs(c) == b.topology.nbrs(c)
    &&& forall|c: CellKeyV| #[trigger] a.topology.meta(c) == b.topology.meta(c)
}

/// The `Position` value of a camera on a cell.
pub open spec fn camera_position_json(c: CellKeyV) -> JsonV {
    JsonV::Object(seq![("pos"@, cell_json(c))])
}

/// The `Camera` value of a camera on a cell: its coordinates (zeros on a
/// province).
pub open spec fn camera_json(c: CellKeyV) -> JsonV {
    let (x, y, z) = match c {
        CellKeyV::Square { x, y, z } => (x, y, z),
        CellKeyV::Hex { q, r, z } => (q, r, z),
        CellKeyV::Province { .. } => (0i32, 0i32, 0i32),
    };
    JsonV::Object(seq![("x"@, JsonV::Int(x as i64)), ("y"@, JsonV::Int(y as i64)), ("z"@, JsonV::Int(z as i64))])
}

/// The map error for an unregistered name.
pub open spec fn unregistered(name: Seq<char>) -> Seq<char> {
    "Map '"@ + name + "' is not registered"@
}

fn unregistered_msg(name: &str) -> (r: String)
    ensures
        r@ == unregistered(name@),
{
    let mut m = String::from_str("Map '");
    m.append(name);
    m.append("' is not registered");
    m
}

impl<H: Fn(&Json)> World<H> {
    /// Whether only the map fields may differ between the two worlds.
    pub open spec fn same_but_maps(self, other: World<H>) -> bool {
        &&& self.entities == other.entities
        &&& self.components == other.components
        &&& self.next_id == other.next_id
        &&& self.current_mode == other.current_mode
        &&& self.registry == other.registry
        &&& self.next_zone_id == other.next_zone_id
    }

    /// Whether `after` has the registered map `name` active, with the map
    /// that was active before pushed on the stack (when one was).
    pub open spec fn entered_map(self, after: World<H>, name: Seq<char>) -> bool {
        &&& self.maps@.contains_key(name)
        &&& after.map matches Some(m) && same_map(m, self.maps@[name])
        &&& after.active_map@ == name
        &&& after.map_stack@ == if self.active_map@.len() > 0 {
            self.map_stack@.push(self.active_map)
        } else {
            self.map_stack@
        }
        &&& after.maps == self.maps
        &&& after.map_links == self.map_links
    }

    /// Whether `after` popped the top of the stack and made that registered
    /// map active again.
    pub open spec fn exited_map(self, after: World<H>) -> bool {
        &&& self.map_stack@.len() > 0
        &&& self.maps@.contains_key(self.map_stack@.last()@)
        &&& after.map_stack@ == self.map_stack@.drop_last()
        &&& after.map matches Some(m) && same_map(m, self.maps@[self.map_stack@.last()@])
        &&& after.active_map@ == self.map_stack@.last()@
        &&& after.maps == self.maps
        &&& after.map_links == self.map_links
    }
}

/// Entering a map and then exiting it gives back the map that was active
/// before: the same name, the same stack, and the registered copy of it.
pub proof fn law_enter_exit_round_trip<H: Fn(&Json)>(w0: World<H>, w1: World<H>, w2: World<H>, name: Seq<char>)
    requires
        w0.entered_map(w1, name),
        w0.active_map@.len() > 0,
        w0.maps@.contains_key(w0.active_map@),
        w1.map_stack@.len() > 0 && w1.maps@.contains_key(w1.map_stack@.last()@) ==> w1.exited_map(w2),
    ensures
        w1.exited_map(w2),
        w2.active_map@ == w0.active_map@,
        w2.map_stack@ == w0.map_stack@,
        w2.map matches Some(m) && same_map(m, w0.maps@[w0.active_map@]),
        w2.maps == w0.maps,
{
    assert(w1.map_stack@.last() == w0.active_map);
    assert(w1.map_stack@.drop_last() =~= w0.map_stack@);
}

impl<H: Fn(&Json)> World<H> {

    /// Set the metadata of a cell of the active map (nothing without one).
    pub fn set_cell_metadata(&mut self, cell: &CellKey, data: Json)
        ensures
            old(self).map is None ==> *final(self) == *old(self),
            old(self).map matches Some(m) ==> final(self).map matches Some(m2) && {
                &&& m2.topology.kind_name() == m.topology.kind_name()
                &&& forall|c: CellKeyV| #[trigger] m2.topology.has_cell(c) == m.topology.has_cell(c)
                &&& forall|c: CellKeyV| #[trigger] m2.topology.nbrs(c) == m.topology.nbrs(c)
                &&& forall|c: CellKeyV| #[trigger] m2.topology.meta(c) == if c == cell@ && m.topology.stores_meta(c) {
                    Some(data@)
                } else {
                    m.topology.meta(c)
                }
            },
            final(self).same_but_maps(*old(self)),
            final(self).maps == old(self).maps,
            final(self).active_map == old(self).active_map,
    {
        let taken = self.map.take();
        match taken {
            Some(m) => {
                let mut m = m;
                m.set_cell_metadata(cell, data);
                self.map = Some(m);
            },
            None => {
                self.map = None;
            },
        }
    }

    /// The metadata of a cell of the active map.
    pub fn get_cell_metadata(&self, cell: &CellKey) -> (r: Option<&Json>)
        ensures
            r matches Some(v) ==> self.map matches Some(m) && m.topology.meta(cell@) == Some(v@),
            r is None ==> !(self.map matches Some(m) && m.topology.meta(cell@) is Some),
    {
        match &self.map {
            Some(m) => m.get_cell_metadata(cell),
            None => None,
        }
    }

    /// Merge a patch into the metadata of a cell of the active map, keeping
    /// keys the patch does not name (nothing without an active map).
    pub fn merge_cell_metadata(&mut self, cell: &CellKey, patch: Json)
        ensures
            old(self).map is None ==> *final(self) == *old(self),
            old(self).map matches Some(m) ==> final(self).map matches Some(m2) && {
                &&& m2.topology.kind_name() == m.topology.kind_name()
                &&& forall|c: CellKeyV| #[trigger] m2.topology.has_cell(c) == m.topology.has_cell(c)
                &&& forall|c: CellKeyV| #[trigger] m2.topology.nbrs(c) == m.topology.nbrs(c)
                &&& forall|c: CellKeyV| #[trigger] m2.topology.meta(c) == if c == cell@ && m.topology.stores_meta(c) {
                    Some(
                        match m.topology.meta(c) {
                            Some(e) => crate::json::deep_merge(e, patch@),
                            None => patch@,
                        },
                    )
                } else {
                    m.topology.meta(c)
                }
            },
            final(self).same_but_maps(*old(self)),
            final(self).maps == old(self).maps,
            final(self).active_map == old(self).active_map,
    {
        let taken = self.map.take();
        match taken {
            Some(m) => {
                let mut m = m;
                m.merge_cell_metadata(cell, patch);
                self.map = Some(m);
            },
            None => {
                self.map = None;
            },
        }
    }

    /// Register a named map; a name can be registered once.
    pub fn register_map(&mut self, name: &str, map: WorldMap) -> (r: Result<(), String>)
        ensures
            old(self).maps@.contains_key(name@) ==> (r matches Err(m) && m@ == "Map '"@ + name@ + "' is already registered"@
                && *final(self) == *old(self)),
            !old(self).maps@.contains_key(name@) ==> r is Ok && final(self).maps@ == old(self).maps@.insert(name@, map)
                && final(self).same_but_maps(*old(self)) && final(self).map == old(self).map && final(self).active_map
                == old(self).active_map && final(self).map_stack == old(self).map_stack,
    {
        let key = String::from_str(name);
        if self.maps.contains_key(&key) {
            let mut m = String::from_str("Map '");
            m.append(name);
            m.append("' is already registered");
            return Err(m);
        }
        self.maps.insert(key, map);
        Ok(())
    }

    /// Make a registered map the active one (a copy of it).
    pub fn set_active_map(&mut self, name: &str) -> (r: Result<(), String>)
        ensures
            !old(self).maps@.contains_key(name@) ==> (r matches Err(m) && m@ == unregistered(name@) && *final(self) == *old(
                self,
            )),
            old(self).maps@.contains_key(name@) ==> (r is Ok && (final(self).map matches Some(m) && same_map(
                m,
                old(self).maps@[name@],
            )) && final(self).active_map@ == name@ && final(self).same_but_maps(*old(self)) && final(self).maps
                == old(self).maps && final(self).map_stack == old(self).map_stack),
    {
        let copy = match self.maps.get(&String::from_str(name)) {
            Some(m) => m.copy_map(),
            None => {
                return Err(unregistered_msg(name));
            },
        };
        self.map = Some(copy);
        self.active_map = String::from_str(name);
        Ok(())
    }

    /// The registered map names (in registration order).
    pub fn get_map_names(&self) -> (r: Vec<String>)
        ensures
            r@.len() == self.maps@.len(),
            forall|i: int| 0 <= i < r@.len() ==> self.maps@.contains_key(#[trigger] r@[i]@),
            forall|n: Seq<char>| self.maps@.contains_key(n) ==> exists|i: int| 0 <= i < r@.len() && #[trigger] r@[i]@ == n,
    {
        self.maps.keys()
    }

    /// The active map, if any.
    pub fn get_map(&self) -> (r: Option<&WorldMap>)
        ensures
            r matches Some(m) ==> self.map == Some(*m),
            r is None ==> self.map is None,
    {
        match &self.map {
            Some(m) => Some(m),
            None => None,
        }
    }

    /// The name of the active map (empty when none).
    pub fn get_active_map_name(&self) -> (r: String)
        ensures
            r@ == self.active_map@,
    {
        self.active_map.clone()
    }

    /// Link a cell of a source map to a cell of a target map; a source map
    /// has one link, the latest.
    pub fn link_maps(&mut self, source_map: &str, source_cell: CellKey, target_map: &str, target_cell: CellKey) -> (r: Result<(), String>)
        ensures
            !old(self).maps@.contains_key(source_map@) ==> (r matches Err(m) && m@ == unregistered(source_map@) && *final(self)
                == *old(self)),
            old(self).maps@.contains_key(source_map@) && !old(self).maps@.contains_key(target_map@) ==> (r matches Err(m) && m@
                == unregistered(target_map@) && *final(self) == *old(self)),
            old(self).maps@.contains_key(source_map@) && old(self).maps@.contains_key(target_map@) ==> {
                &&& r is Ok
                &&& final(self).map_links@.dom() == old(self).map_links@.dom().insert(source_map@)
                &&& final(self).map_links@[source_map@].target_map@ == target_map@
                &&& final(self).map_links@[source_map@].source_cell@ == source_cell@
                &&& final(self).map_links@[source_map@].target_cell@ == target_cell@
                &&& forall|n: Seq<char>| n != source_map@ ==> #[trigger] final(self).map_links@.get(n) == old(self).map_links@.get(n)
                &&& final(self).same_but_maps(*old(self))
                &&& final(self).maps == old(self).maps
                &&& final(self).map == old(self).map
                &&& final(self).active_map == old(self).active_map
                &&& final(self).map_stack == old(self).map_stack
            },
    {
        if !self.maps.contains_key(&String::from_str(source_map)) {
            return Err(unregistered_msg(source_map));
        }
        if !self.maps.contains_key(&String::from_str(target_map)) {
            return Err(unregistered_msg(target_map));
        }
        let link = MapLink { target_map: String::from_str(target_map), source_cell, target_cell };
        self.map_links.insert(String::from_str(source_map), link);
        Ok(())
    }

    /// The cell a link maps `source_cell` of `source_map` to, if the source
    /// map's link starts at that cell.
    pub fn map_cell(&self, source_map: &str, source_cell: &CellKey) -> (r: Option<CellKey>)
        ensures
            r matches Some(c) ==> self.map_links@.contains_key(source_map@) && self.map_links@[source_map@].source_cell@
                == source_cell@ && c@ == self.map_links@[source_map@].target_cell@,
            r is None ==> !(self.map_links@.contains_key(source_map@) && self.map_links@[source_map@].source_cell@
                == source_cell@),
    {
        match self.map_links.get(&String::from_str(source_map)) {
            Some(link) => {
                if link.source_cell.same(source_cell) {
                    Some(link.target_cell.copy_key())
                } else {
                    None
                }
            },
            None => None,
        }
    }

    /// The source cell of a link that leads to `target_cell` on
    /// `target_map`, if any (one of them when several do).
    pub fn unmap_cell(&self, target_map: &str, target_cell: &CellKey) -> (r: Option<CellKey>)
        ensures
            r matches Some(c) ==> exists|n: Seq<char>| #[trigger] self.map_links@.contains_key(n) && self.map_links@[n].target_map@
                == target_map@ && self.map_links@[n].target_cell@ == target_cell@ && self.map_links@[n].source_cell@ == c@,
            r is None ==> !exists|n: Seq<char>| #[trigger] self.map_links@.contains_key(n) && self.map_links@[n].target_map@
                == target_map@ && self.map_links@[n].target_cell@ == target_cell@,
    {
        let names = self.map_links.keys();
        let mut i: usize = 0;
        while i < names.len()
            invariant
                i <= names@.len(),
                forall|k: int| 0 <= k < names@.len() ==> self.map_links@.contains_key(#[trigger] names@[k]@),
                forall|n: Seq<char>| self.map_links@.contains_key(n) ==> exists|k: int| 0 <= k < names@.len() && #[trigger] names@[k]@ == n,
                forall|k: int| 0 <= k < i ==> !(self.map_links@[#[trigger] names@[k]@].target_map@ == target_map@
                    && self.map_links@[names@[k]@].target_cell@ == target_cell@),
            decreases names.len() - i,
        {
            match self.map_links.get(&names[i]) {
                Some(link) => {
                    if crate::json::str_eq(link.target_map.as_str(), target_map) && link.target_cell.same(target_cell) {
                        return Some(link.source_cell.copy_key());
                    }
                },
                None => {},
            }
            i = i + 1;
        }
        proof {
            if exists|n: Seq<char>| #[trigger] self.map_links@.contains_key(n) && self.map_links@[n].target_map@ == target_map@
                && self.map_links@[n].target_cell@ == target_cell@ {
                let n = choose|n: Seq<char>| #[trigger] self.map_links@.contains_key(n) && self.map_links@[n].target_map@
                    == target_map@ && self.map_links@[n].target_cell@ == target_cell@;
                let k = choose|k: int| 0 <= k < names@.len() && #[trigger] names@[k]@ == n;
                assert(self.map_links@[names@[k]@].target_map@ == target_map@);
            }
        }
        None
    }

    /// Place the camera on a cell: the first entity carrying a `Camera`
    /// (or a new entity when none does) gets its `Camera` coordinates and
    /// its `Position`; a refused store is skipped.
    fn set_camera_position(&mut self, cell: &CellKey)
        requires
            old(self).next_id < u32::MAX,
        ensures
            exists|cam: u32| {
                &&& (old(self).gated("Camera"@, cam) is Some || (cam == old(self).next_id && forall|x: u32| #[trigger] old(self).gated(
                    "Camera"@,
                    x,
                ) is None))
                &&& forall|n: Seq<char>, e: u32| #[trigger] final(self).comp(n, e) == if e == cam && n == "Position"@ && set_outcome(
                    *old(self),
                    "Position"@,
                    camera_position_json(cell@),
                ) is Ok {
                    Some(camera_position_json(cell@))
                } else if e == cam && n == "Camera"@ && set_outcome(*old(self), "Camera"@, camera_json(cell@)) is Ok {
                    Some(camera_json(cell@))
                } else {
                    old(self).comp(n, e)
                }
            },
            final(self).entities@ == old(self).entities@ || final(self).entities@ == old(self).entities@.push(old(self).next_id),
            final(self).current_mode == old(self).current_mode,
            final(self).registry == old(self).registry,
            final(self).next_zone_id == old(self).next_zone_id,
    {
        proof {
            reveal_strlit("Camera");
            reveal_strlit("Position");
            assert("Camera"@.len() == 6);
            assert("Position"@.len() == 8);
        }
        let ghost w0 = *self;
        let mut pe: Vec<(String, Json)> = Vec::new();
        assert(entries_view(&pe) =~= Seq::<(Seq<char>, JsonV)>::empty());
        push_entry(&mut pe, "pos", write_cell(cell));
        assert(entries_view(&pe) =~= seq![("pos"@, cell_json(cell@))]);
        let pos = Json::Object(pe);
        let (x, y, z): (i32, i32, i32) = match cell {
            CellKey::Square { x, y, z } => (*x, *y, *z),
            CellKey::Hex { q, r, z } => (*q, *r, *z),
            CellKey::Province { .. } => (0, 0, 0),
        };
        let mut ce: Vec<(String, Json)> = Vec::new();
        assert(entries_view(&ce) =~= Seq::<(Seq<char>, JsonV)>::empty());
        push_entry(&mut ce, "x", Json::Int(x as i64));
        push_entry(&mut ce, "y", Json::Int(y as i64));
        push_entry(&mut ce, "z", Json::Int(z as i64));
        assert(entries_view(&ce) =~= seq![("x"@, JsonV::Int(x as i64)), ("y"@, JsonV::Int(y as i64)), ("z"@, JsonV::Int(z as i64))]);
        let cam_value = Json::Object(ce);
        assert(cam_value@ == camera_json(cell@));
        let cams = self.get_entities_with_component("Camera");
        let cam = if cams.len() > 0 {
            proof {
                assert(w0.comp("Camera"@, cams@[0]) is Some);
                assert(w0.gated("Camera"@, cams@[0]) is Some);
            }
            cams[0]
        } else {
            proof {
                assert forall|x: u32| #[trigger] w0.gated("Camera"@, x) is None by {
                    if w0.gated("Camera"@, x) is Some {
                        assert(cams@.contains(x));
                    }
                }
            }
            self.spawn_entity()
        };
        let ghost w1 = *self;
        let _ = self.set_component(cam, "Camera", cam_value);
        let ghost w2 = *self;
        let _ = self.set_component(cam, "Position", pos);
        proof {
            assert(set_outcome(w1, "Camera"@, camera_json(cell@)) == set_outcome(w0, "Camera"@, camera_json(cell@)));
            assert(set_outcome(w2, "Position"@, camera_position_json(cell@)) == set_outcome(w0, "Position"@, camera_position_json(cell@)));
            assert forall|n: Seq<char>, e: u32| #[trigger] self.comp(n, e) == if e == cam && n == "Position"@ && set_outcome(
                w0,
                "Position"@,
                camera_position_json(cell@),
            ) is Ok {
                Some(camera_position_json(cell@))
            } else if e == cam && n == "Camera"@ && set_outcome(w0, "Camera"@, camera_json(cell@)) is Ok {
                Some(camera_json(cell@))
            } else {
                w0.comp(n, e)
            } by {
                assert(w1.comp(n, e) == w0.comp(n, e));
                assert(w2.comp(n, e) == if e == cam && n == "Camera"@ && set_outcome(w0, "Camera"@, camera_json(cell@)) is Ok {
                    Some(camera_json(cell@))
                } else {
                    w1.comp(n, e)
                });
            }
            assert(w0.gated("Camera"@, cam) is Some || (cam == w0.next_id && forall|x: u32| #[trigger] w0.gated("Camera"@, x) is None));
        }
    }

    /// Enter a registered map: the active map (if any) goes on the map
    /// stack, the map becomes active (a copy of it) and the camera moves to
    /// `entry_cell`: the first camera entity, or a new one, takes the
    /// cell's coordinates and position when its stores are accepted.
    pub fn enter_map(&mut self, name: &str, entry_cell: CellKey) -> (r: Result<(), String>)
        requires
            old(self).next_id < u32::MAX,
        ensures
            !old(self).maps@.contains_key(name@) ==> (r matches Err(m) && m@ == unregistered(name@) && *final(self) == *old(self)),
            old(self).maps@.contains_key(name@) ==> {
                &&& r is Ok
                &&& old(self).entered_map(*final(self), name@)
                &&& exists|cam: u32| {
                    &&& (old(self).gated("Camera"@, cam) is Some || (cam == old(self).next_id && forall|x: u32| #[trigger] old(self).gated(
                        "Camera"@,
                        x,
                    ) is None))
                    &&& forall|n: Seq<char>, e: u32| #[trigger] final(self).comp(n, e) == if e == cam && n == "Position"@ && set_outcome(
                        *old(self),
                        "Position"@,
                        camera_position_json(entry_cell@),
                    ) is Ok {
                        Some(camera_position_json(entry_cell@))
                    } else if e == cam && n == "Camera"@ && set_outcome(*old(self), "Camera"@, camera_json(entry_cell@)) is Ok {
                        Some(camera_json(entry_cell@))
                    } else {
                        old(self).comp(n, e)
                    }
                }
                &&& final(self).current_mode == old(self).current_mode
                &&& final(self).registry == old(self).registry
            },
    {
        let copy = match self.maps.get(&String::from_str(name)) {
            Some(m) => m.copy_map(),
            None => {
                return Err(unregistered_msg(name));
            },
        };
        let ghost w0 = *self;
        let mut maps = crate::collections::KeyMap::new();
        std::mem::swap(&mut maps, &mut self.maps);
        let mut links = crate::collections::KeyMap::new();
        std::mem::swap(&mut links, &mut self.map_links);
        let mut stack: Vec<String> = Vec::new();
        std::mem::swap(&mut stack, &mut self.map_stack);
        let mut active = String::new();
        std::mem::swap(&mut active, &mut self.active_map);
        let ghost ws = *self;
        self.set_camera_position(&entry_cell);
        let ghost wc = *self;
        let ghost cam = choose|cam: u32| {
                &&& (ws.gated("Camera"@, cam) is Some || (cam == ws.next_id && forall|x: u32| #[trigger] ws.gated("Camera"@, x) is None))
                &&& forall|n: Seq<char>, e: u32| #[trigger] wc.comp(n, e) == if e == cam && n == "Position"@ && set_outcome(
                    ws,
                    "Position"@,
                    camera_position_json(entry_cell@),
                ) is Ok {
                    Some(camera_position_json(entry_cell@))
                } else if e == cam && n == "Camera"@ && set_outcome(ws, "Camera"@, camera_json(entry_cell@)) is Ok {
                    Some(camera_json(entry_cell@))
                } else {
                    ws.comp(n, e)
                }
            };
        proof {
            assert(set_outcome(ws, "Camera"@, camera_json(entry_cell@)) == set_outcome(w0, "Camera"@, camera_json(entry_cell@)));
            assert(set_outcome(ws, "Position"@, camera_position_json(entry_cell@)) == set_outcome(
                w0,
                "Position"@,
                camera_position_json(entry_cell@),
            ));
            assert(ws.gated("Camera"@, cam) is Some || (cam == ws.next_id && forall|x: u32| #[trigger] ws.gated("Camera"@, x) is None));
            assert forall|x: u32| ws.gated("Camera"@, x) == #[trigger] w0.gated("Camera"@, x) by {}
            assert(ws.next_id == w0.next_id);
            assert forall|n: Seq<char>, e: u32| #[trigger] ws.comp(n, e) == w0.comp(n, e) by {}
            assert(w0.gated("Camera"@, cam) is Some || (cam == w0.next_id && forall|x: u32| #[trigger] w0.gated("Camera"@, x) is None));
        }
        if active.as_str().unicode_len() > 0 {
            stack.push(active);
        }
        self.maps = maps;
        self.map_links = links;
        self.map_stack = stack;
        self.map = Some(copy);
        self.active_map = String::from_str(name);
        proof {
            assert forall|n: Seq<char>, e: u32| #[trigger] self.comp(n, e) == if e == cam && n == "Position"@ && set_outcome(
                w0,
                "Position"@,
                camera_position_json(entry_cell@),
            ) is Ok {
                Some(camera_position_json(entry_cell@))
            } else if e == cam && n == "Camera"@ && set_outcome(w0, "Camera"@, camera_json(entry_cell@)) is Ok {
                Some(camera_json(entry_cell@))
            } else {
                w0.comp(n, e)
            } by {
                assert(self.comp(n, e) == wc.comp(n, e));
                assert(ws.comp(n, e) == w0.comp(n, e));
            }
        }
        Ok(())
    }

    /// Return to the map entered before the active one (popped from the map
    /// stack). Fails when the stack is empty, or when the popped map is no
    /// longer registered (the stack stays popped).
    pub fn exit_map(&mut self) -> (r: Result<(), String>)
        ensures
            old(self).map_stack@.len() == 0 ==> (r matches Err(m) && m@ == "Cannot exit map: no previous map on the stack"@
                && *final(self) == *old(self)),
            old(self).map_stack@.len() > 0 ==> ({
                let prev = old(self).map_stack@.last();
                &&& final(self).map_stack@ == old(self).map_stack@.drop_last()
                &&& final(self).maps == old(self).maps
                &&& final(self).map_links == old(self).map_links
                &&& final(self).same_but_maps(*old(self))
                &&& !old(self).maps@.contains_key(prev@) ==> (r matches Err(m) && m@ == unregistered(prev@) && final(self).map
                    == old(self).map && final(self).active_map == old(self).active_map)
                &&& old(self).maps@.contains_key(prev@) ==> (r is Ok && old(self).exited_map(*final(self)))
            }),
    {
        if self.map_stack.len() == 0 {
            return Err(String::from_str("Cannot exit map: no previous map on the stack"));
        }
        let prev = match self.map_stack.pop() {
            Some(p) => p,
            None => {
                return Err(String::from_str("Cannot exit map: no previous map on the stack"));
            },
        };
        let copy = match self.maps.get(&prev) {
            Some(m) => m.copy_map(),
            None => {
                return Err(unregistered_msg(prev.as_str()));
            },
        };
        self.map = Some(copy);
        self.active_map = prev;
        Ok(())
    }
}

} // verus!
