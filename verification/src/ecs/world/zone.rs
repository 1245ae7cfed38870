//! Zones: designated areas of a colony map, held as component records.
//!
//! A zone is a `Zone` record entity (`{"id", "kind", "label"}`); its area
//! is `ZoneRect` records and `RegionAssignment` entities whose
//! `region_id` (a string or an array of strings) names the zone.
use vstd::prelude::*;

use crate::ecs::world::{drop_set, lemma_drop_set_empty, lemma_drop_set_union, lemma_drop_set_without, World};
use crate::collections::KeyMap;
use crate::map::cell_key::{position_cell, CellKey};
use crate::text::{decimal, push_decimal, push_signed_decimal, signed_decimal};
use crate::json::{push_entry, str_eq, Json, JsonV};
use crate::json_text::schema_check;

verus! {

/// Whether a `region_id` value names the zone: the zone id itself, or an
/// array holding it.
pub open spec fn names_zone(rid: Option<JsonV>, zone_id: Seq<char>) -> bool {
    match rid {
        Some(JsonV::Str(s)) => s == zone_id,
        Some(JsonV::Array(items)) => exists|i: int| 0 <= i < items.len() && #[trigger] items[i].as_str() == Some(zone_id),
        _ => false,
    }
}

/// Whether dropping the zone from a `region_id` value leaves nothing: it is
/// not an array, or every item of the array is the zone id.
pub open spec fn only_zone(rid: Option<JsonV>, zone_id: Seq<char>) -> bool {
    match rid {
        Some(JsonV::Array(items)) => forall|i: int| 0 <= i < items.len() ==> #[trigger] items[i].as_str() == Some(zone_id),
        _ => true,
    }
}

/// The items of an array other than the zone id, in order.
pub open spec fn drop_zone_items(items: Seq<JsonV>, zone_id: Seq<char>) -> Seq<JsonV>
    decreases items.len(),
{
    if items.len() == 0 {
        items
    } else if items.last().as_str() == Some(zone_id) {
        drop_zone_items(items.drop_last(), zone_id)
    } else {
        drop_zone_items(items.drop_last(), zone_id).push(items.last())
    }
}

/// An assignment with the zone id taken out of its `region_id` array.
pub open spec fn strip_zone(v: JsonV, zone_id: Seq<char>) -> JsonV {
    match v.get("region_id"@) {
        Some(JsonV::Array(items)) => v.insert("region_id"@, JsonV::Array(drop_zone_items(items, zone_id))),
        _ => v,
    }
}

/// Whether `x` is among the first `i` elements of `s`.
pub open spec fn in_prefix(s: Seq<u32>, i: int, x: u32) -> bool {
    exists|j: int| 0 <= j < i && s[j] == x
}

/// The message of a zone operation refused outside colony mode.
pub open spec fn gate_message(op: Seq<char>, mode: Seq<char>) -> Seq<char> {
    op + ": world is in '"@ + mode + "' mode; zone management requires 'colony' mode"@
}

impl<H: Fn(&Json)> World<H> {
    /// The value of component `name` on `e` as reads see it: none unless
    /// the component is allowed in the current mode.
    pub open spec fn gated(self, name: Seq<char>, e: u32) -> Option<JsonV> {
        if self.allowed(name, self.current_mode@) {
            self.comp(name, e)
        } else {
            None
        }
    }

    /// Whether `e` carries the `Zone` record of the zone.
    pub open spec fn is_zone_record(self, zone_id: Seq<char>, e: u32) -> bool {
        self.gated("Zone"@, e) matches Some(v) && v.str_at("id"@) == Some(zone_id)
    }

    /// Whether `e` carries a `ZoneRect` record of the zone.
    pub open spec fn is_zone_rect(self, zone_id: Seq<char>, e: u32) -> bool {
        self.gated("ZoneRect"@, e) matches Some(v) && v.str_at("zone_id"@) == Some(zone_id)
    }

    /// Whether `e` carries a `RegionAssignment` that names the zone.
    pub open spec fn assigns_zone(self, zone_id: Seq<char>, e: u32) -> bool {
        self.gated("RegionAssignment"@, e) matches Some(v) && names_zone(v.get("region_id"@), zone_id)
    }

    /// Whether removing the zone despawns `e`.
    pub open spec fn zone_gone(self, zone_id: Seq<char>, e: u32) -> bool {
        ||| self.is_zone_record(zone_id, e)
        ||| self.is_zone_rect(zone_id, e)
        ||| (self.assigns_zone(zone_id, e) && only_zone(self.comp("RegionAssignment"@, e).unwrap().get("region_id"@), zone_id))
    }

    /// Component values after removing the zone.
    pub open spec fn after_zone_removed(self, zone_id: Seq<char>, n: Seq<char>, e: u32) -> Option<JsonV> {
        if self.zone_gone(zone_id, e) {
            None
        } else if self.assigns_zone(zone_id, e) && n == "RegionAssignment"@ {
            Some(strip_zone(self.comp(n, e).unwrap(), zone_id))
        } else {
            self.comp(n, e)
        }
    }

    /// Take the zone id out of the `region_id` array of `e`'s
    /// `RegionAssignment` (other values are left as they are).
    fn strip_assignment(&mut self, e: u32, zone_id: &str)
        requires
            old(self).comp("RegionAssignment"@, e) is Some,
        ensures
            final(self).components@.dom() == old(self).components@.dom(),
            forall|n: Seq<char>, x: u32| #[trigger] final(self).comp(n, x) == if n == "RegionAssignment"@ && x == e {
                Some(strip_zone(old(self).comp(n, x).unwrap(), zone_id@))
            } else {
                old(self).comp(n, x)
            },
            final(self).entities == old(self).entities,
            final(self).next_id == old(self).next_id,
            final(self).current_mode == old(self).current_mode,
            final(self).registry == old(self).registry,
            final(self).event_buses == old(self).event_buses,
            final(self).next_zone_id == old(self).next_zone_id,
    {
        let key = String::from_str("RegionAssignment");
        let ghost before = self.components@;
        let mut table = match self.components.remove(&key) {
            Some(t) => t,
            None => KeyMap::new(),
        };
        match table.remove(&e) {
            Some(v) => {
                let mut v = v;
                let ghost v0 = v@;
                let new_items = match v.get("region_id") {
                    Some(Json::Array(items)) => Some(drop_zone_items_exec(items, zone_id)),
                    _ => None,
                };
                match new_items {
                    Some(items) => {
                        v.insert(String::from_str("region_id"), Json::Array(items));
                    },
                    None => {},
                }
                assert(v@ == strip_zone(v0, zone_id@));
                table.insert(e, v);
            },
            None => {},
        }
        self.components.insert(key, table);
        proof {
            assert(self.components@.dom() =~= before.dom());
        }
    }

    /// Removes a zone and all of its cell assignments.
    ///
    /// Returns `Ok(false)` for unknown ids without touching other zones.
    /// Array-form `RegionAssignment.region_id` values are stripped of the
    /// zone id (entity despawned only when nothing remains); string-form
    /// matches are despawned.
    pub fn remove_zone(&mut self, zone_id: &str) -> (r: Result<bool, String>)
        ensures
            old(self).current_mode@ != "colony"@ ==> (r matches Err(m) && m@ == gate_message("remove_zone"@, old(self).current_mode@))
                && *final(self) == *old(self),
            old(self).current_mode@ == "colony"@ && !(exists|e: u32| old(self).is_zone_record(zone_id@, e)) ==> r == Ok::<bool, String>(false)
                && *final(self) == *old(self),
            old(self).current_mode@ == "colony"@ && (exists|e: u32| old(self).is_zone_record(zone_id@, e)) ==> {
                &&& r == Ok::<bool, String>(true)
                &&& forall|n: Seq<char>, e: u32| #[trigger] final(self).comp(n, e) == old(self).after_zone_removed(zone_id@, n, e)
                &&& final(self).entities@ == drop_set(old(self).entities@, Set::new(|e: u32| old(self).zone_gone(zone_id@, e)))
                &&& final(self).components@.dom() == old(self).components@.dom()
                &&& final(self).current_mode == old(self).current_mode
                &&& final(self).registry == old(self).registry
                &&& final(self).next_id == old(self).next_id
                &&& final(self).next_zone_id == old(self).next_zone_id
            },
    {
        match self.zone_gate("remove_zone") {
            Ok(()) => {},
            Err(m) => {
                return Err(m);
            },
        }
        let records = self.zone_record_entities(zone_id);
        if records.len() == 0 {
            proof {
                assert forall|e: u32| !old(self).is_zone_record(zone_id@, e) by {
                    if old(self).is_zone_record(zone_id@, e) {
                        assert(records@.contains(e));
                    }
                }
            }
            return Ok(false);
        }
        proof {
            assert(records@.contains(records@[0]));
            assert(old(self).is_zone_record(zone_id@, records@[0]));
        }
        let ghost w0 = *self;
        let ghost rec = records@.to_set();
        self.despawn_all(&records);
        let rects = self.zone_rect_entities(zone_id);
        let ghost w1 = *self;
        let ghost rct = rects@.to_set();
        self.despawn_all(&rects);
        proof {
            lemma_drop_set_union(w0.entities@, rec, rct);
        }
        let assigns = self.zone_assignment_entities(zone_id);
        let ghost mut gone: Set<u32> = rec.union(rct);
        let mut i: usize = 0;
        while i < assigns.len()
            invariant
                i <= assigns.len(),
                w0 == *old(self),
                forall|x: u32| rec.contains(x) <==> w0.is_zone_record(zone_id@, x),
                forall|x: u32| rct.contains(x) <==> w0.is_zone_rect(zone_id@, x) && !w0.is_zone_record(zone_id@, x),
                forall|x: u32| assigns@.contains(x) <==> w0.assigns_zone(zone_id@, x) && !rec.contains(x) && !rct.contains(x),
                forall|a: int, b: int| 0 <= a < b < assigns@.len() ==> assigns@[a] != assigns@[b],
                forall|x: u32| #[trigger] gone.contains(x) <==> (rec.contains(x) || rct.contains(x) || in_prefix(assigns@, i as int, x)
                    && only_zone(w0.comp("RegionAssignment"@, x).unwrap().get("region_id"@), zone_id@)),
                self.entities@ == drop_set(w0.entities@, gone),
                self.components@.dom() == w0.components@.dom(),
                self.current_mode == w0.current_mode,
                self.registry == w0.registry,
                self.next_id == w0.next_id,
                self.next_zone_id == w0.next_zone_id,
                forall|n: Seq<char>, x: u32| #[trigger] self.comp(n, x) == if rec.contains(x) || rct.contains(x) {
                    None
                } else if in_prefix(assigns@, i as int, x) {
                    w0.after_zone_removed(zone_id@, n, x)
                } else {
                    w0.comp(n, x)
                },
            decreases assigns.len() - i,
        {
            let e = assigns[i];
            proof {
                assert(assigns@.contains(e));
                assert forall|j: int| 0 <= j < i implies assigns@[j] != e by {}
                assert(self.comp("RegionAssignment"@, e) == w0.comp("RegionAssignment"@, e));
            }
            let strip_all = match self.get_component(e, "RegionAssignment") {
                Some(v) => only_zone_exec(v.get("region_id"), zone_id),
                None => true,
            };
            let ghost prev_gone = gone;
            if strip_all {
                self.despawn_entity(e);
                proof {
                    lemma_drop_set_without(w0.entities@, prev_gone, e);
                    gone = prev_gone.insert(e);
                }
            } else {
                self.strip_assignment(e, zone_id);
            }
            proof {
                assert forall|x: u32| #[trigger] in_prefix(assigns@, i + 1, x) <==> (in_prefix(assigns@, i as int, x) || x == e) by {
                    if in_prefix(assigns@, i + 1, x) {
                        let j = choose|j: int| 0 <= j < i + 1 && assigns@[j] == x;
                        if j < i {
                            assert(in_prefix(assigns@, i as int, x));
                        }
                    }
                    if x == e {
                        assert(assigns@[i as int] == x);
                    }
                    if in_prefix(assigns@, i as int, x) {
                        let j = choose|j: int| 0 <= j < i && assigns@[j] == x;
                        assert(0 <= j < i + 1 && assigns@[j] == x);
                    }
                }
                assert(gone =~= Set::new(|x: u32| rec.contains(x) || rct.contains(x) || in_prefix(assigns@, i + 1, x)
                    && only_zone(w0.comp("RegionAssignment"@, x).unwrap().get("region_id"@), zone_id@)));
            }
            i = i + 1;
        }
        proof {
            assert forall|x: u32| #[trigger] in_prefix(assigns@, assigns@.len() as int, x) <==> assigns@.contains(x) by {}
            assert(gone =~= Set::new(|e: u32| w0.zone_gone(zone_id@, e)));
        }
        Ok(true)
    }

    /// Refuse zone operations outside colony mode.
    fn zone_gate(&self, op: &str) -> (r: Result<(), String>)
        ensures
            r is Ok <==> self.current_mode@ == "colony"@,
            r matches Err(m) ==> m@ == gate_message(op@, self.current_mode@),
    {
        if str_eq(self.current_mode.as_str(), "colony") {
            Ok(())
        } else {
            let mut m = String::from_str(op);
            m.append(": world is in '");
            m.append(self.current_mode.as_str());
            m.append("' mode; zone management requires 'colony' mode");
            Err(m)
        }
    }

    /// Entities carrying a `ZoneRect` record of the zone.
    fn zone_rect_entities(&self, zone_id: &str) -> (r: Vec<u32>)
        ensures
            forall|e: u32| r@.contains(e) <==> self.is_zone_rect(zone_id@, e),
    {
        let all = self.get_entities_with_component("ZoneRect");
        let mut out: Vec<u32> = Vec::new();
        let mut i: usize = 0;
        while i < all.len()
            invariant
                i <= all.len(),
                forall|e: u32| out@.contains(e) <==> exists|j: int| 0 <= j < i && all@[j] == e && self.is_zone_rect(zone_id@, e),
            decreases all.len() - i,
        {
            let e = all[i];
            let keep = match self.get_component(e, "ZoneRect") {
                Some(v) => match v.get_str("zone_id") {
                    Some(id) => str_eq(id, zone_id),
                    None => false,
                },
                None => false,
            };
            let ghost prev = out@;
            if keep {
                out.push(e);
            }
            proof {
                assert forall|x: u32| out@.contains(x) <==> exists|j: int| 0 <= j < i + 1 && all@[j] == x && self.is_zone_rect(zone_id@, x) by {
                    if out@.contains(x) && !prev.contains(x) {
                        let k = choose|k: int| 0 <= k < out@.len() && out@[k] == x;
                        assert(k == prev.len());
                    }
                    if prev.contains(x) {
                        let k = choose|k: int| 0 <= k < prev.len() && prev[k] == x;
                        assert(out@[k] == x);
                    }
                    if keep && x == e {
                        assert(out@[prev.len() as int] == x);
                    }
                }
            }
            i = i + 1;
        }
        out
    }

    /// Entities carrying a `RegionAssignment` that names the zone.
    fn zone_assignment_entities(&self, zone_id: &str) -> (r: Vec<u32>)
        ensures
            forall|e: u32| r@.contains(e) <==> self.assigns_zone(zone_id@, e),
            forall|a: int, b: int| 0 <= a < b < r@.len() ==> r@[a] != r@[b],
    {
        let all = self.get_entities_with_component("RegionAssignment");
        let mut out: Vec<u32> = Vec::new();
        let mut i: usize = 0;
        while i < all.len()
            invariant
                i <= all.len(),
                forall|a: int, b: int| 0 <= a < all@.len() && 0 <= b < all@.len() && a != b ==> all@[a] != all@[b],
                forall|e: u32| out@.contains(e) <==> exists|j: int| 0 <= j < i && all@[j] == e && self.assigns_zone(zone_id@, e),
                forall|a: int, b: int| 0 <= a < b < out@.len() ==> out@[a] != out@[b],
            decreases all.len() - i,
        {
            let e = all[i];
            let keep = match self.get_component(e, "RegionAssignment") {
                Some(v) => names_zone_exec(v.get("region_id"), zone_id),
                None => false,
            };
            let ghost prev = out@;
            if keep {
                proof {
                    if prev.contains(e) {
                        let j = choose|j: int| 0 <= j < i && all@[j] == e && self.assigns_zone(zone_id@, e);
                        assert(all@[j] == all@[i as int]);
                    }
                }
                out.push(e);
            }
            proof {
                assert forall|x: u32| out@.contains(x) <==> exists|j: int| 0 <= j < i + 1 && all@[j] == x && self.assigns_zone(zone_id@, x) by {
                    if out@.contains(x) && !prev.contains(x) {
                        let k = choose|k: int| 0 <= k < out@.len() && out@[k] == x;
                        assert(k == prev.len());
                    }
                    if prev.contains(x) {
                        let k = choose|k: int| 0 <= k < prev.len() && prev[k] == x;
                        assert(out@[k] == x);
                    }
                    if keep && x == e {
                        assert(out@[prev.len() as int] == x);
                    }
                }
                assert forall|a: int, b: int| 0 <= a < b < out@.len() implies out@[a] != out@[b] by {
                    if b == prev.len() && keep {
                        assert(prev.contains(out@[a]));
                    }
                }
            }
            i = i + 1;
        }
        out
    }

    /// Entities carrying the `Zone` record of the zone.
    pub(crate) fn zone_record_entities(&self, zone_id: &str) -> (r: Vec<u32>)
        ensures
            forall|e: u32| r@.contains(e) <==> self.is_zone_record(zone_id@, e),
    {
        let all = self.get_entities_with_component("Zone");
        let mut out: Vec<u32> = Vec::new();
        let mut i: usize = 0;
        while i < all.len()
            invariant
                i <= all.len(),
                forall|e: u32| out@.contains(e) <==> exists|j: int| 0 <= j < i && all@[j] == e && self.is_zone_record(zone_id@, e),
            decreases all.len() - i,
        {
            let e = all[i];
            let keep = match self.get_component(e, "Zone") {
                Some(v) => match v.get_str("id") {
                    Some(id) => str_eq(id, zone_id),
                    None => false,
                },
                None => false,
            };
            let ghost prev = out@;
            if keep {
                out.push(e);
            }
            proof {
                assert forall|x: u32| out@.contains(x) <==> exists|j: int| 0 <= j < i + 1 && all@[j] == x && self.is_zone_record(zone_id@, x) by {
                    if out@.contains(x) && !prev.contains(x) {
                        let k = choose|k: int| 0 <= k < out@.len() && out@[k] == x;
                        assert(k == prev.len());
                    }
                    if prev.contains(x) {
                        let k = choose|k: int| 0 <= k < prev.len() && prev[k] == x;
                        assert(out@[k] == x);
                    }
                    if keep && x == e {
                        assert(out@[prev.len() as int] == x);
                    }
                }
            }
            i = i + 1;
        }
        out
    }
}

/// Whether a `region_id` value names the zone.
pub fn names_zone_exec(rid: Option<&Json>, zone_id: &str) -> (r: bool)
    ensures
        r == names_zone(match rid { Some(v) => Some(v@), None => None }, zone_id@),
{
    match rid {
        Some(Json::Str(s)) => str_eq(s.as_str(), zone_id),
        Some(Json::Array(items)) => {
            let ghost iv = crate::json::items_view(items);
            let ghost rv = match rid { Some(v) => Some(v@), None => None::<JsonV> };
            assert(rv == Some(JsonV::Array(iv)));
            let mut i: usize = 0;
            while i < items.len()
                invariant
                    i <= items.len(),
                    iv == crate::json::items_view(items),
                    rv == Some(JsonV::Array(iv)),
                    rv == match rid { Some(v) => Some(v@), None => None::<JsonV> },
                    forall|j: int| 0 <= j < i ==> #[trigger] iv[j].as_str() != Some(zone_id@),
                decreases items.len() - i,
            {
                let hit = match items[i].as_str() {
                    Some(t) => str_eq(t, zone_id),
                    None => false,
                };
                if hit {
                    assert(iv[i as int].as_str() == Some(zone_id@));
                                        return true;
                }
                i = i + 1;
            }
                        false
        },
        _ => false,
    }
}

/// Whether dropping the zone from a `region_id` value leaves nothing.
pub fn only_zone_exec(rid: Option<&Json>, zone_id: &str) -> (r: bool)
    ensures
        r == only_zone(match rid { Some(v) => Some(v@), None => None }, zone_id@),
{
    match rid {
        Some(Json::Array(items)) => {
            let ghost iv = crate::json::items_view(items);
            let ghost rv = match rid { Some(v) => Some(v@), None => None::<JsonV> };
            assert(rv == Some(JsonV::Array(iv)));
            let mut i: usize = 0;
            while i < items.len()
                invariant
                    i <= items.len(),
                    iv == crate::json::items_view(items),
                    rv == Some(JsonV::Array(iv)),
                    rv == match rid { Some(v) => Some(v@), None => None::<JsonV> },
                    forall|j: int| 0 <= j < i ==> #[trigger] iv[j].as_str() == Some(zone_id@),
                decreases items.len() - i,
            {
                let same = match items[i].as_str() {
                    Some(t) => str_eq(t, zone_id),
                    None => false,
                };
                if !same {
                    assert(iv[i as int].as_str() != Some(zone_id@));
                                        return false;
                }
                i = i + 1;
            }
                        true
        },
        _ => true,
    }
}

/// The items of an array other than the zone id.
pub fn drop_zone_items_exec(items: &Vec<Json>, zone_id: &str) -> (r: Vec<Json>)
    ensures
        crate::json::items_view(&r) == drop_zone_items(crate::json::items_view(items), zone_id@),
{
    let ghost iv = crate::json::items_view(items);
    let mut out: Vec<Json> = Vec::new();
    let mut i: usize = 0;
    while i < items.len()
        invariant
            i <= items.len(),
            iv == crate::json::items_view(items),
            crate::json::items_view(&out) == drop_zone_items(iv.subrange(0, i as int), zone_id@),
        decreases items.len() - i,
    {
        assert(iv.subrange(0, i + 1).drop_last() =~= iv.subrange(0, i as int));
        let same = match items[i].as_str() {
            Some(t) => str_eq(t, zone_id),
            None => false,
        };
        if !same {
            let ghost before = crate::json::items_view(&out);
            out.push(items[i].deep_clone());
            assert(crate::json::items_view(&out) =~= before.push(iv[i as int]));
        }
        i = i + 1;
    }
    assert(iv.subrange(0, i as int) =~= iv);
    out
}

/// Whether some string of `v` is `id`.
pub open spec fn has_text(v: Seq<String>, id: Seq<char>) -> bool {
    exists|k: int| 0 <= k < v.len() && #[trigger] v[k]@ == id
}

/// Whether a text starts with `zone-`, the prefix of zone ids.
pub open spec fn zone_prefixed(s: Seq<char>) -> bool {
    s.len() >= 5 && s.subrange(0, 5) =~= seq!['z', 'o', 'n', 'e', '-']
}

/// Whether a text starts with `zone-`.
pub fn is_zone_prefixed(s: &str) -> (r: bool)
    ensures
        r == zone_prefixed(s@),
{
    let c = crate::text::chars_of(s);
    if c.len() < 5 {
        return false;
    }
    let r = c[0] == 'z' && c[1] == 'o' && c[2] == 'n' && c[3] == 'e' && c[4] == '-';
    proof {
        if !r && zone_prefixed(s@) {
            assert(s@.subrange(0, 5)[0] == c@[0]);
            assert(s@.subrange(0, 5)[1] == c@[1]);
            assert(s@.subrange(0, 5)[2] == c@[2]);
            assert(s@.subrange(0, 5)[3] == c@[3]);
            assert(s@.subrange(0, 5)[4] == c@[4]);
        }
        if r {
            assert(s@.subrange(0, 5) =~= seq!['z', 'o', 'n', 'e', '-']);
        }
    }
    r
}

/// The array items kept when stale zone ids are dropped: items that are
/// not strings, not zone ids, or ids of live zones.
pub open spec fn keep_live(items: Seq<JsonV>, live: Set<Seq<char>>) -> Seq<JsonV>
    decreases items.len(),
{
    if items.len() == 0 {
        items
    } else if items.last().as_str() matches Some(id) && zone_prefixed(id) && !live.contains(id) {
        keep_live(items.drop_last(), live)
    } else {
        keep_live(items.drop_last(), live).push(items.last())
    }
}

proof fn lemma_keep_live_len(items: Seq<JsonV>, live: Set<Seq<char>>)
    ensures
        keep_live(items, live).len() <= items.len(),
    decreases items.len(),
{
    if items.len() > 0 {
        lemma_keep_live_len(items.drop_last(), live);
    }
}

impl<H: Fn(&Json)> World<H> {
    /// Ids of the live zones: those with a `Zone` record.
    pub open spec fn live_zones(self) -> Set<Seq<char>> {
        Set::new(|id: Seq<char>| exists|e: u32| #[trigger] self.is_zone_record(id, e))
    }

    /// A `ZoneRect` whose zone is not live (or that names none).
    pub open spec fn orphan_rect(self, e: u32) -> bool {
        self.gated("ZoneRect"@, e) matches Some(v) && match v.str_at("zone_id"@) {
            Some(id) => !self.live_zones().contains(id),
            None => true,
        }
    }

    /// A `RegionAssignment` left with no live zone: a stale zone id, or an
    /// array of only stale zone ids (not an orphan rect).
    pub open spec fn stale_assignment(self, e: u32) -> bool {
        &&& !self.orphan_rect(e)
        &&& self.gated("RegionAssignment"@, e) matches Some(v)
        &&& match v.get("region_id"@) {
            Some(JsonV::Str(id)) => zone_prefixed(id) && !self.live_zones().contains(id),
            Some(JsonV::Array(items)) => keep_live(items, self.live_zones()).len() != items.len()
                && keep_live(items, self.live_zones()).len() == 0,
            _ => false,
        }
    }

    /// A `RegionAssignment` with some but not all of its zone ids stale
    /// (not an orphan rect).
    pub open spec fn trimmed_assignment(self, e: u32) -> bool {
        &&& !self.orphan_rect(e)
        &&& self.gated("RegionAssignment"@, e) matches Some(v)
        &&& v.get("region_id"@) matches Some(JsonV::Array(items))
        &&& keep_live(items, self.live_zones()).len() != items.len()
        &&& keep_live(items, self.live_zones()).len() > 0
    }

    /// The assignment with its stale zone ids dropped.
    pub open spec fn trimmed_value(self, e: u32) -> JsonV {
        let v = self.comp("RegionAssignment"@, e).unwrap();
        match v.get("region_id"@) {
            Some(JsonV::Array(items)) => v.insert("region_id"@, JsonV::Array(keep_live(items, self.live_zones()))),
            _ => v,
        }
    }

    /// Whether the trimmed assignment of `e` passes its schema.
    pub open spec fn trimmed_passes(self, e: u32) -> bool {
        schema_check(self.registry.schemas()["RegionAssignment"@].schema@, self.trimmed_value(e)) matches Ok(msgs)
            && msgs.len() == 0
    }

    /// Component values after zone validation.
    pub open spec fn after_validation(self, n: Seq<char>, e: u32) -> Option<JsonV> {
        if self.orphan_rect(e) || self.stale_assignment(e) {
            None
        } else if self.trimmed_assignment(e) && n == "RegionAssignment"@ && self.trimmed_passes(e) {
            Some(self.trimmed_value(e))
        } else {
            self.comp(n, e)
        }
    }

    /// Whether one of the first `i` entities of `all` is a record of zone `id`.
    pub open spec fn record_among(self, all: Seq<u32>, i: int, id: Seq<char>) -> bool {
        exists|j: int| 0 <= j < i && #[trigger] self.is_zone_record(id, all[j])
    }

    /// Ids of the live zones, as listed by their records.
    fn live_zone_ids(&self) -> (r: Vec<String>)
        ensures
            forall|id: Seq<char>| self.live_zones().contains(id) <==> #[trigger] has_text(r@, id),
    {
        let all = self.get_entities_with_component("Zone");
        let mut out: Vec<String> = Vec::new();
        let mut i: usize = 0;
        while i < all.len()
            invariant
                i <= all.len(),
                forall|id: Seq<char>| #[trigger] has_text(out@, id) <==> self.record_among(all@, i as int, id),
            decreases all.len() - i,
        {
            let e = all[i];
            let found: Option<String> = match self.get_component(e, "Zone") {
                Some(v) => match v.get_str("id") {
                    Some(id) => Some(id.to_string()),
                    None => None,
                },
                None => None,
            };
            let ghost prev = out@;
            assert(forall|id: Seq<char>| #[trigger] has_text(prev, id) <==> self.record_among(all@, i as int, id));
            proof {
                assert forall|id: Seq<char>| self.is_zone_record(id, e) <==> (found matches Some(f) && f@ == id) by {}
            }
            match found {
                Some(f) => {
                    out.push(f);
                    assert(out@.len() == prev.len() + 1);
                },
                None => {},
            }
            assert(forall|k: int| 0 <= k < prev.len() ==> out@[k] == prev[k]);
            proof {
                assert forall|id: Seq<char>| #[trigger] has_text(out@, id) <==> self.record_among(all@, i + 1, id) by {
                    if has_text(out@, id) {
                        let k = choose|k: int| 0 <= k < out@.len() && #[trigger] out@[k]@ == id;
                        if k < prev.len() {
                            assert(prev[k] == out@[k]);
                            assert(has_text(prev, id));
                            let j = choose|j: int| 0 <= j < i && #[trigger] self.is_zone_record(id, all@[j]);
                            assert(0 <= j < i + 1);
                        } else {
                            assert(self.is_zone_record(id, all@[i as int]));
                        }
                    }
                    if self.record_among(all@, i + 1, id) {
                        let j = choose|j: int| 0 <= j < i + 1 && #[trigger] self.is_zone_record(id, all@[j]);
                        if j < i {
                            assert(self.record_among(all@, i as int, id));
                            assert(has_text(prev, id));
                            let k = choose|k: int| 0 <= k < prev.len() && #[trigger] prev[k]@ == id;
                            assert(out@[k] == prev[k]);
                            assert(out@[k]@ == id);
                        } else {
                            assert(out@[prev.len() as int]@ == id);
                        }
                    }
                }
            }
            i = i + 1;
        }
        proof {
            assert forall|id: Seq<char>| self.live_zones().contains(id) implies #[trigger] has_text(out@, id) by {
                let e = choose|e: u32| #[trigger] self.is_zone_record(id, e);
                assert(all@.contains(e));
                let j = choose|j: int| 0 <= j < all@.len() && all@[j] == e;
                assert(self.is_zone_record(id, all@[j]));
                assert(self.record_among(all@, i as int, id));
            }
            assert forall|id: Seq<char>| #[trigger] has_text(out@, id) implies self.live_zones().contains(id) by {
                let j = choose|j: int| 0 <= j < i && #[trigger] self.is_zone_record(id, all@[j]);
            }
        }
        out
    }
}

impl<H: Fn(&Json)> World<H> {
    /// Entities with an orphan `ZoneRect` record.
    fn orphan_rects(&self, live: &Vec<String>, Ghost(lz): Ghost<Set<Seq<char>>>) -> (r: Vec<u32>)
        requires
            lz == self.live_zones(),
            forall|id: Seq<char>| lz.contains(id) <==> #[trigger] has_text(live@, id),
        ensures
            forall|e: u32| r@.contains(e) <==> self.orphan_rect(e),
    {
        let all = self.get_entities_with_component("ZoneRect");
        let mut out: Vec<u32> = Vec::new();
        let mut i: usize = 0;
        while i < all.len()
            invariant
                i <= all.len(),
                lz == self.live_zones(),
                forall|id: Seq<char>| lz.contains(id) <==> #[trigger] has_text(live@, id),
                forall|e: u32| out@.contains(e) <==> in_prefix(all@, i as int, e) && self.orphan_rect(e),
            decreases all.len() - i,
        {
            let e = all[i];
            let keep = match self.get_component(e, "ZoneRect") {
                Some(v) => match v.get_str("zone_id") {
                    Some(id) => !contains_text(live, id),
                    None => true,
                },
                None => false,
            };
            let ghost prev = out@;
            if keep {
                out.push(e);
            }
            proof {
                assert forall|x: u32| out@.contains(x) <==> in_prefix(all@, i + 1, x) && self.orphan_rect(x) by {
                    if out@.contains(x) && !prev.contains(x) {
                        let k = choose|k: int| 0 <= k < out@.len() && out@[k] == x;
                        assert(k == prev.len());
                        assert(all@[i as int] == x);
                    }
                    if prev.contains(x) {
                        let k = choose|k: int| 0 <= k < prev.len() && prev[k] == x;
                        assert(out@[k] == x);
                        let j = choose|j: int| 0 <= j < i && all@[j] == x;
                        assert(0 <= j < i + 1 && all@[j] == x);
                    }
                    if in_prefix(all@, i + 1, x) && self.orphan_rect(x) {
                        let j = choose|j: int| 0 <= j < i + 1 && all@[j] == x;
                        if j < i {
                            assert(in_prefix(all@, i as int, x));
                            assert(prev.contains(x));
                            let k = choose|k: int| 0 <= k < prev.len() && prev[k] == x;
                            assert(out@[k] == x);
                        } else {
                            assert(out@[prev.len() as int] == x);
                        }
                    }
                }
            }
            i = i + 1;
        }
        proof {
            assert forall|e: u32| out@.contains(e) <==> self.orphan_rect(e) by {
                if self.orphan_rect(e) {
                    assert(all@.contains(e));
                    let j = choose|j: int| 0 <= j < all@.len() && all@[j] == e;
                    assert(in_prefix(all@, i as int, e));
                }
            }
        }
        out
    }

    /// Validates zone state, dropping references to removed zones.
    ///
    /// Orphan `ZoneRect` records (whose `zone_id` has no live `Zone`
    /// record) are despawned. `RegionAssignment` references to zone ids
    /// (`zone-` prefix) with no live `Zone` record are dropped: string-form
    /// matches are despawned, array-form values are stripped of the stale
    /// id (entity despawned only when nothing remains). Assignments
    /// carrying only plain region ids are never touched, an empty zone set
    /// is a safe no-op, and the pass never errors.
    pub fn validate_zones(&mut self)
        ensures
            forall|n: Seq<char>, e: u32| #[trigger] final(self).comp(n, e) == old(self).after_validation(n, e),
            final(self).entities@ == drop_set(old(self).entities@, Set::new(|e: u32| old(self).orphan_rect(e) || old(self).stale_assignment(e))),
            final(self).components@.dom() == old(self).components@.dom(),
            final(self).current_mode == old(self).current_mode,
            final(self).registry == old(self).registry,
            final(self).next_id == old(self).next_id,
            final(self).next_zone_id == old(self).next_zone_id,
    {
        let live = self.live_zone_ids();
        let ghost lz = self.live_zones();
        let ghost w0 = *self;
        let orphans = self.orphan_rects(&live, Ghost(lz));
        self.despawn_all(&orphans);
        let ghost orph = orphans@.to_set();
        let assigns = self.get_entities_with_component("RegionAssignment");
        proof {
            assert forall|x: u32| assigns@.contains(x) <==> !w0.orphan_rect(x) && w0.gated("RegionAssignment"@, x) is Some by {
                if assigns@.contains(x) {
                    let k = choose|k: int| 0 <= k < assigns@.len() && assigns@[k] == x;
                    assert(self.comp("RegionAssignment"@, assigns@[k]) is Some);
                }
                if !w0.orphan_rect(x) && w0.gated("RegionAssignment"@, x) is Some {
                    assert(self.comp("RegionAssignment"@, x) is Some);
                }
            }
        }
        let ghost mut gone: Set<u32> = orph;
        let mut i: usize = 0;
        while i < assigns.len()
            invariant
                i <= assigns.len(),
                w0 == *old(self),
                lz == w0.live_zones(),
                forall|id: Seq<char>| lz.contains(id) <==> #[trigger] has_text(live@, id),
                forall|x: u32| orph.contains(x) <==> w0.orphan_rect(x),
                forall|x: u32| assigns@.contains(x) <==> !w0.orphan_rect(x) && w0.gated("RegionAssignment"@, x) is Some,
                forall|a: int, b: int| 0 <= a < assigns@.len() && 0 <= b < assigns@.len() && a != b ==> assigns@[a] != assigns@[b],
                forall|x: u32| #[trigger] gone.contains(x) <==> (orph.contains(x) || in_prefix(assigns@, i as int, x) && w0.stale_assignment(x)),
                self.entities@ == drop_set(w0.entities@, gone),
                self.components@.dom() == w0.components@.dom(),
                self.current_mode == w0.current_mode,
                self.registry == w0.registry,
                self.next_id == w0.next_id,
                self.next_zone_id == w0.next_zone_id,
                forall|n: Seq<char>, x: u32| #[trigger] self.comp(n, x) == if orph.contains(x) {
                    None
                } else if in_prefix(assigns@, i as int, x) {
                    w0.after_validation(n, x)
                } else {
                    w0.comp(n, x)
                },
            decreases assigns.len() - i,
        {
            let e = assigns[i];
            proof {
                assert(assigns@.contains(e));
                assert forall|j: int| 0 <= j < i implies assigns@[j] != e by {}
                assert(!in_prefix(assigns@, i as int, e));
                assert(self.comp("RegionAssignment"@, e) == w0.comp("RegionAssignment"@, e));
            }
            let action = match self.get_component(e, "RegionAssignment") {
                Some(v) => classify_assignment(v, &live, Ghost(lz)),
                None => ZoneFix::Keep,
            };
            proof {
                let v = w0.comp("RegionAssignment"@, e).unwrap();
                assert(w0.gated("RegionAssignment"@, e) == Some(v));
            }
            let ghost prev_gone = gone;
            match action {
                ZoneFix::Despawn => {
                    self.despawn_entity(e);
                    proof {
                        lemma_drop_set_without(w0.entities@, prev_gone, e);
                        gone = prev_gone.insert(e);
                    }
                },
                ZoneFix::Rewrite(nv) => {
                    let _ = self.set_component(e, "RegionAssignment", nv);
                },
                ZoneFix::Keep => {},
            }
            proof {
                assert forall|x: u32| #[trigger] in_prefix(assigns@, i + 1, x) <==> (in_prefix(assigns@, i as int, x) || x == e) by {
                    if in_prefix(assigns@, i + 1, x) {
                        let j = choose|j: int| 0 <= j < i + 1 && assigns@[j] == x;
                        if j < i {
                            assert(in_prefix(assigns@, i as int, x));
                        }
                    }
                    if x == e {
                        assert(assigns@[i as int] == x);
                    }
                    if in_prefix(assigns@, i as int, x) {
                        let j = choose|j: int| 0 <= j < i && assigns@[j] == x;
                        assert(0 <= j < i + 1 && assigns@[j] == x);
                    }
                }
                assert(gone =~= Set::new(|x: u32| orph.contains(x) || in_prefix(assigns@, i + 1, x) && w0.stale_assignment(x)));
            }
            i = i + 1;
        }
        proof {
            assert forall|x: u32| #[trigger] in_prefix(assigns@, assigns@.len() as int, x) <==> assigns@.contains(x) by {}
            assert(gone =~= Set::new(|e: u32| w0.orphan_rect(e) || w0.stale_assignment(e)));
        }
    }
}

/// Designation shape for [`World::designate_zone`].
///
/// Rect designations are Square-topology only (inclusive `x0..=x1`,
/// `y0..=y1` on level `z`); Hex maps use explicit cell lists.
pub enum ZoneShape {
    /// Inclusive rectangle on Square topology. Requires `x0 <= x1`, `y0 <= y1`.
    Rect { x0: i64, y0: i64, z: i64, x1: i64, y1: i64 },
    /// Explicit Square/Hex cell JSON values (or nested `Region` references).
    Cells(Vec<Json>),
}

/// A usable zone cell: a Square/Hex/Province cell (bare or `pos`-wrapped)
/// or a nested `Region` reference.
pub open spec fn valid_zone_cell(cell: JsonV) -> bool {
    position_cell(cell) is Some || (cell.get("Region"@) matches Some(r) && r.str_at("id"@) is Some)
}

/// Whether a value is a usable zone cell.
pub fn is_valid_zone_cell(cell: &Json) -> (r: bool)
    ensures
        r == valid_zone_cell(cell@),
{
    if CellKey::from_position(cell).is_some() {
        return true;
    }
    match cell.get("Region") {
        Some(reg) => reg.get_str("id").is_some(),
        None => false,
    }
}

/// An optional text as JSON: the string, or `null`.
pub open spec fn text_or_null(o: Option<Seq<char>>) -> JsonV {
    match o {
        Some(l) => JsonV::Str(l),
        None => JsonV::Null,
    }
}

/// The `Zone` record of a new zone.
pub open spec fn zone_record_json(id: Seq<char>, kind: Seq<char>, label: Option<Seq<char>>) -> JsonV {
    JsonV::Object(seq![("id"@, JsonV::Str(id)), ("kind"@, JsonV::Str(kind)), ("label"@, text_or_null(label))])
}

/// The `ZoneRect` record of a rectangle designation.
pub open spec fn zone_rect_json(id: Seq<char>, x0: i64, y0: i64, z: i64, x1: i64, y1: i64) -> JsonV {
    JsonV::Object(seq![
        ("x0"@, JsonV::Int(x0)),
        ("x1"@, JsonV::Int(x1)),
        ("y0"@, JsonV::Int(y0)),
        ("y1"@, JsonV::Int(y1)),
        ("z"@, JsonV::Int(z)),
        ("zone_id"@, JsonV::Str(id)),
    ])
}

/// The `RegionAssignment` of one designated cell.
pub open spec fn assignment_json(cell: JsonV, id: Seq<char>) -> JsonV {
    JsonV::Object(seq![("cell"@, cell), ("region_id"@, JsonV::Str(id))])
}

/// The id of the zone designated as number `n`.
pub open spec fn zone_id_text(n: u64) -> Seq<char> {
    "zone-"@ + decimal(n as nat)
}

/// How many entities a designation spawns besides the zone record.
pub open spec fn shape_entities(shape: ZoneShape) -> int {
    match shape {
        ZoneShape::Rect { .. } => 1,
        ZoneShape::Cells(cells) => cells.len() as int,
    }
}

/// Index of the first unusable cell of a cell list, or its length.
pub open spec fn first_invalid_cell(cells: Seq<Json>) -> int
    decreases cells.len(),
{
    if cells.len() == 0 {
        0
    } else if first_invalid_cell(cells.drop_last()) < cells.len() - 1 {
        first_invalid_cell(cells.drop_last())
    } else if valid_zone_cell(cells.last()@) {
        cells.len() as int
    } else {
        cells.len() - 1
    }
}

/// What the writes of a valid designation come to in world `w`: the error
/// of the first write refused by its component checks (the `Zone` record,
/// then the `ZoneRect` or each `RegionAssignment` in order), or success.
pub open spec fn designate_outcome<H: Fn(&Json)>(w: World<H>, kind: Seq<char>, label: Option<Seq<char>>, shape: ZoneShape) -> Result<(), Seq<char>> {
    let id = zone_id_text(w.next_zone_id);
    match crate::ecs::loadout::set_outcome(w, "Zone"@, zone_record_json(id, kind, label)) {
        Err(e) => Err(e),
        Ok(()) => match shape {
            ZoneShape::Rect { x0, y0, z, x1, y1 } => crate::ecs::loadout::set_outcome(w, "ZoneRect"@, zone_rect_json(id, x0, y0, z, x1, y1)),
            ZoneShape::Cells(cells) => {
                let ns = crate::json::items_view(&cells);
                let i = first_refused_assignment(w, ns, id);
                if i < ns.len() {
                    crate::ecs::loadout::set_outcome(w, "RegionAssignment"@, assignment_json(ns[i], id))
                } else {
                    Ok(())
                }
            },
        },
    }
}

/// Whether a zone shape is well formed: a rectangle with `x0 <= x1` and
/// `y0 <= y1`, or cells that are all valid zone cells.
pub open spec fn zone_shape_valid(shape: ZoneShape) -> bool {
    match shape {
        ZoneShape::Rect { x0, y0, z, x1, y1 } => x0 <= x1 && y0 <= y1,
        ZoneShape::Cells(cells) => first_invalid_cell(cells@) == cells.len(),
    }
}

/// How many entities a designation spawns before a store is refused: the
/// record, then the rectangle or the cells up to the refused one.
pub open spec fn spawned_before_refusal<H: Fn(&Json)>(w: World<H>, kind: Seq<char>, label: Option<Seq<char>>, shape: ZoneShape) -> int {
    let id = zone_id_text(w.next_zone_id);
    if crate::ecs::loadout::set_outcome(w, "Zone"@, zone_record_json(id, kind, label)) is Err {
        1
    } else {
        match shape {
            ZoneShape::Rect { .. } => 2,
            ZoneShape::Cells(cells) => first_refused_assignment(w, crate::json::items_view(&cells), id) + 2,
        }
    }
}

/// Component values after a designation whose store was refused: what was
/// stored before the refused store stays.
pub open spec fn refused_comp<H: Fn(&Json)>(w: World<H>, kind: Seq<char>, label: Option<Seq<char>>, shape: ZoneShape, n: Seq<char>, e: u32) -> Option<JsonV> {
    let base = w.next_id;
    let id = zone_id_text(w.next_zone_id);
    if crate::ecs::loadout::set_outcome(w, "Zone"@, zone_record_json(id, kind, label)) is Err {
        w.comp(n, e)
    } else if n == "Zone"@ && e == base {
        Some(zone_record_json(id, kind, label))
    } else {
        match shape {
            ZoneShape::Rect { .. } => w.comp(n, e),
            ZoneShape::Cells(cells) => {
                let j = first_refused_assignment(w, crate::json::items_view(&cells), id);
                if n == "RegionAssignment"@ && base + 1 <= e < base + 1 + j {
                    Some(assignment_json(cells@[e - base - 1]@, id))
                } else {
                    w.comp(n, e)
                }
            },
        }
    }
}

/// Component values after a designation whose stores were all accepted:
/// the zone record on the first new entity, then the rectangle or one
/// assignment per cell on the next ones.
pub open spec fn designated_comp<H: Fn(&Json)>(w: World<H>, kind: Seq<char>, label: Option<Seq<char>>, shape: ZoneShape, n: Seq<char>, e: u32) -> Option<JsonV> {
    let base = w.next_id;
    let id = zone_id_text(w.next_zone_id);
    if n == "Zone"@ && e == base {
        Some(zone_record_json(id, kind, label))
    } else {
        match shape {
            ZoneShape::Rect { x0, y0, z, x1, y1 } => if n == "ZoneRect"@ && e == base + 1 {
                Some(zone_rect_json(id, x0, y0, z, x1, y1))
            } else {
                w.comp(n, e)
            },
            ZoneShape::Cells(cells) => if n == "RegionAssignment"@ && base + 1 <= e < base + 1 + cells.len() {
                Some(assignment_json(cells@[e - base - 1]@, id))
            } else {
                w.comp(n, e)
            },
        }
    }
}

impl<H: Fn(&Json)> World<H> {
    /// Designates a zone, returning its unique id (`zone-` and a number).
    ///
    /// Rect designations persist as one `ZoneRect` record; explicit cells
    /// persist as `RegionAssignment` entities keyed by the zone id. Labels
    /// are non-unique; only ids are. Errors on empty `kind`, malformed rects
    /// (naming the offending field), invalid cells, and outside `colony`
    /// mode. A refused store ends the call with its error, keeping what was
    /// stored and spawned before it.
    pub fn designate_zone(&mut self, kind: &str, label: Option<&str>, shape: ZoneShape) -> (r: Result<String, String>)
        requires
            old(self).next_id + 1 + shape_entities(shape) < u32::MAX,
            old(self).next_zone_id < u64::MAX,
        ensures
            r is Err <==> (old(self).current_mode@ != "colony"@ || kind@.len() == 0 || !zone_shape_valid(shape)
                || designate_outcome(*old(self), kind@, opt_text(label), shape) is Err),
            old(self).current_mode@ != "colony"@ || kind@.len() == 0 || !zone_shape_valid(shape) ==> *final(self) == *old(self),
            old(self).current_mode@ != "colony"@ ==> (r matches Err(m) && m@ == gate_message("designate_zone"@, old(self).current_mode@))
                && *final(self) == *old(self),
            old(self).current_mode@ == "colony"@ && kind@.len() == 0 ==> (r matches Err(m) && m@
                == "designate_zone: 'kind' must be a non-empty string"@) && *final(self) == *old(self),
            old(self).current_mode@ == "colony"@ && kind@.len() > 0 ==> match shape {
                ZoneShape::Rect { x0, y0, z, x1, y1 } => {
                    &&& x0 > x1 ==> (r matches Err(m) && m@ == "designate_zone: rect 'x0' ("@ + signed_decimal(x0 as int)
                        + ") must be <= 'x1' ("@ + signed_decimal(x1 as int) + ")"@) && *final(self) == *old(self)
                    &&& x0 <= x1 && y0 > y1 ==> (r matches Err(m) && m@ == "designate_zone: rect 'y0' ("@ + signed_decimal(y0 as int)
                        + ") must be <= 'y1' ("@ + signed_decimal(y1 as int) + ")"@) && *final(self) == *old(self)
                    &&& x0 <= x1 && y0 <= y1 ==> (r is Ok <==> designate_outcome(*old(self), kind@, opt_text(label), shape) is Ok)
                    &&& x0 <= x1 && y0 <= y1 && r is Err ==> {
                        &&& designate_outcome(*old(self), kind@, opt_text(label), shape) == Err::<(), Seq<char>>(crate::ecs::world::err_text(r)@)
                        &&& final(self).next_zone_id == old(self).next_zone_id + 1
                        &&& final(self).next_id == old(self).next_id + spawned_before_refusal(*old(self), kind@, opt_text(label), shape)
                        &&& final(self).entities@ == old(self).entities@ + Seq::new(spawned_before_refusal(*old(self), kind@, opt_text(label), shape) as nat, |j: int| (old(self).next_id + j) as u32)
                        &&& forall|n: Seq<char>, e: u32| #[trigger] final(self).comp(n, e) == refused_comp(*old(self), kind@, opt_text(label), shape, n, e)
                    }
                    &&& x0 <= x1 && y0 <= y1 && r is Ok ==> {
                        &&& r->Ok_0@ == zone_id_text(old(self).next_zone_id)
                        &&& final(self).next_zone_id == old(self).next_zone_id + 1
                        &&& final(self).comp("Zone"@, old(self).next_id) == Some(zone_record_json(zone_id_text(old(self).next_zone_id), kind@, opt_text(label)))
                        &&& final(self).comp("ZoneRect"@, (old(self).next_id + 1) as u32) == Some(zone_rect_json(zone_id_text(old(self).next_zone_id), x0, y0, z, x1, y1))
                        &&& final(self).next_id == old(self).next_id + 1 + shape_entities(shape)
                        &&& final(self).entities@ == old(self).entities@ + Seq::new((1 + shape_entities(shape)) as nat, |j: int| (old(self).next_id + j) as u32)
                        &&& forall|n: Seq<char>, e: u32| #[trigger] final(self).comp(n, e) == designated_comp(*old(self), kind@, opt_text(label), shape, n, e)
                    }
                },
                ZoneShape::Cells(cells) => {
                    &&& first_invalid_cell(cells@) < cells.len() ==> (r matches Err(m) && m@ == "designate_zone: cells["@
                        + decimal(first_invalid_cell(cells@) as nat) + "] is not a valid Square/Hex cell or Region reference"@)
                        && *final(self) == *old(self)
                    &&& first_invalid_cell(cells@) == cells.len() ==> (r is Ok <==> designate_outcome(*old(self), kind@, opt_text(label), shape) is Ok)
                    &&& first_invalid_cell(cells@) == cells.len() && r is Err ==> {
                        &&& designate_outcome(*old(self), kind@, opt_text(label), shape) == Err::<(), Seq<char>>(crate::ecs::world::err_text(r)@)
                        &&& final(self).next_zone_id == old(self).next_zone_id + 1
                        &&& final(self).next_id == old(self).next_id + spawned_before_refusal(*old(self), kind@, opt_text(label), shape)
                        &&& final(self).entities@ == old(self).entities@ + Seq::new(spawned_before_refusal(*old(self), kind@, opt_text(label), shape) as nat, |j: int| (old(self).next_id + j) as u32)
                        &&& forall|n: Seq<char>, e: u32| #[trigger] final(self).comp(n, e) == refused_comp(*old(self), kind@, opt_text(label), shape, n, e)
                    }
                    &&& first_invalid_cell(cells@) == cells.len() && r is Ok ==> {
                        &&& r->Ok_0@ == zone_id_text(old(self).next_zone_id)
                        &&& final(self).next_zone_id == old(self).next_zone_id + 1
                        &&& final(self).comp("Zone"@, old(self).next_id) == Some(zone_record_json(zone_id_text(old(self).next_zone_id), kind@, opt_text(label)))
                        &&& forall|k: int| 0 <= k < cells.len() ==> #[trigger] final(self).comp("RegionAssignment"@, (old(self).next_id + 1 + k) as u32)
                            == Some(assignment_json(cells@[k]@, zone_id_text(old(self).next_zone_id)))
                        &&& final(self).next_id == old(self).next_id + 1 + shape_entities(shape)
                        &&& final(self).entities@ == old(self).entities@ + Seq::new((1 + shape_entities(shape)) as nat, |j: int| (old(self).next_id + j) as u32)
                        &&& forall|n: Seq<char>, e: u32| #[trigger] final(self).comp(n, e) == designated_comp(*old(self), kind@, opt_text(label), shape, n, e)
                    }
                },
            },
    {
        match self.zone_gate("designate_zone") {
            Ok(()) => {},
            Err(m) => {
                return Err(m);
            },
        }
        if kind.unicode_len() == 0 {
            return Err(String::from_str("designate_zone: 'kind' must be a non-empty string"));
        }
        match &shape {
            ZoneShape::Rect { x0, y0, z, x1, y1 } => {
                if *x0 > *x1 {
                    let mut m = String::from_str("designate_zone: rect 'x0' (");
                    push_signed_decimal(&mut m, *x0);
                    m.append(") must be <= 'x1' (");
                    push_signed_decimal(&mut m, *x1);
                    m.append(")");
                    return Err(m);
                }
                if *y0 > *y1 {
                    let mut m = String::from_str("designate_zone: rect 'y0' (");
                    push_signed_decimal(&mut m, *y0);
                    m.append(") must be <= 'y1' (");
                    push_signed_decimal(&mut m, *y1);
                    m.append(")");
                    return Err(m);
                }
            },
            ZoneShape::Cells(cells) => {
                let mut i: usize = 0;
                while i < cells.len()
                    invariant
                        i <= cells.len(),
                        *self == *old(self),
                        old(self).current_mode@ == "colony"@,
                        kind@.len() > 0,
                        shape == ZoneShape::Cells(*cells),
                        first_invalid_cell(cells@.subrange(0, i as int)) == i,
                    decreases cells.len() - i,
                {
                    assert(cells@.subrange(0, i + 1).drop_last() =~= cells@.subrange(0, i as int));
                    if !is_valid_zone_cell(&cells[i]) {
                        proof {
                            lemma_first_invalid_prefix(cells@, i as int);
                        }
                        let mut m = String::from_str("designate_zone: cells[");
                        push_decimal(&mut m, i as u64);
                        m.append("] is not a valid Square/Hex cell or Region reference");
                        return Err(m);
                    }
                    i = i + 1;
                }
                assert(cells@.subrange(0, i as int) =~= cells@);
            },
        }
        let mut zone_id = String::from_str("zone-");
        push_decimal(&mut zone_id, self.next_zone_id);
        self.next_zone_id = self.next_zone_id + 1;
        let record = self.spawn_entity();
        let mut ze: Vec<(String, Json)> = Vec::new();
        assert(crate::json::entries_view(&ze) =~= Seq::<(Seq<char>, JsonV)>::empty());
        push_entry(&mut ze, "id", Json::Str(zone_id.clone()));
        push_entry(&mut ze, "kind", Json::Str(String::from_str(kind)));
        push_entry(&mut ze, "label", match label { Some(l) => Json::Str(String::from_str(l)), None => Json::Null });
        assert(zone_id@ == zone_id_text(old(self).next_zone_id));
        let ghost zev = crate::json::entries_view(&ze);
        assert(zev =~= seq![
            ("id"@, JsonV::Str(zone_id_text(old(self).next_zone_id))),
            ("kind"@, JsonV::Str(kind@)),
            ("label"@, text_or_null(opt_text(label))),
        ]);
        let zone = Json::Object(ze);
        assert(zone@ == JsonV::Object(zev));
        assert(zone@ == zone_record_json(zone_id_text(old(self).next_zone_id), kind@, opt_text(label)));
        match self.set_component(record, "Zone", zone) {
            Ok(()) => {},
            Err(e) => {
                return Err(e);
            },
        }
        match shape {
            ZoneShape::Rect { x0, y0, z, x1, y1 } => {
                let ghost s1 = *self;
                proof {
                    assert(shape == ZoneShape::Rect { x0, y0, z, x1, y1 });
                }
                let rect = self.spawn_entity();
                let ghost s2 = *self;
                let mut re: Vec<(String, Json)> = Vec::new();
                assert(crate::json::entries_view(&re) =~= Seq::<(Seq<char>, JsonV)>::empty());
                push_entry(&mut re, "x0", Json::Int(x0));
                push_entry(&mut re, "x1", Json::Int(x1));
                push_entry(&mut re, "y0", Json::Int(y0));
                push_entry(&mut re, "y1", Json::Int(y1));
                push_entry(&mut re, "z", Json::Int(z));
                push_entry(&mut re, "zone_id", Json::Str(zone_id.clone()));
                let ghost rev = crate::json::entries_view(&re);
                assert(rev =~= seq![
                    ("x0"@, JsonV::Int(x0)),
                    ("x1"@, JsonV::Int(x1)),
                    ("y0"@, JsonV::Int(y0)),
                    ("y1"@, JsonV::Int(y1)),
                    ("z"@, JsonV::Int(z)),
                    ("zone_id"@, JsonV::Str(zone_id@)),
                ]);
                let value = Json::Object(re);
                assert(value@ == JsonV::Object(rev));
                assert(value@ == zone_rect_json(zone_id_text(old(self).next_zone_id), x0, y0, z, x1, y1));
                match self.set_component(rect, "ZoneRect", value) {
                    Ok(()) => {},
                    Err(e) => {
                        proof {
                            reveal_strlit("Zone");
                            reveal_strlit("ZoneRect");
                            assert("Zone"@.len() != "ZoneRect"@.len());
                            assert(self.entities@ =~= old(self).entities@ + Seq::new(2, |j: int| (old(self).next_id + j) as u32));
                            assert forall|n: Seq<char>, e: u32| #[trigger] self.comp(n, e) == refused_comp(*old(self), kind@, opt_text(label), shape, n, e) by {
                                assert(s2.comp(n, e) == s1.comp(n, e));
                                assert(s1.comp(n, e) == if n == "Zone"@ && e == old(self).next_id {
                                    Some(zone_record_json(zone_id_text(old(self).next_zone_id), kind@, opt_text(label)))
                                } else {
                                    old(self).comp(n, e)
                                });
                            }
                        }
                        return Err(e);
                    },
                }
                proof {
                    reveal_strlit("Zone");
                    reveal_strlit("ZoneRect");
                    assert("Zone"@.len() != "ZoneRect"@.len());
                    assert(self.entities@ =~= old(self).entities@ + Seq::new(2, |j: int| (old(self).next_id + j) as u32));
                    assert forall|n: Seq<char>, e: u32| #[trigger] self.comp(n, e) == designated_comp(*old(self), kind@, opt_text(label), shape, n, e) by {
                        assert(s2.comp(n, e) == s1.comp(n, e));
                        assert(s1.comp(n, e) == if n == "Zone"@ && e == old(self).next_id {
                            Some(zone_record_json(zone_id_text(old(self).next_zone_id), kind@, opt_text(label)))
                        } else {
                            old(self).comp(n, e)
                        });
                    }
                }
            },
            ZoneShape::Cells(cells) => {
                proof {
                    reveal_strlit("Zone");
                    reveal_strlit("RegionAssignment");
                    assert("Zone"@.len() != "RegionAssignment"@.len());
                    assert(self.entities@ =~= old(self).entities@ + Seq::new(1, |j: int| (old(self).next_id + j) as u32));
                }
                let mut k: usize = 0;
                while k < cells.len()
                    invariant
                        k <= cells.len(),
                        shape == ZoneShape::Cells(cells),
                        old(self).current_mode@ == "colony"@,
                        kind@.len() > 0,
                        first_invalid_cell(cells@) == cells.len(),
                        self.next_id == old(self).next_id + 1 + k,
                        self.next_id + (cells.len() - k) < u32::MAX,
                        self.next_zone_id == old(self).next_zone_id + 1,
                        zone_id@ == zone_id_text(old(self).next_zone_id),
                        self.comp("Zone"@, old(self).next_id) == Some(zone_record_json(zone_id_text(old(self).next_zone_id), kind@, opt_text(label))),
                        forall|j: int| 0 <= j < k ==> #[trigger] self.comp("RegionAssignment"@, (old(self).next_id + 1 + j) as u32)
                            == Some(assignment_json(cells@[j]@, zone_id_text(old(self).next_zone_id))),
                        self.current_mode == old(self).current_mode,
                        self.registry == old(self).registry,
                        crate::ecs::loadout::set_outcome(*old(self), "Zone"@, zone_record_json(zone_id_text(old(self).next_zone_id), kind@, opt_text(label))) is Ok,
                        first_refused_assignment(*old(self), crate::json::items_view(&cells).subrange(0, k as int), zone_id_text(old(self).next_zone_id)) == k,
                        self.entities@ == old(self).entities@ + Seq::new((1 + k) as nat, |j: int| (old(self).next_id + j) as u32),
                        forall|n: Seq<char>, e: u32| #[trigger] self.comp(n, e) == if n == "Zone"@ && e == old(self).next_id {
                            Some(zone_record_json(zone_id_text(old(self).next_zone_id), kind@, opt_text(label)))
                        } else if n == "RegionAssignment"@ && old(self).next_id + 1 <= e < old(self).next_id + 1 + k {
                            Some(assignment_json(cells@[e - old(self).next_id - 1]@, zone_id_text(old(self).next_zone_id)))
                        } else {
                            old(self).comp(n, e)
                        },
                    decreases cells.len() - k,
                {
                    let ghost start = *self;
                    let ghost ns = crate::json::items_view(&cells);
                    let ghost idt = zone_id_text(old(self).next_zone_id);
                    proof {
                        assert(ns.subrange(0, k + 1).drop_last() =~= ns.subrange(0, k as int));
                        assert(ns.subrange(0, k + 1).last() == cells@[k as int]@);
                    }
                    let a = self.spawn_entity();
                    let mut ae: Vec<(String, Json)> = Vec::new();
                    assert(crate::json::entries_view(&ae) =~= Seq::<(Seq<char>, JsonV)>::empty());
                    push_entry(&mut ae, "cell", cells[k].deep_clone());
                    push_entry(&mut ae, "region_id", Json::Str(zone_id.clone()));
                    let ghost aev = crate::json::entries_view(&ae);
                    assert(aev =~= seq![("cell"@, cells@[k as int]@), ("region_id"@, JsonV::Str(zone_id@))]);
                    let value = Json::Object(ae);
                    assert(value@ == JsonV::Object(aev));
                    assert(value@ == assignment_json(cells@[k as int]@, zone_id_text(old(self).next_zone_id)));
                    let ghost before = *self;
                    match self.set_component(a, "RegionAssignment", value) {
                        Ok(()) => {},
                        Err(e) => {
                            proof {
                                assert(crate::ecs::loadout::set_outcome(*old(self), "RegionAssignment"@, assignment_json(ns[k as int], idt))
                                    == Err::<(), Seq<char>>(e@));
                                assert(first_refused_assignment(*old(self), ns.subrange(0, k + 1), idt) == k);
                                lemma_refused_assignment_sticky(*old(self), ns, idt, k + 1);
                                reveal_strlit("Zone");
                                reveal_strlit("RegionAssignment");
                                assert("Zone"@.len() != "RegionAssignment"@.len());
                                assert(self.entities@ =~= old(self).entities@ + Seq::new((k + 2) as nat, |j: int| (old(self).next_id + j) as u32));
                                assert forall|n: Seq<char>, e: u32| #[trigger] self.comp(n, e) == refused_comp(*old(self), kind@, opt_text(label), shape, n, e) by {
                                    assert(before.comp(n, e) == start.comp(n, e));
                                }
                            }
                            return Err(e);
                        },
                    }
                    proof {
                        assert(crate::ecs::loadout::set_outcome(*old(self), "RegionAssignment"@, assignment_json(ns[k as int], idt)) is Ok);
                        assert(first_refused_assignment(*old(self), ns.subrange(0, k + 1), idt) == k + 1);
                    }
                    proof {
                        reveal_strlit("Zone");
                        reveal_strlit("RegionAssignment");
                        assert("Zone"@.len() != "RegionAssignment"@.len());
                        assert(self.entities@ =~= old(self).entities@ + Seq::new((1 + k + 1) as nat, |j: int| (old(self).next_id + j) as u32));
                    }
                    proof {
                        let base = old(self).next_id;
                        let idt2 = zone_id_text(old(self).next_zone_id);
                        assert(a == (base + 1 + k) as u32);
                        assert forall|n: Seq<char>, e: u32| #[trigger] self.comp(n, e) == if n == "Zone"@ && e == base {
                            Some(zone_record_json(idt2, kind@, opt_text(label)))
                        } else if n == "RegionAssignment"@ && base + 1 <= e < base + 1 + (k + 1) {
                            Some(assignment_json(cells@[e - base - 1]@, idt2))
                        } else {
                            old(self).comp(n, e)
                        } by {
                            assert(before.comp(n, e) == start.comp(n, e));
                            if n == "RegionAssignment"@ && e == a {
                                assert(e - base - 1 == k);
                            }
                        }
                    }
                    proof {
                        assert(a == (old(self).next_id + 1 + k) as u32);
                        assert forall|j: int| 0 <= j < k + 1 implies #[trigger] self.comp("RegionAssignment"@, (old(self).next_id + 1 + j) as u32)
                            == Some(assignment_json(cells@[j]@, zone_id_text(old(self).next_zone_id))) by {
                            if j < k {
                                assert((old(self).next_id + 1 + j) as u32 != a);
                                assert(start.comp("RegionAssignment"@, (old(self).next_id + 1 + j) as u32)
                                    == Some(assignment_json(cells@[j]@, zone_id_text(old(self).next_zone_id))));
                                assert(before.comp("RegionAssignment"@, (old(self).next_id + 1 + j) as u32)
                                    == start.comp("RegionAssignment"@, (old(self).next_id + 1 + j) as u32));
                            }
                        }
                    }
                    k = k + 1;
                }
                proof {
                    assert(crate::json::items_view(&cells).subrange(0, k as int) =~= crate::json::items_view(&cells));
                    assert(shape_entities(shape) == cells.len());
                    assert forall|n: Seq<char>, e: u32| #[trigger] self.comp(n, e) == designated_comp(*old(self), kind@, opt_text(label), shape, n, e) by {}
                }
            },
        }
        Ok(zone_id)
    }
}

impl<H: Fn(&Json)> World<H> {
    /// Store `value` under `key` in the zone record of the zone: the record
    /// listed first of the zone's records. `Ok(false)` when the zone has
    /// none.
    fn update_zone_record(&mut self, op: &str, zone_id: &str, key: &str, value: Json) -> (r: Result<bool, String>)
        ensures
            old(self).current_mode@ != "colony"@ ==> (r matches Err(m) && m@ == gate_message(op@, old(self).current_mode@))
                && *final(self) == *old(self),
            old(self).current_mode@ == "colony"@ && !(exists|e: u32| old(self).is_zone_record(zone_id@, e)) ==> r
                == Ok::<bool, String>(false) && *final(self) == *old(self),
            old(self).current_mode@ == "colony"@ && (exists|e: u32| old(self).is_zone_record(zone_id@, e)) ==> exists|e: u32|
                #[trigger] old(self).is_zone_record(zone_id@, e) && ({
                    let nv = old(self).comp("Zone"@, e).unwrap().insert(key@, value@);
                    &&& (r is Ok <==> (schema_check(old(self).registry.schemas()["Zone"@].schema@, nv) matches Ok(msgs) && msgs.len() == 0))
                    &&& r is Ok ==> r == Ok::<bool, String>(true) && final(self).entities == old(self).entities && forall|n: Seq<char>, x: u32|
                        #[trigger] final(self).comp(n, x) == if n == "Zone"@ && x == e { Some(nv) } else { old(self).comp(n, x) }
                    &&& r is Err ==> *final(self) == *old(self)
                }),
    {
        match self.zone_gate(op) {
            Ok(()) => {},
            Err(m) => {
                return Err(m);
            },
        }
        let records = self.zone_record_entities(zone_id);
        if records.len() == 0 {
            proof {
                assert forall|e: u32| !old(self).is_zone_record(zone_id@, e) by {
                    if old(self).is_zone_record(zone_id@, e) {
                        assert(records@.contains(e));
                    }
                }
            }
            return Ok(false);
        }
        let eid = records[0];
        assert(records@.contains(eid));
        let mut record = match self.get_component(eid, "Zone") {
            Some(v) => v.deep_clone(),
            None => Json::Null,
        };
        record.insert(String::from_str(key), value);
        match self.set_component(eid, "Zone", record) {
            Ok(()) => Ok(true),
            Err(e) => Err(e),
        }
    }

    /// Renames a zone by replacing its label.
    ///
    /// Labels are non-unique; only ids are. Returns `Ok(false)` for unknown
    /// ids without creating entities. Gated to `colony` mode.
    pub fn rename_zone(&mut self, zone_id: &str, label: &str) -> (r: Result<bool, String>)
        ensures
            old(self).current_mode@ != "colony"@ ==> (r matches Err(m) && m@ == gate_message("rename_zone"@, old(self).current_mode@))
                && *final(self) == *old(self),
            old(self).current_mode@ == "colony"@ && !(exists|e: u32| old(self).is_zone_record(zone_id@, e)) ==> r
                == Ok::<bool, String>(false) && *final(self) == *old(self),
            old(self).current_mode@ == "colony"@ && (exists|e: u32| old(self).is_zone_record(zone_id@, e)) ==> exists|e: u32|
                #[trigger] old(self).is_zone_record(zone_id@, e) && ({
                    let nv = old(self).comp("Zone"@, e).unwrap().insert("label"@, JsonV::Str(label@));
                    &&& (r is Ok <==> (schema_check(old(self).registry.schemas()["Zone"@].schema@, nv) matches Ok(msgs) && msgs.len() == 0))
                    &&& r is Ok ==> r == Ok::<bool, String>(true) && final(self).entities == old(self).entities && forall|n: Seq<char>, x: u32|
                        #[trigger] final(self).comp(n, x) == if n == "Zone"@ && x == e { Some(nv) } else { old(self).comp(n, x) }
                    &&& r is Err ==> *final(self) == *old(self)
                }),
    {
        self.update_zone_record("rename_zone", zone_id, "label", Json::Str(String::from_str(label)))
    }

    /// Changes a zone's kind, rejecting empty kinds naming the field.
    ///
    /// Returns `Ok(false)` for unknown ids without creating entities. Gated
    /// to `colony` mode.
    pub fn set_zone_kind(&mut self, zone_id: &str, kind: &str) -> (r: Result<bool, String>)
        ensures
            old(self).current_mode@ != "colony"@ ==> (r matches Err(m) && m@ == gate_message("set_zone_kind"@, old(self).current_mode@))
                && *final(self) == *old(self),
            old(self).current_mode@ == "colony"@ && kind@.len() == 0 ==> (r matches Err(m) && m@
                == "set_zone_kind: 'kind' must be a non-empty string"@) && *final(self) == *old(self),
            old(self).current_mode@ == "colony"@ && kind@.len() > 0 && !(exists|e: u32| old(self).is_zone_record(zone_id@, e)) ==> r
                == Ok::<bool, String>(false) && *final(self) == *old(self),
            old(self).current_mode@ == "colony"@ && kind@.len() > 0 && (exists|e: u32| old(self).is_zone_record(zone_id@, e)) ==> exists|e: u32|
                #[trigger] old(self).is_zone_record(zone_id@, e) && ({
                    let nv = old(self).comp("Zone"@, e).unwrap().insert("kind"@, JsonV::Str(kind@));
                    &&& (r is Ok <==> (schema_check(old(self).registry.schemas()["Zone"@].schema@, nv) matches Ok(msgs) && msgs.len() == 0))
                    &&& r is Ok ==> r == Ok::<bool, String>(true) && final(self).entities == old(self).entities && forall|n: Seq<char>, x: u32|
                        #[trigger] final(self).comp(n, x) == if n == "Zone"@ && x == e { Some(nv) } else { old(self).comp(n, x) }
                    &&& r is Err ==> *final(self) == *old(self)
                }),
    {
        match self.zone_gate("set_zone_kind") {
            Ok(()) => {},
            Err(m) => {
                return Err(m);
            },
        }
        if kind.unicode_len() == 0 {
            return Err(String::from_str("set_zone_kind: 'kind' must be a non-empty string"));
        }
        self.update_zone_record("set_zone_kind", zone_id, "kind", Json::Str(String::from_str(kind)))
    }
}

/// The optional text as a value of views.
pub open spec fn opt_text(o: Option<&str>) -> Option<Seq<char>> {
    match o {
        Some(s) => Some(s@),
        None => None,
    }
}

proof fn lemma_first_invalid_prefix(cells: Seq<Json>, i: int)
    requires
        0 <= i < cells.len(),
        first_invalid_cell(cells.subrange(0, i)) == i,
        !valid_zone_cell(cells[i]@),
    ensures
        first_invalid_cell(cells) == i,
    decreases cells.len(),
{
    if cells.len() > i + 1 {
        assert(cells.drop_last().subrange(0, i) =~= cells.subrange(0, i));
        lemma_first_invalid_prefix(cells.drop_last(), i);
    } else {
        assert(cells.drop_last() =~= cells.subrange(0, i));
    }
}

/// What zone validation does to one assignment.
pub enum ZoneFix {
    /// Leave it as it is.
    Keep,
    /// Despawn its entity.
    Despawn,
    /// Store this value in its place.
    Rewrite(Json),
}

/// Decide what zone validation does to an assignment value.
fn classify_assignment(v: &Json, live: &Vec<String>, Ghost(lz): Ghost<Set<Seq<char>>>) -> (r: ZoneFix)
    requires
        forall|id: Seq<char>| lz.contains(id) <==> #[trigger] has_text(live@, id),
    ensures
        ({
            let stale = match v@.get("region_id"@) {
                Some(JsonV::Str(id)) => zone_prefixed(id) && !lz.contains(id),
                Some(JsonV::Array(items)) => keep_live(items, lz).len() != items.len() && keep_live(items, lz).len() == 0,
                _ => false,
            };
            let trimmed = v@.get("region_id"@) matches Some(JsonV::Array(items)) && keep_live(items, lz).len() != items.len()
                && keep_live(items, lz).len() > 0;
            &&& stale <==> r is Despawn
            &&& trimmed <==> r is Rewrite
            &&& r matches ZoneFix::Rewrite(nv) ==> match v@.get("region_id"@) {
                Some(JsonV::Array(items)) => nv@ == v@.insert("region_id"@, JsonV::Array(keep_live(items, lz))),
                _ => false,
            }
        }),
{
    match v.get("region_id") {
        Some(Json::Str(id)) => {
            if is_zone_prefixed(id.as_str()) && !contains_text(live, id.as_str()) {
                ZoneFix::Despawn
            } else {
                ZoneFix::Keep
            }
        },
        Some(Json::Array(items)) => {
            let kept = keep_live_exec(items, live, Ghost(lz));
            if kept.len() == items.len() {
                ZoneFix::Keep
            } else if kept.len() == 0 {
                ZoneFix::Despawn
            } else {
                let mut nv = v.deep_clone();
                nv.insert(String::from_str("region_id"), Json::Array(kept));
                ZoneFix::Rewrite(nv)
            }
        },
        _ => ZoneFix::Keep,
    }
}

/// Whether `id` is among `ids`.
pub(crate) fn contains_text(ids: &Vec<String>, id: &str) -> (r: bool)
    ensures
        r == has_text(ids@, id@),
{
    let mut i: usize = 0;
    while i < ids.len()
        invariant
            i <= ids.len(),
            forall|j: int| 0 <= j < i ==> #[trigger] ids@[j]@ != id@,
        decreases ids.len() - i,
    {
        if str_eq(ids[i].as_str(), id) {
            return true;
        }
        i = i + 1;
    }
    false
}

/// The items of an array without stale zone ids.
fn keep_live_exec(items: &Vec<Json>, live: &Vec<String>, Ghost(lz): Ghost<Set<Seq<char>>>) -> (r: Vec<Json>)
    requires
        forall|id: Seq<char>| lz.contains(id) <==> #[trigger] has_text(live@, id),
    ensures
        crate::json::items_view(&r) == keep_live(crate::json::items_view(items), lz),
{
    let ghost iv = crate::json::items_view(items);
    let mut out: Vec<Json> = Vec::new();
    let mut i: usize = 0;
    while i < items.len()
        invariant
            i <= items.len(),
            iv == crate::json::items_view(items),
            forall|id: Seq<char>| lz.contains(id) <==> #[trigger] has_text(live@, id),
            crate::json::items_view(&out) == keep_live(iv.subrange(0, i as int), lz),
        decreases items.len() - i,
    {
        assert(iv.subrange(0, i + 1).drop_last() =~= iv.subrange(0, i as int));
        let drop = match items[i].as_str() {
            Some(id) => is_zone_prefixed(id) && !contains_text(live, id),
            None => false,
        };
        if !drop {
            let ghost before = crate::json::items_view(&out);
            out.push(items[i].deep_clone());
            assert(crate::json::items_view(&out) =~= before.push(iv[i as int]));
        }
        i = i + 1;
    }
    assert(iv.subrange(0, i as int) =~= iv);
    out
}


/// Whether `c` is one of `cells`.
pub(crate) fn contains_json(cells: &Vec<Json>, c: &Json) -> (r: bool)
    ensures
        r == crate::json::items_view(cells).contains(c@),
{
    let ghost iv = crate::json::items_view(cells);
    let mut i: usize = 0;
    while i < cells.len()
        invariant
            i <= cells.len(),
            iv == crate::json::items_view(cells),
            forall|k: int| 0 <= k < i ==> iv[k] != c@,
        decreases cells.len() - i,
    {
        if crate::json::json_eq(&cells[i], c) {
            assert(iv[i as int] == c@);
            return true;
        }
        i = i + 1;
    }
    false
}

impl<H: Fn(&Json)> World<H> {
    /// Whether `e` carries an assignment of one of `cells` to the zone.
    pub open spec fn unassign_target(self, zone_id: Seq<char>, cells: Seq<JsonV>, e: u32) -> bool {
        self.assigns_zone(zone_id, e) && (self.comp("RegionAssignment"@, e).unwrap().get("cell"@) matches Some(c)
            && cells.contains(c))
    }

    /// Whether unassigning the cells from the zone despawns `e`.
    pub open spec fn unassign_gone(self, zone_id: Seq<char>, cells: Seq<JsonV>, e: u32) -> bool {
        self.unassign_target(zone_id, cells, e) && only_zone(
            self.comp("RegionAssignment"@, e).unwrap().get("region_id"@),
            zone_id,
        )
    }

    /// Component values after unassigning the cells from the zone.
    pub open spec fn after_unassign(self, zone_id: Seq<char>, cells: Seq<JsonV>, n: Seq<char>, e: u32) -> Option<JsonV> {
        if self.unassign_gone(zone_id, cells, e) {
            None
        } else if self.unassign_target(zone_id, cells, e) && n == "RegionAssignment"@ {
            Some(strip_zone(self.comp(n, e).unwrap(), zone_id))
        } else {
            self.comp(n, e)
        }
    }

    /// Entities carrying an assignment of one of `cells` to the zone.
    fn unassign_targets(&self, zone_id: &str, cells: &Vec<Json>) -> (r: Vec<u32>)
        ensures
            forall|e: u32| r@.contains(e) <==> self.unassign_target(zone_id@, crate::json::items_view(cells), e),
            forall|a: int, b: int| 0 <= a < b < r@.len() ==> r@[a] != r@[b],
    {
        let all = self.zone_assignment_entities(zone_id);
        let ghost cv = crate::json::items_view(cells);
        let mut out: Vec<u32> = Vec::new();
        let mut i: usize = 0;
        while i < all.len()
            invariant
                i <= all.len(),
                cv == crate::json::items_view(cells),
                forall|e: u32| all@.contains(e) <==> self.assigns_zone(zone_id@, e),
                forall|a: int, b: int| 0 <= a < b < all@.len() ==> all@[a] != all@[b],
                forall|e: u32| out@.contains(e) <==> exists|j: int| 0 <= j < i && all@[j] == e && self.unassign_target(zone_id@, cv, e),
                forall|a: int, b: int| 0 <= a < b < out@.len() ==> out@[a] != out@[b],
            decreases all.len() - i,
        {
            let e = all[i];
            proof {
                assert(all@.contains(e));
            }
            let keep = match self.get_component(e, "RegionAssignment") {
                Some(v) => match v.get("cell") {
                    Some(c) => contains_json(cells, c),
                    None => false,
                },
                None => false,
            };
            let ghost prev = out@;
            if keep {
                proof {
                    if prev.contains(e) {
                        let j = choose|j: int| 0 <= j < i && all@[j] == e && self.unassign_target(zone_id@, cv, e);
                        if j < i {
                            assert(all@[j] != all@[i as int]);
                        }
                    }
                }
                out.push(e);
            }
            proof {
                assert forall|x: u32| out@.contains(x) <==> exists|j: int| 0 <= j < i + 1 && all@[j] == x && self.unassign_target(zone_id@, cv, x) by {
                    if out@.contains(x) && !prev.contains(x) {
                        let k = choose|k: int| 0 <= k < out@.len() && out@[k] == x;
                        assert(k == prev.len());
                        assert(all@[i as int] == x);
                    }
                    if prev.contains(x) {
                        let k = choose|k: int| 0 <= k < prev.len() && prev[k] == x;
                        assert(out@[k] == x);
                    }
                    if keep && x == e {
                        assert(out@[prev.len() as int] == x);
                    }
                    if exists|j: int| 0 <= j < i + 1 && all@[j] == x && self.unassign_target(zone_id@, cv, x) {
                        let j = choose|j: int| 0 <= j < i + 1 && all@[j] == x && self.unassign_target(zone_id@, cv, x);
                        if j == i {
                            assert(keep);
                        } else {
                            assert(prev.contains(x));
                        }
                    }
                }
                assert forall|a: int, b: int| 0 <= a < b < out@.len() implies out@[a] != out@[b] by {
                    if b == prev.len() && keep {
                        assert(prev.contains(out@[a]));
                    }
                }
            }
            i = i + 1;
        }
        proof {
            assert forall|x: u32| out@.contains(x) <==> self.unassign_target(zone_id@, cv, x) by {
                if self.unassign_target(zone_id@, cv, x) {
                    assert(all@.contains(x));
                    let j = choose|j: int| 0 <= j < all@.len() && all@[j] == x;
                    assert(exists|j: int| 0 <= j < i && all@[j] == x && self.unassign_target(zone_id@, cv, x));
                }
            }
        }
        out
    }

    /// Removes explicit cells from a zone, ignoring cells that are not
    /// members (idempotent).
    ///
    /// Rect interiors are unaffected. Array-form `RegionAssignment.region_id`
    /// values are stripped of the zone id (entity despawned only when nothing
    /// remains); string-form matches are despawned. Returns `Ok(false)` for
    /// unknown ids. Gated to `colony` mode.
    pub fn unassign_cells_from_zone(&mut self, zone_id: &str, cells: Vec<Json>) -> (r: Result<bool, String>)
        ensures
            old(self).current_mode@ != "colony"@ ==> (r matches Err(m) && m@ == gate_message(
                "unassign_cells_from_zone"@,
                old(self).current_mode@,
            )) && *final(self) == *old(self),
            old(self).current_mode@ == "colony"@ && !(exists|e: u32| old(self).is_zone_record(zone_id@, e)) ==> r == Ok::<
                bool,
                String,
            >(false) && *final(self) == *old(self),
            old(self).current_mode@ == "colony"@ && (exists|e: u32| old(self).is_zone_record(zone_id@, e)) ==> {
                let cv = crate::json::items_view(&cells);
                &&& r == Ok::<bool, String>(true)
                &&& forall|n: Seq<char>, e: u32| #[trigger] final(self).comp(n, e) == old(self).after_unassign(zone_id@, cv, n, e)
                &&& final(self).entities@ == drop_set(old(self).entities@, Set::new(|e: u32| old(self).unassign_gone(zone_id@, cv, e)))
                &&& final(self).components@.dom() == old(self).components@.dom()
                &&& final(self).current_mode == old(self).current_mode
                &&& final(self).registry == old(self).registry
                &&& final(self).next_id == old(self).next_id
                &&& final(self).next_zone_id == old(self).next_zone_id
            },
    {
        match self.zone_gate("unassign_cells_from_zone") {
            Ok(()) => {},
            Err(m) => {
                return Err(m);
            },
        }
        let records = self.zone_record_entities(zone_id);
        if records.len() == 0 {
            proof {
                assert forall|e: u32| !old(self).is_zone_record(zone_id@, e) by {
                    if old(self).is_zone_record(zone_id@, e) {
                        assert(records@.contains(e));
                    }
                }
            }
            return Ok(false);
        }
        proof {
            assert(records@.contains(records@[0]));
            assert(old(self).is_zone_record(zone_id@, records@[0]));
        }
        let ghost w0 = *self;
        let ghost cv = crate::json::items_view(&cells);
        let targets = self.unassign_targets(zone_id, &cells);
        let ghost mut gone: Set<u32> = Set::empty();
        proof {
            lemma_drop_set_empty(w0.entities@);
        }
        let mut i: usize = 0;
        while i < targets.len()
            invariant
                i <= targets.len(),
                w0 == *old(self),
                cv == crate::json::items_view(&cells),
                forall|x: u32| targets@.contains(x) <==> w0.unassign_target(zone_id@, cv, x),
                forall|a: int, b: int| 0 <= a < b < targets@.len() ==> targets@[a] != targets@[b],
                forall|x: u32| #[trigger] gone.contains(x) <==> in_prefix(targets@, i as int, x) && only_zone(
                    w0.comp("RegionAssignment"@, x).unwrap().get("region_id"@),
                    zone_id@,
                ),
                self.entities@ == drop_set(w0.entities@, gone),
                self.components@.dom() == w0.components@.dom(),
                self.current_mode == w0.current_mode,
                self.registry == w0.registry,
                self.next_id == w0.next_id,
                self.next_zone_id == w0.next_zone_id,
                forall|n: Seq<char>, x: u32| #[trigger] self.comp(n, x) == if in_prefix(targets@, i as int, x) {
                    w0.after_unassign(zone_id@, cv, n, x)
                } else {
                    w0.comp(n, x)
                },
            decreases targets.len() - i,
        {
            let e = targets[i];
            proof {
                assert(targets@.contains(e));
                assert forall|j: int| 0 <= j < i implies targets@[j] != e by {}
                assert(!in_prefix(targets@, i as int, e));
                assert(self.comp("RegionAssignment"@, e) == w0.comp("RegionAssignment"@, e));
            }
            let strip_all = match self.get_component(e, "RegionAssignment") {
                Some(v) => only_zone_exec(v.get("region_id"), zone_id),
                None => true,
            };
            let ghost prev_gone = gone;
            if strip_all {
                self.despawn_entity(e);
                proof {
                    lemma_drop_set_without(w0.entities@, prev_gone, e);
                    gone = prev_gone.insert(e);
                }
            } else {
                self.strip_assignment(e, zone_id);
            }
            proof {
                assert forall|x: u32| #[trigger] in_prefix(targets@, i + 1, x) <==> (in_prefix(targets@, i as int, x) || x == e) by {
                    if in_prefix(targets@, i + 1, x) {
                        let j = choose|j: int| 0 <= j < i + 1 && targets@[j] == x;
                        if j < i {
                            assert(in_prefix(targets@, i as int, x));
                        }
                    }
                    if x == e {
                        assert(targets@[i as int] == x);
                    }
                    if in_prefix(targets@, i as int, x) {
                        let j = choose|j: int| 0 <= j < i && targets@[j] == x;
                        assert(0 <= j < i + 1 && targets@[j] == x);
                    }
                }
                assert(gone =~= Set::new(|x: u32| in_prefix(targets@, i + 1, x) && only_zone(
                    w0.comp("RegionAssignment"@, x).unwrap().get("region_id"@),
                    zone_id@,
                )));
            }
            i = i + 1;
        }
        proof {
            assert forall|x: u32| #[trigger] in_prefix(targets@, targets@.len() as int, x) <==> targets@.contains(x) by {}
            assert(gone =~= Set::new(|e: u32| w0.unassign_gone(zone_id@, cv, e)));
        }
        Ok(true)
    }
}

/// The cells of `cells` that are not already members, in order (a cell
/// listed twice is added twice).
pub open spec fn cells_to_add(cells: Seq<JsonV>, members: Set<JsonV>) -> Seq<JsonV>
    decreases cells.len(),
{
    if cells.len() == 0 {
        cells
    } else if members.contains(cells.last()) {
        cells_to_add(cells.drop_last(), members)
    } else {
        cells_to_add(cells.drop_last(), members).push(cells.last())
    }
}

/// Index of the first new cell whose assignment to the zone is refused in
/// world `w`, or the number of new cells when none is.
pub open spec fn first_refused_assignment<H: Fn(&Json)>(w: World<H>, ns: Seq<JsonV>, zone_id: Seq<char>) -> int
    decreases ns.len(),
{
    if ns.len() == 0 {
        0
    } else {
        let i = first_refused_assignment(w, ns.drop_last(), zone_id);
        if i < ns.len() - 1 {
            i
        } else if crate::ecs::loadout::set_outcome(w, "RegionAssignment"@, assignment_json(ns.last(), zone_id)) is Err {
            ns.len() - 1
        } else {
            ns.len() as int
        }
    }
}

proof fn lemma_cells_to_add_prefix(cells: Seq<JsonV>, members: Set<JsonV>, i: int)
    requires
        0 <= i <= cells.len(),
    ensures
        cells_to_add(cells.subrange(0, i), members).len() <= cells_to_add(cells, members).len(),
        cells_to_add(cells, members).subrange(0, cells_to_add(cells.subrange(0, i), members).len() as int)
            == cells_to_add(cells.subrange(0, i), members),
    decreases cells.len(),
{
    if i == cells.len() {
        assert(cells.subrange(0, i) =~= cells);
        assert(cells_to_add(cells, members).subrange(0, cells_to_add(cells, members).len() as int) =~= cells_to_add(cells, members));
    } else {
        assert(cells.drop_last().subrange(0, i) =~= cells.subrange(0, i));
        lemma_cells_to_add_prefix(cells.drop_last(), members, i);
        let a = cells_to_add(cells.subrange(0, i), members);
        let b = cells_to_add(cells.drop_last(), members);
        if !members.contains(cells.last()) {
            assert(b.push(cells.last()).subrange(0, a.len() as int) =~= b.subrange(0, a.len() as int));
        }
    }
}

proof fn lemma_refused_assignment_sticky<H: Fn(&Json)>(w: World<H>, ns: Seq<JsonV>, zone_id: Seq<char>, p: int)
    requires
        0 <= p <= ns.len(),
        first_refused_assignment(w, ns.subrange(0, p), zone_id) < p,
    ensures
        first_refused_assignment(w, ns, zone_id) == first_refused_assignment(w, ns.subrange(0, p), zone_id),
    decreases ns.len() - p,
{
    if p < ns.len() {
        assert(ns.subrange(0, p + 1).drop_last() =~= ns.subrange(0, p));
        lemma_refused_assignment_sticky(w, ns, zone_id, p + 1);
    } else {
        assert(ns.subrange(0, p) =~= ns);
    }
}

/// Whether `after` is what assigning `cells` to the zone makes of `before`
/// when every store is accepted: one `RegionAssignment` entity per cell that
/// was not a member yet, numbered from the next free identifier.
pub open spec fn assign_applied<H: Fn(&Json)>(before: World<H>, after: World<H>, zone_id: Seq<char>, cells: Seq<JsonV>) -> bool {
    let ns = cells_to_add(cells, before.member_cells(zone_id));
    &&& first_refused_assignment(before, ns, zone_id) == ns.len()
    &&& after.current_mode == before.current_mode
    &&& after.registry == before.registry
    &&& after.next_id == before.next_id + ns.len()
    &&& forall|n: Seq<char>, e: u32| #[trigger] after.comp(n, e) == if n == "RegionAssignment"@ && before.next_id <= e
        < before.next_id + ns.len() {
        Some(assignment_json(ns[e - before.next_id], zone_id))
    } else {
        before.comp(n, e)
    }
}

proof fn lemma_cells_to_add_keeps_new(cells: Seq<JsonV>, members: Set<JsonV>, i: int)
    requires
        0 <= i < cells.len(),
        !members.contains(cells[i]),
    ensures
        exists|k: int| 0 <= k < cells_to_add(cells, members).len() && cells_to_add(cells, members)[k] == cells[i],
    decreases cells.len(),
{
    let ns = cells_to_add(cells, members);
    if i == cells.len() - 1 {
        assert(ns[ns.len() - 1] == cells[i]);
    } else {
        lemma_cells_to_add_keeps_new(cells.drop_last(), members, i);
        let rest = cells_to_add(cells.drop_last(), members);
        let k = choose|k: int| 0 <= k < rest.len() && rest[k] == cells.drop_last()[i];
        if !members.contains(cells.last()) {
            assert(ns[k] == rest[k]);
        }
    }
}

proof fn lemma_cells_to_add_all_members(cells: Seq<JsonV>, members: Set<JsonV>)
    requires
        forall|i: int| 0 <= i < cells.len() ==> members.contains(#[trigger] cells[i]),
    ensures
        cells_to_add(cells, members).len() == 0,
    decreases cells.len(),
{
    if cells.len() > 0 {
        assert(members.contains(cells[cells.len() - 1]));
        lemma_cells_to_add_all_members(cells.drop_last(), members);
    }
}

proof fn lemma_assignment_json_fields(cell: JsonV, zone_id: Seq<char>)
    ensures
        assignment_json(cell, zone_id).get("cell"@) == Some(cell),
        assignment_json(cell, zone_id).get("region_id"@) == Some(JsonV::Str(zone_id)),
{
    reveal_strlit("cell");
    reveal_strlit("region_id");
    let e = seq![("cell"@, cell), ("region_id"@, JsonV::Str(zone_id))];
    assert("cell"@ != "region_id"@) by {
        assert("cell"@.len() != "region_id"@.len());
    }
    assert(e.drop_first().drop_first().len() == 0);
    assert(crate::json::entry_index(e.drop_first(), "region_id"@) == 0);
    assert(crate::json::entry_index(e, "region_id"@) == 1);
}

/// Assigning cells to a zone a second time changes nothing: once an
/// assignment of `cells` has been stored, every one of them is a member of
/// the zone, so a second call finds no cell to add. This holds when no
/// assignment of the zone sits on an identifier that the call hands out.
pub proof fn law_assign_twice_is_once<H: Fn(&Json)>(w0: World<H>, w1: World<H>, zone_id: Seq<char>, cells: Seq<JsonV>)
    requires
        forall|e: u32| #[trigger] w0.assigns_zone(zone_id, e) ==> e < w0.next_id,
        assign_applied(w0, w1, zone_id, cells),
    ensures
        forall|i: int| 0 <= i < cells.len() ==> w1.member_cells(zone_id).contains(#[trigger] cells[i]),
        cells_to_add(cells, w1.member_cells(zone_id)).len() == 0,
{
    let ns = cells_to_add(cells, w0.member_cells(zone_id));
    let b = w0.next_id;
    assert forall|i: int| 0 <= i < cells.len() implies w1.member_cells(zone_id).contains(#[trigger] cells[i]) by {
        let c = cells[i];
        if w0.member_cells(zone_id).contains(c) {
            let e = choose|e: u32| #[trigger] w0.assigns_zone(zone_id, e) && w0.comp("RegionAssignment"@, e).unwrap().get(
                "cell"@,
            ) == Some(c);
            assert(e < w0.next_id);
            assert(w1.comp("RegionAssignment"@, e) == w0.comp("RegionAssignment"@, e));
            assert(w1.assigns_zone(zone_id, e));
        } else {
            lemma_cells_to_add_keeps_new(cells, w0.member_cells(zone_id), i);
            let k = choose|k: int| 0 <= k < ns.len() && ns[k] == c;
            let e = (b + k) as u32;
            assert(w1.comp("RegionAssignment"@, e) == Some(assignment_json(c, zone_id)));
            lemma_assignment_json_fields(c, zone_id);
            assert(crate::ecs::loadout::set_outcome(w0, "RegionAssignment"@, assignment_json(ns.last(), zone_id)) is Ok);
            assert(w1.assigns_zone(zone_id, e));
        }
    }
    lemma_cells_to_add_all_members(cells, w1.member_cells(zone_id));
}

/// Assigning one cell that is not yet a member of the zone and then
/// unassigning it leaves every component as it was. This holds when the
/// identifier that the assignment gets held no component before.
pub proof fn law_assign_unassign_round_trip<H: Fn(&Json)>(w0: World<H>, w1: World<H>, w2: World<H>, zone_id: Seq<char>, c: JsonV)
    requires
        forall|n: Seq<char>| #[trigger] w0.comp(n, w0.next_id) is None,
        !w0.member_cells(zone_id).contains(c),
        assign_applied(w0, w1, zone_id, seq![c]),
        forall|n: Seq<char>, e: u32| #[trigger] w2.comp(n, e) == w1.after_unassign(zone_id, seq![c], n, e),
    ensures
        forall|n: Seq<char>, e: u32| #[trigger] w2.comp(n, e) == w0.comp(n, e),
{
    let members = w0.member_cells(zone_id);
    let ns = cells_to_add(seq![c], members);
    assert(seq![c].drop_last() =~= Seq::<JsonV>::empty());
    assert(seq![c].last() == c);
    assert(cells_to_add(seq![c].drop_last(), members).len() == 0);
    assert(ns =~= seq![c]);
    let b = w0.next_id;
    lemma_assignment_json_fields(c, zone_id);
    assert(crate::ecs::loadout::set_outcome(w0, "RegionAssignment"@, assignment_json(ns.last(), zone_id)) is Ok);
    assert forall|n: Seq<char>, e: u32| #[trigger] w2.comp(n, e) == w0.comp(n, e) by {
        assert(w2.comp(n, e) == w1.after_unassign(zone_id, seq![c], n, e));
        if e == b {
            assert(w1.comp("RegionAssignment"@, e) == Some(assignment_json(c, zone_id)));
            assert(seq![c].contains(c)) by {
                assert(seq![c][0] == c);
            }
            assert(w1.unassign_target(zone_id, seq![c], e));
            assert(w1.unassign_gone(zone_id, seq![c], e));
            assert(w0.comp(n, w0.next_id) is None);
        } else {
            assert(w1.comp(n, e) == w0.comp(n, e));
            assert(w1.comp("RegionAssignment"@, e) == w0.comp("RegionAssignment"@, e));
            if w1.unassign_target(zone_id, seq![c], e) {
                let cc = w1.comp("RegionAssignment"@, e).unwrap().get("cell"@)->Some_0;
                assert(seq![c].contains(cc));
                let t = choose|t: int| 0 <= t < 1 && seq![c][t] == cc;
                assert(cc == c);
                assert(w0.assigns_zone(zone_id, e));
                assert(members.contains(c));
            }
        }
    }
}

impl<H: Fn(&Json)> World<H> {
    /// The explicit cells assigned to the zone.
    pub open spec fn member_cells(self, zone_id: Seq<char>) -> Set<JsonV> {
        Set::new(|c: JsonV| exists|e: u32| #[trigger] self.assigns_zone(zone_id, e) && self.comp("RegionAssignment"@, e).unwrap().get(
            "cell"@,
        ) == Some(c))
    }

    /// Explicit cells directly assigned to a zone (raw stored values).
    pub(crate) fn zone_member_cells(&self, zone_id: &str) -> (r: Vec<Json>)
        ensures
            forall|c: JsonV| #[trigger] crate::json::items_view(&r).contains(c) <==> self.member_cells(zone_id@).contains(c),
    {
        let all = self.zone_assignment_entities(zone_id);
        let mut out: Vec<Json> = Vec::new();
        let mut i: usize = 0;
        while i < all.len()
            invariant
                i <= all.len(),
                forall|e: u32| all@.contains(e) <==> self.assigns_zone(zone_id@, e),
                forall|c: JsonV| #[trigger] crate::json::items_view(&out).contains(c) <==> exists|k: int| 0 <= k < i && self.comp(
                    "RegionAssignment"@,
                    #[trigger] all@[k],
                ).unwrap().get("cell"@) == Some(c),
            decreases all.len() - i,
        {
            let e = all[i];
            let ghost before = crate::json::items_view(&out);
            let cell = match self.get_component(e, "RegionAssignment") {
                Some(v) => match v.get("cell") {
                    Some(c) => Some(c.deep_clone()),
                    None => None,
                },
                None => None,
            };
            proof {
                assert(all@.contains(e));
            }
            match cell {
                Some(c) => {
                    let ghost cv = c@;
                    out.push(c);
                    proof {
                        assert(crate::json::items_view(&out) =~= before.push(cv));
                    }
                },
                None => {
                    assert(crate::json::items_view(&out) == before);
                },
            }
            proof {
                let now = crate::json::items_view(&out);
                assert forall|c: JsonV| #[trigger] now.contains(c) <==> exists|k: int| 0 <= k < i + 1 && self.comp(
                    "RegionAssignment"@,
                    #[trigger] all@[k],
                ).unwrap().get("cell"@) == Some(c) by {
                    if now.contains(c) && !before.contains(c) {
                        let t = choose|t: int| 0 <= t < now.len() && now[t] == c;
                        assert(t == before.len());
                        assert(self.comp("RegionAssignment"@, all@[i as int]).unwrap().get("cell"@) == Some(c));
                    }
                    if before.contains(c) {
                        let t = choose|t: int| 0 <= t < before.len() && before[t] == c;
                        assert(now[t] == c);
                    }
                    if exists|k: int| 0 <= k < i + 1 && self.comp("RegionAssignment"@, #[trigger] all@[k]).unwrap().get("cell"@) == Some(c) {
                        let k = choose|k: int| 0 <= k < i + 1 && self.comp("RegionAssignment"@, #[trigger] all@[k]).unwrap().get("cell"@) == Some(c);
                        if k == i {
                            assert(now[now.len() - 1] == c);
                        } else {
                            assert(before.contains(c));
                        }
                    }
                }
            }
            i = i + 1;
        }
        proof {
            assert forall|c: JsonV| #[trigger] crate::json::items_view(&out).contains(c) <==> self.member_cells(zone_id@).contains(c) by {
                if self.member_cells(zone_id@).contains(c) {
                    let e = choose|e: u32| #[trigger] self.assigns_zone(zone_id@, e) && self.comp("RegionAssignment"@, e).unwrap().get(
                        "cell"@,
                    ) == Some(c);
                    assert(all@.contains(e));
                    let k = choose|k: int| 0 <= k < all@.len() && all@[k] == e;
                    assert(self.comp("RegionAssignment"@, all@[k]).unwrap().get("cell"@) == Some(c));
                }
                if crate::json::items_view(&out).contains(c) {
                    let k = choose|k: int| 0 <= k < all@.len() && self.comp("RegionAssignment"@, #[trigger] all@[k]).unwrap().get("cell"@) == Some(c);
                    assert(all@.contains(all@[k]));
                    assert(self.assigns_zone(zone_id@, all@[k]));
                }
            }
        }
        out
    }

    /// Adds explicit cells to an existing zone, skipping cells that are
    /// already members (idempotent): each new cell gets a
    /// `RegionAssignment` entity naming the zone.
    ///
    /// Returns `Ok(false)` for unknown ids without creating entities. Invalid
    /// cells are rejected, naming the offending index. Gated to `colony`
    /// mode. A refused store ends the call with its error, keeping what was
    /// stored before it.
    pub fn assign_cells_to_zone(&mut self, zone_id: &str, cells: Vec<Json>) -> (r: Result<bool, String>)
        requires
            old(self).next_id + cells.len() < u32::MAX,
        ensures
            final(self).current_mode == old(self).current_mode,
            final(self).registry == old(self).registry,
            final(self).next_zone_id == old(self).next_zone_id,
            old(self).current_mode@ != "colony"@ ==> (r matches Err(m) && m@ == gate_message(
                "assign_cells_to_zone"@,
                old(self).current_mode@,
            )) && *final(self) == *old(self),
            old(self).current_mode@ == "colony"@ && !(exists|e: u32| old(self).is_zone_record(zone_id@, e)) ==> r == Ok::<
                bool,
                String,
            >(false) && *final(self) == *old(self),
            old(self).current_mode@ == "colony"@ && (exists|e: u32| old(self).is_zone_record(zone_id@, e)) && first_invalid_cell(
                cells@,
            ) < cells.len() ==> (r matches Err(m) && m@ == "assign_cells_to_zone: cells["@ + decimal(
                first_invalid_cell(cells@) as nat,
            ) + "] is not a valid Square/Hex cell or Region reference"@) && *final(self) == *old(self),
            old(self).current_mode@ == "colony"@ && (exists|e: u32| old(self).is_zone_record(zone_id@, e)) && first_invalid_cell(
                cells@,
            ) == cells.len() ==> ({
                let ns = cells_to_add(crate::json::items_view(&cells), old(self).member_cells(zone_id@));
                let j = first_refused_assignment(*old(self), ns, zone_id@);
                let spawned = if j < ns.len() { j + 1 } else { j };
                let base = old(self).next_id;
                &&& (r is Ok <==> j == ns.len())
                &&& (r is Ok ==> r == Ok::<bool, String>(true))
                &&& (r is Ok ==> assign_applied(*old(self), *final(self), zone_id@, crate::json::items_view(&cells)))
                &&& (r is Err ==> crate::ecs::world::err_text(r)@ == crate::ecs::loadout::set_outcome(
                    *old(self),
                    "RegionAssignment"@,
                    assignment_json(ns[j], zone_id@),
                )->Err_0)
                &&& final(self).next_id == base + spawned
                &&& final(self).entities@ == old(self).entities@ + Seq::new(spawned as nat, |k: int| (base + k) as u32)
                &&& forall|n: Seq<char>, e: u32| #[trigger] final(self).comp(n, e) == if n == "RegionAssignment"@ && base <= e < base + j {
                    Some(assignment_json(ns[e - base], zone_id@))
                } else {
                    old(self).comp(n, e)
                }
            }),
    {
        match self.zone_gate("assign_cells_to_zone") {
            Ok(()) => {},
            Err(m) => {
                return Err(m);
            },
        }
        let records = self.zone_record_entities(zone_id);
        if records.len() == 0 {
            proof {
                assert forall|e: u32| !old(self).is_zone_record(zone_id@, e) by {
                    if old(self).is_zone_record(zone_id@, e) {
                        assert(records@.contains(e));
                    }
                }
            }
            return Ok(false);
        }
        proof {
            assert(records@.contains(records@[0]));
            assert(old(self).is_zone_record(zone_id@, records@[0]));
        }
        let mut v: usize = 0;
        while v < cells.len()
            invariant
                v <= cells.len(),
                *self == *old(self),
                old(self).current_mode@ == "colony"@,
                exists|e: u32| old(self).is_zone_record(zone_id@, e),
                first_invalid_cell(cells@.subrange(0, v as int)) == v,
            decreases cells.len() - v,
        {
            assert(cells@.subrange(0, v + 1).drop_last() =~= cells@.subrange(0, v as int));
            if !is_valid_zone_cell(&cells[v]) {
                proof {
                    lemma_first_invalid_prefix(cells@, v as int);
                }
                let mut m = String::from_str("assign_cells_to_zone: cells[");
                push_decimal(&mut m, v as u64);
                m.append("] is not a valid Square/Hex cell or Region reference");
                return Err(m);
            }
            v = v + 1;
        }
        assert(cells@.subrange(0, v as int) =~= cells@);
        let members = self.zone_member_cells(zone_id);
        let ghost w0 = *self;
        let ghost cv = crate::json::items_view(&cells);
        let ghost mset = w0.member_cells(zone_id@);
        let ghost base = w0.next_id;
        let mut added: usize = 0;
        let mut i: usize = 0;
        proof {
            reveal_strlit("RegionAssignment");
        }
        assert(cv.subrange(0, 0) =~= Seq::<JsonV>::empty());
        assert(self.entities@ =~= w0.entities@ + Seq::new(0, |k: int| (base + k) as u32));
        while i < cells.len()
            invariant
                i <= cells.len(),
                w0 == *old(self),
                w0.current_mode@ == "colony"@,
                exists|e: u32| w0.is_zone_record(zone_id@, e),
                first_invalid_cell(cells@) == cells.len(),
                cv == crate::json::items_view(&cells),
                mset == w0.member_cells(zone_id@),
                forall|c: JsonV| #[trigger] crate::json::items_view(&members).contains(c) <==> mset.contains(c),
                base == w0.next_id,
                base + cells.len() < u32::MAX,
                added == cells_to_add(cv.subrange(0, i as int), mset).len(),
                added <= i,
                first_refused_assignment(w0, cells_to_add(cv.subrange(0, i as int), mset), zone_id@) == added,
                self.next_id == base + added,
                self.entities@ == w0.entities@ + Seq::new(added as nat, |k: int| (base + k) as u32),
                self.current_mode == w0.current_mode,
                self.registry == w0.registry,
                self.next_zone_id == w0.next_zone_id,
                forall|n: Seq<char>, e: u32| #[trigger] self.comp(n, e) == if n == "RegionAssignment"@ && base <= e < base + added {
                    Some(assignment_json(cells_to_add(cv.subrange(0, i as int), mset)[e - base], zone_id@))
                } else {
                    w0.comp(n, e)
                },
            decreases cells.len() - i,
        {
            let ghost pre = cells_to_add(cv.subrange(0, i as int), mset);
            assert(cv.subrange(0, i + 1).drop_last() =~= cv.subrange(0, i as int));
            assert(cv.subrange(0, i + 1).last() == cells@[i as int]@);
            if contains_json(&members, &cells[i]) {
                assert(cells_to_add(cv.subrange(0, i + 1), mset) == pre);
            } else {
                let ghost nxt = pre.push(cells@[i as int]@);
                assert(cells_to_add(cv.subrange(0, i + 1), mset) == nxt);
                assert(nxt.drop_last() =~= pre);
                let ghost before_spawn = *self;
                let id = self.spawn_entity();
                let mut en: Vec<(String, Json)> = Vec::new();
                assert(crate::json::entries_view(&en) =~= Seq::<(Seq<char>, JsonV)>::empty());
                push_entry(&mut en, "cell", cells[i].deep_clone());
                push_entry(&mut en, "region_id", Json::Str(String::from_str(zone_id)));
                let ghost env = crate::json::entries_view(&en);
                assert(env =~= seq![("cell"@, cells@[i as int]@), ("region_id"@, JsonV::Str(zone_id@))]);
                let value = Json::Object(en);
                assert(value@ == assignment_json(cells@[i as int]@, zone_id@));
                let ghost mid = *self;
                match self.set_component(id, "RegionAssignment", value) {
                    Err(e) => {
                        proof {
                            assert(crate::ecs::loadout::set_outcome(mid, "RegionAssignment"@, assignment_json(cells@[i as int]@, zone_id@))
                                == crate::ecs::loadout::set_outcome(w0, "RegionAssignment"@, assignment_json(cells@[i as int]@, zone_id@)));
                            assert(first_refused_assignment(w0, nxt, zone_id@) == added);
                            let full = cells_to_add(cv, mset);
                            lemma_cells_to_add_prefix(cv, mset, i + 1);
                            assert(full.subrange(0, added + 1) == nxt);
                            lemma_refused_assignment_sticky(w0, full, zone_id@, added + 1);
                            assert(full[added as int] == nxt[added as int]);
                            assert(self.entities@ =~= w0.entities@ + Seq::new((added + 1) as nat, |k: int| (base + k) as u32));
                            assert forall|n: Seq<char>, x: u32| #[trigger] self.comp(n, x) == if n == "RegionAssignment"@ && base <= x < base + added {
                                Some(assignment_json(full[x - base], zone_id@))
                            } else {
                                w0.comp(n, x)
                            } by {
                                assert(self.comp(n, x) == mid.comp(n, x));
                                assert(mid.comp(n, x) == before_spawn.comp(n, x));
                                if n == "RegionAssignment"@ && base <= x < base + added {
                                    assert(full[x - base] == nxt[x - base]);
                                    assert(nxt[x - base] == pre[x - base]);
                                }
                            }
                        }
                        return Err(e);
                    },
                    Ok(()) => {},
                }
                proof {
                    assert(crate::ecs::loadout::set_outcome(mid, "RegionAssignment"@, assignment_json(cells@[i as int]@, zone_id@))
                        == crate::ecs::loadout::set_outcome(w0, "RegionAssignment"@, assignment_json(cells@[i as int]@, zone_id@)));
                    assert(first_refused_assignment(w0, nxt, zone_id@) == added + 1);
                    assert(self.entities@ =~= w0.entities@ + Seq::new((added + 1) as nat, |k: int| (base + k) as u32));
                    assert forall|n: Seq<char>, x: u32| #[trigger] self.comp(n, x) == if n == "RegionAssignment"@ && base <= x < base + added + 1 {
                        Some(assignment_json(nxt[x - base], zone_id@))
                    } else {
                        w0.comp(n, x)
                    } by {
                        assert(self.comp(n, x) == if n == "RegionAssignment"@ && x == id { Some(value@) } else { mid.comp(n, x) });
                        assert(mid.comp(n, x) == before_spawn.comp(n, x));
                        if n == "RegionAssignment"@ && base <= x < base + added {
                            assert(nxt[x - base] == pre[x - base]);
                        }
                        if x == id {
                            assert(nxt[x - base] == cells@[i as int]@);
                        }
                    }
                }
                added = added + 1;
            }
            i = i + 1;
        }
        proof {
            assert(cv.subrange(0, i as int) =~= cv);
        }
        Ok(true)
    }
}

proof fn lemma_drop_zone_items_clean(items: Seq<JsonV>, zone_id: Seq<char>)
    ensures
        forall|i: int| 0 <= i < drop_zone_items(items, zone_id).len() ==> #[trigger] drop_zone_items(items, zone_id)[i].as_str() != Some(zone_id),
    decreases items.len(),
{
    if items.len() > 0 {
        lemma_drop_zone_items_clean(items.drop_last(), zone_id);
    }
}

/// Once a zone is removed, no entity carries its record, a rectangle of
/// it, or an assignment that names it.
pub proof fn law_removed_zone_leaves_no_trace<H: Fn(&Json)>(before: World<H>, after: World<H>, zone_id: Seq<char>)
    requires
        forall|n: Seq<char>, e: u32| #[trigger] after.comp(n, e) == before.after_zone_removed(zone_id, n, e),
        after.current_mode == before.current_mode,
        after.registry == before.registry,
    ensures
        forall|e: u32| !after.is_zone_record(zone_id, e) && !after.is_zone_rect(zone_id, e) && !after.assigns_zone(zone_id, e),
{
    reveal_strlit("Zone");
    reveal_strlit("ZoneRect");
    reveal_strlit("RegionAssignment");
    assert("Zone"@.len() == 4);
    assert("ZoneRect"@.len() == 8);
    assert("RegionAssignment"@.len() == 16);
    assert forall|e: u32| !after.is_zone_record(zone_id, e) && !after.is_zone_rect(zone_id, e) && !after.assigns_zone(zone_id, e) by {
        assert(after.comp("Zone"@, e) == before.after_zone_removed(zone_id, "Zone"@, e));
        assert(after.comp("ZoneRect"@, e) == before.after_zone_removed(zone_id, "ZoneRect"@, e));
        assert(after.comp("RegionAssignment"@, e) == before.after_zone_removed(zone_id, "RegionAssignment"@, e));
        if !before.zone_gone(zone_id, e) && before.assigns_zone(zone_id, e) {
            let v = before.comp("RegionAssignment"@, e).unwrap();
            match v.get("region_id"@) {
                Some(JsonV::Array(items)) => {
                    lemma_drop_zone_items_clean(items, zone_id);
                    match v {
                        JsonV::Object(en) => {
                            crate::json::lemma_entry_insert_get(en, "region_id"@, JsonV::Array(drop_zone_items(items, zone_id)), "region_id"@);
                        },
                        _ => {},
                    }
                },
                _ => {},
            }
        }
    }
}

/// Items other than the removed zone id survive its removal from an array.
proof fn lemma_drop_zone_items_keeps(items: Seq<JsonV>, zone_id: Seq<char>, other: Seq<char>)
    requires
        other != zone_id,
    ensures
        (exists|i: int| 0 <= i < items.len() && #[trigger] items[i].as_str() == Some(other)) <==> (exists|i: int|
            0 <= i < drop_zone_items(items, zone_id).len() && #[trigger] drop_zone_items(items, zone_id)[i].as_str() == Some(other)),
    decreases items.len(),
{
    if items.len() > 0 {
        let init = items.drop_last();
        lemma_drop_zone_items_keeps(init, zone_id, other);
        let d = drop_zone_items(items, zone_id);
        let di = drop_zone_items(init, zone_id);
        if exists|i: int| 0 <= i < items.len() && #[trigger] items[i].as_str() == Some(other) {
            let i = choose|i: int| 0 <= i < items.len() && #[trigger] items[i].as_str() == Some(other);
            if i == items.len() - 1 {
                assert(d[d.len() - 1].as_str() == Some(other));
            } else {
                assert(init[i].as_str() == Some(other));
                let k = choose|k: int| 0 <= k < di.len() && #[trigger] di[k].as_str() == Some(other);
                assert(d[k] == di[k]);
            }
        }
        if exists|i: int| 0 <= i < d.len() && #[trigger] d[i].as_str() == Some(other) {
            let i = choose|i: int| 0 <= i < d.len() && #[trigger] d[i].as_str() == Some(other);
            if i < di.len() {
                assert(di[i] == d[i]);
                let k = choose|k: int| 0 <= k < init.len() && #[trigger] init[k].as_str() == Some(other);
                assert(items[k] == init[k]);
            } else {
                assert(items[items.len() - 1] == items.last());
            }
        }
    }
}

/// Removing a zone leaves every other zone as it was: its record, its
/// rectangles and its assigned cells. This holds when no entity that the
/// removal despawns also carries a record, rectangle or assignment of the
/// other zone.
pub proof fn law_remove_zone_keeps_others<H: Fn(&Json)>(before: World<H>, after: World<H>, zone_id: Seq<char>, other: Seq<char>)
    requires
        forall|n: Seq<char>, e: u32| #[trigger] after.comp(n, e) == before.after_zone_removed(zone_id, n, e),
        after.current_mode == before.current_mode,
        after.registry == before.registry,
        other != zone_id,
        forall|e: u32| #[trigger] before.zone_gone(zone_id, e) ==> !before.is_zone_record(other, e)
            && !before.is_zone_rect(other, e) && !before.assigns_zone(other, e),
    ensures
        forall|e: u32| #[trigger] after.is_zone_record(other, e) == before.is_zone_record(other, e),
        forall|e: u32| before.is_zone_record(other, e) ==> #[trigger] after.comp("Zone"@, e) == before.comp("Zone"@, e),
        forall|e: u32| #[trigger] after.is_zone_rect(other, e) == before.is_zone_rect(other, e),
        forall|e: u32| before.is_zone_rect(other, e) ==> #[trigger] after.comp("ZoneRect"@, e) == before.comp("ZoneRect"@, e),
        forall|e: u32| #[trigger] after.assigns_zone(other, e) == before.assigns_zone(other, e),
        after.member_cells(other) == before.member_cells(other),
{
    reveal_strlit("Zone");
    reveal_strlit("ZoneRect");
    reveal_strlit("RegionAssignment");
    reveal_strlit("cell");
    reveal_strlit("region_id");
    assert("Zone"@.len() == 4);
    assert("ZoneRect"@.len() == 8);
    assert("RegionAssignment"@.len() == 16);
    assert("cell"@ != "region_id"@) by {
        assert("cell"@.len() != "region_id"@.len());
    }
    assert forall|e: u32| {
        &&& #[trigger] after.assigns_zone(other, e) == before.assigns_zone(other, e)
        &&& before.assigns_zone(other, e) ==> after.comp("RegionAssignment"@, e).unwrap().get("cell"@)
            == before.comp("RegionAssignment"@, e).unwrap().get("cell"@)
    } by {
        let ra = "RegionAssignment"@;
        assert(after.comp(ra, e) == before.after_zone_removed(zone_id, ra, e));
        if before.comp(ra, e) is Some {
            let v = before.comp(ra, e).unwrap();
            let gone = before.zone_gone(zone_id, e);
            if before.assigns_zone(other, e) {
                assert(!gone);
            }
            if !gone && before.assigns_zone(zone_id, e) {
                match v.get("region_id"@) {
                    Some(JsonV::Array(items)) => {
                        lemma_drop_zone_items_keeps(items, zone_id, other);
                        match v {
                            JsonV::Object(en) => {
                                let nv = JsonV::Array(drop_zone_items(items, zone_id));
                                crate::json::lemma_entry_insert_get(en, "region_id"@, nv, "region_id"@);
                                crate::json::lemma_entry_insert_get(en, "region_id"@, nv, "cell"@);
                            },
                            _ => {},
                        }
                    },
                    _ => {},
                }
            }
        }
    }
    assert forall|e: u32| #[trigger] after.is_zone_record(other, e) == before.is_zone_record(other, e)
        && (before.is_zone_record(other, e) ==> after.comp("Zone"@, e) == before.comp("Zone"@, e)) by {
        assert(after.comp("Zone"@, e) == before.after_zone_removed(zone_id, "Zone"@, e));
        if before.is_zone_record(other, e) {
            assert(!before.zone_gone(zone_id, e));
        }
    }
    assert forall|e: u32| #[trigger] after.is_zone_rect(other, e) == before.is_zone_rect(other, e)
        && (before.is_zone_rect(other, e) ==> after.comp("ZoneRect"@, e) == before.comp("ZoneRect"@, e)) by {
        assert(after.comp("ZoneRect"@, e) == before.after_zone_removed(zone_id, "ZoneRect"@, e));
        assert(after.comp("Zone"@, e) == before.after_zone_removed(zone_id, "Zone"@, e));
        if before.is_zone_rect(other, e) {
            assert(!before.zone_gone(zone_id, e));
        }
    }
    assert forall|e: u32| before.is_zone_record(other, e) implies #[trigger] after.comp("Zone"@, e) == before.comp("Zone"@, e) by {
        assert(after.is_zone_record(other, e) == before.is_zone_record(other, e));
    }
    assert forall|e: u32| before.is_zone_rect(other, e) implies #[trigger] after.comp("ZoneRect"@, e) == before.comp("ZoneRect"@, e) by {
        assert(after.is_zone_rect(other, e) == before.is_zone_rect(other, e));
    }
    assert forall|c: JsonV| #[trigger] after.member_cells(other).contains(c) == before.member_cells(other).contains(c) by {
        if after.member_cells(other).contains(c) {
            let e = choose|e: u32| #[trigger] after.assigns_zone(other, e) && after.comp("RegionAssignment"@, e).unwrap().get(
                "cell"@,
            ) == Some(c);
            assert(before.assigns_zone(other, e));
        }
        if before.member_cells(other).contains(c) {
            let e = choose|e: u32| #[trigger] before.assigns_zone(other, e) && before.comp("RegionAssignment"@, e).unwrap().get(
                "cell"@,
            ) == Some(c);
            assert(after.assigns_zone(other, e));
        }
    }
    assert(after.member_cells(other) =~= before.member_cells(other));
}

proof fn lemma_keep_live_idempotent(items: Seq<JsonV>, live: Set<Seq<char>>)
    ensures
        keep_live(keep_live(items, live), live) == keep_live(items, live),
    decreases items.len(),
{
    if items.len() > 0 {
        let init = items.drop_last();
        lemma_keep_live_idempotent(init, live);
        let k = keep_live(init, live);
        if !(items.last().as_str() matches Some(id) && zone_prefixed(id) && !live.contains(id)) {
            assert(k.push(items.last()).drop_last() =~= k);
            assert(k.push(items.last()).last() == items.last());
        }
    }
}

/// Zone validation leaves no trace of a removed zone and is a fixed point:
/// the live zones stay live, no rectangle is orphaned, no assignment is left
/// with only stale zone ids, stale ids stay only where the schema refused
/// the trimmed assignment, and a second pass changes nothing. This holds
/// when no entity that the pass despawns also carries a `Zone` record.
pub proof fn law_validate_zones_settles<H: Fn(&Json)>(before: World<H>, after: World<H>)
    requires
        forall|n: Seq<char>, e: u32| #[trigger] after.comp(n, e) == before.after_validation(n, e),
        after.current_mode == before.current_mode,
        after.registry == before.registry,
        forall|e: u32| #[trigger] before.orphan_rect(e) ==> before.comp("Zone"@, e) is None,
        forall|e: u32| #[trigger] before.stale_assignment(e) ==> before.comp("Zone"@, e) is None,
    ensures
        after.live_zones() == before.live_zones(),
        forall|e: u32| !#[trigger] after.orphan_rect(e) && !after.stale_assignment(e),
        forall|e: u32| #[trigger] after.trimmed_assignment(e) ==> !after.trimmed_passes(e),
        forall|n: Seq<char>, e: u32| #[trigger] after.after_validation(n, e) == after.comp(n, e),
{
    reveal_strlit("Zone");
    reveal_strlit("ZoneRect");
    reveal_strlit("RegionAssignment");
    let zn = "Zone"@;
    let zr = "ZoneRect"@;
    let ra = "RegionAssignment"@;
    assert(zn.len() == 4);
    assert(zr.len() == 8);
    assert(ra.len() == 16);
    let live = before.live_zones();
    assert forall|id: Seq<char>, e: u32| #[trigger] after.is_zone_record(id, e) == before.is_zone_record(id, e) by {
        assert(after.comp(zn, e) == before.after_validation(zn, e));
        if before.comp(zn, e) is Some {
            assert(!before.orphan_rect(e));
            assert(!before.stale_assignment(e));
        }
    }
    assert forall|id: Seq<char>| #[trigger] after.live_zones().contains(id) == live.contains(id) by {
        if after.live_zones().contains(id) {
            let e = choose|e: u32| #[trigger] after.is_zone_record(id, e);
            assert(before.is_zone_record(id, e));
        }
        if live.contains(id) {
            let e = choose|e: u32| #[trigger] before.is_zone_record(id, e);
            assert(after.is_zone_record(id, e));
        }
    }
    assert(after.live_zones() =~= live);
    assert forall|e: u32| {
        &&& !#[trigger] after.orphan_rect(e) && !after.stale_assignment(e)
        &&& after.trimmed_assignment(e) ==> !after.trimmed_passes(e)
        &&& forall|n: Seq<char>| #[trigger] after.after_validation(n, e) == after.comp(n, e)
    } by {
        assert(after.comp(zr, e) == before.after_validation(zr, e));
        assert(after.comp(ra, e) == before.after_validation(ra, e));
        if before.comp(ra, e) is Some && !before.orphan_rect(e) && !before.stale_assignment(e) {
            let v = before.comp(ra, e).unwrap();
            if before.allowed(ra, before.current_mode@) {
                match v.get("region_id"@) {
                    Some(JsonV::Array(items)) => {
                        lemma_keep_live_idempotent(items, live);
                        if before.trimmed_assignment(e) && before.trimmed_passes(e) {
                            match v {
                                JsonV::Object(en) => {
                                    crate::json::lemma_entry_insert_get(en, "region_id"@, JsonV::Array(keep_live(items, live)), "region_id"@);
                                },
                                _ => {},
                            }
                            assert(after.comp(ra, e) == Some(before.trimmed_value(e)));
                        } else {
                            assert(after.comp(ra, e) == Some(v));
                        }
                    },
                    _ => {
                        assert(after.comp(ra, e) == Some(v));
                    },
                }
            }
        }
        assert(!after.orphan_rect(e));
        assert(!after.stale_assignment(e));
        if after.trimmed_assignment(e) {
            assert(!before.trimmed_passes(e) || !before.trimmed_assignment(e));
            assert(after.comp(ra, e) == before.comp(ra, e));
            assert(after.trimmed_value(e) == before.trimmed_value(e));
        }
        assert forall|n: Seq<char>| #[trigger] after.after_validation(n, e) == after.comp(n, e) by {}
    }
}

} // verus!
