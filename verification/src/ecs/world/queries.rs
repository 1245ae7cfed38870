//! Entity queries: by cell, by z-level, by several components, by region
//! and by region kind, and entity counts by type.
use vstd::prelude::*;

use crate::ecs::world::zone::{contains_text, has_text, names_zone, names_zone_exec};
use crate::ecs::world::World;
use crate::json::{Json, JsonV};
use crate::map::cell_key::{position_cell, CellKey, CellKeyV};

verus! {

/// The elements of `s` that satisfy `p`, in order.
pub open spec fn keep_ids(s: Seq<u32>, p: spec_fn(u32) -> bool) -> Seq<u32>
    decreases s.len(),
{
    if s.len() == 0 {
        s
    } else if p(s.last()) {
        keep_ids(s.drop_last(), p).push(s.last())
    } else {
        keep_ids(s.drop_last(), p)
    }
}

/// No element occurs twice.
pub open spec fn distinct_ids(s: Seq<u32>) -> bool {
    forall|a: int, b: int| 0 <= a < s.len() && 0 <= b < s.len() && a != b ==> s[a] != s[b]
}

/// Whether a position value lies on z-level `z`: its `pos` object holds a
/// `Square` (else a `Hex`) entry whose integer `z`, truncated to `i32`, is
/// `z`.
pub open spec fn on_zlevel(p: JsonV, z: i32) -> bool {
    match p.get("pos"@) {
        Some(JsonV::Object(o)) => match JsonV::Object(o).get("Square"@) {
            Some(sq) => match sq.int_at("z"@) {
                Some(v) => v as i32 == z,
                None => false,
            },
            None => match JsonV::Object(o).get("Hex"@) {
                Some(h) => match h.int_at("z"@) {
                    Some(v) => v as i32 == z,
                    None => false,
                },
                None => false,
            },
        },
        _ => false,
    }
}

/// A position held under `pos` lies on z-level `z` exactly when the cell it
/// names is a square or hex cell of that level; province positions lie on
/// no level.
pub proof fn law_zlevel_follows_position_cell(p: JsonV, z: i32)
    requires
        p.get("pos"@) matches Some(JsonV::Object(_)),
        crate::map::cell_key::position_cell(p) is Some,
    ensures
        on_zlevel(p, z) <==> match crate::map::cell_key::position_cell(p)->Some_0 {
            crate::map::cell_key::CellKeyV::Square { z: zz, .. } => zz == z,
            crate::map::cell_key::CellKeyV::Hex { z: zz, .. } => zz == z,
            crate::map::cell_key::CellKeyV::Province { .. } => false,
        },
{
}

/// Whether a region value names one of the zone ids in `zones`.
pub open spec fn names_some_zone(id: Option<JsonV>, zones: Set<Seq<char>>) -> bool {
    match id {
        Some(JsonV::Str(s)) => zones.contains(s),
        Some(JsonV::Array(items)) => exists|i: int| 0 <= i < items.len() && (#[trigger] items[i].as_str() matches Some(s) && zones.contains(s)),
        _ => false,
    }
}

impl<H: Fn(&Json)> World<H> {
    /// Whether `e` occupies `cell`: its position names the cell, and for a
    /// province cell it also carries a `Building` or `ConstructionSite`.
    pub open spec fn in_cell(self, e: u32, cell: CellKeyV) -> bool {
        &&& self.gated("Position"@, e) matches Some(p) && position_cell(p) == Some(cell)
        &&& (cell is Province ==> self.comp("Building"@, e) is Some || self.comp("ConstructionSite"@, e) is Some)
    }

    /// Whether component `n` is counted by a multi-component query: allowed
    /// in the current mode and stored for some entity at some time.
    pub open spec fn counted(self, n: Seq<char>) -> bool {
        self.allowed(n, self.current_mode@) && self.components@.contains_key(n)
    }

    /// Ids of the zones of the given kind.
    pub open spec fn zones_of_kind(self, kind: Seq<char>) -> Set<Seq<char>> {
        Set::new(|id: Seq<char>| exists|e: u32| #[trigger] self.gated("Zone"@, e) matches Some(v) && v.str_at("kind"@) == Some(kind)
            && v.str_at("id"@) == Some(id))
    }

    /// Whether `e` belongs to a region of the given kind: its `Region`
    /// names the kind, or its id names a zone of that kind.
    pub open spec fn in_region_kind(self, e: u32, kind: Seq<char>) -> bool {
        self.gated("Region"@, e) matches Some(v) && (v.str_at("kind"@) == Some(kind) || names_some_zone(
            v.get("id"@),
            self.zones_of_kind(kind),
        ))
    }

    /// Whether `e` carries a `Type` of the given kind.
    pub open spec fn of_type(self, e: u32, kind: Seq<char>) -> bool {
        self.gated("Type"@, e) matches Some(v) && v.str_at("kind"@) == Some(kind)
    }

    fn entity_in_cell(&self, e: u32, cell: &CellKey) -> (r: bool)
        ensures
            r == self.in_cell(e, cell@),
    {
        match self.get_component(e, "Position") {
            Some(v) => match CellKey::from_position(v) {
                Some(k) => {
                    if k.same(cell) {
                        if cell.is_province() {
                            self.has_component(e, "Building") || self.has_component(e, "ConstructionSite")
                        } else {
                            true
                        }
                    } else {
                        false
                    }
                },
                None => false,
            },
            None => false,
        }
    }

    /// All entity ids in the given cell, in entity order.
    ///
    /// Square and hex positions match by their exact coordinates. Province
    /// cells hold at most their buildings: only entities carrying a
    /// `Building` or `ConstructionSite` count as occupants.
    pub fn entities_in_cell(&self, cell: &CellKey) -> (r: Vec<u32>)
        ensures
            r@ == keep_ids(self.entities@, |e: u32| self.in_cell(e, cell@)),
    {
        let ghost p = |e: u32| self.in_cell(e, cell@);
        let mut out: Vec<u32> = Vec::new();
        let mut i: usize = 0;
        assert(self.entities@.subrange(0, 0) =~= Seq::<u32>::empty());
        while i < self.entities.len()
            invariant
                i <= self.entities.len(),
                p == (|e: u32| self.in_cell(e, cell@)),
                out@ == keep_ids(self.entities@.subrange(0, i as int), p),
            decreases self.entities.len() - i,
        {
            assert(self.entities@.subrange(0, i + 1).drop_last() =~= self.entities@.subrange(0, i as int));
            let e = self.entities[i];
            if self.entity_in_cell(e, cell) {
                out.push(e);
            }
            i = i + 1;
        }
        assert(self.entities@.subrange(0, i as int) =~= self.entities@);
        out
    }

    fn entity_on_zlevel(&self, e: u32, z: i32) -> (r: bool)
        ensures
            r == (self.gated("Position"@, e) matches Some(p) && on_zlevel(p, z)),
    {
        let p = match self.get_component(e, "Position") {
            Some(v) => v,
            None => {
                return false;
            },
        };
        let pos = match p.get("pos") {
            Some(pos) => pos,
            None => {
                return false;
            },
        };
        if !pos.is_object() {
            return false;
        }
        match pos.get("Square") {
            Some(sq) => match sq.get_i64("z") {
                Some(v) => v as i32 == z,
                None => false,
            },
            None => match pos.get("Hex") {
                Some(h) => match h.get_i64("z") {
                    Some(v) => v as i32 == z,
                    None => false,
                },
                None => false,
            },
        }
    }

    /// All entity ids on z-level `z`, in entity order: square and hex
    /// positions (under `pos`) whose `z` matches; province positions and
    /// entities without a position never match.
    pub fn entities_in_zlevel(&self, z: i32) -> (r: Vec<u32>)
        ensures
            r@ == keep_ids(self.entities@, |e: u32| self.gated("Position"@, e) matches Some(p) && on_zlevel(p, z)),
    {
        let ghost p = |e: u32| self.gated("Position"@, e) matches Some(p) && on_zlevel(p, z);
        let mut out: Vec<u32> = Vec::new();
        let mut i: usize = 0;
        assert(self.entities@.subrange(0, 0) =~= Seq::<u32>::empty());
        while i < self.entities.len()
            invariant
                i <= self.entities.len(),
                p == (|e: u32| self.gated("Position"@, e) matches Some(p) && on_zlevel(p, z)),
                out@ == keep_ids(self.entities@.subrange(0, i as int), p),
            decreases self.entities.len() - i,
        {
            assert(self.entities@.subrange(0, i + 1).drop_last() =~= self.entities@.subrange(0, i as int));
            let e = self.entities[i];
            if self.entity_on_zlevel(e, z) {
                out.push(e);
            }
            i = i + 1;
        }
        assert(self.entities@.subrange(0, i as int) =~= self.entities@);
        out
    }

    fn counted_exec(&self, name: &str) -> (r: bool)
        ensures
            r == self.counted(name@),
    {
        self.is_component_allowed_in_mode(name, self.current_mode.as_str()) && self.components.contains_key(
            &String::from_str(name),
        )
    }

    /// Entities carrying every named component. With no names, all
    /// entities. Names not allowed in the current mode, or never stored,
    /// are ignored; when every name is ignored the result is empty. Each id
    /// occurs once; the order is not specified.
    pub fn get_entities_with_components(&self, names: &[&str]) -> (r: Vec<u32>)
        ensures
            names@.len() == 0 ==> r@ == self.entities@,
            names@.len() > 0 ==> {
                &&& distinct_ids(r@)
                &&& forall|e: u32| #[trigger] r@.contains(e) <==> (exists|i: int| 0 <= i < names@.len() && self.counted(
                    #[trigger] names@[i]@,
                )) && (forall|i: int| 0 <= i < names@.len() && #[trigger] self.counted(names@[i]@) ==> self.comp(names@[i]@, e) is Some)
            },
    {
        if names.len() == 0 {
            return self.entities.clone();
        }
        let mut first: usize = names.len();
        let mut j0: usize = 0;
        while j0 < names.len()
            invariant
                j0 <= names@.len(),
                first == names@.len() ==> forall|j: int| 0 <= j < j0 ==> !self.counted(#[trigger] names@[j]@),
                first < names@.len() ==> first < j0 && self.counted(names@[first as int]@),
                first <= names@.len(),
            decreases names.len() - j0,
        {
            if first == names.len() && self.counted_exec(names[j0]) {
                first = j0;
            }
            j0 = j0 + 1;
        }
        if first == names.len() {
            return Vec::new();
        }
        let keys = match self.components.get(&String::from_str(names[first])) {
            Some(table) => table.keys(),
            None => {
                return Vec::new();
            },
        };
        let ghost n0 = names@[first as int]@;
        let mut out: Vec<u32> = Vec::new();
        let mut i: usize = 0;
        while i < keys.len()
            invariant
                i <= keys.len(),
                first < names@.len(),
                self.counted(names@[first as int]@),
                n0 == names@[first as int]@,
                forall|k: int| 0 <= k < keys@.len() ==> self.comp(n0, #[trigger] keys@[k]) is Some,
                forall|e: u32| self.comp(n0, e) is Some ==> keys@.contains(e),
                forall|a: int, b: int| 0 <= a < keys@.len() && 0 <= b < keys@.len() && a != b ==> keys@[a] != keys@[b],
                distinct_ids(out@),
                forall|e: u32| #[trigger] out@.contains(e) <==> (exists|k: int| 0 <= k < i && keys@[k] == e) && (forall|j: int|
                    0 <= j < names@.len() && #[trigger] self.counted(names@[j]@) ==> self.comp(names@[j]@, e) is Some),
            decreases keys.len() - i,
        {
            let e = keys[i];
            let mut all = true;
            let mut j: usize = 0;
            while j < names.len()
                invariant
                    j <= names@.len(),
                    all <==> forall|jj: int| 0 <= jj < j && #[trigger] self.counted(names@[jj]@) ==> self.comp(names@[jj]@, e) is Some,
                decreases names.len() - j,
            {
                if self.counted_exec(names[j]) && !self.has_component(e, names[j]) {
                    all = false;
                }
                j = j + 1;
            }
            let ghost before = out@;
            if all {
                out.push(e);
                proof {
                    assert forall|a: int, b: int| 0 <= a < out@.len() && 0 <= b < out@.len() && a != b implies out@[a] != out@[b] by {
                        if a < before.len() && b < before.len() {
                        } else if a == before.len() {
                            if before.contains(out@[b]) {
                                let k = choose|k: int| 0 <= k < i && keys@[k] == out@[b];
                                assert(keys@[k] != keys@[i as int]);
                            }
                        } else {
                            if before.contains(out@[a]) {
                                let k = choose|k: int| 0 <= k < i && keys@[k] == out@[a];
                                assert(keys@[k] != keys@[i as int]);
                            }
                        }
                    }
                }
            }
            proof {
                assert forall|x: u32| #[trigger] out@.contains(x) <==> (exists|k: int| 0 <= k < i + 1 && keys@[k] == x) && (forall|jj: int|
                    0 <= jj < names@.len() && #[trigger] self.counted(names@[jj]@) ==> self.comp(names@[jj]@, x) is Some) by {
                    if out@.contains(x) && x != e {
                        assert(before.contains(x)) by {
                            let t = choose|t: int| 0 <= t < out@.len() && out@[t] == x;
                            if t == before.len() {
                                assert(x == e);
                            } else {
                                assert(before[t] == x);
                            }
                        }
                    }
                    if x == e && all {
                        assert(out@[before.len() as int] == e);
                    }
                    if (exists|k: int| 0 <= k < i + 1 && keys@[k] == x) && x != e {
                        let k = choose|k: int| 0 <= k < i + 1 && keys@[k] == x;
                        assert(k < i);
                    }
                    if before.contains(x) {
                        let t = choose|t: int| 0 <= t < before.len() && before[t] == x;
                        assert(out@[t] == x);
                    }
                    if x == e {
                        assert(keys@[i as int] == x);
                    }
                }
            }
            i = i + 1;
        }
        proof {
            assert forall|x: u32| #[trigger] out@.contains(x) <==> (exists|k: int| 0 <= k < names@.len() && self.counted(
                #[trigger] names@[k]@,
            )) && (forall|jj: int| 0 <= jj < names@.len() && #[trigger] self.counted(names@[jj]@) ==> self.comp(names@[jj]@, x) is Some) by {
                if (forall|jj: int| 0 <= jj < names@.len() && #[trigger] self.counted(names@[jj]@) ==> self.comp(names@[jj]@, x) is Some) {
                    assert(self.counted(names@[first as int]@));
                    assert(self.comp(n0, x) is Some);
                    assert(keys@.contains(x));
                }
            }
        }
        out
    }

    /// Entities assigned to the region: their `Region.id` is the region id
    /// or an array holding it. Each id occurs once; the order is not
    /// specified.
    pub fn entities_in_region(&self, region_id: &str) -> (r: Vec<u32>)
        ensures
            distinct_ids(r@),
            forall|e: u32| #[trigger] r@.contains(e) <==> (self.gated("Region"@, e) matches Some(v) && names_zone(v.get("id"@), region_id@)),
    {
        let ids = self.get_entities_with_component("Region");
        let mut out: Vec<u32> = Vec::new();
        let mut i: usize = 0;
        while i < ids.len()
            invariant
                i <= ids.len(),
                !self.allowed("Region"@, self.current_mode@) ==> ids@.len() == 0,
                self.allowed("Region"@, self.current_mode@) ==> forall|e: u32| #[trigger] self.comp("Region"@, e) is Some ==> ids@.contains(e),
                distinct_ids(ids@),
                distinct_ids(out@),
                forall|e: u32| #[trigger] out@.contains(e) <==> (exists|k: int| 0 <= k < i && ids@[k] == e) && (self.gated("Region"@, e) matches Some(v)
                    && names_zone(v.get("id"@), region_id@)),
            decreases ids.len() - i,
        {
            let e = ids[i];
            let keep = match self.get_component(e, "Region") {
                Some(v) => names_zone_exec(v.get("id"), region_id),
                None => false,
            };
            let ghost before = out@;
            if keep {
                out.push(e);
            }
            proof {
                lemma_push_distinct(before, out@, ids@, i as int, keep);
                assert forall|x: u32| #[trigger] out@.contains(x) <==> (exists|k: int| 0 <= k < i + 1 && ids@[k] == x) && (self.gated(
                    "Region"@,
                    x,
                ) matches Some(v) && names_zone(v.get("id"@), region_id@)) by {
                    lemma_push_contains(before, out@, ids@, i as int, keep, x);
                }
            }
            i = i + 1;
        }
        proof {
            assert forall|x: u32| #[trigger] out@.contains(x) <==> (self.gated("Region"@, x) matches Some(v) && names_zone(v.get("id"@), region_id@)) by {
                if self.gated("Region"@, x) is Some {
                    assert(ids@.contains(x));
                }
            }
        }
        out
    }

    /// The id of `e`'s zone record when the zone is of the given kind.
    fn zone_id_if_kind(&self, e: u32, kind: &str) -> (r: Option<&str>)
        ensures
            r matches Some(id) ==> (self.gated("Zone"@, e) matches Some(v) && v.str_at("kind"@) == Some(kind@) && v.str_at("id"@)
                == Some(id@)),
            r is None ==> !(self.gated("Zone"@, e) matches Some(v) && v.str_at("kind"@) == Some(kind@) && v.str_at("id"@) is Some),
    {
        match self.get_component(e, "Zone") {
            Some(v) => match (v.get_str("kind"), v.get_str("id")) {
                (Some(k), Some(id)) => {
                    if crate::json::str_eq(k, kind) {
                        Some(id)
                    } else {
                        None
                    }
                },
                _ => None,
            },
            None => None,
        }
    }

    /// Ids of the zones of the given kind, read from their records.
    fn zone_ids_of_kind(&self, kind: &str) -> (r: Vec<String>)
        ensures
            forall|id: Seq<char>| #[trigger] has_text(r@, id) <==> self.zones_of_kind(kind@).contains(id),
    {
        let ids = self.get_entities_with_component("Zone");
        let mut out: Vec<String> = Vec::new();
        let mut i: usize = 0;
        while i < ids.len()
            invariant
                i <= ids.len(),
                !self.allowed("Zone"@, self.current_mode@) ==> ids@.len() == 0,
                self.allowed("Zone"@, self.current_mode@) ==> forall|e: u32| #[trigger] self.comp("Zone"@, e) is Some ==> ids@.contains(e),
                forall|id: Seq<char>| #[trigger] has_text(out@, id) <==> exists|k: int| 0 <= k < i && (#[trigger] self.gated("Zone"@, ids@[k]) matches Some(v)
                    && v.str_at("kind"@) == Some(kind@) && v.str_at("id"@) == Some(id)),
            decreases ids.len() - i,
        {
            let e = ids[i];
            let ghost before = out@;
            match self.zone_id_if_kind(e, kind) {
                Some(id) => {
                    out.push(String::from_str(id));
                    proof {
                        assert forall|x: Seq<char>| #[trigger] has_text(out@, x) <==> (has_text(before, x) || x == id@) by {
                            if has_text(out@, x) {
                                let t = choose|t: int| 0 <= t < out@.len() && #[trigger] out@[t]@ == x;
                                if t < before.len() {
                                    assert(before[t]@ == x);
                                }
                            }
                            if has_text(before, x) {
                                let t = choose|t: int| 0 <= t < before.len() && #[trigger] before[t]@ == x;
                                assert(out@[t]@ == x);
                            }
                            if x == id@ {
                                assert(out@[before.len() as int]@ == x);
                            }
                        }
                    }
                },
                None => {},
            }
            proof {
                assert forall|x: Seq<char>| #[trigger] has_text(out@, x) <==> exists|k: int| 0 <= k < i + 1 && (#[trigger] self.gated(
                    "Zone"@,
                    ids@[k],
                ) matches Some(v) && v.str_at("kind"@) == Some(kind@) && v.str_at("id"@) == Some(x)) by {
                    if exists|k: int| 0 <= k < i + 1 && (#[trigger] self.gated("Zone"@, ids@[k]) matches Some(v) && v.str_at("kind"@)
                        == Some(kind@) && v.str_at("id"@) == Some(x)) {
                        let k = choose|k: int| 0 <= k < i + 1 && (#[trigger] self.gated("Zone"@, ids@[k]) matches Some(v)
                            && v.str_at("kind"@) == Some(kind@) && v.str_at("id"@) == Some(x));
                        if k < i {
                            assert(exists|k2: int| 0 <= k2 < i && (#[trigger] self.gated("Zone"@, ids@[k2]) matches Some(v)
                                && v.str_at("kind"@) == Some(kind@) && v.str_at("id"@) == Some(x)));
                        }
                    }
                    if exists|k: int| 0 <= k < i && (#[trigger] self.gated("Zone"@, ids@[k]) matches Some(v) && v.str_at("kind"@)
                        == Some(kind@) && v.str_at("id"@) == Some(x)) {
                        let k = choose|k: int| 0 <= k < i && (#[trigger] self.gated("Zone"@, ids@[k]) matches Some(v)
                            && v.str_at("kind"@) == Some(kind@) && v.str_at("id"@) == Some(x));
                        assert(0 <= k < i + 1);
                    }
                }
            }
            i = i + 1;
        }
        proof {
            assert forall|id: Seq<char>| #[trigger] has_text(out@, id) <==> self.zones_of_kind(kind@).contains(id) by {
                if self.zones_of_kind(kind@).contains(id) {
                    let e = choose|e: u32| #[trigger] self.gated("Zone"@, e) matches Some(v) && v.str_at("kind"@) == Some(kind@)
                        && v.str_at("id"@) == Some(id);
                    assert(ids@.contains(e));
                    let k = choose|k: int| 0 <= k < ids@.len() && ids@[k] == e;
                    assert(self.gated("Zone"@, ids@[k]) matches Some(v) && v.str_at("kind"@) == Some(kind@) && v.str_at("id"@) == Some(id));
                }
            }
        }
        out
    }

    /// Entities assigned to regions of the given kind: their `Region.kind`
    /// is the kind, or their `Region.id` (a string or an array of them)
    /// names a zone of that kind. Each id occurs once; the order is not
    /// specified.
    pub fn entities_in_region_kind(&self, kind: &str) -> (r: Vec<u32>)
        ensures
            distinct_ids(r@),
            forall|e: u32| #[trigger] r@.contains(e) <==> self.in_region_kind(e, kind@),
    {
        let zone_ids = self.zone_ids_of_kind(kind);
        let ids = self.get_entities_with_component("Region");
        let mut out: Vec<u32> = Vec::new();
        let mut i: usize = 0;
        while i < ids.len()
            invariant
                i <= ids.len(),
                forall|id: Seq<char>| #[trigger] has_text(zone_ids@, id) <==> self.zones_of_kind(kind@).contains(id),
                !self.allowed("Region"@, self.current_mode@) ==> ids@.len() == 0,
                self.allowed("Region"@, self.current_mode@) ==> forall|e: u32| #[trigger] self.comp("Region"@, e) is Some ==> ids@.contains(e),
                distinct_ids(ids@),
                distinct_ids(out@),
                forall|e: u32| #[trigger] out@.contains(e) <==> (exists|k: int| 0 <= k < i && ids@[k] == e) && self.in_region_kind(e, kind@),
            decreases ids.len() - i,
        {
            let e = ids[i];
            let keep = match self.get_component(e, "Region") {
                Some(v) => {
                    let by_kind = match v.get_str("kind") {
                        Some(k) => crate::json::str_eq(k, kind),
                        None => false,
                    };
                    by_kind || names_listed_zone(v.get("id"), &zone_ids)
                },
                None => false,
            };
            let ghost before = out@;
            if keep {
                out.push(e);
            }
            proof {
                lemma_push_distinct(before, out@, ids@, i as int, keep);
                assert forall|x: u32| #[trigger] out@.contains(x) <==> (exists|k: int| 0 <= k < i + 1 && ids@[k] == x) && self.in_region_kind(x, kind@) by {
                    lemma_push_contains(before, out@, ids@, i as int, keep, x);
                }
            }
            i = i + 1;
        }
        proof {
            assert forall|x: u32| #[trigger] out@.contains(x) <==> self.in_region_kind(x, kind@) by {
                if self.gated("Region"@, x) is Some {
                    assert(ids@.contains(x));
                }
            }
        }
        out
    }

    /// The number of entities whose `Type.kind` is `type_str`.
    pub fn count_entities_with_type(&self, type_str: &str) -> (r: usize)
        ensures
            r == Set::new(|e: u32| self.of_type(e, type_str@)).len(),
    {
        let ids = self.get_entities_with_component("Type");
        let mut count: usize = 0;
        let ghost mut seen: Set<u32> = Set::empty();
        let mut i: usize = 0;
        while i < ids.len()
            invariant
                i <= ids.len(),
                !self.allowed("Type"@, self.current_mode@) ==> ids@.len() == 0,
                self.allowed("Type"@, self.current_mode@) ==> forall|e: u32| #[trigger] self.comp("Type"@, e) is Some ==> ids@.contains(e),
                distinct_ids(ids@),
                seen.finite(),
                count == seen.len(),
                count <= i,
                forall|e: u32| #[trigger] seen.contains(e) <==> (exists|k: int| 0 <= k < i && ids@[k] == e) && self.of_type(e, type_str@),
            decreases ids.len() - i,
        {
            let e = ids[i];
            let hit = match self.get_component(e, "Type") {
                Some(v) => match v.get_str("kind") {
                    Some(k) => crate::json::str_eq(k, type_str),
                    None => false,
                },
                None => false,
            };
            if hit {
                proof {
                    if seen.contains(e) {
                        let k = choose|k: int| 0 <= k < i && ids@[k] == e;
                        assert(ids@[k] != ids@[i as int]);
                    }
                    seen = seen.insert(e);
                }
                count = count + 1;
            }
            proof {
                assert forall|x: u32| #[trigger] seen.contains(x) <==> (exists|k: int| 0 <= k < i + 1 && ids@[k] == x) && self.of_type(x, type_str@) by {
                    if x == e {
                        assert(ids@[i as int] == x);
                    }
                    if (exists|k: int| 0 <= k < i + 1 && ids@[k] == x) && x != e {
                        let k = choose|k: int| 0 <= k < i + 1 && ids@[k] == x;
                        assert(k < i);
                    }
                }
            }
            i = i + 1;
        }
        proof {
            assert(seen =~= Set::new(|e: u32| self.of_type(e, type_str@))) by {
                assert forall|x: u32| self.of_type(x, type_str@) implies seen.contains(x) by {
                    assert(ids@.contains(x));
                }
            }
        }
        count
    }
}

/// Whether a region value names one of the listed zone ids (see
/// [`names_some_zone`]).
fn names_listed_zone(id: Option<&Json>, zones: &Vec<String>) -> (r: bool)
    ensures
        r == names_some_zone(match id {
            Some(v) => Some(v@),
            None => None,
        }, Set::new(|s: Seq<char>| has_text(zones@, s))),
{
    match id {
        Some(Json::Str(s)) => contains_text(zones, s.as_str()),
        Some(Json::Array(items)) => {
            let mut i: usize = 0;
            while i < items.len()
                invariant
                    i <= items.len(),
                    (match id {
                        Some(v) => Some(v@),
                        None => None,
                    }) == Some(JsonV::Array(crate::json::items_view(items))),
                    forall|k: int| 0 <= k < i ==> !(#[trigger] items@[k]@.as_str() matches Some(s) && has_text(zones@, s)),
                decreases items.len() - i,
            {
                match items[i].as_str() {
                    Some(s) => {
                        if contains_text(zones, s) {
                            proof {
                                assert(crate::json::items_view(items)[i as int] == items@[i as int]@);
                                assert(Set::new(|t: Seq<char>| has_text(zones@, t)).contains(s@));
                                assert(crate::json::items_view(items)[i as int].as_str() == Some(s@));
                                let iv = crate::json::items_view(items);
                                assert(iv[i as int].as_str() matches Some(t) && Set::new(|t: Seq<char>| has_text(zones@, t)).contains(t));
                                assert(names_some_zone(Some(JsonV::Array(iv)), Set::new(|t: Seq<char>| has_text(zones@, t))));
                                assert((match id {
                                    Some(v) => Some(v@),
                                    None => None,
                                }) == Some(JsonV::Array(iv)));
                            }
                            return true;
                        }
                    },
                    None => {},
                }
                i = i + 1;
            }
            proof {
                assert forall|k: int| 0 <= k < crate::json::items_view(items).len() implies !(#[trigger] crate::json::items_view(items)[k].as_str() matches Some(s)
                    && Set::new(|s: Seq<char>| has_text(zones@, s)).contains(s)) by {
                    assert(crate::json::items_view(items)[k] == items@[k]@);
                }
            }
            false
        },
        _ => false,
    }
}

proof fn lemma_push_distinct(before: Seq<u32>, after: Seq<u32>, ids: Seq<u32>, i: int, pushed: bool)
    requires
        0 <= i < ids.len(),
        distinct_ids(ids),
        distinct_ids(before),
        forall|x: u32| #[trigger] before.contains(x) ==> exists|k: int| 0 <= k < i && ids[k] == x,
        pushed ==> after == before.push(ids[i]),
        !pushed ==> after == before,
    ensures
        distinct_ids(after),
{
    if pushed {
        assert forall|a: int, b: int| 0 <= a < after.len() && 0 <= b < after.len() && a != b implies after[a] != after[b] by {
            if a == before.len() && before.contains(after[b]) {
                let k = choose|k: int| 0 <= k < i && ids[k] == after[b];
                assert(ids[k] != ids[i]);
            }
            if b == before.len() && before.contains(after[a]) {
                let k = choose|k: int| 0 <= k < i && ids[k] == after[a];
                assert(ids[k] != ids[i]);
            }
            if a == before.len() {
                assert(before.contains(after[b]) || b == before.len()) by {
                    if b < before.len() {
                        assert(before[b] == after[b]);
                    }
                }
            }
            if b == before.len() {
                assert(before.contains(after[a]) || a == before.len()) by {
                    if a < before.len() {
                        assert(before[a] == after[a]);
                    }
                }
            }
        }
    }
}

proof fn lemma_push_contains(before: Seq<u32>, after: Seq<u32>, ids: Seq<u32>, i: int, pushed: bool, x: u32)
    requires
        0 <= i < ids.len(),
        pushed ==> after == before.push(ids[i]),
        !pushed ==> after == before,
    ensures
        after.contains(x) <==> (before.contains(x) || (pushed && x == ids[i])),
        (exists|k: int| 0 <= k < i + 1 && ids[k] == x) <==> ((exists|k: int| 0 <= k < i && ids[k] == x) || x == ids[i]),
{
    if pushed {
        if after.contains(x) {
            let t = choose|t: int| 0 <= t < after.len() && after[t] == x;
            if t < before.len() {
                assert(before[t] == x);
            }
        }
        if before.contains(x) {
            let t = choose|t: int| 0 <= t < before.len() && before[t] == x;
            assert(after[t] == x);
        }
        if x == ids[i] {
            assert(after[before.len() as int] == x);
        }
    }
    if exists|k: int| 0 <= k < i + 1 && ids[k] == x {
        let k = choose|k: int| 0 <= k < i + 1 && ids[k] == x;
        if k < i {
            assert(exists|k2: int| 0 <= k2 < i && ids[k2] == x);
        }
    }
    if x == ids[i] {
        assert(ids[i] == x);
    }
    if exists|k: int| 0 <= k < i && ids[k] == x {
        let k = choose|k: int| 0 <= k < i && ids[k] == x;
        assert(0 <= k < i + 1 && ids[k] == x);
    }
}

} // verus!
