//! The cells of a region: the cells assigned to it, the cells of the zone
//! rectangles under its id, and the cells of the regions it refers to.
//!
//! A `RegionAssignment` whose `region_id` (a string or an array of strings)
//! names a region assigns its `cell` to that region; a cell of the form
//! `{"Region": {"id": b}}` refers to region `b` instead. A `ZoneRect` whose
//! `zone_id` is the region id covers the square cells `x0..=x1` by
//! `y0..=y1` at level `z`.
use vstd::prelude::*;

use crate::ecs::world::zone::{contains_json, contains_text, has_text, names_zone, names_zone_exec};
use crate::ecs::world::{or_null, World};
use crate::wasm_map::{seq_le, str_le};
use crate::json_text::{json_text, json_to_text};
use crate::json::{items_view, push_entry, Json, JsonV};

verus! {

/// The region a cell refers to, when it has the form `{"Region": {"id": b}}`.
pub open spec fn region_ref(cell: JsonV) -> Option<Seq<char>> {
    match cell.get("Region"@) {
        Some(r) => r.str_at("id"@),
        None => None,
    }
}

/// The square cell value `{"Square": {"x": x, "y": y, "z": z}}`.
pub open spec fn square_cell(x: i64, y: i64, z: i64) -> JsonV {
    JsonV::Object(seq![(
        "Square"@,
        JsonV::Object(seq![("x"@, JsonV::Int(x)), ("y"@, JsonV::Int(y)), ("z"@, JsonV::Int(z))]),
    )])
}

/// Whether `c` is a square cell of the rectangle `x0..=x1` by `y0..=y1` at
/// level `z`.
pub open spec fn in_rect(c: JsonV, x0: i64, y0: i64, z: i64, x1: i64, y1: i64) -> bool {
    exists|x: i64, y: i64| x0 <= x <= x1 && y0 <= y <= y1 && c == #[trigger] square_cell(x, y, z)
}

/// The region ids whose strings appear in `v`, as a set.
pub open spec fn text_set(v: Seq<String>) -> Set<Seq<char>> {
    Set::new(|t: Seq<char>| has_text(v, t))
}

impl<H: Fn(&Json)> World<H> {
    /// The `cell` of the `RegionAssignment` of `e`, as reads see it.
    pub open spec fn assignment_cell(self, e: u32) -> Option<JsonV> {
        match self.gated("RegionAssignment"@, e) {
            Some(v) => v.get("cell"@),
            None => None,
        }
    }

    /// The region the assignment of `e` refers to, if its cell is a
    /// reference.
    pub open spec fn assignment_ref(self, e: u32) -> Option<Seq<char>> {
        match self.assignment_cell(e) {
            Some(c) => region_ref(c),
            None => None,
        }
    }

    /// Whether region `a` refers to region `b`: an assignment to `a` holds
    /// the cell `{"Region": {"id": b}}`.
    pub open spec fn refers(self, a: Seq<char>, b: Seq<char>) -> bool {
        exists|e: u32| #[trigger] self.assigns_zone(a, e) && self.assignment_ref(e) == Some(b)
    }

    /// Whether `c` is a cell (not a region reference) assigned to region `a`.
    pub open spec fn explicit_cell(self, a: Seq<char>, c: JsonV) -> bool {
        exists|e: u32| #[trigger] self.assigns_zone(a, e) && self.assignment_cell(e) == Some(c) && region_ref(c) is None
    }

    /// The bounds `(x0, y0, z, x1, y1)` of the `ZoneRect` of `e`, when it
    /// belongs to region `a` and has all five integers.
    pub open spec fn rect_bounds(self, a: Seq<char>, e: u32) -> Option<(i64, i64, i64, i64, i64)> {
        match self.gated("ZoneRect"@, e) {
            Some(v) => if v.str_at("zone_id"@) == Some(a) && v.int_at("x0"@) is Some && v.int_at("y0"@) is Some
                && v.int_at("z"@) is Some && v.int_at("x1"@) is Some && v.int_at("y1"@) is Some {
                Some((v.int_at("x0"@).unwrap(), v.int_at("y0"@).unwrap(), v.int_at("z"@).unwrap(), v.int_at("x1"@).unwrap(), v.int_at("y1"@).unwrap()))
            } else {
                None
            },
            None => None,
        }
    }

    /// Whether `c` is a square cell of the `ZoneRect` of `e` for region `a`.
    pub open spec fn rect_of(self, a: Seq<char>, e: u32, c: JsonV) -> bool {
        match self.rect_bounds(a, e) {
            Some((x0, y0, z, x1, y1)) => in_rect(c, x0, y0, z, x1, y1),
            None => false,
        }
    }

    /// Whether `c` is a cell of region `a` itself: assigned to it, or in one
    /// of its rectangles.
    pub open spec fn own_cell(self, a: Seq<char>, c: JsonV) -> bool {
        ||| self.explicit_cell(a, c)
        ||| exists|e: u32| #[trigger] self.rect_of(a, e, c)
    }

    /// Step `i` of the sequence `p` is a reference.
    pub open spec fn path_step(self, p: Seq<Seq<char>>, i: int) -> bool {
        self.refers(p[i], p[i + 1])
    }

    /// Whether `p` is a chain of references.
    pub open spec fn ref_path(self, p: Seq<Seq<char>>) -> bool {
        &&& p.len() >= 1
        &&& forall|i: int| 0 <= i < p.len() - 1 ==> #[trigger] self.path_step(p, i)
    }

    /// Whether region `b` is `a` or reached from it by references.
    pub open spec fn reaches(self, a: Seq<char>, b: Seq<char>) -> bool {
        exists|p: Seq<Seq<char>>| #[trigger] self.ref_path(p) && p[0] == a && p.last() == b
    }

    /// Whether region `a` is reached from one of the strings of `roots`.
    pub open spec fn reached_from(self, roots: Seq<String>, a: Seq<char>) -> bool {
        exists|r: Seq<char>| has_text(roots, r) && #[trigger] self.reaches(r, a)
    }

    /// Whether `c` is a cell of a region reached from one of `roots`.
    pub open spec fn cell_of_regions(self, roots: Set<Seq<char>>, c: JsonV) -> bool {
        exists|r: Seq<char>, a: Seq<char>| roots.contains(r) && #[trigger] self.reaches(r, a) && #[trigger] self.own_cell(a, c)
    }
}

/// The square cell `(x, y, z)` as a value.
fn square_json(x: i64, y: i64, z: i64) -> (r: Json)
    ensures
        r@ == square_cell(x, y, z),
{
    let mut inner: Vec<(String, Json)> = Vec::new();
    push_entry(&mut inner, "x", Json::Int(x));
    push_entry(&mut inner, "y", Json::Int(y));
    push_entry(&mut inner, "z", Json::Int(z));
    assert(crate::json::entries_view(&inner) =~= seq![("x"@, JsonV::Int(x)), ("y"@, JsonV::Int(y)), ("z"@, JsonV::Int(z))]);
    let iv = Json::Object(inner);
    let ghost ivv = iv@;
    let mut outer: Vec<(String, Json)> = Vec::new();
    push_entry(&mut outer, "Square", iv);
    assert(crate::json::entries_view(&outer) =~= seq![("Square"@, ivv)]);
    let r = Json::Object(outer);
    r
}

/// Append to `out` the square cells of the rectangle `x0..=x1` by
/// `y0..=y1` at level `z` that it does not hold yet.
fn expand_rect(out: &mut Vec<Json>, x0: i64, y0: i64, z: i64, x1: i64, y1: i64)
    ensures
        forall|c: JsonV| #[trigger] items_view(final(out)).contains(c)
            <==> (items_view(old(out)).contains(c) || in_rect(c, x0, y0, z, x1, y1)),
{
    let ghost start = items_view(out);
    let mut x: i128 = x0 as i128;
    while x <= x1 as i128
        invariant
            x0 <= x,
            x <= x1 + 1 || x == x0,
            forall|c: JsonV| #[trigger] items_view(out).contains(c) <==> (start.contains(c) || exists|xx: i64, yy: i64|
                x0 <= xx < x && y0 <= yy <= y1 && c == #[trigger] square_cell(xx, yy, z)),
        decreases x1 + 1 - x,
    {
        let xi: i64 = x as i64;
        let ghost before_row = items_view(out);
        let mut y: i128 = y0 as i128;
        while y <= y1 as i128
            invariant
                x0 <= xi <= x1,
                xi == x,
                y0 <= y,
                y <= y1 + 1 || y == y0,
                forall|c: JsonV| #[trigger] items_view(out).contains(c) <==> (before_row.contains(c) || exists|yy: i64|
                    y0 <= yy < y && c == #[trigger] square_cell(xi, yy, z)),
            decreases y1 + 1 - y,
        {
            let yi: i64 = y as i64;
            let cell = square_json(xi, yi, z);
            let ghost before = items_view(out);
            if !contains_json(out, &cell) {
                out.push(cell);
                assert(items_view(out) =~= before.push(square_cell(xi, yi, z)));
                assert(items_view(out)[before.len() as int] == square_cell(xi, yi, z));
            } else {
                assert(items_view(out) == before);
            }
            assert(items_view(out).contains(square_cell(xi, yi, z)));
            assert forall|c: JsonV| before.contains(c) implies #[trigger] items_view(out).contains(c) by {
                let k = choose|k: int| 0 <= k < before.len() && before[k] == c;
                assert(items_view(out)[k] == c);
            }
            assert(forall|c: JsonV| #[trigger] items_view(out).contains(c) ==> before.contains(c) || c == square_cell(xi, yi, z));
            proof {
                assert forall|c: JsonV| #[trigger] items_view(out).contains(c) <==> (before_row.contains(c) || exists|yy: i64|
                    y0 <= yy < y + 1 && c == #[trigger] square_cell(xi, yy, z)) by {
                    if items_view(out).contains(c) && !before.contains(c) {
                        assert(c == square_cell(xi, yi, z));
                    }
                    if exists|yy: i64| y0 <= yy < y + 1 && c == #[trigger] square_cell(xi, yy, z) {
                        let yy = choose|yy: i64| y0 <= yy < y + 1 && c == #[trigger] square_cell(xi, yy, z);
                        if yy == yi {
                            assert(items_view(out).contains(c));
                        } else {
                            assert(before.contains(c));
                        }
                    }
                }
            }
            y = y + 1;
        }
        proof {
            assert forall|c: JsonV| #[trigger] items_view(out).contains(c) <==> (start.contains(c) || exists|xx: i64, yy: i64|
                x0 <= xx < x + 1 && y0 <= yy <= y1 && c == #[trigger] square_cell(xx, yy, z)) by {
                if items_view(out).contains(c) && !before_row.contains(c) {
                    let yy = choose|yy: i64| y0 <= yy < y && c == #[trigger] square_cell(xi, yy, z);
                    assert(x0 <= xi < x + 1 && y0 <= yy <= y1 && c == square_cell(xi, yy, z));
                }
                if exists|xx: i64, yy: i64| x0 <= xx < x + 1 && y0 <= yy <= y1 && c == #[trigger] square_cell(xx, yy, z) {
                    let (xx, yy) = choose|xx: i64, yy: i64| x0 <= xx < x + 1 && y0 <= yy <= y1 && c == #[trigger] square_cell(xx, yy, z);
                    if xx == xi {
                        assert(y0 <= yy < y && c == square_cell(xi, yy, z));
                    } else {
                        assert(before_row.contains(c));
                    }
                }
            }
        }
        x = x + 1;
    }
    proof {
        assert forall|c: JsonV| #[trigger] items_view(out).contains(c) <==> (start.contains(c) || in_rect(c, x0, y0, z, x1, y1)) by {
            if exists|xx: i64, yy: i64| x0 <= xx < x && y0 <= yy <= y1 && c == #[trigger] square_cell(xx, yy, z) {
                let (xx, yy) = choose|xx: i64, yy: i64| x0 <= xx < x && y0 <= yy <= y1 && c == #[trigger] square_cell(xx, yy, z);
                assert(x0 <= xx <= x1 && y0 <= yy <= y1 && c == square_cell(xx, yy, z));
            }
            if in_rect(c, x0, y0, z, x1, y1) {
                let (xx, yy) = choose|xx: i64, yy: i64| x0 <= xx <= x1 && y0 <= yy <= y1 && c == #[trigger] square_cell(xx, yy, z);
                assert(x0 <= xx < x && y0 <= yy <= y1 && c == square_cell(xx, yy, z));
            }
        }
    }
}

/// The region a cell refers to (see [`region_ref`]).
fn region_ref_exec(cell: &Json) -> (r: Option<&str>)
    ensures
        match r {
            Some(s) => region_ref(cell@) == Some(s@),
            None => region_ref(cell@) is None,
        },
{
    match cell.get("Region") {
        Some(reg) => reg.get_str("id"),
        None => None,
    }
}

impl<H: Fn(&Json)> World<H> {
    /// The cells assigned to region `a` and the regions it refers to.
    fn region_links(&self, a: &str) -> (r: (Vec<Json>, Vec<String>))
        ensures
            forall|c: JsonV| #[trigger] items_view(&r.0).contains(c) <==> self.explicit_cell(a@, c),
            forall|b: Seq<char>| #[trigger] has_text(r.1@, b) <==> self.refers(a@, b),
    {
        let ents = self.get_entities_with_component("RegionAssignment");
        let mut cells: Vec<Json> = Vec::new();
        let mut refs: Vec<String> = Vec::new();
        let mut j: usize = 0;
        while j < ents.len()
            invariant
                j <= ents.len(),
                self.allowed("RegionAssignment"@, self.current_mode@) ==> forall|e: u32| #[trigger] self.comp("RegionAssignment"@, e) is Some ==> ents@.contains(e),
                !self.allowed("RegionAssignment"@, self.current_mode@) ==> ents@.len() == 0,
                forall|c: JsonV| #[trigger] items_view(&cells).contains(c) <==> exists|k: int| 0 <= k < j
                    && self.assigns_zone(a@, #[trigger] ents@[k]) && self.assignment_cell(ents@[k]) == Some(c) && region_ref(c) is None,
                forall|b: Seq<char>| #[trigger] has_text(refs@, b) <==> exists|k: int| 0 <= k < j
                    && self.assigns_zone(a@, #[trigger] ents@[k]) && self.assignment_ref(ents@[k]) == Some(b),
            decreases ents.len() - j,
        {
            let e = ents[j];
            let ghost cv = items_view(&cells);
            let ghost rv = refs@;
            let mut hit_cell: Option<Json> = None;
            let mut hit_ref: Option<String> = None;
            match self.get_component(e, "RegionAssignment") {
                Some(v) => match v.get("cell") {
                    Some(cell) => {
                        if names_zone_exec(v.get("region_id"), a) {
                            match region_ref_exec(cell) {
                                Some(b) => {
                                    hit_ref = Some(b.to_string());
                                },
                                None => {
                                    hit_cell = Some(cell.deep_clone());
                                },
                            }
                        }
                    },
                    None => {},
                },
                None => {},
            }
            proof {
                assert(hit_cell matches Some(c) ==> self.assigns_zone(a@, e) && self.assignment_cell(e) == Some(c@) && region_ref(c@) is None);
                assert(hit_ref matches Some(b) ==> self.assigns_zone(a@, e) && self.assignment_ref(e) == Some(b@));
                assert(hit_cell is None ==> forall|c: JsonV| !(self.assigns_zone(a@, e) && self.assignment_cell(e) == Some(c) && region_ref(c) is None));
                assert(hit_ref is None ==> !(self.assigns_zone(a@, e) && self.assignment_ref(e) is Some));
            }
            match hit_cell {
                Some(c) => {
                    let ghost c0 = c@;
                    cells.push(c);
                    assert(items_view(&cells) =~= cv.push(c0));
                },
                None => {},
            }
            match hit_ref {
                Some(b) => {
                    refs.push(b);
                },
                None => {},
            }
            proof {
                assert forall|c: JsonV| #[trigger] items_view(&cells).contains(c) <==> exists|k: int| 0 <= k < j + 1
                    && self.assigns_zone(a@, #[trigger] ents@[k]) && self.assignment_cell(ents@[k]) == Some(c) && region_ref(c) is None by {
                    if items_view(&cells).contains(c) {
                        let t = choose|t: int| 0 <= t < items_view(&cells).len() && items_view(&cells)[t] == c;
                        if t < cv.len() {
                            assert(cv[t] == c);
                            assert(cv.contains(c));
                        } else {
                            assert(ents@[j as int] == e);
                        }
                    }
                    if exists|k: int| 0 <= k < j + 1 && self.assigns_zone(a@, #[trigger] ents@[k]) && self.assignment_cell(ents@[k]) == Some(c) && region_ref(c) is None {
                        let k = choose|k: int| 0 <= k < j + 1 && self.assigns_zone(a@, #[trigger] ents@[k]) && self.assignment_cell(ents@[k]) == Some(c) && region_ref(c) is None;
                        if k < j {
                            assert(cv.contains(c));
                            let t = choose|t: int| 0 <= t < cv.len() && cv[t] == c;
                            assert(items_view(&cells)[t] == c);
                        } else {
                            assert(items_view(&cells)[items_view(&cells).len() - 1] == c);
                        }
                    }
                }
                assert forall|b: Seq<char>| #[trigger] has_text(refs@, b) <==> exists|k: int| 0 <= k < j + 1
                    && self.assigns_zone(a@, #[trigger] ents@[k]) && self.assignment_ref(ents@[k]) == Some(b) by {
                    if has_text(refs@, b) {
                        let t = choose|t: int| 0 <= t < refs@.len() && #[trigger] refs@[t]@ == b;
                        if t < rv.len() {
                            assert(has_text(rv, b));
                        } else {
                            assert(ents@[j as int] == e);
                        }
                    }
                    if exists|k: int| 0 <= k < j + 1 && self.assigns_zone(a@, #[trigger] ents@[k]) && self.assignment_ref(ents@[k]) == Some(b) {
                        let k = choose|k: int| 0 <= k < j + 1 && self.assigns_zone(a@, #[trigger] ents@[k]) && self.assignment_ref(ents@[k]) == Some(b);
                        if k < j {
                            assert(has_text(rv, b));
                            let t = choose|t: int| 0 <= t < rv.len() && #[trigger] rv[t]@ == b;
                            assert(refs@[t]@ == b);
                        } else {
                            assert(refs@[refs@.len() - 1]@ == b);
                        }
                    }
                }
            }
            j = j + 1;
        }
        proof {
            assert forall|c: JsonV| #[trigger] items_view(&cells).contains(c) <==> self.explicit_cell(a@, c) by {
                if self.explicit_cell(a@, c) {
                    let e = choose|e: u32| #[trigger] self.assigns_zone(a@, e) && self.assignment_cell(e) == Some(c) && region_ref(c) is None;
                    assert(self.comp("RegionAssignment"@, e) is Some);
                    let k = choose|k: int| 0 <= k < ents@.len() && ents@[k] == e;
                    assert(self.assigns_zone(a@, ents@[k]));
                }
            }
            assert forall|b: Seq<char>| #[trigger] has_text(refs@, b) <==> self.refers(a@, b) by {
                if self.refers(a@, b) {
                    let e = choose|e: u32| #[trigger] self.assigns_zone(a@, e) && self.assignment_ref(e) == Some(b);
                    assert(self.comp("RegionAssignment"@, e) is Some);
                    let k = choose|k: int| 0 <= k < ents@.len() && ents@[k] == e;
                    assert(self.assigns_zone(a@, ents@[k]));
                }
            }
        }
        (cells, refs)
    }
}

impl<H: Fn(&Json)> World<H> {
    /// The bounds of the `ZoneRect` of `e` for region `a` (see
    /// [`World::rect_bounds`]).
    fn rect_bounds_exec(&self, a: &str, e: u32) -> (r: Option<(i64, i64, i64, i64, i64)>)
        ensures
            r == self.rect_bounds(a@, e),
    {
        match self.get_component(e, "ZoneRect") {
            Some(v) => {
                let mine = match v.get_str("zone_id") {
                    Some(zid) => crate::json::str_eq(zid, a),
                    None => false,
                };
                if !mine {
                    return None;
                }
                match (v.get_i64("x0"), v.get_i64("y0"), v.get_i64("z"), v.get_i64("x1"), v.get_i64("y1")) {
                    (Some(x0), Some(y0), Some(z), Some(x1), Some(y1)) => Some((x0, y0, z, x1, y1)),
                    _ => None,
                }
            },
            None => None,
        }
    }

    /// Append to `out` the cells of the rectangles of region `a` that it
    /// does not hold yet.
    fn add_rect_cells(&self, a: &str, out: &mut Vec<Json>)
        ensures
            forall|c: JsonV| #[trigger] items_view(final(out)).contains(c)
                <==> (items_view(old(out)).contains(c) || exists|e: u32| #[trigger] self.rect_of(a@, e, c)),
    {
        let ghost start = items_view(out);
        let ents = self.get_entities_with_component("ZoneRect");
        let mut j: usize = 0;
        while j < ents.len()
            invariant
                j <= ents.len(),
                self.allowed("ZoneRect"@, self.current_mode@) ==> forall|e: u32| #[trigger] self.comp("ZoneRect"@, e) is Some ==> ents@.contains(e),
                !self.allowed("ZoneRect"@, self.current_mode@) ==> ents@.len() == 0,
                forall|c: JsonV| #[trigger] items_view(out).contains(c) <==> (start.contains(c) || exists|k: int| 0 <= k < j
                    && self.rect_of(a@, #[trigger] ents@[k], c)),
            decreases ents.len() - j,
        {
            let e = ents[j];
            let ghost before = items_view(out);
            match self.rect_bounds_exec(a, e) {
                Some((x0, y0, z, x1, y1)) => {
                    expand_rect(out, x0, y0, z, x1, y1);
                },
                None => {},
            }
            proof {
                assert forall|c: JsonV| #[trigger] items_view(out).contains(c) <==> (start.contains(c) || exists|k: int| 0 <= k < j + 1
                    && self.rect_of(a@, #[trigger] ents@[k], c)) by {
                    if exists|k: int| 0 <= k < j + 1 && self.rect_of(a@, #[trigger] ents@[k], c) {
                        let k = choose|k: int| 0 <= k < j + 1 && self.rect_of(a@, #[trigger] ents@[k], c);
                        if k == j {
                            assert(self.rect_of(a@, e, c));
                        }
                    }
                    if items_view(out).contains(c) && !before.contains(c) {
                        assert(self.rect_of(a@, ents@[j as int], c));
                    }
                }
            }
            j = j + 1;
        }
        proof {
            assert forall|c: JsonV| #[trigger] items_view(out).contains(c) <==> (start.contains(c) || exists|e: u32| #[trigger] self.rect_of(a@, e, c)) by {
                if exists|e: u32| #[trigger] self.rect_of(a@, e, c) {
                    let e = choose|e: u32| #[trigger] self.rect_of(a@, e, c);
                    assert(self.comp("ZoneRect"@, e) is Some);
                    let k = choose|k: int| 0 <= k < ents@.len() && ents@[k] == e;
                    assert(self.rect_of(a@, ents@[k], c));
                }
            }
        }
    }

    /// Every region some assignment refers to (with repeats), whichever
    /// region the assignment names.
    fn referenced_ids(&self) -> (r: Vec<String>)
        ensures
            forall|a: Seq<char>, b: Seq<char>| #[trigger] self.refers(a, b) ==> has_text(r@, b),
    {
        let ents = self.get_entities_with_component("RegionAssignment");
        let mut out: Vec<String> = Vec::new();
        let mut j: usize = 0;
        while j < ents.len()
            invariant
                j <= ents.len(),
                self.allowed("RegionAssignment"@, self.current_mode@) ==> forall|e: u32| #[trigger] self.comp("RegionAssignment"@, e) is Some ==> ents@.contains(e),
                forall|k: int| 0 <= k < j && self.assignment_ref(#[trigger] ents@[k]) is Some ==> has_text(out@, self.assignment_ref(ents@[k]).unwrap()),
            decreases ents.len() - j,
        {
            let e = ents[j];
            let ghost before = out@;
            let hit: Option<String> = match self.get_component(e, "RegionAssignment") {
                Some(v) => match v.get("cell") {
                    Some(cell) => match region_ref_exec(cell) {
                        Some(b) => Some(b.to_string()),
                        None => None,
                    },
                    None => None,
                },
                None => None,
            };
            proof {
                assert(hit matches Some(b) ==> self.assignment_ref(e) == Some(b@));
                assert(hit is None ==> self.assignment_ref(e) is None);
            }
            match hit {
                Some(b) => {
                    out.push(b);
                    proof {
                        assert forall|k: int| 0 <= k < j && self.assignment_ref(#[trigger] ents@[k]) is Some implies has_text(out@, self.assignment_ref(ents@[k]).unwrap()) by {
                            let t = self.assignment_ref(ents@[k]).unwrap();
                            let q = choose|q: int| 0 <= q < before.len() && #[trigger] before[q]@ == t;
                            assert(out@[q]@ == t);
                        }
                        assert(out@[out@.len() - 1]@ == out@.last()@);
                    }
                },
                None => {},
            }
            j = j + 1;
        }
        proof {
            assert forall|a: Seq<char>, b: Seq<char>| #[trigger] self.refers(a, b) implies has_text(out@, b) by {
                let e = choose|e: u32| #[trigger] self.assigns_zone(a, e) && self.assignment_ref(e) == Some(b);
                assert(self.comp("RegionAssignment"@, e) is Some);
                let k = choose|k: int| 0 <= k < ents@.len() && ents@[k] == e;
                assert(self.assignment_ref(ents@[k]) == Some(b));
            }
        }
        out
    }
}

/// No two strings of `v` are equal.
pub open spec fn distinct_texts(v: Seq<String>) -> bool {
    forall|i: int, j: int| 0 <= i < v.len() && 0 <= j < v.len() && i != j ==> v[i]@ != v[j]@
}

/// Distinct strings drawn from `uni` are no more than `uni` holds.
proof fn lemma_distinct_within(vis: Seq<String>, uni: Seq<String>)
    requires
        distinct_texts(vis),
        forall|k: int| 0 <= k < vis.len() ==> has_text(uni, #[trigger] vis[k]@),
    ensures
        vis.len() <= uni.len(),
{
    broadcast use vstd::seq_lib::seq_to_set_is_finite;
    let sv = vis.map_values(|s: String| s@);
    let su = uni.map_values(|s: String| s@);
    assert(sv.no_duplicates()) by {
        assert forall|i: int, j: int| 0 <= i < sv.len() && 0 <= j < sv.len() && i != j implies sv[i] != sv[j] by {
            assert(sv[i] == vis[i]@ && sv[j] == vis[j]@);
        }
    }
    sv.unique_seq_to_set();
    assert(sv.to_set().subset_of(su.to_set())) by {
        assert forall|t: Seq<char>| sv.to_set().contains(t) implies su.to_set().contains(t) by {
            let i = choose|i: int| 0 <= i < sv.len() && sv[i] == t;
            assert(has_text(uni, vis[i]@));
            let q = choose|q: int| 0 <= q < uni.len() && #[trigger] uni[q]@ == vis[i]@;
            assert(su[q] == t);
        }
    }
    vstd::set_lib::lemma_len_subset(sv.to_set(), su.to_set());
    su.lemma_cardinality_of_set();
}

/// A chain of references that starts in a set closed under references
/// ends in it.
proof fn lemma_chain_stays<H: Fn(&Json)>(w: World<H>, p: Seq<Seq<char>>, vis: Seq<String>)
    requires
        w.ref_path(p),
        has_text(vis, p[0]),
        forall|a: Seq<char>, b: Seq<char>| has_text(vis, a) && #[trigger] w.refers(a, b) ==> has_text(vis, b),
    ensures
        has_text(vis, p.last()),
    decreases p.len(),
{
    if p.len() > 1 {
        let q = p.drop_last();
        assert forall|i: int| 0 <= i < q.len() - 1 implies #[trigger] w.path_step(q, i) by {
            assert(w.path_step(p, i));
        }
        lemma_chain_stays(w, q, vis);
        assert(w.path_step(p, p.len() - 2));
        assert(q.last() == p[p.len() - 2]);
    }
}

impl<H: Fn(&Json)> World<H> {
    /// The cells of the regions reached from `roots` (assigned cells and
    /// rectangle cells; references followed, each region once).
    fn collect_cells(&self, roots: &Vec<String>) -> (r: Vec<Json>)
        ensures
            forall|c: JsonV| #[trigger] items_view(&r).contains(c) <==> self.cell_of_regions(text_set(roots@), c),
    {
        let mut universe = self.referenced_ids();
        let mut q: usize = 0;
        while q < roots.len()
            invariant
                q <= roots.len(),
                forall|a: Seq<char>, b: Seq<char>| #[trigger] self.refers(a, b) ==> has_text(universe@, b),
                forall|k: int| 0 <= k < q ==> has_text(universe@, #[trigger] roots@[k]@),
            decreases roots.len() - q,
        {
            let ghost before = universe@;
            universe.push(roots[q].clone());
            proof {
                assert forall|a: Seq<char>, b: Seq<char>| #[trigger] self.refers(a, b) implies has_text(universe@, b) by {
                    let t = choose|t: int| 0 <= t < before.len() && #[trigger] before[t]@ == b;
                    assert(universe@[t]@ == b);
                }
                assert forall|k: int| 0 <= k < q + 1 implies has_text(universe@, #[trigger] roots@[k]@) by {
                    if k < q {
                        let t = choose|t: int| 0 <= t < before.len() && #[trigger] before[t]@ == roots@[k]@;
                        assert(universe@[t]@ == roots@[k]@);
                    } else {
                        assert(universe@[before.len() as int]@ == roots@[k]@);
                    }
                }
            }
            q = q + 1;
        }
        // The regions to visit, each once, roots first.
        let mut visited: Vec<String> = Vec::new();
        let mut q: usize = 0;
        while q < roots.len()
            invariant
                q <= roots.len(),
                distinct_texts(visited@),
                forall|k: int| 0 <= k < visited@.len() ==> has_text(universe@, #[trigger] visited@[k]@),
                forall|k: int| 0 <= k < visited@.len() ==> has_text(roots@, #[trigger] visited@[k]@),
                forall|k: int| 0 <= k < q ==> has_text(visited@, #[trigger] roots@[k]@),
                forall|k: int| 0 <= k < roots@.len() ==> has_text(universe@, #[trigger] roots@[k]@),
            decreases roots.len() - q,
        {
            let ghost before = visited@;
            if !contains_text(&visited, roots[q].as_str()) {
                visited.push(roots[q].clone());
                proof {
                    assert(visited@[before.len() as int]@ == roots@[q as int]@);
                    assert(forall|k: int| 0 <= k < before.len() ==> visited@[k] == before[k]);
                }
            }
            proof {
                assert forall|k: int| 0 <= k < q + 1 implies has_text(visited@, #[trigger] roots@[k]@) by {
                    if k < q {
                        let t = choose|t: int| 0 <= t < before.len() && #[trigger] before[t]@ == roots@[k]@;
                        assert(visited@[t]@ == roots@[k]@);
                    } else if has_text(before, roots@[k]@) {
                        let t = choose|t: int| 0 <= t < before.len() && #[trigger] before[t]@ == roots@[k]@;
                        assert(visited@[t]@ == roots@[k]@);
                    } else {
                        assert(visited@[before.len() as int]@ == roots@[k]@);
                    }
                }
                assert forall|k: int| 0 <= k < visited@.len() implies has_text(roots@, #[trigger] visited@[k]@) by {
                    if k < before.len() {
                        assert(visited@[k] == before[k]);
                    } else {
                        assert(roots@[q as int]@ == visited@[k]@);
                    }
                }
            }
            q = q + 1;
        }
        proof {
            assert forall|k: int| 0 <= k < visited@.len() implies #[trigger] self.reached_from(roots@, visited@[k]@) by {
                let p = seq![visited@[k]@];
                assert(self.ref_path(p));
                assert(self.reaches(visited@[k]@, visited@[k]@));
                assert(has_text(roots@, visited@[k]@));
            }
        }
        let mut out: Vec<Json> = Vec::new();
        let mut i: usize = 0;
        proof {
            lemma_distinct_within(visited@, universe@);
        }
        while i < visited.len()
            invariant
                i <= visited@.len() <= universe@.len(),
                distinct_texts(visited@),
                forall|a: Seq<char>, b: Seq<char>| #[trigger] self.refers(a, b) ==> has_text(universe@, b),
                forall|k: int| 0 <= k < visited@.len() ==> has_text(universe@, #[trigger] visited@[k]@),
                forall|k: int| 0 <= k < roots@.len() ==> has_text(visited@, #[trigger] roots@[k]@),
                forall|k: int| 0 <= k < visited@.len() ==> #[trigger] self.reached_from(roots@, visited@[k]@),
                forall|k: int, b: Seq<char>| 0 <= k < i && #[trigger] self.refers(visited@[k]@, b) ==> has_text(visited@, b),
                forall|c: JsonV| #[trigger] items_view(&out).contains(c) <==> exists|k: int| 0 <= k < i && #[trigger] self.own_cell(visited@[k]@, c),
            decreases universe@.len() - i,
        {
            let a = visited[i].clone();
            let ghost vis0 = visited@;
            let ghost out0 = items_view(&out);
            let (cells, refs) = self.region_links(a.as_str());
            let mut t: usize = 0;
            while t < cells.len()
                invariant
                    t <= cells.len(),
                    forall|c: JsonV| #[trigger] items_view(&out).contains(c) <==> (out0.contains(c) || exists|m: int| 0 <= m < t && items_view(&cells)[m] == c),
                decreases cells.len() - t,
            {
                let ghost ob = items_view(&out);
                let c = cells[t].deep_clone();
                let ghost cv = c@;
                out.push(c);
                proof {
                    assert(items_view(&out) =~= ob.push(cv));
                    assert(cv == items_view(&cells)[t as int]);
                    assert forall|c: JsonV| #[trigger] items_view(&out).contains(c) <==> (out0.contains(c) || exists|m: int| 0 <= m < t + 1 && items_view(&cells)[m] == c) by {
                        if items_view(&out).contains(c) {
                            let z = choose|z: int| 0 <= z < items_view(&out).len() && items_view(&out)[z] == c;
                            if z < ob.len() {
                                assert(ob.contains(c));
                            }
                        }
                        if ob.contains(c) {
                            let z = choose|z: int| 0 <= z < ob.len() && ob[z] == c;
                            assert(items_view(&out)[z] == c);
                        }
                        if exists|m: int| 0 <= m < t + 1 && items_view(&cells)[m] == c {
                            let m = choose|m: int| 0 <= m < t + 1 && items_view(&cells)[m] == c;
                            if m == t {
                                assert(items_view(&out)[ob.len() as int] == c);
                            } else {
                                assert(ob.contains(c));
                                let z = choose|z: int| 0 <= z < ob.len() && ob[z] == c;
                                assert(items_view(&out)[z] == c);
                            }
                        }
                    }
                }
                t = t + 1;
            }
            let ghost out1 = items_view(&out);
            self.add_rect_cells(a.as_str(), &mut out);
            let mut t: usize = 0;
            while t < refs.len()
                invariant
                    t <= refs.len(),
                    vis0.len() <= visited@.len(),
                    forall|k: int| 0 <= k < vis0.len() ==> #[trigger] visited@[k] == vis0[k],
                    distinct_texts(visited@),
                    forall|k: int| 0 <= k < visited@.len() ==> has_text(universe@, #[trigger] visited@[k]@),
                    forall|k: int| 0 <= k < visited@.len() ==> #[trigger] self.reached_from(roots@, visited@[k]@),
                    forall|m: int| 0 <= m < t ==> has_text(visited@, #[trigger] refs@[m]@),
                    forall|b: Seq<char>| #[trigger] has_text(refs@, b) <==> self.refers(a@, b),
                    forall|a2: Seq<char>, b: Seq<char>| #[trigger] self.refers(a2, b) ==> has_text(universe@, b),
                    self.reached_from(roots@, a@),
                decreases refs.len() - t,
            {
                let ghost vb = visited@;
                if !contains_text(&visited, refs[t].as_str()) {
                    visited.push(refs[t].clone());
                    proof {
                        let b = refs@[t as int]@;
                        assert(has_text(refs@, b));
                        assert(self.refers(a@, b));
                        assert(visited@[vb.len() as int]@ == b);
                        let r = choose|r: Seq<char>| has_text(roots@, r) && #[trigger] self.reaches(r, a@);
                        let p = choose|p: Seq<Seq<char>>| #[trigger] self.ref_path(p) && p[0] == r && p.last() == a@;
                        let p2 = p.push(b);
                        assert forall|s: int| 0 <= s < p2.len() - 1 implies #[trigger] self.path_step(p2, s) by {
                            if s < p.len() - 1 {
                                assert(self.path_step(p, s));
                            }
                        }
                        assert(self.ref_path(p2));
                        assert(self.reaches(r, b));
                        assert(self.reached_from(roots@, b));
                        assert forall|k: int| 0 <= k < visited@.len() implies #[trigger] self.reached_from(roots@, visited@[k]@) by {
                            if k < vb.len() {
                                assert(visited@[k] == vb[k]);
                            }
                        }
                        assert forall|k: int| 0 <= k < visited@.len() implies has_text(universe@, #[trigger] visited@[k]@) by {
                            if k < vb.len() {
                                assert(visited@[k] == vb[k]);
                            }
                        }
                    }
                }
                proof {
                    assert forall|m: int| 0 <= m < t + 1 implies has_text(visited@, #[trigger] refs@[m]@) by {
                        if m < t || has_text(vb, refs@[m]@) {
                            let z = choose|z: int| 0 <= z < vb.len() && #[trigger] vb[z]@ == refs@[m]@;
                            assert(visited@[z]@ == refs@[m]@);
                        } else {
                            assert(visited@[vb.len() as int]@ == refs@[m]@);
                        }
                    }
                }
                t = t + 1;
            }
            proof {
                lemma_distinct_within(visited@, universe@);
                assert forall|k: int| 0 <= k < roots@.len() implies has_text(visited@, #[trigger] roots@[k]@) by {
                    let z = choose|z: int| 0 <= z < vis0.len() && #[trigger] vis0[z]@ == roots@[k]@;
                    assert(visited@[z]@ == roots@[k]@);
                }
                assert forall|k: int, b: Seq<char>| 0 <= k < i + 1 && #[trigger] self.refers(visited@[k]@, b) implies has_text(visited@, b) by {
                    assert(visited@[k] == vis0[k]);
                    if k < i {
                        let z = choose|z: int| 0 <= z < vis0.len() && #[trigger] vis0[z]@ == b;
                        assert(visited@[z]@ == b);
                    } else {
                        assert(has_text(refs@, b));
                        let m = choose|m: int| 0 <= m < refs@.len() && #[trigger] refs@[m]@ == b;
                        assert(has_text(visited@, refs@[m]@));
                    }
                }
                assert forall|c: JsonV| #[trigger] items_view(&out).contains(c) <==> exists|k: int| 0 <= k < i + 1 && #[trigger] self.own_cell(visited@[k]@, c) by {
                    assert(visited@[i as int] == vis0[i as int]);
                    if items_view(&out).contains(c) {
                        if out0.contains(c) {
                            let k = choose|k: int| 0 <= k < i && #[trigger] self.own_cell(vis0[k]@, c);
                            assert(visited@[k] == vis0[k]);
                        } else if out1.contains(c) {
                            let m = choose|m: int| 0 <= m < cells.len() && items_view(&cells)[m] == c;
                            assert(items_view(&cells).contains(c));
                            assert(self.own_cell(visited@[i as int]@, c));
                        } else {
                            assert(self.own_cell(visited@[i as int]@, c));
                        }
                    }
                    if exists|k: int| 0 <= k < i + 1 && #[trigger] self.own_cell(visited@[k]@, c) {
                        let k = choose|k: int| 0 <= k < i + 1 && #[trigger] self.own_cell(visited@[k]@, c);
                        assert(visited@[k] == vis0[k]);
                        if k < i {
                            assert(out0.contains(c));
                            assert(out1.contains(c));
                        } else if self.explicit_cell(a@, c) {
                            assert(items_view(&cells).contains(c));
                            let m = choose|m: int| 0 <= m < items_view(&cells).len() && items_view(&cells)[m] == c;
                            assert(out1.contains(c));
                        }
                    }
                }
            }
            i = i + 1;
        }
        proof {
            assert forall|c: JsonV| #[trigger] items_view(&out).contains(c) <==> self.cell_of_regions(text_set(roots@), c) by {
                if items_view(&out).contains(c) {
                    let k = choose|k: int| 0 <= k < i && #[trigger] self.own_cell(visited@[k]@, c);
                    assert(self.reached_from(roots@, visited@[k]@));
                    let r = choose|r: Seq<char>| has_text(roots@, r) && #[trigger] self.reaches(r, visited@[k]@);
                    assert(text_set(roots@).contains(r));
                    assert(self.reaches(r, visited@[k]@) && self.own_cell(visited@[k]@, c));
                }
                if self.cell_of_regions(text_set(roots@), c) {
                    let (r, a) = choose|r: Seq<char>, a: Seq<char>| text_set(roots@).contains(r) && #[trigger] self.reaches(r, a) && #[trigger] self.own_cell(a, c);
                    let p = choose|p: Seq<Seq<char>>| #[trigger] self.ref_path(p) && p[0] == r && p.last() == a;
                    assert(has_text(roots@, r));
                    let z = choose|z: int| 0 <= z < roots@.len() && #[trigger] roots@[z]@ == r;
                    assert(has_text(visited@, roots@[z]@));
                    assert forall|x: Seq<char>, y: Seq<char>| has_text(visited@, x) && #[trigger] self.refers(x, y) implies has_text(visited@, y) by {
                        let k = choose|k: int| 0 <= k < visited@.len() && #[trigger] visited@[k]@ == x;
                        assert(self.refers(visited@[k]@, y));
                    }
                    lemma_chain_stays(*self, p, visited@);
                    let k = choose|k: int| 0 <= k < visited@.len() && #[trigger] visited@[k]@ == a;
                    assert(self.own_cell(visited@[k]@, c));
                }
            }
        }
        out
    }
}

impl<H: Fn(&Json)> World<H> {
    /// Whether the `Region` of `e` has the kind and names region `t` in its
    /// `id` (a string or an array of strings).
    pub open spec fn region_of_kind(self, kind: Seq<char>, e: u32, t: Seq<char>) -> bool {
        self.gated("Region"@, e) matches Some(v) && v.str_at("kind"@) == Some(kind) && names_zone(v.get("id"@), t)
    }

    /// Whether the `Zone` record of `e` has the kind and the id `t`.
    pub open spec fn zone_of_kind(self, kind: Seq<char>, e: u32, t: Seq<char>) -> bool {
        self.gated("Zone"@, e) matches Some(v) && v.str_at("kind"@) == Some(kind) && v.str_at("id"@) == Some(t)
    }

    /// Whether `t` is a region id of the given kind.
    pub open spec fn kind_root(self, kind: Seq<char>, t: Seq<char>) -> bool {
        ||| exists|e: u32| #[trigger] self.region_of_kind(kind, e, t)
        ||| exists|e: u32| #[trigger] self.zone_of_kind(kind, e, t)
    }

    /// All cells assigned to the region, to the regions it refers to
    /// (followed recursively, each region once) and the square cells of the
    /// zone rectangles under any of these ids (a zone id acts as a region
    /// id). A rectangle cell already listed is not listed again.
    pub fn cells_in_region(&self, region_id: &str) -> (r: Vec<Json>)
        ensures
            forall|c: JsonV| #[trigger] items_view(&r).contains(c)
                <==> exists|a: Seq<char>| #[trigger] self.reaches(region_id@, a) && self.own_cell(a, c),
    {
        let mut roots: Vec<String> = Vec::new();
        roots.push(region_id.to_string());
        let r = self.collect_cells(&roots);
        proof {
            assert(text_set(roots@) =~= Set::empty().insert(region_id@)) by {
                assert forall|t: Seq<char>| text_set(roots@).contains(t) <==> t == region_id@ by {
                    if t == region_id@ {
                        assert(roots@[0]@ == t);
                    }
                }
            }
        }
        r
    }

    /// The region ids of the given kind: every string of the `id` of a
    /// `Region` of that kind, and the `id` of each `Zone` of that kind.
    fn kind_roots(&self, kind: &str) -> (r: Vec<String>)
        ensures
            forall|t: Seq<char>| #[trigger] has_text(r@, t) <==> self.kind_root(kind@, t),
    {
        let mut out: Vec<String> = Vec::new();
        let ents = self.get_entities_with_component("Region");
        let mut j: usize = 0;
        while j < ents.len()
            invariant
                j <= ents.len(),
                self.allowed("Region"@, self.current_mode@) ==> forall|e: u32| #[trigger] self.comp("Region"@, e) is Some ==> ents@.contains(e),
                forall|t: Seq<char>| #[trigger] has_text(out@, t) <==> exists|k: int| 0 <= k < j && self.region_of_kind(kind@, #[trigger] ents@[k], t),
            decreases ents.len() - j,
        {
            let e = ents[j];
            let ghost before = out@;
            match self.get_component(e, "Region") {
                Some(v) => {
                    let same_kind = match v.get_str("kind") {
                        Some(k) => crate::json::str_eq(k, kind),
                        None => false,
                    };
                    if same_kind {
                        match v.get("id") {
                            Some(Json::Str(s)) => {
                                out.push(s.clone());
                                proof {
                                    assert(out@[before.len() as int]@ == s@);
                                }
                            },
                            Some(Json::Array(items)) => {
                                let ghost iv = items_view(items);
                                let mut m: usize = 0;
                                while m < items.len()
                                    invariant
                                        m <= items.len(),
                                        iv == items_view(items),
                                        out@.len() >= before.len(),
                                        forall|z: int| 0 <= z < before.len() ==> #[trigger] out@[z] == before[z],
                                        forall|t: Seq<char>| #[trigger] has_text(out@, t) <==> (has_text(before, t) || exists|q: int| 0 <= q < m && iv[q].as_str() == Some(t)),
                                    decreases items.len() - m,
                                {
                                    let ghost ob = out@;
                                    match items[m].as_str() {
                                        Some(t) => {
                                            out.push(t.to_string());
                                        },
                                        None => {},
                                    }
                                    proof {
                                        assert(iv[m as int] == items[m as int]@);
                                        assert forall|t: Seq<char>| #[trigger] has_text(out@, t) <==> (has_text(before, t) || exists|q: int| 0 <= q < m + 1 && iv[q].as_str() == Some(t)) by {
                                            if has_text(out@, t) {
                                                let z = choose|z: int| 0 <= z < out@.len() && #[trigger] out@[z]@ == t;
                                                if z < ob.len() {
                                                    assert(has_text(ob, t));
                                                }
                                            }
                                            if has_text(ob, t) {
                                                let z = choose|z: int| 0 <= z < ob.len() && #[trigger] ob[z]@ == t;
                                                assert(out@[z]@ == t);
                                            }
                                            if exists|q: int| 0 <= q < m + 1 && iv[q].as_str() == Some(t) {
                                                let q = choose|q: int| 0 <= q < m + 1 && iv[q].as_str() == Some(t);
                                                if q == m {
                                                    assert(out@[ob.len() as int]@ == t);
                                                } else {
                                                    assert(has_text(ob, t));
                                                    let z = choose|z: int| 0 <= z < ob.len() && #[trigger] ob[z]@ == t;
                                                    assert(out@[z]@ == t);
                                                }
                                            }
                                        }
                                    }
                                    m = m + 1;
                                }
                            },
                            _ => {},
                        }
                    }
                },
                None => {},
            }
            proof {
                assert forall|t: Seq<char>| #[trigger] has_text(out@, t) <==> exists|k: int| 0 <= k < j + 1 && self.region_of_kind(kind@, #[trigger] ents@[k], t) by {
                    if has_text(out@, t) && !has_text(before, t) {
                        assert(self.region_of_kind(kind@, ents@[j as int], t));
                    }
                    if exists|k: int| 0 <= k < j + 1 && self.region_of_kind(kind@, #[trigger] ents@[k], t) {
                        let k = choose|k: int| 0 <= k < j + 1 && self.region_of_kind(kind@, #[trigger] ents@[k], t);
                        if k == j {
                            assert(self.region_of_kind(kind@, e, t));
                            if has_text(before, t) {
                                let z = choose|z: int| 0 <= z < before.len() && #[trigger] before[z]@ == t;
                                assert(out@[z]@ == t);
                            } else {
                                let v = self.comp("Region"@, e).unwrap();
                                match v.get("id"@) {
                                    Some(JsonV::Array(items)) => {
                                        let q = choose|q: int| 0 <= q < items.len() && #[trigger] items[q].as_str() == Some(t);
                                    },
                                    _ => {},
                                }
                            }
                        } else if has_text(before, t) {
                            let z = choose|z: int| 0 <= z < before.len() && #[trigger] before[z]@ == t;
                            assert(out@[z]@ == t);
                        }
                    }
                }
            }
            j = j + 1;
        }
        let ghost regions_part = out@;
        let zents = self.get_entities_with_component("Zone");
        let mut j: usize = 0;
        while j < zents.len()
            invariant
                j <= zents.len(),
                self.allowed("Zone"@, self.current_mode@) ==> forall|e: u32| #[trigger] self.comp("Zone"@, e) is Some ==> zents@.contains(e),
                forall|t: Seq<char>| #[trigger] has_text(out@, t) <==> (has_text(regions_part, t) || exists|k: int| 0 <= k < j && self.zone_of_kind(kind@, #[trigger] zents@[k], t)),
            decreases zents.len() - j,
        {
            let e = zents[j];
            let ghost before = out@;
            let hit: Option<String> = match self.get_component(e, "Zone") {
                Some(v) => {
                    let same_kind = match v.get_str("kind") {
                        Some(k) => crate::json::str_eq(k, kind),
                        None => false,
                    };
                    if same_kind {
                        match v.get_str("id") {
                            Some(id) => Some(id.to_string()),
                            None => None,
                        }
                    } else {
                        None
                    }
                },
                None => None,
            };
            proof {
                assert(hit matches Some(t) ==> self.zone_of_kind(kind@, e, t@));
                assert(hit is None ==> forall|t: Seq<char>| !self.zone_of_kind(kind@, e, t));
            }
            match hit {
                Some(t) => {
                    out.push(t);
                },
                None => {},
            }
            proof {
                assert forall|t: Seq<char>| #[trigger] has_text(out@, t) <==> (has_text(regions_part, t) || exists|k: int| 0 <= k < j + 1 && self.zone_of_kind(kind@, #[trigger] zents@[k], t)) by {
                    if has_text(out@, t) {
                        let z = choose|z: int| 0 <= z < out@.len() && #[trigger] out@[z]@ == t;
                        if z < before.len() {
                            assert(has_text(before, t));
                        } else {
                            assert(self.zone_of_kind(kind@, zents@[j as int], t));
                        }
                    }
                    if has_text(before, t) {
                        let z = choose|z: int| 0 <= z < before.len() && #[trigger] before[z]@ == t;
                        assert(out@[z]@ == t);
                    }
                    if exists|k: int| 0 <= k < j + 1 && self.zone_of_kind(kind@, #[trigger] zents@[k], t) {
                        let k = choose|k: int| 0 <= k < j + 1 && self.zone_of_kind(kind@, #[trigger] zents@[k], t);
                        if k == j {
                            assert(out@[before.len() as int]@ == t);
                        } else {
                            assert(has_text(before, t));
                            let z = choose|z: int| 0 <= z < before.len() && #[trigger] before[z]@ == t;
                            assert(out@[z]@ == t);
                        }
                    }
                }
            }
            j = j + 1;
        }
        proof {
            assert forall|t: Seq<char>| #[trigger] has_text(out@, t) <==> self.kind_root(kind@, t) by {
                if exists|e: u32| #[trigger] self.region_of_kind(kind@, e, t) {
                    let e = choose|e: u32| #[trigger] self.region_of_kind(kind@, e, t);
                    assert(self.comp("Region"@, e) is Some);
                    let k = choose|k: int| 0 <= k < ents@.len() && ents@[k] == e;
                    assert(self.region_of_kind(kind@, ents@[k], t));
                }
                if exists|e: u32| #[trigger] self.zone_of_kind(kind@, e, t) {
                    let e = choose|e: u32| #[trigger] self.zone_of_kind(kind@, e, t);
                    assert(self.comp("Zone"@, e) is Some);
                    let k = choose|k: int| 0 <= k < zents@.len() && zents@[k] == e;
                    assert(self.zone_of_kind(kind@, zents@[k], t));
                }
            }
        }
        out
    }

    /// All cells of the regions of the given kind: the union of
    /// [`World::cells_in_region`] over every string of the `id` of a
    /// `Region` of that kind and the `id` of every `Zone` of that kind.
    pub fn cells_in_region_kind(&self, kind: &str) -> (r: Vec<Json>)
        ensures
            forall|c: JsonV| #[trigger] items_view(&r).contains(c)
                <==> exists|t: Seq<char>, a: Seq<char>| self.kind_root(kind@, t) && #[trigger] self.reaches(t, a) && #[trigger] self.own_cell(a, c),
    {
        let roots = self.kind_roots(kind);
        let r = self.collect_cells(&roots);
        proof {
            assert forall|c: JsonV| #[trigger] items_view(&r).contains(c)
                <==> exists|t: Seq<char>, a: Seq<char>| self.kind_root(kind@, t) && #[trigger] self.reaches(t, a) && #[trigger] self.own_cell(a, c) by {
                if items_view(&r).contains(c) {
                    let (t, a) = choose|t: Seq<char>, a: Seq<char>| text_set(roots@).contains(t) && #[trigger] self.reaches(t, a) && #[trigger] self.own_cell(a, c);
                    assert(has_text(roots@, t));
                }
                if exists|t: Seq<char>, a: Seq<char>| self.kind_root(kind@, t) && #[trigger] self.reaches(t, a) && #[trigger] self.own_cell(a, c) {
                    let (t, a) = choose|t: Seq<char>, a: Seq<char>| self.kind_root(kind@, t) && #[trigger] self.reaches(t, a) && #[trigger] self.own_cell(a, c);
                    assert(text_set(roots@).contains(t));
                }
            }
        }
        r
    }
}

/// A region's cells include its own cells and every cell of each region it
/// refers to (references are resolved recursively).
pub proof fn law_region_cells_follow_references<H: Fn(&Json)>(w: World<H>, a: Seq<char>, b: Seq<char>, x: Seq<char>, c: JsonV)
    requires
        w.refers(a, b),
        w.reaches(b, x),
        w.own_cell(x, c),
    ensures
        exists|y: Seq<char>| #[trigger] w.reaches(a, y) && w.own_cell(y, c),
        w.reaches(a, a),
{
    let p = choose|p: Seq<Seq<char>>| #[trigger] w.ref_path(p) && p[0] == b && p.last() == x;
    let q = seq![a] + p;
    assert forall|i: int| 0 <= i < q.len() - 1 implies #[trigger] w.path_step(q, i) by {
        if i > 0 {
            assert(w.path_step(p, i - 1));
            assert(q[i] == p[i - 1] && q[i + 1] == p[i]);
        }
    }
    assert(w.ref_path(q));
    assert(q.last() == x);
    assert(w.reaches(a, x));
    let one = seq![a];
    assert(w.ref_path(one));
    assert(w.reaches(a, a));
}

/// Either of two texts sorts before or with the other.
proof fn lemma_seq_le_total(a: Seq<char>, b: Seq<char>)
    ensures
        seq_le(a, b) || seq_le(b, a),
    decreases a.len(),
{
    if a.len() > 0 && b.len() > 0 && a[0] == b[0] {
        lemma_seq_le_total(a.drop_first(), b.drop_first());
    }
}

/// Sorting before or with is transitive.
proof fn lemma_seq_le_trans(a: Seq<char>, b: Seq<char>, c: Seq<char>)
    requires
        seq_le(a, b),
        seq_le(b, c),
    ensures
        seq_le(a, c),
    decreases a.len(),
{
    if a.len() > 0 && b.len() > 0 && c.len() > 0 && a[0] == b[0] && b[0] == c[0] {
        lemma_seq_le_trans(a.drop_first(), b.drop_first(), c.drop_first());
    }
}

/// The views of (id, entity) pairs.
pub open spec fn pairs_view(v: Seq<(String, u32)>) -> Seq<(Seq<char>, u32)> {
    v.map_values(|p: (String, u32)| (p.0@, p.1))
}

/// The pairs are in order of their ids.
pub open spec fn sorted_by_id(s: Seq<(Seq<char>, u32)>) -> bool {
    forall|i: int, j: int| 0 <= i < j < s.len() ==> seq_le(#[trigger] s[i].0, #[trigger] s[j].0)
}

/// Insert `x` into the id-sorted `out`, after every pair whose id sorts
/// before it or with it.
fn insert_by_id(out: &mut Vec<(String, u32)>, x: (String, u32))
    requires
        sorted_by_id(pairs_view(old(out)@)),
    ensures
        sorted_by_id(pairs_view(final(out)@)),
        exists|j: int| 0 <= j <= old(out)@.len() && pairs_view(final(out)@) == pairs_view(old(out)@).insert(j, (x.0@, x.1)),
{
    let ghost sv = pairs_view(out@);
    let mut j: usize = out.len();
    while j > 0 && !str_le(out[j - 1].0.as_str(), x.0.as_str())
        invariant
            j <= out.len(),
            sv == pairs_view(out@),
            forall|k: int| j <= k < sv.len() ==> !seq_le(#[trigger] sv[k].0, x.0@),
        decreases j,
    {
        j = j - 1;
    }
    let ghost xv = (x.0@, x.1);
    out.insert(j, x);
    proof {
        let nv = pairs_view(out@);
        assert(nv =~= sv.insert(j as int, xv));
        assert forall|a: int, b: int| 0 <= a < b < nv.len() implies seq_le(#[trigger] nv[a].0, #[trigger] nv[b].0) by {
            if b < j {
                assert(nv[a] == sv[a] && nv[b] == sv[b]);
            } else if a > j {
                assert(nv[a] == sv[a - 1] && nv[b] == sv[b - 1]);
            } else if a == j {
                assert(nv[b] == sv[b - 1]);
                lemma_seq_le_total(sv[b - 1].0, xv.0);
            } else if b == j {
                assert(nv[a] == sv[a]);
                assert(seq_le(sv[j - 1].0, xv.0));
                if a < j - 1 {
                    assert(seq_le(sv[a].0, sv[j - 1].0));
                    lemma_seq_le_trans(sv[a].0, sv[j - 1].0, xv.0);
                }
            } else {
                assert(nv[a] == sv[a] && nv[b] == sv[b - 1]);
                assert(seq_le(sv[j - 1].0, xv.0));
                lemma_seq_le_total(sv[b - 1].0, xv.0);
                if a < j - 1 {
                    assert(seq_le(sv[a].0, sv[j - 1].0));
                    lemma_seq_le_trans(sv[a].0, sv[j - 1].0, xv.0);
                }
                lemma_seq_le_trans(sv[a].0, xv.0, sv[b - 1].0);
            }
        }
    }
}

/// A count as a JSON number.
pub open spec fn count_json(n: int) -> JsonV {
    if n <= i64::MAX {
        JsonV::Int(n as i64)
    } else {
        JsonV::UInt(n as u64)
    }
}

/// The listing row `{id, label, kind, cell_count}` of a zone record.
pub open spec fn zone_row(rec: JsonV, id: Seq<char>, n: int) -> JsonV {
    JsonV::Object(seq![
        ("id"@, JsonV::Str(id)),
        ("label"@, or_null(rec.get("label"@))),
        ("kind"@, or_null(rec.get("kind"@))),
        ("cell_count"@, count_json(n)),
    ])
}

impl<H: Fn(&Json)> World<H> {
    /// The id of the `Zone` record of `e`, if it has a string id.
    pub open spec fn zone_id_of(self, e: u32) -> Option<Seq<char>> {
        match self.gated("Zone"@, e) {
            Some(v) => v.str_at("id"@),
            None => None,
        }
    }

    /// Whether `ps` lists every zone record with a string id once, as
    /// (id, entity), in order of ids.
    pub open spec fn zone_listing(self, ps: Seq<(Seq<char>, u32)>) -> bool {
        &&& sorted_by_id(ps)
        &&& forall|i: int| 0 <= i < ps.len() ==> self.zone_id_of(#[trigger] ps[i].1) == Some(ps[i].0)
        &&& forall|i: int, j: int| 0 <= i < ps.len() && 0 <= j < ps.len() && i != j ==> #[trigger] ps[i].1 != #[trigger] ps[j].1
        &&& forall|e: u32| #[trigger] self.zone_id_of(e) is Some ==> exists|i: int| 0 <= i < ps.len() && ps[i].1 == e
    }

    /// Whether `n` cells are listed for region `id`: some list of `n`
    /// values holds exactly the cells of the region.
    pub open spec fn counts_cells(self, id: Seq<char>, n: int) -> bool {
        exists|l: Seq<JsonV>| l.len() == n && forall|c: JsonV| #[trigger] l.contains(c)
            <==> exists|a: Seq<char>| #[trigger] self.reaches(id, a) && self.own_cell(a, c)
    }

    /// Whether `row` is the listing row of the zone record `p`.
    pub open spec fn row_of(self, row: JsonV, p: (Seq<char>, u32)) -> bool {
        exists|n: int| self.counts_cells(p.0, n) && row == zone_row(self.gated("Zone"@, p.1).unwrap(), p.0, n)
    }

    /// The zone records with a string id, as (id, entity), sorted by id.
    fn sorted_zone_records(&self) -> (r: Vec<(String, u32)>)
        ensures
            self.zone_listing(pairs_view(r@)),
    {
        let zents = self.get_entities_with_component("Zone");
        let mut out: Vec<(String, u32)> = Vec::new();
        let mut j: usize = 0;
        while j < zents.len()
            invariant
                j <= zents.len(),
                self.allowed("Zone"@, self.current_mode@) ==> forall|e: u32| #[trigger] self.comp("Zone"@, e) is Some ==> zents@.contains(e),
                forall|a: int, b: int| 0 <= a < zents@.len() && 0 <= b < zents@.len() && a != b ==> zents@[a] != zents@[b],
                sorted_by_id(pairs_view(out@)),
                self.ids_match(pairs_view(out@)),
                distinct_ents(pairs_view(out@)),
                ents_within(pairs_view(out@), zents@.subrange(0, j as int)),
                forall|k: int| 0 <= k < j && self.zone_id_of(#[trigger] zents@[k]) is Some ==> listed(pairs_view(out@), zents@[k]),
            decreases zents.len() - j,
        {
            let e = zents[j];
            let id: Option<String> = match self.get_component(e, "Zone") {
                Some(v) => match v.get_str("id") {
                    Some(t) => Some(t.to_string()),
                    None => None,
                },
                None => None,
            };
            let ghost ov = pairs_view(out@);
            let ghost pre = zents@.subrange(0, j as int);
            proof {
                assert(zents@.subrange(0, j + 1) =~= pre.push(e));
                assert(!pre.contains(e)) by {
                    if pre.contains(e) {
                        let k = choose|k: int| 0 <= k < pre.len() && pre[k] == e;
                        assert(zents@[k] == zents@[j as int]);
                    }
                }
            }
            match id {
                Some(t) => {
                    let ghost tv = t@;
                    assert(self.zone_id_of(e) == Some(tv));
                    insert_by_id(&mut out, (t, e));
                    proof {
                        let q = choose|q: int| 0 <= q <= ov.len() && pairs_view(out@) == ov.insert(q, (tv, e));
                        self.lemma_listing_insert(ov, q, (tv, e), pre);
                        assert forall|k: int| 0 <= k < j + 1 && self.zone_id_of(#[trigger] zents@[k]) is Some implies listed(pairs_view(out@), zents@[k]) by {
                            if k < j {
                                assert(listed(ov, zents@[k]));
                            }
                        }
                    }
                },
                None => {
                    proof {
                        assert(self.zone_id_of(e) is None);
                        assert forall|i: int| 0 <= i < ov.len() implies #[trigger] zents@.subrange(0, j + 1).contains(ov[i].1) by {
                            assert(pre.contains(ov[i].1));
                            let k = choose|k: int| 0 <= k < pre.len() && pre[k] == ov[i].1;
                            assert(zents@.subrange(0, j + 1)[k] == ov[i].1);
                        }
                    }
                },
            }
            j = j + 1;
        }
        proof {
            let pv = pairs_view(out@);
            assert forall|e: u32| #[trigger] self.zone_id_of(e) is Some implies exists|i: int| 0 <= i < pv.len() && pv[i].1 == e by {
                assert(self.comp("Zone"@, e) is Some);
                let k = choose|k: int| 0 <= k < zents@.len() && zents@[k] == e;
                assert(self.zone_id_of(zents@[k]) is Some);
                assert(listed(pv, zents@[k]));
            }
        }
        out
    }

    /// Every listed pair carries its entity's zone id.
    pub open spec fn ids_match(self, ps: Seq<(Seq<char>, u32)>) -> bool {
        forall|i: int| 0 <= i < ps.len() ==> self.zone_id_of(#[trigger] ps[i].1) == Some(ps[i].0)
    }

    proof fn lemma_listing_insert(self, ov: Seq<(Seq<char>, u32)>, q: int, x: (Seq<char>, u32), pre: Seq<u32>)
        requires
            0 <= q <= ov.len(),
            self.ids_match(ov),
            distinct_ents(ov),
            ents_within(ov, pre),
            !pre.contains(x.1),
            self.zone_id_of(x.1) == Some(x.0),
        ensures
            self.ids_match(ov.insert(q, x)),
            distinct_ents(ov.insert(q, x)),
            ents_within(ov.insert(q, x), pre.push(x.1)),
            listed(ov.insert(q, x), x.1),
            forall|e: u32| listed(ov, e) ==> #[trigger] listed(ov.insert(q, x), e),
    {
        let nv = ov.insert(q, x);
        assert forall|i: int| 0 <= i < nv.len() implies self.zone_id_of(#[trigger] nv[i].1) == Some(nv[i].0) by {
            if i < q {
                assert(nv[i] == ov[i]);
            } else if i > q {
                assert(nv[i] == ov[i - 1]);
            }
        }
        lemma_insert_pair(ov, q, x, pre);
    }
}

/// Inserting a pair for a new entity keeps the entities distinct and
/// listed.
proof fn lemma_insert_pair(ov: Seq<(Seq<char>, u32)>, q: int, x: (Seq<char>, u32), pre: Seq<u32>)
    requires
        0 <= q <= ov.len(),
        distinct_ents(ov),
        ents_within(ov, pre),
        !pre.contains(x.1),
    ensures
        distinct_ents(ov.insert(q, x)),
        ents_within(ov.insert(q, x), pre.push(x.1)),
        listed(ov.insert(q, x), x.1),
        forall|e: u32| listed(ov, e) ==> #[trigger] listed(ov.insert(q, x), e),
{
    let nv = ov.insert(q, x);
    assert forall|i: int| 0 <= i < nv.len() implies #[trigger] pre.push(x.1).contains(nv[i].1) by {
        if i == q {
            assert(pre.push(x.1)[pre.len() as int] == x.1);
        } else {
            let oi = if i < q { i } else { i - 1 };
            assert(nv[i] == ov[oi]);
            assert(pre.contains(ov[oi].1));
            let z = choose|z: int| 0 <= z < pre.len() && pre[z] == ov[oi].1;
            assert(pre.push(x.1)[z] == ov[oi].1);
        }
    }
    assert forall|i: int, k: int| 0 <= i < nv.len() && 0 <= k < nv.len() && i != k implies #[trigger] nv[i].1 != #[trigger] nv[k].1 by {
        let oi = if i < q { i } else { i - 1 };
        let ok = if k < q { k } else { k - 1 };
        if i != q && k != q {
            assert(nv[i] == ov[oi] && nv[k] == ov[ok]);
        } else if i == q {
            assert(nv[k] == ov[ok]);
            assert(pre.contains(ov[ok].1));
        } else {
            assert(nv[i] == ov[oi]);
            assert(pre.contains(ov[oi].1));
        }
    }
    assert(nv[q].1 == x.1);
    assert forall|e: u32| listed(ov, e) implies #[trigger] listed(nv, e) by {
        let i = choose|i: int| 0 <= i < ov.len() && ov[i].1 == e;
        if i < q {
            assert(nv[i] == ov[i]);
        } else {
            assert(nv[i + 1] == ov[i]);
        }
    }
}

/// No entity is listed twice.
pub open spec fn distinct_ents(ps: Seq<(Seq<char>, u32)>) -> bool {
    forall|i: int, j: int| 0 <= i < ps.len() && 0 <= j < ps.len() && i != j ==> #[trigger] ps[i].1 != #[trigger] ps[j].1
}

/// Every listed entity is one of `s`.
pub open spec fn ents_within(ps: Seq<(Seq<char>, u32)>, s: Seq<u32>) -> bool {
    forall|i: int| 0 <= i < ps.len() ==> #[trigger] s.contains(ps[i].1)
}

/// Whether entity `e` is listed.
pub open spec fn listed(ps: Seq<(Seq<char>, u32)>, e: u32) -> bool {
    exists|i: int| 0 <= i < ps.len() && ps[i].1 == e
}

/// A count as a JSON number (see [`count_json`]).
fn count_json_exec(n: usize) -> (r: Json)
    ensures
        r@ == count_json(n as int),
{
    let w: u64 = n as u64;
    if w <= 0x7fff_ffff_ffff_ffffu64 {
        Json::Int(w as i64)
    } else {
        Json::UInt(w)
    }
}

impl<H: Fn(&Json)> World<H> {
    /// All zones as `{id, label, kind, cell_count}` rows sorted by id, one
    /// per zone record with a string id; `cell_count` is the number of
    /// cells [`World::cells_in_region`] gives for the id, and a missing
    /// label or kind is `null`.
    pub fn list_zones(&self) -> (r: Vec<Json>)
        ensures
            exists|ps: Seq<(Seq<char>, u32)>| #[trigger] self.zone_listing(ps) && items_view(&r).len() == ps.len()
                && forall|i: int| 0 <= i < ps.len() ==> #[trigger] self.row_of(items_view(&r)[i], ps[i]),
    {
        let pairs = self.sorted_zone_records();
        let ghost pv = pairs_view(pairs@);
        let mut rows: Vec<Json> = Vec::new();
        let mut i: usize = 0;
        while i < pairs.len()
            invariant
                i <= pairs.len(),
                pv == pairs_view(pairs@),
                self.zone_listing(pv),
                items_view(&rows).len() == i,
                forall|k: int| 0 <= k < i ==> #[trigger] self.row_of(items_view(&rows)[k], pv[k]),
            decreases pairs.len() - i,
        {
            let id = pairs[i].0.as_str();
            let e = pairs[i].1;
            assert(pv[i as int] == (id@, e));
            assert(self.zone_id_of(pv[i as int].1) == Some(pv[i as int].0));
            assert(self.zone_id_of(e) == Some(id@));
            let rec = match self.get_component(e, "Zone") {
                Some(v) => v,
                None => {
                    assert(false);
                    return rows;
                },
            };
            let label = match rec.get("label") {
                Some(l) => l.deep_clone(),
                None => Json::Null,
            };
            let kind = match rec.get("kind") {
                Some(k) => k.deep_clone(),
                None => Json::Null,
            };
            let cells = self.cells_in_region(id);
            let n = cells.len();
            let ghost recv = self.gated("Zone"@, e).unwrap();
            assert(rec@ == recv);
            let ghost lv = label@;
            let ghost kv = kind@;
            assert(lv == or_null(recv.get("label"@)));
            assert(kv == or_null(recv.get("kind"@)));
            let mut entries: Vec<(String, Json)> = Vec::new();
            push_entry(&mut entries, "id", Json::Str(id.to_string()));
            push_entry(&mut entries, "label", label);
            push_entry(&mut entries, "kind", kind);
            push_entry(&mut entries, "cell_count", count_json_exec(n));
            assert(crate::json::entries_view(&entries) =~= seq![
                ("id"@, JsonV::Str(id@)),
                ("label"@, lv),
                ("kind"@, kv),
                ("cell_count"@, count_json(n as int)),
            ]);
            let row = Json::Object(entries);
            proof {
                assert(row@ == zone_row(self.gated("Zone"@, e).unwrap(), id@, n as int));
                assert(self.counts_cells(id@, n as int)) by {
                    let l = items_view(&cells);
                    assert(l.len() == n);
                }
            }
            let ghost before = items_view(&rows);
            rows.push(row);
            proof {
                assert(items_view(&rows) =~= before.push(zone_row(self.gated("Zone"@, e).unwrap(), id@, n as int)));
                assert forall|k: int| 0 <= k < i + 1 implies #[trigger] self.row_of(items_view(&rows)[k], pv[k]) by {
                    if k < i {
                        assert(items_view(&rows)[k] == before[k]);
                    }
                }
            }
            i = i + 1;
        }
        rows
    }
}

/// The row `{x0, y0, z, x1, y1}` of a `ZoneRect` record (a missing field is
/// `null`).
pub open spec fn rect_row(v: JsonV) -> JsonV {
    JsonV::Object(seq![
        ("x0"@, or_null(v.get("x0"@))),
        ("y0"@, or_null(v.get("y0"@))),
        ("z"@, or_null(v.get("z"@))),
        ("x1"@, or_null(v.get("x1"@))),
        ("y1"@, or_null(v.get("y1"@))),
    ])
}

/// The `{id, label, kind, rects, cells}` description of a zone record.
pub open spec fn zone_json(rec: JsonV, rects: Seq<JsonV>, cells: Seq<JsonV>) -> JsonV {
    JsonV::Object(seq![
        ("id"@, or_null(rec.get("id"@))),
        ("label"@, or_null(rec.get("label"@))),
        ("kind"@, or_null(rec.get("kind"@))),
        ("rects"@, JsonV::Array(rects)),
        ("cells"@, JsonV::Array(cells)),
    ])
}

/// A field of a record, or `null`.
fn field_or_null(v: &Json, key: &str) -> (r: Json)
    ensures
        r@ == or_null(v@.get(key@)),
{
    match v.get(key) {
        Some(x) => x.deep_clone(),
        None => Json::Null,
    }
}

impl<H: Fn(&Json)> World<H> {
    /// The row of the `ZoneRect` record of `e`.
    pub open spec fn rect_row_of(self, e: u32) -> JsonV {
        rect_row(self.gated("ZoneRect"@, e).unwrap())
    }

    /// Every listed pair is a rectangle of the zone with its row text.
    pub open spec fn rects_ok(self, zone_id: Seq<char>, ps: Seq<(Seq<char>, u32)>) -> bool {
        forall|i: int| 0 <= i < ps.len() ==> #[trigger] self.is_zone_rect(zone_id, ps[i].1)
            && ps[i].0 == json_text(self.rect_row_of(ps[i].1))
    }

    /// Whether `ps` lists every `ZoneRect` record of the zone once, as
    /// (JSON text of its row, entity), in order of those texts.
    pub open spec fn rect_listing(self, zone_id: Seq<char>, ps: Seq<(Seq<char>, u32)>) -> bool {
        &&& sorted_by_id(ps)
        &&& forall|i: int| 0 <= i < ps.len() ==> #[trigger] self.is_zone_rect(zone_id, ps[i].1)
            && ps[i].0 == json_text(self.rect_row_of(ps[i].1))
        &&& distinct_ents(ps)
        &&& forall|e: u32| #[trigger] self.is_zone_rect(zone_id, e) ==> listed(ps, e)
    }

    /// Whether `z` describes the zone by the record of `e`, the rectangle
    /// listing `ps` and the directly assigned cells `cs`.
    pub open spec fn describes_zone(self, zone_id: Seq<char>, z: JsonV, e: u32, ps: Seq<(Seq<char>, u32)>, cs: Seq<JsonV>) -> bool {
        &&& self.is_zone_record(zone_id, e)
        &&& self.rect_listing(zone_id, ps)
        &&& forall|c: JsonV| #[trigger] cs.contains(c) <==> self.member_cells(zone_id).contains(c)
        &&& z == zone_json(self.gated("Zone"@, e).unwrap(), self.rect_rows(ps), cs)
    }

    /// The rows of the listed rectangles, in order.
    pub open spec fn rect_rows(self, ps: Seq<(Seq<char>, u32)>) -> Seq<JsonV> {
        Seq::new(ps.len(), |i: int| self.rect_row_of(ps[i].1))
    }

    /// The row of the `ZoneRect` record `v`.
    fn rect_row_exec(v: &Json) -> (r: Json)
        ensures
            r@ == rect_row(v@),
    {
        let mut entries: Vec<(String, Json)> = Vec::new();
        push_entry(&mut entries, "x0", field_or_null(v, "x0"));
        push_entry(&mut entries, "y0", field_or_null(v, "y0"));
        push_entry(&mut entries, "z", field_or_null(v, "z"));
        push_entry(&mut entries, "x1", field_or_null(v, "x1"));
        push_entry(&mut entries, "y1", field_or_null(v, "y1"));
        assert(crate::json::entries_view(&entries) =~= seq![
            ("x0"@, or_null(v@.get("x0"@))),
            ("y0"@, or_null(v@.get("y0"@))),
            ("z"@, or_null(v@.get("z"@))),
            ("x1"@, or_null(v@.get("x1"@))),
            ("y1"@, or_null(v@.get("y1"@))),
        ]);
        Json::Object(entries)
    }

    /// The `ZoneRect` records of the zone, as (row text, entity), sorted by
    /// row text.
    fn sorted_zone_rects(&self, zone_id: &str) -> (r: Vec<(String, u32)>)
        ensures
            self.rect_listing(zone_id@, pairs_view(r@)),
    {
        let rents = self.get_entities_with_component("ZoneRect");
        let mut out: Vec<(String, u32)> = Vec::new();
        let mut j: usize = 0;
        while j < rents.len()
            invariant
                j <= rents.len(),
                self.allowed("ZoneRect"@, self.current_mode@) ==> forall|e: u32| #[trigger] self.comp("ZoneRect"@, e) is Some ==> rents@.contains(e),
                forall|a: int, b: int| 0 <= a < rents@.len() && 0 <= b < rents@.len() && a != b ==> rents@[a] != rents@[b],
                sorted_by_id(pairs_view(out@)),
                self.rects_ok(zone_id@, pairs_view(out@)),
                distinct_ents(pairs_view(out@)),
                ents_within(pairs_view(out@), rents@.subrange(0, j as int)),
                forall|k: int| 0 <= k < j && self.is_zone_rect(zone_id@, #[trigger] rents@[k]) ==> listed(pairs_view(out@), rents@[k]),
            decreases rents.len() - j,
        {
            let e = rents[j];
            let ghost ov = pairs_view(out@);
            let ghost pre = rents@.subrange(0, j as int);
            proof {
                assert(rents@.subrange(0, j + 1) =~= pre.push(e));
                assert(!pre.contains(e)) by {
                    if pre.contains(e) {
                        let k = choose|k: int| 0 <= k < pre.len() && pre[k] == e;
                        assert(rents@[k] == rents@[j as int]);
                    }
                }
            }
            let text: Option<String> = match self.get_component(e, "ZoneRect") {
                Some(v) => {
                    let mine = match v.get_str("zone_id") {
                        Some(z) => crate::json::str_eq(z, zone_id),
                        None => false,
                    };
                    if mine {
                        let row = Self::rect_row_exec(v);
                        Some(json_to_text(&row))
                    } else {
                        None
                    }
                },
                None => None,
            };
            match text {
                Some(t) => {
                    let ghost tv = t@;
                    assert(self.is_zone_rect(zone_id@, e) && tv == json_text(self.rect_row_of(e)));
                    insert_by_id(&mut out, (t, e));
                    proof {
                        let q = choose|q: int| 0 <= q <= ov.len() && pairs_view(out@) == ov.insert(q, (tv, e));
                        let nv = pairs_view(out@);
                        lemma_insert_pair(ov, q, (tv, e), pre);
                        assert forall|i: int| 0 <= i < nv.len() implies #[trigger] self.is_zone_rect(zone_id@, nv[i].1)
                            && nv[i].0 == json_text(self.rect_row_of(nv[i].1)) by {
                            if i < q {
                                assert(nv[i] == ov[i]);
                                assert(self.is_zone_rect(zone_id@, ov[i].1));
                            } else if i > q {
                                assert(nv[i] == ov[i - 1]);
                                assert(self.is_zone_rect(zone_id@, ov[i - 1].1));
                            } else {
                                assert(nv[i] == (tv, e));
                            }
                        }
                        assert(self.rects_ok(zone_id@, nv));
                        assert forall|k: int| 0 <= k < j + 1 && self.is_zone_rect(zone_id@, #[trigger] rents@[k]) implies listed(nv, rents@[k]) by {
                            if k < j {
                                assert(listed(ov, rents@[k]));
                            }
                        }
                    }
                },
                None => {
                    proof {
                        assert(pairs_view(out@) == ov);
                        assert(!self.is_zone_rect(zone_id@, e));
                        assert forall|i: int| 0 <= i < ov.len() implies #[trigger] rents@.subrange(0, j + 1).contains(ov[i].1) by {
                            assert(pre.contains(ov[i].1));
                            let k = choose|k: int| 0 <= k < pre.len() && pre[k] == ov[i].1;
                            assert(rents@.subrange(0, j + 1)[k] == ov[i].1);
                        }
                    }
                },
            }
            j = j + 1;
        }
        proof {
            let pv = pairs_view(out@);
            assert forall|e: u32| #[trigger] self.is_zone_rect(zone_id@, e) implies listed(pv, e) by {
                assert(self.comp("ZoneRect"@, e) is Some);
                let k = choose|k: int| 0 <= k < rents@.len() && rents@[k] == e;
                assert(self.is_zone_rect(zone_id@, rents@[k]));
            }
        }
        out
    }

    /// The zone as `{id, label, kind, rects, cells}`, or `None` when no
    /// `Zone` record carries the id: `rects` are its `ZoneRect` records as
    /// `{x0, y0, z, x1, y1}` rows sorted by their JSON text, `cells` the
    /// cells assigned to it directly (no references followed, no rectangle
    /// cells).
    pub fn get_zone(&self, zone_id: &str) -> (r: Option<Json>)
        ensures
            r is None <==> forall|e: u32| !#[trigger] self.is_zone_record(zone_id@, e),
            r matches Some(z) ==> exists|e: u32, ps: Seq<(Seq<char>, u32)>, cs: Seq<JsonV>| #[trigger] self.describes_zone(zone_id@, z@, e, ps, cs),
    {
        let records = self.zone_record_entities(zone_id);
        if records.len() == 0 {
            proof {
                assert forall|e: u32| !#[trigger] self.is_zone_record(zone_id@, e) by {
                    if self.is_zone_record(zone_id@, e) {
                        assert(records@.contains(e));
                    }
                }
            }
            return None;
        }
        let e = records[0];
        assert(records@.contains(e));
        let rec = match self.get_component(e, "Zone") {
            Some(v) => v,
            None => {
                assert(false);
                return None;
            },
        };
        let ghost recv = rec@;
        let pairs = self.sorted_zone_rects(zone_id);
        let ghost pv = pairs_view(pairs@);
        let mut rows: Vec<Json> = Vec::new();
        let mut i: usize = 0;
        while i < pairs.len()
            invariant
                i <= pairs.len(),
                pv == pairs_view(pairs@),
                self.rect_listing(zone_id@, pv),
                items_view(&rows) == self.rect_rows(pv).subrange(0, i as int),
            decreases pairs.len() - i,
        {
            let re = pairs[i].1;
            assert(pv[i as int].1 == re);
            assert(self.is_zone_rect(zone_id@, pv[i as int].1));
            let v = match self.get_component(re, "ZoneRect") {
                Some(v) => v,
                None => {
                    assert(false);
                    return None;
                },
            };
            let row = Self::rect_row_exec(v);
            let ghost rv = row@;
            assert(rv == self.rect_row_of(pv[i as int].1));
            let ghost before = items_view(&rows);
            rows.push(row);
            assert(items_view(&rows) =~= before.push(rv));
            assert(items_view(&rows) =~= self.rect_rows(pv).subrange(0, i + 1));
            i = i + 1;
        }
        assert(self.rect_rows(pv).subrange(0, i as int) =~= self.rect_rows(pv));
        let cells = self.zone_member_cells(zone_id);
        let ghost rowsv = items_view(&rows);
        let ghost cellsv = items_view(&cells);
        let mut entries: Vec<(String, Json)> = Vec::new();
        push_entry(&mut entries, "id", field_or_null(rec, "id"));
        push_entry(&mut entries, "label", field_or_null(rec, "label"));
        push_entry(&mut entries, "kind", field_or_null(rec, "kind"));
        push_entry(&mut entries, "rects", Json::Array(rows));
        push_entry(&mut entries, "cells", Json::Array(cells));
        assert(crate::json::entries_view(&entries) =~= seq![
            ("id"@, or_null(recv.get("id"@))),
            ("label"@, or_null(recv.get("label"@))),
            ("kind"@, or_null(recv.get("kind"@))),
            ("rects"@, JsonV::Array(rowsv)),
            ("cells"@, JsonV::Array(cellsv)),
        ]);
        let z = Json::Object(entries);
        proof {
            assert(z@ == zone_json(recv, rowsv, cellsv));
            assert(self.gated("Zone"@, e).unwrap() == recv);
            assert(self.describes_zone(zone_id@, z@, e, pv, cellsv));
        }
        Some(z)
    }
}

} // verus!
