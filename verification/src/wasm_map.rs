//! The flat map model of the WASM world: a list of cells, an adjacency
//! table and per-cell metadata, and the fluid simulation that runs on it.
use vstd::prelude::*;

use crate::collections::KeyMap;
use crate::json::{entries_view, Json, JsonV};
use crate::map::cell_key::{CellKey, CellKeyV};
use crate::text::chars_of;

verus! {

/// Lexicographic order on character sequences, by code point.
pub open spec fn seq_le(a: Seq<char>, b: Seq<char>) -> bool
    decreases a.len(),
{
    if a.len() == 0 {
        true
    } else if b.len() == 0 {
        false
    } else if a[0] < b[0] {
        true
    } else if a[0] > b[0] {
        false
    } else {
        seq_le(a.drop_first(), b.drop_first())
    }
}

/// Whether `a` sorts before `b` or with it, as strings do.
pub fn str_le(a: &str, b: &str) -> (r: bool)
    ensures
        r == seq_le(a@, b@),
{
    let ca = chars_of(a);
    let cb = chars_of(b);
    let mut i: usize = 0;
    assert(a@.subrange(0, a@.len() as int) =~= a@);
    assert(b@.subrange(0, b@.len() as int) =~= b@);
    while i < ca.len() && i < cb.len() && ca[i] == cb[i]
        invariant
            ca@ == a@,
            cb@ == b@,
            i <= ca.len(),
            i <= cb.len(),
            seq_le(a@, b@) == seq_le(a@.subrange(i as int, a@.len() as int), b@.subrange(i as int, b@.len() as int)),
        decreases ca.len() - i,
    {
        proof {
            let sa = a@.subrange(i as int, a@.len() as int);
            let sb = b@.subrange(i as int, b@.len() as int);
            assert(sa.drop_first() =~= a@.subrange(i + 1, a@.len() as int));
            assert(sb.drop_first() =~= b@.subrange(i + 1, b@.len() as int));
        }
        i = i + 1;
    }
    let ghost sa = a@.subrange(i as int, a@.len() as int);
    let ghost sb = b@.subrange(i as int, b@.len() as int);
    if i == ca.len() {
        true
    } else if i == cb.len() {
        false
    } else {
        assert(sa[0] == ca@[i as int] && sb[0] == cb@[i as int]);
        ca[i] < cb[i]
    }
}

/// The sort key of a cell: grid cells first, higher levels first, then by
/// coordinates; province cells last, by id.
pub open spec fn cell_le(a: CellKeyV, b: CellKeyV) -> bool {
    match (grid_key(a), grid_key(b)) {
        (Some((za, pa, qa)), Some((zb, pb, qb))) => za > zb || (za == zb && (pa < pb || (pa == pb && qa <= qb))),
        (Some(_), None) => true,
        (None, Some(_)) => false,
        (None, None) => seq_le(province_id(a), province_id(b)),
    }
}

/// Level and coordinates of a grid cell.
pub open spec fn grid_key(c: CellKeyV) -> Option<(i32, i32, i32)> {
    match c {
        CellKeyV::Square { x, y, z } => Some((z, x, y)),
        CellKeyV::Hex { q, r, z } => Some((z, q, r)),
        CellKeyV::Province { .. } => None,
    }
}

/// Id of a province cell.
pub open spec fn province_id(c: CellKeyV) -> Seq<char> {
    match c {
        CellKeyV::Province { id } => id,
        _ => Seq::empty(),
    }
}

/// Whether `a` sorts before `b` or with it.
pub fn cell_key_le(a: &CellKey, b: &CellKey) -> (r: bool)
    ensures
        r == cell_le(a@, b@),
{
    match (a, b) {
        (CellKey::Province { id: ia }, CellKey::Province { id: ib }) => str_le(ia.as_str(), ib.as_str()),
        (CellKey::Province { .. }, _) => false,
        (_, CellKey::Province { .. }) => true,
        _ => {
            let (za, pa, qa) = grid_parts(a);
            let (zb, pb, qb) = grid_parts(b);
            za > zb || (za == zb && (pa < pb || (pa == pb && qa <= qb)))
        },
    }
}

fn grid_parts(c: &CellKey) -> (r: (i32, i32, i32))
    requires
        grid_key(c@) is Some,
    ensures
        grid_key(c@) == Some(r),
{
    match c {
        CellKey::Square { x, y, z } => (*z, *x, *y),
        CellKey::Hex { q, r, z } => (*z, *q, *r),
        CellKey::Province { .. } => (0, 0, 0),
    }
}

/// Where a stable insertion places `x` in the sorted `s`: after every
/// element that sorts with it or before it at the end.
pub open spec fn insert_pos(s: Seq<CellKeyV>, x: CellKeyV) -> int
    decreases s.len(),
{
    if s.len() == 0 {
        0
    } else if cell_le(s.last(), x) {
        s.len() as int
    } else {
        insert_pos(s.drop_last(), x)
    }
}

/// Stable sort of cells by their sort key.
pub open spec fn sort_cells(s: Seq<CellKeyV>) -> Seq<CellKeyV>
    decreases s.len(),
{
    if s.len() == 0 {
        s
    } else {
        let sorted = sort_cells(s.drop_last());
        sorted.insert(insert_pos(sorted, s.last()), s.last())
    }
}

proof fn lemma_insert_pos_bound(s: Seq<CellKeyV>, x: CellKeyV)
    ensures
        0 <= insert_pos(s, x) <= s.len(),
    decreases s.len(),
{
    if s.len() > 0 && !cell_le(s.last(), x) {
        lemma_insert_pos_bound(s.drop_last(), x);
    }
}

proof fn lemma_sort_len(s: Seq<CellKeyV>)
    ensures
        sort_cells(s).len() == s.len(),
    decreases s.len(),
{
    if s.len() > 0 {
        lemma_sort_len(s.drop_last());
        lemma_insert_pos_bound(sort_cells(s.drop_last()), s.last());
    }
}

/// The views of a list of cells.
pub open spec fn cells_view(v: Seq<CellKey>) -> Seq<CellKeyV> {
    v.map_values(|c: CellKey| c@)
}

/// Copies of `cells`, stably sorted by their sort key.
pub fn sorted_cells(cells: &Vec<CellKey>) -> (r: Vec<CellKey>)
    ensures
        cells_view(r@) == sort_cells(cells_view(cells@)),
{
    let mut out: Vec<CellKey> = Vec::new();
    let mut i: usize = 0;
    while i < cells.len()
        invariant
            i <= cells.len(),
            cells_view(out@) == sort_cells(cells_view(cells@.subrange(0, i as int))),
        decreases cells.len() - i,
    {
        let x = cells[i].copy_key();
        let ghost sv = cells_view(out@);
        let mut j: usize = out.len();
        proof {
            assert(sv.subrange(0, j as int) =~= sv);
        }
        while j > 0 && !cell_key_le(&out[j - 1], &x)
            invariant
                j <= out.len(),
                sv == cells_view(out@),
                insert_pos(sv, x@) == insert_pos(sv.subrange(0, j as int), x@),
            decreases j,
        {
            proof {
                assert(sv.subrange(0, j as int).drop_last() =~= sv.subrange(0, j - 1));
            }
            j = j - 1;
        }
        proof {
            if j > 0 {
                assert(sv.subrange(0, j as int).last() == sv[j - 1]);
            } else {
                assert(sv.subrange(0, 0) =~= Seq::<CellKeyV>::empty());
            }
            assert(insert_pos(sv, x@) == j);
            let pre = cells_view(cells@.subrange(0, i as int));
            let post = cells_view(cells@.subrange(0, i + 1));
            assert(post.drop_last() =~= pre);
            assert(post.last() == x@);
        }
        out.insert(j, x);
        proof {
            assert(cells_view(out@) =~= sv.insert(j as int, x@));
        }
        i = i + 1;
    }
    assert(cells@.subrange(0, i as int) =~= cells@);
    out
}

/// Per-type fluid levels of a cell.
#[derive(Debug, Clone, Copy, PartialEq, Eq, Structural)]
pub struct FluidState {
    pub water: i64,
    pub magma: i64,
}

/// A level, or 0 when negative.
pub open spec fn max0(v: i64) -> i64 {
    if v < 0 { 0 } else { v }
}

/// An optional level, 0 when absent.
pub open spec fn or0(v: Option<i64>) -> i64 {
    match v {
        Some(x) => x,
        None => 0,
    }
}

/// The fluid a cell's metadata records: either a `{"type", "level"}` pair
/// or separate `water` and `magma` levels; negative levels count as 0.
pub open spec fn fluid_of(meta: JsonV) -> FluidState {
    match meta.get("fluid"@) {
        None => FluidState { water: 0, magma: 0 },
        Some(f) => match f.int_at("level"@) {
            Some(level) => match f.str_at("type"@) {
                Some(t) => if t == "water"@ {
                    FluidState { water: max0(level), magma: 0 }
                } else if t == "magma"@ {
                    FluidState { water: 0, magma: max0(level) }
                } else {
                    FluidState { water: 0, magma: 0 }
                },
                None => FluidState { water: 0, magma: 0 },
            },
            None => FluidState { water: max0(or0(f.int_at("water"@))), magma: max0(or0(f.int_at("magma"@))) },
        },
    }
}

/// Read the fluid recorded in a cell's metadata.
pub fn read_fluid(meta: &Json) -> (r: FluidState)
    ensures
        r == fluid_of(meta@),
        r.water >= 0 && r.magma >= 0,
{
    let zero = FluidState { water: 0, magma: 0 };
    let f = match meta.get("fluid") {
        Some(f) => f,
        None => {
            return zero;
        },
    };
    match f.get_i64("level") {
        Some(level) => {
            let lv = if level < 0 { 0 } else { level };
            match f.get_str("type") {
                Some(t) => {
                    if crate::json::str_eq(t, "water") {
                        proof { reveal_strlit("water"); }
                        FluidState { water: lv, magma: 0 }
                    } else if crate::json::str_eq(t, "magma") {
                        proof { reveal_strlit("magma"); reveal_strlit("water"); }
                        FluidState { water: 0, magma: lv }
                    } else {
                        proof { reveal_strlit("magma"); reveal_strlit("water"); }
                        zero
                    }
                },
                None => zero,
            }
        },
        None => {
            let w = match f.get_i64("water") { Some(v) => v, None => 0 };
            let m = match f.get_i64("magma") { Some(v) => v, None => 0 };
            FluidState { water: if w < 0 { 0 } else { w }, magma: if m < 0 { 0 } else { m } }
        },
    }
}

/// The JSON a fluid state is written as.
pub open spec fn fluid_json(s: FluidState) -> JsonV {
    if s.water > 0 && s.magma > 0 {
        JsonV::Object(seq![("magma"@, JsonV::Int(s.magma)), ("water"@, JsonV::Int(s.water))])
    } else if s.water > 0 {
        JsonV::Object(seq![("level"@, JsonV::Int(s.water)), ("type"@, JsonV::Str("water"@))])
    } else if s.magma > 0 {
        JsonV::Object(seq![("level"@, JsonV::Int(s.magma)), ("type"@, JsonV::Str("magma"@))])
    } else {
        JsonV::Object(seq![("level"@, JsonV::Int(0)), ("type"@, JsonV::Str("water"@))])
    }
}

fn pair(k: &str, v: Json) -> (r: (String, Json))
    ensures
        r.0@ == k@,
        r.1 == v,
{
    (String::from_str(k), v)
}

fn object2(a: (String, Json), b: (String, Json)) -> (r: Json)
    ensures
        r@ == JsonV::Object(seq![(a.0@, a.1@), (b.0@, b.1@)]),
{
    let ghost va = (a.0@, a.1@);
    let ghost vb = (b.0@, b.1@);
    let mut e: Vec<(String, Json)> = Vec::new();
    e.push(a);
    e.push(b);
    let ghost ev = entries_view(&e);
    assert(ev[0] == va && ev[1] == vb);
    assert(ev =~= seq![va, vb]);
    Json::Object(e)
}

fn object3(a: (String, Json), b: (String, Json), c: (String, Json)) -> (r: Json)
    ensures
        r@ == JsonV::Object(seq![(a.0@, a.1@), (b.0@, b.1@), (c.0@, c.1@)]),
{
    let ghost va = (a.0@, a.1@);
    let ghost vb = (b.0@, b.1@);
    let ghost vc = (c.0@, c.1@);
    let mut e: Vec<(String, Json)> = Vec::new();
    e.push(a);
    e.push(b);
    e.push(c);
    let ghost ev = entries_view(&e);
    assert(ev[0] == va && ev[1] == vb && ev[2] == vc);
    assert(ev =~= seq![va, vb, vc]);
    Json::Object(e)
}

fn object1(a: (String, Json)) -> (r: Json)
    ensures
        r@ == JsonV::Object(seq![(a.0@, a.1@)]),
{
    let ghost va = (a.0@, a.1@);
    let mut e: Vec<(String, Json)> = Vec::new();
    e.push(a);
    let ghost ev = entries_view(&e);
    assert(ev[0] == va);
    assert(ev =~= seq![va]);
    Json::Object(e)
}

/// Write a fluid state as JSON.
pub fn write_fluid(s: FluidState) -> (r: Json)
    ensures
        r@ == fluid_json(s),
{
    if s.water > 0 && s.magma > 0 {
        object2(pair("magma", Json::Int(s.magma)), pair("water", Json::Int(s.water)))
    } else if s.water > 0 {
        object2(pair("level", Json::Int(s.water)), pair("type", Json::from_str("water")))
    } else if s.magma > 0 {
        object2(pair("level", Json::Int(s.magma)), pair("type", Json::from_str("magma")))
    } else {
        object2(pair("level", Json::Int(0)), pair("type", Json::from_str("water")))
    }
}

/// A cell key in its JSON form: `{"Square": {"x", "y", "z"}}`,
/// `{"Hex": {"q", "r", "z"}}` or `{"Province": {"id"}}`.
pub open spec fn cell_json(c: CellKeyV) -> JsonV {
    match c {
        CellKeyV::Square { x, y, z } => JsonV::Object(seq![("Square"@, JsonV::Object(seq![
            ("x"@, JsonV::Int(x as i64)), ("y"@, JsonV::Int(y as i64)), ("z"@, JsonV::Int(z as i64))]))]),
        CellKeyV::Hex { q, r, z } => JsonV::Object(seq![("Hex"@, JsonV::Object(seq![
            ("q"@, JsonV::Int(q as i64)), ("r"@, JsonV::Int(r as i64)), ("z"@, JsonV::Int(z as i64))]))]),
        CellKeyV::Province { id } => JsonV::Object(seq![("Province"@, JsonV::Object(seq![("id"@, JsonV::Str(id))]))]),
    }
}

/// Write a cell key as JSON.
pub fn write_cell(c: &CellKey) -> (r: Json)
    ensures
        r@ == cell_json(c@),
{
    match c {
        CellKey::Square { x, y, z } => object1(pair("Square", object3(
            pair("x", Json::Int(*x as i64)), pair("y", Json::Int(*y as i64)), pair("z", Json::Int(*z as i64))))),
        CellKey::Hex { q, r, z } => object1(pair("Hex", object3(
            pair("q", Json::Int(*q as i64)), pair("r", Json::Int(*r as i64)), pair("z", Json::Int(*z as i64))))),
        CellKey::Province { id } => object1(pair("Province", object1(pair("id", Json::Str(id.clone()))))),
    }
}

/// The `steam` event payload of a magma-water interaction in a cell.
pub open spec fn steam_json(c: CellKeyV, s: FluidState) -> JsonV {
    JsonV::Object(seq![("cell"@, cell_json(c)), ("magma"@, JsonV::Int(s.magma)), ("water"@, JsonV::Int(s.water))])
}

/// Metadata `m` with `k` set to `v` (a non-object becomes `{k: v}`).
pub open spec fn set_key(m: JsonV, k: Seq<char>, v: JsonV) -> JsonV {
    match m {
        JsonV::Object(e) => JsonV::Object(crate::json::entry_insert(e, k, v)),
        _ => JsonV::Object(seq![(k, v)]),
    }
}

/// Metadata `m` with its `"fluid"` entry set to the state `s`; the other
/// entries stay.
pub open spec fn with_fluid(m: JsonV, s: FluidState) -> JsonV {
    set_key(m, "fluid"@, fluid_json(s))
}

/// Metadata `m` with its `walkable` and `transparent` flags set.
pub open spec fn with_flags(m: JsonV, walkable: bool, transparent: bool) -> JsonV {
    set_key(set_key(m, "walkable"@, JsonV::Bool(walkable)), "transparent"@, JsonV::Bool(transparent))
}

/// Work state of one fluid tick: metadata written so far, the walkable and
/// transparent flags of cells blocked this tick, and the steam payloads.
pub struct FluidTick {
    pub pending: Map<CellKeyV, JsonV>,
    pub blocking: Map<CellKeyV, (Option<bool>, Option<bool>)>,
    pub steam: Seq<JsonV>,
}

/// The metadata of `c` as the tick sees it: written this tick, else
/// stored, else `null`.
pub open spec fn meta_at(t: FluidTick, meta: Map<CellKeyV, JsonV>, c: CellKeyV) -> JsonV {
    if t.pending.contains_key(c) {
        t.pending[c]
    } else if meta.contains_key(c) {
        meta[c]
    } else {
        JsonV::Null
    }
}

/// The cell one level below a grid cell.
pub open spec fn below_cell(c: CellKeyV) -> Option<CellKeyV> {
    match c {
        CellKeyV::Square { x, y, z } => Some(CellKeyV::Square { x, y, z: (z - 1) as i32 }),
        CellKeyV::Hex { q, r, z } => Some(CellKeyV::Hex { q, r, z: (z - 1) as i32 }),
        CellKeyV::Province { .. } => None,
    }
}

/// The smaller of two integers.
pub open spec fn min_i(a: int, b: int) -> int {
    if a <= b { a } else { b }
}

/// Downward flow: one unit of water and one of magma move into the cell
/// below while it holds less than `max` of that fluid.
pub open spec fn flow_down(s: FluidState, b: FluidState, max: i64) -> (FluidState, FluidState) {
    let tw = if s.water > 0 && b.water < max { min_i(min_i(s.water as int, 1), max - b.water) } else { 0 };
    let s1 = FluidState { water: (s.water - tw) as i64, magma: s.magma };
    let b1 = FluidState { water: (b.water + tw) as i64, magma: b.magma };
    let tm = if s1.magma > 0 && b1.magma < max { min_i(min_i(s1.magma as int, 1), max - b1.magma) } else { 0 };
    (FluidState { water: s1.water, magma: (s1.magma - tm) as i64 }, FluidState { water: b1.water, magma: (b1.magma + tm) as i64 })
}

/// Sideways flow: up to one unit of each fluid moves into a neighbor that
/// holds less, by half the difference and not past `max`.
pub open spec fn flow_side(s: FluidState, n: FluidState, max: i64) -> (FluidState, FluidState) {
    let tw = if n.water < s.water { min_i(min_i((s.water - n.water) / 2, 1), max - n.water) } else { 0 };
    let tw = if tw > 0 { tw } else { 0 };
    let s1 = FluidState { water: (s.water - tw) as i64, magma: s.magma };
    let n1 = FluidState { water: (n.water + tw) as i64, magma: n.magma };
    let tm = if n1.magma < s1.magma { min_i(min_i((s1.magma - n1.magma) / 2, 1), max - n1.magma) } else { 0 };
    let tm = if tm > 0 { tm } else { 0 };
    (FluidState { water: s1.water, magma: (s1.magma - tm) as i64 }, FluidState { water: n1.water, magma: (n1.magma + tm) as i64 })
}

/// Sideways flow moves at most one unit of each fluid per neighbor per tick:
/// exactly one unit of water moves when the cell holds at least two more
/// than the neighbor and the neighbor is below `max`, none otherwise, and
/// likewise for magma; what leaves the cell arrives at the neighbor.
pub proof fn law_flow_side_one_unit(s: FluidState, n: FluidState, max: i64)
    requires
        fluid_ok(s),
        fluid_ok(n),
        max >= 0,
    ensures
        s.water - flow_side(s, n, max).0.water == (if s.water - n.water >= 2 && n.water < max { 1int } else { 0int }),
        flow_side(s, n, max).1.water - n.water == s.water - flow_side(s, n, max).0.water,
        s.magma - flow_side(s, n, max).0.magma == (if s.magma - n.magma >= 2 && n.magma < max { 1int } else { 0int }),
        flow_side(s, n, max).1.magma - n.magma == s.magma - flow_side(s, n, max).0.magma,
{
    if n.water < s.water {
        if s.water - n.water >= 2 {
            assert((s.water - n.water) / 2 >= 1);
        } else {
            assert((s.water - n.water) / 2 == 0);
        }
    }
    if n.magma < s.magma {
        if s.magma - n.magma >= 2 {
            assert((s.magma - n.magma) / 2 >= 1);
        } else {
            assert((s.magma - n.magma) / 2 == 0);
        }
    }
}

/// Downward flow moves one unit of each fluid into the cell below while the
/// cell holds some and the cell below holds less than `max`, none otherwise;
/// what leaves arrives below.
pub proof fn law_flow_down_one_unit(s: FluidState, b: FluidState, max: i64)
    requires
        fluid_ok(s),
        fluid_ok(b),
        max >= 0,
    ensures
        s.water - flow_down(s, b, max).0.water == (if s.water > 0 && b.water < max { 1int } else { 0int }),
        flow_down(s, b, max).1.water - b.water == s.water - flow_down(s, b, max).0.water,
        s.magma - flow_down(s, b, max).0.magma == (if s.magma > 0 && b.magma < max { 1int } else { 0int }),
        flow_down(s, b, max).1.magma - b.magma == s.magma - flow_down(s, b, max).0.magma,
{
}

/// The tick with `v` written as the metadata of `c`.
pub open spec fn write_meta(t: FluidTick, c: CellKeyV, v: JsonV) -> FluidTick {
    FluidTick { pending: t.pending.insert(c, v), ..t }
}

/// Sideways flow from a cell with state `s` into its neighbors `ns`, in
/// order; neighbors that are not cells of the map are skipped.
pub open spec fn run_sides(t: FluidTick, meta: Map<CellKeyV, JsonV>, cells: Seq<CellKeyV>, s: FluidState, ns: Seq<CellKeyV>, max: i64) -> (FluidTick, FluidState)
    decreases ns.len(),
{
    if ns.len() == 0 {
        (t, s)
    } else {
        let (t1, s1) = run_sides(t, meta, cells, s, ns.drop_last(), max);
        let n = ns.last();
        if !cells.contains(n) {
            (t1, s1)
        } else {
            let before = fluid_of(meta_at(t1, meta, n));
            let (s2, after) = flow_side(s1, before, max);
            if after != before {
                (write_meta(t1, n, with_fluid(meta_at(t1, meta, n), after)), s2)
            } else {
                (t1, s2)
            }
        }
    }
}

/// The neighbors recorded for `c`, in stored order.
pub open spec fn nbrs_of(nbrs: Map<CellKeyV, Seq<CellKeyV>>, c: CellKeyV) -> Seq<CellKeyV> {
    if nbrs.contains_key(c) { nbrs[c] } else { Seq::empty() }
}

/// One cell's turn: magma meets water into steam, fluid flows down, then
/// sideways, the cell's fluid is written back, and a cell holding at least
/// `block` units is marked unwalkable and opaque (its earlier flags are
/// restored once it drops below).
pub open spec fn step_cell(t: FluidTick, meta: Map<CellKeyV, JsonV>, cells: Seq<CellKeyV>, nbrs: Map<CellKeyV, Seq<CellKeyV>>, c: CellKeyV, max: i64, block: i64) -> FluidTick {
    let m = meta_at(t, meta, c);
    let s = fluid_of(m);
    if s.water == 0 && s.magma == 0 {
        t
    } else {
        let s1 = if s.water > 0 && s.magma > 0 { FluidState { water: (s.water - 1) as i64, magma: (s.magma - 1) as i64 } } else { s };
        let t1 = if s.water > 0 && s.magma > 0 { FluidTick { steam: t.steam.push(steam_json(c, s1)), ..t } } else { t };
        let (t2, s2) = match below_cell(c) {
            Some(b) => if cells.contains(b) {
                let bs = fluid_of(meta_at(t1, meta, b));
                let (sd, bd) = flow_down(s1, bs, max);
                (if bd != bs { write_meta(t1, b, with_fluid(meta_at(t1, meta, b), bd)) } else { t1 }, sd)
            } else {
                (t1, s1)
            },
            None => (t1, s1),
        };
        let (t3, s3) = run_sides(t2, meta, cells, s2, sort_cells(nbrs_of(nbrs, c)), max);
        let t4 = write_meta(t3, c, with_fluid(meta_at(t3, meta, c), s3));
        if s3.water + s3.magma >= block {
            let t5 = if t4.blocking.contains_key(c) { t4 } else {
                FluidTick { blocking: t4.blocking.insert(c, (m.bool_at("walkable"@), m.bool_at("transparent"@))), ..t4 }
            };
            write_meta(t5, c, with_flags(meta_at(t5, meta, c), false, false))
        } else if t4.blocking.contains_key(c) {
            let (w, tr) = t4.blocking[c];
            let t5 = FluidTick { blocking: t4.blocking.remove(c), ..t4 };
            write_meta(t5, c, with_flags(meta_at(t5, meta, c), match w { Some(b) => b, None => true }, match tr { Some(b) => b, None => true }))
        } else {
            t4
        }
    }
}

/// The tick after every cell of `order` has had its turn, in order.
pub open spec fn run_cells(meta: Map<CellKeyV, JsonV>, cells: Seq<CellKeyV>, nbrs: Map<CellKeyV, Seq<CellKeyV>>, order: Seq<CellKeyV>, max: i64, block: i64) -> FluidTick
    decreases order.len(),
{
    if order.len() == 0 {
        FluidTick { pending: Map::empty(), blocking: Map::empty(), steam: Seq::empty() }
    } else {
        step_cell(run_cells(meta, cells, nbrs, order.drop_last(), max, block), meta, cells, nbrs, order.last(), max, block)
    }
}

/// A fluid state with both levels non-negative.
pub open spec fn fluid_ok(s: FluidState) -> bool {
    s.water >= 0 && s.magma >= 0
}

fn min_i64(a: i64, b: i64) -> (r: i64)
    ensures
        r == min_i(a as int, b as int),
{
    if a <= b { a } else { b }
}

/// Downward flow between a cell and the one below it.
pub fn flow_down_step(s: FluidState, b: FluidState, max: i64) -> (r: (FluidState, FluidState))
    requires
        fluid_ok(s),
        fluid_ok(b),
        max >= 0,
    ensures
        r == flow_down(s, b, max),
        fluid_ok(r.0),
        fluid_ok(r.1),
{
    let tw: i64 = if s.water > 0 && b.water < max { min_i64(min_i64(s.water, 1), max - b.water) } else { 0 };
    let s1 = FluidState { water: s.water - tw, magma: s.magma };
    let b1 = FluidState { water: b.water + tw, magma: b.magma };
    let tm: i64 = if s1.magma > 0 && b1.magma < max { min_i64(min_i64(s1.magma, 1), max - b1.magma) } else { 0 };
    (FluidState { water: s1.water, magma: s1.magma - tm }, FluidState { water: b1.water, magma: b1.magma + tm })
}

/// Sideways flow between a cell and one neighbor.
pub fn flow_side_step(s: FluidState, n: FluidState, max: i64) -> (r: (FluidState, FluidState))
    requires
        fluid_ok(s),
        fluid_ok(n),
        max >= 0,
    ensures
        r == flow_side(s, n, max),
        fluid_ok(r.0),
        fluid_ok(r.1),
{
    let tw0: i64 = if n.water < s.water { min_i64(min_i64((s.water - n.water) / 2, 1), max - n.water) } else { 0 };
    let tw: i64 = if tw0 > 0 { tw0 } else { 0 };
    let s1 = FluidState { water: s.water - tw, magma: s.magma };
    let n1 = FluidState { water: n.water + tw, magma: n.magma };
    let tm0: i64 = if n1.magma < s1.magma { min_i64(min_i64((s1.magma - n1.magma) / 2, 1), max - n1.magma) } else { 0 };
    let tm: i64 = if tm0 > 0 { tm0 } else { 0 };
    (FluidState { water: s1.water, magma: s1.magma - tm }, FluidState { water: n1.water, magma: n1.magma + tm })
}

/// The flat map of the WASM world.
pub struct WasmMap {
    /// Topology type: "square", "hex", "province", or "none"
    pub topology_type: String,
    /// All cells in the map
    pub cells: Vec<CellKey>,
    /// Adjacency list: cell → its neighbor cells
    pub neighbors: KeyMap<CellKey, Vec<CellKey>>,
    /// Per-cell metadata
    pub cell_metadata: KeyMap<CellKey, Json>,
}

/// A scale-generic link from a source map to a target map (WASM bridge
/// mirror of the world's map link).
pub struct WasmMapLink {
    /// Name of the target map.
    pub target_map: String,
    /// Cell on the source map that anchors the link.
    pub source_cell: CellKey,
    /// Cell on the target map that anchors the link.
    pub target_cell: CellKey,
}

/// Stored JSON values by their views.
pub open spec fn json_map(m: Map<CellKeyV, Json>) -> Map<CellKeyV, JsonV> {
    Map::new(|k: CellKeyV| m.contains_key(k), |k: CellKeyV| m[k]@)
}

/// Neighbor lists by their views.
pub open spec fn nbr_map(m: Map<CellKeyV, Vec<CellKey>>) -> Map<CellKeyV, Seq<CellKeyV>> {
    Map::new(|k: CellKeyV| m.contains_key(k), |k: CellKeyV| cells_view(m[k]@))
}

/// The views of a list of JSON values.
pub open spec fn jsons_view(v: Seq<Json>) -> Seq<JsonV> {
    v.map_values(|j: Json| j@)
}

struct FluidWork {
    pending: KeyMap<CellKey, Json>,
    blocking: KeyMap<CellKey, (Option<bool>, Option<bool>)>,
    steam: Vec<Json>,
}

impl FluidWork {
    spec fn tick(self) -> FluidTick {
        FluidTick { pending: json_map(self.pending@), blocking: self.blocking@, steam: jsons_view(self.steam@) }
    }

    fn write(&mut self, c: &CellKey, v: Json)
        ensures
            final(self).tick() == write_meta(old(self).tick(), c@, v@),
    {
        let ghost vv = v@;
        self.pending.insert(c.copy_key(), v);
        assert(json_map(self.pending@) =~= json_map(old(self).pending@).insert(c@, vv));
    }

    fn meta_of(&self, meta: &KeyMap<CellKey, Json>, c: &CellKey) -> (r: Json)
        ensures
            r@ == meta_at(self.tick(), json_map(meta@), c@),
    {
        match self.pending.get(c) {
            Some(v) => v.deep_clone(),
            None => match meta.get(c) {
                Some(v) => v.deep_clone(),
                None => Json::Null,
            },
        }
    }
}

/// Whether `c` is among `cells`.
pub fn contains_cell(cells: &Vec<CellKey>, c: &CellKey) -> (r: bool)
    ensures
        r == cells_view(cells@).contains(c@),
{
    let mut i: usize = 0;
    while i < cells.len()
        invariant
            i <= cells.len(),
            forall|j: int| 0 <= j < i ==> cells@[j]@ != c@,
        decreases cells.len() - i,
    {
        if cells[i].same(c) {
            assert(cells_view(cells@)[i as int] == c@);
            return true;
        }
        i = i + 1;
    }
    proof {
        if cells_view(cells@).contains(c@) {
            let j = choose|j: int| 0 <= j < cells_view(cells@).len() && cells_view(cells@)[j] == c@;
            assert(cells@[j]@ == c@);
        }
    }
    false
}

fn run_sides_exec(work: &mut FluidWork, meta: &KeyMap<CellKey, Json>, cells: &Vec<CellKey>, s: FluidState, ns: &Vec<CellKey>, max: i64) -> (r: FluidState)
    requires
        fluid_ok(s),
        max >= 0,
    ensures
        (final(work).tick(), r) == run_sides(old(work).tick(), json_map(meta@), cells_view(cells@), s, cells_view(ns@), max),
        fluid_ok(r),
{
    let mut cur = s;
    let mut i: usize = 0;
    while i < ns.len()
        invariant
            i <= ns.len(),
            max >= 0,
            fluid_ok(cur),
            (work.tick(), cur) == run_sides(old(work).tick(), json_map(meta@), cells_view(cells@), s, cells_view(ns@.subrange(0, i as int)), max),
        decreases ns.len() - i,
    {
        proof {
            assert(cells_view(ns@.subrange(0, i + 1)).drop_last() =~= cells_view(ns@.subrange(0, i as int)));
            assert(cells_view(ns@.subrange(0, i + 1)).last() == ns@[i as int]@);
        }
        let n = &ns[i];
        if contains_cell(cells, n) {
            let nm = work.meta_of(meta, n);
            let before = read_fluid(&nm);
            let (s2, after) = flow_side_step(cur, before, max);
            if after != before {
                work.write(n, with_fluid_exec(nm, after));
            }
            cur = s2;
        }
        i = i + 1;
    }
    assert(ns@.subrange(0, i as int) =~= ns@);
    cur
}

/// A grid cell not on the lowest representable level.
pub open spec fn no_floor_cell(c: CellKeyV) -> bool {
    match c {
        CellKeyV::Square { z, .. } => z > i32::MIN,
        CellKeyV::Hex { z, .. } => z > i32::MIN,
        CellKeyV::Province { .. } => true,
    }
}

fn below_of(c: &CellKey) -> (r: Option<CellKey>)
    requires
        no_floor_cell(c@),
    ensures
        match r {
            Some(b) => below_cell(c@) == Some(b@),
            None => below_cell(c@) is None,
        },
{
    match c {
        CellKey::Square { x, y, z } => Some(CellKey::Square { x: *x, y: *y, z: *z - 1 }),
        CellKey::Hex { q, r, z } => Some(CellKey::Hex { q: *q, r: *r, z: *z - 1 }),
        CellKey::Province { .. } => None,
    }
}

/// Metadata with `k` set to `v` (see [`set_key`]).
fn set_key_exec(m: Json, k: &str, v: Json) -> (r: Json)
    ensures
        r@ == set_key(m@, k@, v@),
{
    if m.is_object() {
        let mut out = m;
        out.insert(String::from_str(k), v);
        out
    } else {
        object1(pair(k, v))
    }
}

/// Metadata with its fluid entry set (see [`with_fluid`]).
fn with_fluid_exec(m: Json, s: FluidState) -> (r: Json)
    ensures
        r@ == with_fluid(m@, s),
{
    set_key_exec(m, "fluid", write_fluid(s))
}

/// Metadata with its blocking flags set (see [`with_flags`]).
fn with_flags_exec(m: Json, walkable: bool, transparent: bool) -> (r: Json)
    ensures
        r@ == with_flags(m@, walkable, transparent),
{
    let a = set_key_exec(m, "walkable", Json::Bool(walkable));
    set_key_exec(a, "transparent", Json::Bool(transparent))
}

fn step_cell_exec(
    work: &mut FluidWork,
    meta: &KeyMap<CellKey, Json>,
    cells: &Vec<CellKey>,
    nbrs: &KeyMap<CellKey, Vec<CellKey>>,
    c: &CellKey,
    max: i64,
    block: i64,
)
    requires
        max >= 0,
        no_floor_cell(c@),
    ensures
        final(work).tick() == step_cell(old(work).tick(), json_map(meta@), cells_view(cells@), nbr_map(nbrs@), c@, max, block),
{
    let ghost t0 = work.tick();
    let m = work.meta_of(meta, c);
    let s = read_fluid(&m);
    if s.water == 0 && s.magma == 0 {
        return;
    }
    let mut s1 = s;
    if s.water > 0 && s.magma > 0 {
        s1 = FluidState { water: s.water - 1, magma: s.magma - 1 };
        let payload = object3(pair("cell", write_cell(c)), pair("magma", Json::Int(s1.magma)), pair("water", Json::Int(s1.water)));
        let ghost before = work.steam@;
        work.steam.push(payload);
        assert(jsons_view(work.steam@) =~= jsons_view(before).push(steam_json(c@, s1)));
    }
    let ghost t1 = work.tick();
    assert(t1 == (if s.water > 0 && s.magma > 0 { FluidTick { steam: t0.steam.push(steam_json(c@, s1)), ..t0 } } else { t0 }));
    let mut s2 = s1;
    match below_of(c) {
        Some(b) => {
            if contains_cell(cells, &b) {
                let bm = work.meta_of(meta, &b);
                let bs = read_fluid(&bm);
                let (sd, bd) = flow_down_step(s1, bs, max);
                if bd != bs {
                    work.write(&b, with_fluid_exec(bm, bd));
                }
                s2 = sd;
            }
        },
        None => {},
    }
    let ns = match nbrs.get(c) {
        Some(v) => sorted_cells(v),
        None => {
            let v: Vec<CellKey> = Vec::new();
            assert(cells_view(v@) =~= sort_cells(Seq::<CellKeyV>::empty()));
            v
        },
    };
    assert(cells_view(ns@) == sort_cells(nbrs_of(nbr_map(nbrs@), c@)));
    let ghost t2 = work.tick();
    let ghost expect2 = match below_cell(c@) {
        Some(b) => if cells_view(cells@).contains(b) {
            let bs = fluid_of(meta_at(t1, json_map(meta@), b));
            let (sd, bd) = flow_down(s1, bs, max);
            (if bd != bs { write_meta(t1, b, with_fluid(meta_at(t1, json_map(meta@), b), bd)) } else { t1 }, sd)
        } else {
            (t1, s1)
        },
        None => (t1, s1),
    };
    assert((t2, s2) == expect2);
    let s3 = run_sides_exec(work, meta, cells, s2, &ns, max);
    let ghost t3 = work.tick();
    let cm = work.meta_of(meta, c);
    work.write(c, with_fluid_exec(cm, s3));
    let ghost t4 = work.tick();
    assert(t4 == write_meta(t3, c@, with_fluid(meta_at(t3, json_map(meta@), c@), s3)));
    let total: i128 = s3.water as i128 + s3.magma as i128;
    if total >= block as i128 {
        if !work.blocking.contains_key(c) {
            let w = m.get_bool("walkable");
            let t = m.get_bool("transparent");
            work.blocking.insert(c.copy_key(), (w, t));
        }
        let ghost t5 = work.tick();
        assert(t5 == (if t4.blocking.contains_key(c@) { t4 } else {
            FluidTick { blocking: t4.blocking.insert(c@, (m@.bool_at("walkable"@), m@.bool_at("transparent"@))), ..t4 }
        }));
        let cm2 = work.meta_of(meta, c);
        work.write(c, with_flags_exec(cm2, false, false));
        assert(work.tick() == write_meta(t5, c@, with_flags(meta_at(t5, json_map(meta@), c@), false, false)));
    } else {
        match work.blocking.remove(c) {
            Some(flags) => {
                let (w, t) = flags;
                let wv = match w { Some(b) => b, None => true };
                let tv = match t { Some(b) => b, None => true };
                let ghost t5 = work.tick();
                assert(t5 == FluidTick { blocking: t4.blocking.remove(c@), ..t4 });
                assert(t4.blocking[c@] == (w, t));
                let cm2 = work.meta_of(meta, c);
                work.write(c, with_flags_exec(cm2, wv, tv));
            },
            None => {
                assert(work.blocking@ =~= t4.blocking);
                assert(work.tick() == t4);
            },
        }
    }
    assert(m@ == meta_at(t0, json_map(meta@), c@));
}

/// Whether some cell of `cells` records fluid in its stored metadata.
pub open spec fn fluid_present(meta: Map<CellKeyV, JsonV>, cells: Seq<CellKeyV>) -> bool {
    exists|i: int| 0 <= i < cells.len() && meta.contains_key(#[trigger] cells[i]) && (fluid_of(meta[cells[i]]).water > 0
        || fluid_of(meta[cells[i]]).magma > 0)
}

/// `meta` with every entry of `written` stored over it.
pub open spec fn overlay(meta: Map<CellKeyV, JsonV>, written: Map<CellKeyV, JsonV>) -> Map<CellKeyV, JsonV> {
    Map::new(
        |k: CellKeyV| meta.contains_key(k) || written.contains_key(k),
        |k: CellKeyV| if written.contains_key(k) { written[k] } else { meta[k] },
    )
}

/// Every cell of the map is above the lowest representable level.
pub open spec fn cells_above_floor(cells: Seq<CellKey>) -> bool {
    forall|i: int| 0 <= i < cells.len() ==> no_floor_cell(#[trigger] cells[i]@)
}

impl WasmMap {
    /// Run the fluid simulation for one tick; returns the payloads of the
    /// `steam` events of the tick, in order.
    ///
    /// Cells take their turns in sort order (higher levels first, then by
    /// coordinates, provinces last by id). When no cell records fluid,
    /// nothing changes. A cell whose fluid changes keeps its metadata with
    /// the new state under `"fluid"` (the other keys stay). `max_level`
    /// caps how much fluid a cell takes in, and cells holding at least
    /// `block_level` units block movement and sight (`walkable` and
    /// `transparent` set to false, their earlier values restored once the
    /// fluid drops below).
    pub fn simulate_fluid(&mut self, max_level: i64, block_level: i64) -> (steam: Vec<Json>)
        requires
            max_level >= 0,
            cells_above_floor(old(self).cells@),
        ensures
            final(self).cells == old(self).cells,
            final(self).neighbors == old(self).neighbors,
            final(self).topology_type == old(self).topology_type,
            ({
                let meta = json_map(old(self).cell_metadata@);
                let order = sort_cells(cells_view(old(self).cells@));
                if fluid_present(meta, order) {
                    let t = run_cells(meta, order, nbr_map(old(self).neighbors@), order, max_level, block_level);
                    &&& json_map(final(self).cell_metadata@) == overlay(meta, t.pending)
                    &&& jsons_view(steam@) == t.steam
                } else {
                    &&& final(self).cell_metadata == old(self).cell_metadata
                    &&& steam@.len() == 0
                }
            }),
    {
        let sorted = sorted_cells(&self.cells);
        let ghost meta = json_map(self.cell_metadata@);
        let ghost order = cells_view(sorted@);
        proof {
            lemma_sort_len(cells_view(self.cells@));
            lemma_sort_keeps_floor(cells_view(self.cells@));
        }
        let mut found = false;
        let mut i: usize = 0;
        while i < sorted.len()
            invariant
                i <= sorted.len(),
                order == cells_view(sorted@),
                meta == json_map(self.cell_metadata@),
                !found ==> forall|j: int| 0 <= j < i ==> !(meta.contains_key(#[trigger] order[j]) && (fluid_of(meta[order[j]]).water > 0
                    || fluid_of(meta[order[j]]).magma > 0)),
                found ==> fluid_present(meta, order),
            decreases sorted.len() - i,
        {
            match self.cell_metadata.get(&sorted[i]) {
                Some(m) => {
                    let f = read_fluid(m);
                    if f.water > 0 || f.magma > 0 {
                        assert(meta.contains_key(order[i as int]));
                        found = true;
                    }
                },
                None => {},
            }
            i = i + 1;
        }
        if !found {
            return Vec::new();
        }
        let mut work = FluidWork { pending: KeyMap::new(), blocking: KeyMap::new(), steam: Vec::new() };
        proof {
            assert(json_map(work.pending@) =~= Map::<CellKeyV, JsonV>::empty());
            assert(jsons_view(work.steam@) =~= Seq::<JsonV>::empty());
        }
        let mut k: usize = 0;
        while k < sorted.len()
            invariant
                k <= sorted.len(),
                max_level >= 0,
                order == cells_view(sorted@),
                meta == json_map(self.cell_metadata@),
                forall|j: int| 0 <= j < order.len() ==> no_floor_cell(#[trigger] order[j]),
                nbr_map(self.neighbors@) == nbr_map(old(self).neighbors@),
                work.tick() == run_cells(meta, order, nbr_map(self.neighbors@), order.subrange(0, k as int), max_level, block_level),
            decreases sorted.len() - k,
        {
            proof {
                assert(order.subrange(0, k + 1).drop_last() =~= order.subrange(0, k as int));
                assert(no_floor_cell(order[k as int]));
            }
            step_cell_exec(&mut work, &self.cell_metadata, &sorted, &self.neighbors, &sorted[k], max_level, block_level);
            k = k + 1;
        }
        assert(order.subrange(0, k as int) =~= order);
        let ghost pend = work.tick().pending;
        let n = work.pending.len();
        let ghost e = work.pending.entries();
        let mut j: usize = 0;
        while j < n
            invariant
                j <= n,
                n == e.len(),
                e == work.pending.entries(),
                crate::collections::distinct_keys(e),
                forall|a: int| 0 <= a < n ==> work.pending@.contains_key(#[trigger] e[a].0@) && work.pending@[e[a].0@] == e[a].1,
                pend == json_map(work.pending@),
                self.cells == old(self).cells,
                self.neighbors == old(self).neighbors,
                self.topology_type == old(self).topology_type,
                forall|c: CellKeyV| #[trigger] json_map(self.cell_metadata@).contains_key(c) <==> (meta.contains_key(c) || exists|a: int| 0 <= a < j && e[a].0@ == c),
                forall|a: int| 0 <= a < j ==> json_map(self.cell_metadata@)[#[trigger] e[a].0@] == pend[e[a].0@],
                forall|c: CellKeyV| meta.contains_key(c) && (forall|a: int| 0 <= a < j ==> e[a].0@ != c) ==> #[trigger] json_map(self.cell_metadata@)[c] == meta[c],
            decreases n - j,
        {
            let key = work.pending.key_at(j).copy_key();
            let value = work.pending.value_at(j).deep_clone();
            let ghost prev = json_map(self.cell_metadata@);
            let ghost kv = key@;
            let ghost vv = value@;
            self.cell_metadata.insert(key, value);
            proof {
                assert(json_map(self.cell_metadata@) =~= prev.insert(kv, vv));
                assert(kv == e[j as int].0@);
                assert(vv == pend[e[j as int].0@]);
                assert forall|a: int| 0 <= a < j + 1 implies json_map(self.cell_metadata@)[#[trigger] e[a].0@] == pend[e[a].0@] by {
                    if a < j {
                        assert(e[a].0@ != e[j as int].0@);
                    }
                }
                assert forall|c: CellKeyV| #[trigger] json_map(self.cell_metadata@).contains_key(c) <==> (meta.contains_key(c) || exists|a: int| 0 <= a < j + 1 && e[a].0@ == c) by {
                    if c == e[j as int].0@ {
                        assert(0 <= j < j + 1 && e[j as int].0@ == c);
                    }
                }
            }
            j = j + 1;
        }
        proof {
            assert forall|c: CellKeyV| pend.contains_key(c) implies exists|a: int| 0 <= a < n && e[a].0@ == c by {
                let a = choose|a: int| 0 <= a < work.pending.entries().len() && #[trigger] work.pending.entries()[a].0@ == c;
            }
            assert(json_map(self.cell_metadata@) =~= overlay(meta, pend)) by {
                assert forall|c: CellKeyV| #[trigger] overlay(meta, pend).contains_key(c) implies json_map(self.cell_metadata@)[c] == overlay(meta, pend)[c] by {
                    if pend.contains_key(c) {
                        let a = choose|a: int| 0 <= a < n && e[a].0@ == c;
                        assert(json_map(self.cell_metadata@)[e[a].0@] == pend[e[a].0@]);
                    } else {
                        assert forall|a: int| 0 <= a < n implies e[a].0@ != c by {
                            assert(pend.contains_key(e[a].0@));
                        }
                    }
                }
                assert forall|c: CellKeyV| #[trigger] json_map(self.cell_metadata@).contains_key(c) <==> overlay(meta, pend).contains_key(c) by {
                    if exists|a: int| 0 <= a < n && e[a].0@ == c {
                        let a = choose|a: int| 0 <= a < n && e[a].0@ == c;
                        assert(pend.contains_key(e[a].0@));
                    }
                    if pend.contains_key(c) {
                        let a = choose|a: int| 0 <= a < n && e[a].0@ == c;
                    }
                }
            }
        }
        work.steam
    }
}

/// Sorting keeps the cells, so every sorted cell is above the floor too.
proof fn lemma_sort_keeps_floor(s: Seq<CellKeyV>)
    requires
        forall|i: int| 0 <= i < s.len() ==> no_floor_cell(#[trigger] s[i]),
    ensures
        forall|i: int| 0 <= i < sort_cells(s).len() ==> no_floor_cell(#[trigger] sort_cells(s)[i]),
    decreases s.len(),
{
    if s.len() > 0 {
        lemma_sort_keeps_floor(s.drop_last());
        let sorted = sort_cells(s.drop_last());
        lemma_insert_pos_bound(sorted, s.last());
        assert(no_floor_cell(s[s.len() - 1]));
        let p = insert_pos(sorted, s.last());
        assert forall|i: int| 0 <= i < sort_cells(s).len() implies no_floor_cell(#[trigger] sort_cells(s)[i]) by {
            if i < p {
                assert(sort_cells(s)[i] == sorted[i]);
            } else if i > p {
                assert(sort_cells(s)[i] == sorted[i - 1]);
            }
        }
    }
}

} // verus!
