//! Reading a flat map (topology, cells, neighbors, metadata) from JSON.
use vstd::prelude::*;

use crate::collections::KeyMap;
use crate::json::{items_view, str_eq, Json, JsonV};
use crate::json_text::{check_against_schema, parse_json, parsed_json, schema_check};
use crate::text::{join_with, joined};
use crate::map::cell_key::{CellKey, CellKeyV};
use crate::wasm_map::{cells_view, contains_cell, json_map, nbr_map, WasmMap};

verus! {

/// An integer coordinate of a cell value (0 when absent), truncated to `i32`.
pub open spec fn coord(c: JsonV, k: Seq<char>) -> i32 {
    (match c.int_at(k) {
        Some(v) => v,
        None => 0,
    }) as i32
}

/// The cell a JSON cell value names on a map of the given topology.
pub open spec fn cell_of(topo: Seq<char>, c: JsonV) -> Result<CellKeyV, Seq<char>> {
    if topo == "square"@ {
        Ok(CellKeyV::Square { x: coord(c, "x"@), y: coord(c, "y"@), z: coord(c, "z"@) })
    } else if topo == "hex"@ {
        Ok(CellKeyV::Hex { q: coord(c, "q"@), r: coord(c, "r"@), z: coord(c, "z"@) })
    } else if topo == "province"@ {
        match c.str_at("id"@) {
            Some(id) => Ok(CellKeyV::Province { id }),
            None => Err("Province cell missing 'id'"@),
        }
    } else {
        Err("Unknown topology '"@ + topo + "'"@)
    }
}

/// The distinct cells of a list of cell values, in first-seen order, or
/// the error of the first value that names none.
pub open spec fn cell_list(topo: Seq<char>, cells: Seq<JsonV>) -> Result<Seq<CellKeyV>, Seq<char>>
    decreases cells.len(),
{
    if cells.len() == 0 {
        Ok(Seq::empty())
    } else {
        match cell_list(topo, cells.drop_last()) {
            Err(e) => Err(e),
            Ok(list) => match cell_of(topo, cells.last()) {
                Err(e) => Err(e),
                Ok(k) => Ok(if list.contains(k) { list } else { list.push(k) }),
            },
        }
    }
}

/// The cells adjacent to `k` by position: four for a square cell, six for
/// a hex cell, none for a province.
pub open spec fn candidates(k: CellKeyV) -> Seq<CellKeyV> {
    match k {
        CellKeyV::Square { x, y, z } => seq![
            CellKeyV::Square { x: (x + 1) as i32, y, z },
            CellKeyV::Square { x: (x - 1) as i32, y, z },
            CellKeyV::Square { x, y: (y + 1) as i32, z },
            CellKeyV::Square { x, y: (y - 1) as i32, z },
        ],
        CellKeyV::Hex { q, r, z } => seq![
            CellKeyV::Hex { q: (q + 1) as i32, r, z },
            CellKeyV::Hex { q: (q - 1) as i32, r, z },
            CellKeyV::Hex { q, r: (r + 1) as i32, z },
            CellKeyV::Hex { q, r: (r - 1) as i32, z },
            CellKeyV::Hex { q: (q + 1) as i32, r: (r - 1) as i32, z },
            CellKeyV::Hex { q: (q - 1) as i32, r: (r + 1) as i32, z },
        ],
        CellKeyV::Province { .. } => Seq::empty(),
    }
}

/// The present candidates are exactly the candidates that are map cells,
/// each listed once.
proof fn lemma_present(cands: Seq<CellKeyV>, cells: Seq<CellKeyV>)
    ensures
        forall|c: CellKeyV| present(cands, cells).contains(c) <==> cands.contains(c) && cells.contains(c),
        forall|i: int, j: int| 0 <= i < j < present(cands, cells).len() ==> present(cands, cells)[i] != present(cands, cells)[j],
    decreases cands.len(),
{
    if cands.len() > 0 {
        let init = cands.drop_last();
        lemma_present(init, cells);
        let rest = present(init, cells);
        let last = cands.last();
        assert forall|c: CellKeyV| present(cands, cells).contains(c) <==> cands.contains(c) && cells.contains(c) by {
            if init.contains(c) {
                let i = choose|i: int| 0 <= i < init.len() && init[i] == c;
                assert(cands[i] == c);
            }
            if cands.contains(c) && c != last {
                let i = choose|i: int| 0 <= i < cands.len() && cands[i] == c;
                assert(i != cands.len() - 1);
                assert(init[i] == c);
            }
            if cands.contains(c) && c == last {
                assert(cands[cands.len() - 1] == c);
            }
            if cells.contains(last) && !rest.contains(last) {
                let p = rest.push(last);
                if p.contains(c) {
                    let i = choose|i: int| 0 <= i < p.len() && p[i] == c;
                    if i < rest.len() {
                        assert(rest[i] == c);
                    }
                }
                if rest.contains(c) {
                    let i = choose|i: int| 0 <= i < rest.len() && rest[i] == c;
                    assert(p[i] == c);
                }
                if c == last {
                    assert(p[rest.len() as int] == c);
                }
            }
        }
        if cells.contains(last) && !rest.contains(last) {
            let p = rest.push(last);
            assert forall|i: int, j: int| 0 <= i < j < p.len() implies p[i] != p[j] by {
                if j == rest.len() {
                    assert(p[i] == rest[i]);
                    assert(rest.contains(rest[i]));
                }
            }
        }
    }
}

/// Without an explicit list, a cell's inferred neighbors are exactly the map
/// cells among its grid neighbors (see [`grid_adjacent`]), each listed once.
pub proof fn law_inferred_neighbors(k: CellKeyV, cells: Seq<CellKeyV>)
    requires
        steps_fit(k),
    ensures
        forall|c: CellKeyV| present(candidates(k), cells).contains(c) <==> grid_adjacent(k, c) && cells.contains(c),
        forall|i: int, j: int| 0 <= i < j < present(candidates(k), cells).len() ==> present(candidates(k), cells)[i]
            != present(candidates(k), cells)[j],
{
    lemma_present(candidates(k), cells);
    law_candidates_are_grid_neighbors(k);
}

/// The absolute value of an integer.
pub open spec fn abs_int(a: int) -> int {
    if a < 0 { -a } else { a }
}

/// Whether `c` is a grid neighbor of `k` by position: a square cell one
/// step along an axis on the same level, or a hex cell at axial distance one
/// on the same level.
pub open spec fn grid_adjacent(k: CellKeyV, c: CellKeyV) -> bool {
    match (k, c) {
        (CellKeyV::Square { x, y, z }, CellKeyV::Square { x: x2, y: y2, z: z2 }) => z2 == z
            && abs_int(x2 - x) + abs_int(y2 - y) == 1,
        (CellKeyV::Hex { q, r, z }, CellKeyV::Hex { q: q2, r: r2, z: z2 }) => z2 == z
            && abs_int(q2 - q) + abs_int(r2 - r) + abs_int((q2 - q) + (r2 - r)) == 2,
        _ => false,
    }
}

/// The positions tried as inferred neighbors are exactly the grid neighbors
/// of the cell: the four axis neighbors of a square cell, the six axial
/// neighbors of a hex cell, none for a province; each is tried once.
pub proof fn law_candidates_are_grid_neighbors(k: CellKeyV)
    requires
        steps_fit(k),
    ensures
        forall|c: CellKeyV| candidates(k).contains(c) <==> grid_adjacent(k, c),
        forall|i: int, j: int| 0 <= i < j < candidates(k).len() ==> candidates(k)[i] != candidates(k)[j],
{
    let cs = candidates(k);
    assert forall|c: CellKeyV| cs.contains(c) <==> grid_adjacent(k, c) by {
        if cs.contains(c) {
            let i = choose|i: int| 0 <= i < cs.len() && cs[i] == c;
            assert(grid_adjacent(k, cs[i]));
        }
        if grid_adjacent(k, c) {
            match (k, c) {
                (CellKeyV::Square { x, y, z }, CellKeyV::Square { x: x2, y: y2, z: z2 }) => {
                    if x2 == x + 1 {
                        assert(cs[0] == c);
                    } else if x2 == x - 1 {
                        assert(cs[1] == c);
                    } else if y2 == y + 1 {
                        assert(cs[2] == c);
                    } else {
                        assert(cs[3] == c);
                    }
                },
                (CellKeyV::Hex { q, r, z }, CellKeyV::Hex { q: q2, r: r2, z: z2 }) => {
                    let dq = q2 - q;
                    let dr = r2 - r;
                    if dq == 1 && dr == 0 {
                        assert(cs[0] == c);
                    } else if dq == -1 && dr == 0 {
                        assert(cs[1] == c);
                    } else if dq == 0 && dr == 1 {
                        assert(cs[2] == c);
                    } else if dq == 0 && dr == -1 {
                        assert(cs[3] == c);
                    } else if dq == 1 && dr == -1 {
                        assert(cs[4] == c);
                    } else {
                        assert(dq == -1 && dr == 1);
                        assert(cs[5] == c);
                    }
                },
                _ => {},
            }
        }
    }
}

/// The cells of `cands` that are map cells, each once, in order.
pub open spec fn present(cands: Seq<CellKeyV>, cells: Seq<CellKeyV>) -> Seq<CellKeyV>
    decreases cands.len(),
{
    if cands.len() == 0 {
        Seq::empty()
    } else {
        let rest = present(cands.drop_last(), cells);
        let c = cands.last();
        if cells.contains(c) && !rest.contains(c) { rest.push(c) } else { rest }
    }
}

/// The distinct cells of an explicit neighbor list, in order, or the error
/// of the first value that names none.
pub open spec fn explicit_neighbors(topo: Seq<char>, ns: Seq<JsonV>) -> Result<Seq<CellKeyV>, Seq<char>> {
    cell_list(topo, ns)
}

/// Adjacency and metadata read so far.
pub struct MapTables {
    pub nbrs: Map<CellKeyV, Seq<CellKeyV>>,
    pub meta: Map<CellKeyV, JsonV>,
}

/// A grid cell whose adjacent positions all fit the coordinate range.
pub open spec fn steps_fit(k: CellKeyV) -> bool {
    match k {
        CellKeyV::Square { x, y, .. } => i32::MIN < x < i32::MAX && i32::MIN < y < i32::MAX,
        CellKeyV::Hex { q, r, .. } => i32::MIN < q < i32::MAX && i32::MIN < r < i32::MAX,
        CellKeyV::Province { .. } => true,
    }
}

/// One cell value's contribution: its explicit neighbors (or, without an
/// explicit list, the adjacent map cells, when there are any) and its
/// metadata. `None` when the adjacent positions of the cell would leave the
/// coordinate range.
pub open spec fn add_cell_tables(topo: Seq<char>, cells: Seq<CellKeyV>, t: MapTables, c: JsonV) -> Option<Result<MapTables, Seq<char>>> {
    let k = cell_of(topo, c)->Ok_0;
    let with_nbrs = match c.get("neighbors"@) {
        Some(JsonV::Array(ns)) => match explicit_neighbors(topo, ns) {
            Err(e) => Some(Err(e)),
            Ok(l) => Some(Ok(MapTables { nbrs: t.nbrs.insert(k, l), meta: t.meta })),
        },
        _ => if !steps_fit(k) {
            None
        } else {
            let inf = present(candidates(k), cells);
            Some(Ok(if inf.len() > 0 { MapTables { nbrs: t.nbrs.insert(k, inf), meta: t.meta } } else { t }))
        },
    };
    match with_nbrs {
        Some(Ok(t2)) => Some(Ok(match c.get("metadata"@) {
            Some(m) => MapTables { nbrs: t2.nbrs, meta: t2.meta.insert(k, m) },
            None => t2,
        })),
        other => other,
    }
}

/// The tables of all cell values, in order; the first error or overflow
/// ends the walk.
pub open spec fn build_tables(topo: Seq<char>, cells: Seq<CellKeyV>, vals: Seq<JsonV>) -> Option<Result<MapTables, Seq<char>>>
    decreases vals.len(),
{
    if vals.len() == 0 {
        Some(Ok(MapTables { nbrs: Map::empty(), meta: Map::empty() }))
    } else {
        match build_tables(topo, cells, vals.drop_last()) {
            Some(Ok(t)) => add_cell_tables(topo, cells, t, vals.last()),
            other => other,
        }
    }
}

/// The map a JSON value describes, as (topology, cells, tables), or why it
/// is refused; `None` when inferring adjacency would leave the coordinate
/// range.
pub open spec fn map_of(v: JsonV) -> Option<Result<(Seq<char>, Seq<CellKeyV>, MapTables), Seq<char>>> {
    match v.str_at("topology"@) {
        None => Some(Err("Map JSON missing 'topology'"@)),
        Some(topo) => match v.get("cells"@) {
            Some(JsonV::Array(vals)) => match cell_list(topo, vals) {
                Err(e) => Some(Err(e)),
                Ok(cells) => match build_tables(topo, cells, vals) {
                    None => None,
                    Some(Err(e)) => Some(Err(e)),
                    Some(Ok(t)) => Some(Ok((topo, cells, t))),
                },
            },
            _ => Some(Err("Map JSON missing 'cells' array"@)),
        },
    }
}

/// A built map as (topology, cells, tables).
pub open spec fn map_parts(m: WasmMap) -> (Seq<char>, Seq<CellKeyV>, MapTables) {
    (m.topology_type@, cells_view(m.cells@), MapTables { nbrs: nbr_map(m.neighbors@), meta: json_map(m.cell_metadata@) })
}

/// The view of an optional map result.
pub open spec fn map_result(r: Option<Result<WasmMap, String>>) -> Option<Result<(Seq<char>, Seq<CellKeyV>, MapTables), Seq<char>>> {
    match r {
        None => None,
        Some(Err(e)) => Some(Err(e@)),
        Some(Ok(m)) => Some(Ok(map_parts(m))),
    }
}

/// The view of a cell result.
pub open spec fn key_result(r: Result<CellKey, String>) -> Result<CellKeyV, Seq<char>> {
    match r {
        Ok(k) => Ok(k@),
        Err(e) => Err(e@),
    }
}

/// The view of a cell-list result.
pub open spec fn list_result(r: Result<Vec<CellKey>, String>) -> Result<Seq<CellKeyV>, Seq<char>> {
    match r {
        Ok(v) => Ok(cells_view(v@)),
        Err(e) => Err(e@),
    }
}

proof fn lemma_cell_list_sticky(topo: Seq<char>, s: Seq<JsonV>, i: int)
    requires
        0 <= i <= s.len(),
        cell_list(topo, s.subrange(0, i)) is Err,
    ensures
        cell_list(topo, s) == cell_list(topo, s.subrange(0, i)),
    decreases s.len() - i,
{
    if i < s.len() {
        assert(s.subrange(0, i + 1).drop_last() =~= s.subrange(0, i));
        lemma_cell_list_sticky(topo, s, i + 1);
    } else {
        assert(s.subrange(0, i) =~= s);
    }
}

proof fn lemma_cell_list_ok(topo: Seq<char>, s: Seq<JsonV>, i: int)
    requires
        0 <= i < s.len(),
        cell_list(topo, s) is Ok,
    ensures
        cell_of(topo, s[i]) is Ok,
    decreases s.len(),
{
    if i < s.len() - 1 {
        lemma_cell_list_ok(topo, s.drop_last(), i);
    }
}

proof fn lemma_build_sticky(topo: Seq<char>, cells: Seq<CellKeyV>, s: Seq<JsonV>, i: int)
    requires
        0 <= i <= s.len(),
        !(build_tables(topo, cells, s.subrange(0, i)) matches Some(Ok(_))),
    ensures
        build_tables(topo, cells, s) == build_tables(topo, cells, s.subrange(0, i)),
    decreases s.len() - i,
{
    if i < s.len() {
        assert(s.subrange(0, i + 1).drop_last() =~= s.subrange(0, i));
        lemma_build_sticky(topo, cells, s, i + 1);
    } else {
        assert(s.subrange(0, i) =~= s);
    }
}

/// Coordinate `k` of a cell value (see [`coord`]).
fn coord_of(c: &Json, k: &str) -> (r: i32)
    ensures
        r == coord(c@, k@),
{
    let v: i64 = match c.get_i64(k) {
        Some(v) => v,
        None => 0,
    };
    v as i32
}

/// The cell a JSON cell value names on a map of topology `topo`.
pub fn cell_from_json(topo: &str, c: &Json) -> (r: Result<CellKey, String>)
    ensures
        key_result(r) == cell_of(topo@, c@),
{
    if str_eq(topo, "square") {
        Ok(CellKey::Square { x: coord_of(c, "x"), y: coord_of(c, "y"), z: coord_of(c, "z") })
    } else if str_eq(topo, "hex") {
        Ok(CellKey::Hex { q: coord_of(c, "q"), r: coord_of(c, "r"), z: coord_of(c, "z") })
    } else if str_eq(topo, "province") {
        match c.get_str("id") {
            Some(id) => Ok(CellKey::Province { id: String::from_str(id) }),
            None => Err(String::from_str("Province cell missing 'id'")),
        }
    } else {
        let mut m = String::from_str("Unknown topology '");
        m.append(topo);
        m.append("'");
        Err(m)
    }
}

/// The distinct cells of a list of cell values (see [`cell_list`]).
pub fn cells_from_json(topo: &str, vals: &Vec<Json>) -> (r: Result<Vec<CellKey>, String>)
    ensures
        list_result(r) == cell_list(topo@, items_view(vals)),
{
    let ghost all = items_view(vals);
    let mut out: Vec<CellKey> = Vec::new();
    let mut i: usize = 0;
    assert(all.subrange(0, 0) =~= Seq::<JsonV>::empty());
    assert(cells_view(out@) =~= Seq::<CellKeyV>::empty());
    while i < vals.len()
        invariant
            i <= vals.len(),
            all == items_view(vals),
            cell_list(topo@, all.subrange(0, i as int)) == Ok::<Seq<CellKeyV>, Seq<char>>(cells_view(out@)),
        decreases vals.len() - i,
    {
        let ghost pre = all.subrange(0, i as int);
        let ghost nxt = all.subrange(0, i + 1);
        assert(nxt.drop_last() =~= pre);
        assert(nxt.last() == vals[i as int]@);
        match cell_from_json(topo, &vals[i]) {
            Err(e) => {
                proof {
                    lemma_cell_list_sticky(topo@, all, i + 1);
                }
                return Err(e);
            },
            Ok(k) => {
                if !contains_cell(&out, &k) {
                    let ghost before = out@;
                    out.push(k);
                    assert(cells_view(out@) =~= cells_view(before).push(k@));
                }
            },
        }
        i = i + 1;
    }
    assert(all.subrange(0, i as int) =~= all);
    Ok(out)
}

/// Whether the adjacent positions of `k` fit the coordinate range.
fn steps_fit_exec(k: &CellKey) -> (r: bool)
    ensures
        r == steps_fit(k@),
{
    match k {
        CellKey::Square { x, y, .. } => i32::MIN < *x && *x < i32::MAX && i32::MIN < *y && *y < i32::MAX,
        CellKey::Hex { q, r, .. } => i32::MIN < *q && *q < i32::MAX && i32::MIN < *r && *r < i32::MAX,
        CellKey::Province { .. } => true,
    }
}

/// The cells adjacent to `k` by position (see [`candidates`]).
fn candidate_cells(k: &CellKey) -> (r: Vec<CellKey>)
    requires
        steps_fit(k@),
    ensures
        cells_view(r@) == candidates(k@),
{
    match k {
        CellKey::Square { x, y, z } => {
            let v = vec![
                CellKey::Square { x: *x + 1, y: *y, z: *z },
                CellKey::Square { x: *x - 1, y: *y, z: *z },
                CellKey::Square { x: *x, y: *y + 1, z: *z },
                CellKey::Square { x: *x, y: *y - 1, z: *z },
            ];
            assert(cells_view(v@) =~= candidates(k@));
            v
        },
        CellKey::Hex { q, r, z } => {
            let v = vec![
                CellKey::Hex { q: *q + 1, r: *r, z: *z },
                CellKey::Hex { q: *q - 1, r: *r, z: *z },
                CellKey::Hex { q: *q, r: *r + 1, z: *z },
                CellKey::Hex { q: *q, r: *r - 1, z: *z },
                CellKey::Hex { q: *q + 1, r: *r - 1, z: *z },
                CellKey::Hex { q: *q - 1, r: *r + 1, z: *z },
            ];
            assert(cells_view(v@) =~= candidates(k@));
            v
        },
        CellKey::Province { .. } => {
            let v: Vec<CellKey> = Vec::new();
            assert(cells_view(v@) =~= candidates(k@));
            v
        },
    }
}

/// The candidates that are map cells, each once, in order (see [`present`]).
fn present_cells(cands: &Vec<CellKey>, cells: &Vec<CellKey>) -> (r: Vec<CellKey>)
    ensures
        cells_view(r@) == present(cells_view(cands@), cells_view(cells@)),
{
    let ghost all = cells_view(cands@);
    let mut out: Vec<CellKey> = Vec::new();
    let mut i: usize = 0;
    assert(all.subrange(0, 0) =~= Seq::<CellKeyV>::empty());
    assert(cells_view(out@) =~= Seq::<CellKeyV>::empty());
    while i < cands.len()
        invariant
            i <= cands.len(),
            all == cells_view(cands@),
            cells_view(out@) == present(all.subrange(0, i as int), cells_view(cells@)),
        decreases cands.len() - i,
    {
        assert(all.subrange(0, i + 1).drop_last() =~= all.subrange(0, i as int));
        assert(all.subrange(0, i + 1).last() == cands[i as int]@);
        if contains_cell(cells, &cands[i]) && !contains_cell(&out, &cands[i]) {
            let ghost before = out@;
            out.push(cands[i].copy_key());
            assert(cells_view(out@) =~= cells_view(before).push(cands[i as int]@));
        }
        i = i + 1;
    }
    assert(all.subrange(0, i as int) =~= all);
    out
}

/// The map a JSON value describes (see [`map_of`]): `None` when inferring
/// the adjacency of a cell would step past the `i32` coordinate range.
pub fn map_from_json_value(v: &Json) -> (r: Option<Result<WasmMap, String>>)
    ensures
        map_result(r) == map_of(v@),
{
    let topo = match v.get_str("topology") {
        Some(t) => t,
        None => return Some(Err(String::from_str("Map JSON missing 'topology'"))),
    };
    let vals = match v.get("cells") {
        Some(c) => match c.as_array() {
            Some(a) => a,
            None => return Some(Err(String::from_str("Map JSON missing 'cells' array"))),
        },
        None => return Some(Err(String::from_str("Map JSON missing 'cells' array"))),
    };
    let cells = match cells_from_json(topo, vals) {
        Ok(c) => c,
        Err(e) => return Some(Err(e)),
    };
    let ghost all = items_view(vals);
    let ghost cv = cells_view(cells@);
    let mut nbrs: KeyMap<CellKey, Vec<CellKey>> = KeyMap::new();
    let mut meta: KeyMap<CellKey, Json> = KeyMap::new();
    let mut i: usize = 0;
    assert(all.subrange(0, 0) =~= Seq::<JsonV>::empty());
    assert(nbr_map(nbrs@) =~= Map::<CellKeyV, Seq<CellKeyV>>::empty());
    assert(json_map(meta@) =~= Map::<CellKeyV, JsonV>::empty());
    while i < vals.len()
        invariant
            i <= vals.len(),
            all == items_view(vals),
            cv == cells_view(cells@),
            v@.str_at("topology"@) == Some(topo@),
            v@.get("cells"@) == Some(JsonV::Array(all)),
            cell_list(topo@, all) == Ok::<Seq<CellKeyV>, Seq<char>>(cv),
            build_tables(topo@, cv, all.subrange(0, i as int)) == Some(
                Ok::<MapTables, Seq<char>>(MapTables { nbrs: nbr_map(nbrs@), meta: json_map(meta@) }),
            ),
        decreases vals.len() - i,
    {
        assert(all.subrange(0, i + 1).drop_last() =~= all.subrange(0, i as int));
        assert(all.subrange(0, i + 1).last() == vals[i as int]@);
        let ghost t = MapTables { nbrs: nbr_map(nbrs@), meta: json_map(meta@) };
        assert(build_tables(topo@, cv, all.subrange(0, i + 1)) == add_cell_tables(topo@, cv, t, vals[i as int]@));
        let c = &vals[i];
        proof {
            lemma_cell_list_ok(topo@, all, i as int);
        }
        let k = match cell_from_json(topo, c) {
            Ok(k) => k,
            Err(e) => return Some(Err(e)),
        };
        let explicit = match c.get("neighbors") {
            Some(n) => n.as_array(),
            None => None,
        };
        match explicit {
            Some(ns) => match cells_from_json(topo, ns) {
                Err(e) => {
                    proof {
                        assert(build_tables(topo@, cv, all.subrange(0, i + 1)) == Some(Err::<MapTables, Seq<char>>(e@)));
                        lemma_build_sticky(topo@, cv, all, i + 1);
                    }
                    return Some(Err(e));
                },
                Ok(l) => {
                    let ghost before = nbrs@;
                    let ghost lv = cells_view(l@);
                    nbrs.insert(k.copy_key(), l);
                    proof {
                        assert(nbr_map(nbrs@) =~= nbr_map(before).insert(k@, lv));
                    }
                },
            },
            None => {
                if !steps_fit_exec(&k) {
                    proof {
                        assert(build_tables(topo@, cv, all.subrange(0, i + 1)) is None);
                        lemma_build_sticky(topo@, cv, all, i + 1);
                    }
                    return None;
                }
                let cands = candidate_cells(&k);
                let inf = present_cells(&cands, &cells);
                if inf.len() > 0 {
                    let ghost before = nbrs@;
                    let ghost iv = cells_view(inf@);
                    nbrs.insert(k.copy_key(), inf);
                    proof {
                        assert(nbr_map(nbrs@) =~= nbr_map(before).insert(k@, iv));
                    }
                }
            },
        }
        match c.get("metadata") {
            Some(m) => {
                let ghost before = meta@;
                meta.insert(k, m.deep_clone());
                proof {
                    assert(json_map(meta@) =~= json_map(before).insert(k@, m@));
                }
            },
            None => {},
        }
        i = i + 1;
    }
    assert(all.subrange(0, i as int) =~= all);
    Some(Ok(WasmMap { topology_type: String::from_str(topo), cells, neighbors: nbrs, cell_metadata: meta }))
}

/// Read a flat map from JSON text: the parse error as
/// `"Failed to parse map JSON: <error>"`, else as [`map_from_json_value`].
pub fn wasm_map_from_map_json(map_json: &str) -> (r: Option<Result<WasmMap, String>>)
    ensures
        match parsed_json(map_json@) {
            Err(e) => map_result(r) == Some(Err::<(Seq<char>, Seq<CellKeyV>, MapTables), Seq<char>>("Failed to parse map JSON: "@ + e)),
            Ok(v) => map_result(r) == map_of(v),
        },
{
    match parse_json(map_json) {
        Err(e) => {
            let mut m = String::from_str("Failed to parse map JSON: ");
            m.append(e.as_str());
            Some(Err(m))
        },
        Ok(v) => map_from_json_value(&v),
    }
}

/// What checking a map value against the map schema text gives: the schema
/// must parse and compile, and the value must meet it; the validation
/// messages are joined with `; `.
pub open spec fn map_schema_outcome(schema_text: Seq<char>, v: JsonV) -> Result<(), Seq<char>> {
    match parsed_json(schema_text) {
        Err(e) => Err("Failed to parse map schema: "@ + e),
        Ok(s) => match schema_check(s, v) {
            Err(e) => Err("Failed to compile map schema: "@ + e),
            Ok(msgs) => if msgs.len() == 0 {
                Ok(())
            } else {
                Err("Map schema validation failed: "@ + joined(msgs, "; "@))
            },
        },
    }
}

/// Validate a map value against the map schema, given as JSON text (see
/// [`map_schema_outcome`]).
pub fn validate_map_schema(schema_text: &str, map_json: &Json) -> (r: Result<(), String>)
    ensures
        match r {
            Ok(()) => map_schema_outcome(schema_text@, map_json@) == Ok::<(), Seq<char>>(()),
            Err(e) => map_schema_outcome(schema_text@, map_json@) == Err::<(), Seq<char>>(e@),
        },
{
    let schema = match parse_json(schema_text) {
        Err(e) => {
            let mut m = String::from_str("Failed to parse map schema: ");
            m.append(e.as_str());
            return Err(m);
        },
        Ok(s) => s,
    };
    match check_against_schema(&schema, map_json) {
        Err(e) => {
            let mut m = String::from_str("Failed to compile map schema: ");
            m.append(e.as_str());
            Err(m)
        },
        Ok(msgs) => {
            if msgs.len() == 0 {
                Ok(())
            } else {
                let mut m = String::from_str("Map schema validation failed: ");
                let j = join_with(&msgs, "; ");
                m.append(j.as_str());
                Err(m)
            }
        },
    }
}

} // verus!
