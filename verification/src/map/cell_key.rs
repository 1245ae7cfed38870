//! Cell keys: the address of a cell on a square, hex or province map.
use vstd::prelude::*;

use crate::collections::Key;
use crate::json::{Json, JsonV};

verus! {

/// Represents a key for a cell.
#[derive(Debug, Clone)]
pub enum CellKey {
    /// A square-grid cell.
    Square { x: i32, y: i32, z: i32 },
    /// A hex-grid cell.
    Hex { q: i32, r: i32, z: i32 },
    /// A province (region) cell.
    Province { id: String },
}

/// View of a [`CellKey`].
pub enum CellKeyV {
    Square { x: i32, y: i32, z: i32 },
    Hex { q: i32, r: i32, z: i32 },
    Province { id: Seq<char> },
}

impl View for CellKey {
    type V = CellKeyV;

    open spec fn view(&self) -> CellKeyV {
        match self {
            CellKey::Square { x, y, z } => CellKeyV::Square { x: *x, y: *y, z: *z },
            CellKey::Hex { q, r, z } => CellKeyV::Hex { q: *q, r: *r, z: *z },
            CellKey::Province { id } => CellKeyV::Province { id: id@ },
        }
    }
}

impl Key for CellKey {
    fn key_eq(&self, other: &Self) -> (r: bool) {
        match (self, other) {
            (CellKey::Square { x, y, z }, CellKey::Square { x: x2, y: y2, z: z2 }) => *x == *x2 && *y == *y2
                && *z == *z2,
            (CellKey::Hex { q, r, z }, CellKey::Hex { q: q2, r: r2, z: z2 }) => *q == *q2 && *r == *r2 && *z
                == *z2,
            (CellKey::Province { id }, CellKey::Province { id: id2 }) => *id == *id2,
            _ => false,
        }
    }

    fn key_clone(&self) -> (r: Self) {
        match self {
            CellKey::Square { x, y, z } => CellKey::Square { x: *x, y: *y, z: *z },
            CellKey::Hex { q, r, z } => CellKey::Hex { q: *q, r: *r, z: *z },
            CellKey::Province { id } => CellKey::Province { id: id.clone() },
        }
    }
}

/// The three integer coordinates under `a`, `b`, `c` of an object, when all
/// are present and integers.
pub open spec fn triple_at(v: JsonV, a: Seq<char>, b: Seq<char>, c: Seq<char>) -> Option<(i64, i64, i64)> {
    match (v.int_at(a), v.int_at(b), v.int_at(c)) {
        (Some(x), Some(y), Some(z)) => Some((x, y, z)),
        _ => None,
    }
}

/// The cell a position value names: the value under `"pos"` when present
/// (else the value itself) is searched for a `"Square"` (`x`, `y`, `z`),
/// then a `"Hex"` (`q`, `r`, `z`), then a `"Province"` (`id`) entry; the
/// first one present decides, and coordinates are truncated to `i32`.
pub open spec fn position_cell(position: JsonV) -> Option<CellKeyV> {
    let obj = match position.get("pos"@) {
        Some(p) => p,
        None => position,
    };
    if let Some(sq) = obj.get("Square"@) {
        match triple_at(sq, "x"@, "y"@, "z"@) {
            Some((x, y, z)) => Some(CellKeyV::Square { x: x as i32, y: y as i32, z: z as i32 }),
            None => None,
        }
    } else if let Some(hex) = obj.get("Hex"@) {
        match triple_at(hex, "q"@, "r"@, "z"@) {
            Some((q, r, z)) => Some(CellKeyV::Hex { q: q as i32, r: r as i32, z: z as i32 }),
            None => None,
        }
    } else if let Some(p) = obj.get("Province"@) {
        match p.str_at("id"@) {
            Some(id) => Some(CellKeyV::Province { id }),
            None => None,
        }
    } else {
        None
    }
}

/// The JSON object with the given entries.
pub open spec fn obj3(a: Seq<char>, va: JsonV, b: Seq<char>, vb: JsonV, c: Seq<char>, vc: JsonV) -> JsonV {
    JsonV::Object(seq![(a, va), (b, vb), (c, vc)])
}

proof fn lemma_obj3_get(a: Seq<char>, va: JsonV, b: Seq<char>, vb: JsonV, c: Seq<char>, vc: JsonV)
    requires
        a != b,
        a != c,
        b != c,
    ensures
        obj3(a, va, b, vb, c, vc).get(a) == Some(va),
        obj3(a, va, b, vb, c, vc).get(b) == Some(vb),
        obj3(a, va, b, vb, c, vc).get(c) == Some(vc),
{
    let e = seq![(a, va), (b, vb), (c, vc)];
    crate::json::lemma_entry_index_at(e, a, 0);
    crate::json::lemma_entry_index_at(e, b, 1);
    crate::json::lemma_entry_index_at(e, c, 2);
}

/// A position written as `{"pos": {"Square": {"x": x, "y": y, "z": z}}}`
/// names the square cell `(x, y, z)`, and one written with `"Hex"` and
/// `q`, `r`, `z` names the hex cell `(q, r, z)`.
pub proof fn law_position_cell_reads_coordinates(x: i32, y: i32, z: i32)
    ensures
        position_cell(JsonV::Object(seq![("pos"@, JsonV::Object(seq![("Square"@, obj3("x"@, JsonV::Int(x as i64), "y"@,
            JsonV::Int(y as i64), "z"@, JsonV::Int(z as i64)))]))])) == Some(CellKeyV::Square { x, y, z }),
        position_cell(JsonV::Object(seq![("pos"@, JsonV::Object(seq![("Hex"@, obj3("q"@, JsonV::Int(x as i64), "r"@,
            JsonV::Int(y as i64), "z"@, JsonV::Int(z as i64)))]))])) == Some(CellKeyV::Hex { q: x, r: y, z }),
{
    reveal_strlit("x");
    reveal_strlit("y");
    reveal_strlit("z");
    reveal_strlit("q");
    reveal_strlit("r");
    reveal_strlit("pos");
    reveal_strlit("Square");
    reveal_strlit("Hex");
    assert("x"@ != "y"@ && "x"@ != "z"@ && "y"@ != "z"@) by {
        assert("x"@[0] != "y"@[0] && "x"@[0] != "z"@[0] && "y"@[0] != "z"@[0]);
    }
    assert("q"@ != "r"@ && "q"@ != "z"@ && "r"@ != "z"@) by {
        assert("q"@[0] != "r"@[0] && "q"@[0] != "z"@[0] && "r"@[0] != "z"@[0]);
    }
    assert("Square"@ != "Hex"@) by {
        assert("Square"@.len() != "Hex"@.len());
    }
    lemma_obj3_get("x"@, JsonV::Int(x as i64), "y"@, JsonV::Int(y as i64), "z"@, JsonV::Int(z as i64));
    lemma_obj3_get("q"@, JsonV::Int(x as i64), "r"@, JsonV::Int(y as i64), "z"@, JsonV::Int(z as i64));
    let sq = seq![("Square"@, obj3("x"@, JsonV::Int(x as i64), "y"@, JsonV::Int(y as i64), "z"@, JsonV::Int(z as i64)))];
    let hx = seq![("Hex"@, obj3("q"@, JsonV::Int(x as i64), "r"@, JsonV::Int(y as i64), "z"@, JsonV::Int(z as i64)))];
    crate::json::lemma_entry_index_at(sq, "Square"@, 0);
    crate::json::lemma_entry_index_at(hx, "Hex"@, 0);
    crate::json::lemma_entry_index_at(hx, "Square"@, 1);
    crate::json::lemma_entry_index_at(seq![("pos"@, JsonV::Object(sq))], "pos"@, 0);
    crate::json::lemma_entry_index_at(seq![("pos"@, JsonV::Object(hx))], "pos"@, 0);
}

impl CellKey {
    /// Whether two keys name the same cell.
    pub fn same(&self, other: &CellKey) -> (r: bool)
        ensures
            r == (self@ == other@),
    {
        self.key_eq(other)
    }

    /// A copy of this key.
    pub fn copy_key(&self) -> (r: CellKey)
        ensures
            r@ == self@,
    {
        self.key_clone()
    }

    /// Whether this is a square cell.
    pub fn is_square(&self) -> (r: bool)
        ensures
            r == (self@ is Square),
    {
        match self {
            CellKey::Square { .. } => true,
            _ => false,
        }
    }

    /// Whether this is a hex cell.
    pub fn is_hex(&self) -> (r: bool)
        ensures
            r == (self@ is Hex),
    {
        match self {
            CellKey::Hex { .. } => true,
            _ => false,
        }
    }

    /// Whether this is a province cell.
    pub fn is_province(&self) -> (r: bool)
        ensures
            r == (self@ is Province),
    {
        match self {
            CellKey::Province { .. } => true,
            _ => false,
        }
    }

    /// Convert a position value to a cell key (see [`position_cell`]).
    /// Handles `{ "pos": { "Square": .. } }`, `{ "Square": .. }` and the
    /// `Hex` / `Province` forms of both.
    pub fn from_position(position: &Json) -> (r: Option<CellKey>)
        ensures
            r matches Some(k) ==> position_cell(position@) == Some(k@),
            r is None ==> position_cell(position@) is None,
    {
        let obj = match position.get("pos") {
            Some(p) => p,
            None => position,
        };
        proof {
            reveal_strlit("pos");
            reveal_strlit("Square");
            reveal_strlit("Hex");
            reveal_strlit("Province");
            reveal_strlit("x");
            reveal_strlit("y");
            reveal_strlit("z");
            reveal_strlit("q");
            reveal_strlit("r");
            reveal_strlit("id");
        }
        if let Some(square) = obj.get("Square") {
            let x = square.get_i64("x");
            let y = square.get_i64("y");
            let z = square.get_i64("z");
            match (x, y, z) {
                (Some(x), Some(y), Some(z)) => Some(CellKey::Square { x: x as i32, y: y as i32, z: z as i32 }),
                _ => None,
            }
        } else if let Some(hex) = obj.get("Hex") {
            let q = hex.get_i64("q");
            let r = hex.get_i64("r");
            let z = hex.get_i64("z");
            match (q, r, z) {
                (Some(q), Some(r), Some(z)) => Some(CellKey::Hex { q: q as i32, r: r as i32, z: z as i32 }),
                _ => None,
            }
        } else if let Some(province) = obj.get("Province") {
            match province.get_str("id") {
                Some(id) => Some(CellKey::Province { id: id.to_owned() }),
                None => None,
            }
        } else {
            None
        }
    }
}

} // verus!
