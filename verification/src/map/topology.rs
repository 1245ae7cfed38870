//! Map topologies and the metadata merge rule.
use vstd::prelude::*;

use crate::json::{merge_json, Json, JsonV};
use crate::map::cell_key::{CellKey, CellKeyV};
use crate::map::hex::HexGridMap;
use crate::map::region::RegionMap;
use crate::map::square::SquareGridMap;

verus! {

/// Recursively merge `patch` into `existing`.
///
/// For each key in `patch`: if both existing and patch values are JSON objects,
/// merge recursively; otherwise replace the existing value with the patch value.
/// Keys in `existing` not present in `patch` are preserved. A non-object patch
/// replaces `existing` entirely.
pub fn deep_merge(existing: &Json, patch: &Json) -> (r: Json)
    ensures
        r@ == crate::json::deep_merge(existing@, patch@),
{
    merge_json(existing, patch)
}

/// The topology of a map.
pub enum Topology {
    /// A square grid.
    Square(SquareGridMap),
    /// A hex grid.
    Hex(HexGridMap),
    /// A province (region) map.
    Region(RegionMap),
}

impl Topology {
    /// Whether `c` is a cell of the topology.
    pub open spec fn has_cell(self, c: CellKeyV) -> bool {
        match self {
            Topology::Square(m) => m.has_cell(c),
            Topology::Hex(m) => m.has_cell(c),
            Topology::Region(m) => m.has_cell(c),
        }
    }

    /// The cells recorded in the topology's adjacency table.
    pub open spec fn cell_dom(self) -> Set<CellKeyV> {
        match self {
            Topology::Square(m) => m.cells@.dom(),
            Topology::Hex(m) => m.cells@.dom(),
            Topology::Region(m) => m.cells@.dom(),
        }
    }

    /// The adjacency table's domain is finite and holds every cell.
    pub proof fn lemma_cell_dom(self)
        ensures
            self.cell_dom().finite(),
            forall|c: CellKeyV| #[trigger] self.has_cell(c) ==> self.cell_dom().contains(c),
    {
        match self {
            Topology::Square(m) => m.cells.lemma_dom_finite(),
            Topology::Hex(m) => m.cells.lemma_dom_finite(),
            Topology::Region(m) => m.cells.lemma_dom_finite(),
        }
    }

    /// The neighbors recorded for `c`.
    pub open spec fn nbrs(self, c: CellKeyV) -> Set<CellKeyV> {
        match self {
            Topology::Square(m) => m.nbrs(c),
            Topology::Hex(m) => m.nbrs(c),
            Topology::Region(m) => m.nbrs(c),
        }
    }

    /// The metadata of `c`, if any.
    pub open spec fn meta(self, c: CellKeyV) -> Option<JsonV> {
        match self {
            Topology::Square(m) => m.meta(c),
            Topology::Hex(m) => m.meta(c),
            Topology::Region(m) => m.meta(c),
        }
    }

    /// Whether `c` lets sight through: cells whose metadata holds
    /// `"transparent": false` block sight; all others (including cells with
    /// no metadata) are transparent.
    pub open spec fn transparent(self, c: CellKeyV) -> bool {
        match self.meta(c) {
            Some(m) => match m.bool_at("transparent"@) {
                Some(b) => b,
                None => true,
            },
            None => true,
        }
    }

    /// The topology's name.
    pub open spec fn kind_name(self) -> Seq<char> {
        match self {
            Topology::Square(_) => "square"@,
            Topology::Hex(_) => "hex"@,
            Topology::Region(_) => "province"@,
        }
    }

    /// Returns the neighbors of a cell.
    pub fn neighbors(&self, cell: &CellKey) -> (r: Vec<CellKey>)
        ensures
            forall|i: int| 0 <= i < r.len() ==> self.nbrs(cell@).contains(#[trigger] r@[i]@),
            forall|c: CellKeyV| self.nbrs(cell@).contains(c) ==> exists|i: int| 0 <= i < r.len() && #[trigger] r@[i]@ == c,
    {
        match self {
            Topology::Square(m) => m.neighbors(cell),
            Topology::Hex(m) => m.neighbors(cell),
            Topology::Region(m) => m.neighbors(cell),
        }
    }

    /// Returns true if the cell is in the topology.
    pub fn contains(&self, cell: &CellKey) -> (r: bool)
        ensures
            r == self.has_cell(cell@),
    {
        match self {
            Topology::Square(m) => m.contains(cell),
            Topology::Hex(m) => m.contains(cell),
            Topology::Region(m) => m.contains(cell),
        }
    }

    /// Returns all cells in the topology: each cell of its adjacency table
    /// once.
    pub fn all_cells(&self) -> (r: Vec<CellKey>)
        ensures
            forall|i: int| 0 <= i < r.len() ==> self.cell_dom().contains(#[trigger] r@[i]@),
            forall|c: CellKeyV| self.cell_dom().contains(c) ==> exists|i: int| 0 <= i < r.len() && #[trigger] r@[i]@ == c,
            r.len() == self.cell_dom().len(),
    {
        match self {
            Topology::Square(m) => m.all_cells(),
            Topology::Hex(m) => m.all_cells(),
            Topology::Region(m) => m.all_cells(),
        }
    }

    /// Returns the topology type.
    pub fn topology_type(&self) -> (r: &'static str)
        ensures
            r@ == self.kind_name(),
    {
        match self {
            Topology::Square(m) => m.topology_type(),
            Topology::Hex(m) => m.topology_type(),
            Topology::Region(m) => m.topology_type(),
        }
    }

    /// Sets the cell metadata (a province map keeps metadata for province
    /// cells only).
    pub fn set_cell_metadata(&mut self, cell: &CellKey, data: Json)
        ensures
            final(self).kind_name() == old(self).kind_name(),
            forall|c: CellKeyV| #[trigger] final(self).has_cell(c) == old(self).has_cell(c),
            forall|c: CellKeyV| #[trigger] final(self).nbrs(c) == old(self).nbrs(c),
            forall|c: CellKeyV| #[trigger] final(self).meta(c) == if c == cell@ && old(self).stores_meta(c) {
                Some(data@)
            } else {
                old(self).meta(c)
            },
    {
        let ghost d = data@;
        match self {
            Topology::Square(m) => {
                let ghost m0 = *m;
                m.set_cell_metadata(cell, data);
                assert(forall|c: CellKeyV| #[trigger] m.meta(c) == if c == cell@ { Some(d) } else { m0.meta(c) });
                assert(*old(self) == Topology::Square(m0));
            },
            Topology::Hex(m) => {
                let ghost m0 = *m;
                m.set_cell_metadata(cell, data);
                assert(forall|c: CellKeyV| #[trigger] m.meta(c) == if c == cell@ { Some(d) } else { m0.meta(c) });
                assert(*old(self) == Topology::Hex(m0));
            },
            Topology::Region(m) => {
                let ghost m0 = *m;
                m.set_cell_metadata(cell, data);
                assert(forall|c: CellKeyV| #[trigger] m.meta(c) == if c == cell@ && c is Province { Some(d) } else { m0.meta(c) });
                assert(*old(self) == Topology::Region(m0));
            },
        }
    }

    /// Whether metadata of `c` is kept: province maps keep metadata for
    /// province cells only, grids for any cell.
    pub open spec fn stores_meta(self, c: CellKeyV) -> bool {
        !(self is Region) || c is Province
    }

    /// Gets the cell metadata.
    pub fn get_cell_metadata(&self, cell: &CellKey) -> (r: Option<&Json>)
        ensures
            r matches Some(m) ==> self.meta(cell@) == Some(m@),
            r is None ==> self.meta(cell@) is None,
    {
        match self {
            Topology::Square(m) => m.get_cell_metadata(cell),
            Topology::Hex(m) => m.get_cell_metadata(cell),
            Topology::Region(m) => m.get_cell_metadata(cell),
        }
    }

    /// Merges a patch into the cell metadata (see [`deep_merge`]); a
    /// province map keeps metadata for province cells only.
    pub fn merge_cell_metadata(&mut self, cell: &CellKey, patch: Json)
        ensures
            final(self).kind_name() == old(self).kind_name(),
            forall|c: CellKeyV| #[trigger] final(self).has_cell(c) == old(self).has_cell(c),
            forall|c: CellKeyV| #[trigger] final(self).nbrs(c) == old(self).nbrs(c),
            forall|c: CellKeyV| #[trigger] final(self).meta(c) == if c == cell@ && old(self).stores_meta(c) {
                Some(
                    match old(self).meta(c) {
                        Some(e) => crate::json::deep_merge(e, patch@),
                        None => patch@,
                    },
                )
            } else {
                old(self).meta(c)
            },
    {
        let ghost p = patch@;
        match self {
            Topology::Square(m) => {
                let ghost m0 = *m;
                m.merge_cell_metadata(cell, patch);
                assert(*old(self) == Topology::Square(m0));
            },
            Topology::Hex(m) => {
                let ghost m0 = *m;
                m.merge_cell_metadata(cell, patch);
                assert(*old(self) == Topology::Hex(m0));
            },
            Topology::Region(m) => {
                let ghost m0 = *m;
                m.merge_cell_metadata(cell, patch);
                assert(*old(self) == Topology::Region(m0));
            },
        }
    }

    /// A copy of this topology.
    pub fn clone_box(&self) -> (r: Topology)
        ensures
            r.kind_name() == self.kind_name(),
            forall|c: CellKeyV| #[trigger] r.has_cell(c) == self.has_cell(c),
            forall|c: CellKeyV| #[trigger] r.nbrs(c) == self.nbrs(c),
            forall|c: CellKeyV| #[trigger] r.meta(c) == self.meta(c),
    {
        match self {
            Topology::Square(m) => Topology::Square(m.copy_map()),
            Topology::Hex(m) => Topology::Hex(m.copy_map()),
            Topology::Region(m) => Topology::Region(m.copy_map()),
        }
    }
}

} // verus!
