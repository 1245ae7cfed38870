//! Square grid maps.
use vstd::prelude::*;

use crate::json::{Json, JsonV};
use crate::map::cell_key::{CellKey, CellKeyV};
use crate::map::grid::{
    add_edge, cell_list, ensure_cell, merge_cell_tables, merge_meta, merge_meta_tables, meta_of, nbr_set,
    neighbor_list, set_meta, CellTable, MetaTable,
};
use crate::json::deep_merge;

verus! {

/// A square grid map.
pub struct SquareGridMap {
    /// Cell -> neighbor cells.
    pub cells: CellTable,
    /// Cell -> metadata.
    pub cell_metadata: MetaTable,
}

impl SquareGridMap {
    /// Whether `c` is a cell of this map.
    pub open spec fn has_cell(self, c: CellKeyV) -> bool {
        c is Square && self.cells@.contains_key(c)
    }

    /// The neighbors of `c` (empty for cells of another topology).
    pub open spec fn nbrs(self, c: CellKeyV) -> Set<CellKeyV> {
        if c is Square {
            nbr_set(self.cells@, c)
        } else {
            Set::empty()
        }
    }

    /// The metadata of `c`, if any.
    pub open spec fn meta(self, c: CellKeyV) -> Option<JsonV> {
        meta_of(self.cell_metadata@, c)
    }

    /// Create a new empty map.
    pub fn new() -> (r: Self)
        ensures
            r.cells@ == Map::<CellKeyV, crate::collections::KeySet<CellKey>>::empty(),
            r.cell_metadata@ == Map::<CellKeyV, Json>::empty(),
    {
        SquareGridMap { cells: CellTable::new(), cell_metadata: MetaTable::new() }
    }

    /// Add a cell to the map (an existing cell keeps its neighbors).
    pub fn add_cell(&mut self, x: i32, y: i32, z: i32)
        ensures
            final(self).cells@.dom() == old(self).cells@.dom().insert(CellKeyV::Square { x, y, z }),
            forall|k: CellKeyV| #[trigger] nbr_set(final(self).cells@, k) == nbr_set(old(self).cells@, k),
            final(self).cell_metadata == old(self).cell_metadata,
    {
        ensure_cell(&mut self.cells, CellKey::Square { x, y, z });
    }

    /// Add `to` as a neighbor of `from` (`from` is added as a cell when new;
    /// `to` is not).
    pub fn add_neighbor(&mut self, from: (i32, i32, i32), to: (i32, i32, i32))
        ensures
            final(self).cells@.dom() == old(self).cells@.dom().insert(CellKeyV::Square { x: from.0, y: from.1, z: from.2 }),
            nbr_set(final(self).cells@, CellKeyV::Square { x: from.0, y: from.1, z: from.2 }) == nbr_set(
                old(self).cells@,
                CellKeyV::Square { x: from.0, y: from.1, z: from.2 },
            ).insert(CellKeyV::Square { x: to.0, y: to.1, z: to.2 }),
            forall|k: CellKeyV| k != (CellKeyV::Square { x: from.0, y: from.1, z: from.2 }) ==> #[trigger] nbr_set(final(self).cells@, k) == nbr_set(old(self).cells@, k),
            final(self).cell_metadata == old(self).cell_metadata,
    {
        add_edge(
            &mut self.cells,
            CellKey::Square { x: from.0, y: from.1, z: from.2 },
            CellKey::Square { x: to.0, y: to.1, z: to.2 },
        );
    }


    /// Merge another map into this one: cells and neighbor sets are united;
    /// metadata of cells this map lacks is copied, existing metadata is kept.
    pub fn merge_from(&mut self, other: &SquareGridMap)
        ensures
            final(self).cells@.dom() == old(self).cells@.dom().union(other.cells@.dom()),
            forall|c: CellKeyV| #[trigger] nbr_set(final(self).cells@, c) == nbr_set(old(self).cells@, c).union(nbr_set(other.cells@, c)),
            final(self).cell_metadata@.dom() == old(self).cell_metadata@.dom().union(other.cell_metadata@.dom()),
            forall|c: CellKeyV| #[trigger] old(self).cell_metadata@.contains_key(c) ==> final(self).cell_metadata@[c] == old(self).cell_metadata@[c],
            forall|c: CellKeyV| #[trigger] other.cell_metadata@.contains_key(c) && !old(self).cell_metadata@.contains_key(c)
                ==> final(self).cell_metadata@[c]@ == other.cell_metadata@[c]@,
    {
        merge_cell_tables(&mut self.cells, &other.cells);
        merge_meta_tables(&mut self.cell_metadata, &other.cell_metadata);
    }

    /// A copy of this map.
    pub fn copy_map(&self) -> (r: Self)
        ensures
            r.cells@.dom() == self.cells@.dom(),
            forall|c: CellKeyV| #[trigger] nbr_set(r.cells@, c) == nbr_set(self.cells@, c),
            r.cell_metadata@.dom() == self.cell_metadata@.dom(),
            forall|c: CellKeyV| #[trigger] meta_of(r.cell_metadata@, c) == meta_of(self.cell_metadata@, c),
    {
        let mut r = SquareGridMap::new();
        r.merge_from(self);
        proof {
            assert(r.cells@.dom() =~= self.cells@.dom());
            assert(r.cell_metadata@.dom() =~= self.cell_metadata@.dom());
            assert forall|c: CellKeyV| #[trigger] nbr_set(r.cells@, c) == nbr_set(self.cells@, c) by {
                assert(nbr_set(r.cells@, c) =~= nbr_set(self.cells@, c));
            }
        }
        r
    }

    /// Get the neighbors of a cell.
    pub fn neighbors(&self, cell: &CellKey) -> (r: Vec<CellKey>)
        ensures
            forall|i: int| 0 <= i < r.len() ==> self.nbrs(cell@).contains(#[trigger] r@[i]@),
            forall|c: CellKeyV| self.nbrs(cell@).contains(c) ==> exists|i: int| 0 <= i < r.len() && #[trigger] r@[i]@ == c,
    {
        if cell.is_square() {
            neighbor_list(&self.cells, cell)
        } else {
            Vec::new()
        }
    }

    /// Check if the map contains a cell.
    pub fn contains(&self, cell: &CellKey) -> (r: bool)
        ensures
            r == self.has_cell(cell@),
    {
        cell.is_square() && self.cells.contains_key(cell)
    }

    /// Get all the cells in the map.
    pub fn all_cells(&self) -> (r: Vec<CellKey>)
        ensures
            forall|i: int| 0 <= i < r.len() ==> self.cells@.contains_key(#[trigger] r@[i]@),
            forall|c: CellKeyV| self.cells@.contains_key(c) ==> exists|i: int| 0 <= i < r.len() && #[trigger] r@[i]@ == c,
            r.len() == self.cells@.len(),
    {
        cell_list(&self.cells)
    }

    /// Get the topology type.
    pub fn topology_type(&self) -> (r: &'static str)
        ensures
            r@ == "square"@,
    {
        proof {
            reveal_strlit("square");
        }
        "square"
    }

    /// Set the metadata of a cell.
    pub fn set_cell_metadata(&mut self, cell: &CellKey, data: Json)
        ensures
            final(self).cells == old(self).cells,
            final(self).cell_metadata@ == old(self).cell_metadata@.insert(cell@, data),
    {
        set_meta(&mut self.cell_metadata, cell.copy_key(), data);
    }

    /// Get the metadata of a cell.
    pub fn get_cell_metadata(&self, cell: &CellKey) -> (r: Option<&Json>)
        ensures
            r matches Some(m) ==> self.meta(cell@) == Some(m@),
            r is None ==> self.meta(cell@) is None,
    {
        self.cell_metadata.get(cell)
    }

    /// Merge `patch` into the metadata of a cell: deep-merged into existing
    /// metadata (keys absent from the patch are kept), or stored as is.
    pub fn merge_cell_metadata(&mut self, cell: &CellKey, patch: Json)
        ensures
            final(self).cells == old(self).cells,
            final(self).cell_metadata@.dom() == old(self).cell_metadata@.dom().insert(cell@),
            meta_of(final(self).cell_metadata@, cell@) == Some(
                match meta_of(old(self).cell_metadata@, cell@) {
                    Some(e) => deep_merge(e, patch@),
                    None => patch@,
                },
            ),
            forall|c: CellKeyV| c != cell@ ==> #[trigger] meta_of(final(self).cell_metadata@, c) == meta_of(old(self).cell_metadata@, c),
    {
        merge_meta(&mut self.cell_metadata, cell.copy_key(), patch);
    }
}

} // verus!
