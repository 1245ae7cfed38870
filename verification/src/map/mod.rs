//! Maps: cell keys, topologies, field of view and map construction.
use vstd::prelude::*;

pub mod cell_graph;
pub mod cell_key;
pub mod grid;
pub mod hex;
pub mod region;
pub mod square;
pub mod topology;

pub use cell_key::CellKey;
pub use hex::HexGridMap;
pub use region::RegionMap;
pub use square::SquareGridMap;
pub use topology::Topology;

use crate::json::Json;
use cell_key::CellKeyV;

verus! {

/// A map: a topology of cells with their neighbors and metadata.
pub struct WorldMap {
    /// The underlying topology.
    pub topology: Topology,
}

impl WorldMap {
    /// Create a new Map.
    pub fn new(topology: Topology) -> (r: Self)
        ensures
            r.topology == topology,
    {
        WorldMap { topology }
    }

    /// Check if the Map contains a cell.
    pub fn contains(&self, cell: &CellKey) -> (r: bool)
        ensures
            r == self.topology.has_cell(cell@),
    {
        self.topology.contains(cell)
    }

    /// Get the neighbors of a cell.
    pub fn neighbors(&self, cell: &CellKey) -> (r: Vec<CellKey>)
        ensures
            forall|i: int| 0 <= i < r.len() ==> self.topology.nbrs(cell@).contains(#[trigger] r@[i]@),
            forall|c: CellKeyV|
                self.topology.nbrs(cell@).contains(c) ==> exists|i: int| 0 <= i < r.len() && #[trigger] r@[i]@ == c,
    {
        self.topology.neighbors(cell)
    }

    /// Get the topology type of the Map.
    pub fn topology_type(&self) -> (r: &'static str)
        ensures
            r@ == self.topology.kind_name(),
    {
        self.topology.topology_type()
    }

    /// Get all the cells in the Map: each cell of its adjacency table once.
    pub fn all_cells(&self) -> (r: Vec<CellKey>)
        ensures
            forall|i: int| 0 <= i < r.len() ==> self.topology.cell_dom().contains(#[trigger] r@[i]@),
            forall|c: CellKeyV| self.topology.cell_dom().contains(c) ==> exists|i: int| 0 <= i < r.len() && #[trigger] r@[i]@ == c,
            r.len() == self.topology.cell_dom().len(),
    {
        self.topology.all_cells()
    }

    /// Set cell metadata for the Map.
    pub fn set_cell_metadata(&mut self, cell: &CellKey, data: Json)
        ensures
            final(self).topology.kind_name() == old(self).topology.kind_name(),
            forall|c: CellKeyV| #[trigger] final(self).topology.has_cell(c) == old(self).topology.has_cell(c),
            forall|c: CellKeyV| #[trigger] final(self).topology.nbrs(c) == old(self).topology.nbrs(c),
            forall|c: CellKeyV| #[trigger] final(self).topology.meta(c) == if c == cell@ && old(self).topology.stores_meta(c) {
                Some(data@)
            } else {
                old(self).topology.meta(c)
            },
    {
        self.topology.set_cell_metadata(cell, data);
    }

    /// Get cell metadata for the Map.
    pub fn get_cell_metadata(&self, cell: &CellKey) -> (r: Option<&Json>)
        ensures
            r matches Some(m) ==> self.topology.meta(cell@) == Some(m@),
            r is None ==> self.topology.meta(cell@) is None,
    {
        self.topology.get_cell_metadata(cell)
    }

    /// Merge a patch into the metadata of a cell.
    pub fn merge_cell_metadata(&mut self, cell: &CellKey, patch: Json)
        ensures
            final(self).topology.kind_name() == old(self).topology.kind_name(),
            forall|c: CellKeyV| #[trigger] final(self).topology.has_cell(c) == old(self).topology.has_cell(c),
            forall|c: CellKeyV| #[trigger] final(self).topology.nbrs(c) == old(self).topology.nbrs(c),
            forall|c: CellKeyV| #[trigger] final(self).topology.meta(c) == if c == cell@ && old(self).topology.stores_meta(c) {
                Some(
                    match old(self).topology.meta(c) {
                        Some(e) => crate::json::deep_merge(e, patch@),
                        None => patch@,
                    },
                )
            } else {
                old(self).topology.meta(c)
            },
    {
        self.topology.merge_cell_metadata(cell, patch);
    }

    /// A copy of this map.
    pub fn copy_map(&self) -> (r: WorldMap)
        ensures
            r.topology.kind_name() == self.topology.kind_name(),
            forall|c: CellKeyV| #[trigger] r.topology.has_cell(c) == self.topology.has_cell(c),
            forall|c: CellKeyV| #[trigger] r.topology.nbrs(c) == self.topology.nbrs(c),
            forall|c: CellKeyV| #[trigger] r.topology.meta(c) == self.topology.meta(c),
    {
        WorldMap { topology: self.topology.clone_box() }
    }

    /// Merge another map (chunk) into this map. Maps of different topology
    /// types are left as they are.
    pub fn merge_chunk(&mut self, other: &WorldMap)
        ensures
            old(self).topology.kind_name() != other.topology.kind_name() ==> final(self).topology == old(self).topology,
            final(self).topology.kind_name() == old(self).topology.kind_name(),
            old(self).topology.kind_name() == other.topology.kind_name() ==> {
                &&& final(self).topology.cell_dom() == old(self).topology.cell_dom().union(other.topology.cell_dom())
                &&& forall|c: CellKeyV| #[trigger] final(self).topology.has_cell(c)
                    == (old(self).topology.has_cell(c) || other.topology.has_cell(c))
                &&& forall|c: CellKeyV| #[trigger] final(self).topology.nbrs(c)
                    == old(self).topology.nbrs(c).union(other.topology.nbrs(c))
                &&& forall|c: CellKeyV| #[trigger] final(self).topology.meta(c)
                    == if old(self).topology.meta(c) is Some { old(self).topology.meta(c) } else { other.topology.meta(c) }
            },
    {
        match (&mut self.topology, &other.topology) {
            (Topology::Square(a), Topology::Square(b)) => {
                let ghost a0 = *a;
                a.merge_from(b);
                proof {
                    assert(*old(self) == WorldMap { topology: Topology::Square(a0) });
                    assert forall|c: CellKeyV| #[trigger] a.nbrs(c) == a0.nbrs(c).union(b.nbrs(c)) by {
                        assert(a.nbrs(c) =~= a0.nbrs(c).union(b.nbrs(c)));
                    }
                    assert forall|c: CellKeyV| #[trigger] a.has_cell(c) == (a0.has_cell(c) || b.has_cell(c)) by {
                        assert(a.cells@.dom().contains(c) == (a0.cells@.dom().contains(c) || b.cells@.dom().contains(c)));
                    }
                    assert forall|c: CellKeyV| #[trigger] a.meta(c) == if a0.meta(c) is Some { a0.meta(c) } else { b.meta(c) } by {
                        if a0.cell_metadata@.contains_key(c) {
                            assert(a.cell_metadata@[c] == a0.cell_metadata@[c]);
                        }
                    }
                }
            },
            (Topology::Hex(a), Topology::Hex(b)) => {
                let ghost a0 = *a;
                a.merge_from(b);
                proof {
                    assert(*old(self) == WorldMap { topology: Topology::Hex(a0) });
                    assert forall|c: CellKeyV| #[trigger] a.nbrs(c) == a0.nbrs(c).union(b.nbrs(c)) by {
                        assert(a.nbrs(c) =~= a0.nbrs(c).union(b.nbrs(c)));
                    }
                    assert forall|c: CellKeyV| #[trigger] a.has_cell(c) == (a0.has_cell(c) || b.has_cell(c)) by {
                        assert(a.cells@.dom().contains(c) == (a0.cells@.dom().contains(c) || b.cells@.dom().contains(c)));
                    }
                    assert forall|c: CellKeyV| #[trigger] a.meta(c) == if a0.meta(c) is Some { a0.meta(c) } else { b.meta(c) } by {
                        if a0.cell_metadata@.contains_key(c) {
                            assert(a.cell_metadata@[c] == a0.cell_metadata@[c]);
                        }
                    }
                }
            },
            (Topology::Region(a), Topology::Region(b)) => {
                let ghost a0 = *a;
                a.merge_from(b);
                proof {
                    assert(*old(self) == WorldMap { topology: Topology::Region(a0) });
                    assert forall|c: CellKeyV| #[trigger] a.nbrs(c) == a0.nbrs(c).union(b.nbrs(c)) by {
                        assert(a.nbrs(c) =~= a0.nbrs(c).union(b.nbrs(c)));
                    }
                    assert forall|c: CellKeyV| #[trigger] a.has_cell(c) == (a0.has_cell(c) || b.has_cell(c)) by {
                        assert(a.cells@.dom().contains(c) == (a0.cells@.dom().contains(c) || b.cells@.dom().contains(c)));
                    }
                    assert forall|c: CellKeyV| #[trigger] a.meta(c) == if a0.meta(c) is Some { a0.meta(c) } else { b.meta(c) } by {
                        if a0.cell_metadata@.contains_key(c) {
                            assert(a.cell_metadata@[c] == a0.cell_metadata@[c]);
                        }
                    }
                }
            },
            _ => {
                proof {
                    reveal_strlit("square");
                    reveal_strlit("hex");
                    reveal_strlit("province");
                    assert("square"@[0] != "hex"@[0] && "square"@[0] != "province"@[0] && "hex"@[0] != "province"@[0]);
                }
                assert(old(self).topology.kind_name() != other.topology.kind_name());
            },
        }
    }
}

} // verus!
pub mod fov;
