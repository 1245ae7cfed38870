//! A plain cell graph: named cells, each with the names of its neighbors.
use vstd::prelude::*;

use crate::collections::{KeyMap, KeySet};

verus! {

/// A cell with the names of its neighbors.
pub struct MapCell {
    pub id: String,
    pub neighbors: KeySet<String>,
    pub topology: String,
}

/// Named cells, all of one topology.
pub struct CellGraph {
    pub cells: KeyMap<String, MapCell>,
    pub topology: String,
}

impl CellGraph {
    /// An empty graph of the given topology.
    pub fn new(topology: &str) -> (r: Self)
        ensures
            r.cells@ == Map::<Seq<char>, MapCell>::empty(),
            r.topology@ == topology@,
    {
        CellGraph { cells: KeyMap::new(), topology: String::from_str(topology) }
    }

    /// Add a cell with no neighbors, replacing any cell of that name.
    pub fn add_cell(&mut self, id: &str)
        ensures
            final(self).topology == old(self).topology,
            final(self).cells@.dom() == old(self).cells@.dom().insert(id@),
            final(self).cells@[id@].id@ == id@,
            final(self).cells@[id@].neighbors@ == Set::<Seq<char>>::empty(),
            final(self).cells@[id@].topology@ == old(self).topology@,
            forall|k: Seq<char>| k != id@ && old(self).cells@.contains_key(k) ==> final(self).cells@[k]
                == old(self).cells@[k],
    {
        let cell = MapCell {
            id: String::from_str(id),
            neighbors: KeySet::new(),
            topology: self.topology.clone(),
        };
        self.cells.insert(String::from_str(id), cell);
    }

    /// Record `neighbor_id` as a neighbor of cell `id`; nothing happens when
    /// there is no such cell.
    pub fn add_neighbor(&mut self, id: &str, neighbor_id: &str)
        ensures
            final(self).topology == old(self).topology,
            final(self).cells@.dom() == old(self).cells@.dom(),
            forall|k: Seq<char>| k != id@ && old(self).cells@.contains_key(k) ==> final(self).cells@[k]
                == old(self).cells@[k],
            old(self).cells@.contains_key(id@) ==> {
                &&& final(self).cells@[id@].id == old(self).cells@[id@].id
                &&& final(self).cells@[id@].topology == old(self).cells@[id@].topology
                &&& final(self).cells@[id@].neighbors@ == old(self).cells@[id@].neighbors@.insert(neighbor_id@)
            },
    {
        let key = String::from_str(id);
        match self.cells.remove(&key) {
            Some(cell) => {
                let mut cell = cell;
                cell.neighbors.insert(String::from_str(neighbor_id));
                self.cells.insert(key, cell);
                proof {
                    assert(self.cells@.dom() =~= old(self).cells@.dom());
                }
            },
            None => {},
        }
    }

    /// The neighbor names of cell `id`, when there is such a cell.
    pub fn neighbors(&self, id: &str) -> (r: Option<&KeySet<String>>)
        ensures
            r matches Some(n) ==> self.cells@.contains_key(id@) && *n == self.cells@[id@].neighbors,
            r is None ==> !self.cells@.contains_key(id@),
    {
        match self.cells.get(&String::from_str(id)) {
            Some(c) => Some(&c.neighbors),
            None => None,
        }
    }
}

} // verus!
