//! Fog of war: the cells each entity sees now and the cells it has seen.
use vstd::prelude::*;

use crate::collections::{KeyMap, KeySet};
use crate::json::Json;
use crate::map::cell_key::{CellKey, CellKeyV};
use super::World;

verus! {

/// A cell neither seen now nor before.
pub const UNEXPLORED: u8 = 0;
/// A cell seen before but not now.
pub const EXPLORED: u8 = 1;
/// A cell seen now.
pub const VISIBLE: u8 = 2;

impl<H: Fn(&Json)> World<H> {
    /// Whether entity `e` sees cell `c` now.
    pub open spec fn sees(self, e: u32, c: CellKeyV) -> bool {
        self.visible_cells@.contains_key(e) && self.visible_cells@[e]@.contains(c)
    }

    /// Whether entity `e` has explored cell `c`.
    pub open spec fn has_explored(self, e: u32, c: CellKeyV) -> bool {
        self.explored_cells@.contains_key(e) && self.explored_cells@[e]@.contains(c)
    }

    /// The visibility state of cell `c` for entity `e`.
    pub open spec fn visibility(self, e: u32, c: CellKeyV) -> u8 {
        if self.sees(e, c) {
            VISIBLE
        } else if self.has_explored(e, c) {
            EXPLORED
        } else {
            UNEXPLORED
        }
    }

    /// The cells an entity sees now, if computed.
    pub fn get_visible_cells(&self, entity: u32) -> (r: Option<&KeySet<CellKey>>)
        ensures
            r matches Some(s) ==> self.visible_cells@.contains_key(entity) && *s == self.visible_cells@[entity],
            r is None ==> !self.visible_cells@.contains_key(entity),
    {
        self.visible_cells.get(&entity)
    }

    /// Set the cells an entity sees now.
    pub fn set_visible_cells(&mut self, entity: u32, cells: KeySet<CellKey>)
        ensures
            final(self).visible_cells@ == old(self).visible_cells@.insert(entity, cells),
            final(self).explored_cells@ == old(self).explored_cells@,
    {
        self.visible_cells.insert(entity, cells);
    }

    /// The cells an entity has explored, if any.
    pub fn get_explored_cells(&self, entity: u32) -> (r: Option<&KeySet<CellKey>>)
        ensures
            r matches Some(s) ==> self.explored_cells@.contains_key(entity) && *s == self.explored_cells@[entity],
            r is None ==> !self.explored_cells@.contains_key(entity),
    {
        self.explored_cells.get(&entity)
    }

    /// Set the cells an entity has explored.
    pub fn set_explored_cells(&mut self, entity: u32, cells: KeySet<CellKey>)
        ensures
            final(self).explored_cells@ == old(self).explored_cells@.insert(entity, cells),
            final(self).visible_cells@ == old(self).visible_cells@,
    {
        self.explored_cells.insert(entity, cells);
    }

    /// Forget what one entity has explored.
    pub fn reset_fog(&mut self, entity: u32)
        ensures
            final(self).explored_cells@ == old(self).explored_cells@.remove(entity),
            final(self).visible_cells@ == old(self).visible_cells@,
    {
        let _ = self.explored_cells.remove(&entity);
    }

    /// Forget what every entity has explored.
    pub fn reset_all_fog(&mut self)
        ensures
            final(self).explored_cells@ == Map::<u32, KeySet<CellKey>>::empty(),
            final(self).visible_cells@ == old(self).visible_cells@,
    {
        self.explored_cells = KeyMap::new();
    }

    /// The visibility state of a cell for an entity: [`VISIBLE`] when it
    /// sees the cell now, else [`EXPLORED`] when it has seen it, else
    /// [`UNEXPLORED`].
    pub fn get_visibility_state(&self, entity: u32, cell: &CellKey) -> (r: u8)
        ensures
            r == self.visibility(entity, cell@),
    {
        let visible = match self.visible_cells.get(&entity) {
            Some(cells) => cells.contains(cell),
            None => false,
        };
        if visible {
            return VISIBLE;
        }
        let explored = match self.explored_cells.get(&entity) {
            Some(cells) => cells.contains(cell),
            None => false,
        };
        if explored {
            EXPLORED
        } else {
            UNEXPLORED
        }
    }
}

/// After an entity's explored cells are forgotten, no cell it does not see
/// now reads as explored, and every cell it sees still reads as visible.
pub proof fn law_reset_fog_forgets<H: Fn(&Json)>(before: World<H>, after: World<H>, e: u32, c: CellKeyV)
    requires
        after.explored_cells@ == before.explored_cells@.remove(e),
        after.visible_cells@ == before.visible_cells@,
    ensures
        after.visibility(e, c) == (if before.sees(e, c) { VISIBLE } else { UNEXPLORED }),
{
}

} // verus!
