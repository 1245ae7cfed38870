//! Built-in component data types.
use vstd::prelude::*;

use crate::map::cell_key::CellKey;

verus! {

/// Marker component for camera entities.
#[derive(Debug, Clone, Copy)]
pub struct Camera;

/// Corpse component for dead entities.
///
/// Marks an entity as a corpse after death; can be used for decay, looting, etc.
#[derive(Debug, Clone, Copy)]
pub struct Corpse {}

/// Decay component for entities that will be removed after a certain number of ticks.
///
/// Used for corpses, debris, temporary effects, etc.
#[derive(Debug, Clone, Copy)]
pub struct Decay {
    /// Number of ticks remaining before the entity is removed from the world.
    pub time_remaining: u32,
}

/// Position for any map topology (square, hex, province, etc.)
#[derive(Debug)]
pub enum Position {
    /// Square topology
    Square {
        /// X coordinate
        x: i32,
        /// Y coordinate
        y: i32,
        /// Z coordinate
        z: i32,
    },
    /// Hexagonal topology
    Hex {
        /// q coordinate
        q: i32,
        /// r coordinate
        r: i32,
        /// z coordinate
        z: i32,
    },
    /// Province topology
    Province {
        /// Province ID
        id: String,
    },
}

/// Position component
#[derive(Debug)]
pub struct PositionComponent {
    /// Position
    pub pos: Position,
}

impl Position {
    /// The map cell this position denotes.
    pub fn cell(&self) -> (r: CellKey)
        ensures
            self matches Position::Square { x, y, z } ==> r == (CellKey::Square { x: *x, y: *y, z: *z }),
            self matches Position::Hex { q, r: rr, z } ==> r == (CellKey::Hex { q: *q, r: *rr, z: *z }),
            self matches Position::Province { id } ==> r matches CellKey::Province { id: rid } && rid@ == id@,
    {
        match self {
            Position::Square { x, y, z } => CellKey::Square { x: *x, y: *y, z: *z },
            Position::Hex { q, r, z } => CellKey::Hex { q: *q, r: *r, z: *z },
            Position::Province { id } => CellKey::Province { id: id.clone() },
        }
    }
}

} // verus!
