//! The atomic unit of the grid: one cell with its reveal status, its
//! kind (empty, mine, or a numbered pointer), and a player mark.
use vstd::prelude::*;

verus! {

/// Whether the player has opened this cell. The transition is one-way:
/// `Unrevealed` to `Revealed` only.
#[derive(Clone, Copy, Debug, PartialEq, Eq, Structural)]
pub enum FieldStatus {
    Unrevealed,
    Revealed,
}

/// What the cell holds, fixed during board setup: nothing, a mine, or a
/// pointer counting the mines among its up-to-8 neighbors.
#[derive(Clone, Copy, Debug, PartialEq, Eq, Structural)]
pub enum FieldType {
    Empty,
    Mine,
    Pointer { mines_nearby: u8 },
}

/// One grid cell.
#[derive(Clone, Copy, Debug, PartialEq, Eq, Structural)]
pub struct Field {
    pub field_status: FieldStatus,
    pub field_type: FieldType,
    pub is_marked: bool,
}

} // verus!
