//! A single cell of a grid.

use vstd::prelude::*;

verus! {

/// Size of a single cell when a grid is drawn, in pixels.
pub const CELL_SIZE: usize = 20;

/// A cell: whether it lives, and whether that changed in the last step or
/// the last edit.
#[derive(Debug, Clone, Copy)]
pub struct Cell {
    pub alive: bool,
    pub just_changed: bool,
}

impl Cell {
    /// The colour a cell is painted with: white when alive, black when dead.
    pub fn color(&self) -> (r: &'static str)
        ensures
            self.alive ==> r@ == "#fff"@,
            !self.alive ==> r@ == "#000"@,
    {
        if self.alive {
            "#fff"
        } else {
            "#000"
        }
    }
}

/// Two cells are equal when both live or both are dead.
impl PartialEq for Cell {
    fn eq(&self, other: &Cell) -> (r: bool) {
        self.alive == other.alive
    }
}

impl vstd::std_specs::cmp::PartialEqSpecImpl for Cell {
    open spec fn obeys_eq_spec() -> bool {
        true
    }

    open spec fn eq_spec(&self, other: &Cell) -> bool {
        self.alive == other.alive
    }
}

/// A cell that lives or not, with no recent change.
impl From<bool> for Cell {
    fn from(alive: bool) -> (r: Cell) {
        Cell { alive, just_changed: false }
    }
}

impl vstd::std_specs::convert::FromSpecImpl<bool> for Cell {
    open spec fn obeys_from_spec() -> bool {
        true
    }

    open spec fn from_spec(alive: bool) -> Cell {
        Cell { alive, just_changed: false }
    }
}

/// Whether a cell lives.
impl From<Cell> for bool {
    fn from(cell: Cell) -> (r: bool) {
        cell.alive
    }
}

impl vstd::std_specs::convert::FromSpecImpl<Cell> for bool {
    open spec fn obeys_from_spec() -> bool {
        true
    }

    open spec fn from_spec(cell: Cell) -> bool {
        cell.alive
    }
}

} // verus!
