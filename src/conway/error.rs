//! What can go wrong when a grid or a session is addressed.

use vstd::prelude::*;

use super::index::Index;

verus! {

/// An address that names no cell, or no grid of a session.
#[derive(Debug, Clone, Copy, PartialEq, Eq, Structural)]
pub enum GameError {
    /// The position of a cell lies outside the grid.
    IndexOutOfBounds(Index),
    /// The position of a grid lies outside the session.
    GameIndexOutOfBounds(usize),
}

impl GameError {
    /// A short description of the error.
    pub fn message(&self) -> (r: &'static str)
        ensures
            self is IndexOutOfBounds ==> r@ == "index out of bounds"@,
            self is GameIndexOutOfBounds ==> r@ == "game index out of bounds"@,
    {
        match self {
            GameError::IndexOutOfBounds(_) => "index out of bounds",
            GameError::GameIndexOutOfBounds(_) => "game index out of bounds",
        }
    }
}

} // verus!
