//! The game of life: cells, coordinates, a single grid with its subgrid
//! tallies, and the session that steps several grids together.

mod cell;
mod error;
mod grid;
mod index;
mod session;

pub use cell::{Cell, CELL_SIZE};
pub use error::GameError;
pub use grid::{Grid, GRID_HEIGHT, GRID_WIDTH, NUMBER_OF_SUBGRIDS};
pub use index::Index;
pub use session::Conway;
