//! Several independent games of life played side by side, each grid cut into
//! subgrids whose births and deaths become pitches and volumes, and the
//! schedulers that decide in which order those pitches are played.

pub mod conway;
pub mod player;
pub mod soundgen;

pub use conway::{Cell, Conway, GameError, Grid, Index, CELL_SIZE, GRID_HEIGHT, GRID_WIDTH, NUMBER_OF_SUBGRIDS};
pub use player::{
    CascadePlayer, LinearPlayer, OverlappingCascadePlayer, PingPongPlayer, PlayerStrategy,
    ReverseCascadePlayer, ReverseLinearPlayer, ReverseOverlappingCascadePlayer,
    ReversePingPongPlayer,
};
pub use soundgen::{NoteGenerator, Range, Scale, SoundError};
