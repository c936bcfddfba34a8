//! A session: several grids played side by side, stepped together.

use vstd::prelude::*;
use vstd::std_specs::iter::IteratorSpec;
use vstd::std_specs::slice::axiom_spec_slice_iter;

use super::error::GameError;
use super::grid::{grid_len, reflagged, stepped, subgrid_tallies, Grid};

verus! {

/// The grids of a session, in the order they were added, and whether the
/// session as a whole is stopped.
#[derive(Clone)]
pub struct Conway {
    pub stopped: bool,
    grids: Vec<Grid>,
}

impl Conway {
    /// The grids, in order.
    pub closed spec fn games(&self) -> Seq<Grid> {
        self.grids@
    }

    /// Whether the session is stopped.
    pub closed spec fn is_stopped(&self) -> bool {
        self.stopped
    }

    /// A stopped session with no grid.
    pub fn new() -> (r: Conway)
        ensures
            r.games().len() == 0,
            r.is_stopped(),
    {
        Conway { grids: Vec::new(), stopped: true }
    }

    /// A stopped session of `capacity` random grids, each of them running.
    pub fn start_with_capacity(capacity: usize) -> (r: Conway)
        ensures
            r.games().len() == capacity,
            r.is_stopped(),
            forall|i: int| 0 <= i < capacity ==> !(#[trigger] r.games()[i]).is_stopped(),
            forall|i: int, j: int|
                0 <= i < capacity && 0 <= j < grid_len() ==> !(#[trigger] r.games()[i]@[j]).just_changed,
    {
        let mut grids: Vec<Grid> = Vec::with_capacity(capacity);
        let mut k: usize = 0;
        while k < capacity
            invariant
                k <= capacity,
                grids@.len() == k,
                forall|i: int| 0 <= i < k ==> !(#[trigger] grids@[i]).is_stopped(),
                forall|i: int, j: int|
                    0 <= i < k && 0 <= j < grid_len() ==> !(#[trigger] grids@[i]@[j]).just_changed,
            decreases capacity - k,
        {
            grids.push(Grid::random());
            k = k + 1;
        }
        Conway { grids, stopped: true }
    }

    /// The grids, in order.
    pub fn iter(&self) -> (r: std::slice::Iter<'_, Grid>)
        ensures
            r.remaining() == self.games().as_ref(),
    {
        broadcast use axiom_spec_slice_iter;

        self.grids.as_slice().iter()
    }

    /// Appends a grid.
    pub fn add_game(&mut self, game: Grid)
        ensures
            final(self).games() == old(self).games().push(game),
            final(self).is_stopped() == old(self).is_stopped(),
    {
        self.grids.push(game);
    }

    /// How many grids the session holds.
    pub fn number_of_games(&self) -> (r: usize)
        ensures
            r == self.games().len(),
    {
        self.grids.len()
    }

    /// Removes and returns the grid at `index`; the grids after it move one
    /// place forward. An index past the last grid leaves the session as it is.
    pub fn remove_game(&mut self, index: usize) -> (r: Result<Grid, GameError>)
        ensures
            index < old(self).games().len() ==> r == Ok::<Grid, GameError>(old(self).games()[index as int])
                && final(self).games() == old(self).games().remove(index as int)
                && final(self).is_stopped() == old(self).is_stopped(),
            index >= old(self).games().len() ==> r == Err::<Grid, GameError>(
                GameError::GameIndexOutOfBounds(index),
            ) && *final(self) == *old(self),
    {
        if index >= self.grids.len() {
            return Err(GameError::GameIndexOutOfBounds(index));
        }
        Ok(self.grids.remove(index))
    }

    /// Unless the session is stopped, steps every grid once (each grid's own
    /// flag still decides whether it moves).
    pub fn next_gen(&mut self)
        ensures
            old(self).is_stopped() ==> *final(self) == *old(self),
            final(self).is_stopped() == old(self).is_stopped(),
            final(self).games().len() == old(self).games().len(),
            !old(self).is_stopped() ==> forall|i: int|
                0 <= i < old(self).games().len() ==> stepped(
                    #[trigger] old(self).games()[i],
                    final(self).games()[i],
                ),
    {
        if self.stopped {
            return;
        }
        let ghost before = self.grids@;
        let mut i: usize = 0;
        while i < self.grids.len()
            invariant
                !self.stopped,
                self.grids@.len() == before.len(),
                i <= before.len(),
                forall|j: int| 0 <= j < i ==> stepped(#[trigger] before[j], self.grids@[j]),
                forall|j: int| i <= j < before.len() ==> #[trigger] self.grids@[j] == before[j],
            decreases before.len() - i,
        {
            self.grids[i].next_gen();
            i = i + 1;
        }
    }

    /// Stops the session.
    pub fn stop(&mut self)
        ensures
            final(self).is_stopped(),
            final(self).games() == old(self).games(),
    {
        self.stopped = true;
    }

    /// Starts the session.
    pub fn start(&mut self)
        ensures
            !final(self).is_stopped(),
            final(self).games() == old(self).games(),
    {
        self.stopped = false;
    }

    /// Stops a running session, starts a stopped one.
    pub fn toggle(&mut self)
        ensures
            final(self).is_stopped() == !old(self).is_stopped(),
            final(self).games() == old(self).games(),
    {
        self.stopped = !self.stopped;
    }

    /// Sets the flag of the grid at `game_index` to `stopped`, or `!flag` when
    /// `flip` holds.
    fn set_game_flag(&mut self, game_index: usize, stopped: bool, flip: bool) -> (r: Result<
        (),
        GameError,
    >)
        ensures
            ({
                let before = old(self).games();
                let after = final(self).games();
                &&& final(self).is_stopped() == old(self).is_stopped()
                &&& game_index < before.len() ==> r is Ok && after.len() == before.len()
                    && reflagged(
                    before[game_index as int],
                    after[game_index as int],
                    if flip {
                        !before[game_index as int].is_stopped()
                    } else {
                        stopped
                    },
                ) && forall|j: int|
                    0 <= j < before.len() && j != game_index ==> #[trigger] after[j] == before[j]
                &&& game_index >= before.len() ==> r == Err::<(), GameError>(
                    GameError::GameIndexOutOfBounds(game_index),
                ) && *final(self) == *old(self)
            }),
    {
        if game_index >= self.grids.len() {
            return Err(GameError::GameIndexOutOfBounds(game_index));
        }
        if flip {
            self.grids[game_index].toggle();
        } else if stopped {
            self.grids[game_index].stop();
        } else {
            self.grids[game_index].start();
        }
        Ok(())
    }

    /// Stops the grid at `game_index`.
    pub fn stop_game(&mut self, game_index: usize) -> (r: Result<(), GameError>)
        ensures
            ({
                let before = old(self).games();
                let after = final(self).games();
                &&& final(self).is_stopped() == old(self).is_stopped()
                &&& game_index < before.len() ==> r is Ok && after.len() == before.len()
                    && reflagged(before[game_index as int], after[game_index as int], true)
                    && forall|j: int|
                    0 <= j < before.len() && j != game_index ==> #[trigger] after[j] == before[j]
                &&& game_index >= before.len() ==> r == Err::<(), GameError>(
                    GameError::GameIndexOutOfBounds(game_index),
                ) && *final(self) == *old(self)
            }),
    {
        self.set_game_flag(game_index, true, false)
    }

    /// Starts the grid at `game_index`.
    pub fn start_game(&mut self, game_index: usize) -> (r: Result<(), GameError>)
        ensures
            ({
                let before = old(self).games();
                let after = final(self).games();
                &&& final(self).is_stopped() == old(self).is_stopped()
                &&& game_index < before.len() ==> r is Ok && after.len() == before.len()
                    && reflagged(before[game_index as int], after[game_index as int], false)
                    && forall|j: int|
                    0 <= j < before.len() && j != game_index ==> #[trigger] after[j] == before[j]
                &&& game_index >= before.len() ==> r == Err::<(), GameError>(
                    GameError::GameIndexOutOfBounds(game_index),
                ) && *final(self) == *old(self)
            }),
    {
        self.set_game_flag(game_index, false, false)
    }

    /// Flips the flag of the grid at `game_index`.
    pub fn toggle_game(&mut self, game_index: usize) -> (r: Result<(), GameError>)
        ensures
            ({
                let before = old(self).games();
                let after = final(self).games();
                &&& final(self).is_stopped() == old(self).is_stopped()
                &&& game_index < before.len() ==> r is Ok && after.len() == before.len()
                    && reflagged(
                    before[game_index as int],
                    after[game_index as int],
                    !before[game_index as int].is_stopped(),
                ) && forall|j: int|
                    0 <= j < before.len() && j != game_index ==> #[trigger] after[j] == before[j]
                &&& game_index >= before.len() ==> r == Err::<(), GameError>(
                    GameError::GameIndexOutOfBounds(game_index),
                ) && *final(self) == *old(self)
            }),
    {
        self.set_game_flag(game_index, false, true)
    }

    /// The (pitch, volume) pairs of every grid, one vector per grid in order,
    /// each counted as `Grid::get_pitch_and_volume_per_subgrid` counts them.
    pub fn get_pitch_and_volume_per_subgrids(&mut self) -> (r: Vec<Vec<(u32, u32)>>)
        ensures
            final(self).is_stopped() == old(self).is_stopped(),
            final(self).games().len() == old(self).games().len(),
            r@.len() == old(self).games().len(),
            forall|i: int|
                0 <= i < r@.len() ==> {
                    let before = #[trigger] old(self).games()[i];
                    let after = final(self).games()[i];
                    &&& r@[i]@ == subgrid_tallies(before@)
                    &&& after@ == before@
                    &&& after.is_stopped() == before.is_stopped()
                    &&& after.subgrid_values_view() == r@[i]@
                },
    {
        let ghost before = self.grids@;
        let ghost was_stopped = self.stopped;
        let mut values: Vec<Vec<(u32, u32)>> = Vec::with_capacity(self.grids.len());
        let mut i: usize = 0;
        while i < self.grids.len()
            invariant
                self.stopped == was_stopped,
                self.grids@.len() == before.len(),
                i <= before.len(),
                values@.len() == i,
                forall|j: int|
                    0 <= j < i ==> {
                        let b = #[trigger] before[j];
                        let a = self.grids@[j];
                        &&& values@[j]@ == subgrid_tallies(b@)
                        &&& a@ == b@
                        &&& a.is_stopped() == b.is_stopped()
                        &&& a.subgrid_values_view() == values@[j]@
                    },
                forall|j: int| i <= j < before.len() ==> #[trigger] self.grids@[j] == before[j],
            decreases before.len() - i,
        {
            let grid_values = self.grids[i].get_pitch_and_volume_per_subgrid();
            values.push(grid_values);
            i = i + 1;
        }
        values
    }
}

} // verus!
