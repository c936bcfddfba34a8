//! Coordinates on a grid and the Moore neighbourhood of a cell.
//!
//! A grid is stored row by row: the cell in row `r` and column `c` sits at
//! offset `r * GRID_WIDTH + c`. Neighbours never wrap around the edges.

use vstd::prelude::*;

use super::grid::{GRID_HEIGHT, GRID_WIDTH};

verus! {

/// A position on a grid, by row and column.
#[derive(Debug, Clone, Copy, PartialEq, Eq, Structural)]
pub struct Index {
    pub row: usize,
    pub col: usize,
}

/// The flat offset of a position.
pub open spec fn flat(i: Index) -> int {
    i.row * GRID_WIDTH + i.col
}

/// The position stored at a flat offset.
pub open spec fn index_of(offset: int) -> Index {
    Index { row: (offset / GRID_WIDTH as int) as usize, col: (offset % GRID_WIDTH as int) as usize }
}

/// Whether a position lies on the grid.
pub open spec fn on_grid(i: Index) -> bool {
    i.row < GRID_HEIGHT && i.col < GRID_WIDTH
}

/// Moving `pos` by `step - 1` (so `step` 0, 1, 2 mean -1, 0, +1), kept only
/// when the result stays inside `0..bound`.
pub open spec fn shifted(pos: int, step: int, bound: int) -> Option<int> {
    let p = pos + step - 1;
    if 0 <= p < bound {
        Some(p)
    } else {
        None
    }
}

/// The neighbours found among the first `k` of the nine positions of the
/// 3x3 block around `i`, visited row by row; the centre (the fifth) is skipped.
pub open spec fn neighbors_upto(i: Index, k: nat) -> Seq<Index>
    decreases k,
{
    if k == 0 {
        Seq::empty()
    } else {
        let prev = neighbors_upto(i, (k - 1) as nat);
        let j = k - 1;
        if j == 4 {
            prev
        } else {
            match (
                shifted(i.row as int, j / 3, GRID_HEIGHT as int),
                shifted(i.col as int, j % 3, GRID_WIDTH as int),
            ) {
                (Some(r), Some(c)) => prev.push(Index { row: r as usize, col: c as usize }),
                _ => prev,
            }
        }
    }
}

/// The on-grid Moore neighbours of `i`, in row-major order.
pub open spec fn neighbors_of(i: Index) -> Seq<Index> {
    neighbors_upto(i, 9)
}

/// Every neighbour lies on the grid, and there are at most `k` of them.
pub proof fn lemma_neighbors_on_grid(i: Index, k: nat)
    ensures
        forall|t: int|
            0 <= t < neighbors_upto(i, k).len() ==> on_grid(#[trigger] neighbors_upto(i, k)[t]),
        neighbors_upto(i, k).len() <= k,
    decreases k,
{
    if k > 0 {
        lemma_neighbors_on_grid(i, (k - 1) as nat);
    }
}

/// A position on the grid has three neighbours at a corner, five along an
/// edge, and eight inside.
pub proof fn lemma_neighbor_count(i: Index)
    requires
        on_grid(i),
    ensures
        ({
            let edge_row = i.row == 0 || i.row == GRID_HEIGHT - 1;
            let edge_col = i.col == 0 || i.col == GRID_WIDTH - 1;
            let n = neighbors_of(i).len();
            &&& edge_row && edge_col ==> n == 3
            &&& edge_row != edge_col ==> n == 5
            &&& !edge_row && !edge_col ==> n == 8
        }),
{
    reveal_with_fuel(neighbors_upto, 10);
}

/// An on-grid position has an offset inside the buffer.
pub proof fn lemma_flat_in_range(i: Index)
    requires
        on_grid(i),
    ensures
        0 <= flat(i) < GRID_WIDTH * GRID_HEIGHT,
{
    assert(i.row * GRID_WIDTH + i.col < GRID_WIDTH * GRID_HEIGHT) by (nonlinear_arith)
        requires
            i.row < GRID_HEIGHT,
            i.col < GRID_WIDTH,
    ;
}

/// Moves `pos` by `step - 1` when the result stays inside `0..bound`.
fn shift(pos: usize, step: usize, bound: usize) -> (r: Option<usize>)
    requires
        step < 3,
    ensures
        r matches Some(p) ==> shifted(pos as int, step as int, bound as int) == Some(p as int),
        r is None ==> shifted(pos as int, step as int, bound as int) is None,
{
    if step == 0 {
        if pos >= 1 && pos - 1 < bound {
            Some(pos - 1)
        } else {
            None
        }
    } else if step == 1 {
        if pos < bound {
            Some(pos)
        } else {
            None
        }
    } else {
        if pos < bound && bound - pos >= 2 {
            Some(pos + 1)
        } else {
            None
        }
    }
}

impl Index {
    /// The on-grid positions adjacent to this one, diagonals included:
    /// three at a corner, five along an edge, eight inside.
    pub fn neighbors(self) -> (r: Vec<Index>)
        ensures
            r@ == neighbors_of(self),
    {
        let mut neighbors: Vec<Index> = Vec::with_capacity(8);
        let mut k: usize = 0;
        while k < 9
            invariant
                k <= 9,
                neighbors@ == neighbors_upto(self, k as nat),
            decreases 9 - k,
        {
            if k != 4 {
                let row = shift(self.row, k / 3, GRID_HEIGHT);
                let col = shift(self.col, k % 3, GRID_WIDTH);
                match (row, col) {
                    (Some(row), Some(col)) => neighbors.push(Index { row, col }),
                    _ => {},
                }
            }
            k = k + 1;
        }
        neighbors
    }

    /// The position stored at a flat offset.
    pub fn from_offset(offset: usize) -> (r: Index)
        ensures
            r == index_of(offset as int),
    {
        Index { row: offset / GRID_WIDTH, col: offset % GRID_WIDTH }
    }

    /// The flat offset of an on-grid position.
    pub fn offset(self) -> (r: usize)
        requires
            on_grid(self),
        ensures
            r == flat(self),
    {
        proof {
            lemma_flat_in_range(self);
        }
        self.row * GRID_WIDTH + self.col
    }
}

impl From<usize> for Index {
    fn from(offset: usize) -> (r: Index) {
        Index::from_offset(offset)
    }
}

impl vstd::std_specs::convert::FromSpecImpl<usize> for Index {
    open spec fn obeys_from_spec() -> bool {
        true
    }

    open spec fn from_spec(offset: usize) -> Index {
        index_of(offset as int)
    }
}

} // verus!
