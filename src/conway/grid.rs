//! A single grid: its cell buffer, the rule that steps it, explicit edits,
//! and the births and deaths counted per subgrid.

use vstd::arithmetic::div_mod::{
    lemma_fundamental_div_mod, lemma_fundamental_div_mod_converse, lemma_mod_pos_bound,
};
use vstd::prelude::*;
use vstd::std_specs::iter::IteratorSpec;
use vstd::std_specs::slice::axiom_spec_slice_iter;

use rand::Rng;

use super::cell::Cell;
use super::error::GameError;
use super::index::{
    flat, index_of, lemma_flat_in_range, lemma_neighbors_on_grid, neighbors_of, on_grid, Index,
};

verus! {

/// Width of a single grid, in cells.
pub const GRID_WIDTH: usize = 500;

/// Height of a single grid, in cells.
pub const GRID_HEIGHT: usize = 500;

/// How many subgrids a grid is cut into; a perfect square tiles it exactly.
pub const NUMBER_OF_SUBGRIDS: usize = 1;

/// Number of cells in a grid.
pub open spec fn grid_len() -> int {
    GRID_WIDTH * GRID_HEIGHT
}

/// The rule of the game: a cell lives on with two live neighbours, and any
/// cell with exactly three lives; every other cell is dead.
pub open spec fn next_alive(alive: bool, neighbors: nat) -> bool {
    neighbors == 3 || (alive && neighbors == 2)
}

/// How many of the positions `ns` hold a live cell.
pub open spec fn alive_count(cells: Seq<Cell>, ns: Seq<Index>) -> nat
    decreases ns.len(),
{
    if ns.len() == 0 {
        0
    } else {
        alive_count(cells, ns.drop_last()) + if cells[flat(ns.last())].alive {
            1nat
        } else {
            0nat
        }
    }
}

/// How many neighbours of the cell at `offset` live.
pub open spec fn live_neighbors(cells: Seq<Cell>, offset: int) -> nat {
    alive_count(cells, neighbors_of(index_of(offset)))
}

/// The cell at `offset` one generation later.
pub open spec fn next_cell(cells: Seq<Cell>, offset: int) -> Cell {
    let alive = next_alive(cells[offset].alive, live_neighbors(cells, offset));
    Cell { alive, just_changed: alive != cells[offset].alive }
}

/// The whole buffer one generation later, every cell computed from `cells`.
pub open spec fn next_generation(cells: Seq<Cell>) -> Seq<Cell> {
    Seq::new(cells.len(), |offset: int| next_cell(cells, offset))
}

/// Whether a cell counts as a birth (`births`) or as a death (`!births`):
/// it changed, and it now lives or is dead accordingly.
pub open spec fn counts_as(cell: Cell, births: bool) -> bool {
    cell.just_changed && cell.alive == births
}

/// Births or deaths among the whole buffer.
pub open spec fn seq_tally(cells: Seq<Cell>, births: bool) -> nat
    decreases cells.len(),
{
    if cells.len() == 0 {
        0
    } else {
        seq_tally(cells.drop_last(), births) + if counts_as(cells.last(), births) {
            1nat
        } else {
            0nat
        }
    }
}

/// Live cells in the buffer.
pub open spec fn seq_alive(cells: Seq<Cell>) -> nat
    decreases cells.len(),
{
    if cells.len() == 0 {
        0
    } else {
        seq_alive(cells.drop_last()) + if cells.last().alive {
            1nat
        } else {
            0nat
        }
    }
}

/// Births or deaths in row `row`, columns `c0..c1`.
pub open spec fn row_tally(cells: Seq<Cell>, row: int, c0: int, c1: int, births: bool) -> nat
    decreases c1 - c0,
{
    if c1 <= c0 {
        0
    } else {
        row_tally(cells, row, c0, c1 - 1, births) + if counts_as(
            cells[row * GRID_WIDTH + c1 - 1],
            births,
        ) {
            1nat
        } else {
            0nat
        }
    }
}

/// Births or deaths in rows `r0..r1`, columns `c0..c1`.
pub open spec fn rect_tally(
    cells: Seq<Cell>,
    r0: int,
    r1: int,
    c0: int,
    c1: int,
    births: bool,
) -> nat
    decreases r1 - r0,
{
    if r1 <= r0 {
        0
    } else {
        rect_tally(cells, r0, r1 - 1, c0, c1, births) + row_tally(cells, r1 - 1, c0, c1, births)
    }
}

/// The largest `s` with `s * s <= n`.
pub open spec fn floor_sqrt(n: nat) -> nat
    decreases n,
{
    if n == 0 {
        0
    } else {
        let s = floor_sqrt((n - 1) as nat);
        if (s + 1) * (s + 1) <= n {
            s + 1
        } else {
            s
        }
    }
}

/// Number of subgrids along each side of a grid.
pub open spec fn subgrid_side() -> int {
    floor_sqrt(NUMBER_OF_SUBGRIDS as nat) as int
}

/// Subgrid `t` of an `n` by `n` cut sits in tile row `t % n` and tile column
/// `t / n`; its first and last rows and columns are inclusive.
pub open spec fn tile_first_row(n: int, t: int) -> int {
    (t % n) * (GRID_HEIGHT as int / n)
}

pub open spec fn tile_last_row(n: int, t: int) -> int {
    (t % n + 1) * (GRID_HEIGHT as int / n) - 1
}

pub open spec fn tile_first_col(n: int, t: int) -> int {
    (t / n) * (GRID_WIDTH as int / n)
}

pub open spec fn tile_last_col(n: int, t: int) -> int {
    (t / n + 1) * (GRID_WIDTH as int / n) - 1
}

/// Whether the cell at `row`, `col` belongs to subgrid `t` of an `n` by `n` cut.
pub open spec fn in_tile(n: int, t: int, row: int, col: int) -> bool {
    &&& tile_first_row(n, t) <= row <= tile_last_row(n, t)
    &&& tile_first_col(n, t) <= col <= tile_last_col(n, t)
}

/// Whether the cell at `row`, `col` belongs to some subgrid of an `n` by `n` cut.
pub open spec fn covered(n: int, row: int, col: int) -> bool {
    exists|t: int| 0 <= t < n * n && #[trigger] in_tile(n, t, row, col)
}

/// Whether a pair of corners is the one of subgrid `t`.
pub open spec fn is_tile(n: int, t: int, corners: (Index, Index)) -> bool {
    &&& corners.0.row == tile_first_row(n, t)
    &&& corners.0.col == tile_first_col(n, t)
    &&& corners.1.row == tile_last_row(n, t)
    &&& corners.1.col == tile_last_col(n, t)
}

/// Deaths (pitch) and births (volume) inside subgrid `t`.
pub open spec fn tile_tally(cells: Seq<Cell>, n: int, t: int) -> (u32, u32) {
    let r0 = tile_first_row(n, t);
    let r1 = tile_last_row(n, t) + 1;
    let c0 = tile_first_col(n, t);
    let c1 = tile_last_col(n, t) + 1;
    (rect_tally(cells, r0, r1, c0, c1, false) as u32, rect_tally(cells, r0, r1, c0, c1, true) as u32)
}

/// One (pitch, volume) pair per subgrid, in the order of the subgrids.
pub open spec fn subgrid_tallies(cells: Seq<Cell>) -> Seq<(u32, u32)> {
    let n = subgrid_side();
    Seq::new((n * n) as nat, |t: int| tile_tally(cells, n, t))
}

/// The rule, cell by cell: after a step, a cell that lived with two or three
/// live neighbours lives, a dead cell with exactly three lives, and every
/// other cell is dead; a cell is marked as changed exactly when it flipped.
pub proof fn lemma_step_rule(cells: Seq<Cell>, offset: int)
    requires
        0 <= offset < cells.len(),
    ensures
        ({
            let n = live_neighbors(cells, offset);
            let was = cells[offset].alive;
            let now = next_generation(cells)[offset];
            &&& was && (n == 2 || n == 3) ==> now.alive
            &&& !was && n == 3 ==> now.alive
            &&& !(was && (n == 2 || n == 3)) && !(!was && n == 3) ==> !now.alive
            &&& now.just_changed == (now.alive != was)
        }),
{
}

/// Live neighbours are counted from the `alive` flags alone.
proof fn lemma_alive_count_same(a: Seq<Cell>, b: Seq<Cell>, ns: Seq<Index>)
    requires
        a.len() == grid_len(),
        b.len() == grid_len(),
        forall|i: int| 0 <= i < grid_len() ==> (#[trigger] a[i]).alive == b[i].alive,
        forall|t: int| 0 <= t < ns.len() ==> on_grid(#[trigger] ns[t]),
    ensures
        alive_count(a, ns) == alive_count(b, ns),
    decreases ns.len(),
{
    if ns.len() > 0 {
        lemma_alive_count_same(a, b, ns.drop_last());
        assert(on_grid(ns[ns.len() - 1]));
        lemma_flat_in_range(ns.last());
    }
}

/// Stepping is deterministic, and depends on which cells live and on nothing
/// else: two buffers that agree on every cell's `alive` flag (in particular
/// two copies of one grid) step to the same buffer.
pub proof fn lemma_next_gen_deterministic(a: Seq<Cell>, b: Seq<Cell>)
    requires
        a.len() == grid_len(),
        b.len() == grid_len(),
        forall|i: int| 0 <= i < grid_len() ==> (#[trigger] a[i]).alive == b[i].alive,
    ensures
        next_generation(a) == next_generation(b),
{
    assert forall|o: int| 0 <= o < grid_len() implies #[trigger] next_cell(a, o) == next_cell(b, o) by {
        lemma_neighbors_on_grid(index_of(o), 9);
        lemma_alive_count_same(a, b, neighbors_of(index_of(o)));
        assert(a[o].alive == b[o].alive);
    }
    assert(next_generation(a) =~= next_generation(b));
}

/// `x / d` is `a` when `x` lies in `a * d .. (a + 1) * d`.
proof fn lemma_div_between(x: int, d: int, a: int)
    requires
        d > 0,
        a * d <= x < (a + 1) * d,
    ensures
        x / d == a,
        x % d == x - a * d,
{
    assert((a + 1) * d == a * d + d) by (nonlinear_arith);
    lemma_fundamental_div_mod_converse(x, d, a, x - a * d);
}

/// With `side` subgrids along a side of `len` cells, at most one subgrid per
/// cell, subgrid `r` spans `r * (len / side) .. (r + 1) * (len / side)`,
/// which lies inside `0..len`.
proof fn lemma_tile_span(len: int, side: int, r: int)
    requires
        1 <= side <= len,
        0 <= r < side,
    ensures
        len / side >= 1,
        0 <= r * (len / side),
        (r + 1) * (len / side) <= len,
        r * (len / side) + len / side == (r + 1) * (len / side),
{
    let q = len / side;
    lemma_fundamental_div_mod(len, side);
    lemma_mod_pos_bound(len, side);
    assert(q >= 1) by (nonlinear_arith)
        requires
            len == side * q + len % side,
            0 <= len % side < side,
            side <= len,
    ;
    assert(0 <= r * q && (r + 1) * q <= len) by (nonlinear_arith)
        requires
            len == side * q + len % side,
            0 <= len % side,
            0 <= r < side,
            q >= 1,
    ;
    assert(r * q + q == (r + 1) * q) by (nonlinear_arith);
}

/// Cut into `n * n` subgrids, with `n` dividing both sides, a grid is tiled
/// exactly: every cell lies in one subgrid and in no other, and every cell of
/// every subgrid lies on the grid.
pub proof fn lemma_subgrids_tile_grid(n: int)
    requires
        n >= 1,
        GRID_HEIGHT as int % n == 0,
        GRID_WIDTH as int % n == 0,
    ensures
        forall|row: int, col: int|
            0 <= row < GRID_HEIGHT && 0 <= col < GRID_WIDTH ==> #[trigger] covered(n, row, col),
        forall|t1: int, t2: int, row: int, col: int|
            0 <= t1 < n * n && 0 <= t2 < n * n && #[trigger] in_tile(n, t1, row, col)
                && #[trigger] in_tile(n, t2, row, col) ==> t1 == t2,
        forall|t: int, row: int, col: int|
            0 <= t < n * n && #[trigger] in_tile(n, t, row, col) ==> 0 <= row < GRID_HEIGHT && 0
                <= col < GRID_WIDTH,
{
    let h = GRID_HEIGHT as int;
    let w = GRID_WIDTH as int;
    let rp = h / n;
    let cp = w / n;
    lemma_fundamental_div_mod(h, n);
    lemma_fundamental_div_mod(w, n);
    assert(h == n * rp && w == n * cp);
    assert(n <= h && n <= w) by (nonlinear_arith)
        requires
            h == n * rp,
            w == n * cp,
            h > 0,
            w > 0,
            n >= 1,
    ;
    assert forall|t: int| 0 <= t < n * n implies 0 <= #[trigger] (t % n) < n && 0 <= t / n < n
        && t == (t / n) * n + t % n by {
        lemma_fundamental_div_mod(t, n);
        lemma_mod_pos_bound(t, n);
        assert(0 <= t / n < n) by (nonlinear_arith)
            requires
                t == n * (t / n) + t % n,
                0 <= t % n < n,
                0 <= t < n * n,
        ;
        assert(n * (t / n) == (t / n) * n) by (nonlinear_arith);
    }
    assert forall|row: int, col: int| 0 <= row < h && 0 <= col < w implies #[trigger] covered(
        n,
        row,
        col,
    ) by {
        lemma_tile_span(h, n, 0);
        lemma_tile_span(w, n, 0);
        let r = row / rp;
        let c = col / cp;
        lemma_fundamental_div_mod(row, rp);
        lemma_fundamental_div_mod(col, cp);
        lemma_mod_pos_bound(row, rp);
        lemma_mod_pos_bound(col, cp);
        assert(0 <= r < n && r * rp <= row < (r + 1) * rp) by (nonlinear_arith)
            requires
                row == rp * r + row % rp,
                0 <= row % rp < rp,
                0 <= row < n * rp,
        ;
        assert(0 <= c < n && c * cp <= col < (c + 1) * cp) by (nonlinear_arith)
            requires
                col == cp * c + col % cp,
                0 <= col % cp < cp,
                0 <= col < n * cp,
        ;
        let t = c * n + r;
        lemma_fundamental_div_mod_converse(t, n, c, r);
        assert(0 <= t < n * n) by (nonlinear_arith)
            requires
                t == c * n + r,
                0 <= r < n,
                0 <= c < n,
        ;
        assert(in_tile(n, t, row, col));
    }
    assert forall|t1: int, t2: int, row: int, col: int|
        0 <= t1 < n * n && 0 <= t2 < n * n && #[trigger] in_tile(n, t1, row, col)
            && #[trigger] in_tile(n, t2, row, col) implies t1 == t2 by {
        lemma_tile_span(h, n, 0);
        lemma_tile_span(w, n, 0);
        lemma_div_between(row, rp, t1 % n);
        lemma_div_between(row, rp, t2 % n);
        lemma_div_between(col, cp, t1 / n);
        lemma_div_between(col, cp, t2 / n);
    }
    assert forall|t: int, row: int, col: int|
        0 <= t < n * n && #[trigger] in_tile(n, t, row, col) implies 0 <= row < h && 0 <= col
        < w by {
        lemma_tile_span(h, n, t % n);
        lemma_tile_span(w, n, t / n);
    }
}

/// Number of subgrids along each side of a grid.
fn subgrid_count_per_side() -> (r: usize)
    ensures
        r == subgrid_side(),
        1 <= r <= GRID_HEIGHT,
        r <= GRID_WIDTH,
{
    let mut s: usize = 0;
    let mut m: usize = 0;
    while m < NUMBER_OF_SUBGRIDS
        invariant
            m <= NUMBER_OF_SUBGRIDS,
            s == floor_sqrt(m as nat),
            s <= m,
        decreases NUMBER_OF_SUBGRIDS - m,
    {
        m = m + 1;
        assert((s + 1) * (s + 1) <= 4) by (nonlinear_arith)
            requires
                s < 2,
        ;
        if (s + 1) * (s + 1) <= m {
            s = s + 1;
        }
    }
    s
}

/// The corners of the `n * n` subgrids, subgrid `c * n + r` in tile row `r`
/// and tile column `c`.
fn tiles(n: usize) -> (r: Vec<(Index, Index)>)
    requires
        1 <= n <= GRID_HEIGHT,
        n <= GRID_WIDTH,
    ensures
        r@.len() == n * n,
        forall|t: int| 0 <= t < n * n ==> is_tile(n as int, t, #[trigger] r@[t]),
{
    let rows_per_tile: usize = GRID_HEIGHT / n;
    let cols_per_tile: usize = GRID_WIDTH / n;
    let mut subgrids: Vec<(Index, Index)> = Vec::new();
    let mut c: usize = 0;
    while c < n
        invariant
            1 <= n <= GRID_HEIGHT,
            n <= GRID_WIDTH,
            rows_per_tile == GRID_HEIGHT / n,
            cols_per_tile == GRID_WIDTH / n,
            c <= n,
            subgrids@.len() == c * n,
            forall|t: int| 0 <= t < subgrids@.len() ==> is_tile(n as int, t, #[trigger] subgrids@[t]),
        decreases n - c,
    {
        let mut r: usize = 0;
        while r < n
            invariant
                1 <= n <= GRID_HEIGHT,
                n <= GRID_WIDTH,
                rows_per_tile == GRID_HEIGHT / n,
                cols_per_tile == GRID_WIDTH / n,
                c < n,
                r <= n,
                subgrids@.len() == c * n + r,
                forall|t: int|
                    0 <= t < subgrids@.len() ==> is_tile(n as int, t, #[trigger] subgrids@[t]),
            decreases n - r,
        {
            proof {
                lemma_tile_span(GRID_HEIGHT as int, n as int, r as int);
                lemma_tile_span(GRID_WIDTH as int, n as int, c as int);
                lemma_fundamental_div_mod_converse((c * n + r) as int, n as int, c as int, r as int);
                assert(c * n + r < n * n) by (nonlinear_arith)
                    requires
                        r < n,
                        c < n,
                ;
            }
            let start = Index { row: r * rows_per_tile, col: c * cols_per_tile };
            let end = Index { row: (r + 1) * rows_per_tile - 1, col: (c + 1) * cols_per_tile - 1 };
            subgrids.push((start, end));
            r = r + 1;
        }
        assert((c + 1) * n == c * n + n) by (nonlinear_arith);
        c = c + 1;
    }
    subgrids
}

/// The grid is cut into one subgrid per side, which divides both sides.
proof fn lemma_subgrid_side()
    ensures
        subgrid_side() == 1,
        GRID_HEIGHT as int % subgrid_side() == 0,
        GRID_WIDTH as int % subgrid_side() == 0,
{
    assert(floor_sqrt(0) == 0);
    assert(floor_sqrt(1) == 1);
}

/// Relies on rand's `Rng::gen_ratio` over `OsRng`, the operating system's
/// generator: true with probability `numerator / denominator`, never for a
/// zero numerator and always when both are equal.
#[verifier::external_body]
fn random_ratio(numerator: u32, denominator: u32) -> (r: bool)
    requires
        0 < denominator,
        numerator <= denominator,
    ensures
        numerator == 0 ==> !r,
        numerator == denominator ==> r,
{
    rand::rngs::OsRng.gen_ratio(numerator, denominator)
}

/// A grid: a row-major buffer of cells, whether it is stopped, its subgrids
/// and the pitch and volume last counted in each of them.
pub struct Grid {
    sound: u32,
    stopped: bool,
    cells: Vec<Cell>,
    subgrids: Vec<(Index, Index)>,
    subgrid_values: Vec<(u32, u32)>,
}

/// What `next_gen` makes of a grid: a running grid takes one step, a stopped
/// one stays as it is, and its flag and counted values are kept.
pub open spec fn stepped(before: Grid, after: Grid) -> bool {
    &&& after.is_stopped() == before.is_stopped()
    &&& after.subgrid_values_view() == before.subgrid_values_view()
    &&& before.is_stopped() ==> after@ == before@
    &&& !before.is_stopped() ==> after@ == next_generation(before@)
}

/// What a flag change makes of a grid: only the flag differs.
pub open spec fn reflagged(before: Grid, after: Grid, stopped: bool) -> bool {
    &&& after.is_stopped() == stopped
    &&& after@ == before@
    &&& after.subgrid_values_view() == before.subgrid_values_view()
}

/// A copy of a vector of pairs.
fn copy_pairs<A: Copy, B: Copy>(v: &Vec<(A, B)>) -> (r: Vec<(A, B)>)
    ensures
        r@ == v@,
{
    let mut r: Vec<(A, B)> = Vec::with_capacity(v.len());
    let mut i: usize = 0;
    while i < v.len()
        invariant
            i <= v@.len(),
            r@ == v@.take(i as int),
        decreases v@.len() - i,
    {
        r.push(v[i]);
        i = i + 1;
        assert(r@ =~= v@.take(i as int));
    }
    assert(v@.take(i as int) =~= v@);
    r
}

impl Clone for Grid {
    /// An independent copy of the grid.
    fn clone(&self) -> (r: Grid)
        ensures
            r@ == self@,
            r.is_stopped() == self.is_stopped(),
            r.subgrid_values_view() == self.subgrid_values_view(),
    {
        proof {
            use_type_invariant(self);
        }
        let cells = self.cells.clone();
        let subgrids = copy_pairs(&self.subgrids);
        let subgrid_values = copy_pairs(&self.subgrid_values);
        assert(cells@ =~= self.cells@);
        Grid { sound: self.sound, stopped: self.stopped, cells, subgrids, subgrid_values }
    }
}

impl View for Grid {
    type V = Seq<Cell>;

    closed spec fn view(&self) -> Seq<Cell> {
        self.cells@
    }
}

proof fn lemma_alive_count_take(cells: Seq<Cell>, ns: Seq<Index>, i: int)
    requires
        0 <= i < ns.len(),
    ensures
        alive_count(cells, ns.take(i + 1)) == alive_count(cells, ns.take(i)) + if cells[flat(
            ns[i],
        )].alive {
            1nat
        } else {
            0nat
        },
{
    assert(ns.take(i + 1).drop_last() =~= ns.take(i));
}

impl Grid {
    /// The buffer has one cell per position, and the subgrids are the tiles
    /// of the cut, each with a counted value.
    #[verifier::type_invariant]
    closed spec fn wf(&self) -> bool {
        let n = subgrid_side();
        &&& self.cells@.len() == grid_len()
        &&& self.subgrids@.len() == n * n
        &&& forall|t: int| 0 <= t < n * n ==> is_tile(n, t, #[trigger] self.subgrids@[t])
        &&& self.subgrid_values@.len() == n * n
    }

    /// Whether the grid is stopped.
    pub closed spec fn is_stopped(&self) -> bool {
        self.stopped
    }

    /// The (pitch, volume) pairs counted by the last call of
    /// `get_pitch_and_volume_per_subgrid`.
    pub closed spec fn subgrid_values_view(&self) -> Seq<(u32, u32)> {
        self.subgrid_values@
    }

    /// A grid over the given cells, with its subgrids and no value counted yet.
    pub fn new(cells: Vec<Cell>, sound: u32, stopped: bool) -> (r: Grid)
        requires
            cells@.len() == grid_len(),
        ensures
            r@ == cells@,
            r.is_stopped() == stopped,
            r.subgrid_values_view() == Seq::new(
                (subgrid_side() * subgrid_side()) as nat,
                |t: int| (0u32, 0u32),
            ),
    {
        let n = subgrid_count_per_side();
        let subgrids = tiles(n);
        let mut subgrid_values: Vec<(u32, u32)> = Vec::new();
        let mut t: usize = 0;
        while t < subgrids.len()
            invariant
                t <= subgrids@.len(),
                subgrid_values@ == Seq::new(t as nat, |t: int| (0u32, 0u32)),
            decreases subgrids@.len() - t,
        {
            subgrid_values.push((0, 0));
            t = t + 1;
            assert(subgrid_values@ =~= Seq::new(t as nat, |t: int| (0u32, 0u32)));
        }
        Grid { cells, sound, stopped, subgrids, subgrid_values }
    }

    /// A running grid whose cells each live independently with probability
    /// 2/5, none marked as changed.
    pub fn random() -> (r: Grid)
        ensures
            !r.is_stopped(),
            forall|i: int| 0 <= i < grid_len() ==> !(#[trigger] r@[i]).just_changed,
            r.subgrid_values_view() == Seq::new(
                (subgrid_side() * subgrid_side()) as nat,
                |t: int| (0u32, 0u32),
            ),
    {
        let mut cells: Vec<Cell> = Vec::with_capacity(GRID_WIDTH * GRID_HEIGHT);
        let mut i: usize = 0;
        while i < GRID_WIDTH * GRID_HEIGHT
            invariant
                i <= grid_len(),
                cells@.len() == i,
                forall|j: int| 0 <= j < i ==> !(#[trigger] cells@[j]).just_changed,
            decreases grid_len() - i,
        {
            cells.push(Cell { alive: random_ratio(2, 5), just_changed: false });
            i = i + 1;
        }
        Grid::new(cells, 0, false)
    }

    /// A running grid of dead cells, none marked as changed.
    pub fn empty() -> (r: Grid)
        ensures
            !r.is_stopped(),
            forall|i: int|
                0 <= i < grid_len() ==> #[trigger] r@[i] == (Cell { alive: false, just_changed: false }),
            r.subgrid_values_view() == Seq::new(
                (subgrid_side() * subgrid_side()) as nat,
                |t: int| (0u32, 0u32),
            ),
    {
        let mut cells: Vec<Cell> = Vec::with_capacity(GRID_WIDTH * GRID_HEIGHT);
        let mut i: usize = 0;
        while i < GRID_WIDTH * GRID_HEIGHT
            invariant
                i <= grid_len(),
                cells@.len() == i,
                forall|j: int|
                    0 <= j < i ==> #[trigger] cells@[j] == (Cell { alive: false, just_changed: false }),
            decreases grid_len() - i,
        {
            cells.push(Cell { alive: false, just_changed: false });
            i = i + 1;
        }
        Grid::new(cells, 0, false)
    }

    /// The cells, row by row.
    pub fn iter(&self) -> (r: std::slice::Iter<'_, Cell>)
        ensures
            r.remaining() == self@.as_ref(),
    {
        broadcast use axiom_spec_slice_iter;

        self.cells.as_slice().iter()
    }

    /// Counts the live cells.
    pub fn count_ones(&self) -> (r: usize)
        ensures
            r == seq_alive(self@),
    {
        proof {
            use_type_invariant(&*self);
        }
        let mut one_counter: usize = 0;
        let mut i: usize = 0;
        while i < self.cells.len()
            invariant
                self.wf(),
                i <= self@.len(),
                one_counter == seq_alive(self@.take(i as int)),
                one_counter <= i,
            decreases self@.len() - i,
        {
            assert(self@.take(i + 1).drop_last() =~= self@.take(i as int));
            if self.cells[i].alive {
                one_counter = one_counter + 1;
            }
            i = i + 1;
        }
        assert(self@.take(i as int) =~= self@);
        one_counter
    }

    /// Flips the cell at `index` and marks it as changed; an index off the
    /// buffer leaves the grid as it is and is returned in the error.
    pub fn change_cell(&mut self, index: usize) -> (r: Result<(), GameError>)
        ensures
            final(self).is_stopped() == old(self).is_stopped(),
            final(self).subgrid_values_view() == old(self).subgrid_values_view(),
            index < grid_len() ==> r is Ok && final(self)@ == old(self)@.update(
                index as int,
                Cell { alive: !old(self)@[index as int].alive, just_changed: true },
            ),
            index >= grid_len() ==> r == Err::<(), GameError>(
                GameError::IndexOutOfBounds(index_of(index as int)),
            ) && *final(self) == *old(self),
    {
        proof {
            use_type_invariant(&*self);
        }
        if index >= self.cells.len() {
            return Err(GameError::IndexOutOfBounds(Index::from_offset(index)));
        }
        let alive = self.cells[index].alive;
        self.cells[index] = Cell { alive: !alive, just_changed: true };
        Ok(())
    }

    /// The cell at `index`, if the index is on the buffer.
    pub fn get_cell(&self, index: usize) -> (r: Option<&Cell>)
        ensures
            index < grid_len() ==> r == Some(&self@[index as int]),
            index >= grid_len() ==> r is None,
    {
        proof {
            use_type_invariant(&*self);
        }
        if index < self.cells.len() {
            Some(&self.cells[index])
        } else {
            None
        }
    }

    /// Makes the cell at `index` live or dead, marked as changed exactly when
    /// that differs from before; an index off the buffer leaves the grid as it
    /// is and is returned in the error.
    pub fn set_cell(&mut self, index: usize, value: bool) -> (r: Result<(), GameError>)
        ensures
            final(self).is_stopped() == old(self).is_stopped(),
            final(self).subgrid_values_view() == old(self).subgrid_values_view(),
            index < grid_len() ==> r is Ok && final(self)@ == old(self)@.update(
                index as int,
                Cell { alive: value, just_changed: value != old(self)@[index as int].alive },
            ),
            index >= grid_len() ==> r == Err::<(), GameError>(
                GameError::IndexOutOfBounds(index_of(index as int)),
            ) && *final(self) == *old(self),
    {
        proof {
            use_type_invariant(&*self);
        }
        if index >= self.cells.len() {
            return Err(GameError::IndexOutOfBounds(Index::from_offset(index)));
        }
        let alive = self.cells[index].alive;
        self.cells[index] = Cell { alive: value, just_changed: value != alive };
        Ok(())
    }

    /// Whether the grid is stopped.
    pub fn stopped(&self) -> (r: bool)
        ensures
            r == self.is_stopped(),
    {
        self.stopped
    }

    /// Stops the grid: `next_gen` leaves it as it is.
    pub fn stop(&mut self)
        ensures
            reflagged(*old(self), *final(self), true),
    {
        proof {
            use_type_invariant(&*self);
        }
        self.stopped = true;
    }

    /// Starts the grid: `next_gen` steps it.
    pub fn start(&mut self)
        ensures
            reflagged(*old(self), *final(self), false),
    {
        proof {
            use_type_invariant(&*self);
        }
        self.stopped = false;
    }

    /// Stops a running grid, starts a stopped one.
    pub fn toggle(&mut self)
        ensures
            reflagged(*old(self), *final(self), !old(self).is_stopped()),
    {
        proof {
            use_type_invariant(&*self);
        }
        self.stopped = !self.stopped;
    }

    /// Deaths (pitch) and births (volume) inside subgrid `t`.
    fn subgrid_tally(&self, t: usize) -> (r: (u32, u32))
        requires
            t < subgrid_side() * subgrid_side(),
        ensures
            r == tile_tally(self@, subgrid_side(), t as int),
    {
        proof {
            use_type_invariant(&*self);
        }
        let ghost n = subgrid_side();
        proof {
            lemma_subgrid_side();
            lemma_mod_pos_bound(t as int, n);
            lemma_tile_span(GRID_HEIGHT as int, n, t as int % n);
            lemma_tile_span(GRID_WIDTH as int, n, t as int / n);
            assert(is_tile(n, t as int, self.subgrids@[t as int]));
        }
        let (start, end) = self.subgrids[t];
        let ghost c0 = start.col as int;
        let ghost c1 = end.col + 1;
        let mut pitch: u32 = 0;
        let mut volume: u32 = 0;
        let mut row: usize = start.row;
        while row <= end.row
            invariant
                self.wf(),
                start.row <= row <= end.row + 1,
                end.row < GRID_HEIGHT,
                c0 < c1 <= GRID_WIDTH,
                start.col == c0,
                end.col + 1 == c1,
                pitch == rect_tally(self@, start.row as int, row as int, c0, c1, false),
                volume == rect_tally(self@, start.row as int, row as int, c0, c1, true),
                pitch + volume <= row * GRID_WIDTH,
            decreases end.row + 1 - row,
        {
            let mut col: usize = start.col;
            while col <= end.col
                invariant
                    self.wf(),
                    start.row <= row <= end.row,
                    end.row < GRID_HEIGHT,
                    c0 <= col <= c1 <= GRID_WIDTH,
                    start.col == c0,
                    end.col + 1 == c1,
                    pitch == rect_tally(self@, start.row as int, row as int, c0, c1, false)
                        + row_tally(self@, row as int, c0, col as int, false),
                    volume == rect_tally(self@, start.row as int, row as int, c0, c1, true)
                        + row_tally(self@, row as int, c0, col as int, true),
                    pitch + volume <= row * GRID_WIDTH + col,
                decreases c1 - col,
            {
                let idx = row * GRID_WIDTH + col;
                if self.cells[idx].just_changed {
                    if self.cells[idx].alive {
                        volume = volume + 1;
                    } else {
                        pitch = pitch + 1;
                    }
                }
                col = col + 1;
            }
            row = row + 1;
        }
        (pitch, volume)
    }

    /// Counts, in each subgrid, the cells that died (pitch) and the cells that
    /// were born (volume) in the last step, keeps the pairs and returns them
    /// in the order of the subgrids. Called twice between two steps, it
    /// returns the same pairs again.
    pub fn get_pitch_and_volume_per_subgrid(&mut self) -> (r: Vec<(u32, u32)>)
        ensures
            final(self)@ == old(self)@,
            final(self).is_stopped() == old(self).is_stopped(),
            r@ == subgrid_tallies(old(self)@),
            final(self).subgrid_values_view() == r@,
    {
        proof {
            use_type_invariant(&*self);
        }
        let ghost n = subgrid_side();
        let count = self.subgrids.len();
        let mut values: Vec<(u32, u32)> = Vec::with_capacity(count);
        let mut kept: Vec<(u32, u32)> = Vec::with_capacity(count);
        let mut t: usize = 0;
        while t < count
            invariant
                self.wf(),
                n == subgrid_side(),
                count == n * n,
                t <= count,
                values@ == kept@,
                values@.len() == t,
                forall|j: int| 0 <= j < t ==> #[trigger] values@[j] == subgrid_tallies(self@)[j],
            decreases count - t,
        {
            let value = self.subgrid_tally(t);
            values.push(value);
            kept.push(value);
            t = t + 1;
        }
        assert(values@ =~= subgrid_tallies(self@));
        self.subgrid_values = kept;
        values
    }

    /// Counts, over the whole grid, the cells that died (pitch) and the cells
    /// that were born (volume) in the last step.
    pub fn get_pitch_and_volume(&self) -> (r: (u32, u32))
        ensures
            r.0 == seq_tally(self@, false),
            r.1 == seq_tally(self@, true),
    {
        proof {
            use_type_invariant(&*self);
        }
        let mut pitch_value: u32 = 0;
        let mut volume_value: u32 = 0;
        let mut i: usize = 0;
        while i < self.cells.len()
            invariant
                self.wf(),
                i <= self@.len(),
                pitch_value == seq_tally(self@.take(i as int), false),
                volume_value == seq_tally(self@.take(i as int), true),
                pitch_value + volume_value <= i,
            decreases self@.len() - i,
        {
            assert(self@.take(i + 1).drop_last() =~= self@.take(i as int));
            let cell = self.cells[i];
            if cell.just_changed {
                if cell.alive {
                    volume_value = volume_value + 1;
                } else {
                    pitch_value = pitch_value + 1;
                }
            }
            i = i + 1;
        }
        assert(self@.take(i as int) =~= self@);
        (pitch_value, volume_value)
    }

    /// Counts the live neighbours of the cell at `index`; positions off the
    /// grid are never counted.
    pub fn count_neighbors(&self, index: usize) -> (r: usize)
        ensures
            r == live_neighbors(self@, index as int),
    {
        proof {
            use_type_invariant(&*self);
        }
        let neighbors = Index::from_offset(index).neighbors();
        let ghost ns = neighbors@;
        proof {
            lemma_neighbors_on_grid(index_of(index as int), 9);
        }
        let mut neighbor_counter: usize = 0;
        let mut i: usize = 0;
        while i < neighbors.len()
            invariant
                self.wf(),
                ns == neighbors@,
                ns == neighbors_of(index_of(index as int)),
                ns.len() <= 9,
                forall|t: int| 0 <= t < ns.len() ==> on_grid(#[trigger] ns[t]),
                i <= ns.len(),
                neighbor_counter == alive_count(self@, ns.take(i as int)),
                neighbor_counter <= i,
            decreases ns.len() - i,
        {
            let neighbor = neighbors[i];
            assert(on_grid(ns[i as int]));
            proof {
                lemma_flat_in_range(neighbor);
                lemma_alive_count_take(self@, ns, i as int);
            }
            if self.cells[neighbor.offset()].alive {
                neighbor_counter = neighbor_counter + 1;
            }
            i = i + 1;
        }
        assert(ns.take(ns.len() as int) =~= ns);
        neighbor_counter
    }

    /// Steps a running grid one generation and returns true; a stopped grid is
    /// left as it is and false is returned. Every new cell is computed from the
    /// buffer as it was before the step.
    pub fn next_gen(&mut self) -> (r: bool)
        ensures
            r == !old(self).is_stopped(),
            stepped(*old(self), *final(self)),
    {
        proof {
            use_type_invariant(&*self);
        }
        if self.stopped {
            return false;
        }
        let mut new_generation: Vec<Cell> = Vec::with_capacity(GRID_WIDTH * GRID_HEIGHT);
        let mut idx: usize = 0;
        while idx < GRID_WIDTH * GRID_HEIGHT
            invariant
                self.wf(),
                idx <= grid_len(),
                new_generation@.len() == idx,
                forall|j: int| 0 <= j < idx ==> #[trigger] new_generation@[j] == next_cell(self@, j),
            decreases grid_len() - idx,
        {
            let cell_alive = self.cells[idx].alive;
            let neighbors = self.count_neighbors(idx);
            let cell = if neighbors == 3 {
                Cell { alive: true, just_changed: !cell_alive }
            } else if neighbors == 2 && cell_alive {
                Cell { alive: true, just_changed: false }
            } else {
                Cell { alive: false, just_changed: cell_alive }
            };
            new_generation.push(cell);
            idx = idx + 1;
        }
        assert(new_generation@ =~= next_generation(self@));
        self.cells = new_generation;
        true
    }
}

} // verus!
