//! The orders in which the subgrid values of several grids are played.
//!
//! Each strategy reads one tick's snapshot: for every grid, in order, the
//! (pitch, volume) pairs of its subgrids. It returns the pitches to play, in
//! the order to play them. A grid whose pairs are used up is skipped.

use vstd::prelude::*;

use crate::conway::NUMBER_OF_SUBGRIDS;

verus! {

/// The snapshot as sequences: one sequence of (pitch, volume) pairs per grid.
pub open spec fn events(values: Seq<Vec<(u32, u32)>>) -> Seq<Seq<(u32, u32)>> {
    Seq::new(values.len(), |g: int| values[g]@)
}

/// The grid visited `k`-th, from the first grid or from the last one.
pub open spec fn grid_at(count: int, k: int, reverse: bool) -> int {
    if reverse {
        count - 1 - k
    } else {
        k
    }
}

/// Reading slot `pos` of grid `g`: one read when the grid has that slot,
/// none when it is used up (or the slot is not reached yet).
pub open spec fn slot(v: Seq<Seq<(u32, u32)>>, g: int, pos: int) -> Seq<(int, int)> {
    if 0 <= pos < v[g].len() {
        seq![(g, pos)]
    } else {
        seq![]
    }
}

/// The pitches found at a sequence of reads (grid, slot).
pub open spec fn pitches(v: Seq<Seq<(u32, u32)>>, reads: Seq<(int, int)>) -> Seq<u32> {
    reads.map_values(|r: (int, int)| v[r.0][r.1].0)
}

/// Round `j` over the first `m` grids in visiting order, each read at slot `j`.
pub open spec fn round_reads(v: Seq<Seq<(u32, u32)>>, j: int, reverse: bool, m: nat) -> Seq<
    (int, int),
>
    decreases m,
{
    if m == 0 {
        seq![]
    } else {
        round_reads(v, j, reverse, (m - 1) as nat) + slot(
            v,
            grid_at(v.len() as int, m - 1, reverse),
            j,
        )
    }
}

/// The first `rounds` rounds, each visiting every grid in the same direction.
pub open spec fn cascade_reads(v: Seq<Seq<(u32, u32)>>, reverse: bool, rounds: nat) -> Seq<
    (int, int),
>
    decreases rounds,
{
    if rounds == 0 {
        seq![]
    } else {
        cascade_reads(v, reverse, (rounds - 1) as nat) + round_reads(
            v,
            rounds - 1,
            reverse,
            v.len(),
        )
    }
}

/// Whether round `j` of a ping-pong walk visits the grids from the last one.
pub open spec fn ping_pong_reverse(start_reverse: bool, j: int) -> bool {
    start_reverse != (j % 2 == 1)
}

/// The first `rounds` rounds, the direction flipping after every round.
pub open spec fn ping_pong_reads(v: Seq<Seq<(u32, u32)>>, start_reverse: bool, rounds: nat) -> Seq<
    (int, int),
>
    decreases rounds,
{
    if rounds == 0 {
        seq![]
    } else {
        ping_pong_reads(v, start_reverse, (rounds - 1) as nat) + round_reads(
            v,
            rounds - 1,
            ping_pong_reverse(start_reverse, rounds - 1),
            v.len(),
        )
    }
}

/// Step `i` of an overlapping cascade over the first `m` grids in visiting
/// order: the `k`-th grid joins at step `k` and then reads one slot a step.
pub open spec fn step_reads(v: Seq<Seq<(u32, u32)>>, i: int, reverse: bool, m: nat) -> Seq<
    (int, int),
>
    decreases m,
{
    if m == 0 {
        seq![]
    } else {
        step_reads(v, i, reverse, (m - 1) as nat) + slot(
            v,
            grid_at(v.len() as int, m - 1, reverse),
            i - (m - 1),
        )
    }
}

/// The first `steps` steps of an overlapping cascade; step `i` visits the
/// first `min(i + 1, count)` grids.
pub open spec fn overlapping_reads(v: Seq<Seq<(u32, u32)>>, reverse: bool, steps: nat) -> Seq<
    (int, int),
>
    decreases steps,
{
    if steps == 0 {
        seq![]
    } else {
        let i = steps - 1;
        let upper = if i + 1 < v.len() {
            i + 1
        } else {
            v.len() as int
        };
        overlapping_reads(v, reverse, (steps - 1) as nat) + step_reads(
            v,
            i,
            reverse,
            upper as nat,
        )
    }
}

/// Every slot of grid `g`, first to last.
pub open spec fn grid_reads(v: Seq<Seq<(u32, u32)>>, g: int) -> Seq<(int, int)> {
    Seq::new(v[g].len(), |p: int| (g, p))
}

/// Every slot of grid `g`, last to first.
pub open spec fn grid_reads_reversed(v: Seq<Seq<(u32, u32)>>, g: int) -> Seq<(int, int)> {
    Seq::new(v[g].len(), |p: int| (g, v[g].len() - 1 - p))
}

/// The first `m` grids one after the other, each read through.
pub open spec fn linear_reads(v: Seq<Seq<(u32, u32)>>, m: nat) -> Seq<(int, int)>
    decreases m,
{
    if m == 0 {
        seq![]
    } else {
        linear_reads(v, (m - 1) as nat) + grid_reads(v, m - 1)
    }
}

/// The last `m` grids from the last one back, each read backwards: the
/// linear order reversed.
pub open spec fn reverse_linear_reads(v: Seq<Seq<(u32, u32)>>, m: nat) -> Seq<(int, int)>
    decreases m,
{
    if m == 0 {
        seq![]
    } else {
        reverse_linear_reads(v, (m - 1) as nat) + grid_reads_reversed(v, v.len() - m)
    }
}

/// The pitches of `a` followed by `b` are those of `a`, then those of `b`.
proof fn lemma_pitches_concat(v: Seq<Seq<(u32, u32)>>, a: Seq<(int, int)>, b: Seq<(int, int)>)
    ensures
        pitches(v, a + b) == pitches(v, a) + pitches(v, b),
{
    assert(pitches(v, a + b) =~= pitches(v, a) + pitches(v, b));
}

/// Appends the pitches of round `j` to `out`.
fn play_round(out: &mut Vec<u32>, values: &Vec<Vec<(u32, u32)>>, j: usize, reverse: bool)
    ensures
        final(out)@ == old(out)@ + pitches(
            events(values@),
            round_reads(events(values@), j as int, reverse, values@.len()),
        ),
{
    let ghost v = events(values@);
    let ghost start = out@;
    let count = values.len();
    let mut k: usize = 0;
    while k < count
        invariant
            count == values@.len(),
            v == events(values@),
            k <= count,
            out@ == start + pitches(v, round_reads(v, j as int, reverse, k as nat)),
        decreases count - k,
    {
        let g = if reverse {
            count - 1 - k
        } else {
            k
        };
        let ghost before = round_reads(v, j as int, reverse, k as nat);
        proof {
            lemma_pitches_concat(v, before, slot(v, g as int, j as int));
        }
        if j < values[g].len() {
            out.push(values[g][j].0);
            assert(pitches(v, slot(v, g as int, j as int)) =~= seq![values@[g as int]@[j as int].0]);
        } else {
            assert(pitches(v, slot(v, g as int, j as int)) =~= seq![]);
        }
        k = k + 1;
        assert(out@ =~= start + pitches(v, round_reads(v, j as int, reverse, k as nat)));
    }
}

/// Cascade: every round visits each grid once, all rounds in one direction.
fn cascade(values: &Vec<Vec<(u32, u32)>>, reverse: bool) -> (r: Vec<u32>)
    ensures
        r@ == pitches(events(values@), cascade_reads(events(values@), reverse, NUMBER_OF_SUBGRIDS as nat)),
{
    let ghost v = events(values@);
    let mut out: Vec<u32> = Vec::new();
    let mut j: usize = 0;
    while j < NUMBER_OF_SUBGRIDS
        invariant
            v == events(values@),
            j <= NUMBER_OF_SUBGRIDS,
            out@ == pitches(v, cascade_reads(v, reverse, j as nat)),
        decreases NUMBER_OF_SUBGRIDS - j,
    {
        proof {
            lemma_pitches_concat(
                v,
                cascade_reads(v, reverse, j as nat),
                round_reads(v, j as int, reverse, v.len()),
            );
        }
        play_round(&mut out, values, j, reverse);
        j = j + 1;
    }
    out
}

/// Ping-pong: every round visits each grid once, the direction flipping
/// after every round.
fn ping_pong(values: &Vec<Vec<(u32, u32)>>, start_reverse: bool) -> (r: Vec<u32>)
    ensures
        r@ == pitches(
            events(values@),
            ping_pong_reads(events(values@), start_reverse, NUMBER_OF_SUBGRIDS as nat),
        ),
{
    let ghost v = events(values@);
    let mut out: Vec<u32> = Vec::new();
    let mut j: usize = 0;
    while j < NUMBER_OF_SUBGRIDS
        invariant
            v == events(values@),
            j <= NUMBER_OF_SUBGRIDS,
            out@ == pitches(v, ping_pong_reads(v, start_reverse, j as nat)),
        decreases NUMBER_OF_SUBGRIDS - j,
    {
        let reverse = start_reverse != (j % 2 == 1);
        proof {
            lemma_pitches_concat(
                v,
                ping_pong_reads(v, start_reverse, j as nat),
                round_reads(v, j as int, reverse, v.len()),
            );
        }
        play_round(&mut out, values, j, reverse);
        j = j + 1;
    }
    out
}

/// Appends the pitches of step `i` of an overlapping cascade to `out`.
fn play_step(out: &mut Vec<u32>, values: &Vec<Vec<(u32, u32)>>, i: usize, reverse: bool)
    ensures
        final(out)@ == old(out)@ + pitches(
            events(values@),
            step_reads(
                events(values@),
                i as int,
                reverse,
                (if i + 1 < values@.len() {
                    i + 1
                } else {
                    values@.len() as int
                }) as nat,
            ),
        ),
{
    let ghost v = events(values@);
    let ghost start = out@;
    let count = values.len();
    let upper = if i < count && i + 1 < count {
        i + 1
    } else {
        count
    };
    let mut k: usize = 0;
    while k < upper
        invariant
            count == values@.len(),
            v == events(values@),
            upper <= count,
            upper <= i + 1,
            k <= upper,
            out@ == start + pitches(v, step_reads(v, i as int, reverse, k as nat)),
        decreases upper - k,
    {
        let g = if reverse {
            count - 1 - k
        } else {
            k
        };
        let pos = i - k;
        let ghost before = step_reads(v, i as int, reverse, k as nat);
        proof {
            lemma_pitches_concat(v, before, slot(v, g as int, pos as int));
        }
        if pos < values[g].len() {
            out.push(values[g][pos].0);
            assert(pitches(v, slot(v, g as int, pos as int)) =~= seq![
                values@[g as int]@[pos as int].0,
            ]);
        } else {
            assert(pitches(v, slot(v, g as int, pos as int)) =~= seq![]);
        }
        k = k + 1;
        assert(out@ =~= start + pitches(v, step_reads(v, i as int, reverse, k as nat)));
    }
}

/// Overlapping cascade: at step `i`, each of the first `min(i + 1, count)`
/// grids in visiting order reads its next slot, so the grids start one step
/// apart and then overlap.
fn overlapping_cascade(values: &Vec<Vec<(u32, u32)>>, reverse: bool) -> (r: Vec<u32>)
    requires
        values@.len() * NUMBER_OF_SUBGRIDS <= usize::MAX,
    ensures
        r@ == pitches(
            events(values@),
            overlapping_reads(
                events(values@),
                reverse,
                (values@.len() * NUMBER_OF_SUBGRIDS) as nat,
            ),
        ),
{
    let ghost v = events(values@);
    let steps = values.len() * NUMBER_OF_SUBGRIDS;
    let mut out: Vec<u32> = Vec::new();
    let mut i: usize = 0;
    while i < steps
        invariant
            v == events(values@),
            i <= steps,
            out@ == pitches(v, overlapping_reads(v, reverse, i as nat)),
        decreases steps - i,
    {
        proof {
            let upper = if i + 1 < v.len() {
                i + 1
            } else {
                v.len() as int
            };
            lemma_pitches_concat(
                v,
                overlapping_reads(v, reverse, i as nat),
                step_reads(v, i as int, reverse, upper as nat),
            );
        }
        play_step(&mut out, values, i, reverse);
        i = i + 1;
    }
    out
}

/// Linear: the grids one after the other, each read first slot to last.
fn linear(values: &Vec<Vec<(u32, u32)>>) -> (r: Vec<u32>)
    ensures
        r@ == pitches(events(values@), linear_reads(events(values@), values@.len())),
{
    let ghost v = events(values@);
    let mut out: Vec<u32> = Vec::new();
    let count = values.len();
    let mut g: usize = 0;
    while g < count
        invariant
            v == events(values@),
            count == values@.len(),
            g <= count,
            out@ == pitches(v, linear_reads(v, g as nat)),
        decreases count - g,
    {
        let ghost start = out@;
        let len = values[g].len();
        let mut p: usize = 0;
        while p < len
            invariant
                v == events(values@),
                count == values@.len(),
                g < count,
                len == v[g as int].len(),
                p <= len,
                out@ == start + pitches(v, grid_reads(v, g as int).take(p as int)),
            decreases len - p,
        {
            out.push(values[g][p].0);
            p = p + 1;
            assert(pitches(v, grid_reads(v, g as int).take(p as int)) =~= pitches(
                v,
                grid_reads(v, g as int).take(p - 1),
            ).push(v[g as int][p - 1].0));
        }
        proof {
            assert(grid_reads(v, g as int).take(len as int) =~= grid_reads(v, g as int));
            lemma_pitches_concat(v, linear_reads(v, g as nat), grid_reads(v, g as int));
        }
        g = g + 1;
    }
    out
}

/// Reverse linear: the grids from the last one back, each read last slot to
/// first; exactly the linear order reversed.
fn reverse_linear(values: &Vec<Vec<(u32, u32)>>) -> (r: Vec<u32>)
    ensures
        r@ == pitches(events(values@), reverse_linear_reads(events(values@), values@.len())),
{
    let ghost v = events(values@);
    let mut out: Vec<u32> = Vec::new();
    let count = values.len();
    let mut m: usize = 0;
    while m < count
        invariant
            v == events(values@),
            count == values@.len(),
            m <= count,
            out@ == pitches(v, reverse_linear_reads(v, m as nat)),
        decreases count - m,
    {
        let ghost start = out@;
        let g = count - 1 - m;
        let len = values[g].len();
        let mut p: usize = 0;
        while p < len
            invariant
                v == events(values@),
                count == values@.len(),
                g < count,
                len == v[g as int].len(),
                p <= len,
                out@ == start + pitches(v, grid_reads_reversed(v, g as int).take(p as int)),
            decreases len - p,
        {
            out.push(values[g][len - 1 - p].0);
            p = p + 1;
            assert(pitches(v, grid_reads_reversed(v, g as int).take(p as int)) =~= pitches(
                v,
                grid_reads_reversed(v, g as int).take(p - 1),
            ).push(v[g as int][len - 1 - (p - 1)].0));
        }
        proof {
            assert(grid_reads_reversed(v, g as int).take(len as int) =~= grid_reads_reversed(
                v,
                g as int,
            ));
            lemma_pitches_concat(
                v,
                reverse_linear_reads(v, m as nat),
                grid_reads_reversed(v, g as int),
            );
        }
        m = m + 1;
    }
    out
}

/// Whether a read names an existing slot of an existing grid.
pub open spec fn valid_read(v: Seq<Seq<(u32, u32)>>, r: (int, int)) -> bool {
    0 <= r.0 < v.len() && 0 <= r.1 < v[r.0].len()
}

/// Whether every read of a sequence names an existing slot.
pub open spec fn all_valid(v: Seq<Seq<(u32, u32)>>, reads: Seq<(int, int)>) -> bool {
    forall|t: int| 0 <= t < reads.len() ==> valid_read(v, #[trigger] reads[t])
}

proof fn lemma_valid_concat(v: Seq<Seq<(u32, u32)>>, a: Seq<(int, int)>, b: Seq<(int, int)>)
    requires
        all_valid(v, a),
        all_valid(v, b),
    ensures
        all_valid(v, a + b),
{
    assert forall|t: int| 0 <= t < (a + b).len() implies valid_read(v, #[trigger] (a + b)[t]) by {
        if t >= a.len() {
            assert((a + b)[t] == b[t - a.len()]);
        }
    }
}

proof fn lemma_slot_valid(v: Seq<Seq<(u32, u32)>>, g: int, pos: int)
    requires
        0 <= g < v.len(),
    ensures
        all_valid(v, slot(v, g, pos)),
        slot(v, g, pos).len() <= 1,
{
}

proof fn lemma_round_reads(v: Seq<Seq<(u32, u32)>>, j: int, reverse: bool, m: nat)
    requires
        m <= v.len(),
    ensures
        all_valid(v, round_reads(v, j, reverse, m)),
        round_reads(v, j, reverse, m).len() <= m,
    decreases m,
{
    if m > 0 {
        lemma_round_reads(v, j, reverse, (m - 1) as nat);
        lemma_slot_valid(v, grid_at(v.len() as int, m - 1, reverse), j);
        lemma_valid_concat(
            v,
            round_reads(v, j, reverse, (m - 1) as nat),
            slot(v, grid_at(v.len() as int, m - 1, reverse), j),
        );
    }
}

proof fn lemma_cascade_reads(v: Seq<Seq<(u32, u32)>>, reverse: bool, rounds: nat)
    ensures
        all_valid(v, cascade_reads(v, reverse, rounds)),
        cascade_reads(v, reverse, rounds).len() <= v.len() * rounds,
    decreases rounds,
{
    if rounds > 0 {
        lemma_cascade_reads(v, reverse, (rounds - 1) as nat);
        lemma_round_reads(v, rounds - 1, reverse, v.len());
        lemma_valid_concat(
            v,
            cascade_reads(v, reverse, (rounds - 1) as nat),
            round_reads(v, rounds - 1, reverse, v.len()),
        );
        assert(v.len() * (rounds - 1) + v.len() == v.len() * rounds) by (nonlinear_arith);
    }
}

proof fn lemma_ping_pong_reads(v: Seq<Seq<(u32, u32)>>, start_reverse: bool, rounds: nat)
    ensures
        all_valid(v, ping_pong_reads(v, start_reverse, rounds)),
        ping_pong_reads(v, start_reverse, rounds).len() <= v.len() * rounds,
    decreases rounds,
{
    if rounds > 0 {
        let reverse = ping_pong_reverse(start_reverse, rounds - 1);
        lemma_ping_pong_reads(v, start_reverse, (rounds - 1) as nat);
        lemma_round_reads(v, rounds - 1, reverse, v.len());
        lemma_valid_concat(
            v,
            ping_pong_reads(v, start_reverse, (rounds - 1) as nat),
            round_reads(v, rounds - 1, reverse, v.len()),
        );
        assert(v.len() * (rounds - 1) + v.len() == v.len() * rounds) by (nonlinear_arith);
    }
}

/// How many slots the `k`-th visited grid has given out after `steps` steps
/// of an overlapping cascade.
spec fn consumed(v: Seq<Seq<(u32, u32)>>, reverse: bool, k: int, steps: int) -> int {
    let len = v[grid_at(v.len() as int, k, reverse)].len() as int;
    let reached = if steps - k > 0 {
        steps - k
    } else {
        0
    };
    if reached < len {
        reached
    } else {
        len
    }
}

/// The slots given out by the first `m` visited grids after `steps` steps.
spec fn consumed_sum(v: Seq<Seq<(u32, u32)>>, reverse: bool, steps: int, m: nat) -> int
    decreases m,
{
    if m == 0 {
        0
    } else {
        consumed_sum(v, reverse, steps, (m - 1) as nat) + consumed(v, reverse, m - 1, steps)
    }
}

proof fn lemma_step_reads(v: Seq<Seq<(u32, u32)>>, i: int, reverse: bool, m: nat)
    requires
        m <= v.len(),
        i >= 0,
    ensures
        all_valid(v, step_reads(v, i, reverse, m)),
        step_reads(v, i, reverse, m).len() == consumed_sum(v, reverse, i + 1, m) - consumed_sum(
            v,
            reverse,
            i,
            m,
        ),
    decreases m,
{
    if m > 0 {
        let g = grid_at(v.len() as int, m - 1, reverse);
        lemma_step_reads(v, i, reverse, (m - 1) as nat);
        lemma_slot_valid(v, g, i - (m - 1));
        lemma_valid_concat(v, step_reads(v, i, reverse, (m - 1) as nat), slot(v, g, i - (m - 1)));
    }
}

proof fn lemma_step_reads_tail(v: Seq<Seq<(u32, u32)>>, i: int, reverse: bool, m: nat)
    requires
        0 <= i,
        i + 1 <= m <= v.len(),
    ensures
        step_reads(v, i, reverse, m) == step_reads(v, i, reverse, (i + 1) as nat),
    decreases m,
{
    if m > i + 1 {
        lemma_step_reads_tail(v, i, reverse, (m - 1) as nat);
        assert(slot(v, grid_at(v.len() as int, m - 1, reverse), i - (m - 1)) =~= seq![]);
        assert(step_reads(v, i, reverse, m) =~= step_reads(v, i, reverse, (m - 1) as nat));
    }
}

proof fn lemma_consumed_start(v: Seq<Seq<(u32, u32)>>, reverse: bool, m: nat)
    ensures
        consumed_sum(v, reverse, 0, m) == 0,
    decreases m,
{
    if m > 0 {
        lemma_consumed_start(v, reverse, (m - 1) as nat);
    }
}

proof fn lemma_overlapping_reads(v: Seq<Seq<(u32, u32)>>, reverse: bool, steps: nat)
    ensures
        all_valid(v, overlapping_reads(v, reverse, steps)),
        overlapping_reads(v, reverse, steps).len() == consumed_sum(v, reverse, steps as int, v.len()),
    decreases steps,
{
    if steps == 0 {
        lemma_consumed_start(v, reverse, v.len());
    } else {
        let i = steps - 1;
        let upper = if i + 1 < v.len() {
            i + 1
        } else {
            v.len() as int
        };
        lemma_overlapping_reads(v, reverse, (steps - 1) as nat);
        lemma_step_reads(v, i, reverse, upper as nat);
        lemma_step_reads(v, i, reverse, v.len());
        if i + 1 < v.len() {
            lemma_step_reads_tail(v, i, reverse, v.len());
        }
        lemma_valid_concat(
            v,
            overlapping_reads(v, reverse, (steps - 1) as nat),
            step_reads(v, i, reverse, upper as nat),
        );
    }
}

proof fn lemma_consumed_bound(v: Seq<Seq<(u32, u32)>>, reverse: bool, steps: int, m: nat, k: int)
    requires
        m <= v.len(),
        k >= 0,
        forall|g: int| 0 <= g < v.len() ==> (#[trigger] v[g]).len() <= k,
    ensures
        consumed_sum(v, reverse, steps, m) <= m * k,
    decreases m,
{
    if m > 0 {
        lemma_consumed_bound(v, reverse, steps, (m - 1) as nat, k);
        let g = grid_at(v.len() as int, m - 1, reverse);
        assert(v[g].len() <= k);
        assert((m - 1) * k + k == m * k) by (nonlinear_arith);
    }
}

proof fn lemma_linear_reads(v: Seq<Seq<(u32, u32)>>, m: nat, k: int)
    requires
        m <= v.len(),
    ensures
        all_valid(v, linear_reads(v, m)),
        all_valid(v, reverse_linear_reads(v, m)),
        (forall|g: int| 0 <= g < v.len() ==> (#[trigger] v[g]).len() <= k) ==> linear_reads(
            v,
            m,
        ).len() <= m * k && reverse_linear_reads(v, m).len() <= m * k,
    decreases m,
{
    if m > 0 {
        lemma_linear_reads(v, (m - 1) as nat, k);
        let g = m - 1;
        let h = v.len() - m;
        assert(all_valid(v, grid_reads(v, g)));
        assert(all_valid(v, grid_reads_reversed(v, h)));
        lemma_valid_concat(v, linear_reads(v, (m - 1) as nat), grid_reads(v, g));
        lemma_valid_concat(v, reverse_linear_reads(v, (m - 1) as nat), grid_reads_reversed(v, h));
        if forall|g: int| 0 <= g < v.len() ==> (#[trigger] v[g]).len() <= k {
            assert(v[g].len() <= k);
            assert(v[h].len() <= k);
            assert((m - 1) * k + k == m * k) by (nonlinear_arith);
        }
    }
}

/// Every strategy reads only slots that exist: it never reads past the end
/// of a grid's pairs, and a used-up grid is skipped. When no grid holds more
/// than one pair per subgrid, it plays at most one pitch per subgrid of
/// every grid.
pub proof fn lemma_schedule_bounded(strategy: PlayerStrategy, v: Seq<Seq<(u32, u32)>>)
    ensures
        all_valid(v, strategy.reads(v)),
        (forall|g: int| 0 <= g < v.len() ==> (#[trigger] v[g]).len() <= NUMBER_OF_SUBGRIDS)
            ==> strategy.reads(v).len() <= v.len() * NUMBER_OF_SUBGRIDS,
{
    let k = NUMBER_OF_SUBGRIDS as nat;
    match strategy {
        PlayerStrategy::OverlappingCascade | PlayerStrategy::ReverseOverlappingCascade => {
            let reverse = strategy == PlayerStrategy::ReverseOverlappingCascade;
            lemma_overlapping_reads(v, reverse, v.len() * k);
            if forall|g: int| 0 <= g < v.len() ==> (#[trigger] v[g]).len() <= k {
                lemma_consumed_bound(v, reverse, (v.len() * k) as int, v.len(), k as int);
            }
        },
        PlayerStrategy::Linear | PlayerStrategy::ReverseLinear => {
            lemma_linear_reads(v, v.len(), k as int);
        },
        PlayerStrategy::PingPong | PlayerStrategy::ReversePingPong => {
            lemma_ping_pong_reads(v, strategy == PlayerStrategy::ReversePingPong, k);
        },
        PlayerStrategy::Cascade | PlayerStrategy::ReverseCascade => {
            lemma_cascade_reads(v, strategy == PlayerStrategy::ReverseCascade, k);
        },
    }
}

/// Plays the grids' pitches in an overlapping cascade: the first grid starts,
/// the second joins one step later, and so on, each then reading one subgrid
/// a step.
pub struct OverlappingCascadePlayer;

/// The overlapping cascade addressed from the last grid back.
pub struct ReverseOverlappingCascadePlayer;

/// Plays the grids one after the other, each subgrid in order.
pub struct LinearPlayer;

/// Plays the linear order backwards: the last grid first, each subgrid from
/// the last.
pub struct ReverseLinearPlayer;

/// Plays each subgrid round walking the grids forward, then the next round
/// backward, and so on, starting from the first grid.
pub struct PingPongPlayer;

/// The ping-pong walk starting from the last grid.
pub struct ReversePingPongPlayer;

/// Plays each subgrid round visiting every grid from the first one.
pub struct CascadePlayer;

/// Plays each subgrid round visiting every grid from the last one.
pub struct ReverseCascadePlayer;

/// The order in which one tick's pitches are played.
#[derive(Debug, Clone, Copy, PartialEq, Eq, Structural)]
pub enum PlayerStrategy {
    OverlappingCascade,
    ReverseOverlappingCascade,
    Linear,
    ReverseLinear,
    PingPong,
    ReversePingPong,
    Cascade,
    ReverseCascade,
}

impl PlayerStrategy {
    /// The reads (grid, subgrid slot) the strategy makes, in order.
    pub open spec fn reads(self, v: Seq<Seq<(u32, u32)>>) -> Seq<(int, int)> {
        let k = NUMBER_OF_SUBGRIDS as nat;
        match self {
            PlayerStrategy::OverlappingCascade => overlapping_reads(v, false, v.len() * k),
            PlayerStrategy::ReverseOverlappingCascade => overlapping_reads(v, true, v.len() * k),
            PlayerStrategy::Linear => linear_reads(v, v.len()),
            PlayerStrategy::ReverseLinear => reverse_linear_reads(v, v.len()),
            PlayerStrategy::PingPong => ping_pong_reads(v, false, k),
            PlayerStrategy::ReversePingPong => ping_pong_reads(v, true, k),
            PlayerStrategy::Cascade => cascade_reads(v, false, k),
            PlayerStrategy::ReverseCascade => cascade_reads(v, true, k),
        }
    }

    /// The pitches of one tick's snapshot, in the order this strategy plays them.
    pub fn schedule(&self, values: &Vec<Vec<(u32, u32)>>) -> (r: Vec<u32>)
        requires
            values@.len() * NUMBER_OF_SUBGRIDS <= usize::MAX,
        ensures
            r@ == pitches(events(values@), self.reads(events(values@))),
    {
        match self {
            PlayerStrategy::OverlappingCascade => OverlappingCascadePlayer::schedule(values),
            PlayerStrategy::ReverseOverlappingCascade => ReverseOverlappingCascadePlayer::schedule(
                values,
            ),
            PlayerStrategy::Linear => LinearPlayer::schedule(values),
            PlayerStrategy::ReverseLinear => ReverseLinearPlayer::schedule(values),
            PlayerStrategy::PingPong => PingPongPlayer::schedule(values),
            PlayerStrategy::ReversePingPong => ReversePingPongPlayer::schedule(values),
            PlayerStrategy::Cascade => CascadePlayer::schedule(values),
            PlayerStrategy::ReverseCascade => ReverseCascadePlayer::schedule(values),
        }
    }
}

impl OverlappingCascadePlayer {
    /// The pitches of one tick's snapshot, in overlapping cascade order.
    pub fn schedule(values: &Vec<Vec<(u32, u32)>>) -> (r: Vec<u32>)
        requires
            values@.len() * NUMBER_OF_SUBGRIDS <= usize::MAX,
        ensures
            r@ == pitches(
                events(values@),
                PlayerStrategy::OverlappingCascade.reads(events(values@)),
            ),
    {
        overlapping_cascade(values, false)
    }
}

impl ReverseOverlappingCascadePlayer {
    /// The pitches of one tick's snapshot, in reverse overlapping cascade order.
    pub fn schedule(values: &Vec<Vec<(u32, u32)>>) -> (r: Vec<u32>)
        requires
            values@.len() * NUMBER_OF_SUBGRIDS <= usize::MAX,
        ensures
            r@ == pitches(
                events(values@),
                PlayerStrategy::ReverseOverlappingCascade.reads(events(values@)),
            ),
    {
        overlapping_cascade(values, true)
    }
}

impl LinearPlayer {
    /// The pitches of one tick's snapshot, in linear order.
    pub fn schedule(values: &Vec<Vec<(u32, u32)>>) -> (r: Vec<u32>)
        ensures
            r@ == pitches(events(values@), PlayerStrategy::Linear.reads(events(values@))),
    {
        linear(values)
    }
}

impl ReverseLinearPlayer {
    /// The pitches of one tick's snapshot, in reverse linear order.
    pub fn schedule(values: &Vec<Vec<(u32, u32)>>) -> (r: Vec<u32>)
        ensures
            r@ == pitches(events(values@), PlayerStrategy::ReverseLinear.reads(events(values@))),
    {
        reverse_linear(values)
    }
}

impl PingPongPlayer {
    /// The pitches of one tick's snapshot, in ping-pong order.
    pub fn schedule(values: &Vec<Vec<(u32, u32)>>) -> (r: Vec<u32>)
        ensures
            r@ == pitches(events(values@), PlayerStrategy::PingPong.reads(events(values@))),
    {
        ping_pong(values, false)
    }
}

impl ReversePingPongPlayer {
    /// The pitches of one tick's snapshot, in reverse ping-pong order.
    pub fn schedule(values: &Vec<Vec<(u32, u32)>>) -> (r: Vec<u32>)
        ensures
            r@ == pitches(events(values@), PlayerStrategy::ReversePingPong.reads(events(values@))),
    {
        ping_pong(values, true)
    }
}

impl CascadePlayer {
    /// The pitches of one tick's snapshot, in cascade order.
    pub fn schedule(values: &Vec<Vec<(u32, u32)>>) -> (r: Vec<u32>)
        ensures
            r@ == pitches(events(values@), PlayerStrategy::Cascade.reads(events(values@))),
    {
        cascade(values, false)
    }
}

impl ReverseCascadePlayer {
    /// The pitches of one tick's snapshot, in reverse cascade order.
    pub fn schedule(values: &Vec<Vec<(u32, u32)>>) -> (r: Vec<u32>)
        ensures
            r@ == pitches(events(values@), PlayerStrategy::ReverseCascade.reads(events(values@))),
    {
        cascade(values, true)
    }
}

} // verus!
