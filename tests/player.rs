use conway_sound::{
    CascadePlayer, LinearPlayer, OverlappingCascadePlayer, PingPongPlayer, PlayerStrategy,
    ReverseCascadePlayer, ReverseLinearPlayer, ReverseOverlappingCascadePlayer,
    ReversePingPongPlayer, NUMBER_OF_SUBGRIDS,
};

const ALL: [PlayerStrategy; 8] = [
    PlayerStrategy::OverlappingCascade,
    PlayerStrategy::ReverseOverlappingCascade,
    PlayerStrategy::Linear,
    PlayerStrategy::ReverseLinear,
    PlayerStrategy::PingPong,
    PlayerStrategy::ReversePingPong,
    PlayerStrategy::Cascade,
    PlayerStrategy::ReverseCascade,
];

fn one_per_grid() -> Vec<Vec<(u32, u32)>> {
    vec![vec![(10, 1)], vec![(20, 2)], vec![(30, 3)]]
}

#[test]
fn forward_strategies_play_grids_in_order() {
    let values = one_per_grid();
    assert_eq!(LinearPlayer::schedule(&values), vec![10, 20, 30]);
    assert_eq!(CascadePlayer::schedule(&values), vec![10, 20, 30]);
    assert_eq!(PingPongPlayer::schedule(&values), vec![10, 20, 30]);
    assert_eq!(OverlappingCascadePlayer::schedule(&values), vec![10, 20, 30]);
}

#[test]
fn reverse_strategies_play_grids_backwards() {
    let values = one_per_grid();
    assert_eq!(ReverseLinearPlayer::schedule(&values), vec![30, 20, 10]);
    assert_eq!(ReverseCascadePlayer::schedule(&values), vec![30, 20, 10]);
    assert_eq!(ReversePingPongPlayer::schedule(&values), vec![30, 20, 10]);
    assert_eq!(ReverseOverlappingCascadePlayer::schedule(&values), vec![30, 20, 10]);
}

#[test]
fn used_up_grids_are_skipped() {
    let values = vec![vec![], vec![(5, 0)], vec![]];
    for strategy in ALL {
        assert_eq!(strategy.schedule(&values), vec![5]);
    }
}

#[test]
fn linear_orders_play_every_pair() {
    let values = vec![vec![(1, 0), (2, 0)], vec![(3, 0)]];
    assert_eq!(LinearPlayer::schedule(&values), vec![1, 2, 3]);
    assert_eq!(ReverseLinearPlayer::schedule(&values), vec![3, 2, 1]);
}

#[test]
fn rounds_read_one_slot_per_subgrid() {
    let values = vec![vec![(1, 0), (2, 0)], vec![(3, 0)]];
    assert_eq!(NUMBER_OF_SUBGRIDS, 1);
    assert_eq!(CascadePlayer::schedule(&values), vec![1, 3]);
    assert_eq!(ReverseCascadePlayer::schedule(&values), vec![3, 1]);
    assert_eq!(PingPongPlayer::schedule(&values), vec![1, 3]);
    assert_eq!(ReversePingPongPlayer::schedule(&values), vec![3, 1]);
}

#[test]
fn overlapping_cascade_staggers_the_grids() {
    let values = vec![vec![(1, 0), (2, 0)], vec![(3, 0)]];
    // step 0: first grid, slot 0; step 1: first grid, slot 1, then second grid, slot 0
    assert_eq!(OverlappingCascadePlayer::schedule(&values), vec![1, 2, 3]);
    // from the far end: step 0: last grid, slot 0; step 1: last grid is used up, first grid, slot 0
    assert_eq!(ReverseOverlappingCascadePlayer::schedule(&values), vec![3, 1]);
}

#[test]
fn no_strategy_plays_more_than_one_pitch_per_subgrid() {
    let values: Vec<Vec<(u32, u32)>> =
        (0..6).map(|g| (0..NUMBER_OF_SUBGRIDS as u32).map(|s| (g * 10 + s, 0)).collect()).collect();
    for strategy in ALL {
        let played = strategy.schedule(&values);
        assert!(played.len() <= values.len() * NUMBER_OF_SUBGRIDS);
        assert_eq!(played.len(), values.len() * NUMBER_OF_SUBGRIDS);
    }
}

#[test]
fn nothing_to_play_without_grids() {
    let values: Vec<Vec<(u32, u32)>> = Vec::new();
    for strategy in ALL {
        assert!(strategy.schedule(&values).is_empty());
    }
}
