use conway_sound::{Conway, GameError, Grid, OverlappingCascadePlayer, NUMBER_OF_SUBGRIDS};

#[test]
fn with_capacity() {
    let mut games = Conway::start_with_capacity(5);
    assert_eq!(games.number_of_games(), 5);

    games.add_game(Grid::random());
    assert_eq!(games.number_of_games(), 6);

    games.add_game(Grid::random());
    assert_eq!(games.number_of_games(), 7);

    games.remove_game(1).unwrap();
    assert_eq!(games.number_of_games(), 6);

    games.remove_game(1).unwrap();
    assert_eq!(games.number_of_games(), 5);
}

#[test]
fn test_if_grids_change() {
    let mut games = Conway::start_with_capacity(10);
    games.start();

    let old_games = games.clone();
    games.next_gen();
    assert!(!games
        .iter()
        .zip(old_games.iter())
        .any(|(new, old)| old.iter().eq(new.iter())));

    let old_games = games.clone();
    games.next_gen();
    assert!(!games
        .iter()
        .zip(old_games.iter())
        .any(|(new, old)| old.iter().eq(new.iter())));

    let old_games = games.clone();
    games.next_gen();
    assert!(!games
        .iter()
        .zip(old_games.iter())
        .any(|(new, old)| old.iter().eq(new.iter())));
}

#[test]
fn test_pitch_and_volume() {
    let mut games = Conway::start_with_capacity(10);
    games.start();

    games.next_gen();
    let number_of_games = games.number_of_games();
    let pitches_and_volumes = games.get_pitch_and_volume_per_subgrids();
    let mut iters: Vec<_> = pitches_and_volumes.iter().map(|values| values.iter()).collect();
    let mut finished_grid_counter: usize = 0;
    let mut played: Vec<u32> = Vec::new();

    for i in 0..number_of_games * NUMBER_OF_SUBGRIDS {
        let upper_bound: usize = (i + 1).min(number_of_games);
        for grid_idx in finished_grid_counter..upper_bound {
            match iters[grid_idx].next() {
                Some((pitch, volume)) => {
                    println!("({},{}), grid: {}", pitch, volume, grid_idx);
                    played.push(*pitch);
                }
                None => {
                    finished_grid_counter += 1;
                }
            }
        }
    }
    assert_eq!(played.len(), number_of_games * NUMBER_OF_SUBGRIDS);
    assert_eq!(OverlappingCascadePlayer::schedule(&pitches_and_volumes), played);
}

#[test]
fn new_session_is_stopped_and_empty() {
    let mut games = Conway::new();
    assert_eq!(games.number_of_games(), 0);
    assert!(games.stopped);
    games.next_gen();
    assert!(games.get_pitch_and_volume_per_subgrids().is_empty());
}

#[test]
fn stopped_session_does_not_step() {
    let mut games = Conway::start_with_capacity(2);
    let before = games.clone();
    games.next_gen();
    assert!(games
        .iter()
        .zip(before.iter())
        .all(|(new, old)| new.iter().eq(old.iter())));
    games.toggle();
    assert!(!games.stopped);
    games.stop();
    assert!(games.stopped);
}

#[test]
fn stopped_grid_stays_while_others_step() {
    let mut games = Conway::start_with_capacity(2);
    games.start();
    games.stop_game(0).unwrap();
    let before = games.clone();
    games.next_gen();
    let grids: Vec<&Grid> = games.iter().collect();
    let old: Vec<&Grid> = before.iter().collect();
    assert!(grids[0].iter().eq(old[0].iter()));
    assert!(grids[0].stopped());
    assert!(!grids[1].iter().eq(old[1].iter()));
    games.start_game(0).unwrap();
    games.toggle_game(1).unwrap();
    let grids: Vec<&Grid> = games.iter().collect();
    assert!(!grids[0].stopped());
    assert!(grids[1].stopped());
}

#[test]
fn removal_shifts_later_grids() {
    let mut games = Conway::new();
    games.add_game(Grid::random());
    games.add_game(Grid::empty());
    games.add_game(Grid::random());
    let removed = games.remove_game(0).unwrap();
    assert!(removed.count_ones() > 0);
    let first = games.iter().next().unwrap();
    assert_eq!(first.count_ones(), 0);
    assert_eq!(games.number_of_games(), 2);
}

#[test]
fn out_of_range_game_index_fails_and_changes_nothing() {
    let mut games = Conway::start_with_capacity(3);
    assert!(matches!(games.remove_game(3), Err(GameError::GameIndexOutOfBounds(3))));
    assert_eq!(games.number_of_games(), 3);
    assert_eq!(games.stop_game(7), Err(GameError::GameIndexOutOfBounds(7)));
    assert_eq!(games.start_game(3), Err(GameError::GameIndexOutOfBounds(3)));
    assert_eq!(games.toggle_game(9), Err(GameError::GameIndexOutOfBounds(9)));
    assert!(games.iter().all(|grid| !grid.stopped()));
}

#[test]
fn one_value_vector_per_grid() {
    let mut games = Conway::start_with_capacity(3);
    games.start();
    games.next_gen();
    let values = games.get_pitch_and_volume_per_subgrids();
    assert_eq!(values.len(), 3);
    assert!(values.iter().all(|grid_values| grid_values.len() == NUMBER_OF_SUBGRIDS));
}
