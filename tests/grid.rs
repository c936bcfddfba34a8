use conway_sound::{Cell, GameError, Grid, Index, GRID_HEIGHT, GRID_WIDTH};

fn offset(row: usize, col: usize) -> usize {
    row * GRID_WIDTH + col
}

fn alive(grid: &Grid, row: usize, col: usize) -> bool {
    grid.get_cell(offset(row, col)).unwrap().alive
}

#[test]
fn not_all_trues() {
    let grid = Grid::random();
    let true_count = grid
        .iter()
        .fold(0, |acc, &cell| if cell.alive { acc + 1 } else { acc });
    assert_ne!(true_count, GRID_HEIGHT * GRID_HEIGHT);
}

#[test]
fn board_changes() {
    let mut grid = Grid::random();

    let old_grid = grid.clone();
    grid.next_gen();
    assert!(grid.iter().ne(old_grid.iter()));
    assert_ne!(grid.count_ones(), 0);

    let old_grid = grid.clone();
    grid.next_gen();
    assert!(grid.iter().ne(old_grid.iter()));
    assert_ne!(grid.count_ones(), 0);

    let old_grid = grid.clone();
    grid.next_gen();
    assert!(grid.iter().ne(old_grid.iter()));
    assert_ne!(grid.count_ones(), 0);

    let old_grid = grid.clone();
    grid.next_gen();
    assert!(grid.iter().ne(old_grid.iter()));
    assert_ne!(grid.count_ones(), 0);
}

#[test]
fn some_cells_died() {
    let mut grid = Grid::random();
    grid.next_gen();
    let deaths_in_subgrids = grid.get_pitch_and_volume_per_subgrid();
    assert!(!deaths_in_subgrids.iter().any(|&(pitch, volume)| pitch == 0 && volume == 0));
}

#[test]
fn random_grid_is_neither_full_nor_empty() {
    let grid = Grid::random();
    let ones = grid.count_ones();
    assert!(ones > 0);
    assert!(ones < GRID_WIDTH * GRID_HEIGHT);
    assert!(!grid.stopped());
    assert!(grid.iter().all(|cell| !cell.just_changed));
}

#[test]
fn empty_grid_has_no_live_cell() {
    let grid = Grid::empty();
    assert_eq!(grid.count_ones(), 0);
    assert_eq!(grid.iter().count(), GRID_WIDTH * GRID_HEIGHT);
    assert_eq!(grid.get_pitch_and_volume(), (0, 0));
}

#[test]
fn blinker_oscillates() {
    let mut grid = Grid::empty();
    for col in 1..4 {
        grid.set_cell(offset(2, col), true).unwrap();
    }
    assert!(grid.next_gen());
    // the horizontal bar turns vertical
    assert!(alive(&grid, 1, 2) && alive(&grid, 2, 2) && alive(&grid, 3, 2));
    assert!(!alive(&grid, 2, 1) && !alive(&grid, 2, 3));
    assert_eq!(grid.count_ones(), 3);
    // two deaths, two births
    assert_eq!(grid.get_pitch_and_volume(), (2, 2));
    let centre = grid.get_cell(offset(2, 2)).unwrap();
    assert!(centre.alive && !centre.just_changed);
    grid.next_gen();
    assert!(alive(&grid, 2, 1) && alive(&grid, 2, 2) && alive(&grid, 2, 3));
    assert_eq!(grid.count_ones(), 3);
}

#[test]
fn block_stays_and_lonely_cell_dies() {
    let mut grid = Grid::empty();
    for (row, col) in [(10, 10), (10, 11), (11, 10), (11, 11), (40, 40)] {
        grid.set_cell(offset(row, col), true).unwrap();
    }
    assert_eq!(grid.count_neighbors(offset(10, 10)), 3);
    assert_eq!(grid.count_neighbors(offset(40, 40)), 0);
    grid.next_gen();
    assert!(alive(&grid, 10, 10) && alive(&grid, 11, 11));
    assert!(!alive(&grid, 40, 40));
    assert!(grid.get_cell(offset(40, 40)).unwrap().just_changed);
    assert_eq!(grid.count_ones(), 4);
    assert_eq!(grid.get_pitch_and_volume(), (1, 0));
}

#[test]
fn crowded_cell_dies_and_three_neighbours_give_birth() {
    let mut grid = Grid::empty();
    // a plus sign: the centre has four live neighbours
    for (row, col) in [(5, 5), (4, 5), (6, 5), (5, 4), (5, 6)] {
        grid.set_cell(offset(row, col), true).unwrap();
    }
    assert_eq!(grid.count_neighbors(offset(5, 5)), 4);
    assert_eq!(grid.count_neighbors(offset(4, 4)), 3);
    grid.next_gen();
    assert!(!alive(&grid, 5, 5));
    assert!(alive(&grid, 4, 4));
    assert!(grid.get_cell(offset(4, 4)).unwrap().just_changed);
}

#[test]
fn corner_cell_sees_only_on_grid_neighbours() {
    let mut grid = Grid::empty();
    let last = GRID_WIDTH * GRID_HEIGHT - 1;
    grid.set_cell(last, true).unwrap();
    grid.set_cell(offset(0, GRID_WIDTH - 1), true).unwrap();
    grid.set_cell(offset(GRID_HEIGHT - 1, 0), true).unwrap();
    // nothing wraps around: the corner (0, 0) sees none of them
    assert_eq!(grid.count_neighbors(0), 0);
    assert_eq!(grid.count_neighbors(offset(GRID_HEIGHT - 2, GRID_WIDTH - 2)), 1);
}

#[test]
fn copies_of_a_grid_step_alike() {
    let mut first = Grid::random();
    let mut second = first.clone();
    first.next_gen();
    second.next_gen();
    assert!(first
        .iter()
        .zip(second.iter())
        .all(|(a, b)| a.alive == b.alive && a.just_changed == b.just_changed));
}

#[test]
fn stopped_grid_does_not_step() {
    let mut grid = Grid::random();
    grid.stop();
    assert!(grid.stopped());
    let before = grid.clone();
    assert!(!grid.next_gen());
    assert!(grid.iter().eq(before.iter()));
    grid.toggle();
    assert!(!grid.stopped());
    grid.toggle();
    assert!(grid.stopped());
    grid.start();
    assert!(grid.next_gen());
}

#[test]
fn set_and_change_cell_mark_changes() {
    let mut grid = Grid::empty();
    grid.set_cell(7, false).unwrap();
    assert!(!grid.get_cell(7).unwrap().just_changed);
    grid.set_cell(7, true).unwrap();
    let cell = grid.get_cell(7).unwrap();
    assert!(cell.alive && cell.just_changed);
    grid.change_cell(7).unwrap();
    let cell = grid.get_cell(7).unwrap();
    assert!(!cell.alive && cell.just_changed);
}

#[test]
fn out_of_range_edits_fail_and_change_nothing() {
    let mut grid = Grid::random();
    let before = grid.clone();
    let past = GRID_WIDTH * GRID_HEIGHT;
    assert_eq!(
        grid.set_cell(past, true),
        Err(GameError::IndexOutOfBounds(Index { row: 500, col: 0 }))
    );
    assert_eq!(
        grid.change_cell(past + 3),
        Err(GameError::IndexOutOfBounds(Index { row: 500, col: 3 }))
    );
    assert!(grid.get_cell(past).is_none());
    assert!(grid
        .iter()
        .zip(before.iter())
        .all(|(a, b)| a.alive == b.alive && a.just_changed == b.just_changed));
}

#[test]
fn subgrid_values_cover_the_whole_grid() {
    let mut grid = Grid::random();
    grid.next_gen();
    let per_subgrid = grid.get_pitch_and_volume_per_subgrid();
    let (pitch, volume) = grid.get_pitch_and_volume();
    assert_eq!(per_subgrid.iter().map(|v| v.0).sum::<u32>(), pitch);
    assert_eq!(per_subgrid.iter().map(|v| v.1).sum::<u32>(), volume);
    // asking twice between two steps gives the same pairs
    assert_eq!(grid.get_pitch_and_volume_per_subgrid(), per_subgrid);
}

#[test]
fn subgrid_values_count_births_and_deaths() {
    let mut grid = Grid::empty();
    grid.set_cell(offset(499, 499), true).unwrap();
    grid.set_cell(0, true).unwrap();
    grid.change_cell(0).unwrap();
    assert_eq!(grid.get_pitch_and_volume_per_subgrid(), vec![(1, 1)]);
    grid.next_gen();
    assert_eq!(grid.get_pitch_and_volume_per_subgrid(), vec![(1, 0)]);
}

#[test]
fn cells_compare_by_life_and_have_colours() {
    let born = Cell { alive: true, just_changed: true };
    let old = Cell { alive: true, just_changed: false };
    let dead = Cell::from(false);
    assert_eq!(born, old);
    assert_ne!(born, dead);
    assert_eq!(born.color(), "#fff");
    assert_eq!(dead.color(), "#000");
    assert!(bool::from(old));
    assert!(!dead.just_changed);
}

#[test]
fn errors_describe_themselves() {
    assert_eq!(GameError::IndexOutOfBounds(Index { row: 1, col: 2 }).message(), "index out of bounds");
    assert_eq!(GameError::GameIndexOutOfBounds(4).message(), "game index out of bounds");
}
