use conway_sound::{Index, GRID_WIDTH};

#[test]
fn neighbors() {
    let index = Index { row: 1, col: 1 };
    let neighbors = index.neighbors();
    assert_eq!(neighbors.len(), 8);

    let index = Index { row: 0, col: 1 };
    let neighbors = index.neighbors();
    assert_eq!(neighbors.len(), 5);

    let index = Index { row: 1, col: 0 };
    let neighbors = index.neighbors();
    assert_eq!(neighbors.len(), 5);

    let index = Index { row: 0, col: 0 };
    let neighbors = index.neighbors();
    assert_eq!(neighbors.len(), 3);

    let index = Index { row: 499, col: 1 };
    let neighbors = index.neighbors();
    assert_eq!(neighbors.len(), 5);

    let index = Index { row: 1, col: 499 };
    let neighbors = index.neighbors();
    assert_eq!(neighbors.len(), 5);

    let index = Index { row: 499, col: 499 };
    let neighbors = index.neighbors();
    assert_eq!(neighbors.len(), 3);

    let index = Index { row: 125, col: 420 };
    let neighbors = index.neighbors();
    assert_eq!(neighbors.len(), 8);
}

#[test]
fn corner_neighbors_are_listed_row_by_row() {
    let neighbors = Index { row: 0, col: 0 }.neighbors();
    assert_eq!(
        neighbors,
        vec![Index { row: 0, col: 1 }, Index { row: 1, col: 0 }, Index { row: 1, col: 1 }]
    );
}

#[test]
fn interior_neighbors_surround_the_cell() {
    let neighbors = Index { row: 125, col: 420 }.neighbors();
    assert_eq!(
        neighbors,
        vec![
            Index { row: 124, col: 419 },
            Index { row: 124, col: 420 },
            Index { row: 124, col: 421 },
            Index { row: 125, col: 419 },
            Index { row: 125, col: 421 },
            Index { row: 126, col: 419 },
            Index { row: 126, col: 420 },
            Index { row: 126, col: 421 },
        ]
    );
}

#[test]
fn far_off_positions_have_no_neighbors() {
    assert!(Index { row: 600, col: 3 }.neighbors().is_empty());
    assert!(Index { row: usize::MAX, col: usize::MAX }.neighbors().is_empty());
    assert_eq!(Index { row: 500, col: 3 }.neighbors().len(), 3);
}

#[test]
fn offsets_convert_both_ways() {
    let index = Index::from_offset(2 * GRID_WIDTH + 7);
    assert_eq!(index, Index { row: 2, col: 7 });
    assert_eq!(index.offset(), 1007);
    let converted: Index = 1007usize.into();
    assert_eq!(converted, index);
}
