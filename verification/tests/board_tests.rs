use board_game_engine::{Board, Cell, Coords};

#[test]
fn test_get_coords() {
    let board = Board::new(3, 4);

    for (idx, coords) in vec![
        (0, Coords { row: 0, col: 0 }),
        (1, Coords { row: 0, col: 1 }),
        (6, Coords { row: 1, col: 2 }),
    ] {
        assert_eq!(board.get_coords(idx), coords);
    }
}

#[test]
fn test_line_winner() {
    let mut b1 = Board::new(3, 3);
    // XO
    // OXO
    //  XX
    let _ = b1.set_state(vec![
        Cell::X,
        Cell::O,
        Cell::Empty,
        Cell::O,
        Cell::X,
        Cell::O,
        Cell::Empty,
        Cell::X,
        Cell::X,
    ]);

    let last_move_coords = Coords { row: 1, col: 1 };

    assert_eq!(b1.line_winner(&last_move_coords, 3), Cell::X);
}

#[test]
fn test_line_winner_longer_run_absent() {
    let mut b1 = Board::new(3, 3);
    let _ = b1.set_state(vec![
        Cell::X,
        Cell::O,
        Cell::Empty,
        Cell::O,
        Cell::X,
        Cell::O,
        Cell::Empty,
        Cell::X,
        Cell::X,
    ]);

    // The diagonal run through the center is three long, so asking for a
    // run of four finds no winner.
    assert_eq!(b1.line_winner(&Coords { row: 1, col: 1 }, 4), Cell::Empty);
}

#[test]
fn test_set_cell_then_get_cell() {
    let mut b = Board::new(3, 3);
    assert!(b.set_cell(1, 2, Cell::X));
    assert_eq!(b.get_cell(1, 2), Ok(Cell::X));

    // A second placement at the same coordinate fails and changes nothing.
    assert!(!b.set_cell(1, 2, Cell::O));
    assert_eq!(b.get_cell(1, 2), Ok(Cell::X));
}

#[test]
fn test_set_cell_out_of_bounds() {
    let mut b = Board::new(2, 2);
    assert!(!b.set_cell(2, 0, Cell::X));
    assert!(!b.set_cell(0, 2, Cell::X));
    assert_eq!(b.get_cell(5, 5), Err(()));
}

#[test]
fn test_set_state_wrong_length() {
    let mut b = Board::new(2, 2);
    assert_eq!(b.set_state(vec![Cell::X; 3]), Err(()));
    assert_eq!(b.set_state(vec![Cell::X; 4]), Ok(()));
    assert_eq!(b.get_cell(0, 0), Ok(Cell::X));
}

#[test]
fn test_reset_equals_new() {
    let mut b = Board::new(4, 5);
    assert!(b.set_cell(0, 0, Cell::X));
    assert!(b.set_cell(3, 4, Cell::O));
    b.reset();

    let fresh = Board::new(4, 5);
    assert_eq!(b.width(), fresh.width());
    assert_eq!(b.height(), fresh.height());
    assert_eq!(b.cells(), fresh.cells());
}

#[test]
fn test_first_empty_in_column() {
    let mut b = Board::new(3, 2);
    // Fill the bottom cell of column 0.
    assert!(b.set_cell(2, 0, Cell::X));
    assert_eq!(b.first_empty_in_column(0), Some(Coords { row: 1, col: 0 }));
    assert_eq!(b.first_empty_in_column(1), Some(Coords { row: 2, col: 1 }));

    // A full column offers no landing row.
    assert!(b.set_cell(1, 0, Cell::O));
    assert!(b.set_cell(0, 0, Cell::X));
    assert_eq!(b.first_empty_in_column(0), None);

    // Nor does a column that does not exist.
    assert_eq!(b.first_empty_in_column(7), None);
}

#[test]
fn test_in_bounds_and_index() {
    let b = Board::new(2, 3);
    assert!(b.in_bounds(1, 2));
    assert!(!b.in_bounds(2, 0));
    assert!(!b.in_bounds(0, 3));
    assert_eq!(b.get_index(1, 2), 5);
}
