use board_game_engine::{
    Board, BoardMove, Cell, Coords, FiarGameState, GameState, T3GameState, X_WIN_VALUE,
};

#[test]
fn test_t3gamestate_expand() {
    let mut b1 = Board::new(3, 3);
    // X X
    // O O
    // X O
    let _ = b1.set_state(vec![
        Cell::X,
        Cell::Empty,
        Cell::X,
        Cell::O,
        Cell::Empty,
        Cell::O,
        Cell::X,
        Cell::Empty,
        Cell::O,
    ]);

    let game_state = T3GameState {
        board: b1,
        last_move: BoardMove { coords: Coords { row: 2, col: 2 }, side: Cell::O },
    };

    let expanded_states = game_state.expand();
    assert_eq!(expanded_states.len(), 3);
}

#[test]
fn test_expand_ttt_state() {
    let root_state = T3GameState::default();
    let child_states = root_state.expand();

    assert_eq!(child_states.len(), 9);
}

#[test]
fn test_expand_fiar_state() {
    let root_state = FiarGameState::default();
    let child_states = root_state.expand();

    assert_eq!(child_states.len(), 7);
}

#[test]
fn test_fresh_ttt_children_have_one_mark() {
    // Expanding a fresh 3x3 state yields one child per cell, each with
    // exactly one non-empty cell sitting at the played coordinate.
    let root_state = T3GameState::default();
    let children = root_state.expand();
    assert_eq!(children.len(), 9);

    for child in children {
        let played = child.last_move.coords;
        assert_eq!(child.last_move.side, Cell::X);
        let mut non_empty = 0;
        for row in 0..3u32 {
            for col in 0..3u32 {
                let cell = child.board.get_cell(row, col).unwrap();
                if row == played.row && col == played.col {
                    assert_eq!(cell, Cell::X);
                } else {
                    assert_eq!(cell, Cell::Empty);
                }
                if cell != Cell::Empty {
                    non_empty += 1;
                }
            }
        }
        assert_eq!(non_empty, 1);
    }
}

#[test]
fn test_fiargamestate_expand() -> Result<(), ()> {
    let b1 = Board::new(6, 7);

    let game_state = FiarGameState {
        board: b1,
        last_move: BoardMove { coords: Coords { row: 0, col: 0 }, side: Cell::O },
    };

    let expanded_states = game_state.expand();
    assert_eq!(expanded_states.len(), 7);

    for state in expanded_states {
        assert_eq!(state.last_move.coords.row, state.board.height() - 1);
        for row in 0..state.board.height() {
            for col in 0..state.board.width() {
                match row {
                    x if x == (state.board.height() - 1) => {
                        let cell = state.board.get_cell(row, col)?;
                        assert!(cell == Cell::Empty || cell == Cell::X);
                    }
                    _ => {
                        assert_eq!(state.board.get_cell(row, col), Ok(Cell::Empty))
                    }
                }
            }
        }
    }

    Ok(())
}

#[test]
fn test_position_values() {
    // A winning row for X carries the win sentinel, the mirrored board the
    // opposite sentinel, and a quiet position zero.
    let mut bx = Board::new(3, 3);
    let _ = bx.set_state(vec![
        Cell::X,
        Cell::X,
        Cell::X,
        Cell::O,
        Cell::O,
        Cell::Empty,
        Cell::Empty,
        Cell::Empty,
        Cell::Empty,
    ]);
    let sx = T3GameState::new(bx, BoardMove::new(0, 2, Cell::X));
    assert_eq!(sx.position_value(), X_WIN_VALUE);

    let mut bo = Board::new(3, 3);
    let _ = bo.set_state(vec![
        Cell::O,
        Cell::O,
        Cell::O,
        Cell::X,
        Cell::X,
        Cell::Empty,
        Cell::Empty,
        Cell::Empty,
        Cell::Empty,
    ]);
    let so = T3GameState::new(bo, BoardMove::new(0, 2, Cell::O));
    assert_eq!(so.position_value(), -X_WIN_VALUE);

    let quiet = T3GameState::default();
    assert_eq!(quiet.position_value(), 0);
}

#[test]
fn test_terminal_state_has_no_children() {
    let mut bx = Board::new(3, 3);
    let _ = bx.set_state(vec![
        Cell::X,
        Cell::X,
        Cell::X,
        Cell::O,
        Cell::O,
        Cell::Empty,
        Cell::Empty,
        Cell::Empty,
        Cell::Empty,
    ]);
    let sx = T3GameState::new(bx, BoardMove::new(0, 2, Cell::X));
    assert_eq!(sx.expand().len(), 0);
}

#[test]
fn test_state_accessors() {
    let s = T3GameState::default();
    assert_eq!(s.side(), Cell::O);
    assert_eq!(s.last_move(), BoardMove::new(0, 0, Cell::O));

    let f = FiarGameState::default();
    assert_eq!(f.side(), Cell::O);
    assert_eq!(f.board.width(), 7);
    assert_eq!(f.board.height(), 6);
}
