use board_game_engine::{
    BoardMove, Cell, ExpandResult, FiarGameInterface, GameTreeInterface, Message,
    T3GameInterface, T3GameState,
};

#[test]
fn test_expand_one_level_reports_done() {
    let mut game_if: GameTreeInterface<T3GameState> = GameTreeInterface::new(2);
    assert_eq!(game_if.expand_one_level(), ExpandResult::NotDone);
    assert_eq!(game_if.expand_one_level(), ExpandResult::Done);
    // Once the configured depth is reached, further calls change nothing.
    assert_eq!(game_if.expand_one_level(), ExpandResult::Done);
    // One root, nine children, and 72 grandchildren were created.
    assert_eq!(game_if.tree_eval.game_states.len(), 1 + 9 + 72);
}

#[test]
fn test_track_move_not_found() {
    // Tracking a move that matches no direct child reports the documented
    // failure and leaves the root (and everything else) unchanged.
    let mut game_if: GameTreeInterface<T3GameState> = GameTreeInterface::new(2);
    assert!(!game_if.track_move(BoardMove::new(0, 0, Cell::X)));
    assert_eq!(game_if.last_move_idx, 0);

    game_if.expand_one_level();
    // A move by the wrong side matches no generated child either.
    assert!(!game_if.track_move(BoardMove::new(0, 0, Cell::O)));
    assert_eq!(game_if.last_move_idx, 0);
}

#[test]
fn test_track_move_found() {
    let mut game_if: GameTreeInterface<T3GameState> = GameTreeInterface::new(2);
    game_if.expand_one_level();
    assert!(game_if.track_move(BoardMove::new(1, 1, Cell::X)));
    // The new root is one of the nine children.
    assert!(1 <= game_if.last_move_idx && game_if.last_move_idx <= 9);
}

#[test]
fn test_t3_interface_finds_center_or_any_move() {
    let mut game_if = T3GameInterface::new();
    // Expand two plies so the engine has something to choose from.
    game_if.inner.max_expanded_depth = 2;
    game_if.expand_one_level();
    game_if.expand_one_level();

    let mv = game_if.get_best_move();
    assert_eq!(mv.side, Cell::X);
    assert!(mv.coords.row < 3 && mv.coords.col < 3);
}

#[test]
fn test_interface_reset() {
    let mut game_if = T3GameInterface::new();
    game_if.inner.max_expanded_depth = 1;
    game_if.expand_one_level();
    assert!(game_if.inner.tree_eval.game_states.len() > 1);
    game_if.reset();
    assert_eq!(game_if.inner.tree_eval.game_states.len(), 1);
    assert_eq!(game_if.inner.last_move_idx, 0);
}

#[test]
fn test_process_messages() {
    let mut game_if: GameTreeInterface<T3GameState> = GameTreeInterface::new(2);

    // Asking for a move before anything was expanded yields nothing.
    assert_eq!(game_if.process(Message::GetMove), None);

    game_if.expand_one_level();
    game_if.expand_one_level();

    // A committed move is acknowledged without an outbound move.
    assert_eq!(game_if.process(Message::SetMove(BoardMove::new(0, 0, Cell::X))), None);

    // The engine answers a move request with a move by the next side.
    let reply = game_if.process(Message::GetMove);
    assert!(reply.is_some());
    assert_eq!(reply.unwrap().side, Cell::O);

    // A reset empties the arena back to the starting position.
    assert_eq!(game_if.process(Message::Reset), None);
    assert_eq!(game_if.tree_eval.game_states.len(), 1);
}

#[test]
fn test_fiar_interface_basics() {
    let mut game_if = FiarGameInterface::new();
    game_if.inner.max_expanded_depth = 1;
    assert_eq!(game_if.expand_one_level(), ExpandResult::Done);
    // Seven columns, seven children.
    assert_eq!(game_if.inner.tree_eval.game_states.len(), 8);

    // The engine can commit a move for X straight away.
    let mv = game_if.get_best_move();
    assert_eq!(mv.side, Cell::X);
    assert_eq!(mv.coords.row, 5);
}
