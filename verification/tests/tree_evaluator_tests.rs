use std::collections::VecDeque;

use board_game_engine::{
    Board, BoardMove, Cell, Coords, T3GameState, TreeEvaluator, X_WIN_VALUE,
};

fn get_ref_state() -> T3GameState {
    let mut b1 = Board::new(3, 3);
    // X X
    // O O
    // X O
    let _ = b1.set_state(vec![
        Cell::X,
        Cell::Empty,
        Cell::X,
        Cell::O,
        Cell::Empty,
        Cell::O,
        Cell::X,
        Cell::Empty,
        Cell::O,
    ]);

    T3GameState::new(b1, BoardMove { coords: Coords { row: 2, col: 2 }, side: Cell::O })
}

#[test]
fn test_tree_evaluator_expand_by_one() {
    let mut tree_eval = TreeEvaluator::new(get_ref_state());
    tree_eval.expand_states_by(0, 1);

    assert_eq!(tree_eval.parent.len(), 4);
    assert_eq!(tree_eval.children.len(), 4);
    assert_eq!(tree_eval.game_states.len(), 4);
    assert_eq!(tree_eval.worst_case_values.len(), 4);

    assert_eq!(tree_eval.children.get(0).unwrap(), &vec![1, 2, 3]);
}

#[test]
fn test_tree_evaluator_expand_by_two() {
    let mut tree_eval = TreeEvaluator::new(get_ref_state());
    tree_eval.expand_states_by(0, 2);

    assert_eq!(tree_eval.parent.len(), 6);
    assert_eq!(tree_eval.children.len(), 6);
    assert_eq!(tree_eval.game_states.len(), 6);
    assert_eq!(tree_eval.worst_case_values.len(), 6);
}

#[test]
fn test_bfs_iter() {
    let mut tree_eval = TreeEvaluator::new(get_ref_state());
    tree_eval.expand_states_by(0, 2);

    let mut iter = tree_eval.bfs_iter(0);
    let mut bfs_order: Vec<usize> = Vec::new();
    while let Some(idx) = iter.next() {
        bfs_order.push(idx);
    }
    assert_eq!(bfs_order, (0..6).into_iter().collect::<Vec<usize>>());
}

#[test]
fn test_evaluate_states() {
    let mut tree_eval = TreeEvaluator::new(get_ref_state());
    tree_eval.expand_states_by(0, 9);

    tree_eval.evaluate_states(0);
    // The reference state is one before winning, we expect a worst case
    // value of the full win value.
    assert_eq!(tree_eval.worst_case_values[0], X_WIN_VALUE);
}

#[test]
fn test_evaluate_states_idempotent() {
    // Re-running the backward induction on an unchanged subtree leaves all
    // cached values exactly as they are.
    let mut tree_eval = TreeEvaluator::new(get_ref_state());
    tree_eval.expand_states_by(0, 9);

    tree_eval.evaluate_states(0);
    let first = tree_eval.worst_case_values.clone();
    tree_eval.evaluate_states(0);
    assert_eq!(tree_eval.worst_case_values, first);
}

#[test]
fn test_single_ply_round_trip() {
    // Expanding one ply of a position without any winning continuation and
    // evaluating yields the node's own positional value, zero.
    let root = T3GameState::default();
    let mut tree_eval = TreeEvaluator::new(root);
    tree_eval.expand_states_by(0, 1);
    tree_eval.evaluate_states(0);
    assert_eq!(tree_eval.worst_case_values[0], 0);
}

#[test]
fn test_expand_and_get_children_idx() {
    let mut tree_eval = TreeEvaluator::new(get_ref_state());
    let children = tree_eval.expand_and_get_children_idx(&vec![0]);
    assert_eq!(children, vec![1, 2, 3]);

    // A second expansion of the same node is a no-op.
    let again = tree_eval.expand_and_get_children_idx(&vec![0]);
    assert_eq!(again, Vec::<usize>::new());
}

#[test]
fn test_expand_by_skips_terminal_children() {
    let mut tree_eval = TreeEvaluator::new(get_ref_state());
    let mut frontier: VecDeque<usize> = VecDeque::new();
    frontier.push_back(0);

    // Of the three children, two complete a row for X and are terminal;
    // only the third is enqueued for further expansion.
    let done = tree_eval.expand_by(&mut frontier, 1);
    assert!(!done);
    assert_eq!(tree_eval.game_states.len(), 4);
    assert_eq!(frontier.len(), 1);

    // Resuming the budgeted calls drains the frontier completely, and the
    // terminal nodes never gained children.
    let mut rounds = 0;
    while !tree_eval.expand_by(&mut frontier, 100) {
        rounds += 1;
        assert!(rounds < 100);
    }
    assert_eq!(frontier.len(), 0);
    for i in 0..tree_eval.game_states.len() {
        if tree_eval.worst_case_values[i] == X_WIN_VALUE
            || tree_eval.worst_case_values[i] == -X_WIN_VALUE
        {
            assert!(tree_eval.children[i].is_empty());
        }
    }
}

#[test]
fn test_expand_by_zero_budget() {
    let mut tree_eval = TreeEvaluator::new(get_ref_state());
    let mut frontier: VecDeque<usize> = VecDeque::new();
    frontier.push_back(0);

    // A zero budget expands nothing and reports an unfinished frontier.
    let done = tree_eval.expand_by(&mut frontier, 0);
    assert!(!done);
    assert_eq!(tree_eval.game_states.len(), 1);
    assert_eq!(frontier.len(), 1);

    // An empty frontier is exhausted whatever the budget.
    let mut empty: VecDeque<usize> = VecDeque::new();
    assert!(tree_eval.expand_by(&mut empty, 5));
}

#[test]
fn test_best_child_picks_win_either_order() {
    // A parent whose side is O (X to move next) with one winning child and
    // one neutral child: the winning child is chosen whichever slot it
    // occupies.
    let parent_state = get_ref_state();

    let child_a = T3GameState::new(Board::new(3, 3), BoardMove::new(0, 0, Cell::X));
    let child_b = T3GameState::new(Board::new(3, 3), BoardMove::new(0, 1, Cell::X));

    let t1 = TreeEvaluator::<T3GameState> {
        parent: vec![0, 0, 0],
        children: vec![vec![1, 2], vec![], vec![]],
        game_states: vec![parent_state, child_a, child_b],
        worst_case_values: vec![0, X_WIN_VALUE, 0],
    };
    assert_eq!(t1.best_child(0), Some(1));

    let parent_state = get_ref_state();
    let child_a = T3GameState::new(Board::new(3, 3), BoardMove::new(0, 0, Cell::X));
    let child_b = T3GameState::new(Board::new(3, 3), BoardMove::new(0, 1, Cell::X));
    let t2 = TreeEvaluator::<T3GameState> {
        parent: vec![0, 0, 0],
        children: vec![vec![1, 2], vec![], vec![]],
        game_states: vec![parent_state, child_a, child_b],
        worst_case_values: vec![0, 0, X_WIN_VALUE],
    };
    assert_eq!(t2.best_child(0), Some(2));
}

#[test]
fn test_best_child_without_children() {
    let tree_eval = TreeEvaluator::new(get_ref_state());
    assert_eq!(tree_eval.best_child(0), None);
}

#[test]
fn test_new_with_default() {
    let tree_eval: TreeEvaluator<T3GameState> = TreeEvaluator::new_with_default();
    assert_eq!(tree_eval.game_states().len(), 1);
    assert_eq!(tree_eval.worst_case_values()[0], 0);
    assert_eq!(tree_eval.children()[0].len(), 0);
    assert_eq!(tree_eval.parents()[0], 0);
}
