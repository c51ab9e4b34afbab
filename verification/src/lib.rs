//! A two-player, perfect-information board-game engine.
//!
//! The engine models a rectangular grid board with line-win detection, game
//! states for two game variants (fill-any-empty-cell and drop-into-column),
//! and an arena-based game tree that supports incremental expansion,
//! backward-induction (minimax) evaluation and re-rooting as moves are
//! committed.

use vstd::prelude::*;

mod board;
mod common;
mod fiar_game;
mod game_interface;
mod t3_game;
mod tree;
mod tree_evaluator;

pub use board::Board;
pub use common::{opposite, other_side, BoardMove, Cell, Coords, DeltaCoords};
pub use fiar_game::FiarGameState;
pub use game_interface::{
    ExpandResult, FiarGameInterface, GameTreeInterface, Message, T3GameInterface,
};
pub use t3_game::T3GameState;
pub use tree::{
    new_tree_depth_iter, new_tree_iter, Node, NodeDepth, Tree, TreeDepthIterator, TreeIterator,
};
pub use tree_evaluator::{BfsIterator, TreeEvaluator};

verus! {

/// Evaluation sentinel for a position in which the first player (X) has
/// completed a winning run. The opposite sentinel marks a win for O. The
/// magnitude lies far outside every other achievable cached value, so
/// backward induction can never confuse an ordinary position with a forced
/// win.
pub const X_WIN_VALUE: i32 = 1000000;

/// The evaluation of a position from the marker of its winner.
pub open spec fn value_of_winner(winner: Cell) -> i32 {
    match winner {
        Cell::X => X_WIN_VALUE,
        Cell::O => (-X_WIN_VALUE) as i32,
        Cell::Empty => 0,
    }
}

/// One position of a game, reachable by alternating play, together with the
/// move that produced it. A state produces its child states (one legal move
/// deeper) by `expand`, and values itself by `position_value`.
pub trait GameState: Sized {
    /// Well-formedness of a state; established by constructors and preserved
    /// by expansion.
    spec fn wf(&self) -> bool;

    /// The side that made the move leading to this state.
    spec fn spec_side(&self) -> Cell;

    /// The move that produced this state.
    spec fn spec_last_move(&self) -> BoardMove;

    /// Terminal evaluation of the position: a win sentinel or zero.
    spec fn spec_position_value(&self) -> i32;

    /// How many child states one ply of expansion produces. A terminal
    /// state (non-zero position value) has no children.
    spec fn spec_num_children(&self) -> int;

    /// Exact characterization of the `k`-th child state.
    spec fn spec_child_ok(&self, k: int, c: Self) -> bool;

    /// Exact characterization of the starting position of the game.
    spec fn spec_is_initial(s: Self) -> bool;

    /// The starting position.
    fn initial() -> (s: Self)
        ensures
            s.wf(),
            Self::spec_is_initial(s);

    /// All positions reachable in one legal move, in board scan order, with
    /// the side to move flipped and the move freshly recorded. A terminal
    /// state expands to nothing.
    fn expand(&self) -> (r: Vec<Self>)
        requires
            self.wf(),
        ensures
            r@.len() == self.spec_num_children(),
            forall|k: int| 0 <= k < r@.len() ==> self.spec_child_ok(k, #[trigger] r@[k]),
    ;

    /// Every child of a well-formed state is well-formed.
    proof fn lemma_child_wf(&self, k: int, c: Self)
        requires
            self.wf(),
            0 <= k < self.spec_num_children(),
            self.spec_child_ok(k, c),
        ensures
            c.wf(),
    ;

    /// The win sentinel for the side that completed a run at the last move,
    /// or zero.
    fn position_value(&self) -> (v: i32)
        requires
            self.wf(),
        ensures
            v == self.spec_position_value(),
    ;

    /// The side that made the last move.
    fn side(&self) -> (s: Cell)
        requires
            self.wf(),
        ensures
            s == self.spec_side(),
    ;

    /// The move that produced this state.
    fn last_move(&self) -> (m: BoardMove)
        requires
            self.wf(),
        ensures
            m == self.spec_last_move(),
    ;
}

} // verus!
