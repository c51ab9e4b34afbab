//! Game state of the fill-any-empty-cell (tic-tac-toe style) variant:
//! three in a row wins, and every empty cell is a legal move.

use vstd::prelude::*;

use crate::board::Board;
use crate::common::{opposite, other_side, BoardMove, Cell, Coords};
use crate::{value_of_winner, GameState, X_WIN_VALUE};

verus! {

/// The flat indices of all empty cells of a grid, in increasing order.
pub open spec fn empty_indices(s: Seq<Cell>) -> Seq<int>
    decreases s.len(),
{
    if s.len() == 0 {
        Seq::empty()
    } else {
        let rest = empty_indices(s.drop_last());
        if s.last() == Cell::Empty {
            rest.push(s.len() - 1)
        } else {
            rest
        }
    }
}

/// Every listed index lies inside the grid and holds an empty cell.
pub proof fn lemma_empty_indices_in_range(s: Seq<Cell>)
    ensures
        forall|k: int| 0 <= k < empty_indices(s).len() ==> {
            &&& 0 <= #[trigger] empty_indices(s)[k] < s.len()
            &&& s[empty_indices(s)[k]] == Cell::Empty
        },
    decreases s.len(),
{
    if s.len() > 0 {
        lemma_empty_indices_in_range(s.drop_last());
    }
}

/// One position of the 3-in-a-row game: a board plus the move that produced
/// it.
#[derive(Debug)]
pub struct T3GameState {
    pub board: Board,
    pub last_move: BoardMove,
}

impl T3GameState {
    pub fn new(board: Board, last_move: BoardMove) -> (r: Self)
        ensures
            r == (T3GameState { board, last_move }),
    {
        Self { board, last_move }
    }

    /// Exact shape of the child reached by playing the empty cell at flat
    /// index `idx`: the same board with that one cell filled by the opposite
    /// side, which is also recorded as the last move.
    pub open spec fn child_at(self, idx: int, c: T3GameState) -> bool {
        let s = opposite(self.last_move.side);
        let w = self.board.spec_width() as int;
        &&& c.board.spec_width() == self.board.spec_width()
        &&& c.board.spec_height() == self.board.spec_height()
        &&& c.board@ == self.board@.update(idx, s)
        &&& c.last_move == (BoardMove {
            coords: Coords { row: (idx / w) as u32, col: (idx % w) as u32 },
            side: s,
        })
    }
}

impl GameState for T3GameState {
    open spec fn wf(&self) -> bool {
        &&& self.board.wf()
        &&& self.board.spec_in_bounds(
            self.last_move.coords.row as int,
            self.last_move.coords.col as int,
        )
        &&& self.last_move.side != Cell::Empty
    }

    open spec fn spec_side(&self) -> Cell {
        self.last_move.side
    }

    open spec fn spec_last_move(&self) -> BoardMove {
        self.last_move
    }

    open spec fn spec_position_value(&self) -> i32 {
        value_of_winner(self.board.line_winner_spec(self.last_move.coords, 3))
    }

    open spec fn spec_num_children(&self) -> int {
        if self.spec_position_value() != 0 {
            0
        } else {
            empty_indices(self.board@).len() as int
        }
    }

    open spec fn spec_child_ok(&self, k: int, c: Self) -> bool {
        self.child_at(empty_indices(self.board@)[k], c)
    }

    open spec fn spec_is_initial(s: Self) -> bool {
        &&& s.board.spec_width() == 3
        &&& s.board.spec_height() == 3
        &&& s.board@.len() == 9
        &&& forall|i: int| 0 <= i < s.board@.len() ==> s.board@[i] == Cell::Empty
        &&& s.last_move == (BoardMove {
            coords: Coords { row: 0, col: 0 },
            // Play usually starts with X, so the "last" side was O.
            side: Cell::O,
        })
    }

    fn initial() -> (s: Self) {
        T3GameState {
            board: Board::new(3, 3),
            last_move: BoardMove { coords: Coords { row: 0, col: 0 }, side: Cell::O },
        }
    }

    fn expand(&self) -> (r: Vec<T3GameState>) {
        let mut result: Vec<T3GameState> = Vec::new();
        if self.position_value() != 0 {
            return result;
        }
        let next = other_side(self.last_move.side);
        let total = self.board.cells().len();
        let mut idx: usize = 0;
        while idx < total
            invariant
                self.wf(),
                self.spec_position_value() == 0,
                total == self.board@.len(),
                next == opposite(self.last_move.side),
                idx <= total,
                result@.len() == empty_indices(self.board@.take(idx as int)).len(),
                forall|m: int| 0 <= m < result@.len() ==> self.child_at(
                    empty_indices(self.board@.take(idx as int))[m],
                    #[trigger] result@[m],
                ),
            decreases total - idx,
        {
            let ghost pre = empty_indices(self.board@.take(idx as int));
            proof {
                assert(self.board@.take(idx as int + 1).drop_last() =~= self.board@.take(
                    idx as int,
                ));
                assert(self.board@.take(idx as int + 1).last() == self.board@[idx as int]);
            }
            let cell = self.board.cells()[idx];
            if cell == Cell::Empty {
                let coords = self.board.get_coords(idx);
                let mut nb = self.board.duplicate();
                let placed = nb.set_cell(coords.row, coords.col, next);
                proof {
                    assert(placed);
                }
                let child = T3GameState {
                    board: nb,
                    last_move: BoardMove { coords, side: next },
                };
                result.push(child);
                proof {
                    assert(self.child_at(idx as int, child));
                    assert(empty_indices(self.board@.take(idx as int + 1)) == pre.push(
                        idx as int,
                    ));
                }
            }
            idx = idx + 1;
        }
        proof {
            assert(self.board@.take(total as int) =~= self.board@);
        }
        result
    }

    proof fn lemma_child_wf(&self, k: int, c: Self) {
        lemma_empty_indices_in_range(self.board@);
        let idx = empty_indices(self.board@)[k];
        let w = self.board.spec_width() as int;
        let h = self.board.spec_height() as int;
        assert(0 <= idx / w < h && 0 <= idx % w < w) by (nonlinear_arith)
            requires
                0 <= idx < w * h,
                1 <= w,
                1 <= h,
        ;
    }

    fn position_value(&self) -> (v: i32) {
        match self.board.line_winner(&self.last_move.coords, 3) {
            Cell::X => X_WIN_VALUE,
            Cell::O => -X_WIN_VALUE,
            Cell::Empty => 0,
        }
    }

    fn side(&self) -> (s: Cell) {
        self.last_move.side
    }

    fn last_move(&self) -> (m: BoardMove) {
        self.last_move
    }
}

impl Default for T3GameState {
    /// The fresh 3x3 starting position.
    fn default() -> (s: Self)
        ensures
            s.wf(),
            <T3GameState as GameState>::spec_is_initial(s),
    {
        <T3GameState as GameState>::initial()
    }
}

} // verus!
