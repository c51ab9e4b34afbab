//! Game state of the drop-into-column (four-in-a-row) variant: tokens fall
//! to the lowest free row of a column, so each column offers at most one
//! legal move.

use vstd::prelude::*;

use crate::board::Board;
use crate::common::{opposite, other_side, BoardMove, Cell, Coords};
use crate::{value_of_winner, GameState, X_WIN_VALUE};

verus! {

/// The landing row of a token dropped into `col`, searching upward from row
/// `from`: the largest row index at or below `from` whose cell is empty.
pub open spec fn landing_row(b: Board, col: int, from: int) -> Option<int>
    decreases from + 1,
{
    if from < 0 {
        None
    } else if b.cell_at(from, col) == Cell::Empty {
        Some(from)
    } else {
        landing_row(b, col, from - 1)
    }
}

/// The landing row of a token dropped into `col` from the top of the board.
pub open spec fn col_landing(b: Board, col: int) -> Option<int> {
    landing_row(b, col, b.spec_height() - 1)
}

/// All columns of the board that still accept a token, in increasing order.
pub open spec fn playable_cols(b: Board, upto: int) -> Seq<int>
    decreases upto,
{
    if upto <= 0 {
        Seq::empty()
    } else {
        let rest = playable_cols(b, upto - 1);
        if col_landing(b, upto - 1) is Some {
            rest.push(upto - 1)
        } else {
            rest
        }
    }
}

/// A found landing row lies in range and is empty, with everything below
/// occupied.
pub proof fn lemma_landing_props(b: Board, col: int, from: int)
    ensures
        landing_row(b, col, from) matches Some(r) ==> {
            &&& 0 <= r <= from
            &&& b.cell_at(r, col) == Cell::Empty
            &&& forall|t: int| r < t <= from ==> b.cell_at(t, col) != Cell::Empty
        },
        landing_row(b, col, from) is None ==> forall|t: int|
            0 <= t <= from ==> b.cell_at(t, col) != Cell::Empty,
    decreases from + 1,
{
    if from >= 0 && b.cell_at(from, col) != Cell::Empty {
        lemma_landing_props(b, col, from - 1);
    }
}

/// The characterization of `landing_row` in the other direction: a row that
/// is empty with everything below occupied is the landing row.
pub proof fn lemma_landing_of(b: Board, col: int, from: int, r: int)
    requires
        0 <= r <= from,
        b.cell_at(r, col) == Cell::Empty,
        forall|t: int| r < t <= from ==> b.cell_at(t, col) != Cell::Empty,
    ensures
        landing_row(b, col, from) == Some(r),
    decreases from + 1,
{
    if from > r {
        lemma_landing_of(b, col, from - 1, r);
    }
}

/// A column without an empty cell has no landing row.
pub proof fn lemma_landing_none(b: Board, col: int, from: int)
    requires
        forall|t: int| 0 <= t <= from ==> b.cell_at(t, col) != Cell::Empty,
    ensures
        landing_row(b, col, from) is None,
    decreases from + 1,
{
    if from >= 0 {
        lemma_landing_none(b, col, from - 1);
    }
}

/// Every playable column lies in range and has a landing row.
pub proof fn lemma_playable_cols_in_range(b: Board, upto: int)
    ensures
        forall|k: int| 0 <= k < playable_cols(b, upto).len() ==> {
            &&& 0 <= #[trigger] playable_cols(b, upto)[k] < upto
            &&& col_landing(b, playable_cols(b, upto)[k]) is Some
        },
    decreases upto,
{
    if upto > 0 {
        lemma_playable_cols_in_range(b, upto - 1);
    }
}

/// One position of the four-in-a-row game: a board plus the move that
/// produced it.
#[derive(Debug)]
pub struct FiarGameState {
    pub board: Board,
    pub last_move: BoardMove,
}

impl FiarGameState {
    pub fn new(board: Board, last_move: BoardMove) -> (r: Self)
        ensures
            r == (FiarGameState { board, last_move }),
    {
        Self { board, last_move }
    }

    /// Exact shape of the child reached by dropping a token into `col`: the
    /// same board with the landing cell filled by the opposite side, which is
    /// also recorded as the last move.
    pub open spec fn child_at_col(self, col: int, c: FiarGameState) -> bool {
        let s = opposite(self.last_move.side);
        col_landing(self.board, col) matches Some(row) && {
            &&& c.board.spec_width() == self.board.spec_width()
            &&& c.board.spec_height() == self.board.spec_height()
            &&& c.board@ == self.board@.update(self.board.spec_index_of(row, col), s)
            &&& c.last_move == (BoardMove {
                coords: Coords { row: row as u32, col: col as u32 },
                side: s,
            })
        }
    }
}

impl GameState for FiarGameState {
    open spec fn wf(&self) -> bool {
        &&& self.board.wf()
        &&& self.board.spec_in_bounds(
            self.last_move.coords.row as int,
            self.last_move.coords.col as int,
        )
        &&& self.last_move.side != Cell::Empty
    }

    open spec fn spec_side(&self) -> Cell {
        self.last_move.side
    }

    open spec fn spec_last_move(&self) -> BoardMove {
        self.last_move
    }

    open spec fn spec_position_value(&self) -> i32 {
        value_of_winner(self.board.line_winner_spec(self.last_move.coords, 4))
    }

    open spec fn spec_num_children(&self) -> int {
        if self.spec_position_value() != 0 {
            0
        } else {
            playable_cols(self.board, self.board.spec_width() as int).len() as int
        }
    }

    open spec fn spec_child_ok(&self, k: int, c: Self) -> bool {
        self.child_at_col(playable_cols(self.board, self.board.spec_width() as int)[k], c)
    }

    open spec fn spec_is_initial(s: Self) -> bool {
        &&& s.board.spec_width() == 7
        &&& s.board.spec_height() == 6
        &&& s.board@.len() == 42
        &&& forall|i: int| 0 <= i < s.board@.len() ==> s.board@[i] == Cell::Empty
        &&& s.last_move == (BoardMove {
            coords: Coords { row: 0, col: 0 },
            // Play usually starts with X, so the "last" side was O.
            side: Cell::O,
        })
    }

    fn initial() -> (s: Self) {
        FiarGameState {
            board: Board::new(6, 7),
            last_move: BoardMove { coords: Coords { row: 0, col: 0 }, side: Cell::O },
        }
    }

    fn expand(&self) -> (r: Vec<FiarGameState>) {
        let mut result: Vec<FiarGameState> = Vec::new();
        if self.position_value() != 0 {
            return result;
        }
        let next = other_side(self.last_move.side);
        let width = self.board.width();
        let mut col: u32 = 0;
        while col < width
            invariant
                self.wf(),
                self.spec_position_value() == 0,
                width == self.board.spec_width(),
                next == opposite(self.last_move.side),
                col <= width,
                result@.len() == playable_cols(self.board, col as int).len(),
                forall|m: int| 0 <= m < result@.len() ==> self.child_at_col(
                    playable_cols(self.board, col as int)[m],
                    #[trigger] result@[m],
                ),
            decreases width - col,
        {
            let ghost pre = playable_cols(self.board, col as int);
            match self.board.first_empty_in_column(col) {
                Some(coords) => {
                    proof {
                        lemma_landing_of(
                            self.board,
                            col as int,
                            self.board.spec_height() - 1,
                            coords.row as int,
                        );
                    }
                    let mut nb = self.board.duplicate();
                    let placed = nb.set_cell(coords.row, coords.col, next);
                    proof {
                        assert(placed);
                    }
                    let child = FiarGameState {
                        board: nb,
                        last_move: BoardMove { coords, side: next },
                    };
                    result.push(child);
                    proof {
                        assert(self.child_at_col(col as int, child));
                        assert(playable_cols(self.board, col as int + 1) == pre.push(col as int));
                    }
                },
                None => {
                    proof {
                        if col_landing(self.board, col as int) is Some {
                            lemma_landing_props(
                                self.board,
                                col as int,
                                self.board.spec_height() - 1,
                            );
                            assert(false);
                        }
                        assert(playable_cols(self.board, col as int + 1) == pre);
                    }
                },
            }
            col = col + 1;
        }
        result
    }

    proof fn lemma_child_wf(&self, k: int, c: Self) {
        let w = self.board.spec_width() as int;
        lemma_playable_cols_in_range(self.board, w);
        let col = playable_cols(self.board, w)[k];
        lemma_landing_props(self.board, col, self.board.spec_height() - 1);
        let row = col_landing(self.board, col)->Some_0;
        self.board.lemma_index_in_range(row, col);
    }

    fn position_value(&self) -> (v: i32) {
        match self.board.line_winner(&self.last_move.coords, 4) {
            Cell::X => X_WIN_VALUE,
            Cell::O => -X_WIN_VALUE,
            Cell::Empty => 0,
        }
    }

    fn side(&self) -> (s: Cell) {
        self.last_move.side
    }

    fn last_move(&self) -> (m: BoardMove) {
        self.last_move
    }
}

impl Default for FiarGameState {
    /// The fresh 7-wide, 6-tall starting position.
    fn default() -> (s: Self)
        ensures
            s.wf(),
            <FiarGameState as GameState>::spec_is_initial(s),
    {
        <FiarGameState as GameState>::initial()
    }
}

} // verus!
