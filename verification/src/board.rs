//! Rectangular grid of cell markers with bounds checking and line-win
//! detection.

use vstd::prelude::*;

use crate::common::{Cell, Coords, DeltaCoords};

verus! {

/// A `width` x `height` grid of [`Cell`] markers stored row-major.
///
/// Invariant ([`Board::wf`]): the flat cell sequence always holds exactly
/// `width * height` entries and both dimensions are non-zero.
#[derive(Clone, Debug, PartialEq)]
pub struct Board {
    cells: Vec<Cell>,
    width: u32,
    height: u32,
}

impl View for Board {
    type V = Seq<Cell>;

    /// A board is abstracted as its row-major cell sequence.
    closed spec fn view(&self) -> Seq<Cell> {
        self.cells@
    }
}

impl Board {
    pub closed spec fn spec_width(self) -> u32 {
        self.width
    }

    pub closed spec fn spec_height(self) -> u32 {
        self.height
    }

    /// Well-formedness: non-zero dimensions and a fully allocated grid.
    pub open spec fn wf(self) -> bool {
        &&& self@.len() == self.spec_width() * self.spec_height()
        &&& 1 <= self.spec_width()
        &&& 1 <= self.spec_height()
    }

    /// Row-major flat index of a coordinate pair.
    pub open spec fn spec_index_of(self, row: int, col: int) -> int {
        row * self.spec_width() + col
    }

    /// The marker stored at a coordinate pair.
    pub open spec fn cell_at(self, row: int, col: int) -> Cell {
        self@[self.spec_index_of(row, col)]
    }

    /// Whether a coordinate pair lies on the board.
    pub open spec fn spec_in_bounds(self, row: int, col: int) -> bool {
        0 <= row < self.spec_height() && 0 <= col < self.spec_width()
    }

    /// A placement succeeds exactly on an in-bounds, currently empty cell.
    pub open spec fn spec_can_place(self, row: int, col: int) -> bool {
        self.spec_in_bounds(row, col) && self.cell_at(row, col) == Cell::Empty
    }

    /// Relates a board to the board after a successful placement: one cell
    /// changed to `mark`, everything else untouched.
    pub open spec fn placed(self, post: Board, row: int, col: int, mark: Cell) -> bool {
        &&& post.spec_width() == self.spec_width()
        &&& post.spec_height() == self.spec_height()
        &&& post@ == self@.update(self.spec_index_of(row, col), mark)
    }

    /// In-bounds coordinates map to a flat index inside the cell sequence.
    pub proof fn lemma_index_in_range(self, row: int, col: int)
        requires
            self.wf(),
            self.spec_in_bounds(row, col),
        ensures
            0 <= self.spec_index_of(row, col) < self@.len(),
    {
        let w = self.spec_width() as int;
        let h = self.spec_height() as int;
        assert(row * w + col < h * w) by (nonlinear_arith)
            requires
                0 <= row < h,
                0 <= col < w,
        ;
        assert(0 <= row * w) by (nonlinear_arith)
            requires
                0 <= row,
                0 <= w,
        ;
    }

    pub fn cells(&self) -> (r: &Vec<Cell>)
        ensures
            r@ == self@,
    {
        &self.cells
    }

    /// The stored marker, or an error on out-of-bounds coordinates.
    pub fn get_cell(&self, row: u32, col: u32) -> (r: Result<Cell, ()>)
        requires
            self.wf(),
        ensures
            self.spec_in_bounds(row as int, col as int) ==> r == Ok::<Cell, ()>(
                self.cell_at(row as int, col as int),
            ),
            !self.spec_in_bounds(row as int, col as int) ==> r == Err::<Cell, ()>(()),
    {
        if self.in_bounds(row, col) {
            proof {
                self.lemma_index_in_range(row as int, col as int);
            }
            Ok(self.cells[self.get_index(row, col)])
        } else {
            Err(())
        }
    }

    /// Replace the whole grid content; fails if the length does not match the
    /// board dimensions.
    pub fn set_state(&mut self, state: Vec<Cell>) -> (r: Result<(), ()>)
        ensures
            state@.len() == old(self).spec_width() * old(self).spec_height() ==> {
                &&& r == Ok::<(), ()>(())
                &&& final(self)@ == state@
            },
            state@.len() != old(self).spec_width() * old(self).spec_height() ==> {
                &&& r == Err::<(), ()>(())
                &&& *final(self) == *old(self)
            },
            final(self).spec_width() == old(self).spec_width(),
            final(self).spec_height() == old(self).spec_height(),
    {
        proof {
            let w = self.width as int;
            let h = self.height as int;
            assert(w * h <= 0xffff_ffff * 0xffff_ffff) by (nonlinear_arith)
                requires
                    0 <= w <= 0xffff_ffff,
                    0 <= h <= 0xffff_ffff,
            ;
        }
        let expected = (self.width as u64) * (self.height as u64);
        if state.len() as u64 != expected {
            return Err(());
        }
        self.cells = state;
        Ok(())
    }

    /// A fresh all-empty board; note that the height comes first.
    pub fn new(height: u32, width: u32) -> (r: Board)
        requires
            1 <= width,
            1 <= height,
            width * height <= u32::MAX,
        ensures
            r.wf(),
            r.spec_width() == width,
            r.spec_height() == height,
            forall|i: int| 0 <= i < r@.len() ==> r@[i] == Cell::Empty,
    {
        let total = width * height;
        let mut cells: Vec<Cell> = Vec::new();
        let mut i: u32 = 0;
        while i < total
            invariant
                i <= total,
                cells@.len() == i,
                forall|k: int| 0 <= k < i ==> cells@[k] == Cell::Empty,
            decreases total - i,
        {
            cells.push(Cell::Empty);
            i = i + 1;
        }
        Board { cells, width, height }
    }

    /// A verified copy of the board (the derived `Clone` carries no
    /// specification).
    pub fn duplicate(&self) -> (r: Board)
        ensures
            r@ == self@,
            r.spec_width() == self.spec_width(),
            r.spec_height() == self.spec_height(),
    {
        let len = self.cells.len();
        let mut cells: Vec<Cell> = Vec::new();
        let mut i: usize = 0;
        while i < len
            invariant
                i <= len,
                self.cells@.len() == len,
                cells@.len() == i,
                forall|k: int| 0 <= k < i ==> cells@[k] == self.cells@[k],
            decreases len - i,
        {
            cells.push(self.cells[i]);
            i = i + 1;
        }
        proof {
            assert(cells@ =~= self.cells@);
        }
        Board { cells, width: self.width, height: self.height }
    }

    pub fn width(&self) -> (r: u32)
        ensures
            r == self.spec_width(),
    {
        self.width
    }

    pub fn height(&self) -> (r: u32)
        ensures
            r == self.spec_height(),
    {
        self.height
    }

    /// Write `mark` at the coordinates; succeeds only on an in-bounds,
    /// currently empty cell, and otherwise leaves the board untouched.
    pub fn set_cell(&mut self, row: u32, col: u32, mark: Cell) -> (r: bool)
        requires
            old(self).wf(),
        ensures
            r == old(self).spec_can_place(row as int, col as int),
            r ==> old(self).placed(*final(self), row as int, col as int, mark),
            !r ==> *final(self) == *old(self),
            final(self).wf(),
            final(self).spec_width() == old(self).spec_width(),
            final(self).spec_height() == old(self).spec_height(),
    {
        if !self.in_bounds(row, col) {
            return false;
        }
        proof {
            self.lemma_index_in_range(row as int, col as int);
        }
        let cell_idx = self.get_index(row, col);
        if self.cells[cell_idx] != Cell::Empty {
            return false;
        }
        self.cells.set(cell_idx, mark);
        true
    }

    /// Flat row-major index of in-bounds coordinates.
    pub fn get_index(&self, row: u32, col: u32) -> (r: usize)
        requires
            self.wf(),
            self.spec_in_bounds(row as int, col as int),
        ensures
            r == self.spec_index_of(row as int, col as int),
    {
        // Reading the length ties the cell count to the machine's address
        // range, which bounds the flat index below.
        let grid_len: usize = self.cells.len();
        proof {
            self.lemma_index_in_range(row as int, col as int);
            assert(self.spec_index_of(row as int, col as int) < grid_len);
        }
        let idx = (row as u64) * (self.width as u64) + (col as u64);
        idx as usize
    }

    pub fn in_bounds(&self, row: u32, col: u32) -> (r: bool)
        ensures
            r == self.spec_in_bounds(row as int, col as int),
    {
        row < self.height && col < self.width
    }

    /// Coordinates of a flat row-major index.
    pub fn get_coords(&self, idx: usize) -> (r: Coords)
        requires
            self.wf(),
            idx < self.spec_width() * self.spec_height(),
        ensures
            r.row == idx as int / self.spec_width() as int,
            r.col == idx as int % self.spec_width() as int,
            self.spec_in_bounds(r.row as int, r.col as int),
            self.spec_index_of(r.row as int, r.col as int) == idx,
    {
        proof {
            let w = self.spec_width() as int;
            let h = self.spec_height() as int;
            let i = idx as int;
            assert(i / w < h && i / w >= 0 && 0 <= i % w < w && (i / w) * w + i % w == i)
                by (nonlinear_arith)
                requires
                    0 <= i < w * h,
                    1 <= w,
                    1 <= h,
            ;
        }
        let idx = idx as u64;
        Coords { row: (idx / self.width as u64) as u32, col: (idx % self.width as u64) as u32 }
    }

    /// Clear every cell back to empty; the dimensions stay unchanged.
    pub fn reset(&mut self)
        requires
            old(self).wf(),
        ensures
            final(self).wf(),
            final(self).spec_width() == old(self).spec_width(),
            final(self).spec_height() == old(self).spec_height(),
            final(self)@.len() == old(self)@.len(),
            forall|i: int| 0 <= i < final(self)@.len() ==> final(self)@[i] == Cell::Empty,
    {
        let len = self.cells.len();
        let mut i: usize = 0;
        while i < len
            invariant
                i <= len,
                self.cells@.len() == len,
                self.width == old(self).width,
                self.height == old(self).height,
                forall|k: int| 0 <= k < i ==> self.cells@[k] == Cell::Empty,
            decreases len - i,
        {
            self.cells.set(i, Cell::Empty);
            i = i + 1;
        }
    }
}

/// A step vector as used for line walking: one step down, up or neither,
/// combined with one step right or none, but never standing still.
pub open spec fn valid_delta(d: DeltaCoords) -> bool {
    &&& (d.row == -1 || d.row == 0 || d.row == 1)
    &&& (d.col == 0 || d.col == 1)
    &&& !(d.row == 0 && d.col == 0)
}

/// A requested run length, clamped to at least one cell.
pub open spec fn effective_run(n: int) -> int {
    if n < 1 {
        1
    } else {
        n
    }
}

/// `n` consecutive equal, non-empty markers starting at position `i` of a
/// line.
pub open spec fn window_at(s: Seq<Cell>, n: int, i: int) -> bool {
    &&& 0 <= i
    &&& i + n <= s.len()
    &&& s[i] != Cell::Empty
    &&& forall|j: int| 0 <= j < n ==> #[trigger] s[i + j] == s[i]
}

/// The marker of the earliest window of `n` equal non-empty cells at or after
/// position `i`, or empty if the line holds no such window.
pub open spec fn win_from(s: Seq<Cell>, n: int, i: int) -> Cell
    decreases s.len() - i,
{
    if n < 1 || i < 0 || i + n > s.len() {
        Cell::Empty
    } else if window_at(s, n, i) {
        s[i]
    } else {
        win_from(s, n, i + 1)
    }
}

/// The winner of one line: the marker of its earliest run of `n` equal
/// non-empty cells, or empty.
pub open spec fn seq_win(s: Seq<Cell>, n: int) -> Cell {
    win_from(s, n, 0)
}

proof fn lemma_win_from_found(s: Seq<Cell>, n: int, i: int, st: int)
    requires
        1 <= n,
        0 <= i <= st,
        window_at(s, n, st),
        forall|t: int| i <= t < st ==> !window_at(s, n, t),
    ensures
        win_from(s, n, i) == s[st],
    decreases st - i,
{
    if i < st {
        lemma_win_from_found(s, n, i + 1, st);
    }
}

proof fn lemma_win_from_none(s: Seq<Cell>, n: int, i: int)
    requires
        1 <= n,
        0 <= i,
        forall|t: int| i <= t ==> !window_at(s, n, t),
    ensures
        win_from(s, n, i) == Cell::Empty,
    decreases s.len() - i,
{
    if i + n <= s.len() {
        lemma_win_from_none(s, n, i + 1);
    }
}

impl Board {
    /// How many steps, starting at `(r0, c0)` and moving by `(dr, dc)`, stay
    /// on the board (for the step vectors of [`valid_delta`], with an
    /// in-bounds start).
    pub open spec fn dir_cap(self, r0: int, c0: int, dr: int, dc: int) -> int {
        let unlimited = self.spec_width() + self.spec_height();
        let row_cap = if dr == 1 {
            self.spec_height() - r0
        } else if dr == -1 {
            r0 + 1
        } else {
            unlimited
        };
        let col_cap = if dc == 1 {
            self.spec_width() - c0
        } else {
            unlimited
        };
        if row_cap <= col_cap {
            row_cap
        } else {
            col_cap
        }
    }

    /// The full line of cells starting at `(r0, c0)` along `(dr, dc)`.
    pub open spec fn line_at(self, r0: int, c0: int, dr: int, dc: int) -> Seq<Cell> {
        Seq::new(
            self.dir_cap(r0, c0, dr, dc) as nat,
            |k: int| self.cell_at(r0 + k * dr, c0 + k * dc),
        )
    }

    /// The winner found by scanning one line for a run of `n` markers.
    pub open spec fn scan_winner(self, r0: int, c0: int, dr: int, dc: int, n: int) -> Cell {
        seq_win(self.line_at(r0, c0, dr, dc), effective_run(n))
    }

    /// The winner on the four lines through `lm`: horizontal, vertical,
    /// diagonal-down and diagonal-up, in that order of precedence.
    pub open spec fn line_winner_spec(self, lm: Coords, n: int) -> Cell {
        let row = lm.row as int;
        let col = lm.col as int;
        let hw = self.scan_winner(row, 0, 0, 1, n);
        let vw = self.scan_winner(0, col, 1, 0, n);
        let d1 = if row <= col {
            row
        } else {
            col
        };
        let dw = self.scan_winner(row - d1, col - d1, 1, 1, n);
        let up = self.spec_height() - 1 - row;
        let d2 = if up <= col {
            up
        } else {
            col
        };
        let uw = self.scan_winner(row + d2, col - d2, -1, 1, n);
        if hw != Cell::Empty {
            hw
        } else if vw != Cell::Empty {
            vw
        } else if dw != Cell::Empty {
            dw
        } else {
            uw
        }
    }

    /// The marker at in-bounds coordinates.
    fn cell_value(&self, row: u32, col: u32) -> (r: Cell)
        requires
            self.wf(),
            self.spec_in_bounds(row as int, col as int),
        ensures
            r == self.cell_at(row as int, col as int),
    {
        proof {
            self.lemma_index_in_range(row as int, col as int);
        }
        let idx = self.get_index(row, col);
        self.cells[idx]
    }

    /// Determine the winner on the lines through `last_move`.
    ///
    /// Checking only the four lines through the move just played is sound
    /// under the callers' invariant that the board is evaluated after every
    /// single move, so no undetected winning line can exist elsewhere.
    pub fn line_winner(&self, last_move: &Coords, num_winner: i32) -> (r: Cell)
        requires
            self.wf(),
            self.spec_in_bounds(last_move.row as int, last_move.col as int),
        ensures
            r == self.line_winner_spec(*last_move, num_winner as int),
    {
        // Start of the diagonal-down line: walk back up-left to an edge.
        let diag_down_min_dist = if last_move.row <= last_move.col {
            last_move.row
        } else {
            last_move.col
        };
        let diag_down_start = Coords {
            row: last_move.row - diag_down_min_dist,
            col: last_move.col - diag_down_min_dist,
        };

        // Start of the diagonal-up line: walk back down-left to an edge.
        let up = self.height - 1 - last_move.row;
        let diag_up_min_dist = if up <= last_move.col {
            up
        } else {
            last_move.col
        };
        let diag_up_start = Coords {
            row: last_move.row + diag_up_min_dist,
            col: last_move.col - diag_up_min_dist,
        };

        let hw = side_with_min_equal(
            self,
            &Coords { row: last_move.row, col: 0 },
            &DeltaCoords { row: 0, col: 1 },
            num_winner,
        );
        if hw != Cell::Empty {
            return hw;
        }
        let vw = side_with_min_equal(
            self,
            &Coords { row: 0, col: last_move.col },
            &DeltaCoords { row: 1, col: 0 },
            num_winner,
        );
        if vw != Cell::Empty {
            return vw;
        }
        let dw = side_with_min_equal(self, &diag_down_start, &DeltaCoords { row: 1, col: 1 }, num_winner);
        if dw != Cell::Empty {
            return dw;
        }
        side_with_min_equal(self, &diag_up_start, &DeltaCoords { row: -1, col: 1 }, num_winner)
    }

    /// The lowest (bottom-most) unoccupied row of a column, or nothing when
    /// the column is full or does not exist.
    pub fn first_empty_in_column(&self, col: u32) -> (r: Option<Coords>)
        requires
            self.wf(),
        ensures
            match r {
                Some(c) => {
                    &&& c.col == col
                    &&& self.spec_in_bounds(c.row as int, col as int)
                    &&& self.cell_at(c.row as int, col as int) == Cell::Empty
                    &&& forall|t: int| c.row < t < self.spec_height() ==> self.cell_at(
                        t,
                        col as int,
                    ) != Cell::Empty
                },
                None => col < self.spec_width() ==> forall|t: int|
                    0 <= t < self.spec_height() ==> self.cell_at(t, col as int) != Cell::Empty,
            },
            col >= self.spec_width() ==> r is None,
    {
        if col >= self.width {
            return None;
        }
        let mut row = self.height;
        while row > 0
            invariant
                self.wf(),
                col < self.spec_width(),
                row <= self.spec_height(),
                forall|t: int| row <= t < self.spec_height() ==> self.cell_at(t, col as int)
                    != Cell::Empty,
            decreases row,
        {
            row = row - 1;
            if self.cell_value(row, col) == Cell::Empty {
                return Some(Coords { row, col });
            }
        }
        None
    }
}

/// Scan one line for the first run of `num_winner` equal non-empty markers,
/// walking from `pos` along `d_pos` until the board edge.
fn side_with_min_equal(board: &Board, pos: &Coords, d_pos: &DeltaCoords, num_winner: i32) -> (r:
    Cell)
    requires
        board.wf(),
        board.spec_in_bounds(pos.row as int, pos.col as int),
        valid_delta(*d_pos),
    ensures
        r == board.scan_winner(
            pos.row as int,
            pos.col as int,
            d_pos.row as int,
            d_pos.col as int,
            num_winner as int,
        ),
{
    let ghost s = board.line_at(pos.row as int, pos.col as int, d_pos.row as int, d_pos.col as int);
    let n: u64 = if num_winner < 1 {
        1
    } else {
        num_winner as u64
    };
    let w: u64 = board.width() as u64;
    let h: u64 = board.height() as u64;
    let unlimited: u64 = w + h;
    let row_cap: u64 = if d_pos.row == 1 {
        h - pos.row as u64
    } else if d_pos.row == -1 {
        pos.row as u64 + 1
    } else {
        unlimited
    };
    let col_cap: u64 = if d_pos.col == 1 {
        w - pos.col as u64
    } else {
        unlimited
    };
    let steps: u64 = if row_cap <= col_cap {
        row_cap
    } else {
        col_cap
    };
    assert(steps == s.len());

    let mut cnt: u64 = 0;
    let mut marker = Cell::Empty;
    let mut j: u64 = 0;
    while j < steps
        invariant
            board.wf(),
            board.spec_in_bounds(pos.row as int, pos.col as int),
            valid_delta(*d_pos),
            1 <= n,
            n == effective_run(num_winner as int),
            s == board.line_at(
                pos.row as int,
                pos.col as int,
                d_pos.row as int,
                d_pos.col as int,
            ),
            steps == s.len(),
            steps <= board.spec_width() + board.spec_height(),
            0 <= j <= steps,
            forall|st: int| 0 <= st <= j - n ==> !window_at(s, n as int, st),
            j > 0 ==> marker == s[j - 1],
            j > 0 ==> 1 <= cnt <= j,
            j == 0 ==> cnt == 0,
            forall|t: int| j - cnt <= t < j ==> s[t] == marker,
            j > 0 ==> (cnt == j || s[j - cnt - 1] != marker),
            marker != Cell::Empty ==> cnt < n,
        decreases steps - j,
    {
        proof {
            let ji = j as int;
            let dri = d_pos.row as int;
            let dci = d_pos.col as int;
            assert(dri == 1 ==> ji * dri == ji) by (nonlinear_arith);
            assert(dri == -1 ==> ji * dri == -ji) by (nonlinear_arith);
            assert(dri == 0 ==> ji * dri == 0) by (nonlinear_arith);
            assert(dci == 1 ==> ji * dci == ji) by (nonlinear_arith);
            assert(dci == 0 ==> ji * dci == 0) by (nonlinear_arith);
        }
        let row_i: u32 = if d_pos.row == 1 {
            pos.row + (j as u32)
        } else if d_pos.row == -1 {
            pos.row - (j as u32)
        } else {
            pos.row
        };
        let col_i: u32 = if d_pos.col == 1 {
            pos.col + (j as u32)
        } else {
            pos.col
        };
        assert(row_i == pos.row + (j as int) * (d_pos.row as int));
        assert(col_i == pos.col + (j as int) * (d_pos.col as int));
        assert(board.spec_in_bounds(row_i as int, col_i as int));
        let cur = board.cell_value(row_i, col_i);
        assert(cur == s[j as int]);
        if cur == marker {
            cnt = cnt + 1;
        } else {
            marker = cur;
            cnt = 1;
        }
        j = j + 1;
        if cnt >= n && marker != Cell::Empty {
            proof {
                let ni = n as int;
                let st = j - ni;
                assert(forall|t: int| j - cnt <= t < j ==> s[t] == marker);
                assert(window_at(s, ni, st));
                lemma_win_from_found(s, ni, 0, st);
            }
            return marker;
        }
        proof {
            let ni = n as int;
            let st0 = j - ni;
            if 0 <= st0 && window_at(s, ni, st0) {
                // A fresh window ending at the cell just scanned would mean
                // the current run already reached the requested length.
                assert(s[j - 1] == s[st0 + (ni - 1)]);
                assert(s[j - 1] == s[st0]);
                assert(marker == s[st0]);
                if cnt < j {
                    assert(st0 <= j - cnt - 1 < j);
                    let off = j - cnt - 1 - st0;
                    assert(s[st0 + off] == s[st0]);
                    assert(s[j - cnt - 1] == s[st0]);
                    assert(false);
                } else {
                    assert(false);
                }
            }
        }
    }
    proof {
        assert(forall|t: int| 0 <= t ==> !window_at(s, n as int, t));
        lemma_win_from_none(s, n as int, 0);
    }
    Cell::Empty
}

/// A placed marker can be read back, and the same coordinate can never be
/// placed a second time (the second attempt fails and, by the contract of
/// `set_cell`, leaves the board unchanged).
pub proof fn lemma_set_cell_once(b: Board, placed_board: Board, row: u32, col: u32, mark: Cell)
    requires
        b.wf(),
        b.spec_can_place(row as int, col as int),
        b.placed(placed_board, row as int, col as int, mark),
        mark != Cell::Empty,
    ensures
        placed_board.wf(),
        placed_board.cell_at(row as int, col as int) == mark,
        !placed_board.spec_can_place(row as int, col as int),
{
    b.lemma_index_in_range(row as int, col as int);
}

/// A reset board is equal, cell for cell and in its dimensions, to a freshly
/// constructed board of the same size: both hold nothing but empty cells.
pub proof fn lemma_reset_equals_new(after_reset: Board, fresh: Board)
    requires
        after_reset.spec_width() == fresh.spec_width(),
        after_reset.spec_height() == fresh.spec_height(),
        after_reset@.len() == after_reset.spec_width() * after_reset.spec_height(),
        fresh@.len() == fresh.spec_width() * fresh.spec_height(),
        forall|i: int| 0 <= i < after_reset@.len() ==> after_reset@[i] == Cell::Empty,
        forall|i: int| 0 <= i < fresh@.len() ==> fresh@[i] == Cell::Empty,
    ensures
        after_reset@ == fresh@,
{
    assert(after_reset@ =~= fresh@);
}

} // verus!
