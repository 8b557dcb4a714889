use vstd::prelude::*;

use crate::cell::Cell;
use crate::counting::{
    b2i, count_cells, fn_is_bomb, fn_is_flagged, fn_is_triggered, lemma_count_bounds,
    lemma_count_boards_pointwise, lemma_count_positive, lemma_count_update,
};
use crate::state::BoardState;

verus! {

/// Why a board could not be constructed.
#[derive(Clone, Copy, PartialEq, Eq, Structural, Debug)]
pub enum ConfigError {
    /// Rows, columns or cell size not positive, or the grid too large for
    /// the 32-bit coordinate space handed to the renderer.
    InvalidDimensions,
    /// More mines requested than cells that could ever hold one: placement
    /// must keep the first-clicked cell and its 8 neighbours free, so at
    /// most `rows * columns - min(3, rows) * min(3, columns)` mines fit.
    TooManyMines,
}

/// The board: sole owner of the grid, and the state machine that drives
/// mine placement, hint counting, reveals, flags and the win/loss decision.
///
/// The grid is stored as a flat row-major vector of `row * column` cells;
/// the cell in row `r`, column `c` sits at index `r * column + c`. The
/// fields are public so that the specification functions below, which every
/// public contract is stated over, can be read by callers; the intended
/// interface is the methods.
pub struct Board {
    pub row: i32,
    pub column: i32,
    pub cell_size: i32,
    pub cells: Vec<Cell>,
    /// The requested mine budget minus the number of currently flagged
    /// cells. Deliberately unclamped: it goes negative when the player
    /// flags more cells than the budget.
    pub total_flags_left: i32,
    /// The mine count requested at construction; exactly this many mines
    /// are placed on the first reveal.
    pub mine_count: i32,
    pub state: BoardState,
    /// State of the pseudo-random generator that drives placement.
    pub rng: u64,
}

/// `min(3, x)`: the widest a first click's exclusion zone can be in one
/// dimension of length `x`.
pub open spec fn min3(x: int) -> int {
    if x < 3 {
        x
    } else {
        3
    }
}

/// The dimensions a board can be built with.
pub open spec fn spec_dims_ok(row: int, column: int, cell_size: int) -> bool {
    &&& 1 <= row
    &&& 1 <= column
    &&& 1 <= cell_size
    &&& row * column <= i32::MAX as int
    &&& (row - 1) * cell_size <= i32::MAX as int
    &&& (column - 1) * cell_size <= i32::MAX as int
}

/// A mine count that placement can always satisfy: however the first click
/// falls, at least `mine_count` cells lie outside its exclusion zone.
pub open spec fn spec_mines_ok(row: int, column: int, mine_count: int) -> bool {
    &&& 0 <= mine_count
    &&& mine_count <= row * column - min3(row) * min3(column)
}

/// A flat row-major index stays inside the grid.
pub proof fn lemma_sidx_bound(row: int, column: int, r: int, c: int)
    requires
        0 <= r < row,
        0 <= c < column,
    ensures
        0 <= r * column + c < row * column,
{
    assert(0 <= r * column + c < row * column) by (nonlinear_arith)
        requires
            0 <= r < row,
            0 <= c < column,
    ;
}

/// Scanning row-major, an already scanned position has a smaller flat
/// index than the position being scanned.
pub proof fn lemma_sidx_lt(column: int, r1: int, c1: int, r2: int, c2: int)
    requires
        0 <= c1 < column,
        0 <= c2,
        r1 < r2 || (r1 == r2 && c1 < c2),
    ensures
        r1 * column + c1 < r2 * column + c2,
{
    assert(r1 * column + c1 < r2 * column + c2) by (nonlinear_arith)
        requires
            0 <= c1 < column,
            0 <= c2,
            r1 < r2 || (r1 == r2 && c1 < c2),
    ;
}

/// Distinct in-bounds positions have distinct flat indices.
pub proof fn lemma_sidx_injective(column: int, r1: int, c1: int, r2: int, c2: int)
    requires
        0 <= c1 < column,
        0 <= c2 < column,
        r1 * column + c1 == r2 * column + c2,
    ensures
        r1 == r2,
        c1 == c2,
{
    assert(r1 == r2 && c1 == c2) by (nonlinear_arith)
        requires
            0 <= c1 < column,
            0 <= c2 < column,
            r1 * column + c1 == r2 * column + c2,
    ;
}

impl Board {
    /// Flat index of the cell in row `r`, column `c`.
    pub open spec fn sidx(self, r: int, c: int) -> int {
        r * self.column + c
    }

    pub open spec fn in_bounds(self, r: int, c: int) -> bool {
        0 <= r < self.row && 0 <= c < self.column
    }

    /// The cell in row `r`, column `c`.
    pub open spec fn cell(self, r: int, c: int) -> Cell {
        self.cells@[self.sidx(r, c)]
    }

    /// There is a mine in row `r`, column `c` (false off the grid).
    pub open spec fn spec_bomb_at(self, r: int, c: int) -> bool {
        self.in_bounds(r, c) && self.cell(r, c).is_bomb
    }

    /// The number of mines among the 8 neighbours of row `r`, column `c`;
    /// off-grid neighbours contribute 0. Kept opaque so that reasoning
    /// about one cell's hint does not cascade across the whole grid.
    #[verifier::opaque]
    pub open spec fn spec_adjacent_bombs(self, r: int, c: int) -> int {
        b2i(self.spec_bomb_at(r - 1, c - 1)) + b2i(self.spec_bomb_at(r - 1, c)) + b2i(
            self.spec_bomb_at(r - 1, c + 1),
        ) + b2i(self.spec_bomb_at(r, c - 1)) + b2i(self.spec_bomb_at(r, c + 1)) + b2i(
            self.spec_bomb_at(r + 1, c - 1),
        ) + b2i(self.spec_bomb_at(r + 1, c)) + b2i(self.spec_bomb_at(r + 1, c + 1))
    }

    /// Every hint field holds its defined value: the neighbour mine count
    /// for a safe cell, the sentinel 1 for a mine.
    pub open spec fn counts_ok(self) -> bool {
        forall|r: int, c: int|
            self.in_bounds(r, c) ==> (#[trigger] self.cell(r, c)).total_bomb == if self.cell(
                r,
                c,
            ).is_bomb {
                1int
            } else {
                self.spec_adjacent_bombs(r, c)
            }
    }

    /// Every safe cell has been revealed: the winning condition.
    pub open spec fn all_safe_revealed(self) -> bool {
        forall|r: int, c: int|
            self.in_bounds(r, c) && !(#[trigger] self.cell(r, c)).is_bomb ==> self.cell(
                r,
                c,
            ).revealed
    }

    /// Every mine has been revealed: the loss disclosure.
    pub open spec fn all_bombs_revealed(self) -> bool {
        forall|r: int, c: int|
            self.in_bounds(r, c) && (#[trigger] self.cell(r, c)).is_bomb ==> self.cell(
                r,
                c,
            ).revealed
    }

    /// Structural well-formedness: dimensions, grid size, pixel positions,
    /// hint range, and the flag counter's accounting.
    pub open spec fn wf_dims(self) -> bool {
        &&& spec_dims_ok(self.row as int, self.column as int, self.cell_size as int)
        &&& spec_mines_ok(self.row as int, self.column as int, self.mine_count as int)
        &&& self.cells@.len() == self.row * self.column
        &&& forall|r: int, c: int|
            self.in_bounds(r, c) ==> {
                let cell = #[trigger] self.cell(r, c);
                &&& cell.x_pos == c * self.cell_size
                &&& cell.y_pos == r * self.cell_size
                &&& 0 <= cell.total_bomb <= 8
            }
        &&& self.total_flags_left == self.mine_count - count_cells(self.cells@, fn_is_flagged())
    }

    /// The invariants each phase of the game maintains.
    pub open spec fn wf_state(self) -> bool {
        &&& self.state == BoardState::Pristine ==> forall|r: int, c: int|
            self.in_bounds(r, c) ==> {
                let cell = #[trigger] self.cell(r, c);
                &&& !cell.is_bomb
                &&& !cell.revealed
                &&& !cell.bomb_triggered
                &&& cell.total_bomb == 0
            }
        &&& self.state != BoardState::Pristine ==> {
            &&& count_cells(self.cells@, fn_is_bomb()) == self.mine_count
            &&& self.counts_ok()
        }
        &&& !self.state.spec_decided() ==> forall|r: int, c: int|
            self.in_bounds(r, c) ==> {
                let cell = #[trigger] self.cell(r, c);
                &&& (cell.revealed ==> !cell.flaged)
                &&& !cell.bomb_triggered
            }
        &&& self.state == BoardState::Undecided ==> !self.all_safe_revealed()
        &&& self.state == BoardState::Won ==> {
            &&& self.all_safe_revealed()
            &&& forall|r: int, c: int|
                self.in_bounds(r, c) ==> {
                    let cell = #[trigger] self.cell(r, c);
                    &&& (cell.revealed ==> !cell.flaged)
                    &&& !cell.bomb_triggered
                }
        }
        &&& self.state == BoardState::Lost ==> {
            &&& self.all_bombs_revealed()
            &&& count_cells(self.cells@, fn_is_triggered()) == 1
            &&& forall|r: int, c: int|
                self.in_bounds(r, c) && (#[trigger] self.cell(r, c)).bomb_triggered ==> self.cell(
                    r,
                    c,
                ).is_bomb
        }
    }

    pub open spec fn wf(self) -> bool {
        self.wf_dims() && self.wf_state()
    }

    /// A reveal aimed at (`x`, `y`) that bounces off without any effect:
    /// off the grid, already revealed, or flagged. Coordinates are given as
    /// the host gives them: `x` the column, `y` the row.
    pub open spec fn reveal_blocked(self, x: int, y: int) -> bool {
        ||| !self.in_bounds(y, x)
        ||| self.cell(y, x).revealed
        ||| self.cell(y, x).flaged
    }

    /// A reveal aimed at (`x`, `y`) that steps on a mine.
    pub open spec fn spec_hit(self, x: int, y: int) -> bool {
        !self.reveal_blocked(x, y) && self.cell(y, x).is_bomb
    }

    /// The scalar configuration two boards share when one evolved from the
    /// other by play.
    pub open spec fn same_config(self, other: Board) -> bool {
        &&& self.row == other.row
        &&& self.column == other.column
        &&& self.cell_size == other.cell_size
        &&& self.mine_count == other.mine_count
    }
}

/// Every flat index names the cell of one in-bounds position.
pub proof fn lemma_index_to_coords(b: Board, k: int)
    requires
        1 <= b.column,
        b.cells@.len() == b.row * b.column,
        0 <= k < b.cells@.len(),
    ensures
        b.in_bounds(k / (b.column as int), k % (b.column as int)),
        b.cell(k / (b.column as int), k % (b.column as int)) == b.cells@[k],
        k == b.sidx(k / (b.column as int), k % (b.column as int)),
{
    let col = b.column as int;
    assert(0 <= k / col < b.row && 0 <= k % col < col && k == (k / col) * col + (k % col)) by (
    nonlinear_arith)
        requires
            0 < col,
            0 <= k < b.row * col,
    ;
}

/// After replacing the single cell at row `r0`, column `c0`, every other
/// position still holds its old cell.
pub proof fn lemma_cells_update_frame(pre: Board, post: Board, r0: int, c0: int, v: Cell)
    requires
        pre.wf_dims(),
        pre.in_bounds(r0, c0),
        post.row == pre.row,
        post.column == pre.column,
        post.cells@ == pre.cells@.update(pre.sidx(r0, c0), v),
    ensures
        post.cells@.len() == pre.cells@.len(),
        post.cell(r0, c0) == v,
        forall|r: int, c: int|
            post.in_bounds(r, c) && !(r == r0 && c == c0) ==> #[trigger] post.cell(r, c)
                == pre.cell(r, c),
{
    lemma_sidx_bound(pre.row as int, pre.column as int, r0, c0);
    assert forall|r: int, c: int|
        post.in_bounds(r, c) && !(r == r0 && c == c0) implies #[trigger] post.cell(r, c)
        == pre.cell(r, c) by {
        lemma_sidx_bound(pre.row as int, pre.column as int, r, c);
        if pre.sidx(r, c) == pre.sidx(r0, c0) {
            lemma_sidx_injective(pre.column as int, r, c, r0, c0);
        }
    }
}

/// A neighbour count is one of 0 through 8.
pub proof fn lemma_adjacent_bombs_range(b: Board, r: int, c: int)
    ensures
        0 <= b.spec_adjacent_bombs(r, c) <= 8,
{
    reveal(Board::spec_adjacent_bombs);
}

/// A change that leaves the grid and every counter alone (such as moving
/// the phase tag) keeps the structural invariants.
pub proof fn lemma_wf_dims_same_cells(a: Board, b: Board)
    requires
        a.wf_dims(),
        b.row == a.row,
        b.column == a.column,
        b.cell_size == a.cell_size,
        b.mine_count == a.mine_count,
        b.total_flags_left == a.total_flags_left,
        b.cells@ == a.cells@,
    ensures
        b.wf_dims(),
{
    assert forall|r: int, c: int| b.in_bounds(r, c) implies {
        let cell = #[trigger] b.cell(r, c);
        &&& cell.x_pos == c * b.cell_size
        &&& cell.y_pos == r * b.cell_size
        &&& 0 <= cell.total_bomb <= 8
    } by {
        assert(b.cell(r, c) == a.cell(r, c));
    }
}

/// Boards of the same dimensions that agree on where the mines are agree on
/// every neighbour count.
pub proof fn lemma_same_bombs_same_counts(a: Board, b: Board)
    requires
        a.row == b.row,
        a.column == b.column,
        forall|r: int, c: int|
            a.in_bounds(r, c) ==> (#[trigger] a.cell(r, c)).is_bomb == b.cell(r, c).is_bomb,
    ensures
        forall|r: int, c: int| #[trigger] b.spec_bomb_at(r, c) == a.spec_bomb_at(r, c),
        forall|r: int, c: int|
            #[trigger] b.spec_adjacent_bombs(r, c) == a.spec_adjacent_bombs(r, c),
{
    reveal(Board::spec_adjacent_bombs);
    assert forall|r: int, c: int| #[trigger] b.spec_bomb_at(r, c) == a.spec_bomb_at(r, c) by {
        if a.in_bounds(r, c) {
            assert(a.cell(r, c).is_bomb == b.cell(r, c).is_bomb);
        }
    }
    assert forall|r: int, c: int|
        #[trigger] b.spec_adjacent_bombs(r, c) == a.spec_adjacent_bombs(r, c) by {
        assert(b.spec_bomb_at(r - 1, c - 1) == a.spec_bomb_at(r - 1, c - 1));
        assert(b.spec_bomb_at(r - 1, c) == a.spec_bomb_at(r - 1, c));
        assert(b.spec_bomb_at(r - 1, c + 1) == a.spec_bomb_at(r - 1, c + 1));
        assert(b.spec_bomb_at(r, c - 1) == a.spec_bomb_at(r, c - 1));
        assert(b.spec_bomb_at(r, c + 1) == a.spec_bomb_at(r, c + 1));
        assert(b.spec_bomb_at(r + 1, c - 1) == a.spec_bomb_at(r + 1, c - 1));
        assert(b.spec_bomb_at(r + 1, c) == a.spec_bomb_at(r + 1, c));
        assert(b.spec_bomb_at(r + 1, c + 1) == a.spec_bomb_at(r + 1, c + 1));
    }
}

/// A change that touches neither mines nor hints keeps the hint invariant.
pub proof fn lemma_counts_ok_frame(pre: Board, post: Board)
    requires
        pre.counts_ok(),
        post.row == pre.row,
        post.column == pre.column,
        forall|r: int, c: int|
            pre.in_bounds(r, c) ==> {
                let oc = #[trigger] pre.cell(r, c);
                let nc = post.cell(r, c);
                &&& nc.is_bomb == oc.is_bomb
                &&& nc.total_bomb == oc.total_bomb
            },
    ensures
        post.counts_ok(),
{
    lemma_same_bombs_same_counts(pre, post);
    assert forall|r: int, c: int|
        post.in_bounds(r, c) implies (#[trigger] post.cell(r, c)).total_bomb == if post.cell(
        r,
        c,
    ).is_bomb {
        1int
    } else {
        post.spec_adjacent_bombs(r, c)
    } by {
        assert(pre.cell(r, c).total_bomb == if pre.cell(r, c).is_bomb {
            1int
        } else {
            pre.spec_adjacent_bombs(r, c)
        });
    }
}

impl Board {
    /// Flat index of the in-bounds position (`r`, `c`).
    pub(crate) fn flat_index(&self, r: i32, c: i32) -> (idx: usize)
        requires
            self.wf_dims(),
            self.in_bounds(r as int, c as int),
        ensures
            idx == self.sidx(r as int, c as int),
            idx < self.cells@.len(),
    {
        proof {
            lemma_sidx_bound(self.row as int, self.column as int, r as int, c as int);
        }
        (r as usize) * (self.column as usize) + (c as usize)
    }

    pub fn get_row(&self) -> (r: i32)
        ensures
            r == self.row,
    {
        self.row
    }

    pub fn get_column(&self) -> (r: i32)
        ensures
            r == self.column,
    {
        self.column
    }

    pub fn get_cell_size(&self) -> (r: i32)
        ensures
            r == self.cell_size,
    {
        self.cell_size
    }

    pub fn get_total_flags_left(&self) -> (r: i32)
        ensures
            r == self.total_flags_left,
    {
        self.total_flags_left
    }

    /// The state as the numeric code the host renders from:
    /// 0 = Pristine, 1 = Undecided, 2 = Won, 3 = Lost.
    pub fn get_state(&self) -> (r: u8)
        ensures
            r == self.state.spec_code(),
    {
        self.state.code()
    }

    /// One host move: toggle the flag on the cell at column `x_coordinate`,
    /// row `y_coordinate` (the coordinate must be on the grid; the caller
    /// bounds-checks). Flagging takes one unit of the flag budget and
    /// unflagging gives it back; the counter is deliberately unclamped and
    /// goes negative when more cells are flagged than the budget. A
    /// revealed cell, or any cell once the game is decided, is left alone.
    #[verifier::rlimit(100)]
    pub fn toggle_flag(&mut self, x_coordinate: usize, y_coordinate: usize)
        requires
            old(self).wf(),
            x_coordinate < old(self).column,
            y_coordinate < old(self).row,
        ensures
            final(self).wf(),
            old(self).state.spec_decided() || old(self).cell(
                y_coordinate as int,
                x_coordinate as int,
            ).revealed ==> *final(self) == *old(self),
            !old(self).state.spec_decided() && !old(self).cell(
                y_coordinate as int,
                x_coordinate as int,
            ).revealed ==> {
                let target = old(self).cell(y_coordinate as int, x_coordinate as int);
                &&& final(self).cells@ == old(self).cells@.update(
                    old(self).sidx(y_coordinate as int, x_coordinate as int),
                    (Cell { flaged: !target.flaged, ..target }),
                )
                &&& final(self).total_flags_left == old(self).total_flags_left + (if target.flaged {
                    1int
                } else {
                    -1int
                })
                &&& final(self).state == old(self).state
                &&& final(self).same_config(*old(self))
                &&& final(self).rng == old(self).rng
            },
    {
        let yi: i32 = y_coordinate as i32;
        let xi: i32 = x_coordinate as i32;
        let idx = self.flat_index(yi, xi);
        let cell = self.cells[idx];
        if cell.revealed || self.state.decided() {
            return;
        }
        let ghost pre = *self;
        proof {
            lemma_count_bounds(pre.cells@, fn_is_flagged());
        }
        let mut c2 = cell;
        if cell.flaged {
            proof {
                lemma_count_positive(
                    pre.cells@,
                    fn_is_flagged(),
                    pre.sidx(yi as int, xi as int),
                );
            }
            c2.flaged = false;
            self.cells[idx] = c2;
            self.total_flags_left = self.total_flags_left + 1;
        } else {
            c2.flaged = true;
            self.cells[idx] = c2;
            self.total_flags_left = self.total_flags_left - 1;
        }
        proof {
            assert(pre == *old(self));
            assert(cell == pre.cell(yi as int, xi as int));
            lemma_cells_update_frame(pre, *self, yi as int, xi as int, c2);
            lemma_count_update(pre.cells@, fn_is_flagged(), pre.sidx(yi as int, xi as int), c2);
            assert forall|r: int, c: int| self.in_bounds(r, c) implies {
                let nc = #[trigger] self.cell(r, c);
                &&& nc.x_pos == c * self.cell_size
                &&& nc.y_pos == r * self.cell_size
                &&& 0 <= nc.total_bomb <= 8
                &&& nc.is_bomb == pre.cell(r, c).is_bomb
                &&& nc.total_bomb == pre.cell(r, c).total_bomb
                &&& nc.revealed == pre.cell(r, c).revealed
                &&& nc.bomb_triggered == pre.cell(r, c).bomb_triggered
                &&& (nc.revealed ==> !nc.flaged)
            } by {
                if !(r == yi as int && c == xi as int) {
                    assert(self.cell(r, c) == pre.cell(r, c));
                }
            }
            if !(self.state == BoardState::Pristine) {
                lemma_count_boards_pointwise(pre, *self, fn_is_bomb());
                lemma_counts_ok_frame(pre, *self);
            }
            if self.state == BoardState::Undecided {
                assert(!pre.all_safe_revealed());
                if self.all_safe_revealed() {
                    assert forall|r: int, c: int|
                        pre.in_bounds(r, c) && !(#[trigger] pre.cell(r, c)).is_bomb implies pre.cell(
                        r,
                        c,
                    ).revealed by {
                        assert(self.cell(r, c).revealed == pre.cell(r, c).revealed);
                    }
                }
            }
        }
    }

    /// The flattened snapshot the renderer draws from: 7 integers per
    /// cell, row-major, in the fixed order `x_pos`, `y_pos`, mine flag,
    /// hint, revealed flag, player flag, triggered flag (booleans as 0
    /// or 1).
    pub fn flat_cells_details(&self) -> (details: Vec<i32>)
        requires
            self.wf_dims(),
        ensures
            details@.len() == self.row * self.column * 7,
            forall|r: int, c: int|
                self.in_bounds(r, c) ==> {
                    let base = 7 * (r * self.column + c);
                    let cell = #[trigger] self.cell(r, c);
                    &&& details@[base] == cell.x_pos
                    &&& details@[base + 1] == cell.y_pos
                    &&& details@[base + 2] == b2i(cell.is_bomb)
                    &&& details@[base + 3] == cell.total_bomb
                    &&& details@[base + 4] == b2i(cell.revealed)
                    &&& details@[base + 5] == b2i(cell.flaged)
                    &&& details@[base + 6] == b2i(cell.bomb_triggered)
                },
    {
        let mut details: Vec<i32> = Vec::new();
        let mut i: i32 = 0;
        while i < self.row
            invariant
                0 <= i <= self.row,
                self.wf_dims(),
                details@.len() == 7 * (i * self.column),
                forall|r: int, c: int|
                    0 <= r < i && 0 <= c < self.column ==> {
                        let base = 7 * (r * self.column + c);
                        let cell = #[trigger] self.cell(r, c);
                        &&& details@[base] == cell.x_pos
                        &&& details@[base + 1] == cell.y_pos
                        &&& details@[base + 2] == b2i(cell.is_bomb)
                        &&& details@[base + 3] == cell.total_bomb
                        &&& details@[base + 4] == b2i(cell.revealed)
                        &&& details@[base + 5] == b2i(cell.flaged)
                        &&& details@[base + 6] == b2i(cell.bomb_triggered)
                    },
            decreases self.row - i,
        {
            let mut j: i32 = 0;
            while j < self.column
                invariant
                    0 <= i < self.row,
                    0 <= j <= self.column,
                    self.wf_dims(),
                    details@.len() == 7 * (i * self.column + j),
                    forall|r: int, c: int|
                        0 <= r < i && 0 <= c < self.column ==> {
                            let base = 7 * (r * self.column + c);
                            let cell = #[trigger] self.cell(r, c);
                            &&& details@[base] == cell.x_pos
                            &&& details@[base + 1] == cell.y_pos
                            &&& details@[base + 2] == b2i(cell.is_bomb)
                            &&& details@[base + 3] == cell.total_bomb
                            &&& details@[base + 4] == b2i(cell.revealed)
                            &&& details@[base + 5] == b2i(cell.flaged)
                            &&& details@[base + 6] == b2i(cell.bomb_triggered)
                        },
                    forall|c: int|
                        0 <= c < j ==> {
                            let base = 7 * ((i as int) * self.column + c);
                            let cell = #[trigger] self.cell(i as int, c);
                            &&& details@[base] == cell.x_pos
                            &&& details@[base + 1] == cell.y_pos
                            &&& details@[base + 2] == b2i(cell.is_bomb)
                            &&& details@[base + 3] == cell.total_bomb
                            &&& details@[base + 4] == b2i(cell.revealed)
                            &&& details@[base + 5] == b2i(cell.flaged)
                            &&& details@[base + 6] == b2i(cell.bomb_triggered)
                        },
                decreases self.column - j,
            {
                let idx = self.flat_index(i, j);
                let cell = self.cells[idx];
                let ghost len0 = details@.len() as int;
                details.push(cell.x_pos);
                details.push(cell.y_pos);
                details.push(if cell.is_bomb {
                    1
                } else {
                    0
                });
                details.push(cell.total_bomb);
                details.push(if cell.revealed {
                    1
                } else {
                    0
                });
                details.push(if cell.flaged {
                    1
                } else {
                    0
                });
                details.push(if cell.bomb_triggered {
                    1
                } else {
                    0
                });
                proof {
                    assert(cell == self.cell(i as int, j as int));
                    assert forall|r: int, c: int|
                        (0 <= r < i && 0 <= c < self.column) || (r == i as int && 0 <= c < j
                            + 1) implies {
                        let base = 7 * (r * self.column + c);
                        let cell2 = #[trigger] self.cell(r, c);
                        &&& details@[base] == cell2.x_pos
                        &&& details@[base + 1] == cell2.y_pos
                        &&& details@[base + 2] == b2i(cell2.is_bomb)
                        &&& details@[base + 3] == cell2.total_bomb
                        &&& details@[base + 4] == b2i(cell2.revealed)
                        &&& details@[base + 5] == b2i(cell2.flaged)
                        &&& details@[base + 6] == b2i(cell2.bomb_triggered)
                    } by {
                        if r < i as int || (r == i as int && c < j as int) {
                            lemma_sidx_lt(self.column as int, r, c, i as int, j as int);
                        } else {
                            assert(7 * (r * self.column + c) == len0);
                        }
                    }
                }
                j = j + 1;
            }
            proof {
                assert((i + 1) * self.column == i * self.column + self.column) by (
                nonlinear_arith);
            }
            i = i + 1;
        }
        proof {
            assert(7 * (self.row * self.column) == self.row * self.column * 7) by (
            nonlinear_arith);
        }
        details
    }

    /// Builds a fresh board, or rejects a configuration that could not be
    /// played: placement keeps the first-clicked cell and its 8 neighbours
    /// mine-free, so the mine count must leave that many cells over
    /// whatever the first click turns out to be.
    pub fn new(row: i32, column: i32, cell_size: i32, total_bombs: i32) -> (result: Result<
        Board,
        ConfigError,
    >)
        ensures
            result is Ok <==> spec_dims_ok(row as int, column as int, cell_size as int)
                && spec_mines_ok(row as int, column as int, total_bombs as int),
            !spec_dims_ok(row as int, column as int, cell_size as int) ==> result == Err::<
                Board,
                ConfigError,
            >(ConfigError::InvalidDimensions),
            spec_dims_ok(row as int, column as int, cell_size as int) && !spec_mines_ok(
                row as int,
                column as int,
                total_bombs as int,
            ) ==> result == Err::<Board, ConfigError>(ConfigError::TooManyMines),
            result matches Ok(b) ==> {
                &&& b.wf()
                &&& b.state == BoardState::Pristine
                &&& b.row == row
                &&& b.column == column
                &&& b.cell_size == cell_size
                &&& b.mine_count == total_bombs
                &&& b.total_flags_left == total_bombs
                &&& forall|r: int, c: int|
                    b.in_bounds(r, c) ==> {
                        let cell = #[trigger] b.cell(r, c);
                        &&& cell.x_pos == c * cell_size
                        &&& cell.y_pos == r * cell_size
                        &&& !cell.is_bomb
                        &&& cell.total_bomb == 0
                        &&& !cell.revealed
                        &&& !cell.flaged
                        &&& !cell.bomb_triggered
                    }
            },
    {
        if row < 1 || column < 1 || cell_size < 1 {
            return Err(ConfigError::InvalidDimensions);
        }
        let r64: i64 = row as i64;
        let c64: i64 = column as i64;
        let s64: i64 = cell_size as i64;
        let max64: i64 = i32::MAX as i64;
        proof {
            assert(r64 * c64 <= 0x7fffffffi64 * 0x7fffffffi64 && r64 * c64 >= 1) by (
            nonlinear_arith)
                requires
                    1 <= r64 <= 0x7fffffffi64,
                    1 <= c64 <= 0x7fffffffi64,
            ;
            assert((r64 - 1) * s64 <= 0x7fffffffi64 * 0x7fffffffi64 && (r64 - 1) * s64 >= 0) by (
            nonlinear_arith)
                requires
                    1 <= r64 <= 0x7fffffffi64,
                    1 <= s64 <= 0x7fffffffi64,
            ;
            assert((c64 - 1) * s64 <= 0x7fffffffi64 * 0x7fffffffi64 && (c64 - 1) * s64 >= 0) by (
            nonlinear_arith)
                requires
                    1 <= c64 <= 0x7fffffffi64,
                    1 <= s64 <= 0x7fffffffi64,
            ;
        }
        if r64 * c64 > max64 || (r64 - 1) * s64 > max64 || (c64 - 1) * s64 > max64 {
            return Err(ConfigError::InvalidDimensions);
        }
        if total_bombs < 0 {
            return Err(ConfigError::TooManyMines);
        }
        let zr: i64 = if row < 3 {
            r64
        } else {
            3
        };
        let zc: i64 = if column < 3 {
            c64
        } else {
            3
        };
        if (total_bombs as i64) > r64 * c64 - zr * zc {
            return Err(ConfigError::TooManyMines);
        }
        let mut cells: Vec<Cell> = Vec::new();
        let mut i: i32 = 0;
        while i < row
            invariant
                0 <= i <= row,
                1 <= row,
                1 <= column,
                1 <= cell_size,
                row * column <= i32::MAX as int,
                (row - 1) * cell_size <= i32::MAX as int,
                (column - 1) * cell_size <= i32::MAX as int,
                cells@.len() == i * column,
                forall|r: int, c: int|
                    0 <= r < i && 0 <= c < column ==> {
                        let cell = #[trigger] cells@[r * column + c];
                        &&& cell.x_pos == c * cell_size
                        &&& cell.y_pos == r * cell_size
                        &&& !cell.is_bomb
                        &&& cell.total_bomb == 0
                        &&& !cell.revealed
                        &&& !cell.flaged
                        &&& !cell.bomb_triggered
                    },
            decreases row - i,
        {
            proof {
                assert(0 <= i * cell_size <= (row - 1) * cell_size) by (nonlinear_arith)
                    requires
                        0 <= i <= row - 1,
                        1 <= cell_size,
                ;
            }
            let y64: i64 = (i as i64) * (cell_size as i64);
            let y: i32 = y64 as i32;
            let mut j: i32 = 0;
            while j < column
                invariant
                    0 <= j <= column,
                    0 <= i < row,
                    1 <= row,
                    1 <= column,
                    1 <= cell_size,
                    row * column <= i32::MAX as int,
                    (row - 1) * cell_size <= i32::MAX as int,
                    (column - 1) * cell_size <= i32::MAX as int,
                    y == i * cell_size,
                    cells@.len() == i * column + j,
                    forall|r: int, c: int|
                        0 <= r < i && 0 <= c < column ==> {
                            let cell = #[trigger] cells@[r * column + c];
                            &&& cell.x_pos == c * cell_size
                            &&& cell.y_pos == r * cell_size
                            &&& !cell.is_bomb
                            &&& cell.total_bomb == 0
                            &&& !cell.revealed
                            &&& !cell.flaged
                            &&& !cell.bomb_triggered
                        },
                    forall|c: int|
                        0 <= c < j ==> {
                            let cell = #[trigger] cells@[i * column + c];
                            &&& cell.x_pos == c * cell_size
                            &&& cell.y_pos == i * cell_size
                            &&& !cell.is_bomb
                            &&& cell.total_bomb == 0
                            &&& !cell.revealed
                            &&& !cell.flaged
                            &&& !cell.bomb_triggered
                        },
                decreases column - j,
            {
                proof {
                    assert(0 <= j * cell_size <= (column - 1) * cell_size) by (nonlinear_arith)
                        requires
                            0 <= j <= column - 1,
                            1 <= cell_size,
                    ;
                    lemma_sidx_bound(row as int, column as int, i as int, j as int);
                }
                let x64: i64 = (j as i64) * (cell_size as i64);
                let x: i32 = x64 as i32;
                let ghost old_cells = cells@;
                cells.push(Cell::new(x, y, false));
                proof {
                    assert forall|r: int, c: int| 0 <= r < i && 0 <= c < column implies {
                        let cell = #[trigger] cells@[r * column + c];
                        &&& cell.x_pos == c * cell_size
                        &&& cell.y_pos == r * cell_size
                        &&& !cell.is_bomb
                        &&& cell.total_bomb == 0
                        &&& !cell.revealed
                        &&& !cell.flaged
                        &&& !cell.bomb_triggered
                    } by {
                        lemma_sidx_bound(i as int, column as int, r, c);
                        assert(cells@[r * column + c] == old_cells[r * column + c]);
                    }
                    assert forall|c: int| 0 <= c < j + 1 implies {
                        let cell = #[trigger] cells@[i * column + c];
                        &&& cell.x_pos == c * cell_size
                        &&& cell.y_pos == i * cell_size
                        &&& !cell.is_bomb
                        &&& cell.total_bomb == 0
                        &&& !cell.revealed
                        &&& !cell.flaged
                        &&& !cell.bomb_triggered
                    } by {
                        if c < j {
                            assert(cells@[i * column + c] == old_cells[i * column + c]);
                        } else {
                            assert(i * column + c == old_cells.len());
                        }
                    }
                }
                j = j + 1;
            }
            proof {
                assert((i + 1) * column == i * column + column) by (nonlinear_arith);
            }
            i = i + 1;
        }
        let board = Board {
            row,
            column,
            cell_size,
            cells,
            total_flags_left: total_bombs,
            mine_count: total_bombs,
            state: BoardState::Pristine,
            rng: 0x6d736e67u64,
        };
        proof {
            assert forall|r: int, c: int| board.in_bounds(r, c) implies {
                let cell = #[trigger] board.cell(r, c);
                &&& cell.x_pos == c * cell_size
                &&& cell.y_pos == r * cell_size
                &&& !cell.is_bomb
                &&& cell.total_bomb == 0
                &&& !cell.revealed
                &&& !cell.flaged
                &&& !cell.bomb_triggered
            } by {
                lemma_sidx_bound(row as int, column as int, r, c);
                assert(board.cell(r, c) == board.cells@[r * column + c]);
            }
            assert forall|k: int| 0 <= k < board.cells@.len() implies !fn_is_flagged()(
                #[trigger] board.cells@[k],
            ) by {
                lemma_index_to_coords(board, k);
            }
            crate::counting::lemma_count_zero(board.cells@, fn_is_flagged());
        }
        Ok(board)
    }
}

} // verus!
