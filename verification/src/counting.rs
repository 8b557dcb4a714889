use vstd::prelude::*;
use crate::board::Board;
use crate::board::lemma_cells_update_frame;
use crate::cell::Cell;

verus! {

/// 1 for true, 0 for false; the unit of every cell count in this crate.
pub open spec fn b2i(b: bool) -> int {
    if b {
        1
    } else {
        0
    }
}

/// How many cells of `s` satisfy `f`.
pub open spec fn count_cells(s: Seq<Cell>, f: spec_fn(Cell) -> bool) -> int
    decreases s.len(),
{
    if s.len() == 0 {
        0
    } else {
        count_cells(s.drop_last(), f) + b2i(f(s.last()))
    }
}

/// The predicates the board's invariants count.
pub open spec fn fn_is_bomb() -> spec_fn(Cell) -> bool {
    |c: Cell| c.is_bomb
}

pub open spec fn fn_is_flagged() -> spec_fn(Cell) -> bool {
    |c: Cell| c.flaged
}

pub open spec fn fn_is_hidden() -> spec_fn(Cell) -> bool {
    |c: Cell| !c.revealed
}

pub open spec fn fn_is_triggered() -> spec_fn(Cell) -> bool {
    |c: Cell| c.bomb_triggered
}

/// A count is never negative and never exceeds the length.
pub proof fn lemma_count_bounds(s: Seq<Cell>, f: spec_fn(Cell) -> bool)
    ensures
        0 <= count_cells(s, f) <= s.len(),
    decreases s.len(),
{
    if s.len() > 0 {
        lemma_count_bounds(s.drop_last(), f);
    }
}

/// Replacing one cell changes the count by exactly the difference the two
/// cells contribute.
pub proof fn lemma_count_update(s: Seq<Cell>, f: spec_fn(Cell) -> bool, i: int, c: Cell)
    requires
        0 <= i < s.len(),
    ensures
        count_cells(s.update(i, c), f) == count_cells(s, f) - b2i(f(s[i])) + b2i(f(c)),
    decreases s.len(),
{
    let t = s.update(i, c);
    assert(t.len() == s.len());
    if i == s.len() - 1 {
        assert(t.drop_last() =~= s.drop_last());
        assert(t.last() == c);
    } else {
        assert(t.drop_last() =~= s.drop_last().update(i, c));
        assert(t.last() == s.last());
        lemma_count_update(s.drop_last(), f, i, c);
    }
}

/// If no cell satisfies the predicate, the count is zero.
pub proof fn lemma_count_zero(s: Seq<Cell>, f: spec_fn(Cell) -> bool)
    requires
        forall|i: int| 0 <= i < s.len() ==> !f(#[trigger] s[i]),
    ensures
        count_cells(s, f) == 0,
    decreases s.len(),
{
    if s.len() > 0 {
        assert(forall|i: int|
            0 <= i < s.drop_last().len() ==> #[trigger] s.drop_last()[i] == s[i]);
        lemma_count_zero(s.drop_last(), f);
    }
}

/// If a cell satisfying the predicate exists, the count is positive.
pub proof fn lemma_count_positive(s: Seq<Cell>, f: spec_fn(Cell) -> bool, i: int)
    requires
        0 <= i < s.len(),
        f(s[i]),
    ensures
        count_cells(s, f) >= 1,
    decreases s.len(),
{
    lemma_count_bounds(s.drop_last(), f);
    if i < s.len() - 1 {
        lemma_count_positive(s.drop_last(), f, i);
    }
}

/// Two grids whose cells satisfy `f` in the same places have the same count.
pub proof fn lemma_count_pointwise(s: Seq<Cell>, t: Seq<Cell>, f: spec_fn(Cell) -> bool)
    requires
        s.len() == t.len(),
        forall|i: int| 0 <= i < s.len() ==> f(#[trigger] s[i]) == f(t[i]),
    ensures
        count_cells(s, f) == count_cells(t, f),
    decreases s.len(),
{
    if s.len() > 0 {
        assert(forall|i: int|
            0 <= i < s.drop_last().len() ==> #[trigger] s.drop_last()[i] == s[i]);
        assert(forall|i: int|
            0 <= i < t.drop_last().len() ==> #[trigger] t.drop_last()[i] == t[i]);
        lemma_count_pointwise(s.drop_last(), t.drop_last(), f);
    }
}

/// Board-level form of `lemma_count_pointwise`: two boards of the same
/// dimensions whose cells satisfy `f` in the same positions have the same
/// count.
pub proof fn lemma_count_boards_pointwise(a: Board, b: Board, f: spec_fn(Cell) -> bool)
    requires
        1 <= a.column,
        a.row == b.row,
        a.column == b.column,
        a.cells@.len() == a.row * a.column,
        b.cells@.len() == a.cells@.len(),
        forall|r: int, c: int| a.in_bounds(r, c) ==> f(#[trigger] a.cell(r, c)) == f(b.cell(r, c)),
    ensures
        count_cells(a.cells@, f) == count_cells(b.cells@, f),
{
    assert forall|i: int| 0 <= i < a.cells@.len() implies f(#[trigger] a.cells@[i]) == f(
        b.cells@[i],
    ) by {
        crate::board::lemma_index_to_coords(a, i);
        crate::board::lemma_index_to_coords(b, i);
    }
    lemma_count_pointwise(a.cells@, b.cells@, f);
}

impl Board {
    /// 1 if the position (`i`, `j`) is on the grid and holds a mine, else 0.
    fn neighbor_bomb(&self, i: i32, j: i32) -> (r: i32)
        requires
            self.wf_dims(),
        ensures
            r == b2i(self.spec_bomb_at(i as int, j as int)),
    {
        if i < 0 || j < 0 || i >= self.row || j >= self.column {
            0
        } else {
            let idx = self.flat_index(i, j);
            if self.cells[idx].is_bomb {
                1
            } else {
                0
            }
        }
    }

    /// The hint value for the position (`i`, `j`): 0 off the grid, the
    /// sentinel 1 for a mine, otherwise the number of mines among the 8
    /// neighbours (off-grid neighbours count 0).
    pub fn bomb_near_cell(&self, i: i32, j: i32) -> (r: i32)
        requires
            self.wf_dims(),
        ensures
            r == if !self.in_bounds(i as int, j as int) {
                0int
            } else if self.cell(i as int, j as int).is_bomb {
                1int
            } else {
                self.spec_adjacent_bombs(i as int, j as int)
            },
    {
        proof {
            reveal(Board::spec_adjacent_bombs);
        }
        if i < 0 || j < 0 || i >= self.row || j >= self.column {
            return 0;
        }
        let idx = self.flat_index(i, j);
        if self.cells[idx].is_bomb {
            return 1;
        }
        let mut count: i32 = 0;
        count = count + self.neighbor_bomb(i - 1, j - 1);
        count = count + self.neighbor_bomb(i - 1, j);
        count = count + self.neighbor_bomb(i - 1, j + 1);
        count = count + self.neighbor_bomb(i, j - 1);
        count = count + self.neighbor_bomb(i, j + 1);
        count = count + self.neighbor_bomb(i + 1, j - 1);
        count = count + self.neighbor_bomb(i + 1, j);
        count = count + self.neighbor_bomb(i + 1, j + 1);
        count
    }

    /// Fills every cell's hint field. Run once, after placement and before
    /// the first cascade; mine positions are frozen from then on, so the
    /// hints never need recomputing.
    pub fn calculate_total_bomb(&mut self)
        requires
            old(self).wf_dims(),
        ensures
            final(self).wf_dims(),
            final(self).same_config(*old(self)),
            final(self).total_flags_left == old(self).total_flags_left,
            final(self).state == old(self).state,
            final(self).rng == old(self).rng,
            final(self).cells@.len() == old(self).cells@.len(),
            final(self).counts_ok(),
            forall|r: int, c: int|
                old(self).in_bounds(r, c) ==> {
                    let oc = old(self).cell(r, c);
                    let nc = #[trigger] final(self).cell(r, c);
                    &&& nc.x_pos == oc.x_pos
                    &&& nc.y_pos == oc.y_pos
                    &&& nc.is_bomb == oc.is_bomb
                    &&& nc.revealed == oc.revealed
                    &&& nc.flaged == oc.flaged
                    &&& nc.bomb_triggered == oc.bomb_triggered
                },
    {
        let ghost orig = *self;
        let mut i: i32 = 0;
        while i < self.row
            invariant
                0 <= i <= self.row,
                self.wf_dims(),
                self.row == orig.row,
                self.column == orig.column,
                self.cell_size == orig.cell_size,
                self.mine_count == orig.mine_count,
                self.total_flags_left == orig.total_flags_left,
                self.state == orig.state,
                self.rng == orig.rng,
                self.cells@.len() == orig.cells@.len(),
                orig.wf_dims(),
                forall|r: int, c: int|
                    orig.in_bounds(r, c) ==> {
                        let oc = orig.cell(r, c);
                        let nc = #[trigger] self.cell(r, c);
                        &&& nc.x_pos == oc.x_pos
                        &&& nc.y_pos == oc.y_pos
                        &&& nc.is_bomb == oc.is_bomb
                        &&& nc.revealed == oc.revealed
                        &&& nc.flaged == oc.flaged
                        &&& nc.bomb_triggered == oc.bomb_triggered
                    },
                forall|r: int, c: int|
                    0 <= r < i && 0 <= c < self.column ==> (#[trigger] self.cell(r, c)).total_bomb
                        == if self.cell(r, c).is_bomb {
                        1int
                    } else {
                        self.spec_adjacent_bombs(r, c)
                    },
            decreases self.row - i,
        {
            let mut j: i32 = 0;
            while j < self.column
                invariant
                    0 <= i < self.row,
                    0 <= j <= self.column,
                    self.wf_dims(),
                    self.row == orig.row,
                    self.column == orig.column,
                    self.cell_size == orig.cell_size,
                    self.mine_count == orig.mine_count,
                    self.total_flags_left == orig.total_flags_left,
                    self.state == orig.state,
                    self.rng == orig.rng,
                    self.cells@.len() == orig.cells@.len(),
                    orig.wf_dims(),
                    forall|r: int, c: int|
                        orig.in_bounds(r, c) ==> {
                            let oc = orig.cell(r, c);
                            let nc = #[trigger] self.cell(r, c);
                            &&& nc.x_pos == oc.x_pos
                            &&& nc.y_pos == oc.y_pos
                            &&& nc.is_bomb == oc.is_bomb
                            &&& nc.revealed == oc.revealed
                            &&& nc.flaged == oc.flaged
                            &&& nc.bomb_triggered == oc.bomb_triggered
                        },
                    forall|r: int, c: int|
                        0 <= r < i && 0 <= c < self.column ==> (#[trigger] self.cell(
                            r,
                            c,
                        )).total_bomb == if self.cell(r, c).is_bomb {
                            1int
                        } else {
                            self.spec_adjacent_bombs(r, c)
                        },
                    forall|c: int|
                        0 <= c < j ==> (#[trigger] self.cell(i as int, c)).total_bomb
                            == if self.cell(i as int, c).is_bomb {
                            1int
                        } else {
                            self.spec_adjacent_bombs(i as int, c)
                        },
                decreases self.column - j,
            {
                let v = self.bomb_near_cell(i, j);
                let idx = self.flat_index(i, j);
                let mut cell = self.cells[idx];
                let ghost pre = *self;
                cell.total_bomb = v;
                self.cells[idx] = cell;
                proof {
                    lemma_cells_update_frame(pre, *self, i as int, j as int, cell);
                    lemma_count_update(pre.cells@, fn_is_flagged(), pre.sidx(i as int, j as int),
                        cell);
                    crate::board::lemma_same_bombs_same_counts(pre, *self);
                    crate::board::lemma_adjacent_bombs_range(pre, i as int, j as int);
                }
                j = j + 1;
            }
            i = i + 1;
        }
    }
}

} // verus!
