use vstd::prelude::*;

use crate::adjacency::{in_exclusion_zone, is_adjacent_cell};
use crate::board::{
    lemma_cells_update_frame, lemma_sidx_bound, min3, Board,
};
use crate::counting::{count_cells, fn_is_bomb, fn_is_flagged, lemma_count_update};
use crate::rng::next_random;

verus! {

/// How many integers of `[0, i)` lie in the band `[lo, hi]`
/// (where `lo <= hi + 1`).
pub open spec fn band_before(lo: int, hi: int, i: int) -> int {
    if i <= lo {
        0
    } else if i <= hi + 1 {
        i - lo
    } else {
        hi - lo + 1
    }
}

/// Strict row-major order on (row, column) pairs.
pub open spec fn pair_lt(a: (i32, i32), b: (i32, i32)) -> bool {
    a.0 < b.0 || (a.0 == b.0 && a.1 < b.1)
}

impl Board {
    /// Distributes exactly `mine_count` mines over the grid, leaving the
    /// first-clicked cell and its 8 neighbours mine-free and putting at most
    /// one mine in a cell. The eligible cells are gathered and a random
    /// subset of the required size is picked by a partial shuffle; the
    /// board's validity bound guarantees enough eligible cells exist, so
    /// placement always terminates with the exact count. Runs once, on the
    /// first reveal of a pristine board.
    pub fn place_bombs(&mut self, first_x_coordinate: i32, first_y_coordinate: i32)
        requires
            old(self).wf_dims(),
            old(self).in_bounds(first_y_coordinate as int, first_x_coordinate as int),
            forall|r: int, c: int|
                old(self).in_bounds(r, c) ==> !(#[trigger] old(self).cell(r, c)).is_bomb,
        ensures
            final(self).wf_dims(),
            final(self).same_config(*old(self)),
            final(self).total_flags_left == old(self).total_flags_left,
            final(self).state == old(self).state,
            final(self).cells@.len() == old(self).cells@.len(),
            count_cells(final(self).cells@, fn_is_bomb()) == final(self).mine_count,
            forall|r: int, c: int|
                final(self).in_bounds(r, c) && in_exclusion_zone(
                    first_x_coordinate as int,
                    first_y_coordinate as int,
                    c,
                    r,
                ) ==> !(#[trigger] final(self).cell(r, c)).is_bomb,
            forall|r: int, c: int|
                old(self).in_bounds(r, c) ==> {
                    let oc = old(self).cell(r, c);
                    let nc = #[trigger] final(self).cell(r, c);
                    &&& nc.x_pos == oc.x_pos
                    &&& nc.y_pos == oc.y_pos
                    &&& nc.total_bomb == oc.total_bomb
                    &&& nc.revealed == oc.revealed
                    &&& nc.flaged == oc.flaged
                    &&& nc.bomb_triggered == oc.bomb_triggered
                },
    {
        let ghost orig = *self;
        let fx = first_x_coordinate;
        let fy = first_y_coordinate;
        let r_lo: i32 = if fy >= 1 {
            fy - 1
        } else {
            0
        };
        let r_hi: i32 = if fy + 1 <= self.row - 1 {
            fy + 1
        } else {
            self.row - 1
        };
        let c_lo: i32 = if fx >= 1 {
            fx - 1
        } else {
            0
        };
        let c_hi: i32 = if fx + 1 <= self.column - 1 {
            fx + 1
        } else {
            self.column - 1
        };
        let mut elig: Vec<(i32, i32)> = Vec::new();
        let mut i: i32 = 0;
        while i < self.row
            invariant
                *self == orig,
                orig.wf_dims(),
                0 <= fy < self.row,
                0 <= fx < self.column,
                r_lo as int == if fy >= 1 { fy as int - 1 } else { 0int },
                r_hi == if fy + 1 <= self.row - 1 { (fy + 1) as i32 } else { (self.row - 1) as i32 },
                c_lo as int == if fx >= 1 { fx as int - 1 } else { 0int },
                c_hi == if fx + 1 <= self.column - 1 { (fx + 1) as i32 } else { (self.column - 1) as i32 },
                0 <= i <= self.row,
                elig@.len() == i * self.column - band_before(r_lo as int, r_hi as int, i as int) * (
                c_hi - c_lo + 1),
                forall|k: int|
                    0 <= k < elig@.len() ==> {
                        let e = #[trigger] elig@[k];
                        &&& 0 <= e.0 < self.row
                        &&& 0 <= e.1 < self.column
                        &&& !in_exclusion_zone(fx as int, fy as int, e.1 as int, e.0 as int)
                        &&& e.0 < i
                    },
                forall|k1: int, k2: int|
                    0 <= k1 < k2 < elig@.len() ==> pair_lt(
                        #[trigger] elig@[k1],
                        #[trigger] elig@[k2],
                    ),
            decreases self.row - i,
        {
            let mut j: i32 = 0;
            let ghost len0 = elig@.len() as int;
            while j < self.column
                invariant
                    *self == orig,
                    orig.wf_dims(),
                    0 <= fy < self.row,
                    0 <= fx < self.column,
                    r_lo as int == if fy >= 1 { fy as int - 1 } else { 0int },
                    r_hi == if fy + 1 <= self.row - 1 { (fy + 1) as i32 } else { (self.row - 1) as i32 },
                    c_lo as int == if fx >= 1 { fx as int - 1 } else { 0int },
                    c_hi == if fx + 1 <= self.column - 1 { (fx + 1) as i32 } else { (self.column - 1) as i32 },
                    0 <= i < self.row,
                    0 <= j <= self.column,
                    len0 == i * self.column - band_before(r_lo as int, r_hi as int, i as int) * (
                    c_hi - c_lo + 1),
                    elig@.len() == len0 + j - (if r_lo <= i <= r_hi {
                        band_before(c_lo as int, c_hi as int, j as int)
                    } else {
                        0
                    }),
                    forall|k: int|
                        0 <= k < elig@.len() ==> {
                            let e = #[trigger] elig@[k];
                            &&& 0 <= e.0 < self.row
                            &&& 0 <= e.1 < self.column
                            &&& !in_exclusion_zone(fx as int, fy as int, e.1 as int, e.0 as int)
                            &&& (e.0 < i || (e.0 == i && e.1 < j))
                        },
                    forall|k1: int, k2: int|
                        0 <= k1 < k2 < elig@.len() ==> pair_lt(
                            #[trigger] elig@[k1],
                            #[trigger] elig@[k2],
                        ),
                decreases self.column - j,
            {
                let excluded = (j == fx && i == fy) || is_adjacent_cell(fx, fy, j, i);
                assert(excluded == in_exclusion_zone(fx as int, fy as int, j as int, i as int));
                if !excluded {
                    elig.push((i, j));
                }
                j = j + 1;
            }
            proof {
                assert((i + 1) * self.column == i * self.column + self.column) by (nonlinear_arith);
                let b0 = band_before(r_lo as int, r_hi as int, i as int);
                let b1 = band_before(r_lo as int, r_hi as int, i + 1 as int);
                assert(b1 == b0 + if r_lo <= i <= r_hi {
                    1int
                } else {
                    0int
                });
                assert((b0 + 1) * (c_hi - c_lo + 1) == b0 * (c_hi - c_lo + 1) + (c_hi - c_lo + 1))
                    by (nonlinear_arith);
            }
            i = i + 1;
        }
        proof {
            let n_r = r_hi - r_lo + 1;
            let n_c = c_hi - c_lo + 1;
            assert(band_before(r_lo as int, r_hi as int, self.row as int) == n_r);
            let m_r = min3(self.row as int);
            let m_c = min3(self.column as int);
            assert(n_r * n_c <= m_r * m_c) by (nonlinear_arith)
                requires
                    0 <= n_r <= m_r,
                    0 <= n_c <= m_c,
            ;
            assert(elig@.len() >= self.mine_count);
            assert forall|k1: int, k2: int|
                0 <= k1 < elig@.len() && 0 <= k2 < elig@.len() && k1 != k2 implies #[trigger] elig@[k1]
                != #[trigger] elig@[k2] by {
                if k1 < k2 {
                    assert(pair_lt(elig@[k1], elig@[k2]));
                } else {
                    assert(pair_lt(elig@[k2], elig@[k1]));
                }
            }
        }
        let target: usize = self.mine_count as usize;
        let ghost elig_len = elig@.len() as int;
        let mut k: usize = 0;
        while k < target
            invariant
                self.row == orig.row,
                self.column == orig.column,
                self.cell_size == orig.cell_size,
                self.mine_count == orig.mine_count,
                self.total_flags_left == orig.total_flags_left,
                self.state == orig.state,
                self.cells == orig.cells,
                orig.wf_dims(),
                0 <= fy < self.row,
                0 <= fx < self.column,
                target == self.mine_count,
                0 <= k <= target,
                elig@.len() == elig_len,
                target <= elig_len,
                forall|m: int|
                    0 <= m < elig@.len() ==> {
                        let e = #[trigger] elig@[m];
                        &&& 0 <= e.0 < self.row
                        &&& 0 <= e.1 < self.column
                        &&& !in_exclusion_zone(fx as int, fy as int, e.1 as int, e.0 as int)
                    },
                forall|m1: int, m2: int|
                    0 <= m1 < elig@.len() && 0 <= m2 < elig@.len() && m1 != m2 ==> #[trigger] elig@[m1]
                        != #[trigger] elig@[m2],
            decreases target - k,
        {
            self.rng = next_random(self.rng);
            let span = elig.len() - k;
            let off = (self.rng as usize) % span;
            let jdx = k + off;
            let ghost pre_elig = elig@;
            let a = elig[k];
            let b = elig[jdx];
            elig[k] = b;
            elig[jdx] = a;
            proof {
                assert(elig@ == pre_elig.update(k as int, b).update(jdx as int, a));
                assert forall|m1: int, m2: int|
                    0 <= m1 < elig@.len() && 0 <= m2 < elig@.len() && m1 != m2 implies #[trigger] elig@[m1]
                    != #[trigger] elig@[m2] by {
                    assert(elig@[m1] == if m1 == jdx as int {
                        pre_elig[k as int]
                    } else if m1 == k as int {
                        pre_elig[jdx as int]
                    } else {
                        pre_elig[m1]
                    });
                    assert(elig@[m2] == if m2 == jdx as int {
                        pre_elig[k as int]
                    } else if m2 == k as int {
                        pre_elig[jdx as int]
                    } else {
                        pre_elig[m2]
                    });
                }
            }
            k = k + 1;
        }
        proof {
            assert(self.cells@ == orig.cells@);
            assert forall|m: int|
                0 <= m < self.cells@.len() implies !crate::counting::fn_is_bomb()(
                #[trigger] self.cells@[m],
            ) by {
                crate::board::lemma_index_to_coords(orig, m);
            }
            crate::counting::lemma_count_zero(self.cells@, fn_is_bomb());
            assert forall|r: int, c: int| self.in_bounds(r, c) implies {
                let cell = #[trigger] self.cell(r, c);
                &&& cell.x_pos == c * self.cell_size
                &&& cell.y_pos == r * self.cell_size
                &&& 0 <= cell.total_bomb <= 8
            } by {
                assert(orig.in_bounds(r, c));
                assert(self.cell(r, c) == orig.cell(r, c));
            }
            assert(self.wf_dims());
            assert forall|m: int|
                0 <= m < target implies !(#[trigger] self.cell(
                elig@[m].0 as int,
                elig@[m].1 as int,
            )).is_bomb by {
                let e = elig@[m];
                lemma_sidx_bound(self.row as int, self.column as int, e.0 as int, e.1 as int);
                assert(!crate::counting::fn_is_bomb()(
                    self.cells@[self.sidx(e.0 as int, e.1 as int)],
                ));
            }
            assert forall|r: int, c: int| self.in_bounds(r, c) implies !(#[trigger] self.cell(
                r,
                c,
            )).is_bomb by {
                lemma_sidx_bound(self.row as int, self.column as int, r, c);
                assert(!crate::counting::fn_is_bomb()(self.cells@[self.sidx(r, c)]));
            }
        }
        let mut k2: usize = 0;
        while k2 < target
            invariant
                self.wf_dims(),
                self.row == orig.row,
                self.column == orig.column,
                self.cell_size == orig.cell_size,
                self.mine_count == orig.mine_count,
                self.total_flags_left == orig.total_flags_left,
                self.state == orig.state,
                self.cells@.len() == orig.cells@.len(),
                orig.wf_dims(),
                0 <= fy < self.row,
                0 <= fx < self.column,
                target == self.mine_count,
                0 <= k2 <= target,
                elig@.len() == elig_len,
                target <= elig_len,
                count_cells(self.cells@, fn_is_bomb()) == k2,
                forall|m: int|
                    0 <= m < elig@.len() ==> {
                        let e = #[trigger] elig@[m];
                        &&& 0 <= e.0 < self.row
                        &&& 0 <= e.1 < self.column
                        &&& !in_exclusion_zone(fx as int, fy as int, e.1 as int, e.0 as int)
                    },
                forall|m1: int, m2: int|
                    0 <= m1 < elig@.len() && 0 <= m2 < elig@.len() && m1 != m2 ==> #[trigger] elig@[m1]
                        != #[trigger] elig@[m2],
                forall|m: int|
                    k2 <= m < target ==> !(#[trigger] self.cell(
                        elig@[m].0 as int,
                        elig@[m].1 as int,
                    )).is_bomb,
                forall|r: int, c: int|
                    self.in_bounds(r, c) && in_exclusion_zone(fx as int, fy as int, c, r)
                        ==> !(#[trigger] self.cell(r, c)).is_bomb,
                forall|r: int, c: int|
                    orig.in_bounds(r, c) ==> {
                        let oc = orig.cell(r, c);
                        let nc = #[trigger] self.cell(r, c);
                        &&& nc.x_pos == oc.x_pos
                        &&& nc.y_pos == oc.y_pos
                        &&& nc.total_bomb == oc.total_bomb
                        &&& nc.revealed == oc.revealed
                        &&& nc.flaged == oc.flaged
                        &&& nc.bomb_triggered == oc.bomb_triggered
                    },
            decreases target - k2,
        {
            let e = elig[k2];
            let idx = self.flat_index(e.0, e.1);
            let mut cell = self.cells[idx];
            let ghost pre = *self;
            cell.is_bomb = true;
            self.cells[idx] = cell;
            proof {
                lemma_sidx_bound(pre.row as int, pre.column as int, e.0 as int, e.1 as int);
                lemma_cells_update_frame(pre, *self, e.0 as int, e.1 as int, cell);
                assert(pre.cells@[pre.sidx(e.0 as int, e.1 as int)] == pre.cell(
                    e.0 as int,
                    e.1 as int,
                ));
                assert(!pre.cell(elig@[k2 as int].0 as int, elig@[k2 as int].1 as int).is_bomb);
                lemma_count_update(
                    pre.cells@,
                    fn_is_bomb(),
                    pre.sidx(e.0 as int, e.1 as int),
                    cell,
                );
                lemma_count_update(
                    pre.cells@,
                    fn_is_flagged(),
                    pre.sidx(e.0 as int, e.1 as int),
                    cell,
                );
                assert(count_cells(self.cells@, fn_is_bomb()) == k2 + 1);
                assert forall|m: int|
                    k2 + 1 <= m < target implies !(#[trigger] self.cell(
                        elig@[m].0 as int,
                        elig@[m].1 as int,
                    )).is_bomb by {
                    assert(elig@[m] != elig@[k2 as int]);
                    assert(!(elig@[m].0 == e.0 && elig@[m].1 == e.1));
                }
            }
            k2 = k2 + 1;
        }
    }
}

} // verus!
