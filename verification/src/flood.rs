use vstd::prelude::*;

use crate::adjacency::{in_exclusion_zone, spec_adjacent};
use crate::board::{
    lemma_cells_update_frame, lemma_counts_ok_frame, lemma_index_to_coords, lemma_sidx_bound,
    Board,
};
use crate::cell::Cell;
use crate::counting::{
    count_cells, fn_is_bomb, fn_is_flagged, fn_is_hidden, fn_is_triggered,
    lemma_count_boards_pointwise, lemma_count_update, lemma_count_zero,
};
use crate::state::BoardState;

verus! {

/// The cell in row `r`, column `c` is revealed in `post` but was not in
/// `pre`: the cascade under way disclosed it.
pub open spec fn newly_revealed(pre: Board, post: Board, r: int, c: int) -> bool {
    post.cell(r, c).revealed && !pre.cell(r, c).revealed
}

/// (`r`, `c`) is a zero-hint cell that the cascade has revealed: a cell
/// whose whole neighbourhood the cascade must disclose in turn.
pub open spec fn zero_source(pre: Board, post: Board, r: int, c: int) -> bool {
    &&& post.in_bounds(r, c)
    &&& newly_revealed(pre, post, r, c)
    &&& post.cell(r, c).total_bomb == 0
}

/// Some zero-hint cell revealed by the cascade has (`r`, `c`) among its 8
/// neighbours: the reason a cascade may not stop short of (`r`, `c`).
/// Kept opaque so that the solver only unfolds it where a proof asks.
#[verifier::opaque]
pub open spec fn has_zero_source_neighbor(pre: Board, post: Board, r: int, c: int) -> bool {
    exists|r2: int, c2: int| zero_source(pre, post, r2, c2) && spec_adjacent(c2, r2, c, r)
}

/// The cascade owes nothing more for the neighbour (`r2`, `c2`): it is
/// revealed, or flagged, or still queued on the worklist.
pub open spec fn neighbor_settled(post: Board, r2: int, c2: int, stack: Seq<(i32, i32)>) -> bool {
    ||| post.cell(r2, c2).revealed
    ||| post.cell(r2, c2).flaged
    ||| exists|k: int| 0 <= k < stack.len() && stack[k].0 == c2 && stack[k].1 == r2
}

/// `c` with its `revealed` mark set.
pub open spec fn with_revealed_mark(c: Cell) -> Cell {
    Cell { revealed: true, ..c }
}

/// Every newly revealed cell traces back to the cascade's entry cell
/// (`y`, `x`): it is that cell, or it neighbours a revealed zero-hint cell.
#[verifier::opaque]
pub open spec fn trace_ok(orig: Board, cur: Board, y: int, x: int) -> bool {
    forall|r: int, c: int|
        cur.in_bounds(r, c) && #[trigger] newly_revealed(orig, cur, r, c) ==> ((r == y && c == x)
            || has_zero_source_neighbor(orig, cur, r, c))
}

/// Every queued position was queued by some revealed zero-hint neighbour.
#[verifier::opaque]
pub open spec fn stack_ok(orig: Board, cur: Board, stack: Seq<(i32, i32)>) -> bool {
    forall|k: int|
        0 <= k < stack.len() ==> has_zero_source_neighbor(
            orig,
            cur,
            (#[trigger] stack[k]).1 as int,
            stack[k].0 as int,
        )
}

/// Every neighbour a revealed zero-hint cell owes is revealed, flagged, or
/// still queued.
#[verifier::opaque]
pub open spec fn closure_ok(orig: Board, cur: Board, stack: Seq<(i32, i32)>) -> bool {
    forall|r: int, c: int|
        #[trigger] zero_source(orig, cur, r, c) ==> forall|r2: int, c2: int|
            cur.in_bounds(r2, c2) && spec_adjacent(c, r, c2, r2) ==> neighbor_settled(
                cur,
                r2,
                c2,
                stack,
            )
}

/// Everything the cascade's worklist loop keeps true between iterations.
#[verifier::opaque]
pub open spec fn cascade_inv(orig: Board, cur: Board, stack: Seq<(i32, i32)>, y: int, x: int) -> bool {
    &&& cur.wf_dims()
    &&& cur.counts_ok()
    &&& orig.wf_dims()
    &&& orig.counts_ok()
    &&& Board::cascade_frame(orig, cur)
    &&& orig.in_bounds(y, x)
    &&& !orig.cell(y, x).revealed
    &&& cur.cell(y, x).revealed
    &&& forall|r: int, c: int|
        cur.in_bounds(r, c) && #[trigger] newly_revealed(orig, cur, r, c) ==> !cur.cell(
            r,
            c,
        ).is_bomb && !cur.cell(r, c).flaged
    &&& trace_ok(orig, cur, y, x)
    &&& stack_ok(orig, cur, stack)
    &&& closure_ok(orig, cur, stack)
}

impl Board {
    /// The cascade's frame: what one reveal pass may change and what it
    /// must keep, relative to the board it started from.
    pub open spec fn cascade_frame(pre: Board, post: Board) -> bool {
        &&& post.same_config(pre)
        &&& post.total_flags_left == pre.total_flags_left
        &&& post.state == pre.state
        &&& post.rng == pre.rng
        &&& post.cells@.len() == pre.cells@.len()
        &&& forall|r: int, c: int|
            pre.in_bounds(r, c) ==> {
                let oc = pre.cell(r, c);
                let nc = #[trigger] post.cell(r, c);
                &&& nc.x_pos == oc.x_pos
                &&& nc.y_pos == oc.y_pos
                &&& nc.is_bomb == oc.is_bomb
                &&& nc.total_bomb == oc.total_bomb
                &&& nc.flaged == oc.flaged
                &&& nc.bomb_triggered == oc.bomb_triggered
                &&& (oc.revealed ==> nc.revealed)
            }
    }
}

/// Introduction form of `has_zero_source_neighbor`.
proof fn lemma_source_intro(orig: Board, post: Board, rs: int, cs: int, r: int, c: int)
    requires
        zero_source(orig, post, rs, cs),
        spec_adjacent(cs, rs, c, r),
    ensures
        has_zero_source_neighbor(orig, post, r, c),
{
    reveal(has_zero_source_neighbor);
}

/// Elimination form of `has_zero_source_neighbor`: hands back a witness.
proof fn source_witness(orig: Board, cur: Board, r: int, c: int) -> (w: (int, int))
    requires
        has_zero_source_neighbor(orig, cur, r, c),
    ensures
        zero_source(orig, cur, w.0, w.1),
        spec_adjacent(w.1, w.0, c, r),
{
    reveal(has_zero_source_neighbor);
    let (r2, c2) = choose|r2: int, c2: int|
        zero_source(orig, cur, r2, c2) && spec_adjacent(c2, r2, c, r);
    (r2, c2)
}

/// A cell that was adjacent to a zero-hint cell the cascade revealed stays
/// so as the cascade reveals more.
proof fn lemma_sources_persist(orig: Board, pre: Board, post: Board, r: int, c: int)
    requires
        has_zero_source_neighbor(orig, pre, r, c),
        post.row == pre.row,
        post.column == pre.column,
        forall|r2: int, c2: int|
            pre.in_bounds(r2, c2) ==> {
                let oc = #[trigger] pre.cell(r2, c2);
                let nc = post.cell(r2, c2);
                &&& nc.total_bomb == oc.total_bomb
                &&& (oc.revealed ==> nc.revealed)
            },
    ensures
        has_zero_source_neighbor(orig, post, r, c),
{
    let w = source_witness(orig, pre, r, c);
    assert(zero_source(orig, post, w.0, w.1));
    lemma_source_intro(orig, post, w.0, w.1, r, c);
}

/// Popping an entry keeps every queued position justified.
proof fn lemma_stack_pop(orig: Board, cur: Board, stack: Seq<(i32, i32)>)
    requires
        stack_ok(orig, cur, stack),
        stack.len() > 0,
    ensures
        stack_ok(orig, cur, stack.drop_last()),
        has_zero_source_neighbor(
            orig,
            cur,
            stack[stack.len() - 1].1 as int,
            stack[stack.len() - 1].0 as int,
        ),
{
    reveal(stack_ok);
    let rest = stack.drop_last();
    assert forall|k: int|
        0 <= k < rest.len() implies has_zero_source_neighbor(
        orig,
        cur,
        (#[trigger] rest[k]).1 as int,
        rest[k].0 as int,
    ) by {
        assert(rest[k] == stack[k]);
    }
}

/// Popping an entry that is off the grid, already revealed, or flagged
/// keeps the closure: nothing was owed for it.
proof fn lemma_closure_pop_resolved(
    orig: Board,
    cur: Board,
    stack: Seq<(i32, i32)>,
    cx: i32,
    cy: i32,
)
    requires
        closure_ok(orig, cur, stack),
        stack.len() > 0,
        stack[stack.len() - 1].0 == cx,
        stack[stack.len() - 1].1 == cy,
        !cur.in_bounds(cy as int, cx as int) || cur.cell(cy as int, cx as int).revealed || cur.cell(
            cy as int,
            cx as int,
        ).flaged,
    ensures
        closure_ok(orig, cur, stack.drop_last()),
{
    reveal(closure_ok);
    let rest = stack.drop_last();
    assert forall|r: int, c: int|
        #[trigger] zero_source(orig, cur, r, c) implies forall|r2: int, c2: int|
            cur.in_bounds(r2, c2) && spec_adjacent(c, r, c2, r2) ==> neighbor_settled(
        cur,
        r2,
        c2,
        rest,
    ) by {
        assert forall|r2: int, c2: int|
            cur.in_bounds(r2, c2) && spec_adjacent(c, r, c2, r2) implies neighbor_settled(
            cur,
            r2,
            c2,
            rest,
        ) by {
            assert(neighbor_settled(cur, r2, c2, stack));
            if !cur.cell(r2, c2).revealed && !cur.cell(r2, c2).flaged {
                let k = choose|k: int|
                    0 <= k < stack.len() && stack[k].0 == c2 && stack[k].1 == r2;
                if k < stack.len() - 1 {
                    assert(rest[k] == stack[k]);
                } else {
                    assert(c2 == cx as int && r2 == cy as int);
                }
            }
        }
    }
}

/// What the worklist invariant means for the position just popped: on the
/// grid, it cannot hold a mine, because some revealed zero-hint cell has it
/// as a neighbour.
proof fn lemma_popped_not_bomb(
    orig: Board,
    cur: Board,
    stack: Seq<(i32, i32)>,
    y: int,
    x: int,
    cx: i32,
    cy: i32,
)
    requires
        cascade_inv(orig, cur, stack, y, x),
        stack.len() > 0,
        stack[stack.len() - 1].0 == cx,
        stack[stack.len() - 1].1 == cy,
        cur.in_bounds(cy as int, cx as int),
    ensures
        !cur.cell(cy as int, cx as int).is_bomb,
{
    reveal(cascade_inv);
    lemma_stack_pop(orig, cur, stack);
    let w = source_witness(orig, cur, cy as int, cx as int);
    assert(newly_revealed(orig, cur, w.0, w.1));
    assert(!cur.cell(w.0, w.1).is_bomb);
    assert(cur.cell(w.0, w.1).total_bomb == 0);
    assert(cur.spec_adjacent_bombs(w.0, w.1) == 0);
    lemma_zero_hint_means_no_bomb_beside(cur, w.0, w.1, cy as int, cx as int);
}

/// A cell with neighbour count 0 has no mine among its 8 neighbours.
proof fn lemma_zero_hint_means_no_bomb_beside(cur: Board, rs: int, cs: int, r: int, c: int)
    requires
        cur.spec_adjacent_bombs(rs, cs) == 0,
        spec_adjacent(cs, rs, c, r),
    ensures
        !cur.spec_bomb_at(r, c),
{
    reveal(Board::spec_adjacent_bombs);
}

/// The newly revealed cell and all older disclosures still trace back to
/// the entry cell after one more cell is revealed.
proof fn lemma_trace_step(
    orig: Board,
    pre: Board,
    post: Board,
    y: int,
    x: int,
    cx: i32,
    cy: i32,
)
    requires
        trace_ok(orig, pre, y, x),
        has_zero_source_neighbor(orig, pre, cy as int, cx as int),
        pre.in_bounds(cy as int, cx as int),
        post.row == pre.row,
        post.column == pre.column,
        forall|r2: int, c2: int|
            pre.in_bounds(r2, c2) ==> {
                let oc = #[trigger] pre.cell(r2, c2);
                let nc = post.cell(r2, c2);
                &&& nc.total_bomb == oc.total_bomb
                &&& (oc.revealed ==> nc.revealed)
                &&& (!(r2 == cy as int && c2 == cx as int) ==> nc == oc)
            },
    ensures
        trace_ok(orig, post, y, x),
{
    reveal(trace_ok);
    assert forall|r: int, c: int|
        post.in_bounds(r, c) && #[trigger] newly_revealed(orig, post, r, c) implies ((r == y && c
        == x) || has_zero_source_neighbor(orig, post, r, c)) by {
        if r == cy as int && c == cx as int {
            lemma_sources_persist(orig, pre, post, r, c);
        } else {
            assert(post.cell(r, c) == pre.cell(r, c));
            assert(newly_revealed(orig, pre, r, c));
            if !(r == y && c == x) {
                lemma_sources_persist(orig, pre, post, r, c);
            }
        }
    }
}

/// Every queued position is still justified after the popped cell is
/// revealed and, when it is a zero-hint cell, its neighbours are queued.
proof fn lemma_stack_step(
    orig: Board,
    pre: Board,
    post: Board,
    stack_head: Seq<(i32, i32)>,
    stack_new: Seq<(i32, i32)>,
    cx: i32,
    cy: i32,
)
    requires
        stack_ok(orig, pre, stack_head),
        stack_head.len() > 0,
        post.row == pre.row,
        post.column == pre.column,
        forall|r2: int, c2: int|
            pre.in_bounds(r2, c2) ==> {
                let oc = #[trigger] pre.cell(r2, c2);
                let nc = post.cell(r2, c2);
                &&& nc.total_bomb == oc.total_bomb
                &&& (oc.revealed ==> nc.revealed)
            },
        stack_new.len() == stack_head.len() - 1 || (stack_new.len() == stack_head.len() + 7
            && zero_source(orig, post, cy as int, cx as int)),
        forall|k: int| 0 <= k < stack_head.len() - 1 ==> #[trigger] stack_new[k] == stack_head[k],
        forall|k: int|
            stack_head.len() - 1 <= k < stack_new.len() ==> spec_adjacent(
                cx as int,
                cy as int,
                (#[trigger] stack_new[k]).0 as int,
                stack_new[k].1 as int,
            ),
    ensures
        stack_ok(orig, post, stack_new),
{
    reveal(stack_ok);
    assert forall|k: int|
        0 <= k < stack_new.len() implies has_zero_source_neighbor(
        orig,
        post,
        (#[trigger] stack_new[k]).1 as int,
        stack_new[k].0 as int,
    ) by {
        if k < stack_head.len() - 1 {
            assert(stack_new[k] == stack_head[k]);
            lemma_sources_persist(
                orig,
                pre,
                post,
                stack_head[k].1 as int,
                stack_head[k].0 as int,
            );
        } else {
            lemma_source_intro(
                orig,
                post,
                cy as int,
                cx as int,
                stack_new[k].1 as int,
                stack_new[k].0 as int,
            );
        }
    }
}

/// The closure carries over one reveal step: the popped cell is now
/// revealed, and when its hint is 0 all 8 of its neighbours were queued.
#[verifier::rlimit(100)]
proof fn lemma_closure_step(
    orig: Board,
    pre: Board,
    post: Board,
    stack_head: Seq<(i32, i32)>,
    stack_new: Seq<(i32, i32)>,
    cx: i32,
    cy: i32,
)
    requires
        closure_ok(orig, pre, stack_head),
        stack_head.len() > 0,
        stack_head[stack_head.len() - 1].0 == cx,
        stack_head[stack_head.len() - 1].1 == cy,
        pre.in_bounds(cy as int, cx as int),
        !pre.cell(cy as int, cx as int).revealed,
        post.row == pre.row,
        post.column == pre.column,
        post.cell(cy as int, cx as int).revealed,
        forall|r2: int, c2: int|
            pre.in_bounds(r2, c2) && !(r2 == cy as int && c2 == cx as int)
                ==> #[trigger] post.cell(r2, c2) == pre.cell(r2, c2),
        post.cell(cy as int, cx as int).total_bomb == pre.cell(cy as int, cx as int).total_bomb,
        post.cell(cy as int, cx as int).flaged == pre.cell(cy as int, cx as int).flaged,
        pre.cell(cy as int, cx as int).total_bomb != 0 ==> stack_new == stack_head.drop_last(),
        pre.cell(cy as int, cx as int).total_bomb == 0 ==> {
            &&& stack_new.len() == stack_head.len() + 7
            &&& stack_new[stack_new.len() - 8].0 == cx - 1 && stack_new[stack_new.len() - 8].1
                == cy - 1
            &&& stack_new[stack_new.len() - 7].0 == cx && stack_new[stack_new.len() - 7].1 == cy
                - 1
            &&& stack_new[stack_new.len() - 6].0 == cx + 1 && stack_new[stack_new.len() - 6].1
                == cy - 1
            &&& stack_new[stack_new.len() - 5].0 == cx - 1 && stack_new[stack_new.len() - 5].1
                == cy
            &&& stack_new[stack_new.len() - 4].0 == cx + 1 && stack_new[stack_new.len() - 4].1
                == cy
            &&& stack_new[stack_new.len() - 3].0 == cx - 1 && stack_new[stack_new.len() - 3].1
                == cy + 1
            &&& stack_new[stack_new.len() - 2].0 == cx && stack_new[stack_new.len() - 2].1 == cy
                + 1
            &&& stack_new[stack_new.len() - 1].0 == cx + 1 && stack_new[stack_new.len() - 1].1
                == cy + 1
        },
        forall|k: int| 0 <= k < stack_head.len() - 1 ==> #[trigger] stack_new[k] == stack_head[k],
    ensures
        closure_ok(orig, post, stack_new),
{
    reveal(closure_ok);
    assert forall|r: int, c: int|
        #[trigger] zero_source(orig, post, r, c) implies forall|r2: int, c2: int|
            post.in_bounds(r2, c2) && spec_adjacent(c, r, c2, r2) ==> neighbor_settled(
        post,
        r2,
        c2,
        stack_new,
    ) by {
        assert forall|r2: int, c2: int|
            post.in_bounds(r2, c2) && spec_adjacent(c, r, c2, r2) implies neighbor_settled(
            post,
            r2,
            c2,
            stack_new,
        ) by {
            if r == cy as int && c == cx as int {
                assert(pre.cell(cy as int, cx as int).total_bomb == 0);
                let l = stack_new.len() as int;
                if r2 == cy - 1 && c2 == cx - 1 {
                    assert(stack_new[l - 8].0 == c2 && stack_new[l - 8].1 == r2);
                } else if r2 == cy - 1 && c2 == cx {
                    assert(stack_new[l - 7].0 == c2 && stack_new[l - 7].1 == r2);
                } else if r2 == cy - 1 && c2 == cx + 1 {
                    assert(stack_new[l - 6].0 == c2 && stack_new[l - 6].1 == r2);
                } else if r2 == cy && c2 == cx - 1 {
                    assert(stack_new[l - 5].0 == c2 && stack_new[l - 5].1 == r2);
                } else if r2 == cy && c2 == cx + 1 {
                    assert(stack_new[l - 4].0 == c2 && stack_new[l - 4].1 == r2);
                } else if r2 == cy + 1 && c2 == cx - 1 {
                    assert(stack_new[l - 3].0 == c2 && stack_new[l - 3].1 == r2);
                } else if r2 == cy + 1 && c2 == cx {
                    assert(stack_new[l - 2].0 == c2 && stack_new[l - 2].1 == r2);
                } else {
                    assert(r2 == cy + 1 && c2 == cx + 1);
                    assert(stack_new[l - 1].0 == c2 && stack_new[l - 1].1 == r2);
                }
            } else {
                assert(post.cell(r, c) == pre.cell(r, c));
                assert(zero_source(orig, pre, r, c));
                assert(pre.in_bounds(r2, c2));
                assert(spec_adjacent(c, r, c2, r2));
                assert(neighbor_settled(pre, r2, c2, stack_head));
                if pre.cell(r2, c2).revealed {
                    assert(post.cell(r2, c2).revealed);
                } else if pre.cell(r2, c2).flaged {
                    assert(post.cell(r2, c2).flaged);
                } else {
                    let k = choose|k: int|
                        0 <= k < stack_head.len() && stack_head[k].0 == c2 && stack_head[k].1 == r2;
                    if k < stack_head.len() - 1 {
                        assert(stack_new[k] == stack_head[k]);
                    } else {
                        assert(c2 == cx as int && r2 == cy as int);
                        assert(post.cell(r2, c2).revealed);
                    }
                }
            }
        }
    }
}

/// Dropping a queued position that turned out to be off the grid, already
/// revealed, or flagged keeps the whole worklist invariant.
proof fn lemma_skip_step(
    orig: Board,
    cur: Board,
    stack: Seq<(i32, i32)>,
    y: int,
    x: int,
    cx: i32,
    cy: i32,
)
    requires
        cascade_inv(orig, cur, stack, y, x),
        stack.len() > 0,
        stack[stack.len() - 1].0 == cx,
        stack[stack.len() - 1].1 == cy,
        !cur.in_bounds(cy as int, cx as int) || cur.cell(cy as int, cx as int).revealed || cur.cell(
            cy as int,
            cx as int,
        ).flaged,
    ensures
        cascade_inv(orig, cur, stack.drop_last(), y, x),
{
    reveal(cascade_inv);
    lemma_stack_pop(orig, cur, stack);
    lemma_closure_pop_resolved(orig, cur, stack, cx, cy);
}

/// Revealing the popped cell keeps the whole worklist invariant;
/// `stack_new` is the worklist afterwards: the tail of `stack_head` plus,
/// when the revealed cell's hint is 0, its 8 neighbours.
#[verifier::rlimit(100)]
proof fn lemma_reveal_step(
    orig: Board,
    pre: Board,
    post: Board,
    stack_head: Seq<(i32, i32)>,
    stack_new: Seq<(i32, i32)>,
    y: int,
    x: int,
    cx: i32,
    cy: i32,
)
    requires
        cascade_inv(orig, pre, stack_head, y, x),
        stack_head.len() > 0,
        stack_head[stack_head.len() - 1].0 == cx,
        stack_head[stack_head.len() - 1].1 == cy,
        pre.in_bounds(cy as int, cx as int),
        !pre.cell(cy as int, cx as int).revealed,
        !pre.cell(cy as int, cx as int).flaged,
        !pre.cell(cy as int, cx as int).is_bomb,
        post.row == pre.row,
        post.column == pre.column,
        post.cell_size == pre.cell_size,
        post.mine_count == pre.mine_count,
        post.total_flags_left == pre.total_flags_left,
        post.state == pre.state,
        post.rng == pre.rng,
        post.cells@ == pre.cells@.update(
            pre.sidx(cy as int, cx as int),
            with_revealed_mark(pre.cell(cy as int, cx as int)),
        ),
        pre.cell(cy as int, cx as int).total_bomb != 0 ==> stack_new == stack_head.drop_last(),
        pre.cell(cy as int, cx as int).total_bomb == 0 ==> {
            &&& stack_new.len() == stack_head.len() + 7
            &&& stack_new[stack_new.len() - 8].0 == cx - 1 && stack_new[stack_new.len() - 8].1
                == cy - 1
            &&& stack_new[stack_new.len() - 7].0 == cx && stack_new[stack_new.len() - 7].1 == cy
                - 1
            &&& stack_new[stack_new.len() - 6].0 == cx + 1 && stack_new[stack_new.len() - 6].1
                == cy - 1
            &&& stack_new[stack_new.len() - 5].0 == cx - 1 && stack_new[stack_new.len() - 5].1
                == cy
            &&& stack_new[stack_new.len() - 4].0 == cx + 1 && stack_new[stack_new.len() - 4].1
                == cy
            &&& stack_new[stack_new.len() - 3].0 == cx - 1 && stack_new[stack_new.len() - 3].1
                == cy + 1
            &&& stack_new[stack_new.len() - 2].0 == cx && stack_new[stack_new.len() - 2].1 == cy
                + 1
            &&& stack_new[stack_new.len() - 1].0 == cx + 1 && stack_new[stack_new.len() - 1].1
                == cy + 1
        },
        forall|k: int| 0 <= k < stack_head.len() - 1 ==> #[trigger] stack_new[k] == stack_head[k],
    ensures
        cascade_inv(orig, post, stack_new, y, x),
        0 <= count_cells(post.cells@, fn_is_hidden()) < count_cells(pre.cells@, fn_is_hidden()),
{
    reveal(cascade_inv);
    crate::counting::lemma_count_bounds(post.cells@, fn_is_hidden());
    let v = with_revealed_mark(pre.cell(cy as int, cx as int));
    lemma_sidx_bound(pre.row as int, pre.column as int, cy as int, cx as int);
    lemma_cells_update_frame(pre, post, cy as int, cx as int, v);
    lemma_count_update(pre.cells@, fn_is_flagged(), pre.sidx(cy as int, cx as int), v);
    lemma_count_update(pre.cells@, fn_is_hidden(), pre.sidx(cy as int, cx as int), v);
    lemma_counts_ok_frame(pre, post);
    assert forall|r2: int, c2: int|
        pre.in_bounds(r2, c2) implies {
        let oc = #[trigger] pre.cell(r2, c2);
        let nc = post.cell(r2, c2);
        &&& nc.total_bomb == oc.total_bomb
        &&& (oc.revealed ==> nc.revealed)
        &&& (!(r2 == cy as int && c2 == cx as int) ==> nc == oc)
    } by {
        if !(r2 == cy as int && c2 == cx as int) {
            assert(post.cell(r2, c2) == pre.cell(r2, c2));
        }
    }
    lemma_stack_pop(orig, pre, stack_head);
    lemma_trace_step(orig, pre, post, y, x, cx, cy);
    if pre.cell(cy as int, cx as int).total_bomb == 0 {
        assert(zero_source(orig, post, cy as int, cx as int));
        assert forall|k: int|
            stack_head.len() - 1 <= k < stack_new.len() implies spec_adjacent(
            cx as int,
            cy as int,
            (#[trigger] stack_new[k]).0 as int,
            stack_new[k].1 as int,
        ) by {
            let l = stack_new.len() as int;
            if k == l - 8 {
                assert(stack_new[k].0 == cx - 1 && stack_new[k].1 == cy - 1);
            } else if k == l - 7 {
                assert(stack_new[k].0 == cx && stack_new[k].1 == cy - 1);
            } else if k == l - 6 {
                assert(stack_new[k].0 == cx + 1 && stack_new[k].1 == cy - 1);
            } else if k == l - 5 {
                assert(stack_new[k].0 == cx - 1 && stack_new[k].1 == cy);
            } else if k == l - 4 {
                assert(stack_new[k].0 == cx + 1 && stack_new[k].1 == cy);
            } else if k == l - 3 {
                assert(stack_new[k].0 == cx - 1 && stack_new[k].1 == cy + 1);
            } else if k == l - 2 {
                assert(stack_new[k].0 == cx && stack_new[k].1 == cy + 1);
            } else {
                assert(stack_new[k].0 == cx + 1 && stack_new[k].1 == cy + 1);
            }
        }
    } else {
        assert(stack_new.len() == stack_head.len() - 1);
    }
    lemma_stack_step(orig, pre, post, stack_head, stack_new, cx, cy);
    lemma_closure_step(orig, pre, post, stack_head, stack_new, cx, cy);
    assert forall|r: int, c: int|
        post.in_bounds(r, c) && #[trigger] newly_revealed(orig, post, r, c) implies !post.cell(
        r,
        c,
    ).is_bomb && !post.cell(r, c).flaged by {
        if !(r == cy as int && c == cx as int) {
            assert(post.cell(r, c) == pre.cell(r, c));
            assert(newly_revealed(orig, pre, r, c));
        }
    }
    assert forall|r: int, c: int|
        orig.in_bounds(r, c) implies {
        let oc = orig.cell(r, c);
        let nc = #[trigger] post.cell(r, c);
        &&& nc.x_pos == oc.x_pos
        &&& nc.y_pos == oc.y_pos
        &&& nc.is_bomb == oc.is_bomb
        &&& nc.total_bomb == oc.total_bomb
        &&& nc.flaged == oc.flaged
        &&& nc.bomb_triggered == oc.bomb_triggered
        &&& (oc.revealed ==> nc.revealed)
    } by {
        if !(r == cy as int && c == cx as int) {
            assert(post.cell(r, c) == pre.cell(r, c));
        }
    }
}

/// Entering the cascade: the entry cell has just been revealed and, when
/// its hint is 0, its 8 neighbours queued.
#[verifier::rlimit(100)]
proof fn lemma_cascade_init(orig: Board, post: Board, stack: Seq<(i32, i32)>, y: int, x: int)
    requires
        orig.wf_dims(),
        orig.counts_ok(),
        orig.in_bounds(y, x),
        !orig.cell(y, x).revealed,
        !orig.cell(y, x).flaged,
        !orig.cell(y, x).is_bomb,
        post.row == orig.row,
        post.column == orig.column,
        post.cell_size == orig.cell_size,
        post.mine_count == orig.mine_count,
        post.total_flags_left == orig.total_flags_left,
        post.state == orig.state,
        post.rng == orig.rng,
        post.cells@ == orig.cells@.update(orig.sidx(y, x), with_revealed_mark(orig.cell(y, x))),
        orig.cell(y, x).total_bomb != 0 ==> stack.len() == 0,
        orig.cell(y, x).total_bomb == 0 ==> {
            &&& stack.len() == 8
            &&& stack[0].0 == x - 1 && stack[0].1 == y - 1
            &&& stack[1].0 == x && stack[1].1 == y - 1
            &&& stack[2].0 == x + 1 && stack[2].1 == y - 1
            &&& stack[3].0 == x - 1 && stack[3].1 == y
            &&& stack[4].0 == x + 1 && stack[4].1 == y
            &&& stack[5].0 == x - 1 && stack[5].1 == y + 1
            &&& stack[6].0 == x && stack[6].1 == y + 1
            &&& stack[7].0 == x + 1 && stack[7].1 == y + 1
        },
    ensures
        cascade_inv(orig, post, stack, y, x),
{
    reveal(cascade_inv);
    let v = with_revealed_mark(orig.cell(y, x));
    lemma_sidx_bound(orig.row as int, orig.column as int, y, x);
    lemma_cells_update_frame(orig, post, y, x, v);
    lemma_count_update(orig.cells@, fn_is_flagged(), orig.sidx(y, x), v);
    lemma_count_update(orig.cells@, fn_is_hidden(), orig.sidx(y, x), v);
    lemma_counts_ok_frame(orig, post);
    assert forall|r: int, c: int|
        post.in_bounds(r, c) && #[trigger] newly_revealed(orig, post, r, c) implies (r == y && c
        == x) by {
        if !(r == y && c == x) {
            assert(post.cell(r, c) == orig.cell(r, c));
        }
    }
    assert forall|r: int, c: int|
        orig.in_bounds(r, c) implies {
        let oc = orig.cell(r, c);
        let nc = #[trigger] post.cell(r, c);
        &&& nc.x_pos == oc.x_pos
        &&& nc.y_pos == oc.y_pos
        &&& nc.is_bomb == oc.is_bomb
        &&& nc.total_bomb == oc.total_bomb
        &&& nc.flaged == oc.flaged
        &&& nc.bomb_triggered == oc.bomb_triggered
        &&& (oc.revealed ==> nc.revealed)
    } by {
        if !(r == y && c == x) {
            assert(post.cell(r, c) == orig.cell(r, c));
        }
    }
    lemma_trace_init(orig, post, y, x);
    lemma_stack_init(orig, post, stack, y, x);
    lemma_closure_init(orig, post, stack, y, x);
}

/// When only the entry cell has been disclosed, every disclosure trivially
/// traces back to it.
proof fn lemma_trace_init(orig: Board, post: Board, y: int, x: int)
    requires
        forall|r: int, c: int|
            post.in_bounds(r, c) && #[trigger] newly_revealed(orig, post, r, c) ==> (r == y && c
                == x),
    ensures
        trace_ok(orig, post, y, x),
{
    reveal(trace_ok);
}

/// The initial queue: empty, or the 8 neighbours of the zero-hint entry
/// cell.
proof fn lemma_stack_init(orig: Board, post: Board, stack: Seq<(i32, i32)>, y: int, x: int)
    requires
        stack.len() == 0 || (zero_source(orig, post, y, x) && forall|k: int|
            0 <= k < stack.len() ==> spec_adjacent(
                x,
                y,
                (#[trigger] stack[k]).0 as int,
                stack[k].1 as int,
            )),
    ensures
        stack_ok(orig, post, stack),
{
    reveal(stack_ok);
    assert forall|k: int|
        0 <= k < stack.len() implies has_zero_source_neighbor(
        orig,
        post,
        (#[trigger] stack[k]).1 as int,
        stack[k].0 as int,
    ) by {
        lemma_source_intro(orig, post, y, x, stack[k].1 as int, stack[k].0 as int);
    }
}

/// The initial closure: when the entry cell is the only disclosure, only
/// it can owe neighbours, and they were all queued.
#[verifier::rlimit(100)]
proof fn lemma_closure_init(orig: Board, post: Board, stack: Seq<(i32, i32)>, y: int, x: int)
    requires
        forall|r: int, c: int|
            post.in_bounds(r, c) && #[trigger] newly_revealed(orig, post, r, c) ==> (r == y && c
                == x),
        post.cell(y, x).total_bomb == 0 ==> {
            &&& stack.len() == 8
            &&& stack[0].0 == x - 1 && stack[0].1 == y - 1
            &&& stack[1].0 == x && stack[1].1 == y - 1
            &&& stack[2].0 == x + 1 && stack[2].1 == y - 1
            &&& stack[3].0 == x - 1 && stack[3].1 == y
            &&& stack[4].0 == x + 1 && stack[4].1 == y
            &&& stack[5].0 == x - 1 && stack[5].1 == y + 1
            &&& stack[6].0 == x && stack[6].1 == y + 1
            &&& stack[7].0 == x + 1 && stack[7].1 == y + 1
        },
    ensures
        closure_ok(orig, post, stack),
{
    reveal(closure_ok);
    assert forall|r: int, c: int|
        #[trigger] zero_source(orig, post, r, c) implies forall|r2: int, c2: int|
            post.in_bounds(r2, c2) && spec_adjacent(c, r, c2, r2) ==> neighbor_settled(
        post,
        r2,
        c2,
        stack,
    ) by {
        assert(r == y && c == x);
        assert(post.cell(y, x).total_bomb == 0);
        assert forall|r2: int, c2: int|
            post.in_bounds(r2, c2) && spec_adjacent(c, r, c2, r2) implies neighbor_settled(
            post,
            r2,
            c2,
            stack,
        ) by {
            if r2 == y - 1 && c2 == x - 1 {
                assert(stack[0].0 == c2 && stack[0].1 == r2);
            } else if r2 == y - 1 && c2 == x {
                assert(stack[1].0 == c2 && stack[1].1 == r2);
            } else if r2 == y - 1 && c2 == x + 1 {
                assert(stack[2].0 == c2 && stack[2].1 == r2);
            } else if r2 == y && c2 == x - 1 {
                assert(stack[3].0 == c2 && stack[3].1 == r2);
            } else if r2 == y && c2 == x + 1 {
                assert(stack[4].0 == c2 && stack[4].1 == r2);
            } else if r2 == y + 1 && c2 == x - 1 {
                assert(stack[5].0 == c2 && stack[5].1 == r2);
            } else if r2 == y + 1 && c2 == x {
                assert(stack[6].0 == c2 && stack[6].1 == r2);
            } else {
                assert(r2 == y + 1 && c2 == x + 1);
                assert(stack[7].0 == c2 && stack[7].1 == r2);
            }
        }
    }
}

/// A cascade's ancestry does not depend on fields outside the grid: two
/// boards with the same cells carry the same zero-hint neighbourhoods.
proof fn lemma_sources_same_cells(pre: Board, post_a: Board, post_b: Board, r: int, c: int)
    requires
        has_zero_source_neighbor(pre, post_a, r, c),
        post_b.row == post_a.row,
        post_b.column == post_a.column,
        post_b.cells@ == post_a.cells@,
    ensures
        has_zero_source_neighbor(pre, post_b, r, c),
{
    reveal(has_zero_source_neighbor);
    let (r2, c2) = choose|r2: int, c2: int|
        zero_source(pre, post_a, r2, c2) && spec_adjacent(c2, r2, c, r);
    assert(zero_source(pre, post_b, r2, c2));
    assert(spec_adjacent(c2, r2, c, r));
}

/// Leaving the cascade: with the worklist empty, every neighbour a
/// revealed zero-hint cell owes is revealed or flagged.
proof fn lemma_cascade_final(orig: Board, cur: Board, stack: Seq<(i32, i32)>, y: int, x: int)
    requires
        cascade_inv(orig, cur, stack, y, x),
        stack.len() == 0,
    ensures
        cur.wf_dims(),
        cur.counts_ok(),
        Board::cascade_frame(orig, cur),
        cur.cell(y, x).revealed,
        forall|r: int, c: int|
            cur.in_bounds(r, c) && #[trigger] newly_revealed(orig, cur, r, c) ==> !cur.cell(
                r,
                c,
            ).is_bomb && !cur.cell(r, c).flaged,
        forall|r: int, c: int|
            cur.in_bounds(r, c) && #[trigger] newly_revealed(orig, cur, r, c) ==> ((r == y && c
                == x) || has_zero_source_neighbor(orig, cur, r, c)),
        forall|r: int, c: int|
            #[trigger] zero_source(orig, cur, r, c) ==> forall|r2: int, c2: int|
                cur.in_bounds(r2, c2) && spec_adjacent(c, r, c2, r2) ==> (#[trigger] cur.cell(
                    r2,
                    c2,
                )).revealed || cur.cell(r2, c2).flaged,
{
    reveal(cascade_inv);
    reveal(trace_ok);
    reveal(closure_ok);
    assert forall|r: int, c: int|
        #[trigger] zero_source(orig, cur, r, c) implies forall|r2: int, c2: int|
            cur.in_bounds(r2, c2) && spec_adjacent(c, r, c2, r2) ==> (#[trigger] cur.cell(
        r2,
        c2,
    )).revealed || cur.cell(r2, c2).flaged by {
        assert forall|r2: int, c2: int|
            cur.in_bounds(r2, c2) && spec_adjacent(c, r, c2, r2) implies (#[trigger] cur.cell(
            r2,
            c2,
        )).revealed || cur.cell(r2, c2).flaged by {
            assert(neighbor_settled(cur, r2, c2, stack));
        }
    }
}

impl Board {
    /// One reveal pass: the flood-fill disclosure starting at the host
    /// coordinate (`x_coordinate`, `y_coordinate`), column first.
    ///
    /// An off-grid, already revealed or flagged target bounces off with no
    /// effect. A mine target reports the hit, also with no effect; the
    /// caller decides the loss. Otherwise the target is revealed, and if
    /// its hint is 0 the disclosure cascades through the connected region
    /// of zero-hint cells and their immediate numbered border, skipping
    /// flagged cells and never revealing a mine.
    #[verifier::rlimit(100)]
    pub fn _reveal_cell(&mut self, x_coordinate: i32, y_coordinate: i32) -> (ok: bool)
        requires
            old(self).wf_dims(),
            old(self).counts_ok(),
        ensures
            final(self).wf_dims(),
            final(self).counts_ok(),
            ok == !old(self).spec_hit(x_coordinate as int, y_coordinate as int),
            old(self).spec_hit(x_coordinate as int, y_coordinate as int) ==> *final(self) == *old(
                self,
            ),
            old(self).reveal_blocked(x_coordinate as int, y_coordinate as int) ==> *final(self)
                == *old(self),
            Board::cascade_frame(*old(self), *final(self)),
            !old(self).reveal_blocked(x_coordinate as int, y_coordinate as int) && !old(
                self,
            ).spec_hit(x_coordinate as int, y_coordinate as int) ==> final(self).cell(
                y_coordinate as int,
                x_coordinate as int,
            ).revealed,
            forall|r: int, c: int|
                final(self).in_bounds(r, c) && #[trigger] newly_revealed(
                    *old(self),
                    *final(self),
                    r,
                    c,
                ) ==> !final(self).cell(r, c).is_bomb && !final(self).cell(r, c).flaged,
            forall|r: int, c: int|
                final(self).in_bounds(r, c) && #[trigger] newly_revealed(
                    *old(self),
                    *final(self),
                    r,
                    c,
                ) ==> ((r == y_coordinate as int && c == x_coordinate as int)
                    || has_zero_source_neighbor(*old(self), *final(self), r, c)),
            forall|r: int, c: int|
                #[trigger] zero_source(*old(self), *final(self), r, c) ==> forall|r2: int, c2: int|
                    final(self).in_bounds(r2, c2) && spec_adjacent(c, r, c2, r2) ==> (
                    #[trigger] final(self).cell(r2, c2)).revealed || final(self).cell(
                        r2,
                        c2,
                    ).flaged,
    {
        let x = x_coordinate;
        let y = y_coordinate;
        if x < 0 || y < 0 || x >= self.column || y >= self.row {
            return true;
        }
        let idx = self.flat_index(y, x);
        let cell0 = self.cells[idx];
        if cell0.revealed || cell0.flaged {
            return true;
        }
        if cell0.is_bomb {
            return false;
        }
        let ghost orig = *self;
        let mut cnew = cell0;
        cnew.revealed = true;
        self.cells[idx] = cnew;
        let mut stack: Vec<(i32, i32)> = Vec::new();
        if cnew.total_bomb == 0 {
            stack.push((x - 1, y - 1));
            stack.push((x, y - 1));
            stack.push((x + 1, y - 1));
            stack.push((x - 1, y));
            stack.push((x + 1, y));
            stack.push((x - 1, y + 1));
            stack.push((x, y + 1));
            stack.push((x + 1, y + 1));
        }
        proof {
            assert(cnew == with_revealed_mark(orig.cell(y as int, x as int)));
            lemma_cascade_init(orig, *self, stack@, y as int, x as int);
        }
        while stack.len() != 0
            invariant
                cascade_inv(orig, *self, stack@, y as int, x as int),
            decreases count_cells(self.cells@, fn_is_hidden()), stack@.len(),
        {
            proof {
                reveal(cascade_inv);
            }
            let ghost head = *self;
            let ghost stack_head = stack@;
            let top = stack.pop().unwrap();
            let cx = top.0;
            let cy = top.1;
            proof {
                assert(stack_head[stack_head.len() - 1] == top);
            }
            if cx >= 0 && cy >= 0 && cx < self.column && cy < self.row {
                let idx2 = self.flat_index(cy, cx);
                let cc = self.cells[idx2];
                if !cc.revealed && !cc.flaged {
                    proof {
                        lemma_popped_not_bomb(orig, head, stack_head, y as int, x as int, cx, cy);
                    }
                    let mut cv = cc;
                    cv.revealed = true;
                    self.cells[idx2] = cv;
                    if cv.total_bomb == 0 {
                        stack.push((cx - 1, cy - 1));
                        stack.push((cx, cy - 1));
                        stack.push((cx + 1, cy - 1));
                        stack.push((cx - 1, cy));
                        stack.push((cx + 1, cy));
                        stack.push((cx - 1, cy + 1));
                        stack.push((cx, cy + 1));
                        stack.push((cx + 1, cy + 1));
                    }
                    proof {
                        assert(cv == with_revealed_mark(head.cell(cy as int, cx as int)));
                        lemma_reveal_step(
                            orig,
                            head,
                            *self,
                            stack_head,
                            stack@,
                            y as int,
                            x as int,
                            cx,
                            cy,
                        );
                    }
                } else {
                    proof {
                        lemma_skip_step(orig, head, stack_head, y as int, x as int, cx, cy);
                    }
                }
            } else {
                proof {
                    lemma_skip_step(orig, head, stack_head, y as int, x as int, cx, cy);
                }
            }
        }
        proof {
            lemma_cascade_final(orig, *self, stack@, y as int, x as int);
        }
        true
    }

    /// Loss disclosure: marks every mine-bearing cell revealed.
    pub fn reveal_all_bombs(&mut self)
        requires
            old(self).wf_dims(),
        ensures
            final(self).wf_dims(),
            final(self).same_config(*old(self)),
            final(self).total_flags_left == old(self).total_flags_left,
            final(self).state == old(self).state,
            final(self).rng == old(self).rng,
            final(self).cells@.len() == old(self).cells@.len(),
            forall|r: int, c: int|
                old(self).in_bounds(r, c) ==> {
                    let oc = old(self).cell(r, c);
                    let nc = #[trigger] final(self).cell(r, c);
                    &&& nc.x_pos == oc.x_pos
                    &&& nc.y_pos == oc.y_pos
                    &&& nc.is_bomb == oc.is_bomb
                    &&& nc.total_bomb == oc.total_bomb
                    &&& nc.flaged == oc.flaged
                    &&& nc.bomb_triggered == oc.bomb_triggered
                    &&& nc.revealed == (oc.revealed || oc.is_bomb)
                },
    {
        let ghost orig = *self;
        let mut i: i32 = 0;
        while i < self.row
            invariant
                0 <= i <= self.row,
                self.wf_dims(),
                orig.wf_dims(),
                self.row == orig.row,
                self.column == orig.column,
                self.cell_size == orig.cell_size,
                self.mine_count == orig.mine_count,
                self.total_flags_left == orig.total_flags_left,
                self.state == orig.state,
                self.rng == orig.rng,
                self.cells@.len() == orig.cells@.len(),
                forall|r: int, c: int|
                    orig.in_bounds(r, c) && r < i ==> {
                        let oc = orig.cell(r, c);
                        let nc = #[trigger] self.cell(r, c);
                        &&& nc.x_pos == oc.x_pos
                        &&& nc.y_pos == oc.y_pos
                        &&& nc.is_bomb == oc.is_bomb
                        &&& nc.total_bomb == oc.total_bomb
                        &&& nc.flaged == oc.flaged
                        &&& nc.bomb_triggered == oc.bomb_triggered
                        &&& nc.revealed == (oc.revealed || oc.is_bomb)
                    },
                forall|r: int, c: int|
                    orig.in_bounds(r, c) && r >= i ==> #[trigger] self.cell(r, c) == orig.cell(
                        r,
                        c,
                    ),
            decreases self.row - i,
        {
            let mut j: i32 = 0;
            while j < self.column
                invariant
                    0 <= i < self.row,
                    0 <= j <= self.column,
                    self.wf_dims(),
                    orig.wf_dims(),
                    self.row == orig.row,
                    self.column == orig.column,
                    self.cell_size == orig.cell_size,
                    self.mine_count == orig.mine_count,
                    self.total_flags_left == orig.total_flags_left,
                    self.state == orig.state,
                    self.rng == orig.rng,
                    self.cells@.len() == orig.cells@.len(),
                    forall|r: int, c: int|
                        orig.in_bounds(r, c) && (r < i || (r == i && c < j)) ==> {
                            let oc = orig.cell(r, c);
                            let nc = #[trigger] self.cell(r, c);
                            &&& nc.x_pos == oc.x_pos
                            &&& nc.y_pos == oc.y_pos
                            &&& nc.is_bomb == oc.is_bomb
                            &&& nc.total_bomb == oc.total_bomb
                            &&& nc.flaged == oc.flaged
                            &&& nc.bomb_triggered == oc.bomb_triggered
                            &&& nc.revealed == (oc.revealed || oc.is_bomb)
                        },
                    forall|r: int, c: int|
                        orig.in_bounds(r, c) && (r > i || (r == i && c >= j)) ==> #[trigger] self.cell(
                            r,
                            c,
                        ) == orig.cell(r, c),
                decreases self.column - j,
            {
                let idx = self.flat_index(i, j);
                let cell = self.cells[idx];
                if cell.is_bomb {
                    let mut c2 = cell;
                    c2.revealed = true;
                    let ghost pre = *self;
                    self.cells[idx] = c2;
                    proof {
                        assert(cell == pre.cell(i as int, j as int));
                        assert(pre.cell(i as int, j as int) == orig.cell(i as int, j as int));
                        lemma_cells_update_frame(pre, *self, i as int, j as int, c2);
                        lemma_count_update(
                            pre.cells@,
                            fn_is_flagged(),
                            pre.sidx(i as int, j as int),
                            c2,
                        );
                        assert forall|r: int, c: int| self.in_bounds(r, c) implies {
                            let nc = #[trigger] self.cell(r, c);
                            &&& nc.x_pos == c * self.cell_size
                            &&& nc.y_pos == r * self.cell_size
                            &&& 0 <= nc.total_bomb <= 8
                        } by {
                            if !(r == i as int && c == j as int) {
                                assert(self.cell(r, c) == pre.cell(r, c));
                            }
                        }
                    }
                }
                proof {
                    assert(self.cell(i as int, j as int).revealed == (orig.cell(
                        i as int,
                        j as int,
                    ).revealed || orig.cell(i as int, j as int).is_bomb));
                }
                j = j + 1;
            }
            i = i + 1;
        }
    }

    /// One host move: reveal the cell at column `x_coordinate`, row
    /// `y_coordinate` (the coordinate must be on the grid; the caller
    /// bounds-checks). On the first reveal of a pristine board the mines
    /// are placed, avoiding the clicked cell and its 8 neighbours, the
    /// hints are computed, and the game starts. On a decided board the
    /// call does nothing. A mine hit loses the game: the hit cell is
    /// marked as the triggered one and every mine is disclosed. Otherwise
    /// the flood fill runs, and afterwards the board is won exactly when
    /// every safe cell stands revealed.
    #[verifier::rlimit(100)]
    pub fn reveal_cell(&mut self, x_coordinate: i32, y_coordinate: i32)
        requires
            old(self).wf(),
            0 <= x_coordinate < old(self).column,
            0 <= y_coordinate < old(self).row,
        ensures
            final(self).wf(),
            final(self).same_config(*old(self)),
            final(self).total_flags_left == old(self).total_flags_left,
            forall|r: int, c: int|
                old(self).in_bounds(r, c) ==> (#[trigger] final(self).cell(r, c)).flaged == old(
                    self,
                ).cell(r, c).flaged,
            forall|r: int, c: int|
                old(self).in_bounds(r, c) && old(self).cell(r, c).revealed
                    ==> (#[trigger] final(self).cell(r, c)).revealed,
            old(self).state.spec_decided() ==> *final(self) == *old(self),
            old(self).state == BoardState::Undecided && old(self).cell(
                y_coordinate as int,
                x_coordinate as int,
            ).revealed ==> *final(self) == *old(self),
            old(self).state == BoardState::Pristine ==> {
                &&& count_cells(final(self).cells@, fn_is_bomb()) == final(self).mine_count
                &&& forall|r: int, c: int|
                    final(self).in_bounds(r, c) && in_exclusion_zone(
                        x_coordinate as int,
                        y_coordinate as int,
                        c,
                        r,
                    ) ==> !(#[trigger] final(self).cell(r, c)).is_bomb
                &&& final(self).counts_ok()
                &&& !final(self).cell(y_coordinate as int, x_coordinate as int).is_bomb
                &&& final(self).state == (if final(self).all_safe_revealed() {
                    BoardState::Won
                } else {
                    BoardState::Undecided
                })
            },
            old(self).state != BoardState::Pristine ==> forall|r: int, c: int|
                old(self).in_bounds(r, c) ==> {
                    let oc = old(self).cell(r, c);
                    let nc = #[trigger] final(self).cell(r, c);
                    &&& nc.is_bomb == oc.is_bomb
                    &&& nc.total_bomb == oc.total_bomb
                    &&& nc.x_pos == oc.x_pos
                    &&& nc.y_pos == oc.y_pos
                },
            old(self).state == BoardState::Undecided && old(self).spec_hit(
                x_coordinate as int,
                y_coordinate as int,
            ) ==> {
                &&& final(self).state == BoardState::Lost
                &&& final(self).cell(y_coordinate as int, x_coordinate as int).bomb_triggered
                &&& final(self).cell(y_coordinate as int, x_coordinate as int).revealed
                &&& final(self).all_bombs_revealed()
            },
            old(self).state == BoardState::Undecided && !old(self).spec_hit(
                x_coordinate as int,
                y_coordinate as int,
            ) ==> {
                &&& final(self).state == (if final(self).all_safe_revealed() {
                    BoardState::Won
                } else {
                    BoardState::Undecided
                })
                &&& (!old(self).reveal_blocked(x_coordinate as int, y_coordinate as int)
                    ==> final(self).cell(y_coordinate as int, x_coordinate as int).revealed)
                &&& forall|r: int, c: int|
                    final(self).in_bounds(r, c) && #[trigger] newly_revealed(
                        *old(self),
                        *final(self),
                        r,
                        c,
                    ) ==> !final(self).cell(r, c).is_bomb && !final(self).cell(r, c).flaged
                &&& forall|r: int, c: int|
                    final(self).in_bounds(r, c) && #[trigger] newly_revealed(
                        *old(self),
                        *final(self),
                        r,
                        c,
                    ) ==> ((r == y_coordinate as int && c == x_coordinate as int)
                        || has_zero_source_neighbor(*old(self), *final(self), r, c))
                &&& forall|r: int, c: int|
                    #[trigger] zero_source(*old(self), *final(self), r, c) ==> forall|
                        r2: int,
                        c2: int,
                    |
                        final(self).in_bounds(r2, c2) && spec_adjacent(c, r, c2, r2) ==> (
                        #[trigger] final(self).cell(r2, c2)).revealed || final(self).cell(
                            r2,
                            c2,
                        ).flaged
            },
    {
        let x = x_coordinate;
        let y = y_coordinate;
        if self.state == BoardState::Pristine {
            self.place_bombs(x, y);
            let ghost placed = *self;
            self.calculate_total_bomb();
            proof {
                crate::counting::lemma_count_boards_pointwise(placed, *self, fn_is_bomb());
                assert forall|r: int, c: int|
                    self.in_bounds(r, c) && in_exclusion_zone(x as int, y as int, c, r) implies !(
                #[trigger] self.cell(r, c)).is_bomb by {
                    assert(self.cell(r, c).is_bomb == placed.cell(r, c).is_bomb);
                }
                assert(in_exclusion_zone(x as int, y as int, x as int, y as int));
                assert(!self.cell(y as int, x as int).is_bomb);
            }
            let ghost counted = *self;
            self.state = BoardState::Undecided;
            proof {
                crate::board::lemma_wf_dims_same_cells(counted, *self);
                lemma_counts_ok_frame(counted, *self);
                assert forall|r: int, c: int| self.in_bounds(r, c) implies {
                    let mc = #[trigger] self.cell(r, c);
                    &&& !mc.revealed
                    &&& !mc.bomb_triggered
                    &&& mc.flaged == old(self).cell(r, c).flaged
                    &&& mc.x_pos == old(self).cell(r, c).x_pos
                    &&& mc.y_pos == old(self).cell(r, c).y_pos
                } by {
                    assert(self.cell(r, c) == counted.cell(r, c));
                    assert(counted.cell(r, c).flaged == placed.cell(r, c).flaged);
                    assert(counted.cell(r, c).revealed == placed.cell(r, c).revealed);
                    assert(counted.cell(r, c).bomb_triggered == placed.cell(r, c).bomb_triggered);
                    assert(placed.cell(r, c).flaged == old(self).cell(r, c).flaged);
                    assert(placed.cell(r, c).revealed == old(self).cell(r, c).revealed);
                    assert(placed.cell(r, c).bomb_triggered == old(self).cell(
                        r,
                        c,
                    ).bomb_triggered);
                    assert(!old(self).cell(r, c).revealed);
                }
                assert forall|r: int, c: int|
                    self.in_bounds(r, c) && in_exclusion_zone(x as int, y as int, c, r) implies !(
                #[trigger] self.cell(r, c)).is_bomb by {
                    assert(self.cell(r, c) == counted.cell(r, c));
                    assert(counted.cell(r, c).is_bomb == placed.cell(r, c).is_bomb);
                }
            }
        } else {
            if self.state.decided() {
                return;
            }
        }
        let ghost mid = *self;
        proof {
            if old(self).state == BoardState::Pristine {
                assert forall|r: int, c: int|
                    mid.in_bounds(r, c) && in_exclusion_zone(x as int, y as int, c, r) implies !(
                #[trigger] mid.cell(r, c)).is_bomb by {
                    assert(mid.cell(r, c) == self.cell(r, c));
                }
            }
        }
        let ok = self._reveal_cell(x, y);
        if !ok {
            let ghost before_lost = *self;
            self.state = BoardState::Lost;
            proof {
                crate::board::lemma_wf_dims_same_cells(before_lost, *self);
            }
            self.reveal_all_bombs();
            let ghost disclosed = *self;
            let idx = self.flat_index(y, x);
            let mut cellt = self.cells[idx];
            let ghost pre_t = *self;
            cellt.bomb_triggered = true;
            self.cells[idx] = cellt;
            proof {
                assert(cellt == (Cell { bomb_triggered: true, ..pre_t.cell(y as int, x as int) }));
                lemma_cells_update_frame(pre_t, *self, y as int, x as int, cellt);
                lemma_count_update(
                    pre_t.cells@,
                    fn_is_flagged(),
                    pre_t.sidx(y as int, x as int),
                    cellt,
                );
                assert forall|k: int|
                    0 <= k < pre_t.cells@.len() implies !fn_is_triggered()(
                    #[trigger] pre_t.cells@[k],
                ) by {
                    lemma_index_to_coords(pre_t, k);
                    let r = k / (pre_t.column as int);
                    let c = k % (pre_t.column as int);
                    assert(pre_t.cell(r, c).bomb_triggered == mid.cell(r, c).bomb_triggered);
                    assert(!mid.cell(r, c).bomb_triggered);
                }
                lemma_count_zero(pre_t.cells@, fn_is_triggered());
                lemma_count_update(
                    pre_t.cells@,
                    fn_is_triggered(),
                    pre_t.sidx(y as int, x as int),
                    cellt,
                );
                assert forall|r: int, c: int| self.in_bounds(r, c) implies {
                    let nc = #[trigger] self.cell(r, c);
                    &&& nc.x_pos == c * self.cell_size
                    &&& nc.y_pos == r * self.cell_size
                    &&& 0 <= nc.total_bomb <= 8
                    &&& (nc.is_bomb ==> nc.revealed)
                    &&& (nc.bomb_triggered ==> nc.is_bomb)
                    &&& nc.is_bomb == mid.cell(r, c).is_bomb
                    &&& nc.total_bomb == mid.cell(r, c).total_bomb
                    &&& nc.flaged == mid.cell(r, c).flaged
                    &&& (mid.cell(r, c).revealed ==> nc.revealed)
                } by {
                    assert(before_lost.cell(r, c) == mid.cell(r, c));
                    assert(pre_t.cell(r, c) == disclosed.cell(r, c));
                    if !(r == y as int && c == x as int) {
                        assert(self.cell(r, c) == pre_t.cell(r, c));
                    }
                }
                assert forall|r: int, c: int|
                    old(self).in_bounds(r, c) implies {
                    let oc = old(self).cell(r, c);
                    let nc = #[trigger] self.cell(r, c);
                    &&& nc.flaged == oc.flaged
                    &&& (oc.revealed ==> nc.revealed)
                    &&& nc.x_pos == oc.x_pos
                    &&& nc.y_pos == oc.y_pos
                } by {
                    assert(before_lost.cell(r, c) == mid.cell(r, c));
                    assert(pre_t.cell(r, c) == disclosed.cell(r, c));
                    if !(r == y as int && c == x as int) {
                        assert(self.cell(r, c) == pre_t.cell(r, c));
                    }
                }
                assert(self.all_bombs_revealed());
                lemma_count_boards_pointwise(mid, *self, fn_is_bomb());
                crate::board::lemma_same_bombs_same_counts(mid, *self);
                assert forall|r: int, c: int|
                    self.in_bounds(r, c) implies (#[trigger] self.cell(r, c)).total_bomb
                    == if self.cell(r, c).is_bomb {
                    1int
                } else {
                    self.spec_adjacent_bombs(r, c)
                } by {
                    assert(mid.cell(r, c).total_bomb == if mid.cell(r, c).is_bomb {
                        1int
                    } else {
                        mid.spec_adjacent_bombs(r, c)
                    });
                }
            }
        } else {
            let won = self.all_safe_cells_revealed();
            let ghost swept = *self;
            if won {
                self.state = BoardState::Won;
            }
            proof {
                assert forall|r: int, c: int|
                    mid.in_bounds(r, c) implies {
                    let oc = #[trigger] mid.cell(r, c);
                    let nc = self.cell(r, c);
                    &&& nc.is_bomb == oc.is_bomb
                    &&& nc.total_bomb == oc.total_bomb
                } by {
                    assert(self.cell(r, c) == swept.cell(r, c));
                }
                assert forall|r: int, c: int|
                    old(self).in_bounds(r, c) implies {
                    let oc = old(self).cell(r, c);
                    let nc = #[trigger] self.cell(r, c);
                    &&& nc.flaged == oc.flaged
                    &&& (oc.revealed ==> nc.revealed)
                    &&& nc.x_pos == oc.x_pos
                    &&& nc.y_pos == oc.y_pos
                    &&& (nc.revealed ==> !nc.flaged)
                    &&& !nc.bomb_triggered
                } by {
                    assert(self.cell(r, c) == swept.cell(r, c));
                    assert(mid.in_bounds(r, c));
                    if swept.cell(r, c).revealed && !mid.cell(r, c).revealed {
                        assert(newly_revealed(mid, swept, r, c));
                    }
                }
                if won {
                    crate::board::lemma_wf_dims_same_cells(swept, *self);
                    assert forall|r: int, c: int|
                        self.in_bounds(r, c) && !(#[trigger] self.cell(r, c)).is_bomb implies self.cell(
                        r,
                        c,
                    ).revealed by {
                        assert(self.cell(r, c) == swept.cell(r, c));
                    }
                } else {
                    assert(*self == swept);
                }
                if old(self).state == BoardState::Pristine {
                    assert forall|r: int, c: int|
                        self.in_bounds(r, c) && in_exclusion_zone(x as int, y as int, c, r) implies !(
                    #[trigger] self.cell(r, c)).is_bomb by {
                        assert(self.cell(r, c).is_bomb == mid.cell(r, c).is_bomb);
                    }
                    assert(!self.cell(y as int, x as int).is_bomb);
                }
                assert forall|r: int, c: int|
                    self.in_bounds(r, c) && #[trigger] newly_revealed(
                        *old(self),
                        *self,
                        r,
                        c,
                    ) implies !self.cell(r, c).is_bomb && !self.cell(r, c).flaged by {
                    assert(self.cell(r, c) == swept.cell(r, c));
                    assert(mid.in_bounds(r, c));
                    if !mid.cell(r, c).revealed {
                        assert(newly_revealed(mid, swept, r, c));
                    }
                }
                assert forall|r: int, c: int|
                    #[trigger] zero_source(*old(self), *self, r, c) implies (forall|
                    r2: int,
                    c2: int,
                |
                    self.in_bounds(r2, c2) && spec_adjacent(c, r, c2, r2) ==> (#[trigger] self.cell(
                        r2,
                        c2,
                    )).revealed || self.cell(r2, c2).flaged) by {
                    assert(self.cell(r, c) == swept.cell(r, c));
                    if !mid.cell(r, c).revealed {
                        assert(zero_source(mid, swept, r, c));
                        assert forall|r2: int, c2: int|
                            self.in_bounds(r2, c2) && spec_adjacent(
                                c,
                                r,
                                c2,
                                r2,
                            ) implies (#[trigger] self.cell(r2, c2)).revealed || self.cell(
                            r2,
                            c2,
                        ).flaged by {
                            assert(swept.in_bounds(r2, c2));
                            assert(self.cell(r2, c2) == swept.cell(r2, c2));
                        }
                    }
                }
                lemma_count_boards_pointwise(mid, *self, fn_is_bomb());
                crate::board::lemma_same_bombs_same_counts(mid, *self);
                assert forall|r: int, c: int|
                    self.in_bounds(r, c) implies (#[trigger] self.cell(r, c)).total_bomb
                    == if self.cell(r, c).is_bomb {
                    1int
                } else {
                    self.spec_adjacent_bombs(r, c)
                } by {
                    assert(self.cell(r, c) == swept.cell(r, c));
                    assert(mid.cell(r, c).total_bomb == if mid.cell(r, c).is_bomb {
                        1int
                    } else {
                        mid.spec_adjacent_bombs(r, c)
                    });
                }
                if old(self).state == BoardState::Undecided && !old(self).spec_hit(
                    x as int,
                    y as int,
                ) {
                    assert forall|r: int, c: int|
                        self.in_bounds(r, c) && #[trigger] newly_revealed(
                            *old(self),
                            *self,
                            r,
                            c,
                        ) implies ((r == y as int && c == x as int) || has_zero_source_neighbor(
                        *old(self),
                        *self,
                        r,
                        c,
                    )) by {
                        assert(newly_revealed(mid, swept, r, c));
                        if !(r == y as int && c == x as int) {
                            lemma_sources_same_cells(mid, swept, *self, r, c);
                        }
                    }
                }
            }
        }
    }

    /// Whether every safe cell stands revealed: the winning condition.
    pub fn all_safe_cells_revealed(&self) -> (r: bool)
        requires
            self.wf_dims(),
        ensures
            r == self.all_safe_revealed(),
    {
        let mut i: i32 = 0;
        while i < self.row
            invariant
                0 <= i <= self.row,
                self.wf_dims(),
                forall|r: int, c: int|
                    0 <= r < i && 0 <= c < self.column ==> ((#[trigger] self.cell(r, c)).is_bomb
                        || self.cell(r, c).revealed),
            decreases self.row - i,
        {
            let mut j: i32 = 0;
            while j < self.column
                invariant
                    0 <= i < self.row,
                    0 <= j <= self.column,
                    self.wf_dims(),
                    forall|r: int, c: int|
                        0 <= r < i && 0 <= c < self.column ==> ((#[trigger] self.cell(
                            r,
                            c,
                        )).is_bomb || self.cell(r, c).revealed),
                    forall|c: int|
                        0 <= c < j ==> ((#[trigger] self.cell(i as int, c)).is_bomb || self.cell(
                            i as int,
                            c,
                        ).revealed),
                decreases self.column - j,
            {
                let idx = self.flat_index(i, j);
                let cell = self.cells[idx];
                if !cell.is_bomb && !cell.revealed {
                    proof {
                        assert(self.in_bounds(i as int, j as int));
                        assert(!self.cell(i as int, j as int).is_bomb && !self.cell(
                            i as int,
                            j as int,
                        ).revealed);
                    }
                    return false;
                }
                j = j + 1;
            }
            i = i + 1;
        }
        true
    }
}

} // verus!
