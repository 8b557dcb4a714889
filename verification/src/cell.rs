use vstd::prelude::*;

verus! {

/// One grid square.
///
/// `x_pos` and `y_pos` are the pixel coordinates of the square's corner
/// (column index times the cell size, row index times the cell size); they
/// are redundant with the square's position in the grid but are part of the
/// snapshot handed to the renderer. `total_bomb` is the adjacency hint: the
/// number of mine-bearing cells among the 8 neighbours, except that a mine
/// cell carries the sentinel value 1, since its hint is never shown.
#[derive(Clone, Copy, PartialEq, Eq, Structural, Debug)]
pub struct Cell {
    pub x_pos: i32,
    pub y_pos: i32,
    pub is_bomb: bool,
    pub total_bomb: i32,
    pub revealed: bool,
    pub flaged: bool,
    pub bomb_triggered: bool,
}

impl Cell {
    /// A fresh cell: no hint computed yet, unrevealed, unflagged, untriggered.
    pub fn new(x_pos: i32, y_pos: i32, is_bomb: bool) -> (c: Cell)
        ensures
            c == (Cell {
                x_pos,
                y_pos,
                is_bomb,
                total_bomb: 0,
                revealed: false,
                flaged: false,
                bomb_triggered: false,
            }),
    {
        Cell {
            x_pos,
            y_pos,
            is_bomb,
            total_bomb: 0,
            revealed: false,
            flaged: false,
            bomb_triggered: false,
        }
    }
}

} // verus!
