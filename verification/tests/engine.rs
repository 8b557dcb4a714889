use minesweeper::adjacency::is_adjacent_cell;
use minesweeper::Board;
use minesweeper::ConfigError;

// Snapshot field offsets: x_pos, y_pos, is_bomb, total_bomb, revealed,
// flaged, bomb_triggered.
const X_POS: usize = 0;
const Y_POS: usize = 1;
const IS_BOMB: usize = 2;
const TOTAL_BOMB: usize = 3;
const REVEALED: usize = 4;
const FLAGED: usize = 5;
const TRIGGERED: usize = 6;

fn field(details: &[i32], columns: i32, r: i32, c: i32, f: usize) -> i32 {
    details[((r * columns + c) * 7) as usize + f]
}

/// A 4x4 board whose whole mine budget (7) must land on the only 7 cells
/// outside the exclusion zone of a first click at (1, 1): column 3 and
/// row 3. Placement is forced, so every expectation is exact. A flag on
/// (0, 0) keeps that safe cell out of the first cascade, so the game is
/// still running afterwards.
fn board_4x4_seven_mines_clicked() -> Board {
    let mut b = Board::new(4, 4, 10, 7).unwrap();
    b.toggle_flag(0, 0);
    b.reveal_cell(1, 1);
    b
}

fn is_mine_4x4(r: i32, c: i32) -> bool {
    r == 3 || c == 3
}

#[test]
fn one_by_two_zero_mines_is_won_in_one_reveal() {
    let mut b = Board::new(1, 2, 10, 0).unwrap();
    assert_eq!(b.get_state(), 0);
    b.reveal_cell(0, 0);
    assert_eq!(b.get_state(), 2);
    let d = b.flat_cells_details();
    assert_eq!(d.len(), 1 * 2 * 7);
    for c in 0..2 {
        assert_eq!(field(&d, 2, 0, c, IS_BOMB), 0);
        assert_eq!(field(&d, 2, 0, c, TOTAL_BOMB), 0);
        assert_eq!(field(&d, 2, 0, c, REVEALED), 1);
    }
}

#[test]
fn three_by_three_with_eight_mines_is_rejected() {
    assert!(matches!(Board::new(3, 3, 10, 8), Err(ConfigError::TooManyMines)));
}

#[test]
fn non_positive_dimensions_are_rejected() {
    assert!(matches!(Board::new(0, 5, 10, 1), Err(ConfigError::InvalidDimensions)));
    assert!(matches!(Board::new(5, 0, 10, 1), Err(ConfigError::InvalidDimensions)));
    assert!(matches!(Board::new(5, 5, 0, 1), Err(ConfigError::InvalidDimensions)));
    assert!(matches!(Board::new(-1, 5, 10, 1), Err(ConfigError::InvalidDimensions)));
}

#[test]
fn negative_mine_count_is_rejected() {
    assert!(matches!(Board::new(4, 4, 10, -1), Err(ConfigError::TooManyMines)));
}

#[test]
fn largest_mine_count_for_grid_is_accepted() {
    // 4x4 leaves 16 - 9 = 7 eligible cells whatever the first click.
    assert!(Board::new(4, 4, 10, 7).is_ok());
    assert!(matches!(Board::new(4, 4, 10, 8), Err(ConfigError::TooManyMines)));
}

#[test]
fn getters_report_construction_values() {
    let b = Board::new(5, 7, 12, 3).unwrap();
    assert_eq!(b.get_row(), 5);
    assert_eq!(b.get_column(), 7);
    assert_eq!(b.get_cell_size(), 12);
    assert_eq!(b.get_total_flags_left(), 3);
    assert_eq!(b.get_state(), 0);
}

#[test]
fn snapshot_holds_pixel_positions() {
    let b = Board::new(2, 3, 10, 0).unwrap();
    let d = b.flat_cells_details();
    for r in 0..2 {
        for c in 0..3 {
            assert_eq!(field(&d, 3, r, c, X_POS), c * 10);
            assert_eq!(field(&d, 3, r, c, Y_POS), r * 10);
        }
    }
}

#[test]
fn placement_count_and_exclusion_zone() {
    let b = board_4x4_seven_mines_clicked();
    let d = b.flat_cells_details();
    let mut mines = 0;
    for r in 0..4 {
        for c in 0..4 {
            let m = field(&d, 4, r, c, IS_BOMB);
            mines += m;
            if (r - 1).abs() <= 1 && (c - 1).abs() <= 1 {
                assert_eq!(m, 0, "mine inside the exclusion zone at {},{}", r, c);
            }
        }
    }
    assert_eq!(mines, 7);
}

#[test]
fn hints_count_adjacent_mines_and_mines_hold_sentinel() {
    let b = board_4x4_seven_mines_clicked();
    let d = b.flat_cells_details();
    for r in 0..4 {
        for c in 0..4 {
            if is_mine_4x4(r, c) {
                assert_eq!(field(&d, 4, r, c, TOTAL_BOMB), 1);
            } else {
                let mut expect = 0;
                for dr in -1..=1 {
                    for dc in -1..=1 {
                        if (dr, dc) != (0, 0)
                            && (0..4).contains(&(r + dr))
                            && (0..4).contains(&(c + dc))
                            && is_mine_4x4(r + dr, c + dc)
                        {
                            expect += 1;
                        }
                    }
                }
                assert_eq!(field(&d, 4, r, c, TOTAL_BOMB), expect);
            }
        }
    }
    // spot checks with literal values
    assert_eq!(field(&d, 4, 1, 1, TOTAL_BOMB), 0);
    assert_eq!(field(&d, 4, 0, 2, TOTAL_BOMB), 2);
    assert_eq!(field(&d, 4, 1, 2, TOTAL_BOMB), 3);
    assert_eq!(field(&d, 4, 2, 2, TOTAL_BOMB), 5);
    assert_eq!(field(&d, 4, 2, 0, TOTAL_BOMB), 2);
}

#[test]
fn cascade_reveals_zero_region_and_border_only() {
    let b = board_4x4_seven_mines_clicked();
    assert_eq!(b.get_state(), 1);
    let d = b.flat_cells_details();
    for r in 0..4 {
        for c in 0..4 {
            let revealed = field(&d, 4, r, c, REVEALED);
            if is_mine_4x4(r, c) {
                assert_eq!(revealed, 0, "cascade revealed the mine at {},{}", r, c);
            } else if (r, c) == (0, 0) {
                assert_eq!(revealed, 0, "cascade went through the flag at 0,0");
            } else {
                assert_eq!(revealed, 1, "cascade missed the safe cell at {},{}", r, c);
            }
        }
    }
}

#[test]
fn revealing_a_revealed_zero_cell_changes_nothing() {
    let mut b = board_4x4_seven_mines_clicked();
    let before = b.flat_cells_details();
    let flags_before = b.get_total_flags_left();
    b.reveal_cell(1, 1);
    assert_eq!(b.flat_cells_details(), before);
    assert_eq!(b.get_total_flags_left(), flags_before);
    assert_eq!(b.get_state(), 1);
}

#[test]
fn revealing_a_mine_loses_and_discloses_every_mine() {
    let mut b = board_4x4_seven_mines_clicked();
    b.reveal_cell(3, 3);
    assert_eq!(b.get_state(), 3);
    let d = b.flat_cells_details();
    for r in 0..4 {
        for c in 0..4 {
            if is_mine_4x4(r, c) {
                assert_eq!(field(&d, 4, r, c, REVEALED), 1);
            }
            let expect_trigger = if (r, c) == (3, 3) { 1 } else { 0 };
            assert_eq!(field(&d, 4, r, c, TRIGGERED), expect_trigger);
        }
    }
}

#[test]
fn lost_board_ignores_further_moves() {
    let mut b = board_4x4_seven_mines_clicked();
    b.reveal_cell(3, 3);
    let after_loss = b.flat_cells_details();
    let flags = b.get_total_flags_left();
    b.reveal_cell(0, 3);
    b.toggle_flag(0, 3);
    assert_eq!(b.get_state(), 3);
    assert_eq!(b.flat_cells_details(), after_loss);
    assert_eq!(b.get_total_flags_left(), flags);
}

#[test]
fn board_is_won_exactly_when_every_safe_cell_is_revealed() {
    // 3x4 with 3 mines, clicked at the centre of the exclusion zone: the
    // mines must fill column 3, and the first cascade reveals every safe
    // cell at once.
    let mut b = Board::new(3, 4, 10, 3).unwrap();
    b.reveal_cell(1, 1);
    assert_eq!(b.get_state(), 2);
    let d = b.flat_cells_details();
    for r in 0..3 {
        for c in 0..3 {
            assert_eq!(field(&d, 4, r, c, REVEALED), 1);
        }
        assert_eq!(field(&d, 4, r, 3, IS_BOMB), 1);
        assert_eq!(field(&d, 4, r, 3, REVEALED), 0);
    }
}

#[test]
fn won_board_is_terminal() {
    let mut b = Board::new(3, 4, 10, 3).unwrap();
    b.reveal_cell(1, 1);
    assert_eq!(b.get_state(), 2);
    let snapshot = b.flat_cells_details();
    b.reveal_cell(0, 3);
    b.toggle_flag(0, 0);
    assert_eq!(b.get_state(), 2);
    assert_eq!(b.flat_cells_details(), snapshot);
}

#[test]
fn flagging_moves_the_budget_both_ways() {
    let mut b = Board::new(4, 4, 10, 7).unwrap();
    assert_eq!(b.get_total_flags_left(), 7);
    b.toggle_flag(0, 0);
    assert_eq!(b.get_total_flags_left(), 6);
    let d = b.flat_cells_details();
    assert_eq!(field(&d, 4, 0, 0, FLAGED), 1);
    b.toggle_flag(0, 0);
    assert_eq!(b.get_total_flags_left(), 7);
    let d2 = b.flat_cells_details();
    assert_eq!(field(&d2, 4, 0, 0, FLAGED), 0);
}

#[test]
fn flag_budget_goes_negative_without_clamping() {
    let mut b = Board::new(2, 2, 10, 0).unwrap();
    b.toggle_flag(0, 0);
    b.toggle_flag(1, 0);
    b.toggle_flag(0, 1);
    assert_eq!(b.get_total_flags_left(), -3);
}

#[test]
fn flagging_a_revealed_cell_is_ignored() {
    let mut b = board_4x4_seven_mines_clicked();
    let flags = b.get_total_flags_left();
    b.toggle_flag(1, 1);
    assert_eq!(b.get_total_flags_left(), flags);
    let d = b.flat_cells_details();
    assert_eq!(field(&d, 4, 1, 1, FLAGED), 0);
}

#[test]
fn flagged_cell_blocks_the_cascade_until_unflagged() {
    let mut b = Board::new(4, 4, 10, 7).unwrap();
    b.toggle_flag(0, 0);
    b.reveal_cell(1, 1);
    assert_eq!(b.get_state(), 1);
    let d = b.flat_cells_details();
    assert_eq!(field(&d, 4, 0, 0, REVEALED), 0);
    assert_eq!(field(&d, 4, 0, 0, FLAGED), 1);
    // revealing the flagged cell is also a no-op
    b.reveal_cell(0, 0);
    assert_eq!(field(&b.flat_cells_details(), 4, 0, 0, REVEALED), 0);
    // unflag it: the flag budget comes back, and revealing it wins
    b.toggle_flag(0, 0);
    assert_eq!(b.get_total_flags_left(), 7);
    b.reveal_cell(0, 0);
    assert_eq!(b.get_state(), 2);
}

#[test]
fn flags_survive_the_first_cascade_elsewhere() {
    let mut b = Board::new(4, 4, 10, 7).unwrap();
    b.toggle_flag(3, 3);
    b.reveal_cell(1, 1);
    let d = b.flat_cells_details();
    assert_eq!(field(&d, 4, 3, 3, FLAGED), 1);
    assert_eq!(b.get_total_flags_left(), 6);
}

#[test]
fn adjacency_is_the_eight_neighbourhood() {
    assert!(is_adjacent_cell(5, 5, 4, 4));
    assert!(is_adjacent_cell(5, 5, 5, 4));
    assert!(is_adjacent_cell(5, 5, 6, 6));
    assert!(is_adjacent_cell(5, 5, 4, 6));
    assert!(!is_adjacent_cell(5, 5, 5, 5));
    assert!(!is_adjacent_cell(5, 5, 7, 5));
    assert!(!is_adjacent_cell(5, 5, 3, 4));
}
