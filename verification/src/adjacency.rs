use vstd::prelude::*;

verus! {

/// True iff the target position lies one step from the reference position in
/// one of the 8 compass directions (and is not the reference itself).
pub open spec fn spec_adjacent(ref_x: int, ref_y: int, target_x: int, target_y: int) -> bool {
    &&& !(target_x == ref_x && target_y == ref_y)
    &&& ref_x - 1 <= target_x <= ref_x + 1
    &&& ref_y - 1 <= target_y <= ref_y + 1
}

/// 8-neighbourhood adjacency test. Pure geometry: no bounds checking, the
/// caller supplies whatever coordinates it likes.
pub fn is_adjacent_cell(ref_x: i32, ref_y: i32, target_x: i32, target_y: i32) -> (r: bool)
    ensures
        r == spec_adjacent(ref_x as int, ref_y as int, target_x as int, target_y as int),
{
    let dx: i64 = target_x as i64 - ref_x as i64;
    let dy: i64 = target_y as i64 - ref_y as i64;
    !(dx == 0 && dy == 0) && -1 <= dx && dx <= 1 && -1 <= dy && dy <= 1
}

/// The zone around a first click in which mine placement is forbidden:
/// the clicked cell itself plus its 8 neighbours. Coordinates are given as
/// (column, row) pairs, matching the click coordinates the host supplies.
pub open spec fn in_exclusion_zone(first_x: int, first_y: int, c: int, r: int) -> bool {
    first_x - 1 <= c <= first_x + 1 && first_y - 1 <= r <= first_y + 1
}

} // verus!
