use vstd::prelude::*;

verus! {

/// One step of a xorshift-style pseudo-random generator, used to drive mine
/// placement. Nothing is claimed about the values it produces: every
/// contract in this crate holds for every possible sequence of draws. The
/// added constant keeps the all-zero state from being a fixed point.
pub fn next_random(state: u64) -> u64 {
    let mut s: u64 = state ^ 0x9E3779B97F4A7C15u64;
    s = s ^ (s << 13);
    s = s ^ (s >> 7);
    s = s ^ (s << 17);
    s
}

} // verus!
