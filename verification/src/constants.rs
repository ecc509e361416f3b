use vstd::prelude::*;

verus! {

/// Number of ticks held by one tick array.
pub const TICK_ARRAY_SIZE: usize = 88;

/// Smallest tick index a pool can reach.
pub const MIN_TICK_INDEX: i32 = -443636;

/// Largest tick index a pool can reach.
pub const MAX_TICK_INDEX: i32 = 443636;

/// Number of reward slots of a pool.
pub const NUM_REWARDS: usize = 3;

} // verus!
