use vstd::prelude::*;

use crate::constants::{NUM_REWARDS, TICK_ARRAY_SIZE};

verus! {

/// The state of a pool that the pricing and liquidity math reads.
#[derive(Copy, Clone, Debug, PartialEq, Eq, Default)]
pub struct WhirlpoolFacade {
    pub tick_spacing: u16,
    pub fee_rate: u16,
    pub protocol_fee_rate: u16,
    pub liquidity: u128,
    pub sqrt_price: u128,
    pub tick_current_index: i32,
    pub fee_growth_global_a: u128,
    pub fee_growth_global_b: u128,
    pub reward_last_updated_timestamp: u64,
    pub reward_infos: [WhirlpoolRewardInfoFacade; NUM_REWARDS],
}

/// One reward slot of a pool.
#[derive(Copy, Clone, Debug, PartialEq, Eq, Default)]
pub struct WhirlpoolRewardInfoFacade {
    pub emissions_per_second_x64: u128,
    pub growth_global_x64: u128,
}

/// A range of ticks, from its lower to its upper bound.
#[derive(Copy, Clone, Debug, PartialEq, Eq, Default)]
pub struct TickRange {
    pub tick_lower_index: i32,
    pub tick_upper_index: i32,
}

/// One tick of a tick array.
#[derive(Copy, Clone, Debug, PartialEq, Eq, Default)]
pub struct TickFacade {
    pub initialized: bool,
    pub liquidity_net: i128,
    pub liquidity_gross: u128,
    pub fee_growth_outside_a: u128,
    pub fee_growth_outside_b: u128,
    pub reward_growths_outside: [u128; 3],
}

/// A tick array: `TICK_ARRAY_SIZE` consecutive initializable ticks, the first of
/// which sits at `start_tick_index`.
#[derive(Copy, Clone, Debug, PartialEq, Eq)]
pub struct TickArrayFacade {
    pub start_tick_index: i32,
    pub ticks: [TickFacade; TICK_ARRAY_SIZE],
}

} // verus!
