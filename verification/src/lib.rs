//! Tick arrays of a concentrated-liquidity pool: the facade types that mirror the
//! on-chain accounts, the tick-index arithmetic, and `TickArraySequence`, a
//! validated window of consecutive tick arrays that answers tick lookups and
//! searches for the next and previous initialized tick.

pub mod constants;
pub mod error;
pub mod types;
pub mod pubkey;
pub mod tick;
pub mod entries;
pub mod tick_array;
pub mod laws;

pub use constants::{MAX_TICK_INDEX, MIN_TICK_INDEX, NUM_REWARDS, TICK_ARRAY_SIZE};
pub use error::{
    CoreError, INVALID_TICK_ARRAY_SEQUENCE, INVALID_TICK_INDEX, TICK_ARRAY_NOT_EVENLY_SPACED,
    TICK_INDEX_OUT_OF_BOUNDS, TICK_SEQUENCE_EMPTY,
};
pub use tick::{
    get_initializable_tick_index, get_next_initializable_tick_index,
    get_prev_initializable_tick_index, get_tick_array_start_tick_index,
};
pub use tick_array::{validate_evenly_spaced, TickArraySequence};
pub use types::{
    TickArrayFacade, TickFacade, TickRange, WhirlpoolFacade, WhirlpoolRewardInfoFacade,
};
pub use solana_program::pubkey::Pubkey;
