# orca_tick_arrays

Tick arrays of a concentrated-liquidity pool, verified with Verus.

- `src/types.rs`: the facade types of a pool, its ticks and tick arrays.
- `src/tick.rs`: tick-index arithmetic (start of the tick array that holds a
  tick, rounding to the tick spacing, next and previous initializable tick).
- `src/tick_array.rs`: `TickArraySequence`, a set of tick arrays keyed by account
  address whose start indices must be evenly spaced; lookups of ticks and the
  searches for the next and previous initialized tick.
- `src/entries.rs`: the collections behind a sequence and their lemmas.
- `src/pubkey.rs`: the account address type of `solana_program` and the two
  calls the library makes on it.
- `src/laws.rs`: properties that span several functions.
- `app/`: byte-layout copies of the facade types for `bytemuck`, and
  constructors that take any iterator.
