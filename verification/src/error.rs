use vstd::prelude::*;

verus! {

/// The errors of this library are static messages.
pub type CoreError = &'static str;

/// The start indices of the tick arrays are not spaced by exactly one array's width.
pub const TICK_ARRAY_NOT_EVENLY_SPACED: CoreError = "Tick array not evenly spaced";

/// The tick index lies outside the range the sequence covers.
pub const TICK_INDEX_OUT_OF_BOUNDS: CoreError = "Tick index out of bounds";

/// The tick index is not a multiple of the tick spacing.
pub const INVALID_TICK_INDEX: CoreError = "Invalid tick index";

/// The sequence cannot answer: a needed tick array is missing, or the query lies past its end.
pub const INVALID_TICK_ARRAY_SEQUENCE: CoreError = "Invalid tick array sequence";

/// No tick array was given.
pub const TICK_SEQUENCE_EMPTY: CoreError = "Tick sequence empty";

} // verus!
