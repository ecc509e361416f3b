//! `TickArraySequence`: a set of tick arrays of one pool, keyed by account
//! address, whose start indices must be spaced by exactly one array's width.
use vstd::prelude::*;
use vstd::relations::sorted_by;
use std::collections::HashSet;

use solana_program::pubkey::Pubkey;

use crate::constants::{MAX_TICK_INDEX, MIN_TICK_INDEX, TICK_ARRAY_SIZE};
use crate::entries::{
    ascending, contains_start, distinct_keys, distinct_starts, find_key, insert_ascending,
    insert_entry, insert_start, le_i32, map_of, remove_start, starts_of, strictly_increasing,
    without_start, sorted_by_key, lemma_map_of_distinct, lemma_distinct_starts_of_subset,
    lemma_strictly_increasing_unique, lemma_ascending_of, lemma_le_total, add_arrays,
    lemma_distinct_starts_after_insert, lemma_starts_of_take_next, lemma_sorted_same_elements,
};
use crate::error::{
    CoreError, INVALID_TICK_ARRAY_SEQUENCE, INVALID_TICK_INDEX, TICK_ARRAY_NOT_EVENLY_SPACED,
    TICK_INDEX_OUT_OF_BOUNDS, TICK_SEQUENCE_EMPTY,
};
use crate::tick::{
    array_start_of, array_width, get_initializable_tick_index, get_next_initializable_tick_index,
    get_prev_initializable_tick_index, get_tick_array_start_tick_index, lemma_array_start_of,
    lemma_floor_to_spacing, lemma_multiples_apart, floor_to_spacing,
};
use crate::types::{TickArrayFacade, TickFacade};
use crate::pubkey::{pubkey_new_from_array, pubkey_of_bytes};

verus! {

/// The difference between the element after position `i` of `s` and the one at `i`.
pub open spec fn gap(s: Seq<i32>, i: int) -> int {
    s[i + 1] - s[i]
}

/// Each element of `s` is one array width, for `tick_spacing`, above the one before it.
pub open spec fn evenly_spaced(s: Seq<i32>, tick_spacing: int) -> bool {
    forall|i: int| 0 <= i < s.len() - 1 ==> #[trigger] gap(s, i) == array_width(tick_spacing)
}

/// Every difference between neighbours of `s` that a left-to-right check of even
/// spacing computes (up to and including the first one that is off) fits in an `i32`.
pub open spec fn gaps_fit(s: Seq<i32>, tick_spacing: int) -> bool {
    forall|i: int|
        0 <= i < s.len() - 1 && (forall|j: int|
            0 <= j < i ==> #[trigger] gap(s, j) == array_width(tick_spacing)) ==> i32::MIN
            <= #[trigger] gap(s, i) <= i32::MAX
}

/// Checks that the start indices, in the order given, are each one array width
/// above the previous one.
pub fn validate_evenly_spaced(start_indices: &[i32], tick_spacing: u16) -> (result: Result<
    (),
    CoreError,
>)
    requires
        gaps_fit(start_indices@, tick_spacing as int),
    ensures
        start_indices@.len() == 0 ==> result == Err::<(), CoreError>(TICK_SEQUENCE_EMPTY),
        start_indices@.len() > 0 ==> (result is Ok <==> evenly_spaced(
            start_indices@,
            tick_spacing as int,
        )),
        start_indices@.len() > 0 && !evenly_spaced(start_indices@, tick_spacing as int)
            ==> result == Err::<(), CoreError>(TICK_ARRAY_NOT_EVENLY_SPACED),
{
    if start_indices.len() == 0 {
        return Err(TICK_SEQUENCE_EMPTY);
    }
    let array_size = TICK_ARRAY_SIZE as i32;
    assert(array_size == 88);
    let required_tick_array_spacing = array_size * (tick_spacing as i32);
    let mut i: usize = 0;
    while i < start_indices.len() - 1
        invariant
            0 <= i <= start_indices@.len() - 1,
            start_indices@.len() > 0,
            gaps_fit(start_indices@, tick_spacing as int),
            required_tick_array_spacing == array_width(tick_spacing as int),
            forall|j: int| 0 <= j < i ==> #[trigger] gap(start_indices@, j) == array_width(
                tick_spacing as int,
            ),
        decreases start_indices@.len() - 1 - i,
    {
        let current = start_indices[i];
        let next = start_indices[i + 1];
        assert(gap(start_indices@, i as int) == next - current);
        let actual_spacing = next - current;
        if actual_spacing != required_tick_array_spacing {
            return Err(TICK_ARRAY_NOT_EVENLY_SPACED);
        }
        i = i + 1;
    }
    Ok(())
}

/// The start indices of `entries`, in ascending order, equal ones repeated.
fn sorted_start_indices(entries: &Vec<(Pubkey, TickArrayFacade)>) -> (sorted: Vec<i32>)
    ensures
        sorted@ == starts_of(entries@).sort_by(le_i32()),
{
    let mut sorted: Vec<i32> = Vec::new();
    let mut i: usize = 0;
    proof {
        assert(starts_of(entries@.take(0)) =~= Seq::<i32>::empty());
        assert(sorted@ =~= Seq::<i32>::empty());
        broadcast use vstd::seq_lib::group_to_multiset_ensures;
        assert(Seq::<i32>::empty().to_multiset().len() == 0);
        assert(sorted@.to_multiset() =~= starts_of(entries@.take(0)).to_multiset());
    }
    while i < entries.len()
        invariant
            0 <= i <= entries@.len(),
            sorted_by(sorted@, le_i32()),
            sorted@.to_multiset() == starts_of(entries@.take(i as int)).to_multiset(),
        decreases entries@.len() - i,
    {
        insert_ascending(&mut sorted, entries[i].1.start_tick_index);
        proof {
            assert(starts_of(entries@.take(i + 1)) =~= starts_of(entries@.take(i as int)).push(
                entries@[i as int].1.start_tick_index,
            ));
            broadcast use vstd::seq_lib::group_to_multiset_ensures;
        }
        i = i + 1;
    }
    proof {
        assert(entries@.take(entries@.len() as int) =~= entries@);
        let st = starts_of(entries@);
        lemma_le_total();
        st.lemma_sort_by_ensures(le_i32());
        vstd::seq_lib::lemma_sorted_unique(sorted@, st.sort_by(le_i32()), le_i32());
    }
    sorted
}

/// In an evenly spaced sequence, the element at position `i` lies `i` array
/// widths above the first.
pub proof fn lemma_evenly_spaced_values(s: Seq<i32>, tick_spacing: int)
    requires
        evenly_spaced(s, tick_spacing),
    ensures
        forall|i: int| 0 <= i < s.len() ==> #[trigger] s[i] == s[0] + i * array_width(tick_spacing),
{
    let w = array_width(tick_spacing);
    assert forall|i: int| 0 <= i < s.len() implies #[trigger] s[i] == s[0] + i * w by {
        lemma_evenly_spaced_value_at(s, tick_spacing, i);
    }
}

proof fn lemma_evenly_spaced_value_at(s: Seq<i32>, tick_spacing: int, i: int)
    requires
        evenly_spaced(s, tick_spacing),
        0 <= i < s.len(),
    ensures
        s[i] == s[0] + i * array_width(tick_spacing),
    decreases i,
{
    if i == 0 {
        assert(0 * array_width(tick_spacing) == 0);
    } else {
        lemma_evenly_spaced_value_at(s, tick_spacing, i - 1);
        assert(gap(s, i - 1) == array_width(tick_spacing));
        assert(s[i] == s[i - 1] + array_width(tick_spacing));
        assert((i - 1) * array_width(tick_spacing) + array_width(tick_spacing) == i * array_width(
            tick_spacing,
        )) by (nonlinear_arith);
    }
}

/// When the sorted start indices `st` are evenly spaced, so are the ascending
/// distinct ones, and for a positive spacing no start index repeats.
proof fn lemma_sorted_spacing(st: Seq<i32>, starts: Seq<i32>, tick_spacing: int)
    requires
        evenly_spaced(st.sort_by(le_i32()), tick_spacing),
        strictly_increasing(starts),
        starts.to_set() == st.to_set(),
        st.len() > 0,
        tick_spacing >= 0,
    ensures
        evenly_spaced(starts, tick_spacing),
        tick_spacing > 0 ==> st.no_duplicates(),
{
    broadcast use vstd::seq_lib::group_to_multiset_ensures;

    let sorted = st.sort_by(le_i32());
    lemma_le_total();
    st.lemma_sort_by_ensures(le_i32());
    let w = array_width(tick_spacing);
    assert(sorted.len() == st.len()) by {
        assert(sorted.to_multiset().len() == st.to_multiset().len());
    }
    assert(sorted.to_set() =~= st.to_set()) by {
        assert forall|a: i32| sorted.contains(a) <==> st.contains(a) by {
            assert(sorted.contains(a) <==> sorted.to_multiset().count(a) > 0);
            assert(st.contains(a) <==> st.to_multiset().count(a) > 0);
        }
    }
    lemma_evenly_spaced_values(sorted, tick_spacing);
    if tick_spacing > 0 {
        assert(strictly_increasing(sorted)) by {
            assert forall|i: int, j: int| 0 <= i < j < sorted.len() implies #[trigger] sorted[i]
                < #[trigger] sorted[j] by {
                assert(i * w < j * w) by (nonlinear_arith)
                    requires
                        i < j,
                        w > 0,
                ;
            }
        }
        lemma_strictly_increasing_unique(sorted, starts);
        assert(sorted.no_duplicates());
        sorted.lemma_multiset_has_no_duplicates();
        st.lemma_multiset_has_no_duplicates_conv();
    } else {
        assert(w == 0);
        assert(starts.len() == 1) by {
            assert(starts.to_set().contains(sorted[0])) by {
                assert(sorted.contains(sorted[0]));
            }
            assert(starts.contains(sorted[0]));
            if starts.len() >= 2 {
                assert(starts.contains(starts[0]));
                assert(starts.contains(starts[1]));
                assert(starts.to_set().contains(starts[0]));
                assert(starts.to_set().contains(starts[1]));
                assert(sorted.to_set().contains(starts[0]));
                assert(sorted.to_set().contains(starts[1]));
                assert(sorted.contains(starts[0]));
                assert(sorted.contains(starts[1]));
                let a = choose|a: int| 0 <= a < sorted.len() && sorted[a] == starts[0];
                let b = choose|b: int| 0 <= b < sorted.len() && sorted[b] == starts[1];
                assert(sorted[a] == sorted[0] + a * w);
                assert(a * w == 0) by (nonlinear_arith)
                    requires
                        w == 0,
                ;
                assert(b * w == 0) by (nonlinear_arith)
                    requires
                        w == 0,
                ;
            }
        }
    }
}

/// The pairs of `s` hold distinct start indices when the start indices of `s`
/// repeat nowhere.
proof fn lemma_distinct_starts_of_no_duplicates(s: Seq<(Pubkey, TickArrayFacade)>)
    requires
        starts_of(s).no_duplicates(),
    ensures
        distinct_starts(s),
{
    assert forall|i: int, j: int| 0 <= i < s.len() && 0 <= j < s.len() && i != j implies #[trigger] s[i].1.start_tick_index
        != #[trigger] s[j].1.start_tick_index by {
        assert(starts_of(s)[i] == s[i].1.start_tick_index);
        assert(starts_of(s)[j] == s[j].1.start_tick_index);
    }
}

/// Byte `i` of the address that `with_default_pubkeys` gives the tick array whose
/// start index has the bit pattern `x`: the bytes of `x` in little-endian order,
/// then zeros.
pub open spec fn default_key_byte(x: u32, i: int) -> u8 {
    if i == 0 {
        (x & 0xff) as u8
    } else if i == 1 {
        ((x >> 8u32) & 0xff) as u8
    } else if i == 2 {
        ((x >> 16u32) & 0xff) as u8
    } else if i == 3 {
        ((x >> 24u32) & 0xff) as u8
    } else {
        0
    }
}

/// The 32 bytes of the address that `with_default_pubkeys` gives the tick array
/// that starts at `start`.
pub open spec fn default_key_bytes(start: i32) -> Seq<u8> {
    Seq::new(32, |i: int| default_key_byte(start as u32, i))
}

/// The pairs that `with_default_pubkeys` hands to `new`: each tick array given,
/// in order, under the address made from its start index.
pub open spec fn default_entries(arrays: Seq<Option<TickArrayFacade>>) -> Seq<
    (Pubkey, TickArrayFacade),
>
    decreases arrays.len(),
{
    if arrays.len() == 0 {
        Seq::empty()
    } else {
        let before = default_entries(arrays.drop_last());
        match arrays.last() {
            Some(f) => before.push((pubkey_of_bytes(default_key_bytes(f.start_tick_index)), f)),
            None => before,
        }
    }
}

/// Different start indices give different address bytes.
pub proof fn lemma_default_key_bytes_injective(a: i32, b: i32)
    requires
        default_key_bytes(a) == default_key_bytes(b),
    ensures
        a == b,
{
    let x = #[verifier::truncate] (a as u32);
    let y = #[verifier::truncate] (b as u32);
    let sa = default_key_bytes(a);
    let sb = default_key_bytes(b);
    assert forall|i: int| 0 <= i < 4 implies default_key_byte(x, i) == default_key_byte(y, i) by {
        assert(sa[i] == default_key_byte(x, i));
        assert(sb[i] == default_key_byte(y, i));
    }
    assert(default_key_byte(x, 0) == default_key_byte(y, 0));
    assert(default_key_byte(x, 1) == default_key_byte(y, 1));
    assert(default_key_byte(x, 2) == default_key_byte(y, 2));
    assert(default_key_byte(x, 3) == default_key_byte(y, 3));
    assert(x == y) by (bit_vector)
        requires
            (x & 0xff) as u8 == (y & 0xff) as u8,
            ((x >> 8u32) & 0xff) as u8 == ((y >> 8u32) & 0xff) as u8,
            ((x >> 16u32) & 0xff) as u8 == ((y >> 16u32) & 0xff) as u8,
            ((x >> 24u32) & 0xff) as u8 == ((y >> 24u32) & 0xff) as u8,
    ;
    assert(a == b) by (bit_vector)
        requires
            a as u32 == b as u32,
    ;
}

/// The address bytes for the tick array that starts at `start`.
fn default_key(start: i32) -> (bytes: [u8; 32])
    ensures
        bytes@ == default_key_bytes(start),
{
    let x = start as u32;
    let mut bytes = [0u8; 32];
    bytes[0] = (x & 0xff) as u8;
    bytes[1] = ((x >> 8u32) & 0xff) as u8;
    bytes[2] = ((x >> 16u32) & 0xff) as u8;
    bytes[3] = ((x >> 24u32) & 0xff) as u8;
    assert(bytes@ =~= default_key_bytes(start));
    bytes
}

/// A set of tick arrays of one pool: each tick array under the address of its
/// account, the start indices of the arrays loaded, and the tick spacing.
#[derive(Clone, Debug, PartialEq, Eq)]
pub struct TickArraySequence {
    tick_arrays: Vec<(Pubkey, TickArrayFacade)>,
    current_tick_arrays: Vec<i32>,
    tick_spacing: u16,
}

impl TickArraySequence {
    /// The tick arrays, one pair per address.
    pub closed spec fn entries(&self) -> Seq<(Pubkey, TickArrayFacade)> {
        self.tick_arrays@
    }

    /// The start indices of the tick arrays loaded, in ascending order.
    pub closed spec fn starts(&self) -> Seq<i32> {
        self.current_tick_arrays@
    }

    /// The tick spacing of the pool.
    pub closed spec fn spacing(&self) -> u16 {
        self.tick_spacing
    }

    /// The tick arrays by address.
    pub open spec fn arrays(&self) -> Map<Pubkey, TickArrayFacade> {
        map_of(self.entries())
    }

    /// The invariant: one pair per address, the pairs in ascending byte-wise order
    /// of their addresses, ascending and non-empty start indices that include the
    /// start of every tick array held, and, for a positive tick spacing, one tick
    /// array per start index.
    pub open spec fn wf(&self) -> bool {
        &&& distinct_keys(self.entries())
        &&& sorted_by_key(self.entries())
        &&& strictly_increasing(self.starts())
        &&& self.starts().len() > 0
        &&& forall|i: int|
            0 <= i < self.entries().len() ==> self.starts().contains(
                #[trigger] self.entries()[i].1.start_tick_index,
            )
        &&& self.spacing() > 0 ==> distinct_starts(self.entries())
    }

    /// The first tick index the sequence covers.
    pub open spec fn start_index_spec(&self) -> int {
        let first = self.starts()[0] as int;
        if first < MIN_TICK_INDEX {
            MIN_TICK_INDEX as int
        } else {
            first
        }
    }

    /// The last tick index of the last tick array, before it is capped.
    pub open spec fn last_array_end(&self) -> int {
        self.starts().last() + array_width(self.spacing() as int) - 1
    }

    /// The sum that yields the last tick index fits in an `i32` at each step.
    pub open spec fn end_in_range(&self) -> bool {
        &&& i32::MIN <= self.last_array_end()
        &&& self.starts().last() + array_width(self.spacing() as int) <= i32::MAX
    }

    /// The last tick index the sequence covers.
    pub open spec fn end_index_spec(&self) -> int {
        if self.last_array_end() > MAX_TICK_INDEX {
            MAX_TICK_INDEX as int
        } else {
            self.last_array_end()
        }
    }

    /// Whether a tick array starting at `start` is loaded.
    pub open spec fn is_loaded(&self, start: int) -> bool {
        exists|i: int| 0 <= i < self.starts().len() && self.starts()[i] == start
    }

    /// Whether the tick array under `key` starts at `start`.
    pub open spec fn starts_at(&self, key: Pubkey, start: int) -> bool {
        self.arrays().dom().contains(key) && self.arrays()[key].start_tick_index == start
    }

    /// The tick array that starts at `start`, if the map holds one.
    pub open spec fn array_starting_at(&self, start: int) -> Option<TickArrayFacade> {
        if exists|key: Pubkey| self.starts_at(key, start) {
            Some(self.arrays()[choose|key: Pubkey| self.starts_at(key, start)])
        } else {
            None
        }
    }

    /// What looking up the tick at `tick_index` gives.
    pub open spec fn tick_result(&self, tick_index: int) -> Result<TickFacade, CoreError> {
        let ts = self.spacing() as int;
        if tick_index < self.start_index_spec() || tick_index > self.end_index_spec() {
            Err(TICK_INDEX_OUT_OF_BOUNDS)
        } else if tick_index % ts != 0 {
            Err(INVALID_TICK_INDEX)
        } else {
            let start = array_start_of(tick_index, ts);
            if !self.is_loaded(start) {
                Err(INVALID_TICK_ARRAY_SEQUENCE)
            } else {
                match self.array_starting_at(start) {
                    None => Err(INVALID_TICK_ARRAY_SEQUENCE),
                    Some(array) => Ok(array.ticks@[(tick_index - start) / ts]),
                }
            }
        }
    }

    /// A search for an initialized tick stops at `tick_index`: the lookup fails
    /// there, or finds an initialized tick.
    pub open spec fn stops_at(&self, tick_index: int) -> bool {
        match self.tick_result(tick_index) {
            Err(_) => true,
            Ok(tick) => tick.initialized,
        }
    }

    /// The lookup of the tick at `tick_index` may be made: it does not divide by a
    /// zero tick spacing, nor overflow while computing the last tick index.
    pub open spec fn tick_defined(&self, tick_index: int) -> bool {
        tick_index >= self.start_index_spec() ==> self.end_in_range() && (tick_index
            <= self.end_index_spec() ==> self.spacing() > 0)
    }

    /// `m` is the first tick index above `tick_index`, on the spacing and not past
    /// the end, at which a search for an initialized tick stops.
    pub open spec fn first_stop_after(&self, tick_index: int, m: int) -> bool {
        let ts = self.spacing() as int;
        &&& m % ts == 0
        &&& tick_index < m <= self.end_index_spec()
        &&& self.stops_at(m)
        &&& forall|m2: int|
            tick_index < m2 < m && m2 % ts == 0 ==> !#[trigger] self.stops_at(m2)
    }

    /// `m` is the last tick index at or below `tick_index`, on the spacing and not
    /// before the start, at which a search for an initialized tick stops.
    pub open spec fn last_stop_before(&self, tick_index: int, m: int) -> bool {
        let ts = self.spacing() as int;
        &&& m % ts == 0
        &&& self.start_index_spec() <= m <= tick_index
        &&& self.stops_at(m)
        &&& forall|m2: int|
            m < m2 <= tick_index && m2 % ts == 0 ==> !#[trigger] self.stops_at(m2)
    }

    /// What searching upwards from `tick_index` for an initialized tick gives: the
    /// first tick above it, on the spacing, that is initialized, with its index;
    /// the error of the first lookup on the way that fails; or, when the search
    /// passes the end, no tick and the last tick index.
    pub open spec fn next_initialized_result(&self, tick_index: int) -> Result<
        (Option<TickFacade>, i32),
        CoreError,
    > {
        let end = self.end_index_spec();
        if tick_index >= end {
            Err(INVALID_TICK_ARRAY_SEQUENCE)
        } else if exists|m: int| self.first_stop_after(tick_index, m) {
            let m = choose|m: int| self.first_stop_after(tick_index, m);
            match self.tick_result(m) {
                Err(e) => Err(e),
                Ok(tick) => Ok((Some(tick), m as i32)),
            }
        } else {
            Ok((None, end as i32))
        }
    }

    /// What searching downwards from `tick_index` (itself included) for an
    /// initialized tick gives: the first such tick on the spacing, with its index;
    /// the error of the first lookup on the way that fails; or, when the search
    /// passes the start, no tick and the first tick index.
    pub open spec fn prev_initialized_result(&self, tick_index: int) -> Result<
        (Option<TickFacade>, i32),
        CoreError,
    > {
        let start = self.start_index_spec();
        if tick_index < start {
            Err(INVALID_TICK_ARRAY_SEQUENCE)
        } else if exists|m: int| self.last_stop_before(tick_index, m) {
            let m = choose|m: int| self.last_stop_before(tick_index, m);
            match self.tick_result(m) {
                Err(e) => Err(e),
                Ok(tick) => Ok((Some(tick), m as i32)),
            }
        } else {
            Ok((None, start as i32))
        }
    }

    /// The upward search stops at one place only.
    pub proof fn lemma_first_stop_unique(&self, tick_index: int, a: int, b: int)
        requires
            self.first_stop_after(tick_index, a),
            self.first_stop_after(tick_index, b),
        ensures
            a == b,
    {
        if a < b {
            assert(!self.stops_at(a));
        } else if b < a {
            assert(!self.stops_at(b));
        }
    }

    /// The downward search stops at one place only.
    pub proof fn lemma_last_stop_unique(&self, tick_index: int, a: int, b: int)
        requires
            self.last_stop_before(tick_index, a),
            self.last_stop_before(tick_index, b),
        ensures
            a == b,
    {
        if a < b {
            assert(!self.stops_at(a));
        } else if b < a {
            assert(!self.stops_at(b));
        }
    }

    /// What `new` gives for the pairs `entries` and `tick_spacing`: an error for no
    /// pairs, or when the start indices, sorted, are not evenly spaced; otherwise the
    /// sequence that holds the pairs by address (a later pair for an address
    /// replaces an earlier one) and all their start indices.
    pub open spec fn new_outcome(
        entries: Seq<(Pubkey, TickArrayFacade)>,
        tick_spacing: u16,
        result: Result<TickArraySequence, CoreError>,
    ) -> bool {
        let sorted = starts_of(entries).sort_by(le_i32());
        &&& (result is Ok <==> entries.len() > 0 && evenly_spaced(sorted, tick_spacing as int))
        &&& entries.len() == 0 ==> result == Err::<TickArraySequence, CoreError>(
            TICK_SEQUENCE_EMPTY,
        )
        &&& entries.len() > 0 && !evenly_spaced(sorted, tick_spacing as int) ==> result
            == Err::<TickArraySequence, CoreError>(TICK_ARRAY_NOT_EVENLY_SPACED)
        &&& result matches Ok(s) ==> {
            &&& s.wf()
            &&& s.arrays() == map_of(entries)
            &&& s.starts().to_set() == starts_of(entries).to_set()
            &&& s.spacing() == tick_spacing
            &&& evenly_spaced(s.starts(), tick_spacing as int)
        }
    }

    /// Builds a sequence from tick arrays keyed by address. Fails when none is given,
    /// or when their start indices, sorted, are not spaced by exactly one array width.
    pub fn new(tick_arrays: Vec<(Pubkey, TickArrayFacade)>, tick_spacing: u16) -> (result:
        Result<Self, CoreError>)
        requires
            gaps_fit(starts_of(tick_arrays@).sort_by(le_i32()), tick_spacing as int),
        ensures
            Self::new_outcome(tick_arrays@, tick_spacing, result),
    {
        let ghost input = tick_arrays@;
        let mut map: Vec<(Pubkey, TickArrayFacade)> = Vec::new();
        let mut start_set: Vec<i32> = Vec::new();
        let mut i: usize = 0;
        proof {
            assert(input.take(0) =~= Seq::<(Pubkey, TickArrayFacade)>::empty());
            assert(starts_of(input.take(0)).to_set() =~= start_set@.to_set());
            assert(map_of(map@) =~= map_of(input.take(0)));
        }
        while i < tick_arrays.len()
            invariant
                0 <= i <= input.len(),
                input == tick_arrays@,
                distinct_keys(map@),
                sorted_by_key(map@),
                map_of(map@) == map_of(input.take(i as int)),
                forall|a: int| 0 <= a < map@.len() ==> input.contains(#[trigger] map@[a]),
                strictly_increasing(start_set@),
                start_set@.to_set() == starts_of(input.take(i as int)).to_set(),
            decreases input.len() - i,
        {
            let (pubkey, facade) = tick_arrays[i];
            let ghost old_map = map@;
            let ghost old_set = start_set@;
            insert_entry(&mut map, pubkey, facade);
            insert_start(&mut start_set, facade.start_tick_index);
            proof {
                let t0 = input.take(i as int);
                let t1 = input.take(i + 1);
                assert(t1.drop_last() =~= t0);
                assert(t1.last() == input[i as int]);
                assert(map_of(t1) == map_of(t0).insert(pubkey, facade));
                assert forall|a: int| 0 <= a < map@.len() implies input.contains(#[trigger] map@[a]) by {
                    if map@[a] == (pubkey, facade) {
                        assert(input[i as int] == (pubkey, facade));
                    } else {
                        let b = choose|b: int| 0 <= b < old_map.len() && old_map[b] == map@[a];
                        assert(old_map.contains(old_map[b]));
                    }
                }
                lemma_starts_of_take_next(input, i as int);
                assert(start_set@.to_set() =~= starts_of(t1).to_set());
            }
            i = i + 1;
        }
        proof {
            assert(input.take(input.len() as int) =~= input);
        }
        if tick_arrays.len() == 0 {
            return Err(TICK_SEQUENCE_EMPTY);
        }
        let sorted = sorted_start_indices(&tick_arrays);
        proof {
            broadcast use vstd::seq_lib::group_to_multiset_ensures;

            lemma_le_total();
            starts_of(input).lemma_sort_by_ensures(le_i32());
            assert(sorted@.to_multiset().len() == starts_of(input).to_multiset().len());
            assert(sorted@.len() == input.len());
        }
        match validate_evenly_spaced(sorted.as_slice(), tick_spacing) {
            Ok(()) => {},
            Err(e) => {
                return Err(e);
            },
        }
        let sequence = TickArraySequence {
            tick_arrays: map,
            current_tick_arrays: start_set,
            tick_spacing,
        };
        proof {
            let st = starts_of(input);
            assert(st.len() > 0);
            lemma_sorted_spacing(st, start_set@, tick_spacing as int);
            assert(start_set@.len() > 0) by {
                assert(st.contains(st[0]));
                assert(start_set@.to_set().contains(st[0]));
            }
            if tick_spacing > 0 {
                lemma_distinct_starts_of_no_duplicates(input);
                lemma_distinct_starts_of_subset(sequence.tick_arrays@, input);
            }
            assert forall|a: int| 0 <= a < sequence.tick_arrays@.len() implies start_set@.contains(
                #[trigger] sequence.tick_arrays@[a].1.start_tick_index,
            ) by {
                let e = sequence.tick_arrays@[a];
                assert(input.contains(e));
                let j = choose|j: int| 0 <= j < input.len() && input[j] == e;
                assert(st[j] == e.1.start_tick_index);
                assert(st.to_set().contains(e.1.start_tick_index));
                assert(start_set@.to_set().contains(e.1.start_tick_index));
            }
        }
        Ok(sequence)
    }

    /// Builds a sequence as `new` does, from the tick arrays given (those present),
    /// each under an address made from its start index: the index in little-endian
    /// bytes, then zeros. Arrays with different start indices get different addresses.
    pub fn with_default_pubkeys(tick_arrays: Vec<Option<TickArrayFacade>>, tick_spacing: u16) -> (result:
        Result<Self, CoreError>)
        requires
            gaps_fit(
                starts_of(default_entries(tick_arrays@)).sort_by(le_i32()),
                tick_spacing as int,
            ),
        ensures
            Self::new_outcome(default_entries(tick_arrays@), tick_spacing, result),
            forall|i: int, j: int|
                0 <= i < default_entries(tick_arrays@).len() && 0 <= j < default_entries(
                    tick_arrays@,
                ).len() && #[trigger] default_entries(tick_arrays@)[i].0 == #[trigger] default_entries(
                    tick_arrays@,
                )[j].0 ==> default_entries(tick_arrays@)[i].1.start_tick_index == default_entries(
                    tick_arrays@,
                )[j].1.start_tick_index,
    {
        let ghost input = tick_arrays@;
        let mut entries: Vec<(Pubkey, TickArrayFacade)> = Vec::new();
        let mut i: usize = 0;
        proof {
            assert(input.take(0) =~= Seq::<Option<TickArrayFacade>>::empty());
        }
        while i < tick_arrays.len()
            invariant
                0 <= i <= input.len(),
                input == tick_arrays@,
                entries@ == default_entries(input.take(i as int)),
                forall|a: int|
                    0 <= a < entries@.len() ==> #[trigger] entries@[a].0 == pubkey_of_bytes(
                        default_key_bytes(entries@[a].1.start_tick_index),
                    ),
                forall|a: int, other: Seq<u8>|
                    0 <= a < entries@.len() && other.len() == 32 && #[trigger] pubkey_of_bytes(other)
                        == #[trigger] entries@[a].0 ==> other == default_key_bytes(
                        entries@[a].1.start_tick_index,
                    ),
            decreases input.len() - i,
        {
            proof {
                let t1 = input.take(i + 1);
                assert(t1.drop_last() =~= input.take(i as int));
                assert(t1.last() == input[i as int]);
            }
            match tick_arrays[i] {
                Some(facade) => {
                    let bytes = default_key(facade.start_tick_index);
                    let key = pubkey_new_from_array(bytes);
                    entries.push((key, facade));
                },
                None => {},
            }
            i = i + 1;
        }
        proof {
            assert(input.take(input.len() as int) =~= input);
            let d = default_entries(input);
            assert forall|a: int, b: int|
                0 <= a < d.len() && 0 <= b < d.len() && #[trigger] d[a].0 == #[trigger] d[b].0 implies d[a].1.start_tick_index
                == d[b].1.start_tick_index by {
                let other = default_key_bytes(d[b].1.start_tick_index);
                assert(pubkey_of_bytes(other) == d[b].0);
                lemma_default_key_bytes_injective(d[a].1.start_tick_index, d[b].1.start_tick_index);
            }
        }
        Self::new(entries, tick_spacing)
    }

    /// What `add_new_tick_arrays` does to `before` when it adds `added`, leaving
    /// `after` and returning `result`: the map gets each pair in turn, first dropping
    /// the arrays that start where its own does; the start indices of the added
    /// arrays join the loaded ones; the spacing stays; and the result is `Ok` exactly
    /// when the loaded start indices are then evenly spaced.
    pub open spec fn add_outcome(
        before: TickArraySequence,
        added: Seq<(Pubkey, TickArrayFacade)>,
        after: TickArraySequence,
        result: Result<(), CoreError>,
    ) -> bool {
        &&& after.wf()
        &&& after.arrays() == add_arrays(before.arrays(), added)
        &&& after.starts().to_set() == before.starts().to_set() + starts_of(added).to_set()
        &&& after.spacing() == before.spacing()
        &&& (result is Ok <==> evenly_spaced(after.starts(), after.spacing() as int))
        &&& result is Err ==> result == Err::<(), CoreError>(TICK_ARRAY_NOT_EVENLY_SPACED)
    }

    /// The two sequences hold the same pairs in the same order, the same start
    /// indices and the same tick spacing: every field agrees.
    pub open spec fn same_contents(&self, other: &TickArraySequence) -> bool {
        &&& self.entries() == other.entries()
        &&& self.starts() == other.starts()
        &&& self.spacing() == other.spacing()
    }

    /// A well-formed sequence is fixed by its map, its set of start indices and its
    /// tick spacing.
    pub proof fn lemma_wf_determined(a: TickArraySequence, b: TickArraySequence)
        requires
            a.wf(),
            b.wf(),
            a.arrays() == b.arrays(),
            a.starts().to_set() == b.starts().to_set(),
            a.spacing() == b.spacing(),
        ensures
            a.same_contents(&b),
    {
        lemma_strictly_increasing_unique(a.starts(), b.starts());
        let x = a.entries();
        let y = b.entries();
        lemma_map_of_distinct(x);
        lemma_map_of_distinct(y);
        assert forall|e: (Pubkey, TickArrayFacade)| x.contains(e) <==> y.contains(e) by {
            if x.contains(e) {
                let i = choose|i: int| 0 <= i < x.len() && x[i] == e;
                assert(map_of(x)[x[i].0] == x[i].1);
                assert(map_of(y).dom().contains(e.0));
                let j = choose|j: int| 0 <= j < y.len() && #[trigger] y[j].0 == e.0;
                assert(map_of(y)[y[j].0] == y[j].1);
                assert(y[j] == e);
            }
            if y.contains(e) {
                let i = choose|i: int| 0 <= i < y.len() && y[i] == e;
                assert(map_of(y)[y[i].0] == y[i].1);
                assert(map_of(x).dom().contains(e.0));
                let j = choose|j: int| 0 <= j < x.len() && #[trigger] x[j].0 == e.0;
                assert(map_of(x)[x[j].0] == x[j].1);
                assert(x[j] == e);
            }
        }
        lemma_sorted_same_elements(x, y);
    }

    /// Adds tick arrays: each replaces the arrays that start where it starts, and
    /// goes in under its address (replacing the array there); its start index joins
    /// the loaded ones. Then checks, as `new` does, that the loaded start indices
    /// are evenly spaced; the arrays stay added when they are not.
    pub fn add_new_tick_arrays(&mut self, new_arrays: Vec<(Pubkey, TickArrayFacade)>) -> (result:
        Result<(), CoreError>)
        requires
            old(self).wf(),
            gaps_fit(
                ascending(old(self).starts().to_set() + starts_of(new_arrays@).to_set()),
                old(self).spacing() as int,
            ),
        ensures
            Self::add_outcome(*old(self), new_arrays@, *final(self), result),
    {
        let ghost added = new_arrays@;
        let ghost old_arrays = self.arrays();
        let ghost old_set = self.starts().to_set();
        let mut i: usize = 0;
        proof {
            assert(added.take(0) =~= Seq::<(Pubkey, TickArrayFacade)>::empty());
            assert(starts_of(added.take(0)).to_set() =~= Set::<i32>::empty());
            assert(old_set + starts_of(added.take(0)).to_set() =~= old_set);
        }
        while i < new_arrays.len()
            invariant
                0 <= i <= added.len(),
                added == new_arrays@,
                self.wf(),
                self.spacing() == old(self).spacing(),
                old_arrays == old(self).arrays(),
                old_set == old(self).starts().to_set(),
                self.arrays() == add_arrays(old_arrays, added.take(i as int)),
                self.starts().to_set() == old_set + starts_of(added.take(i as int)).to_set(),
            decreases added.len() - i,
        {
            let (pubkey, facade) = new_arrays[i];
            let start_tick_index = facade.start_tick_index;
            let ghost before = self.tick_arrays@;
            let ghost before_set = self.current_tick_arrays@;
            let kept = remove_start(&self.tick_arrays, start_tick_index);
            let ghost kept_v = kept@;
            self.tick_arrays = kept;
            insert_entry(&mut self.tick_arrays, pubkey, facade);
            insert_start(&mut self.current_tick_arrays, start_tick_index);
            proof {
                let t0 = added.take(i as int);
                let t1 = added.take(i + 1);
                assert(t1.drop_last() =~= t0);
                assert(t1.last() == (pubkey, facade));
                assert(add_arrays(old_arrays, t1) == without_start(
                    add_arrays(old_arrays, t0),
                    start_tick_index,
                ).insert(pubkey, facade));
                lemma_starts_of_take_next(added, i as int);
                assert(self.starts().to_set() =~= old_set + starts_of(t1).to_set());
                assert(self.starts().len() > 0) by {
                    assert(self.starts().to_set().contains(start_tick_index));
                }
                if self.spacing() > 0 {
                    lemma_distinct_starts_of_subset(kept_v, before);
                    lemma_distinct_starts_after_insert(kept_v, self.tick_arrays@, pubkey, facade);
                }
                assert forall|a: int| 0 <= a < self.entries().len() implies self.starts().contains(
                    #[trigger] self.entries()[a].1.start_tick_index,
                ) by {
                    let e = self.entries()[a];
                    let x = e.1.start_tick_index;
                    if e == (pubkey, facade) {
                        assert(self.starts().to_set().contains(x));
                    } else {
                        assert(kept_v.contains(e));
                        let b = choose|b: int| 0 <= b < kept_v.len() && kept_v[b] == e;
                        assert(before.contains(e));
                        let c = choose|c: int| 0 <= c < before.len() && before[c] == e;
                        assert(before_set.contains(before[c].1.start_tick_index));
                        assert(before_set.to_set().contains(x));
                        assert(self.starts().to_set().contains(x));
                    }
                }
            }
            i = i + 1;
        }
        proof {
            assert(added.take(added.len() as int) =~= added);
            lemma_ascending_of(self.starts());
        }
        validate_evenly_spaced(self.current_tick_arrays.as_slice(), self.tick_spacing)
    }

    /// Returns the first tick index the sequence covers: the lowest start index,
    /// raised to `MIN_TICK_INDEX` if below it.
    pub fn start_index(&self) -> (index: i32)
        requires
            self.wf(),
        ensures
            index == self.start_index_spec(),
    {
        let first = self.current_tick_arrays[0];
        if first < MIN_TICK_INDEX {
            MIN_TICK_INDEX
        } else {
            first
        }
    }

    /// Returns the last tick index the sequence covers: the end of the last tick
    /// array, lowered to `MAX_TICK_INDEX` if above it.
    pub fn end_index(&self) -> (index: i32)
        requires
            self.wf(),
            self.end_in_range(),
        ensures
            index == self.end_index_spec(),
    {
        let last_start_index = self.current_tick_arrays[self.current_tick_arrays.len() - 1];
        let array_size = TICK_ARRAY_SIZE as i32;
        assert(array_size == 88);
        let end_index = last_start_index + array_size * (self.tick_spacing as i32) - 1;
        if end_index > MAX_TICK_INDEX {
            MAX_TICK_INDEX
        } else {
            end_index
        }
    }

    /// The tick array that holds `tick_index`, if its start index is loaded and the
    /// map holds an array with that start.
    fn get_tick_array_for_tick(&self, tick_index: i32) -> (found: Option<&TickArrayFacade>)
        requires
            self.wf(),
            self.spacing() > 0,
            tick_index >= MIN_TICK_INDEX,
        ensures
            ({
                let start = array_start_of(tick_index as int, self.spacing() as int);
                match found {
                    Some(array) => self.is_loaded(start) && self.array_starting_at(start) == Some(
                        *array,
                    ),
                    None => !self.is_loaded(start) || self.array_starting_at(start) is None,
                }
            }),
    {
        proof {
            lemma_array_start_of(tick_index as int, self.tick_spacing as int);
        }
        let tick_array_start_index = get_tick_array_start_tick_index(tick_index, self.tick_spacing);
        let ghost start = tick_array_start_index as int;
        if !contains_start(&self.current_tick_arrays, tick_array_start_index) {
            return None;
        }
        assert(self.is_loaded(start));
        proof {
            lemma_map_of_distinct(self.tick_arrays@);
        }
        let mut i: usize = 0;
        while i < self.tick_arrays.len()
            invariant
                0 <= i <= self.tick_arrays@.len(),
                self.wf(),
                self.spacing() > 0,
                start == tick_array_start_index,
                start == array_start_of(tick_index as int, self.spacing() as int),
                self.is_loaded(start),
                forall|j: int|
                    0 <= j < i ==> #[trigger] self.tick_arrays@[j].1.start_tick_index != start,
            decreases self.tick_arrays@.len() - i,
        {
            if self.tick_arrays[i].1.start_tick_index == tick_array_start_index {
                proof {
                    lemma_map_of_distinct(self.tick_arrays@);
                    let e = self.tick_arrays@[i as int];
                    assert(self.arrays().dom().contains(e.0));
                    assert(self.arrays()[e.0] == e.1);
                    assert(self.starts_at(e.0, start));
                    let k = choose|key: Pubkey| self.starts_at(key, start);
                    assert(self.arrays().dom().contains(k));
                    let j = choose|j: int| 0 <= j < self.tick_arrays@.len() && #[trigger] self.tick_arrays@[j].0 == k;
                    assert(self.arrays()[self.tick_arrays@[j].0] == self.tick_arrays@[j].1);
                    assert(j == i);
                    assert(self.arrays()[k] == e.1);
                    assert(exists|key: Pubkey| self.starts_at(key, start));
                    assert(self.array_starting_at(start) == Some(e.1));
                    assert(self.is_loaded(start));
                    assert(start == array_start_of(tick_index as int, self.spacing() as int));
                }
                return Some(&self.tick_arrays[i].1);
            }
            i = i + 1;
        }
        proof {
            lemma_map_of_distinct(self.tick_arrays@);
            assert forall|key: Pubkey| !self.starts_at(key, start) by {
                if self.arrays().dom().contains(key) {
                    let j = choose|j: int| 0 <= j < self.tick_arrays@.len() && #[trigger] self.tick_arrays@[j].0 == key;
                    assert(self.arrays()[self.tick_arrays@[j].0] == self.tick_arrays@[j].1);
                }
            }
        }
        None
    }

    /// Returns the tick at `tick_index`. The index must lie between the first and
    /// last tick index the sequence covers, be a multiple of the tick spacing, and
    /// fall in a loaded tick array.
    pub fn tick(&self, tick_index: i32) -> (result: Result<&TickFacade, CoreError>)
        requires
            self.wf(),
            self.tick_defined(tick_index as int),
        ensures
            match result {
                Ok(tick) => self.tick_result(tick_index as int) == Ok::<TickFacade, CoreError>(*tick),
                Err(e) => self.tick_result(tick_index as int) == Err::<TickFacade, CoreError>(e),
            },
    {
        if (tick_index < self.start_index()) || (tick_index > self.end_index()) {
            return Err(TICK_INDEX_OUT_OF_BOUNDS);
        }
        let ts = self.tick_spacing as i32;
        if tick_index.checked_rem_euclid(ts).unwrap() != 0 {
            return Err(INVALID_TICK_INDEX);
        }
        let tick_array = match self.get_tick_array_for_tick(tick_index) {
            Some(tick_array) => tick_array,
            None => {
                return Err(INVALID_TICK_ARRAY_SEQUENCE);
            },
        };
        let ghost start = array_start_of(tick_index as int, ts as int);
        proof {
            lemma_array_start_of(tick_index as int, ts as int);
            assert(tick_array.start_tick_index == start) by {
                let k = choose|key: Pubkey| self.starts_at(key, start);
            }
            let d = tick_index - start;
            assert(0 <= d < 88 * ts);
            assert(0 <= d / (ts as int) < 88) by (nonlinear_arith)
                requires
                    0 <= d < 88 * ts,
                    ts > 0,
            {
                vstd::arithmetic::div_mod::lemma_fundamental_div_mod(d, ts as int);
            }
        }
        let offset = tick_index - tick_array.start_tick_index;
        let index_in_array = offset.checked_div_euclid(ts).unwrap();
        Ok(&tick_array.ticks[index_in_array as usize])
    }

    /// Searches upwards from `tick_index`, one tick spacing at a time, for an
    /// initialized tick. Returns it with its index; or, past the end of the
    /// sequence, no tick and the last tick index.
    pub fn next_initialized_tick(&self, tick_index: i32) -> (result: Result<
        (Option<&TickFacade>, i32),
        CoreError,
    >)
        requires
            self.wf(),
            self.end_in_range(),
            tick_index < self.end_index_spec() ==> self.spacing() > 0,
        ensures
            match result {
                Ok((Some(tick), index)) => self.next_initialized_result(tick_index as int)
                    == Ok::<(Option<TickFacade>, i32), CoreError>((Some(*tick), index)),
                Ok((None, index)) => self.next_initialized_result(tick_index as int) == Ok::<
                    (Option<TickFacade>, i32),
                    CoreError,
                >((None, index)),
                Err(e) => self.next_initialized_result(tick_index as int) == Err::<
                    (Option<TickFacade>, i32),
                    CoreError,
                >(e),
            },
    {
        let array_end_index = self.end_index();
        if tick_index >= array_end_index {
            return Err(INVALID_TICK_ARRAY_SEQUENCE);
        }
        let ghost ts = self.spacing() as int;
        let mut next_index = tick_index;
        loop
            invariant
                self.wf(),
                self.end_in_range(),
                ts == self.spacing() as int,
                ts > 0,
                array_end_index == self.end_index_spec(),
                array_end_index <= MAX_TICK_INDEX,
                tick_index < array_end_index,
                tick_index <= next_index <= array_end_index,
                forall|m2: int|
                    tick_index < m2 <= next_index && m2 % ts == 0 ==> !#[trigger] self.stops_at(m2),
            decreases array_end_index - next_index,
        {
            let ghost prev = next_index as int;
            proof {
                lemma_floor_to_spacing(prev, ts);
            }
            next_index = get_next_initializable_tick_index(next_index, self.tick_spacing);
            proof {
                assert forall|m2: int|
                    tick_index < m2 < next_index && m2 % ts == 0 implies !#[trigger] self.stops_at(
                    m2,
                ) by {
                    if m2 > prev {
                        lemma_multiples_apart(floor_to_spacing(prev, ts), m2, ts);
                    }
                }
            }
            if next_index > array_end_index {
                proof {
                    assert forall|m: int| !self.first_stop_after(tick_index as int, m) by {
                        if self.first_stop_after(tick_index as int, m) {
                            assert(!self.stops_at(m));
                        }
                    }
                }
                return Ok((None, array_end_index));
            }
            let tick = match self.tick(next_index) {
                Ok(tick) => tick,
                Err(e) => {
                    proof {
                        assert(self.first_stop_after(tick_index as int, next_index as int));
                        let m = choose|m: int| self.first_stop_after(tick_index as int, m);
                        self.lemma_first_stop_unique(tick_index as int, m, next_index as int);
                    }
                    return Err(e);
                },
            };
            if tick.initialized {
                proof {
                    assert(self.first_stop_after(tick_index as int, next_index as int));
                    let m = choose|m: int| self.first_stop_after(tick_index as int, m);
                    self.lemma_first_stop_unique(tick_index as int, m, next_index as int);
                }
                return Ok((Some(tick), next_index));
            }
        }
    }

    /// Searches downwards from `tick_index`, itself included, one tick spacing at a
    /// time, for an initialized tick. Returns it with its index; or, past the start
    /// of the sequence, no tick and the first tick index.
    pub fn prev_initialized_tick(&self, tick_index: i32) -> (result: Result<
        (Option<&TickFacade>, i32),
        CoreError,
    >)
        requires
            self.wf(),
            tick_index >= self.start_index_spec() ==> self.spacing() > 0 && (floor_to_spacing(
                tick_index as int,
                self.spacing() as int,
            ) >= self.start_index_spec() ==> self.end_in_range()),
        ensures
            match result {
                Ok((Some(tick), index)) => self.prev_initialized_result(tick_index as int)
                    == Ok::<(Option<TickFacade>, i32), CoreError>((Some(*tick), index)),
                Ok((None, index)) => self.prev_initialized_result(tick_index as int) == Ok::<
                    (Option<TickFacade>, i32),
                    CoreError,
                >((None, index)),
                Err(e) => self.prev_initialized_result(tick_index as int) == Err::<
                    (Option<TickFacade>, i32),
                    CoreError,
                >(e),
            },
    {
        let array_start_index = self.start_index();
        if tick_index < array_start_index {
            return Err(INVALID_TICK_ARRAY_SEQUENCE);
        }
        let ghost ts = self.spacing() as int;
        proof {
            lemma_floor_to_spacing(tick_index as int, ts);
        }
        let mut prev_index = get_initializable_tick_index(tick_index, self.tick_spacing, Some(false));
        proof {
            assert forall|m2: int|
                prev_index < m2 <= tick_index && m2 % ts == 0 implies !#[trigger] self.stops_at(
                m2,
            ) by {
                lemma_multiples_apart(prev_index as int, m2, ts);
            }
        }
        loop
            invariant
                self.wf(),
                prev_index >= array_start_index ==> self.end_in_range(),
                ts == self.spacing() as int,
                ts > 0,
                array_start_index == self.start_index_spec(),
                array_start_index >= MIN_TICK_INDEX,
                tick_index >= array_start_index,
                prev_index as int % ts == 0,
                array_start_index - ts <= prev_index <= tick_index,
                forall|m2: int|
                    prev_index < m2 <= tick_index && m2 % ts == 0 ==> !#[trigger] self.stops_at(m2),
            decreases prev_index - array_start_index + ts,
        {
            if prev_index < array_start_index {
                proof {
                    assert forall|m: int| !self.last_stop_before(tick_index as int, m) by {
                        if self.last_stop_before(tick_index as int, m) {
                            assert(!self.stops_at(m));
                        }
                    }
                }
                return Ok((None, array_start_index));
            }
            let tick = match self.tick(prev_index) {
                Ok(tick) => tick,
                Err(e) => {
                    proof {
                        assert(self.last_stop_before(tick_index as int, prev_index as int));
                        let m = choose|m: int| self.last_stop_before(tick_index as int, m);
                        self.lemma_last_stop_unique(tick_index as int, m, prev_index as int);
                    }
                    return Err(e);
                },
            };
            if tick.initialized {
                proof {
                    assert(self.last_stop_before(tick_index as int, prev_index as int));
                    let m = choose|m: int| self.last_stop_before(tick_index as int, m);
                    self.lemma_last_stop_unique(tick_index as int, m, prev_index as int);
                }
                return Ok((Some(tick), prev_index));
            }
            let ghost here = prev_index as int;
            proof {
                lemma_floor_to_spacing(here - 1, ts);
            }
            prev_index = get_prev_initializable_tick_index(prev_index, self.tick_spacing);
            proof {
                assert forall|m2: int|
                    prev_index < m2 <= tick_index && m2 % ts == 0 implies !#[trigger] self.stops_at(
                    m2,
                ) by {
                    if m2 < here {
                        lemma_multiples_apart(prev_index as int, m2, ts);
                    }
                }
            }
        }
    }

    /// Returns the tick array held under `pubkey`, if any.
    pub fn get_tick_array(&self, pubkey: &Pubkey) -> (found: Option<&TickArrayFacade>)
        requires
            self.wf(),
        ensures
            match found {
                Some(array) => self.arrays().dom().contains(*pubkey) && *array
                    == self.arrays()[*pubkey],
                None => !self.arrays().dom().contains(*pubkey),
            },
    {
        proof {
            lemma_map_of_distinct(self.tick_arrays@);
        }
        match find_key(&self.tick_arrays, pubkey) {
            Some(i) => {
                proof {
                    assert(self.arrays()[self.tick_arrays@[i as int].0] == self.tick_arrays@[i as int].1);
                }
                Some(&self.tick_arrays[i].1)
            },
            None => None,
        }
    }

    /// Returns the pairs of address and tick array held.
    pub fn tick_arrays_iter(&self) -> (pairs: &[(Pubkey, TickArrayFacade)])
        requires
            self.wf(),
        ensures
            pairs@ == self.entries(),
            distinct_keys(pairs@),
            sorted_by_key(pairs@),
            map_of(pairs@) == self.arrays(),
    {
        self.tick_arrays.as_slice()
    }

    /// Whether a tick array starting at `start_tick_index` is loaded.
    pub fn contains_tick_array_at(&self, start_tick_index: i32) -> (loaded: bool)
        ensures
            loaded == self.starts().contains(start_tick_index),
    {
        contains_start(&self.current_tick_arrays, start_tick_index)
    }

    /// Returns the start indices of the tick arrays loaded, in ascending order.
    pub fn start_tick_indices(&self) -> (indices: &[i32])
        ensures
            indices@ == self.starts(),
    {
        self.current_tick_arrays.as_slice()
    }

    /// Returns the addresses of the tick arrays held.
    pub fn tick_array_pubkeys(&self) -> (keys: Vec<Pubkey>)
        ensures
            keys@ == self.entries().map_values(|e: (Pubkey, TickArrayFacade)| e.0),
    {
        let mut keys: Vec<Pubkey> = Vec::new();
        let mut i: usize = 0;
        while i < self.tick_arrays.len()
            invariant
                0 <= i <= self.tick_arrays@.len(),
                keys@ == self.tick_arrays@.take(i as int).map_values(
                    |e: (Pubkey, TickArrayFacade)| e.0,
                ),
            decreases self.tick_arrays@.len() - i,
        {
            keys.push(self.tick_arrays[i].0);
            proof {
                assert(self.tick_arrays@.take(i + 1).map_values(|e: (Pubkey, TickArrayFacade)| e.0)
                    =~= self.tick_arrays@.take(i as int).map_values(
                    |e: (Pubkey, TickArrayFacade)| e.0,
                ).push(self.tick_arrays@[i as int].0));
            }
            i = i + 1;
        }
        proof {
            assert(self.tick_arrays@.take(self.tick_arrays@.len() as int) =~= self.tick_arrays@);
        }
        keys
    }

    /// Returns the set of start indices of the tick arrays loaded.
    pub fn current_tick_arrays(&self) -> (set: HashSet<i32>)
        ensures
            set@ == self.starts().to_set(),
    {
        broadcast use vstd::std_specs::hash::group_hash_axioms;

        let mut set: HashSet<i32> = HashSet::new();
        let mut i: usize = 0;
        while i < self.current_tick_arrays.len()
            invariant
                0 <= i <= self.current_tick_arrays@.len(),
                set@ == self.current_tick_arrays@.take(i as int).to_set(),
            decreases self.current_tick_arrays@.len() - i,
        {
            let ghost before = set@;
            set.insert(self.current_tick_arrays[i]);
            proof {
                let s = self.current_tick_arrays@;
                let t0 = s.take(i as int);
                let t1 = s.take(i + 1);
                assert forall|x: i32| #[trigger] t1.contains(x) <==> t0.contains(x) || x == s[i as int] by {
                    if t1.contains(x) && x != s[i as int] {
                        let j = choose|j: int| 0 <= j < t1.len() && t1[j] == x;
                        assert(t0[j] == x);
                    }
                    if t0.contains(x) {
                        let j = choose|j: int| 0 <= j < t0.len() && t0[j] == x;
                        assert(t1[j] == x);
                    }
                    if x == s[i as int] {
                        assert(t1[i as int] == x);
                    }
                }
                assert(set@ =~= t1.to_set());
            }
            i = i + 1;
        }
        proof {
            assert(self.current_tick_arrays@.take(self.current_tick_arrays@.len() as int)
                =~= self.current_tick_arrays@);
        }
        set
    }

    /// Returns the pairs of address and tick array held, one per address.
    pub fn tick_arrays(&self) -> (pairs: &Vec<(Pubkey, TickArrayFacade)>)
        requires
            self.wf(),
        ensures
            pairs@ == self.entries(),
            distinct_keys(pairs@),
            sorted_by_key(pairs@),
            map_of(pairs@) == self.arrays(),
    {
        &self.tick_arrays
    }

    /// Returns the tick spacing of the pool.
    pub fn tick_spacing(&self) -> (tick_spacing: u16)
        ensures
            tick_spacing == self.spacing(),
    {
        self.tick_spacing
    }
}

} // verus!
