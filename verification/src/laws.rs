//! Properties of the library that span its functions: what a lookup finds, what
//! the searches for initialized ticks return, and how adding tick arrays replaces
//! those with the same start index.
use vstd::prelude::*;

use solana_program::pubkey::Pubkey;

use crate::constants::{MAX_TICK_INDEX, MIN_TICK_INDEX, TICK_ARRAY_SIZE};
use crate::entries::{
    add_arrays, map_of, without_start, starts_of, le_i32, lemma_le_total, lemma_map_of_distinct,
    distinct_keys, strictly_increasing, lemma_map_values_to_multiset, lemma_add_arrays_twice,
};
use crate::error::{CoreError, INVALID_TICK_ARRAY_SEQUENCE};
use crate::tick::{array_start_of, array_width, lemma_array_start_of};
use crate::tick_array::{
    gaps_fit, gap, evenly_spaced, default_entries, default_key_bytes, TickArraySequence,
};
use crate::pubkey::pubkey_of_bytes;
use crate::types::{TickArrayFacade, TickFacade};

verus! {

/// The tick at `m` is found and is not initialized.
pub open spec fn found_uninitialized(seq: TickArraySequence, m: int) -> bool {
    seq.tick_result(m) matches Ok(tick) && !tick.initialized
}

/// A tick that the lookup finds lies within the range the sequence covers, on the
/// tick spacing, at its offset in the loaded tick array that holds it.
pub proof fn lemma_tick_found(seq: TickArraySequence, tick_index: int)
    requires
        seq.spacing() > 0,
        seq.tick_result(tick_index) is Ok,
    ensures
        ({
            let ts = seq.spacing() as int;
            let start = array_start_of(tick_index, ts);
            &&& seq.start_index_spec() <= tick_index <= seq.end_index_spec()
            &&& tick_index % ts == 0
            &&& seq.is_loaded(start)
            &&& seq.array_starting_at(start) matches Some(array) && array.start_tick_index == start
                && 0 <= (tick_index - start) / ts < TICK_ARRAY_SIZE && seq.tick_result(tick_index)
                == Ok::<TickFacade, CoreError>(array.ticks@[(tick_index - start) / ts])
        }),
{
    let ts = seq.spacing() as int;
    let start = array_start_of(tick_index, ts);
    lemma_array_start_of(tick_index, ts);
    let array = seq.array_starting_at(start).unwrap();
    let k = choose|key: Pubkey| seq.starts_at(key, start);
    let d = tick_index - start;
    assert(0 <= d / ts < 88) by (nonlinear_arith)
        requires
            0 <= d < 88 * ts,
            ts > 0,
    {
        vstd::arithmetic::div_mod::lemma_fundamental_div_mod(d, ts);
    }
}

/// If the search upwards from `tick_index` stops somewhere on the spacing in
/// `(tick_index, m]`, it stops at a first such place.
proof fn lemma_first_stop_exists(seq: TickArraySequence, tick_index: int, m: int)
    requires
        seq.spacing() > 0,
        m % (seq.spacing() as int) == 0,
        tick_index < m <= seq.end_index_spec(),
        seq.stops_at(m),
    ensures
        exists|f: int| seq.first_stop_after(tick_index, f),
    decreases m - tick_index,
{
    let ts = seq.spacing() as int;
    if exists|m2: int| tick_index < m2 < m && m2 % ts == 0 && #[trigger] seq.stops_at(m2) {
        let m2 = choose|m2: int| tick_index < m2 < m && m2 % ts == 0 && #[trigger] seq.stops_at(m2);
        lemma_first_stop_exists(seq, tick_index, m2);
    } else {
        assert(seq.first_stop_after(tick_index, m));
    }
}

/// If the search downwards from `tick_index` stops somewhere on the spacing in
/// `[m, tick_index]`, it stops at a last such place.
proof fn lemma_last_stop_exists(seq: TickArraySequence, tick_index: int, m: int)
    requires
        seq.spacing() > 0,
        m % (seq.spacing() as int) == 0,
        seq.start_index_spec() <= m <= tick_index,
        seq.stops_at(m),
    ensures
        exists|f: int| seq.last_stop_before(tick_index, f),
    decreases tick_index - m,
{
    let ts = seq.spacing() as int;
    if exists|m2: int| m < m2 <= tick_index && m2 % ts == 0 && #[trigger] seq.stops_at(m2) {
        let m2 = choose|m2: int| m < m2 <= tick_index && m2 % ts == 0 && #[trigger] seq.stops_at(m2);
        lemma_last_stop_exists(seq, tick_index, m2);
    } else {
        assert(seq.last_stop_before(tick_index, m));
    }
}

/// The upward search returns an initialized tick on the spacing above the start
/// point and not past the end, with every tick on the spacing in between found and
/// uninitialized; or, when there is no such tick up to the end, no tick and the
/// last tick index; or the error of the first lookup that fails on the way; or,
/// from the end or beyond it, the sequence error.
pub proof fn lemma_next_initialized_tick(seq: TickArraySequence, tick_index: i32)
    requires
        seq.spacing() > 0,
    ensures
        ({
            let ts = seq.spacing() as int;
            let end = seq.end_index_spec();
            match seq.next_initialized_result(tick_index as int) {
                Ok((Some(tick), index)) => {
                    &&& tick_index < index <= end
                    &&& index as int % ts == 0
                    &&& seq.tick_result(index as int) == Ok::<TickFacade, CoreError>(tick)
                    &&& tick.initialized
                    &&& forall|m: int|
                        tick_index < m < index && m % ts == 0 ==> #[trigger] found_uninitialized(
                            seq,
                            m,
                        )
                },
                Ok((None, index)) => {
                    &&& index == end
                    &&& forall|m: int|
                        tick_index < m <= end && m % ts == 0 ==> #[trigger] found_uninitialized(
                            seq,
                            m,
                        )
                },
                Err(e) => (tick_index >= end && e == INVALID_TICK_ARRAY_SEQUENCE) || exists|m: int|
                    {
                        &&& tick_index < m <= end
                        &&& m % ts == 0
                        &&& #[trigger] seq.tick_result(m) == Err::<TickFacade, CoreError>(e)
                        &&& forall|m2: int|
                            tick_index < m2 < m && m2 % ts == 0 ==> #[trigger] found_uninitialized(
                                seq,
                                m2,
                            )
                    },
            }
        }),
{
    let ts = seq.spacing() as int;
    let end = seq.end_index_spec();
    if tick_index < end {
        if exists|m: int| seq.first_stop_after(tick_index as int, m) {
            let m = choose|m: int| seq.first_stop_after(tick_index as int, m);
            assert(m <= MAX_TICK_INDEX);
            assert(m as i32 == m);
            assert forall|m2: int| tick_index < m2 < m && m2 % ts == 0 implies #[trigger] found_uninitialized(
                seq,
                m2,
            ) by {
                assert(!seq.stops_at(m2));
            }
        } else {
            assert forall|m2: int| tick_index < m2 <= end && m2 % ts == 0 implies #[trigger] found_uninitialized(
                seq,
                m2,
            ) by {
                if seq.stops_at(m2) {
                    lemma_first_stop_exists(seq, tick_index as int, m2);
                }
            }
            assert(end as i32 == end);
        }
    }
}

/// The downward search returns an initialized tick on the spacing at or below the
/// start point and not before the first tick index, with every tick on the spacing
/// in between found and uninitialized; or, when there is no such tick down to the
/// first tick index, no tick and the first tick index; or the error of the first
/// lookup that fails on the way; or, below the first tick index, the sequence error.
pub proof fn lemma_prev_initialized_tick(seq: TickArraySequence, tick_index: i32)
    requires
        seq.spacing() > 0,
        seq.wf(),
    ensures
        ({
            let ts = seq.spacing() as int;
            let start = seq.start_index_spec();
            match seq.prev_initialized_result(tick_index as int) {
                Ok((Some(tick), index)) => {
                    &&& start <= index <= tick_index
                    &&& index as int % ts == 0
                    &&& seq.tick_result(index as int) == Ok::<TickFacade, CoreError>(tick)
                    &&& tick.initialized
                    &&& forall|m: int|
                        index < m <= tick_index && m % ts == 0 ==> #[trigger] found_uninitialized(
                            seq,
                            m,
                        )
                },
                Ok((None, index)) => {
                    &&& index == start
                    &&& forall|m: int|
                        start <= m <= tick_index && m % ts == 0 ==> #[trigger] found_uninitialized(
                            seq,
                            m,
                        )
                },
                Err(e) => (tick_index < start && e == INVALID_TICK_ARRAY_SEQUENCE) || exists|m: int|
                    {
                        &&& start <= m <= tick_index
                        &&& m % ts == 0
                        &&& #[trigger] seq.tick_result(m) == Err::<TickFacade, CoreError>(e)
                        &&& forall|m2: int|
                            m < m2 <= tick_index && m2 % ts == 0 ==> #[trigger] found_uninitialized(
                                seq,
                                m2,
                            )
                    },
            }
        }),
{
    let ts = seq.spacing() as int;
    let start = seq.start_index_spec();
    if tick_index >= start {
        if exists|m: int| seq.last_stop_before(tick_index as int, m) {
            let m = choose|m: int| seq.last_stop_before(tick_index as int, m);
            assert(m >= MIN_TICK_INDEX);
            assert(m as i32 == m);
            assert forall|m2: int| m < m2 <= tick_index && m2 % ts == 0 implies #[trigger] found_uninitialized(
                seq,
                m2,
            ) by {
                assert(!seq.stops_at(m2));
            }
        } else {
            assert forall|m2: int| start <= m2 <= tick_index && m2 % ts == 0 implies #[trigger] found_uninitialized(
                seq,
                m2,
            ) by {
                if seq.stops_at(m2) {
                    lemma_last_stop_exists(seq, tick_index as int, m2);
                }
            }
            assert(start as i32 == start);
        }
    }
}

/// After adding tick arrays, the last one added is held under its address, and no
/// other address holds a tick array with its start index.
pub proof fn lemma_add_replaces_by_start(
    m: Map<Pubkey, TickArrayFacade>,
    added: Seq<(Pubkey, TickArrayFacade)>,
)
    requires
        added.len() > 0,
    ensures
        ({
            let result = add_arrays(m, added);
            let last = added.last();
            &&& result.dom().contains(last.0)
            &&& result[last.0] == last.1
            &&& forall|k: Pubkey|
                #[trigger] result.dom().contains(k) && k != last.0 ==> result[k].start_tick_index
                    != last.1.start_tick_index
        }),
{
    let last = added.last();
    let before = add_arrays(m, added.drop_last());
    let w = without_start(before, last.1.start_tick_index);
    assert(add_arrays(m, added) == w.insert(last.0, last.1));
    assert forall|k: Pubkey|
        #[trigger] add_arrays(m, added).dom().contains(k) && k != last.0 implies add_arrays(
        m,
        added,
    )[k].start_tick_index != last.1.start_tick_index by {
        assert(w.dom().contains(k));
    }
}

/// When a key occurs in the pairs, the map holds the tick array of its last pair.
pub proof fn lemma_map_of_last(s: Seq<(Pubkey, TickArrayFacade)>, i: int)
    requires
        0 <= i < s.len(),
        forall|j: int| i < j < s.len() ==> #[trigger] s[j].0 != s[i].0,
    ensures
        map_of(s).dom().contains(s[i].0),
        map_of(s)[s[i].0] == s[i].1,
    decreases s.len(),
{
    let t = s.drop_last();
    assert(map_of(s) == map_of(t).insert(s.last().0, s.last().1));
    if i < s.len() - 1 {
        assert forall|j: int| i < j < t.len() implies #[trigger] t[j].0 != t[i].0 by {
            assert(t[j] == s[j]);
        }
        lemma_map_of_last(t, i);
        assert(s[s.len() - 1].0 != s[i].0);
    }
}

/// The start indices of the pairs, sorted, have differences that fit in an `i32`
/// when no two start indices lie further apart than `i32::MAX`; `new` then
/// accepts the pairs.
pub proof fn lemma_sorted_gaps_fit(entries: Seq<(Pubkey, TickArrayFacade)>, tick_spacing: int)
    requires
        forall|i: int, j: int|
            0 <= i < entries.len() && 0 <= j < entries.len() ==> #[trigger] entries[j].1.start_tick_index
                - #[trigger] entries[i].1.start_tick_index <= i32::MAX,
    ensures
        gaps_fit(starts_of(entries).sort_by(le_i32()), tick_spacing),
{
    let st = starts_of(entries);
    let sorted = st.sort_by(le_i32());
    lemma_le_total();
    st.lemma_sort_by_ensures(le_i32());
    assert forall|i: int| 0 <= i < sorted.len() - 1 implies i32::MIN <= #[trigger] gap(sorted, i)
        <= i32::MAX by {
        assert(sorted.contains(sorted[i]));
        assert(sorted.contains(sorted[i + 1]));
        assert(st.contains(sorted[i]));
        assert(st.contains(sorted[i + 1]));
        let a = choose|a: int| 0 <= a < st.len() && st[a] == sorted[i];
        let b = choose|b: int| 0 <= b < st.len() && st[b] == sorted[i + 1];
        assert(entries[a].1.start_tick_index == st[a]);
        assert(entries[b].1.start_tick_index == st[b]);
    }
}

/// A tick array held under some address, whose start index is a multiple of the
/// array width, answers each lookup of a tick on the spacing inside it that lies in
/// the range the sequence covers: the lookup gives that array's tick at the offset.
pub proof fn lemma_tick_reads_held_array(seq: TickArraySequence, key: Pubkey, j: int)
    requires
        seq.wf(),
        seq.spacing() > 0,
        seq.arrays().dom().contains(key),
        seq.arrays()[key].start_tick_index as int % array_width(seq.spacing() as int) == 0,
        0 <= j < TICK_ARRAY_SIZE,
        seq.start_index_spec() <= seq.arrays()[key].start_tick_index + j * seq.spacing()
            <= seq.end_index_spec(),
    ensures
        seq.tick_result(seq.arrays()[key].start_tick_index + j * seq.spacing()) == Ok::<
            TickFacade,
            CoreError,
        >(seq.arrays()[key].ticks@[j]),
{
    let ts = seq.spacing() as int;
    let w = array_width(ts);
    let a = seq.arrays()[key];
    let s = a.start_tick_index as int;
    let ti = s + j * ts;
    lemma_map_of_distinct(seq.entries());
    let i = choose|i: int| 0 <= i < seq.entries().len() && #[trigger] seq.entries()[i].0 == key;
    assert(seq.arrays()[seq.entries()[i].0] == seq.entries()[i].1);
    assert(seq.starts().contains(seq.entries()[i].1.start_tick_index));
    assert(seq.is_loaded(s));
    // the arithmetic: `ti` lies at offset `j` in the array that starts at `s`
    vstd::arithmetic::div_mod::lemma_fundamental_div_mod(s, w);
    let c = s / w;
    assert(s == w * c);
    assert(s == c * w) by (nonlinear_arith)
        requires
            s == w * c,
    ;
    assert(ti == (c * 88 + j) * ts) by (nonlinear_arith)
        requires
            ti == s + j * ts,
            s == c * w,
            w == 88 * ts,
    ;
    vstd::arithmetic::div_mod::lemma_fundamental_div_mod_converse(ti, ts, c * 88 + j, 0);
    vstd::arithmetic::div_mod::lemma_fundamental_div_mod_converse(c * 88 + j, 88, c, j);
    assert(array_start_of(ti, ts) == s) by {
        assert(c * w == s);
    }
    vstd::arithmetic::div_mod::lemma_fundamental_div_mod_converse(j * ts, ts, j, 0);
    assert(ti - s == j * ts);
    // the lookup picks this array among those that start at `s`
    assert(seq.starts_at(key, s));
    let k = choose|k: Pubkey| seq.starts_at(k, s);
    assert(seq.arrays().dom().contains(k));
    let i2 = choose|i2: int| 0 <= i2 < seq.entries().len() && #[trigger] seq.entries()[i2].0 == k;
    assert(seq.arrays()[seq.entries()[i2].0] == seq.entries()[i2].1);
    assert(i2 == i);
}

/// Two outcomes of building or changing a sequence agree: both fail with the
/// same error, or both succeed with sequences of the same contents.
pub open spec fn same_outcome(
    r1: Result<TickArraySequence, CoreError>,
    r2: Result<TickArraySequence, CoreError>,
) -> bool {
    match (r1, r2) {
        (Ok(a), Ok(b)) => a.same_contents(&b),
        (Err(e1), Err(e2)) => e1 == e2,
        _ => false,
    }
}

/// `new` gives the same outcome for two lists of pairs that build the same map and
/// hold the same start indices, counted with their repetitions.
pub proof fn lemma_new_outcome_determined(
    xs: Seq<(Pubkey, TickArrayFacade)>,
    ys: Seq<(Pubkey, TickArrayFacade)>,
    tick_spacing: u16,
    r1: Result<TickArraySequence, CoreError>,
    r2: Result<TickArraySequence, CoreError>,
)
    requires
        TickArraySequence::new_outcome(xs, tick_spacing, r1),
        TickArraySequence::new_outcome(ys, tick_spacing, r2),
        map_of(xs) == map_of(ys),
        starts_of(xs).to_multiset() == starts_of(ys).to_multiset(),
    ensures
        same_outcome(r1, r2),
{
    broadcast use vstd::seq_lib::group_to_multiset_ensures;

    let sx = starts_of(xs);
    let sy = starts_of(ys);
    lemma_le_total();
    sx.lemma_sort_by_ensures(le_i32());
    sy.lemma_sort_by_ensures(le_i32());
    vstd::seq_lib::lemma_sorted_unique(sx.sort_by(le_i32()), sy.sort_by(le_i32()), le_i32());
    assert(xs.len() == sx.len() && ys.len() == sy.len());
    assert(sx.to_multiset().len() == sy.to_multiset().len());
    assert(xs.len() == ys.len());
    if r1 is Ok && r2 is Ok {
        let a = r1.unwrap();
        let b = r2.unwrap();
        assert(sx.to_set() =~= sy.to_set()) by {
            assert forall|v: i32| sx.contains(v) <==> sy.contains(v) by {
                assert(sx.contains(v) <==> sx.to_multiset().count(v) > 0);
                assert(sy.contains(v) <==> sy.to_multiset().count(v) > 0);
            }
        }
        TickArraySequence::lemma_wf_determined(a, b);
    }
}

/// Building a sequence from a reordering of pairs with distinct addresses gives the
/// same outcome.
pub proof fn lemma_new_permutation(
    xs: Seq<(Pubkey, TickArrayFacade)>,
    ys: Seq<(Pubkey, TickArrayFacade)>,
    tick_spacing: u16,
    r1: Result<TickArraySequence, CoreError>,
    r2: Result<TickArraySequence, CoreError>,
)
    requires
        distinct_keys(xs),
        ys.to_multiset() == xs.to_multiset(),
        TickArraySequence::new_outcome(xs, tick_spacing, r1),
        TickArraySequence::new_outcome(ys, tick_spacing, r2),
    ensures
        same_outcome(r1, r2),
{
    broadcast use vstd::seq_lib::group_to_multiset_ensures;

    assert forall|e: (Pubkey, TickArrayFacade)| xs.contains(e) <==> ys.contains(e) by {
        assert(xs.contains(e) <==> xs.to_multiset().count(e) > 0);
        assert(ys.contains(e) <==> ys.to_multiset().count(e) > 0);
    }
    assert(xs.no_duplicates()) by {
        assert forall|i: int, j: int| 0 <= i < xs.len() && 0 <= j < xs.len() && i != j implies xs[i]
            != xs[j] by {
            assert(xs[i].0 != xs[j].0);
        }
    }
    xs.lemma_multiset_has_no_duplicates();
    ys.lemma_multiset_has_no_duplicates_conv();
    assert(distinct_keys(ys)) by {
        assert forall|a: int, b: int| 0 <= a < ys.len() && 0 <= b < ys.len() && a != b implies #[trigger] ys[a].0
            != #[trigger] ys[b].0 by {
            assert(ys[a] != ys[b]);
            assert(ys.contains(ys[a]) && ys.contains(ys[b]));
            let i = choose|i: int| 0 <= i < xs.len() && xs[i] == ys[a];
            let j = choose|j: int| 0 <= j < xs.len() && xs[j] == ys[b];
            assert(i != j);
            assert(xs[i].0 != xs[j].0);
        }
    }
    lemma_map_of_distinct(xs);
    lemma_map_of_distinct(ys);
    assert(map_of(xs) =~= map_of(ys)) by {
        assert forall|k: Pubkey| #[trigger] map_of(xs).dom().contains(k) <==> map_of(ys).dom().contains(
            k,
        ) by {
            if map_of(xs).dom().contains(k) {
                let i = choose|i: int| 0 <= i < xs.len() && #[trigger] xs[i].0 == k;
                assert(ys.contains(xs[i]));
                let j = choose|j: int| 0 <= j < ys.len() && ys[j] == xs[i];
                assert(ys[j].0 == k);
            }
            if map_of(ys).dom().contains(k) {
                let i = choose|i: int| 0 <= i < ys.len() && #[trigger] ys[i].0 == k;
                assert(xs.contains(ys[i]));
                let j = choose|j: int| 0 <= j < xs.len() && xs[j] == ys[i];
                assert(xs[j].0 == k);
            }
        }
        assert forall|k: Pubkey| #[trigger] map_of(xs).dom().contains(k) implies map_of(xs)[k]
            == map_of(ys)[k] by {
            let i = choose|i: int| 0 <= i < xs.len() && #[trigger] xs[i].0 == k;
            assert(map_of(xs)[xs[i].0] == xs[i].1);
            assert(ys.contains(xs[i]));
            let j = choose|j: int| 0 <= j < ys.len() && ys[j] == xs[i];
            assert(map_of(ys)[ys[j].0] == ys[j].1);
        }
    }
    let f = |e: (Pubkey, TickArrayFacade)| e.1.start_tick_index;
    lemma_map_values_to_multiset(xs, ys, f);
    assert(starts_of(xs) =~= xs.map_values(f));
    assert(starts_of(ys) =~= ys.map_values(f));
    lemma_new_outcome_determined(xs, ys, tick_spacing, r1, r2);
}

/// `with_default_pubkeys` gives the outcome that `new` gives for the tick arrays
/// present, each under the address made from its start index.
pub proof fn lemma_with_default_pubkeys_is_new(
    arrays: Seq<Option<TickArrayFacade>>,
    tick_spacing: u16,
    with_default: Result<TickArraySequence, CoreError>,
    built: Result<TickArraySequence, CoreError>,
)
    requires
        TickArraySequence::new_outcome(default_entries(arrays), tick_spacing, with_default),
        TickArraySequence::new_outcome(default_entries(arrays), tick_spacing, built),
    ensures
        same_outcome(with_default, built),
{
    lemma_new_outcome_determined(
        default_entries(arrays),
        default_entries(arrays),
        tick_spacing,
        with_default,
        built,
    );
}

/// Adding no tick arrays to an evenly spaced sequence succeeds and changes nothing.
pub proof fn lemma_add_nothing(
    before: TickArraySequence,
    after: TickArraySequence,
    result: Result<(), CoreError>,
)
    requires
        before.wf(),
        evenly_spaced(before.starts(), before.spacing() as int),
        TickArraySequence::add_outcome(
            before,
            Seq::<(Pubkey, TickArrayFacade)>::empty(),
            after,
            result,
        ),
    ensures
        result is Ok,
        after.same_contents(&before),
{
    let none = Seq::<(Pubkey, TickArrayFacade)>::empty();
    assert(starts_of(none).to_set() =~= Set::<i32>::empty());
    assert(before.starts().to_set() + starts_of(none).to_set() =~= before.starts().to_set());
    TickArraySequence::lemma_wf_determined(after, before);
}

/// Adding, with success, the same tick arrays a second time succeeds and changes
/// nothing.
pub proof fn lemma_add_same_twice(
    before: TickArraySequence,
    added: Seq<(Pubkey, TickArrayFacade)>,
    middle: TickArraySequence,
    after: TickArraySequence,
    result: Result<(), CoreError>,
)
    requires
        TickArraySequence::add_outcome(before, added, middle, Ok(())),
        TickArraySequence::add_outcome(middle, added, after, result),
    ensures
        result is Ok,
        after.same_contents(&middle),
{
    lemma_add_arrays_twice(before.arrays(), added);
    let t = starts_of(added).to_set();
    assert(before.starts().to_set() + t + t =~= before.starts().to_set() + t);
    TickArraySequence::lemma_wf_determined(after, middle);
}

/// The tick spacing of every state in a run of successful additions after `new` is
/// the one `new` was given.
proof fn lemma_run_spacing(
    states: Seq<TickArraySequence>,
    added: Seq<Seq<(Pubkey, TickArrayFacade)>>,
    tick_spacing: u16,
    i: int,
)
    requires
        states.len() == added.len() + 1,
        states[0].spacing() == tick_spacing,
        forall|j: int|
            0 <= j < added.len() ==> TickArraySequence::add_outcome(
                #[trigger] states[j],
                added[j],
                states[j + 1],
                Ok(()),
            ),
        0 <= i < states.len(),
    ensures
        states[i].spacing() == tick_spacing,
    decreases i,
{
    if i > 0 {
        lemma_run_spacing(states, added, tick_spacing, i - 1);
        assert(TickArraySequence::add_outcome(states[i - 1], added[i - 1], states[i], Ok(())));
    }
}

/// After `new` and any number of successful additions, the loaded start indices
/// form one non-empty, ascending, evenly spaced run.
pub proof fn lemma_successful_additions_stay_evenly_spaced(
    entries: Seq<(Pubkey, TickArrayFacade)>,
    tick_spacing: u16,
    states: Seq<TickArraySequence>,
    added: Seq<Seq<(Pubkey, TickArrayFacade)>>,
)
    requires
        states.len() == added.len() + 1,
        TickArraySequence::new_outcome(entries, tick_spacing, Ok(states[0])),
        forall|j: int|
            0 <= j < added.len() ==> TickArraySequence::add_outcome(
                #[trigger] states[j],
                added[j],
                states[j + 1],
                Ok(()),
            ),
    ensures
        forall|i: int|
            0 <= i < states.len() ==> {
                &&& (#[trigger] states[i]).wf()
                &&& states[i].starts().len() > 0
                &&& strictly_increasing(states[i].starts())
                &&& states[i].spacing() == tick_spacing
                &&& evenly_spaced(states[i].starts(), tick_spacing as int)
            },
{
    assert forall|i: int| 0 <= i < states.len() implies {
        &&& (#[trigger] states[i]).wf()
        &&& states[i].starts().len() > 0
        &&& strictly_increasing(states[i].starts())
        &&& states[i].spacing() == tick_spacing
        &&& evenly_spaced(states[i].starts(), tick_spacing as int)
    } by {
        lemma_run_spacing(states, added, tick_spacing, i);
        if i > 0 {
            assert(TickArraySequence::add_outcome(states[i - 1], added[i - 1], states[i], Ok(())));
        }
    }
}

/// The initialized tick that the upward search finds is found again by the
/// downward search from its own index.
pub proof fn lemma_next_then_prev(seq: TickArraySequence, tick_index: i32)
    requires
        seq.wf(),
        seq.spacing() > 0,
        seq.next_initialized_result(tick_index as int) matches Ok((Some(_), _)),
    ensures
        ({
            let (tick, index) = seq.next_initialized_result(tick_index as int).unwrap();
            seq.prev_initialized_result(index as int) == Ok::<
                (Option<TickFacade>, i32),
                CoreError,
            >((tick, index))
        }),
{
    lemma_next_initialized_tick(seq, tick_index);
    let (tick, index) = seq.next_initialized_result(tick_index as int).unwrap();
    let t = tick.unwrap();
    let m = index as int;
    lemma_tick_found(seq, m);
    assert(seq.last_stop_before(m, m));
    let c = choose|c: int| seq.last_stop_before(m, c);
    seq.lemma_last_stop_unique(m, c, m);
    assert(m as i32 == index);
}

/// The last tick index the sequence covers is the end of the array with the
/// highest loaded start index (that start plus `TICK_ARRAY_SIZE` ticks of the
/// spacing, less one), lowered to `MAX_TICK_INDEX` if above it.
pub proof fn lemma_end_index(seq: TickArraySequence)
    requires
        seq.wf(),
    ensures
        exists|top: i32|
            #[trigger] seq.starts().contains(top) && (forall|s: i32|
                #[trigger] seq.starts().contains(s) ==> s <= top) && seq.end_index_spec() == (
            if top + TICK_ARRAY_SIZE as int * seq.spacing() as int - 1 > MAX_TICK_INDEX {
                MAX_TICK_INDEX as int
            } else {
                top + TICK_ARRAY_SIZE as int * seq.spacing() as int - 1
            }),
{
    let st = seq.starts();
    let top = st.last();
    assert(st.contains(top)) by {
        assert(st[st.len() - 1] == top);
    }
    assert forall|s: i32| #[trigger] st.contains(s) implies s <= top by {
        let i = choose|i: int| 0 <= i < st.len() && st[i] == s;
        if i < st.len() - 1 {
            assert(st[i] < st[st.len() - 1]);
        }
    }
}

/// The first tick index the sequence covers is the lowest loaded start index,
/// raised to `MIN_TICK_INDEX` if below it.
pub proof fn lemma_start_index(seq: TickArraySequence)
    requires
        seq.wf(),
    ensures
        exists|bottom: i32|
            #[trigger] seq.starts().contains(bottom) && (forall|s: i32|
                #[trigger] seq.starts().contains(s) ==> bottom <= s) && seq.start_index_spec() == (
            if bottom < MIN_TICK_INDEX {
                MIN_TICK_INDEX as int
            } else {
                bottom as int
            }),
{
    let st = seq.starts();
    let bottom = st[0];
    assert(st.contains(bottom));
    assert forall|s: i32| #[trigger] st.contains(s) implies bottom <= s by {
        let i = choose|i: int| 0 <= i < st.len() && st[i] == s;
        if i > 0 {
            assert(st[0] < st[i]);
        }
    }
}

/// A sequence that `new` builds covers up to the end of the array with the highest
/// start index given (that start plus `TICK_ARRAY_SIZE` ticks of the spacing, less
/// one), lowered to `MAX_TICK_INDEX` if above it; and from the lowest start index
/// given, raised to `MIN_TICK_INDEX` if below it.
pub proof fn lemma_new_covers_given_arrays(
    entries: Seq<(Pubkey, TickArrayFacade)>,
    tick_spacing: u16,
    seq: TickArraySequence,
)
    requires
        TickArraySequence::new_outcome(entries, tick_spacing, Ok(seq)),
    ensures
        exists|j: int|
            0 <= j < entries.len() && (forall|i: int|
                0 <= i < entries.len() ==> #[trigger] entries[i].1.start_tick_index
                    <= entries[j].1.start_tick_index) && seq.end_index_spec() == (
            if entries[j].1.start_tick_index + TICK_ARRAY_SIZE as int * tick_spacing as int - 1
                > MAX_TICK_INDEX {
                MAX_TICK_INDEX as int
            } else {
                entries[j].1.start_tick_index + TICK_ARRAY_SIZE as int * tick_spacing as int - 1
            }),
        exists|j: int|
            0 <= j < entries.len() && (forall|i: int|
                0 <= i < entries.len() ==> entries[j].1.start_tick_index
                    <= #[trigger] entries[i].1.start_tick_index) && seq.start_index_spec() == (
            if entries[j].1.start_tick_index < MIN_TICK_INDEX {
                MIN_TICK_INDEX as int
            } else {
                entries[j].1.start_tick_index as int
            }),
{
    let st = starts_of(entries);
    lemma_end_index(seq);
    lemma_start_index(seq);
    assert forall|x: i32| seq.starts().contains(x) <==> st.contains(x) by {
        assert(seq.starts().to_set().contains(x) == seq.starts().contains(x));
        assert(st.to_set().contains(x) == st.contains(x));
    }
    let top = choose|top: i32|
        #[trigger] seq.starts().contains(top) && (forall|s: i32|
            #[trigger] seq.starts().contains(s) ==> s <= top) && seq.end_index_spec() == (
        if top + TICK_ARRAY_SIZE as int * seq.spacing() as int - 1 > MAX_TICK_INDEX {
            MAX_TICK_INDEX as int
        } else {
            top + TICK_ARRAY_SIZE as int * seq.spacing() as int - 1
        });
    assert(st.contains(top));
    let j = choose|j: int| 0 <= j < st.len() && st[j] == top;
    assert(entries[j].1.start_tick_index == top);
    assert forall|i: int| 0 <= i < entries.len() implies #[trigger] entries[i].1.start_tick_index
        <= entries[j].1.start_tick_index by {
        assert(st[i] == entries[i].1.start_tick_index);
        assert(st.contains(st[i]));
        assert(seq.starts().contains(st[i]));
    }
    let bottom = choose|bottom: i32|
        #[trigger] seq.starts().contains(bottom) && (forall|s: i32|
            #[trigger] seq.starts().contains(s) ==> bottom <= s) && seq.start_index_spec() == (
        if bottom < MIN_TICK_INDEX {
            MIN_TICK_INDEX as int
        } else {
            bottom as int
        });
    assert(st.contains(bottom));
    let b = choose|b: int| 0 <= b < st.len() && st[b] == bottom;
    assert(entries[b].1.start_tick_index == bottom);
    assert forall|i: int| 0 <= i < entries.len() implies entries[b].1.start_tick_index
        <= #[trigger] entries[i].1.start_tick_index by {
        assert(st[i] == entries[i].1.start_tick_index);
        assert(st.contains(st[i]));
        assert(seq.starts().contains(st[i]));
    }
}

/// The pairs that `with_default_pubkeys` hands to `new` are the tick arrays
/// given, the absent ones skipped, in their order, one pair for each, each under
/// the address named by its start index's bytes.
pub proof fn lemma_default_entries(arrays: Seq<Option<TickArrayFacade>>)
    ensures
        default_entries(arrays) == arrays.filter_map(|o: Option<TickArrayFacade>| o).map_values(
            |f: TickArrayFacade| (pubkey_of_bytes(default_key_bytes(f.start_tick_index)), f),
        ),
    decreases arrays.len(),
{
    let present = |o: Option<TickArrayFacade>| o;
    let keyed = |f: TickArrayFacade| (pubkey_of_bytes(default_key_bytes(f.start_tick_index)), f);
    if arrays.len() > 0 {
        let rest = arrays.drop_last();
        lemma_default_entries(rest);
        assert(default_entries(rest) == rest.filter_map(present).map_values(keyed));
        match arrays.last() {
            Some(f) => {
                assert(arrays.filter_map(present) == rest.filter_map(present) + seq![f]);
                assert(arrays.filter_map(present).map_values(keyed) =~= rest.filter_map(
                    present,
                ).map_values(keyed).push(keyed(f)));
            },
            None => {
                assert(arrays.filter_map(present) == rest.filter_map(present));
            },
        }
    } else {
        assert(arrays.filter_map(present).map_values(keyed) =~= Seq::<
            (Pubkey, TickArrayFacade),
        >::empty());
    }
}

/// The address bytes made from a start index are its 32-bit pattern in
/// little-endian order, followed by zeros.
pub proof fn lemma_default_key_bytes(start: i32)
    ensures
        default_key_bytes(start).len() == 32,
        (start as u32) as int == default_key_bytes(start)[0] as int + 256 * default_key_bytes(
            start,
        )[1] as int + 65536 * default_key_bytes(start)[2] as int + 16777216 * default_key_bytes(
            start,
        )[3] as int,
        forall|i: int| 4 <= i < 32 ==> #[trigger] default_key_bytes(start)[i] == 0,
{
    let x = #[verifier::truncate] (start as u32);
    let b = default_key_bytes(start);
    let b0 = b[0];
    let b1 = b[1];
    let b2 = b[2];
    let b3 = b[3];
    assert(b0 == (x & 0xff) as u8);
    assert(b1 == ((x >> 8u32) & 0xff) as u8);
    assert(b2 == ((x >> 16u32) & 0xff) as u8);
    assert(b3 == ((x >> 24u32) & 0xff) as u8);
    assert(x == b0 as u32 + 256 * (b1 as u32) + 65536 * (b2 as u32) + 16777216 * (b3 as u32))
        by (bit_vector)
        requires
            b0 == (x & 0xff) as u8,
            b1 == ((x >> 8u32) & 0xff) as u8,
            b2 == ((x >> 16u32) & 0xff) as u8,
            b3 == ((x >> 24u32) & 0xff) as u8,
    ;
}

} // verus!
