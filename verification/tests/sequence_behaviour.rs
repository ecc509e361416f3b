use std::collections::HashSet;

use orca_tick_arrays::{
    get_initializable_tick_index, get_next_initializable_tick_index,
    get_prev_initializable_tick_index, get_tick_array_start_tick_index, validate_evenly_spaced,
    TickArrayFacade, TickArraySequence, TickFacade, TickRange, WhirlpoolFacade,
    WhirlpoolRewardInfoFacade, INVALID_TICK_ARRAY_SEQUENCE, NUM_REWARDS, TICK_ARRAY_NOT_EVENLY_SPACED,
    TICK_ARRAY_SIZE, TICK_INDEX_OUT_OF_BOUNDS, TICK_SEQUENCE_EMPTY,
};
use solana_program::pubkey::Pubkey;

fn key(i: u8) -> Pubkey {
    let mut b = [0u8; 32];
    b[0] = i;
    Pubkey::new_from_array(b)
}

fn ticks(initialized_every: usize, net_base: i128) -> [TickFacade; TICK_ARRAY_SIZE] {
    let v: Vec<TickFacade> = (0..TICK_ARRAY_SIZE)
        .map(|x| TickFacade {
            initialized: initialized_every != 0 && x % initialized_every == 0,
            liquidity_net: net_base + x as i128,
            ..TickFacade::default()
        })
        .collect();
    v.try_into().unwrap()
}

fn array(start: i32, net_base: i128) -> TickArrayFacade {
    TickArrayFacade {
        start_tick_index: start,
        ticks: ticks(0, net_base),
    }
}

fn three_arrays() -> TickArraySequence {
    TickArraySequence::new(
        vec![
            (key(1), array(-1408, 0)),
            (key(2), array(0, 1000)),
            (key(3), array(1408, 2000)),
        ],
        16,
    )
    .unwrap()
}

#[test]
fn validate_rejects_empty_and_uneven_spacing() {
    assert_eq!(validate_evenly_spaced(&[], 16), Err(TICK_SEQUENCE_EMPTY));
    assert_eq!(validate_evenly_spaced(&[0], 16), Ok(()));
    assert_eq!(validate_evenly_spaced(&[0, 1408, 2816], 16), Ok(()));
    assert_eq!(
        validate_evenly_spaced(&[0, 1408, 2817], 16),
        Err(TICK_ARRAY_NOT_EVENLY_SPACED)
    );
    assert_eq!(
        validate_evenly_spaced(&[1408, 0], 16),
        Err(TICK_ARRAY_NOT_EVENLY_SPACED)
    );
    assert_eq!(validate_evenly_spaced(&[7, 95], 1), Ok(()));
}

#[test]
fn new_rejects_no_arrays() {
    let result = TickArraySequence::new(vec![], 16);
    assert_eq!(result, Err(TICK_SEQUENCE_EMPTY));
}

#[test]
fn new_rejects_gap_and_repeated_start() {
    let gap = TickArraySequence::new(
        vec![(key(1), array(0, 0)), (key(2), array(2816, 0))],
        16,
    );
    assert_eq!(gap, Err(TICK_ARRAY_NOT_EVENLY_SPACED));
    let repeated = TickArraySequence::new(
        vec![(key(1), array(0, 0)), (key(2), array(0, 5))],
        16,
    );
    assert_eq!(repeated, Err(TICK_ARRAY_NOT_EVENLY_SPACED));
}

#[test]
fn new_sorts_start_indices() {
    let sequence = TickArraySequence::new(
        vec![
            (key(3), array(1408, 2000)),
            (key(1), array(-1408, 0)),
            (key(2), array(0, 1000)),
        ],
        16,
    )
    .unwrap();
    assert_eq!(sequence.start_index(), -1408);
    assert_eq!(sequence.end_index(), 2815);
    assert_eq!(sequence.start_tick_indices(), &[-1408, 0, 1408]);
    assert_eq!(sequence, three_arrays());
}

#[test]
fn new_keeps_the_later_array_for_an_address() {
    let sequence = TickArraySequence::new(
        vec![(key(1), array(0, 0)), (key(1), array(1408, 7))],
        16,
    )
    .unwrap();
    assert_eq!(sequence.get_tick_array(&key(1)), Some(&array(1408, 7)));
    assert_eq!(sequence.tick_arrays().len(), 1);
    assert!(sequence.contains_tick_array_at(0));
    assert!(sequence.contains_tick_array_at(1408));
    assert_eq!(sequence.tick(16), Err(INVALID_TICK_ARRAY_SEQUENCE));
    assert_eq!(sequence.tick(1424).map(|t| t.liquidity_net), Ok(8));
}

#[test]
fn new_with_zero_spacing_and_one_array() {
    let sequence = TickArraySequence::new(vec![(key(1), array(100, 0))], 0).unwrap();
    assert_eq!(sequence.start_index(), 100);
    assert_eq!(sequence.end_index(), 99);
    assert_eq!(sequence.tick(100), Err(TICK_INDEX_OUT_OF_BOUNDS));
}

#[test]
fn lookups_outside_the_range() {
    let sequence = three_arrays();
    assert_eq!(sequence.tick(2816), Err(TICK_INDEX_OUT_OF_BOUNDS));
    assert_eq!(
        sequence.next_initialized_tick(-5000),
        Err(TICK_INDEX_OUT_OF_BOUNDS)
    );
    assert_eq!(
        sequence.prev_initialized_tick(5000),
        Err(TICK_INDEX_OUT_OF_BOUNDS)
    );
}

#[test]
fn tick_reads_the_offset_in_its_array() {
    let sequence = three_arrays();
    assert_eq!(sequence.tick(0).map(|t| t.liquidity_net), Ok(1000));
    assert_eq!(sequence.tick(1392).map(|t| t.liquidity_net), Ok(1087));
    assert_eq!(sequence.tick(-16).map(|t| t.liquidity_net), Ok(87));
    assert_eq!(sequence.tick(2800).map(|t| t.liquidity_net), Ok(2087));
}

#[test]
fn with_default_pubkeys_keys_by_start_index() {
    let sequence = TickArraySequence::with_default_pubkeys(
        vec![Some(array(0, 0)), None, Some(array(1408, 9)), Some(array(-1408, 3))],
        16,
    )
    .unwrap();
    let mut bytes = [0u8; 32];
    bytes[0..4].copy_from_slice(&1408i32.to_le_bytes());
    assert_eq!(
        sequence.get_tick_array(&Pubkey::new_from_array(bytes)),
        Some(&array(1408, 9))
    );
    let mut negative = [0u8; 32];
    negative[0..4].copy_from_slice(&(-1408i32).to_le_bytes());
    assert_eq!(
        sequence.get_tick_array(&Pubkey::new_from_array(negative)),
        Some(&array(-1408, 3))
    );
    let keys: HashSet<Pubkey> = sequence.tick_array_pubkeys().into_iter().collect();
    assert_eq!(keys.len(), 3);
    assert_eq!(sequence.start_index(), -1408);
}

#[test]
fn with_default_pubkeys_validates_like_new() {
    assert_eq!(
        TickArraySequence::with_default_pubkeys(vec![None, None], 16),
        Err(TICK_SEQUENCE_EMPTY)
    );
    assert_eq!(
        TickArraySequence::with_default_pubkeys(vec![Some(array(0, 0)), Some(array(4000, 0))], 16),
        Err(TICK_ARRAY_NOT_EVENLY_SPACED)
    );
}

#[test]
fn add_new_tick_arrays_extends_the_sequence() {
    let mut sequence = three_arrays();
    assert_eq!(
        sequence.add_new_tick_arrays(vec![(key(4), array(2816, 3000))]),
        Ok(())
    );
    assert_eq!(sequence.end_index(), 4223);
    assert_eq!(sequence.tick(2816).map(|t| t.liquidity_net), Ok(3000));
    assert_eq!(sequence.tick_arrays_iter().len(), 4);
}

#[test]
fn add_new_tick_arrays_replaces_by_start_index() {
    let mut sequence = three_arrays();
    assert_eq!(
        sequence.add_new_tick_arrays(vec![(key(9), array(0, 500))]),
        Ok(())
    );
    assert_eq!(sequence.get_tick_array(&key(2)), None);
    assert_eq!(sequence.get_tick_array(&key(9)), Some(&array(0, 500)));
    assert_eq!(sequence.tick(0).map(|t| t.liquidity_net), Ok(500));
    assert_eq!(sequence.tick_arrays().len(), 3);
}

#[test]
fn add_new_tick_arrays_keeps_arrays_when_spacing_fails() {
    let mut sequence = TickArraySequence::new(vec![(key(1), array(0, 0))], 16).unwrap();
    assert_eq!(
        sequence.add_new_tick_arrays(vec![(key(2), array(2816, 0))]),
        Err(TICK_ARRAY_NOT_EVENLY_SPACED)
    );
    assert!(sequence.contains_tick_array_at(2816));
    assert_eq!(sequence.end_index(), 4223);
    assert_eq!(sequence.tick(1408), Err(INVALID_TICK_ARRAY_SEQUENCE));
    assert_eq!(
        sequence.next_initialized_tick(1390),
        Err(INVALID_TICK_ARRAY_SEQUENCE)
    );
}

#[test]
fn getters_report_loaded_arrays() {
    let sequence = three_arrays();
    let expected: HashSet<i32> = [-1408, 0, 1408].into_iter().collect();
    assert_eq!(sequence.current_tick_arrays(), expected);
    assert!(!sequence.contains_tick_array_at(2816));
    assert_eq!(sequence.get_tick_array(&key(7)), None);
    assert_eq!(sequence.get_tick_array(&key(2)), Some(&array(0, 1000)));
    let pairs: Vec<(Pubkey, i32)> = sequence
        .tick_arrays()
        .iter()
        .map(|(k, a)| (*k, a.start_tick_index))
        .collect();
    assert_eq!(pairs, vec![(key(1), -1408), (key(2), 0), (key(3), 1408)]);
}

#[test]
fn searches_find_initialized_ticks_on_the_spacing() {
    let mut every_fourth = array(0, 0);
    every_fourth.ticks = ticks(4, 0);
    let sequence = TickArraySequence::new(vec![(key(1), every_fourth)], 16).unwrap();
    assert_eq!(
        sequence.next_initialized_tick(0).map(|p| (p.0.map(|t| t.liquidity_net), p.1)),
        Ok((Some(4), 64))
    );
    assert_eq!(
        sequence.prev_initialized_tick(63).map(|p| (p.0.map(|t| t.liquidity_net), p.1)),
        Ok((Some(0), 0))
    );
    assert_eq!(
        sequence.prev_initialized_tick(64).map(|p| (p.0.map(|t| t.liquidity_net), p.1)),
        Ok((Some(4), 64))
    );
}

#[test]
fn tick_index_helpers() {
    assert_eq!(get_tick_array_start_tick_index(-1, 16), -1408);
    assert_eq!(get_tick_array_start_tick_index(1407, 16), 0);
    assert_eq!(get_tick_array_start_tick_index(1408, 16), 1408);
    assert_eq!(get_tick_array_start_tick_index(-1408, 16), -1408);
    assert_eq!(get_next_initializable_tick_index(-17, 16), -16);
    assert_eq!(get_next_initializable_tick_index(0, 16), 16);
    assert_eq!(get_next_initializable_tick_index(15, 16), 16);
    assert_eq!(get_prev_initializable_tick_index(0, 16), -16);
    assert_eq!(get_prev_initializable_tick_index(-1, 16), -16);
    assert_eq!(get_prev_initializable_tick_index(17, 16), 16);
    assert_eq!(get_initializable_tick_index(31, 16, Some(false)), 16);
    assert_eq!(get_initializable_tick_index(17, 16, Some(true)), 32);
    assert_eq!(get_initializable_tick_index(16, 16, Some(true)), 16);
    assert_eq!(get_initializable_tick_index(20, 16, None), 16);
    assert_eq!(get_initializable_tick_index(24, 16, None), 32);
    assert_eq!(get_initializable_tick_index(-20, 16, None), -16);
}

#[test]
fn facade_defaults() {
    let pool = WhirlpoolFacade::default();
    assert_eq!(pool.reward_infos.len(), NUM_REWARDS);
    assert_eq!(pool.reward_infos[0], WhirlpoolRewardInfoFacade::default());
    let range = TickRange {
        tick_lower_index: -16,
        tick_upper_index: 16,
    };
    assert!(range.tick_lower_index < range.tick_upper_index);
}

#[test]
fn adding_nothing_changes_nothing() {
    let mut sequence = three_arrays();
    let before = sequence.clone();
    assert_eq!(sequence.add_new_tick_arrays(Vec::new()), Ok(()));
    assert_eq!(sequence, before);
}

#[test]
fn adding_the_same_arrays_twice_changes_nothing() {
    let mut sequence = three_arrays();
    let added = vec![(key(9), array(0, 500)), (key(4), array(2816, 7))];
    assert_eq!(sequence.add_new_tick_arrays(added.clone()), Ok(()));
    let once = sequence.clone();
    assert_eq!(sequence.add_new_tick_arrays(added), Ok(()));
    assert_eq!(sequence, once);
}

#[test]
fn with_default_pubkeys_equals_new_on_keyed_arrays() {
    let arrays = vec![Some(array(0, 0)), None, Some(array(1408, 9))];
    let keyed: Vec<(Pubkey, TickArrayFacade)> = arrays
        .iter()
        .flatten()
        .map(|f| {
            let mut bytes = [0u8; 32];
            bytes[0..4].copy_from_slice(&f.start_tick_index.to_le_bytes());
            (Pubkey::new_from_array(bytes), *f)
        })
        .collect();
    assert_eq!(
        TickArraySequence::with_default_pubkeys(arrays, 16),
        TickArraySequence::new(keyed, 16)
    );
}

#[test]
fn next_found_tick_is_found_again_by_prev() {
    let mut every_fourth = array(0, 0);
    every_fourth.ticks = ticks(4, 0);
    let sequence = TickArraySequence::new(vec![(key(1), every_fourth)], 16).unwrap();
    let (tick, index) = sequence.next_initialized_tick(10).unwrap();
    assert_eq!(sequence.prev_initialized_tick(index), Ok((tick, index)));
    assert_eq!(index, 64);
}
