use vstd::prelude::*;

use crate::constants::TICK_ARRAY_SIZE;

verus! {

/// The number of tick indices that one tick array spans.
pub open spec fn array_width(tick_spacing: int) -> int {
    TICK_ARRAY_SIZE as int * tick_spacing
}

/// The start index of the tick array that holds `tick_index`: the largest multiple
/// of the array width that is not above `tick_index`.
pub open spec fn array_start_of(tick_index: int, tick_spacing: int) -> int {
    (tick_index / tick_spacing) / (TICK_ARRAY_SIZE as int) * array_width(tick_spacing)
}

/// The largest multiple of `tick_spacing` that is not above `tick_index`.
pub open spec fn floor_to_spacing(tick_index: int, tick_spacing: int) -> int {
    (tick_index / tick_spacing) * tick_spacing
}

/// The initializable tick that `get_initializable_tick_index` picks: rounded down,
/// rounded up, or, without a direction, to the nearest with ties going up.
pub open spec fn initializable_tick_of(
    tick_index: int,
    tick_spacing: int,
    round_up: Option<bool>,
) -> int {
    let rem = tick_index % tick_spacing;
    let up = match round_up {
        Some(b) => b && rem > 0,
        None => 2 * rem >= tick_spacing,
    };
    if up {
        floor_to_spacing(tick_index, tick_spacing) + tick_spacing
    } else {
        floor_to_spacing(tick_index, tick_spacing)
    }
}

proof fn lemma_div_mod(x: int, d: int)
    requires
        d > 0,
    ensures
        x == (x / d) * d + x % d,
        0 <= x % d < d,
{
    vstd::arithmetic::div_mod::lemma_fundamental_div_mod(x, d);
    assert((x / d) * d == d * (x / d)) by (nonlinear_arith);
}

proof fn lemma_div_range(x: int, d: int)
    requires
        d > 0,
    ensures
        x >= 0 ==> 0 <= x / d <= x,
        x < 0 ==> x <= x / d < 0,
{
    lemma_div_mod(x, d);
    let q = x / d;
    let r = x % d;
    if x >= 0 {
        assert(0 <= q <= x) by (nonlinear_arith)
            requires
                x == q * d + r,
                0 <= r < d,
                d > 0,
                x >= 0,
        ;
    } else {
        assert(x <= q < 0) by (nonlinear_arith)
            requires
                x == q * d + r,
                0 <= r < d,
                d > 0,
                x < 0,
        ;
    }
}

/// `array_start_of` is a multiple of the array width, and the tick lies within
/// the width that follows it.
pub proof fn lemma_array_start_of(tick_index: int, tick_spacing: int)
    requires
        tick_spacing > 0,
    ensures
        array_start_of(tick_index, tick_spacing) <= tick_index < array_start_of(
            tick_index,
            tick_spacing,
        ) + array_width(tick_spacing),
        array_start_of(tick_index, tick_spacing) % array_width(tick_spacing) == 0,
        array_start_of(tick_index, tick_spacing) % tick_spacing == 0,
{
    let ts = tick_spacing;
    let q = tick_index / ts;
    let r = q / 88;
    lemma_div_mod(tick_index, ts);
    lemma_div_mod(q, 88);
    let s = r * (88 * ts);
    assert(array_start_of(tick_index, ts) == s);
    assert(s <= q * ts) by (nonlinear_arith)
        requires
            r * 88 <= q,
            ts > 0,
            s == r * (88 * ts),
    ;
    assert(q * ts + ts <= s + 88 * ts) by (nonlinear_arith)
        requires
            q < r * 88 + 88,
            ts > 0,
            s == r * (88 * ts),
    ;
    vstd::arithmetic::div_mod::lemma_mod_multiples_basic(r, 88 * ts);
    assert(s == (r * 88) * ts) by (nonlinear_arith)
        requires
            s == r * (88 * ts),
    ;
    vstd::arithmetic::div_mod::lemma_mod_multiples_basic(r * 88, ts);
}

/// Returns the start index of the tick array that holds `tick_index`.
pub fn get_tick_array_start_tick_index(tick_index: i32, tick_spacing: u16) -> (start: i32)
    requires
        tick_spacing > 0,
        array_start_of(tick_index as int, tick_spacing as int) >= i32::MIN,
    ensures
        start == array_start_of(tick_index as int, tick_spacing as int),
        start <= tick_index < start + array_width(tick_spacing as int),
        start as int % array_width(tick_spacing as int) == 0,
{
    let ts = tick_spacing as i32;
    proof {
        lemma_div_range(tick_index as int, ts as int);
    }
    let q = tick_index.checked_div_euclid(ts).unwrap();
    proof {
        lemma_div_range(q as int, 88);
    }
    let r = q.checked_div_euclid(88).unwrap();
    proof {
        lemma_array_start_of(tick_index as int, tick_spacing as int);
        assert(i32::MIN <= r <= i32::MAX);
        assert(0 < ts <= 65535);
        assert(-0x8000_0000 * 0x60_0000 <= (r as int) * ((ts as int) * 88) <= 0x8000_0000
            * 0x60_0000) by (nonlinear_arith)
            requires
                -0x8000_0000 <= r <= 0x8000_0000,
                0 < ts <= 65535,
        ;
    }
    let start = (r as i64) * ((ts as i64) * 88);
    start as i32
}

/// Returns the multiple of `tick_spacing` that `tick_index` rounds to: down when
/// `round_up` is `Some(false)`, up when it is `Some(true)`, and to the nearest,
/// ties going up, when it is `None`.
pub fn get_initializable_tick_index(
    tick_index: i32,
    tick_spacing: u16,
    round_up: Option<bool>,
) -> (index: i32)
    requires
        tick_spacing > 0,
        i32::MIN <= initializable_tick_of(tick_index as int, tick_spacing as int, round_up)
            <= i32::MAX,
    ensures
        index == initializable_tick_of(tick_index as int, tick_spacing as int, round_up),
        index as int % (tick_spacing as int) == 0,
        tick_index - tick_spacing < index < tick_index + tick_spacing,
{
    let ts = tick_spacing as i32;
    let rem = tick_index.checked_rem_euclid(ts).unwrap();
    proof {
        lemma_div_mod(tick_index as int, ts as int);
        vstd::arithmetic::div_mod::lemma_mod_multiples_basic(tick_index / ts, ts as int);
        vstd::arithmetic::div_mod::lemma_mod_multiples_basic(tick_index / ts + 1, ts as int);
        assert((tick_index / ts + 1) * ts == (tick_index / ts) * ts + ts) by (nonlinear_arith);
    }
    let up = match round_up {
        Some(b) => b && rem > 0,
        None => 2 * rem >= ts,
    };
    if up {
        tick_index + (ts - rem)
    } else {
        tick_index - rem
    }
}

/// Returns the smallest multiple of `tick_spacing` above `tick_index`.
pub fn get_next_initializable_tick_index(tick_index: i32, tick_spacing: u16) -> (next: i32)
    requires
        tick_spacing > 0,
        floor_to_spacing(tick_index as int, tick_spacing as int) + tick_spacing <= i32::MAX,
    ensures
        next as int % (tick_spacing as int) == 0,
        tick_index < next <= tick_index + tick_spacing,
        next == floor_to_spacing(tick_index as int, tick_spacing as int) + tick_spacing,
{
    let ts = tick_spacing as i32;
    let rem = tick_index.checked_rem_euclid(ts).unwrap();
    proof {
        lemma_div_mod(tick_index as int, ts as int);
        vstd::arithmetic::div_mod::lemma_mod_multiples_basic(tick_index / ts + 1, ts as int);
        assert((tick_index / ts + 1) * ts == (tick_index / ts) * ts + ts) by (nonlinear_arith);
    }
    tick_index + (ts - rem)
}

/// Returns the largest multiple of `tick_spacing` below `tick_index`.
pub fn get_prev_initializable_tick_index(tick_index: i32, tick_spacing: u16) -> (prev: i32)
    requires
        tick_spacing > 0,
        floor_to_spacing(tick_index - 1, tick_spacing as int) >= i32::MIN,
    ensures
        prev as int % (tick_spacing as int) == 0,
        tick_index - tick_spacing <= prev < tick_index,
        prev == floor_to_spacing(tick_index - 1, tick_spacing as int),
{
    let ts = tick_spacing as i32;
    let rem = tick_index.checked_rem_euclid(ts).unwrap();
    proof {
        let t = tick_index as int;
        let d = ts as int;
        lemma_div_mod(t, d);
        lemma_div_mod(t - 1, d);
        vstd::arithmetic::div_mod::lemma_mod_multiples_basic((t - 1) / d, d);
        let q = t / d;
        let q1 = (t - 1) / d;
        assert(q1 * d <= t - 1 < q1 * d + d);
        assert(q * d <= t < q * d + d);
        if t % d == 0 {
            assert(q1 == q - 1) by (nonlinear_arith)
                requires
                    q1 * d <= t - 1 < q1 * d + d,
                    t == q * d,
                    d > 0,
            ;
            assert(q1 * d == q * d - d) by (nonlinear_arith)
                requires
                    q1 == q - 1,
            ;
        } else {
            assert(q1 == q) by (nonlinear_arith)
                requires
                    q1 * d <= t - 1 < q1 * d + d,
                    q * d < t < q * d + d,
                    d > 0,
            ;
        }
    }
    if rem == 0 {
        tick_index - ts
    } else {
        tick_index - rem
    }
}

/// `floor_to_spacing` is the multiple of the spacing at or just below the index.
pub proof fn lemma_floor_to_spacing(tick_index: int, tick_spacing: int)
    requires
        tick_spacing > 0,
    ensures
        floor_to_spacing(tick_index, tick_spacing) <= tick_index < floor_to_spacing(
            tick_index,
            tick_spacing,
        ) + tick_spacing,
        floor_to_spacing(tick_index, tick_spacing) % tick_spacing == 0,
{
    lemma_div_mod(tick_index, tick_spacing);
    vstd::arithmetic::div_mod::lemma_mod_multiples_basic(tick_index / tick_spacing, tick_spacing);
}

/// Two different multiples of the spacing lie at least one spacing apart.
pub proof fn lemma_multiples_apart(a: int, b: int, tick_spacing: int)
    requires
        tick_spacing > 0,
        a % tick_spacing == 0,
        b % tick_spacing == 0,
        a < b,
    ensures
        a + tick_spacing <= b,
{
    lemma_div_mod(a, tick_spacing);
    lemma_div_mod(b, tick_spacing);
    let qa = a / tick_spacing;
    let qb = b / tick_spacing;
    assert(qa < qb) by (nonlinear_arith)
        requires
            a == qa * tick_spacing,
            b == qb * tick_spacing,
            a < b,
            tick_spacing > 0,
    ;
    assert(qa * tick_spacing + tick_spacing <= qb * tick_spacing) by (nonlinear_arith)
        requires
            qa + 1 <= qb,
            tick_spacing > 0,
    ;
}

} // verus!
