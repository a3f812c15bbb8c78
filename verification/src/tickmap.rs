//! Arithmetic of the tickmap: where a tick's bit lives, how far a search may
//! run, and the single-bit helpers.

use vstd::prelude::*;

verus! {

/// The largest tick index, in absolute value.
pub const MAX_TICK: i32 = 221_818;

/// How many spaced ticks a single search may walk.
pub const TICK_SEARCH_RANGE: i32 = 256;

/// The number of bits in one bitmap chunk.
pub const CHUNK_SIZE: i32 = 64;

/// The number of tick positions the bitmap can hold.
pub const TICKMAP_SIZE: i32 = 2 * MAX_TICK + 1;

/// Division of an integer by a positive divisor, rounding toward zero.
pub open spec fn trunc_div(a: int, b: int) -> int {
    if a >= 0 {
        a / b
    } else {
        -((-a) / b)
    }
}

/// The bitmap position of a tick: its offset from the lowest tick, in spacings.
pub open spec fn tick_index(tick: int, tick_spacing: int) -> int {
    (tick + MAX_TICK) / tick_spacing
}

/// The tick that sits at a bitmap position.
pub open spec fn index_tick(index: int, tick_spacing: int) -> int {
    (index - (MAX_TICK as int) / tick_spacing) * tick_spacing
}

/// A tick the bitmap of the given spacing can hold.
pub open spec fn valid_tick(tick: int, tick_spacing: int) -> bool {
    &&& tick_spacing > 0
    &&& -MAX_TICK <= tick <= MAX_TICK
    &&& tick % tick_spacing == 0
}

/// The bound of a search from `tick`, upwards or downwards.
pub open spec fn search_limit(tick: int, tick_spacing: int, up: bool) -> int {
    let index = trunc_div(tick, tick_spacing);
    let limit = if up {
        let array_limit = TICKMAP_SIZE - 1 - (MAX_TICK as int) / tick_spacing;
        let range_limit = index + TICK_SEARCH_RANGE;
        let price_limit = (MAX_TICK as int) / tick_spacing;
        vstd::math::min(vstd::math::min(array_limit, range_limit), price_limit)
    } else {
        let array_limit = -((MAX_TICK as int) / tick_spacing);
        let range_limit = index - TICK_SEARCH_RANGE;
        let price_limit = -((MAX_TICK as int) / tick_spacing);
        vstd::math::max(vstd::math::max(array_limit, range_limit), price_limit)
    };
    limit * tick_spacing
}

/// Value of the bit at `position` of a chunk.
pub open spec fn bit_of(value: u64, position: u8) -> u64 {
    (value >> position) & 1
}

/// Going from a tick to its position and back gives the tick again.
pub proof fn lemma_index_tick_roundtrip(tick: int, tick_spacing: int)
    requires
        valid_tick(tick, tick_spacing),
    ensures
        index_tick(tick_index(tick, tick_spacing), tick_spacing) == tick,
        0 <= tick_index(tick, tick_spacing) <= 2 * ((MAX_TICK as int) / tick_spacing),
        tick_index(tick, tick_spacing) == tick / tick_spacing + (MAX_TICK as int) / tick_spacing,
        tick == tick_spacing * (tick / tick_spacing),
{
    let k = tick / tick_spacing;
    let m = (MAX_TICK as int) / tick_spacing;
    let r = (MAX_TICK as int) % tick_spacing;
    vstd::arithmetic::div_mod::lemma_fundamental_div_mod(tick, tick_spacing);
    vstd::arithmetic::div_mod::lemma_fundamental_div_mod(MAX_TICK as int, tick_spacing);
    assert(tick == tick_spacing * k);
    assert(tick + MAX_TICK == tick_spacing * (k + m) + r) by (nonlinear_arith)
        requires
            tick == tick_spacing * k,
            MAX_TICK == tick_spacing * m + r,
    ;
    vstd::arithmetic::div_mod::lemma_fundamental_div_mod_converse(
        tick + MAX_TICK,
        tick_spacing,
        k + m,
        r,
    );
    assert((k + m - m) * tick_spacing == tick) by (nonlinear_arith)
        requires
            tick == tick_spacing * k,
    ;
    assert(-MAX_TICK <= tick_spacing * k);
    assert(tick_spacing * k <= MAX_TICK);
    assert(-m <= k <= m) by (nonlinear_arith)
        requires
            -MAX_TICK <= tick_spacing * k <= MAX_TICK,
            MAX_TICK == tick_spacing * m + r,
            0 <= r < tick_spacing,
            tick_spacing > 0,
    ;
}

/// Every position of the bitmap holds a tick, and that tick's position is it.
pub proof fn lemma_tick_index_roundtrip(index: int, tick_spacing: int)
    requires
        tick_spacing > 0,
        0 <= index <= 2 * ((MAX_TICK as int) / tick_spacing),
    ensures
        valid_tick(index_tick(index, tick_spacing), tick_spacing),
        tick_index(index_tick(index, tick_spacing), tick_spacing) == index,
{
    let m = (MAX_TICK as int) / tick_spacing;
    let r = (MAX_TICK as int) % tick_spacing;
    let k = index - m;
    let t = index_tick(index, tick_spacing);
    vstd::arithmetic::div_mod::lemma_fundamental_div_mod(MAX_TICK as int, tick_spacing);
    assert(t == k * tick_spacing);
    assert(-m <= k <= m);
    assert(-MAX_TICK <= k * tick_spacing <= MAX_TICK) by (nonlinear_arith)
        requires
            -m <= k <= m,
            MAX_TICK == tick_spacing * m + r,
            0 <= r < tick_spacing,
            tick_spacing > 0,
    ;
    vstd::arithmetic::div_mod::lemma_mod_multiples_basic(k, tick_spacing);
    assert(t + MAX_TICK == tick_spacing * (k + m) + r) by (nonlinear_arith)
        requires
            t == k * tick_spacing,
            MAX_TICK == tick_spacing * m + r,
    ;
    vstd::arithmetic::div_mod::lemma_fundamental_div_mod_converse(
        t + MAX_TICK,
        tick_spacing,
        k + m,
        r,
    );
}

/// Positions keep the order of the ticks they hold.
pub proof fn lemma_tick_index_monotonic(a: int, b: int, tick_spacing: int)
    requires
        valid_tick(a, tick_spacing),
        valid_tick(b, tick_spacing),
    ensures
        (a < b) == (tick_index(a, tick_spacing) < tick_index(b, tick_spacing)),
        (a == b) == (tick_index(a, tick_spacing) == tick_index(b, tick_spacing)),
{
    lemma_index_tick_roundtrip(a, tick_spacing);
    lemma_index_tick_roundtrip(b, tick_spacing);
    let ka = a / tick_spacing;
    let kb = b / tick_spacing;
    assert((a < b) == (ka < kb)) by (nonlinear_arith)
        requires
            a == tick_spacing * ka,
            b == tick_spacing * kb,
            tick_spacing > 0,
    ;
}

/// Finds the chunk and the bit that hold a tick.
pub fn tick_to_position(tick: i32, tick_spacing: u16) -> (r: (u16, u8))
    requires
        valid_tick(tick as int, tick_spacing as int),
    ensures
        r.0 == tick_index(tick as int, tick_spacing as int) / 64,
        r.1 == tick_index(tick as int, tick_spacing as int) % 64,
        r.0 * CHUNK_SIZE + r.1 == tick_index(tick as int, tick_spacing as int),
{
    let bitmap_index: i32 = (tick + MAX_TICK) / (tick_spacing as i32);
    assert(bitmap_index <= 2 * MAX_TICK) by {
        vstd::arithmetic::div_mod::lemma_div_is_ordered_by_denominator(
            (tick + MAX_TICK) as int,
            1,
            tick_spacing as int,
        );
    }
    let chunk: u16 = (bitmap_index / CHUNK_SIZE) as u16;
    let bit: u8 = (bitmap_index % CHUNK_SIZE) as u8;
    (chunk, bit)
}

/// The tick held at a chunk and a bit.
pub fn position_to_tick(chunk: u16, bit: u8, tick_spacing: u16) -> (r: i32)
    requires
        tick_spacing > 0,
        bit < CHUNK_SIZE,
        chunk * CHUNK_SIZE + bit <= 2 * ((MAX_TICK as int) / (tick_spacing as int)),
    ensures
        r == index_tick(chunk * CHUNK_SIZE + bit, tick_spacing as int),
{
    let index: i32 = (chunk as i32) * CHUNK_SIZE + (bit as i32);
    let m: i32 = MAX_TICK / (tick_spacing as i32);
    assert(-m <= index - m <= m);
    assert((index - m) * tick_spacing <= MAX_TICK) by (nonlinear_arith)
        requires
            index - m <= m,
            m == (MAX_TICK as int) / (tick_spacing as int),
            tick_spacing > 0,
    {
        vstd::arithmetic::div_mod::lemma_fundamental_div_mod(MAX_TICK as int, tick_spacing as int);
    }
    assert((index - m) * tick_spacing >= -MAX_TICK) by (nonlinear_arith)
        requires
            -m <= index - m,
            m == (MAX_TICK as int) / (tick_spacing as int),
            tick_spacing > 0,
    {
        vstd::arithmetic::div_mod::lemma_fundamental_div_mod(MAX_TICK as int, tick_spacing as int);
    }
    (index - m) * (tick_spacing as i32)
}

/// The bound of a search from `tick`: at most `TICK_SEARCH_RANGE` spacings
/// away, and never past the ends of the tick range.
pub fn get_search_limit(tick: i32, tick_spacing: u16, up: bool) -> (r: i32)
    requires
        tick_spacing > 0,
        -MAX_TICK <= tick <= MAX_TICK,
    ensures
        r == search_limit(tick as int, tick_spacing as int, up),
        -MAX_TICK <= r <= MAX_TICK,
        (r as int) % (tick_spacing as int) == 0,
{
    let ts: i32 = tick_spacing as i32;
    let index: i32 = if tick >= 0 {
        tick / ts
    } else {
        -((-tick) / ts)
    };
    let m: i32 = MAX_TICK / ts;
    proof {
        vstd::arithmetic::div_mod::lemma_fundamental_div_mod(MAX_TICK as int, ts as int);
        if tick >= 0 {
            vstd::arithmetic::div_mod::lemma_div_is_ordered(tick as int, MAX_TICK as int, ts as int);
        } else {
            vstd::arithmetic::div_mod::lemma_div_is_ordered(-tick as int, MAX_TICK as int, ts as int);
        }
    }
    let limit: i32 = if up {
        let array_limit = TICKMAP_SIZE - 1 - m;
        let range_limit = index + TICK_SEARCH_RANGE;
        let price_limit = m;
        let a = if array_limit < range_limit {
            array_limit
        } else {
            range_limit
        };
        if a < price_limit {
            a
        } else {
            price_limit
        }
    } else {
        let array_limit = -m;
        let range_limit = index - TICK_SEARCH_RANGE;
        let price_limit = -m;
        let a = if array_limit > range_limit {
            array_limit
        } else {
            range_limit
        };
        if a > price_limit {
            a
        } else {
            price_limit
        }
    };
    assert(-m <= limit <= m);
    assert(-MAX_TICK <= limit * ts <= MAX_TICK) by (nonlinear_arith)
        requires
            -m <= limit <= m,
            MAX_TICK == ts * m + (MAX_TICK as int) % (ts as int),
            0 <= (MAX_TICK as int) % (ts as int),
            ts > 0,
    ;
    proof {
        vstd::arithmetic::div_mod::lemma_mod_multiples_basic(limit as int, ts as int);
    }
    limit * ts
}

/// Whether `tick` is a multiple of `tick_spacing`.
pub fn is_multiple_of_spacing(tick: i32, tick_spacing: u16) -> (r: bool)
    requires
        tick_spacing > 0,
    ensures
        r == ((tick as int) % (tick_spacing as int) == 0),
{
    if tick >= 0 {
        (tick as u32) % (tick_spacing as u32) == 0
    } else {
        let n: u64 = (-(tick as i64)) as u64;
        proof {
            let b = tick_spacing as int;
            let q = n as int / b;
            vstd::arithmetic::div_mod::lemma_fundamental_div_mod(n as int, b);
            if n as int % b == 0 {
                assert(tick as int == (-q) * b) by (nonlinear_arith)
                    requires
                        n as int == b * q,
                        tick as int == -(n as int),
                ;
                vstd::arithmetic::div_mod::lemma_fundamental_div_mod_converse(tick as int, b, -q, 0);
            }
            if (tick as int) % b == 0 {
                let q2 = (tick as int) / b;
                vstd::arithmetic::div_mod::lemma_fundamental_div_mod(tick as int, b);
                assert(n as int == (-q2) * b) by (nonlinear_arith)
                    requires
                        tick as int == b * q2,
                        tick as int == -(n as int),
                ;
                vstd::arithmetic::div_mod::lemma_fundamental_div_mod_converse(n as int, b, -q2, 0);
            }
        }
        n % (tick_spacing as u64) == 0
    }
}

/// The highest tick usable with a spacing.
pub open spec fn max_tick_of(tick_spacing: int) -> int {
    ((MAX_TICK as int) / tick_spacing) * tick_spacing
}

/// The highest tick usable with a spacing.
pub fn get_max_tick(tick_spacing: u16) -> (r: i32)
    requires
        tick_spacing > 0,
    ensures
        r == max_tick_of(tick_spacing as int),
        0 <= r <= MAX_TICK,
        valid_tick(r as int, tick_spacing as int),
{
    let ts = tick_spacing as i32;
    proof {
        vstd::arithmetic::div_mod::lemma_fundamental_div_mod(MAX_TICK as int, ts as int);
        vstd::arithmetic::div_mod::lemma_mod_multiples_basic((MAX_TICK as int) / (ts as int), ts as int);
        assert(((MAX_TICK as int) / (ts as int)) * ts >= 0) by (nonlinear_arith)
            requires
                (MAX_TICK as int) / (ts as int) >= 0,
                ts > 0,
        ;
    }
    MAX_TICK / ts * ts
}

/// The lowest tick usable with a spacing.
pub fn get_min_tick(tick_spacing: u16) -> (r: i32)
    requires
        tick_spacing > 0,
    ensures
        r == -max_tick_of(tick_spacing as int),
        -MAX_TICK <= r <= 0,
        valid_tick(r as int, tick_spacing as int),
{
    let max = get_max_tick(tick_spacing);
    proof {
        let ts = tick_spacing as int;
        let k = (MAX_TICK as int) / ts;
        vstd::arithmetic::div_mod::lemma_mod_multiples_basic(-k, ts);
        assert(-(k * ts) == (-k) * ts) by (nonlinear_arith);
    }
    -max
}

/// The bit at `position` of a chunk.
pub fn get_bit_at_position(value: u64, position: u8) -> (r: u64)
    requires
        position < 64,
    ensures
        r == bit_of(value, position),
        r == 0 || r == 1,
{
    assert(((value >> position) & 1) <= 1) by (bit_vector);
    (value >> position) & 1
}

/// Flips the bit at `position` of a chunk.
pub fn flip_bit_at_position(value: u64, position: u8) -> (r: u64)
    requires
        position < 64,
    ensures
        r == value ^ (1u64 << position),
        bit_of(r, position) == 1 - bit_of(value, position),
        forall|p: u8| p < 64 && p != position ==> bit_of(r, p) == bit_of(value, p),
{
    let r = value ^ (1u64 << position);
    assert(((value ^ (1u64 << position)) >> position) & 1 == 1 - ((value >> position) & 1))
        by (bit_vector)
        requires
            position < 64,
    ;
    assert forall|p: u8| p < 64 && p != position implies bit_of(r, p) == bit_of(value, p) by {
        assert(((value ^ (1u64 << position)) >> p) & 1 == (value >> p) & 1) by (bit_vector)
            requires
                position < 64,
                p < 64,
                p != position,
        ;
    }
    r
}

/// The chunk that holds the highest tick usable with a spacing.
pub fn get_max_chunk(tick_spacing: u16) -> (r: u16)
    requires
        tick_spacing > 0,
    ensures
        r == tick_index(max_tick_of(tick_spacing as int), tick_spacing as int) / 64,
{
    tick_to_position(get_max_tick(tick_spacing), tick_spacing).0
}

/// The chunk that holds the lowest tick usable with a spacing.
pub fn get_min_chunk(tick_spacing: u16) -> (r: u16)
    requires
        tick_spacing > 0,
    ensures
        r == tick_index(-max_tick_of(tick_spacing as int), tick_spacing as int) / 64,
{
    tick_to_position(get_min_tick(tick_spacing), tick_spacing).0
}

} // verus!
