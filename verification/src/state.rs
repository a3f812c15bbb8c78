//! The contract's storage and the operations on it: the tickmap bitmap, the
//! ticks, the positions and the token counters.

use vstd::prelude::*;

use crate::bits::{
    lemma_flip_bits,
    lemma_low_bits, lemma_mask_bit, lemma_mask_step, lemma_shift_half_nonzero, lemma_shift_low_bit, lemma_shift_nonzero_even,
    lemma_shift_step, lemma_shift_zero,
};
use crate::error::ContractError;
use crate::interface::PoolWithPoolKey;
use crate::kv::{
    bytes_lt, copy_bytes, first_keys_past, key_views, lemma_bytes_lt_irreflexive,
    lemma_bytes_lt_total, opt_view, past,
    ByteMap,
};
use crate::tickmap::{
    bit_of, flip_bit_at_position, get_bit_at_position, get_search_limit, index_tick,
    TICKMAP_SIZE, TICK_SEARCH_RANGE, trunc_div, lemma_index_tick_roundtrip, lemma_tick_index_monotonic, lemma_tick_index_roundtrip, search_limit, tick_index, tick_to_position, valid_tick, CHUNK_SIZE,
    MAX_TICK,
};
use crate::sqrt_price::{calculate_sqrt_price, sqrt_price_at};
use crate::storage::{Config, Expiration, Pool, Position, Tick};
use crate::types::{
    lemma_suffix_distinct, lemma_u32_be_injective, push_bytes, push_i32_be, push_u16_be, push_u32_be, push_u64_be, i32_be, string_bytes, u16_be, u32_be,
    u64_be, utf8, key_decodes, PoolKey, SqrtPrice,
};

verus! {

/// The contract's storage.
pub struct State {
    bitmap: ByteMap<u64>,
    ticks: ByteMap<Tick>,
    positions: ByteMap<Position>,
    positions_length: ByteMap<u32>,
    position_keys_by_token_id: ByteMap<(Vec<u8>, u32)>,
    token_count: Option<u64>,
    token_id: Option<u64>,
    pools: ByteMap<Pool>,
    config: Option<Config>,
    operators: ByteMap<ByteMap<Expiration>>,
}

/// The storage key of a bitmap chunk of a pool.
pub open spec fn bitmap_key_bytes(chunk: u16, pool_key: PoolKey) -> Seq<u8> {
    u16_be(chunk) + pool_key.key_bytes()
}

/// The chunk stored under a key, zero where none is stored.
pub open spec fn chunk_value(bitmap: Map<Seq<u8>, u64>, pool_key: PoolKey, chunk: int) -> u64 {
    let key = bitmap_key_bytes(chunk as u16, pool_key);
    if bitmap.contains_key(key) {
        bitmap[key]
    } else {
        0
    }
}

/// Whether the bit at a bitmap position is set.
pub open spec fn index_set(bitmap: Map<Seq<u8>, u64>, pool_key: PoolKey, index: int) -> bool {
    bit_of(chunk_value(bitmap, pool_key, index / 64), (index % 64) as u8) == 1
}

/// Whether a tick is marked initialized in the bitmap.
pub open spec fn tick_initialized(
    bitmap: Map<Seq<u8>, u64>,
    pool_key: PoolKey,
    tick: int,
    tick_spacing: int,
) -> bool {
    index_set(bitmap, pool_key, tick_index(tick, tick_spacing))
}

/// The lowest set position in `[from, to]`, if any.
pub open spec fn first_set(bitmap: Map<Seq<u8>, u64>, pool_key: PoolKey, from: int, to: int) -> Option<
    int,
>
    decreases to + 1 - from,
{
    if from > to {
        None
    } else if index_set(bitmap, pool_key, from) {
        Some(from)
    } else {
        first_set(bitmap, pool_key, from + 1, to)
    }
}

/// The highest set position in `[to, from]`, if any.
pub open spec fn last_set(bitmap: Map<Seq<u8>, u64>, pool_key: PoolKey, from: int, to: int) -> Option<
    int,
>
    decreases from + 1 - to,
{
    if from < to {
        None
    } else if index_set(bitmap, pool_key, from) {
        Some(from)
    } else {
        last_set(bitmap, pool_key, from - 1, to)
    }
}

/// The tick at a position found by a search.
pub open spec fn found_tick(found: Option<int>, tick_spacing: int) -> Option<i32> {
    match found {
        Some(index) => Some(index_tick(index, tick_spacing) as i32),
        None => None,
    }
}

/// The closest initialized tick above `tick`, within the search limit.
pub open spec fn next_initialized_tick(
    bitmap: Map<Seq<u8>, u64>,
    pool_key: PoolKey,
    tick: int,
    tick_spacing: int,
) -> Option<i32> {
    if tick + tick_spacing > MAX_TICK {
        None
    } else {
        found_tick(
            first_set(
                bitmap,
                pool_key,
                tick_index(tick + tick_spacing, tick_spacing),
                tick_index(search_limit(tick, tick_spacing, true), tick_spacing),
            ),
            tick_spacing,
        )
    }
}

/// The closest initialized tick at or below `tick`, within the search limit.
pub open spec fn prev_initialized_tick(
    bitmap: Map<Seq<u8>, u64>,
    pool_key: PoolKey,
    tick: int,
    tick_spacing: int,
) -> Option<i32> {
    found_tick(
        last_set(
            bitmap,
            pool_key,
            tick_index(tick, tick_spacing),
            tick_index(search_limit(tick, tick_spacing, false), tick_spacing),
        ),
        tick_spacing,
    )
}

/// The bitmap with the bit of `tick` flipped.
pub open spec fn flipped_bitmap(
    bitmap: Map<Seq<u8>, u64>,
    pool_key: PoolKey,
    tick: int,
    tick_spacing: int,
) -> Map<Seq<u8>, u64> {
    let index = tick_index(tick, tick_spacing);
    bitmap.insert(
        bitmap_key_bytes((index / 64) as u16, pool_key),
        chunk_value(bitmap, pool_key, index / 64) ^ (1u64 << ((index % 64) as u8)),
    )
}

/// Flipping the bit of a tick toggles whether that tick is initialized and
/// leaves every other tick of the pool as it was.
pub proof fn lemma_flip_toggles_only_tick(
    bitmap: Map<Seq<u8>, u64>,
    pool_key: PoolKey,
    tick: int,
    other: int,
    tick_spacing: int,
)
    requires
        valid_tick(tick, tick_spacing),
        valid_tick(other, tick_spacing),
    ensures
        tick_initialized(flipped_bitmap(bitmap, pool_key, tick, tick_spacing), pool_key, other, tick_spacing)
            == if other == tick {
            !tick_initialized(bitmap, pool_key, tick, tick_spacing)
        } else {
            tick_initialized(bitmap, pool_key, other, tick_spacing)
        },
{
    let ts = tick_spacing;
    lemma_index_tick_roundtrip(tick, ts);
    lemma_index_tick_roundtrip(other, ts);
    lemma_tick_index_monotonic(tick, other, ts);
    let i = tick_index(tick, ts);
    let j = tick_index(other, ts);
    let m = (MAX_TICK as int) / ts;
    assert(m <= MAX_TICK) by {
        vstd::arithmetic::div_mod::lemma_div_is_ordered_by_denominator(MAX_TICK as int, 1, ts);
    }
    let c = chunk_value(bitmap, pool_key, i / 64);
    let b = (i % 64) as u8;
    let nb = flipped_bitmap(bitmap, pool_key, tick, ts);
    lemma_flip_bits(c, b);
    if i / 64 == j / 64 {
        assert(chunk_value(nb, pool_key, j / 64) == c ^ (1u64 << b));
        if other != tick {
            assert((j % 64) as u8 != b);
        }
    } else {
        let k1 = bitmap_key_bytes((i / 64) as u16, pool_key);
        let k2 = bitmap_key_bytes((j / 64) as u16, pool_key);
        assert(k1 != k2) by {
            assert(k1[0] != k2[0] || k1[1] != k2[1]);
        }
        assert(chunk_value(nb, pool_key, j / 64) == chunk_value(bitmap, pool_key, j / 64));
    }
}

/// Flipping the bit of a tick twice leaves every tick of the pool initialized
/// as it was before.
pub proof fn lemma_flip_twice_restores(
    bitmap: Map<Seq<u8>, u64>,
    pool_key: PoolKey,
    tick: int,
    other: int,
    tick_spacing: int,
)
    requires
        valid_tick(tick, tick_spacing),
        valid_tick(other, tick_spacing),
    ensures
        tick_initialized(
            flipped_bitmap(
                flipped_bitmap(bitmap, pool_key, tick, tick_spacing),
                pool_key,
                tick,
                tick_spacing,
            ),
            pool_key,
            other,
            tick_spacing,
        ) == tick_initialized(bitmap, pool_key, other, tick_spacing),
{
    lemma_flip_toggles_only_tick(bitmap, pool_key, tick, other, tick_spacing);
    lemma_flip_toggles_only_tick(
        flipped_bitmap(bitmap, pool_key, tick, tick_spacing),
        pool_key,
        tick,
        other,
        tick_spacing,
    );
    lemma_flip_toggles_only_tick(bitmap, pool_key, tick, tick, tick_spacing);
}

/// Skipping a run of clear positions does not change the upward search.
pub proof fn lemma_first_set_skip(
    bitmap: Map<Seq<u8>, u64>,
    pool_key: PoolKey,
    a: int,
    b: int,
    to: int,
)
    requires
        a <= b,
        forall|i: int| a <= i < b ==> !index_set(bitmap, pool_key, i),
    ensures
        first_set(bitmap, pool_key, a, to) == first_set(bitmap, pool_key, b, to),
    decreases b - a,
{
    if a < b {
        lemma_first_set_skip(bitmap, pool_key, a + 1, b, to);
        if a > to {
            assert(b > to);
        }
    }
}

/// Skipping a run of clear positions does not change the downward search.
pub proof fn lemma_last_set_skip(
    bitmap: Map<Seq<u8>, u64>,
    pool_key: PoolKey,
    a: int,
    b: int,
    to: int,
)
    requires
        b <= a,
        forall|i: int| b < i <= a ==> !index_set(bitmap, pool_key, i),
    ensures
        last_set(bitmap, pool_key, a, to) == last_set(bitmap, pool_key, b, to),
    decreases a - b,
{
    if b < a {
        lemma_last_set_skip(bitmap, pool_key, a - 1, b, to);
    }
}

/// What the upward search finds: the lowest set position in its range, or none.
pub proof fn lemma_first_set_found(bitmap: Map<Seq<u8>, u64>, pool_key: PoolKey, a: int, b: int)
    ensures
        match first_set(bitmap, pool_key, a, b) {
            Some(i) => a <= i <= b && index_set(bitmap, pool_key, i) && forall|j: int|
                a <= j < i ==> !index_set(bitmap, pool_key, j),
            None => forall|j: int| a <= j <= b ==> !index_set(bitmap, pool_key, j),
        },
    decreases b + 1 - a,
{
    if a <= b && !index_set(bitmap, pool_key, a) {
        lemma_first_set_found(bitmap, pool_key, a + 1, b);
    }
}

/// What the downward search finds: the highest set position in its range, or none.
pub proof fn lemma_last_set_found(bitmap: Map<Seq<u8>, u64>, pool_key: PoolKey, a: int, b: int)
    ensures
        match last_set(bitmap, pool_key, a, b) {
            Some(i) => b <= i <= a && index_set(bitmap, pool_key, i) && forall|j: int|
                i < j <= a ==> !index_set(bitmap, pool_key, j),
            None => forall|j: int| b <= j <= a ==> !index_set(bitmap, pool_key, j),
        },
    decreases a + 1 - b,
{
    if b <= a && !index_set(bitmap, pool_key, a) {
        lemma_last_set_found(bitmap, pool_key, a - 1, b);
    }
}

/// The search upwards answers with the closest initialized tick above `tick`
/// and at most at the search limit, or with none when no tick in that range
/// is initialized.
pub proof fn lemma_next_initialized_is_closest(
    bitmap: Map<Seq<u8>, u64>,
    pool_key: PoolKey,
    tick: int,
    tick_spacing: int,
)
    requires
        valid_tick(tick, tick_spacing),
    ensures
        match next_initialized_tick(bitmap, pool_key, tick, tick_spacing) {
            Some(t) => {
                &&& tick < t <= search_limit(tick, tick_spacing, true)
                &&& valid_tick(t as int, tick_spacing)
                &&& tick_initialized(bitmap, pool_key, t as int, tick_spacing)
                &&& forall|u: int|
                    tick < u < t && valid_tick(u, tick_spacing) ==> !tick_initialized(
                        bitmap,
                        pool_key,
                        u,
                        tick_spacing,
                    )
            },
            None => forall|u: int|
                tick < u <= search_limit(tick, tick_spacing, true) && valid_tick(u, tick_spacing)
                    ==> !tick_initialized(bitmap, pool_key, u, tick_spacing),
        },
{
    let ts = tick_spacing;
    let limit = search_limit(tick, ts, true);
    let m = (MAX_TICK as int) / ts;
    vstd::arithmetic::div_mod::lemma_fundamental_div_mod(MAX_TICK as int, ts);
    lemma_index_tick_roundtrip(tick, ts);
    if tick + ts > MAX_TICK {
        assert forall|u: int| tick < u && valid_tick(u, ts) implies false by {
            lemma_index_tick_roundtrip(u, ts);
            assert(u / ts > tick / ts) by (nonlinear_arith)
                requires
                    tick < u,
                    u == ts * (u / ts),
                    tick == ts * (tick / ts),
                    ts > 0,
            ;
            assert(u >= tick + ts) by (nonlinear_arith)
                requires
                    u / ts >= tick / ts + 1,
                    u == ts * (u / ts),
                    tick == ts * (tick / ts),
                    ts > 0,
            ;
        }
    } else {
        vstd::arithmetic::div_mod::lemma_mod_multiples_basic(1, ts);
        vstd::arithmetic::div_mod::lemma_mod_adds(tick, ts, ts);
        assert(valid_tick(tick + ts, ts));
        lemma_index_tick_roundtrip(tick + ts, ts);
        assert(-MAX_TICK <= limit <= MAX_TICK && limit % ts == 0) by {
            let index = trunc_div(tick, ts);
            let lim = vstd::math::min(
                vstd::math::min(TICKMAP_SIZE - 1 - m, index + TICK_SEARCH_RANGE),
                m,
            );
            assert(-m <= lim <= m) by {
                if tick >= 0 {
                    vstd::arithmetic::div_mod::lemma_div_is_ordered(tick, MAX_TICK as int, ts);
                } else {
                    vstd::arithmetic::div_mod::lemma_div_is_ordered(-tick, MAX_TICK as int, ts);
                }
            }
            assert(-MAX_TICK <= lim * ts <= MAX_TICK) by (nonlinear_arith)
                requires
                    -m <= lim <= m,
                    MAX_TICK == ts * m + (MAX_TICK as int) % ts,
                    0 <= (MAX_TICK as int) % ts,
                    ts > 0,
            ;
            vstd::arithmetic::div_mod::lemma_mod_multiples_basic(lim, ts);
        }
        lemma_index_tick_roundtrip(limit, ts);
        let start = tick_index(tick + ts, ts);
        let lim_index = tick_index(limit, ts);
        assert(start == tick_index(tick, ts) + 1) by {
            assert((tick + ts) / ts == tick / ts + 1) by {
                vstd::arithmetic::div_mod::lemma_div_plus_one(tick, ts);
            }
        }
        lemma_first_set_found(bitmap, pool_key, start, lim_index);
        match first_set(bitmap, pool_key, start, lim_index) {
            Some(i) => {
                lemma_tick_index_roundtrip(i, ts);
                let t = index_tick(i, ts);
                lemma_tick_index_monotonic(tick, t, ts);
                lemma_tick_index_monotonic(t, limit, ts);
                assert forall|u: int|
                    tick < u < t && valid_tick(u, ts) implies !tick_initialized(
                    bitmap,
                    pool_key,
                    u,
                    ts,
                ) by {
                    lemma_tick_index_monotonic(tick, u, ts);
                    lemma_tick_index_monotonic(u, t, ts);
                }
            },
            None => {
                assert forall|u: int|
                    tick < u <= limit && valid_tick(u, ts) implies !tick_initialized(
                    bitmap,
                    pool_key,
                    u,
                    ts,
                ) by {
                    lemma_tick_index_monotonic(tick, u, ts);
                    lemma_tick_index_monotonic(u, limit, ts);
                }
            },
        }
    }
}

/// The search downwards answers with the closest initialized tick at or
/// below `tick` and at least at the search limit, or with none when no tick
/// in that range is initialized.
pub proof fn lemma_prev_initialized_is_closest(
    bitmap: Map<Seq<u8>, u64>,
    pool_key: PoolKey,
    tick: int,
    tick_spacing: int,
)
    requires
        valid_tick(tick, tick_spacing),
    ensures
        match prev_initialized_tick(bitmap, pool_key, tick, tick_spacing) {
            Some(t) => {
                &&& search_limit(tick, tick_spacing, false) <= t <= tick
                &&& valid_tick(t as int, tick_spacing)
                &&& tick_initialized(bitmap, pool_key, t as int, tick_spacing)
                &&& forall|u: int|
                    t < u <= tick && valid_tick(u, tick_spacing) ==> !tick_initialized(
                        bitmap,
                        pool_key,
                        u,
                        tick_spacing,
                    )
            },
            None => forall|u: int|
                search_limit(tick, tick_spacing, false) <= u <= tick && valid_tick(u, tick_spacing)
                    ==> !tick_initialized(bitmap, pool_key, u, tick_spacing),
        },
{
    let ts = tick_spacing;
    let limit = search_limit(tick, ts, false);
    let m = (MAX_TICK as int) / ts;
    vstd::arithmetic::div_mod::lemma_fundamental_div_mod(MAX_TICK as int, ts);
    lemma_index_tick_roundtrip(tick, ts);
    assert(-MAX_TICK <= limit <= MAX_TICK && limit % ts == 0) by {
        let index = trunc_div(tick, ts);
        let lim = vstd::math::max(vstd::math::max(-m, index - TICK_SEARCH_RANGE), -m);
        assert(-m <= lim <= m) by {
            if tick >= 0 {
                vstd::arithmetic::div_mod::lemma_div_is_ordered(tick, MAX_TICK as int, ts);
            } else {
                vstd::arithmetic::div_mod::lemma_div_is_ordered(-tick, MAX_TICK as int, ts);
            }
        }
        assert(-MAX_TICK <= lim * ts <= MAX_TICK) by (nonlinear_arith)
            requires
                -m <= lim <= m,
                MAX_TICK == ts * m + (MAX_TICK as int) % ts,
                0 <= (MAX_TICK as int) % ts,
                ts > 0,
        ;
        vstd::arithmetic::div_mod::lemma_mod_multiples_basic(lim, ts);
    }
    lemma_index_tick_roundtrip(limit, ts);
    let start = tick_index(tick, ts);
    let lim_index = tick_index(limit, ts);
    lemma_last_set_found(bitmap, pool_key, start, lim_index);
    match last_set(bitmap, pool_key, start, lim_index) {
        Some(i) => {
            lemma_tick_index_roundtrip(i, ts);
            let t = index_tick(i, ts);
            lemma_tick_index_monotonic(t, tick, ts);
            lemma_tick_index_monotonic(limit, t, ts);
            assert forall|u: int|
                t < u <= tick && valid_tick(u, ts) implies !tick_initialized(bitmap, pool_key, u, ts)
                by {
                lemma_tick_index_monotonic(u, tick, ts);
                lemma_tick_index_monotonic(t, u, ts);
            }
        },
        None => {
            assert forall|u: int|
                limit <= u <= tick && valid_tick(u, ts) implies !tick_initialized(
                bitmap,
                pool_key,
                u,
                ts,
            ) by {
                lemma_tick_index_monotonic(u, tick, ts);
                lemma_tick_index_monotonic(limit, u, ts);
            }
        },
    }
}

impl State {
    /// Empty storage.
    pub fn new() -> (s: State)
        ensures
            s.wf(),
            s.bitmap_view() == Map::<Seq<u8>, u64>::empty(),
            s.ticks_view() == Map::<Seq<u8>, Tick>::empty(),
            s.positions_view() == Map::<Seq<u8>, Position>::empty(),
            s.positions_length_view() == Map::<Seq<u8>, u32>::empty(),
            s.position_keys_view() == Map::<Seq<u8>, (Seq<u8>, u32)>::empty(),
            s.token_count_view() is None,
            s.token_id_view() is None,
            s.pools_view() == Map::<Seq<u8>, Pool>::empty(),
            s.config_view() is None,
            s.operators_view() == Map::<Seq<u8>, Map<Seq<u8>, Expiration>>::empty(),
    {
        State {
            bitmap: ByteMap::new(),
            ticks: ByteMap::new(),
            positions: ByteMap::new(),
            positions_length: ByteMap::new(),
            position_keys_by_token_id: ByteMap::new(),
            token_count: None,
            token_id: None,
            pools: ByteMap::new(),
            config: None,
            operators: ByteMap::new(),
        }
    }

    /// Well-formedness of every table.
    pub closed spec fn wf(&self) -> bool {
        &&& self.bitmap.wf()
        &&& self.ticks.wf()
        &&& self.positions.wf()
        &&& self.positions_length.wf()
        &&& self.position_keys_by_token_id.wf()
        &&& self.pools.wf()
        &&& forall|k: Seq<u8>|
            #[trigger] self.position_keys_by_token_id@.contains_key(k) ==> k.len() == 8
        &&& self.operators.wf()
        &&& forall|k: Seq<u8>| #[trigger] self.operators@.contains_key(k) ==> self.operators@[k].wf()
        &&& forall|o: Seq<u8>, k: Seq<u8>|
            self.operators@.contains_key(o) && #[trigger] self.operators@[o]@.contains_key(k)
                ==> vstd::utf8::valid_utf8(k)
    }

    /// The ticks, by storage key.
    pub closed spec fn ticks_view(&self) -> Map<Seq<u8>, Tick> {
        self.ticks@
    }

    /// The positions, by storage key.
    pub closed spec fn positions_view(&self) -> Map<Seq<u8>, Position> {
        self.positions@
    }

    /// The number of positions of each owner, by the owner's bytes.
    pub closed spec fn positions_length_view(&self) -> Map<Seq<u8>, u32> {
        self.positions_length@
    }

    /// Where each position token lives: its owner's bytes and its index.
    pub closed spec fn position_keys_view(&self) -> Map<Seq<u8>, (Seq<u8>, u32)> {
        self.position_keys_by_token_id@.map_values(|v: (Vec<u8>, u32)| (v.0@, v.1))
    }

    /// The stored number of position tokens.
    pub closed spec fn token_count_view(&self) -> Option<u64> {
        self.token_count
    }

    /// The stored last position token id.
    pub closed spec fn token_id_view(&self) -> Option<u64> {
        self.token_id
    }

    /// The bitmap chunks, by storage key.
    pub closed spec fn bitmap_view(&self) -> Map<Seq<u8>, u64> {
        self.bitmap@
    }

    /// The pools, by the bytes of their keys.
    pub closed spec fn pools_view(&self) -> Map<Seq<u8>, Pool> {
        self.pools@
    }

    /// The stored settings, if any.
    pub closed spec fn config_view(&self) -> Option<Config> {
        self.config
    }

    /// The operators each owner approved for all its positions, and until
    /// when, by the owner's bytes and then the operator's bytes.
    pub closed spec fn operators_view(&self) -> Map<Seq<u8>, Map<Seq<u8>, Expiration>> {
        self.operators@.map_values(|m: ByteMap<Expiration>| m@)
    }
}

/// The storage key of a bitmap chunk of a pool.
pub fn bitmap_key(chunk: u16, pool_key: &PoolKey) -> (r: Vec<u8>)
    ensures
        r@ == bitmap_key_bytes(chunk, *pool_key),
{
    let mut db_key: Vec<u8> = Vec::new();
    push_u16_be(&mut db_key, chunk);
    let k = pool_key.key();
    push_bytes(&mut db_key, k.as_slice());
    assert(db_key@ =~= bitmap_key_bytes(chunk, *pool_key));
    db_key
}

/// The stored chunk, or zero.
fn load_chunk(store: &State, chunk: u16, pool_key: &PoolKey) -> (r: u64)
    requires
        store.wf(),
    ensures
        r == chunk_value(store.bitmap_view(), *pool_key, chunk as int),
{
    let db_key = bitmap_key(chunk, pool_key);
    match store.bitmap.get(db_key.as_slice()) {
        Some(v) => *v,
        None => 0,
    }
}

/// The stored chunk; fails when none is stored.
pub fn get_bitmap_item(store: &State, chunk: u16, pool_key: &PoolKey) -> (r: Result<
    u64,
    ContractError,
>)
    requires
        store.wf(),
    ensures
        store.bitmap_view().contains_key(bitmap_key_bytes(chunk, *pool_key)) ==> r == Ok::<
            u64,
            ContractError,
        >(store.bitmap_view()[bitmap_key_bytes(chunk, *pool_key)]),
        !store.bitmap_view().contains_key(bitmap_key_bytes(chunk, *pool_key)) ==> r == Err::<
            u64,
            ContractError,
        >(ContractError::NotFound),
{
    let db_key = bitmap_key(chunk, pool_key);
    match store.bitmap.get(db_key.as_slice()) {
        Some(v) => Ok(*v),
        None => Err(ContractError::NotFound),
    }
}

/// Whether a tick is marked initialized.
pub fn get_bitmap(store: &State, tick: i32, tick_spacing: u16, pool_key: &PoolKey) -> (r: bool)
    requires
        store.wf(),
        valid_tick(tick as int, tick_spacing as int),
    ensures
        r == tick_initialized(store.bitmap_view(), *pool_key, tick as int, tick_spacing as int),
{
    let (chunk, bit) = tick_to_position(tick, tick_spacing);
    let returned_chunk = match get_bitmap_item(store, chunk, pool_key) {
        Ok(v) => v,
        Err(_) => 0,
    };
    get_bit_at_position(returned_chunk, bit) == 1
}

/// Marks a tick initialized (`value` true) or not; fails when it already is so.
pub fn flip_bitmap(
    store: &mut State,
    value: bool,
    tick: i32,
    tick_spacing: u16,
    pool_key: &PoolKey,
) -> (r: Result<(), ContractError>)
    requires
        old(store).wf(),
        valid_tick(tick as int, tick_spacing as int),
    ensures
        final(store).wf(),
        tick_initialized(old(store).bitmap_view(), *pool_key, tick as int, tick_spacing as int)
            == value ==> r == Err::<(), ContractError>(ContractError::TickReInitialize)
            && final(store).bitmap_view() == old(store).bitmap_view(),
        tick_initialized(old(store).bitmap_view(), *pool_key, tick as int, tick_spacing as int)
            != value ==> r is Ok && final(store).bitmap_view() == flipped_bitmap(
            old(store).bitmap_view(),
            *pool_key,
            tick as int,
            tick_spacing as int,
        ),
        final(store).ticks_view() == old(store).ticks_view(),
        final(store).positions_view() == old(store).positions_view(),
        final(store).positions_length_view() == old(store).positions_length_view(),
        final(store).position_keys_view() == old(store).position_keys_view(),
        final(store).token_count_view() == old(store).token_count_view(),
        final(store).token_id_view() == old(store).token_id_view(),
        same_pools_and_config(*final(store), *old(store)),
{
    let (chunk, bit) = tick_to_position(tick, tick_spacing);
    let returned_chunk = load_chunk(store, chunk, pool_key);
    let check_bit = get_bit_at_position(returned_chunk, bit) == 0;
    if check_bit != value {
        return Err(ContractError::TickReInitialize);
    }
    let db_key = bitmap_key(chunk, pool_key);
    store.bitmap.insert(db_key, flip_bit_at_position(returned_chunk, bit));
    Ok(())
}

/// Finds the closest initialized tick above `tick` (the tick itself excluded),
/// searching at most `TICK_SEARCH_RANGE` spacings away.
pub fn next_initialized(store: &State, tick: i32, tick_spacing: u16, pool_key: &PoolKey) -> (r:
    Option<i32>)
    requires
        store.wf(),
        valid_tick(tick as int, tick_spacing as int),
    ensures
        r == next_initialized_tick(store.bitmap_view(), *pool_key, tick as int, tick_spacing as int),
{
    let ghost bm = store.bitmap_view();
    let ghost pk = *pool_key;
    let ghost ts = tick_spacing as int;
    let limit = get_search_limit(tick, tick_spacing, true);

    if tick + tick_spacing as i32 > MAX_TICK {
        return None;
    }
    proof {
        vstd::arithmetic::div_mod::lemma_mod_multiples_basic(1, ts);
        vstd::arithmetic::div_mod::lemma_mod_adds(tick as int, ts, ts);
        lemma_index_tick_roundtrip(limit as int, ts);
        lemma_index_tick_roundtrip(tick + ts, ts);
    }
    let (mut chunk, mut bit) = tick_to_position(tick + tick_spacing as i32, tick_spacing);
    let (limiting_chunk, limiting_bit) = tick_to_position(limit, tick_spacing);
    let ghost start = chunk * 64 + bit;
    let ghost lim = limiting_chunk * 64 + limiting_bit;
    let ghost m = (MAX_TICK as int) / ts;

    while chunk < limiting_chunk || (chunk == limiting_chunk && bit <= limiting_bit)
        invariant
            store.wf(),
            bm == store.bitmap_view(),
            pk == *pool_key,
            ts == tick_spacing as int,
            ts > 0,
            m == (MAX_TICK as int) / ts,
            bit < 64,
            limiting_bit < 64,
            lim == limiting_chunk * 64 + limiting_bit,
            0 <= lim <= 2 * m,
            start <= chunk * 64 + bit,
            start == tick_index(tick + ts, ts),
            tick + ts <= MAX_TICK,
            lim == tick_index(search_limit(tick as int, ts, true), ts),
            first_set(bm, pk, start, lim) == first_set(bm, pk, chunk * 64 + bit, lim),
        decreases limiting_chunk + 1 - chunk,
    {
        let db_key = bitmap_key(chunk, pool_key);
        let value: u64 = match store.bitmap.get(db_key.as_slice()) {
            Some(v) => *v,
            None => 0,
        };
        assert(value == chunk_value(bm, pk, chunk as int));
        let mut shifted = value >> bit;
        let ghost bit0 = bit;

        if shifted != 0 {
            while shifted % 2 == 0
                invariant
                    shifted == value >> bit,
                    shifted != 0,
                    bit0 <= bit < 64,
                    forall|b: u8| bit0 <= b < bit ==> bit_of(value, b) == 0,
                decreases 64 - bit,
            {
                proof {
                    lemma_shift_nonzero_even(value, bit);
                    lemma_shift_half_nonzero(value, bit);
                    lemma_shift_low_bit(value, bit);
                    lemma_shift_step(value, bit);
                }
                shifted = shifted >> 1;
                bit = bit + 1;
            }
            proof {
                lemma_shift_low_bit(value, bit);
                let p = chunk * 64 + bit;
                assert forall|i: int| chunk * 64 + bit0 <= i < p implies !index_set(bm, pk, i) by {
                    assert(i / 64 == chunk);
                    assert(i % 64 == i - chunk * 64);
                    assert(bit_of(value, (i - chunk * 64) as u8) == 0);
                }
                lemma_first_set_skip(bm, pk, chunk * 64 + bit0, p, lim);
                assert(p / 64 == chunk);
                assert(p % 64 == bit);
                assert(index_set(bm, pk, p));
            }

            return if chunk < limiting_chunk || (chunk == limiting_chunk && bit <= limiting_bit) {
                let index: i32 = (chunk as i32 * CHUNK_SIZE) + bit as i32;
                let m_exec = MAX_TICK / tick_spacing as i32;
                proof {
                    vstd::arithmetic::div_mod::lemma_fundamental_div_mod(MAX_TICK as int, ts);
                    assert(-m <= index - m <= m);
                    assert(-MAX_TICK <= (index - m) * ts <= MAX_TICK) by (nonlinear_arith)
                        requires
                            -m <= index - m <= m,
                            MAX_TICK == ts * m + (MAX_TICK as int) % ts,
                            0 <= (MAX_TICK as int) % ts,
                            ts > 0,
                    ;
                }
                assert(index_tick(index as int, ts) == (index - m_exec) * ts);
                assert(first_set(bm, pk, index as int, lim) == Some(index as int));
                Some((index - m_exec) * (tick_spacing as i32))
            } else {
                assert(first_set(bm, pk, chunk * 64 + bit, lim) == None::<int>);
                None
            };
        }
        proof {
            assert forall|i: int| chunk * 64 + bit <= i < chunk * 64 + 64 implies !index_set(
                bm,
                pk,
                i,
            ) by {
                assert(i / 64 == chunk);
                assert(i % 64 == i - chunk * 64);
                lemma_shift_zero(value, bit, (i - chunk * 64) as u8);
            }
            lemma_first_set_skip(bm, pk, chunk * 64 + bit, chunk * 64 + 64, lim);
        }
        match chunk.checked_add(1) {
            Some(value) => {
                chunk = value;
            },
            None => {
                return None;
            },
        }
        bit = 0;
    }
    None
}

/// Finds the closest initialized tick at or below `tick`, searching at most
/// `TICK_SEARCH_RANGE` spacings away.
pub fn prev_initialized(store: &State, tick: i32, tick_spacing: u16, pool_key: &PoolKey) -> (r:
    Option<i32>)
    requires
        store.wf(),
        valid_tick(tick as int, tick_spacing as int),
    ensures
        r == prev_initialized_tick(store.bitmap_view(), *pool_key, tick as int, tick_spacing as int),
{
    let ghost bm = store.bitmap_view();
    let ghost pk = *pool_key;
    let ghost ts = tick_spacing as int;
    let limit = get_search_limit(tick, tick_spacing, false);
    proof {
        lemma_index_tick_roundtrip(limit as int, ts);
        lemma_index_tick_roundtrip(tick as int, ts);
    }
    let (mut chunk, mut bit) = tick_to_position(tick, tick_spacing);
    let (limiting_chunk, limiting_bit) = tick_to_position(limit, tick_spacing);
    let ghost start = chunk * 64 + bit;
    let ghost lim = limiting_chunk * 64 + limiting_bit;
    let ghost m = (MAX_TICK as int) / ts;

    while chunk > limiting_chunk || (chunk == limiting_chunk && bit >= limiting_bit)
        invariant
            store.wf(),
            bm == store.bitmap_view(),
            pk == *pool_key,
            ts == tick_spacing as int,
            ts > 0,
            m == (MAX_TICK as int) / ts,
            bit < 64,
            limiting_bit < 64,
            lim == limiting_chunk * 64 + limiting_bit,
            0 <= lim,
            chunk * 64 + bit <= start,
            start <= 2 * m,
            start == tick_index(tick as int, ts),
            lim == tick_index(search_limit(tick as int, ts, false), ts),
            last_set(bm, pk, start, lim) == last_set(bm, pk, chunk * 64 + bit, lim),
        decreases chunk,
    {
        let mut mask: u128 = 1u128 << bit;
        let db_key = bitmap_key(chunk, pool_key);
        let raw: u64 = match store.bitmap.get(db_key.as_slice()) {
            Some(v) => *v,
            None => 0,
        };
        assert(raw == chunk_value(bm, pk, chunk as int));
        let value: u128 = raw as u128;
        let ghost bit0 = bit;
        proof {
            lemma_low_bits(raw, bit);
        }
        assert(mask << 1u128 == (1u128 << bit) << 1u128);

        // the chunk has a set bit at or below the current one
        if value & ((mask << 1u128) - 1) > 0 {
            while value & mask == 0
                invariant
                    mask == 1u128 << bit,
                    value == raw as u128,
                    bit <= bit0 < 64,
                    exists|p: u8| p <= bit && #[trigger] bit_of(raw, p) == 1,
                    forall|b: u8| bit < b <= bit0 ==> bit_of(raw, b) == 0,
                decreases bit,
            {
                proof {
                    lemma_mask_bit(raw, bit);
                    if bit == 0 {
                        let p = choose|p: u8| p <= bit && #[trigger] bit_of(raw, p) == 1;
                        assert(p == 0);
                    }
                    lemma_mask_step(bit);
                    let p = choose|p: u8| p <= bit && #[trigger] bit_of(raw, p) == 1;
                    assert(p != bit);
                }
                mask = mask >> 1u128;
                bit = bit - 1;
            }
            proof {
                lemma_mask_bit(raw, bit);
                let p = chunk * 64 + bit;
                assert forall|i: int| p < i <= chunk * 64 + bit0 implies !index_set(bm, pk, i) by {
                    assert(i / 64 == chunk);
                    assert(i % 64 == i - chunk * 64);
                    assert(bit_of(raw, (i - chunk * 64) as u8) == 0);
                }
                lemma_last_set_skip(bm, pk, chunk * 64 + bit0, p, lim);
                assert(p / 64 == chunk);
                assert(p % 64 == bit);
                assert(index_set(bm, pk, p));
            }

            return if chunk > limiting_chunk || (chunk == limiting_chunk && bit >= limiting_bit) {
                let index: i32 = (chunk as i32 * CHUNK_SIZE) + bit as i32;
                let m_exec = MAX_TICK / tick_spacing as i32;
                proof {
                    vstd::arithmetic::div_mod::lemma_fundamental_div_mod(MAX_TICK as int, ts);
                    assert(-m <= index - m <= m);
                    assert(-MAX_TICK <= (index - m) * ts <= MAX_TICK) by (nonlinear_arith)
                        requires
                            -m <= index - m <= m,
                            MAX_TICK == ts * m + (MAX_TICK as int) % ts,
                            0 <= (MAX_TICK as int) % ts,
                            ts > 0,
                    ;
                }
                Some((index - m_exec) * (tick_spacing as i32))
            } else {
                None
            };
        }
        proof {
            assert forall|i: int| chunk * 64 <= i <= chunk * 64 + bit implies !index_set(bm, pk, i)
                by {
                assert(i / 64 == chunk);
                assert(i % 64 == i - chunk * 64);
                let q = (i - chunk * 64) as u8;
                if bit_of(raw, q) == 1 {
                    assert(q <= bit);
                }
            }
            lemma_last_set_skip(bm, pk, chunk * 64 + bit, chunk * 64 - 1, lim);
        }
        match chunk.checked_sub(1) {
            Some(value) => {
                chunk = value;
            },
            None => {
                return None;
            },
        }
        bit = (CHUNK_SIZE - 1) as u8;
    }
    None
}

} // verus!

verus! {

/// The tick that bounds a swap step from `current_tick`, with the price there,
/// or the price limit when that is closer.
pub open spec fn closer_limit(
    bitmap: Map<Seq<u8>, u64>,
    pool_key: PoolKey,
    sqrt_price_limit: SqrtPrice,
    x_to_y: bool,
    current_tick: int,
    tick_spacing: int,
) -> Result<(SqrtPrice, Option<(i32, bool)>), ContractError> {
    let found = if x_to_y {
        prev_initialized_tick(bitmap, pool_key, current_tick, tick_spacing)
    } else {
        next_initialized_tick(bitmap, pool_key, current_tick, tick_spacing)
    };
    let index: int = match found {
        Some(i) => i as int,
        None => search_limit(current_tick, tick_spacing, !x_to_y),
    };
    if found is None && current_tick == index {
        Err(ContractError::TickLimitReached)
    } else {
        let sqrt_price = sqrt_price_at(index);
        if (x_to_y && sqrt_price > sqrt_price_limit.0) || (!x_to_y && sqrt_price
            < sqrt_price_limit.0) {
            Ok((SqrtPrice(sqrt_price as u128), Some((index as i32, found is Some))))
        } else {
            Ok((sqrt_price_limit, None))
        }
    }
}

/// Finds the closest initialized tick in the direction of a trade and compares
/// the square root of its price with the trade's limit: the closer of the two
/// bounds the swap step.
pub fn get_closer_limit(
    store: &State,
    sqrt_price_limit: SqrtPrice,
    x_to_y: bool,
    current_tick: i32,
    tick_spacing: u16,
    pool_key: &PoolKey,
) -> (r: Result<(SqrtPrice, Option<(i32, bool)>), ContractError>)
    requires
        store.wf(),
        valid_tick(current_tick as int, tick_spacing as int),
    ensures
        r == closer_limit(
            store.bitmap_view(),
            *pool_key,
            sqrt_price_limit,
            x_to_y,
            current_tick as int,
            tick_spacing as int,
        ),
        r matches Ok((price, Some((t, initialized)))) ==> {
            &&& price.0 == sqrt_price_at(t as int)
            &&& x_to_y ==> t <= current_tick && (!initialized ==> t < current_tick) && price.0
                > sqrt_price_limit.0
            &&& !x_to_y ==> t > current_tick && price.0 < sqrt_price_limit.0
        },
{
    proof {
        lemma_closer_limit_on_trade_side(
            store.bitmap_view(),
            *pool_key,
            sqrt_price_limit,
            x_to_y,
            current_tick as int,
            tick_spacing as int,
        );
    }
    let closes_tick_index = if x_to_y {
        prev_initialized(store, current_tick, tick_spacing, pool_key)
    } else {
        next_initialized(store, current_tick, tick_spacing, pool_key)
    };
    proof {
        lemma_prev_initialized_is_closest(
            store.bitmap_view(),
            *pool_key,
            current_tick as int,
            tick_spacing as int,
        );
        lemma_next_initialized_is_closest(
            store.bitmap_view(),
            *pool_key,
            current_tick as int,
            tick_spacing as int,
        );
    }

    let (index, is_initialized) = match closes_tick_index {
        Some(index) => (index, true),
        None => {
            let index = get_search_limit(current_tick, tick_spacing, !x_to_y);
            if current_tick == index {
                return Err(ContractError::TickLimitReached);
            }
            (index, false)
        },
    };

    let sqrt_price = match calculate_sqrt_price(index) {
        Ok(p) => p,
        Err(e) => {
            return Err(e);
        },
    };
    if (x_to_y && sqrt_price.0 > sqrt_price_limit.0) || (!x_to_y && sqrt_price.0
        < sqrt_price_limit.0) {
        Ok((sqrt_price, Some((index, is_initialized))))
    } else {
        Ok((sqrt_price_limit, None))
    }
}

} // verus!

verus! {

/// Most entries a listing returns.
pub const MAX_LIMIT: u32 = 100;

/// Whether two states hold the same pools and settings.
pub open spec fn same_pools_and_config(a: State, b: State) -> bool {
    &&& a.pools_view() == b.pools_view()
    &&& a.config_view() == b.config_view()
}

/// A stored counter, or zero.
pub open spec fn stored_or_zero(v: Option<u64>) -> u64 {
    match v {
        Some(n) => n,
        None => 0,
    }
}

/// Whether two states hold the same tickmap, ticks, positions, pools and
/// settings.
pub open spec fn same_tables(a: State, b: State) -> bool {
    &&& same_pools_and_config(a, b)
    &&& a.bitmap_view() == b.bitmap_view()
    &&& a.ticks_view() == b.ticks_view()
    &&& a.positions_view() == b.positions_view()
    &&& a.positions_length_view() == b.positions_length_view()
    &&& a.position_keys_view() == b.position_keys_view()
}

/// The number of position tokens.
pub fn num_tokens(store: &State) -> (r: Result<u64, ContractError>)
    ensures
        r == Ok::<u64, ContractError>(stored_or_zero(store.token_count_view())),
{
    Ok(
        match store.token_count {
            Some(v) => v,
            None => 0,
        },
    )
}

/// Counts one more position token.
pub fn increment_tokens(store: &mut State) -> (r: Result<u64, ContractError>)
    requires
        stored_or_zero(old(store).token_count_view()) < u64::MAX,
    ensures
        r == Ok::<u64, ContractError>((stored_or_zero(old(store).token_count_view()) + 1) as u64),
        final(store).token_count_view() == Some((stored_or_zero(old(store).token_count_view()) + 1) as u64),
        final(store).token_id_view() == old(store).token_id_view(),
        same_tables(*final(store), *old(store)),
        final(store).wf() == old(store).wf(),
{
    let val = match num_tokens(store) {
        Ok(v) => v,
        Err(e) => {
            return Err(e);
        },
    } + 1;
    store.token_count = Some(val);
    Ok(val)
}

/// Counts one position token fewer.
pub fn decrement_tokens(store: &mut State) -> (r: Result<u64, ContractError>)
    requires
        stored_or_zero(old(store).token_count_view()) > 0,
    ensures
        r == Ok::<u64, ContractError>((stored_or_zero(old(store).token_count_view()) - 1) as u64),
        final(store).token_count_view() == Some((stored_or_zero(old(store).token_count_view()) - 1) as u64),
        final(store).token_id_view() == old(store).token_id_view(),
        same_tables(*final(store), *old(store)),
        final(store).wf() == old(store).wf(),
{
    let val = match num_tokens(store) {
        Ok(v) => v,
        Err(e) => {
            return Err(e);
        },
    } - 1;
    store.token_count = Some(val);
    Ok(val)
}

/// Hands out the next position token id.
pub fn next_token_id(store: &mut State) -> (r: Result<u64, ContractError>)
    requires
        stored_or_zero(old(store).token_id_view()) < u64::MAX,
    ensures
        r == Ok::<u64, ContractError>((stored_or_zero(old(store).token_id_view()) + 1) as u64),
        final(store).token_id_view() == Some((stored_or_zero(old(store).token_id_view()) + 1) as u64),
        final(store).token_count_view() == old(store).token_count_view(),
        same_tables(*final(store), *old(store)),
        final(store).wf() == old(store).wf(),
{
    let id: u64 = match last_token_id(store) {
        Ok(v) => v,
        Err(e) => {
            return Err(e);
        },
    } + 1;
    store.token_id = Some(id);
    Ok(id)
}

/// The last position token id handed out, or zero.
pub fn last_token_id(store: &State) -> (r: Result<u64, ContractError>)
    ensures
        r == Ok::<u64, ContractError>(stored_or_zero(store.token_id_view())),
{
    Ok(
        match store.token_id {
            Some(v) => v,
            None => 0,
        },
    )
}

/// The storage key of a tick of a pool.
pub open spec fn tick_key_bytes(pool_key: PoolKey, index: i32) -> Seq<u8> {
    pool_key.key_bytes() + i32_be(index)
}

/// The storage key of a tick of a pool.
pub fn tick_key(pool_key: &PoolKey, index: i32) -> (r: Vec<u8>)
    ensures
        r@ == tick_key_bytes(*pool_key, index),
{
    let mut db_key = pool_key.key();
    push_i32_be(&mut db_key, index);
    db_key
}

/// Stores a new tick; fails when the tick already exists.
pub fn add_tick(store: &mut State, pool_key: &PoolKey, index: i32, tick: &Tick) -> (r: Result<
    (),
    ContractError,
>)
    requires
        old(store).wf(),
    ensures
        final(store).wf(),
        old(store).ticks_view().contains_key(tick_key_bytes(*pool_key, index)) ==> r == Err::<
            (),
            ContractError,
        >(ContractError::TickAlreadyExist) && *final(store) == *old(store),
        !old(store).ticks_view().contains_key(tick_key_bytes(*pool_key, index)) ==> r is Ok
            && final(store).ticks_view() == old(store).ticks_view().insert(
            tick_key_bytes(*pool_key, index),
            final(store).ticks_view()[tick_key_bytes(*pool_key, index)],
        ) && final(store).ticks_view()[tick_key_bytes(*pool_key, index)].equiv(*tick),
        final(store).bitmap_view() == old(store).bitmap_view(),
        final(store).positions_view() == old(store).positions_view(),
        final(store).positions_length_view() == old(store).positions_length_view(),
        final(store).position_keys_view() == old(store).position_keys_view(),
        final(store).token_count_view() == old(store).token_count_view(),
        final(store).token_id_view() == old(store).token_id_view(),
        same_pools_and_config(*final(store), *old(store)),
{
    let db_key = tick_key(pool_key, index);

    if store.ticks.contains(db_key.as_slice()) {
        return Err(ContractError::TickAlreadyExist);
    }

    store.ticks.insert(db_key, tick.duplicate());

    Ok(())
}

/// Replaces a stored tick; fails when the tick does not exist.
pub fn update_tick(store: &mut State, pool_key: &PoolKey, index: i32, tick: &Tick) -> (r: Result<
    (),
    ContractError,
>)
    requires
        old(store).wf(),
    ensures
        final(store).wf(),
        !old(store).ticks_view().contains_key(tick_key_bytes(*pool_key, index)) ==> r == Err::<
            (),
            ContractError,
        >(ContractError::TickNotFound) && *final(store) == *old(store),
        old(store).ticks_view().contains_key(tick_key_bytes(*pool_key, index)) ==> r is Ok
            && final(store).ticks_view() == old(store).ticks_view().insert(
            tick_key_bytes(*pool_key, index),
            final(store).ticks_view()[tick_key_bytes(*pool_key, index)],
        ) && final(store).ticks_view()[tick_key_bytes(*pool_key, index)].equiv(*tick),
        final(store).bitmap_view() == old(store).bitmap_view(),
        final(store).positions_view() == old(store).positions_view(),
        final(store).positions_length_view() == old(store).positions_length_view(),
        final(store).position_keys_view() == old(store).position_keys_view(),
        final(store).token_count_view() == old(store).token_count_view(),
        final(store).token_id_view() == old(store).token_id_view(),
        same_pools_and_config(*final(store), *old(store)),
{
    let db_key = tick_key(pool_key, index);

    if !store.ticks.contains(db_key.as_slice()) {
        return Err(ContractError::TickNotFound);
    }

    store.ticks.insert(db_key, tick.duplicate());

    Ok(())
}

/// Deletes a stored tick; fails when the tick does not exist.
pub fn remove_tick(store: &mut State, pool_key: &PoolKey, index: i32) -> (r: Result<
    (),
    ContractError,
>)
    requires
        old(store).wf(),
    ensures
        final(store).wf(),
        !old(store).ticks_view().contains_key(tick_key_bytes(*pool_key, index)) ==> r == Err::<
            (),
            ContractError,
        >(ContractError::TickNotFound) && *final(store) == *old(store),
        old(store).ticks_view().contains_key(tick_key_bytes(*pool_key, index)) ==> r is Ok
            && final(store).ticks_view() == old(store).ticks_view().remove(
            tick_key_bytes(*pool_key, index),
        ),
        final(store).bitmap_view() == old(store).bitmap_view(),
        final(store).positions_view() == old(store).positions_view(),
        final(store).positions_length_view() == old(store).positions_length_view(),
        final(store).position_keys_view() == old(store).position_keys_view(),
        final(store).token_count_view() == old(store).token_count_view(),
        final(store).token_id_view() == old(store).token_id_view(),
        same_pools_and_config(*final(store), *old(store)),
{
    let db_key = tick_key(pool_key, index);

    if !store.ticks.contains(db_key.as_slice()) {
        return Err(ContractError::TickNotFound);
    }

    store.ticks.remove(db_key.as_slice());
    Ok(())
}

/// Reads a stored tick; fails when the tick does not exist.
pub fn get_tick(store: &State, pool_key: &PoolKey, index: i32) -> (r: Result<Tick, ContractError>)
    requires
        store.wf(),
    ensures
        !store.ticks_view().contains_key(tick_key_bytes(*pool_key, index)) ==> r == Err::<
            Tick,
            ContractError,
        >(ContractError::NotFound),
        store.ticks_view().contains_key(tick_key_bytes(*pool_key, index)) ==> r is Ok
            && r.unwrap().equiv(store.ticks_view()[tick_key_bytes(*pool_key, index)]),
{
    let db_key = tick_key(pool_key, index);
    match store.ticks.get(db_key.as_slice()) {
        Some(tick) => Ok(tick.duplicate()),
        None => Err(ContractError::NotFound),
    }
}

} // verus!

verus! {

/// The storage key of the `index`-th position of an owner.
pub open spec fn position_key_bytes(account_id: String, index: u32) -> Seq<u8> {
    utf8(account_id) + u32_be(index)
}

/// The storage key of a position token's locator.
pub open spec fn token_key_bytes(token_id: u64) -> Seq<u8> {
    u64_be(token_id)
}

/// The number of positions an owner holds, zero when none is stored.
pub open spec fn position_length(store: State, account_id: String) -> u32 {
    let k = utf8(account_id);
    if store.positions_length_view().contains_key(k) {
        store.positions_length_view()[k]
    } else {
        0
    }
}

/// The storage key of the `index`-th position of an owner.
pub fn position_key(account_id: &String, index: u32) -> (r: Vec<u8>)
    ensures
        r@ == position_key_bytes(*account_id, index),
{
    let mut db_key = string_bytes(account_id);
    push_u32_be(&mut db_key, index);
    db_key
}

fn token_key(token_id: u64) -> (r: Vec<u8>)
    ensures
        r@ == token_key_bytes(token_id),
{
    let mut k: Vec<u8> = Vec::new();
    push_u64_be(&mut k, token_id);
    assert(k@ =~= token_key_bytes(token_id));
    k
}

/// The number of positions an owner holds.
pub fn get_position_length(store: &State, account_id: &String) -> (r: u32)
    requires
        store.wf(),
    ensures
        r == position_length(*store, *account_id),
{
    let k = string_bytes(account_id);
    match store.positions_length.get(k.as_slice()) {
        Some(v) => *v,
        None => 0,
    }
}

/// Stores a new position as the owner's last one, records where its token
/// lives, and counts the token; answers with the position's index.
pub fn add_position(store: &mut State, account_id: &String, position: &Position) -> (r: Result<
    u32,
    ContractError,
>)
    requires
        old(store).wf(),
        position_length(*old(store), *account_id) < u32::MAX,
        stored_or_zero(old(store).token_count_view()) < u64::MAX,
    ensures
        final(store).wf(),
        r == Ok::<u32, ContractError>(position_length(*old(store), *account_id)),
        final(store).positions_view() == old(store).positions_view().insert(
            position_key_bytes(*account_id, position_length(*old(store), *account_id)),
            final(store).positions_view()[position_key_bytes(
                *account_id,
                position_length(*old(store), *account_id),
            )],
        ),
        final(store).positions_view()[position_key_bytes(
            *account_id,
            position_length(*old(store), *account_id),
        )].equiv(*position),
        final(store).positions_length_view() == old(store).positions_length_view().insert(
            utf8(*account_id),
            (position_length(*old(store), *account_id) + 1) as u32,
        ),
        final(store).position_keys_view() == old(store).position_keys_view().insert(
            token_key_bytes(position.token_id),
            (utf8(*account_id), position_length(*old(store), *account_id)),
        ),
        final(store).token_count_view() == Some(
            (stored_or_zero(old(store).token_count_view()) + 1) as u64,
        ),
        final(store).token_id_view() == old(store).token_id_view(),
        final(store).bitmap_view() == old(store).bitmap_view(),
        final(store).ticks_view() == old(store).ticks_view(),
        same_pools_and_config(*final(store), *old(store)),
{
    let positions_length: u32 = get_position_length(store, account_id);
    let db_key = position_key(account_id, positions_length);

    store.position_keys_by_token_id.insert(
        token_key(position.token_id),
        (string_bytes(account_id), positions_length),
    );

    store.positions.insert(db_key, position.duplicate());
    store.positions_length.insert(string_bytes(account_id), positions_length + 1);
    proof {
        assert(store.position_keys_view() =~= old(store).position_keys_view().insert(
            token_key_bytes(position.token_id),
            (utf8(*account_id), positions_length),
        ));
    }
    // count the new token
    match increment_tokens(store) {
        Ok(_) => {},
        Err(e) => {
            return Err(e);
        },
    }
    Ok(positions_length)
}

/// Replaces the stored position of a token, wherever its owner keeps it;
/// fails when the token is unknown.
pub fn update_position(store: &mut State, position: &Position) -> (r: Result<(), ContractError>)
    requires
        old(store).wf(),
    ensures
        final(store).wf(),
        !old(store).position_keys_view().contains_key(token_key_bytes(position.token_id)) ==> r
            == Err::<(), ContractError>(ContractError::NotFound) && *final(store) == *old(store),
        old(store).position_keys_view().contains_key(token_key_bytes(position.token_id)) ==> ({
            let (owner, index) = old(store).position_keys_view()[token_key_bytes(
                position.token_id,
            )];
            let k = owner + u32_be(index);
            &&& r is Ok
            &&& final(store).positions_view() == old(store).positions_view().insert(
                k,
                final(store).positions_view()[k],
            )
            &&& final(store).positions_view()[k].equiv(*position)
        }),
        final(store).positions_length_view() == old(store).positions_length_view(),
        final(store).position_keys_view() == old(store).position_keys_view(),
        final(store).token_count_view() == old(store).token_count_view(),
        final(store).token_id_view() == old(store).token_id_view(),
        final(store).bitmap_view() == old(store).bitmap_view(),
        final(store).ticks_view() == old(store).ticks_view(),
        same_pools_and_config(*final(store), *old(store)),
{
    let k = token_key(position.token_id);
    let (mut db_key, index) = match store.position_keys_by_token_id.get(k.as_slice()) {
        Some(entry) => {
            let mut owner: Vec<u8> = Vec::new();
            push_bytes(&mut owner, entry.0.as_slice());
            (owner, entry.1)
        },
        None => {
            return Err(ContractError::NotFound);
        },
    };
    push_u32_be(&mut db_key, index);

    store.positions.insert(db_key, position.duplicate());

    Ok(())
}

/// Whether removing the `index`-th position of an owner would find what it
/// reads: the position, and the owner's last position when it must move.
pub open spec fn remove_position_finds(store: State, account_id: String, index: u32) -> bool {
    let last = position_length(store, account_id) - 1;
    &&& store.positions_view().contains_key(position_key_bytes(account_id, index))
    &&& index < last ==> store.positions_view().contains_key(
        position_key_bytes(account_id, last as u32),
    )
}

/// Removes the `index`-th position of an owner: the owner's last position
/// takes its place, the owner's count drops by one, the removed token is
/// forgotten and the token count drops; answers with the removed position.
/// Fails, changing nothing, when a position it reads is missing.
pub fn remove_position(store: &mut State, account_id: &String, index: u32) -> (r: Result<
    Position,
    ContractError,
>)
    requires
        old(store).wf(),
        position_length(*old(store), *account_id) > 0,
        remove_position_finds(*old(store), *account_id, index) ==> stored_or_zero(
            old(store).token_count_view(),
        ) > 0,
    ensures
        final(store).wf(),
        !remove_position_finds(*old(store), *account_id, index) ==> r == Err::<
            Position,
            ContractError,
        >(ContractError::NotFound) && *final(store) == *old(store),
        remove_position_finds(*old(store), *account_id, index) ==> ({
            let last = (position_length(*old(store), *account_id) - 1) as u32;
            let ki = position_key_bytes(*account_id, index);
            let kl = position_key_bytes(*account_id, last);
            let removed = old(store).positions_view()[ki];
            let moved = old(store).positions_view()[kl];
            &&& r == Ok::<Position, ContractError>(removed)
            &&& index < last ==> final(store).positions_view() == old(store).positions_view().remove(
                kl,
            ).insert(ki, moved)
            &&& index >= last ==> final(store).positions_view()
                == old(store).positions_view().remove(ki)
            &&& index < last ==> final(store).position_keys_view() == old(
                store,
            ).position_keys_view().insert(
                token_key_bytes(moved.token_id),
                (utf8(*account_id), index),
            ).remove(token_key_bytes(removed.token_id))
            &&& index >= last ==> final(store).position_keys_view() == old(
                store,
            ).position_keys_view().remove(token_key_bytes(removed.token_id))
            &&& final(store).positions_length_view() == old(
                store,
            ).positions_length_view().insert(utf8(*account_id), last)
            &&& final(store).token_count_view() == Some(
                (stored_or_zero(old(store).token_count_view()) - 1) as u64,
            )
        }),
        final(store).token_id_view() == old(store).token_id_view(),
        final(store).bitmap_view() == old(store).bitmap_view(),
        final(store).ticks_view() == old(store).ticks_view(),
        same_pools_and_config(*final(store), *old(store)),
{
    let positions_length = get_position_length(store, account_id) - 1;
    let db_key = position_key(account_id, index);
    if !store.positions.contains(db_key.as_slice()) {
        return Err(ContractError::NotFound);
    }

    let position = if index < positions_length {
        let prev_db_key = position_key(account_id, positions_length);
        if !store.positions.contains(prev_db_key.as_slice()) {
            return Err(ContractError::NotFound);
        }
        proof {
            if position_key_bytes(*account_id, index) == position_key_bytes(
                *account_id,
                positions_length,
            ) {
                lemma_suffix_distinct(utf8(*account_id), u32_be(index), u32_be(positions_length));
                lemma_u32_be_injective(index, positions_length);
            }
        }
        let position = store.positions.remove(db_key.as_slice()).unwrap();
        let last_position = store.positions.remove(prev_db_key.as_slice()).unwrap();
        // the last position changes its index to the removed one's
        store.position_keys_by_token_id.insert(
            token_key(last_position.token_id),
            (string_bytes(account_id), index),
        );
        store.positions.insert(db_key, last_position);
        position
    } else {
        store.positions.remove(db_key.as_slice()).unwrap()
    };
    let ghost keys_mid = store.position_keys_view();

    store.position_keys_by_token_id.remove(token_key(position.token_id).as_slice());
    proof {
        assert(store.position_keys_view() =~= keys_mid.remove(token_key_bytes(position.token_id)));
    }

    store.positions_length.insert(string_bytes(account_id), positions_length);

    // one token fewer
    match decrement_tokens(store) {
        Ok(_) => {},
        Err(e) => {
            return Err(e);
        },
    }

    Ok(position)
}

/// Reads the `index`-th position of an owner; fails when it does not exist.
pub fn get_position(store: &State, account_id: &String, index: u32) -> (r: Result<
    Position,
    ContractError,
>)
    requires
        store.wf(),
    ensures
        !store.positions_view().contains_key(position_key_bytes(*account_id, index)) ==> r
            == Err::<Position, ContractError>(ContractError::NotFound),
        store.positions_view().contains_key(position_key_bytes(*account_id, index)) ==> r is Ok
            && r.unwrap().equiv(store.positions_view()[position_key_bytes(*account_id, index)]),
{
    let db_key = position_key(account_id, index);
    get_position_by_key(store, db_key.as_slice())
}

/// Reads the position stored under a key; fails when there is none.
pub fn get_position_by_key(store: &State, db_key: &[u8]) -> (r: Result<Position, ContractError>)
    requires
        store.wf(),
    ensures
        !store.positions_view().contains_key(db_key@) ==> r == Err::<Position, ContractError>(
            ContractError::NotFound,
        ),
        store.positions_view().contains_key(db_key@) ==> r is Ok && r.unwrap().equiv(
            store.positions_view()[db_key@],
        ),
{
    match store.positions.get(db_key) {
        Some(p) => Ok(p.duplicate()),
        None => Err(ContractError::NotFound),
    }
}

/// The end of a listing of an owner's positions: `offset + limit`, at most the
/// owner's count.
pub open spec fn listing_end(store: State, account_id: String, limit: Option<u32>, offset: Option<u32>) -> int {
    let from = match offset {
        Some(o) => o as int,
        None => 0,
    };
    let lim = match limit {
        Some(l) => l as int,
        None => MAX_LIMIT as int,
    };
    vstd::math::min(position_length(store, account_id) as int, from + lim)
}

/// The start of a listing of an owner's positions.
pub open spec fn listing_start(offset: Option<u32>) -> int {
    match offset {
        Some(o) => o as int,
        None => 0,
    }
}

/// Whether `offset + limit` fits in a `u32`.
pub open spec fn listing_in_bounds(limit: Option<u32>, offset: Option<u32>) -> bool {
    listing_start(offset) + match limit {
        Some(l) => l as int,
        None => MAX_LIMIT as int,
    } <= u32::MAX
}

/// The stored positions of an owner with an index in `[from, to)`, in index order.
pub open spec fn positions_in_range(
    positions: Map<Seq<u8>, Position>,
    account_id: String,
    from: int,
    to: int,
) -> Seq<Position>
    decreases to - from,
{
    if to <= from {
        Seq::empty()
    } else {
        let k = position_key_bytes(account_id, (to - 1) as u32);
        let rest = positions_in_range(positions, account_id, from, to - 1);
        if positions.contains_key(k) {
            rest.push(positions[k])
        } else {
            rest
        }
    }
}

/// Lists the positions of an owner from `offset` (default 0), at most `limit`
/// of them (default `MAX_LIMIT`), in index order.
pub fn get_all_positions(
    store: &State,
    account_id: &String,
    limit: Option<u32>,
    offset: Option<u32>,
) -> (r: Result<Vec<Position>, ContractError>)
    requires
        store.wf(),
        listing_in_bounds(limit, offset),
    ensures
        r is Ok,
        ({
            let expect = positions_in_range(
                store.positions_view(),
                *account_id,
                listing_start(offset),
                listing_end(*store, *account_id, limit, offset),
            );
            &&& r.unwrap()@.len() == expect.len()
            &&& forall|i: int| 0 <= i < expect.len() ==> r.unwrap()@[i].equiv(expect[i])
        }),
        owner_positions_dense(store.positions_view(), store.positions_length_view(), *account_id)
            ==> {
            let from = listing_start(offset);
            let count = position_length(*store, *account_id) as int;
            let n = vstd::math::max(
                0,
                vstd::math::min(
                    count,
                    from + match limit {
                        Some(l) => l as int,
                        None => MAX_LIMIT as int,
                    },
                ) - from,
            );
            &&& r.unwrap()@.len() == n
            &&& forall|i: int|
                0 <= i < n ==> #[trigger] r.unwrap()@[i].equiv(
                    store.positions_view()[position_key_bytes(*account_id, (from + i) as u32)],
                )
        },
{
    let from_idx = match offset {
        Some(o) => o,
        None => 0,
    };
    let lim = match limit {
        Some(l) => l,
        None => MAX_LIMIT,
    };
    let len = get_position_length(store, account_id);
    let to_idx = if len < from_idx + lim {
        len
    } else {
        from_idx + lim
    };
    let ghost pv = store.positions_view();
    let mut positions: Vec<Position> = Vec::new();
    let mut i = from_idx;
    while i < to_idx
        invariant
            store.wf(),
            pv == store.positions_view(),
            (to_idx >= from_idx && from_idx <= i <= to_idx) || (to_idx < from_idx && i == from_idx),
            positions@.len() == positions_in_range(pv, *account_id, from_idx as int, i as int).len(),
            forall|j: int|
                0 <= j < positions@.len() ==> positions@[j].equiv(
                    positions_in_range(pv, *account_id, from_idx as int, i as int)[j],
                ),
        decreases to_idx - i,
    {
        let db_key = position_key(account_id, i);
        match store.positions.get(db_key.as_slice()) {
            Some(p) => {
                positions.push(p.duplicate());
            },
            None => {},
        }
        i = i + 1;
    }
    proof {
        if to_idx < from_idx {
            assert(positions_in_range(pv, *account_id, from_idx as int, to_idx as int) =~= Seq::<
                Position,
            >::empty());
        } else if owner_positions_dense(pv, store.positions_length_view(), *account_id) {
            lemma_dense_positions_in_range(
                pv,
                store.positions_length_view(),
                *account_id,
                from_idx as int,
                to_idx as int,
            );
        }
        assert forall|i: int|
            0 <= i < positions@.len() && owner_positions_dense(
                pv,
                store.positions_length_view(),
                *account_id,
            ) implies #[trigger] positions@[i].equiv(
            pv[position_key_bytes(*account_id, (from_idx + i) as u32)],
        ) by {
            assert(positions_in_range(pv, *account_id, from_idx as int, to_idx as int)[i] == pv[position_key_bytes(*account_id, (from_idx + i) as u32)]);
        }
    }
    Ok(positions)
}

/// Lists the storage keys of an owner's positions from `offset` (default 0),
/// at most `limit` of them (default `MAX_LIMIT`), in index order.
pub fn get_all_position_keys(
    store: &State,
    account_id: &String,
    limit: Option<u32>,
    offset: Option<u32>,
) -> (r: Vec<Vec<u8>>)
    requires
        store.wf(),
        listing_in_bounds(limit, offset),
    ensures
        r@.len() == vstd::math::max(
            0,
            listing_end(*store, *account_id, limit, offset) - listing_start(offset),
        ),
        forall|i: int|
            0 <= i < r@.len() ==> r@[i]@ == position_key_bytes(
                *account_id,
                (listing_start(offset) + i) as u32,
            ),
        r@.len() == vstd::math::max(
            0,
            vstd::math::min(
                position_length(*store, *account_id) as int,
                listing_start(offset) + match limit {
                    Some(l) => l as int,
                    None => MAX_LIMIT as int,
                },
            ) - listing_start(offset),
        ),
{
    let from_idx = match offset {
        Some(o) => o,
        None => 0,
    };
    let lim = match limit {
        Some(l) => l,
        None => MAX_LIMIT,
    };
    let len = get_position_length(store, account_id);
    let to_idx = if len < from_idx + lim {
        len
    } else {
        from_idx + lim
    };
    let mut keys: Vec<Vec<u8>> = Vec::new();
    let mut index = from_idx;
    while index < to_idx
        invariant
            (to_idx >= from_idx && from_idx <= index <= to_idx) || (to_idx < from_idx && index
                == from_idx),
            keys@.len() == index - from_idx,
            forall|i: int|
                0 <= i < keys@.len() ==> keys@[i]@ == position_key_bytes(
                    *account_id,
                    (from_idx + i) as u32,
                ),
        decreases to_idx - index,
    {
        keys.push(position_key(account_id, index));
        index = index + 1;
    }
    keys
}

} // verus!

verus! {

/// The count stored for an owner, zero when none is stored.
pub open spec fn stored_length(lengths: Map<Seq<u8>, u32>, account_id: String) -> u32 {
    if lengths.contains_key(utf8(account_id)) {
        lengths[utf8(account_id)]
    } else {
        0
    }
}

/// An owner's positions are stored exactly under the indices below the owner's count.
pub open spec fn owner_positions_dense(
    positions: Map<Seq<u8>, Position>,
    lengths: Map<Seq<u8>, u32>,
    account_id: String,
) -> bool {
    forall|i: u32|
        #![trigger position_key_bytes(account_id, i)]
        positions.contains_key(position_key_bytes(account_id, i)) <==> i < stored_length(
            lengths,
            account_id,
        )
}

/// When an owner's positions are numbered `0..count`, the stored positions
/// with an index in `[from, to)` (within the count) are exactly the positions
/// under the indices `from, from + 1, .., to - 1`, one for each index.
pub proof fn lemma_dense_positions_in_range(
    positions: Map<Seq<u8>, Position>,
    lengths: Map<Seq<u8>, u32>,
    account_id: String,
    from: int,
    to: int,
)
    requires
        owner_positions_dense(positions, lengths, account_id),
        0 <= from <= to <= stored_length(lengths, account_id),
    ensures
        positions_in_range(positions, account_id, from, to).len() == to - from,
        forall|i: int|
            0 <= i < to - from ==> #[trigger] positions_in_range(positions, account_id, from, to)[i]
                == positions[position_key_bytes(account_id, (from + i) as u32)],
    decreases to - from,
{
    if to > from {
        lemma_dense_positions_in_range(positions, lengths, account_id, from, to - 1);
        let k = position_key_bytes(account_id, (to - 1) as u32);
        assert(positions.contains_key(k));
        assert forall|i: int| 0 <= i < to - from implies #[trigger] positions_in_range(
            positions,
            account_id,
            from,
            to,
        )[i] == positions[position_key_bytes(account_id, (from + i) as u32)] by {
            if i < to - 1 - from {
                assert(positions_in_range(positions, account_id, from, to)[i] == positions_in_range(
                    positions,
                    account_id,
                    from,
                    to - 1,
                )[i]);
            }
        }
    }
}

/// Adding a position keeps an owner's positions numbered `0..count`.
pub proof fn lemma_add_position_keeps_owner_dense(
    positions: Map<Seq<u8>, Position>,
    lengths: Map<Seq<u8>, u32>,
    account_id: String,
    position: Position,
)
    requires
        owner_positions_dense(positions, lengths, account_id),
        stored_length(lengths, account_id) < u32::MAX,
    ensures
        ({
            let len = stored_length(lengths, account_id);
            owner_positions_dense(
                positions.insert(position_key_bytes(account_id, len), position),
                lengths.insert(utf8(account_id), (len + 1) as u32),
                account_id,
            )
        }),
{
    let len = stored_length(lengths, account_id);
    let np = positions.insert(position_key_bytes(account_id, len), position);
    let nl = lengths.insert(utf8(account_id), (len + 1) as u32);
    assert forall|i: u32| #[trigger]
        np.contains_key(position_key_bytes(account_id, i)) <==> i < stored_length(nl, account_id) by {
        if i != len {
            lemma_position_keys_unique(account_id, i, account_id, len);
        }
    }
}

/// Removing the `index`-th position of an owner, the last one moving into its
/// place, keeps the owner's positions numbered `0..count`.
pub proof fn lemma_remove_position_keeps_owner_dense(
    positions: Map<Seq<u8>, Position>,
    lengths: Map<Seq<u8>, u32>,
    account_id: String,
    index: u32,
)
    requires
        owner_positions_dense(positions, lengths, account_id),
        index < stored_length(lengths, account_id),
    ensures
        ({
            let last = (stored_length(lengths, account_id) - 1) as u32;
            let ki = position_key_bytes(account_id, index);
            let kl = position_key_bytes(account_id, last);
            let after = if index < last {
                positions.remove(kl).insert(ki, positions[kl])
            } else {
                positions.remove(ki)
            };
            owner_positions_dense(after, lengths.insert(utf8(account_id), last), account_id)
        }),
{
    let last = (stored_length(lengths, account_id) - 1) as u32;
    let ki = position_key_bytes(account_id, index);
    let kl = position_key_bytes(account_id, last);
    let after = if index < last {
        positions.remove(kl).insert(ki, positions[kl])
    } else {
        positions.remove(ki)
    };
    let nl = lengths.insert(utf8(account_id), last);
    assert forall|i: u32| #[trigger]
        after.contains_key(position_key_bytes(account_id, i)) <==> i < stored_length(nl, account_id) by {
        if i != last {
            lemma_position_keys_unique(account_id, i, account_id, last);
        }
        if i != index {
            lemma_position_keys_unique(account_id, i, account_id, index);
        }
        if index < last {
            lemma_position_keys_unique(account_id, index, account_id, last);
        }
    }
}

} // verus!

verus! {

impl State {
    /// Stores a pool under its key, replacing any pool stored there.
    pub fn save_pool(&mut self, pool_key: &PoolKey, pool: Pool)
        requires
            old(self).wf(),
        ensures
            final(self).wf(),
            final(self).pools_view() == old(self).pools_view().insert(pool_key.key_bytes(), pool),
            final(self).config_view() == old(self).config_view(),
            same_tables_but_pools(*final(self), *old(self)),
    {
        self.pools.insert(pool_key.key(), pool);
    }

    /// Where a position token lives: a copy of its owner's bytes, and its
    /// index.
    pub fn token_location(&self, token_id: u64) -> (r: Option<(Vec<u8>, u32)>)
        requires
            self.wf(),
        ensures
            !self.position_keys_view().contains_key(token_key_bytes(token_id)) ==> r is None,
            self.position_keys_view().contains_key(token_key_bytes(token_id)) ==> r is Some
                && r.unwrap().0@ == self.position_keys_view()[token_key_bytes(token_id)].0
                && r.unwrap().1 == self.position_keys_view()[token_key_bytes(token_id)].1,
    {
        let k = token_key(token_id);
        match self.position_keys_by_token_id.get(k.as_slice()) {
            Some(entry) => {
                let mut owner: Vec<u8> = Vec::new();
                push_bytes(&mut owner, entry.0.as_slice());
                Some((owner, entry.1))
            },
            None => None,
        }
    }

    /// The storage keys of positions past `start` (from the first when there
    /// is none), in increasing byte order, at most `limit` of them.
    pub fn position_keys_past(&self, start: Option<Vec<u8>>, limit: usize) -> (r: Vec<Vec<u8>>)
        requires
            self.wf(),
        ensures
            first_keys_past(self.positions_view(), opt_view(start), limit as nat, key_views(r@)),
    {
        self.positions.keys_past(start, limit)
    }

    /// The keys of position tokens past `start` (from the first when there is
    /// none), in increasing byte order, at most `limit` of them.
    pub fn token_keys_past(&self, start: Option<Vec<u8>>, limit: usize) -> (r: Vec<Vec<u8>>)
        requires
            self.wf(),
        ensures
            first_keys_past(self.position_keys_view(), opt_view(start), limit as nat, key_views(r@)),
            forall|i: int| 0 <= i < r@.len() ==> (#[trigger] r@[i])@.len() == 8,
    {
        let r = self.position_keys_by_token_id.keys_past(start, limit);
        proof {
            assert forall|k: Seq<u8>|
                self.position_keys_view().contains_key(k)
                    == self.position_keys_by_token_id@.contains_key(k) by {}
            assert forall|i: int| 0 <= i < r@.len() implies (#[trigger] r@[i])@.len() == 8 by {
                assert(key_views(r@)[i] == r@[i]@);
            }
        }
        r
    }

    /// Stores the settings, replacing any stored before.
    pub fn save_config(&mut self, config: Config)
        requires
            old(self).wf(),
        ensures
            final(self).wf(),
            final(self).config_view() == Some(config),
            final(self).pools_view() == old(self).pools_view(),
            same_tables_but_pools(*final(self), *old(self)),
    {
        self.config = Some(config);
    }
}

/// Whether two states hold the same tickmap, ticks, positions and token
/// counters.
pub open spec fn same_tables_but_pools(a: State, b: State) -> bool {
    &&& a.bitmap_view() == b.bitmap_view()
    &&& a.ticks_view() == b.ticks_view()
    &&& a.positions_view() == b.positions_view()
    &&& a.positions_length_view() == b.positions_length_view()
    &&& a.position_keys_view() == b.position_keys_view()
    &&& a.token_count_view() == b.token_count_view()
    &&& a.token_id_view() == b.token_id_view()
}

/// The stored settings; fails when none are stored.
pub fn get_config(store: &State) -> (r: Result<Config, ContractError>)
    ensures
        store.config_view() is None ==> r == Err::<Config, ContractError>(ContractError::NotFound),
        store.config_view() matches Some(c) ==> r is Ok && r.unwrap().equiv(c),
{
    match &store.config {
        Some(c) => Ok(c.duplicate()),
        None => Err(ContractError::NotFound),
    }
}

/// The pool stored under a key; fails when there is none.
pub fn get_pool(store: &State, pool_key: &PoolKey) -> (r: Result<Pool, ContractError>)
    requires
        store.wf(),
    ensures
        !store.pools_view().contains_key(pool_key.key_bytes()) ==> r == Err::<Pool, ContractError>(
            ContractError::NotFound,
        ),
        store.pools_view().contains_key(pool_key.key_bytes()) ==> r is Ok && r.unwrap().equiv(
            store.pools_view()[pool_key.key_bytes()],
        ),
{
    let k = pool_key.key();
    match store.pools.get(k.as_slice()) {
        Some(p) => Ok(p.duplicate()),
        None => Err(ContractError::NotFound),
    }
}

} // verus!

verus! {

/// Different indices of one pool have different tick keys.
pub proof fn lemma_tick_keys_distinct(pool_key: PoolKey, i: i32, j: i32)
    requires
        i != j,
    ensures
        tick_key_bytes(pool_key, i) != tick_key_bytes(pool_key, j),
{
    if tick_key_bytes(pool_key, i) == tick_key_bytes(pool_key, j) {
        lemma_suffix_distinct(pool_key.key_bytes(), i32_be(i), i32_be(j));
        lemma_u32_be_injective(i as u32, j as u32);
        assert(i == j) by (bit_vector)
            requires
                i as u32 == j as u32,
        ;
    }
}

/// A tick that is added is read back, and the pool's other ticks read as
/// before: the outcome that `add_tick` answers `Ok` with.
pub proof fn lemma_add_tick_then_read(
    before: State,
    after: State,
    pool_key: PoolKey,
    index: i32,
    tick: Tick,
    other: i32,
)
    requires
        !before.ticks_view().contains_key(tick_key_bytes(pool_key, index)),
        after.ticks_view() == before.ticks_view().insert(
            tick_key_bytes(pool_key, index),
            after.ticks_view()[tick_key_bytes(pool_key, index)],
        ),
        after.ticks_view()[tick_key_bytes(pool_key, index)].equiv(tick),
    ensures
        after.ticks_view().contains_key(tick_key_bytes(pool_key, index)),
        after.ticks_view()[tick_key_bytes(pool_key, index)].equiv(tick),
        other != index ==> (after.ticks_view().contains_key(tick_key_bytes(pool_key, other))
            == before.ticks_view().contains_key(tick_key_bytes(pool_key, other))),
        other != index && before.ticks_view().contains_key(tick_key_bytes(pool_key, other))
            ==> after.ticks_view()[tick_key_bytes(pool_key, other)] == before.ticks_view()[tick_key_bytes(
            pool_key,
            other,
        )],
{
    if other != index {
        lemma_tick_keys_distinct(pool_key, index, other);
    }
}

/// Different owners, or different indices of one owner, have different
/// position keys.
pub proof fn lemma_position_keys_unique(owner_a: String, index_a: u32, owner_b: String, index_b: u32)
    requires
        owner_a@ != owner_b@ || index_a != index_b,
    ensures
        position_key_bytes(owner_a, index_a) != position_key_bytes(owner_b, index_b),
{
    let ka = position_key_bytes(owner_a, index_a);
    let kb = position_key_bytes(owner_b, index_b);
    if ka == kb {
        let ua = utf8(owner_a);
        let ub = utf8(owner_b);
        assert(u32_be(index_a).len() == 4 && u32_be(index_b).len() == 4);
        assert(ka.len() == ua.len() + 4);
        assert(kb.len() == ub.len() + 4);
        assert(ua.len() == ub.len());
        assert(ua =~= ka.subrange(0, ua.len() as int));
        assert(ub =~= kb.subrange(0, ub.len() as int));
        vstd::utf8::encode_utf8_decode_utf8(owner_a@);
        vstd::utf8::encode_utf8_decode_utf8(owner_b@);
        lemma_suffix_distinct(ua, u32_be(index_a), u32_be(index_b));
        lemma_u32_be_injective(index_a, index_b);
    }
}

/// A position that is added is read back at the index it was given, and
/// every other position, of any owner, reads as before: the outcome that
/// `add_position` answers with.
pub proof fn lemma_add_position_then_read(
    before: State,
    after: State,
    account_id: String,
    position: Position,
    other_owner: String,
    other_index: u32,
)
    requires
        after.positions_view() == before.positions_view().insert(
            position_key_bytes(account_id, position_length(before, account_id)),
            after.positions_view()[position_key_bytes(
                account_id,
                position_length(before, account_id),
            )],
        ),
        after.positions_view()[position_key_bytes(
            account_id,
            position_length(before, account_id),
        )].equiv(position),
    ensures
        after.positions_view().contains_key(
            position_key_bytes(account_id, position_length(before, account_id)),
        ),
        after.positions_view()[position_key_bytes(
            account_id,
            position_length(before, account_id),
        )].equiv(position),
        other_owner@ != account_id@ || other_index != position_length(before, account_id) ==> {
            let k = position_key_bytes(other_owner, other_index);
            &&& after.positions_view().contains_key(k) == before.positions_view().contains_key(k)
            &&& before.positions_view().contains_key(k) ==> after.positions_view()[k]
                == before.positions_view()[k]
        },
{
    if other_owner@ != account_id@ || other_index != position_length(before, account_id) {
        lemma_position_keys_unique(
            other_owner,
            other_index,
            account_id,
            position_length(before, account_id),
        );
    }
}

} // verus!

verus! {

/// The operators an owner approved for all its positions, and until when.
pub open spec fn owner_operators(store: State, owner: String) -> Map<Seq<u8>, Expiration> {
    if store.operators_view().contains_key(utf8(owner)) {
        store.operators_view()[utf8(owner)]
    } else {
        Map::empty()
    }
}

impl State {
    /// Records that `owner` approved `operator` for all its positions until
    /// `expires`, replacing any earlier approval of it.
    pub fn save_operator(&mut self, owner: &String, operator: &String, expires: Expiration)
        requires
            old(self).wf(),
        ensures
            final(self).wf(),
            final(self).operators_view() == old(self).operators_view().insert(
                utf8(*owner),
                owner_operators(*old(self), *owner).insert(utf8(*operator), expires),
            ),
            same_tables_but_pools(*final(self), *old(self)),
            same_pools_and_config(*final(self), *old(self)),
    {
        let k = string_bytes(owner);
        let ghost before = self.operators@;
        let mut inner = match self.operators.remove(k.as_slice()) {
            Some(m) => m,
            None => ByteMap::new(),
        };
        inner.insert(string_bytes(operator), expires);
        let ghost inner_view = inner@;
        self.operators.insert(k, inner);
        proof {
            assert forall|kk: Seq<u8>| #[trigger] self.operators@.contains_key(kk) implies self.operators@[kk].wf() by {
                if kk != utf8(*owner) {
                    assert(before.contains_key(kk));
                }
            }
            vstd::utf8::encode_utf8_valid_utf8(operator@);
            assert forall|o: Seq<u8>, kk: Seq<u8>|
                self.operators@.contains_key(o) && #[trigger] self.operators@[o]@.contains_key(kk)
                    implies vstd::utf8::valid_utf8(kk) by {
                if o != utf8(*owner) {
                    assert(before.contains_key(o));
                } else if kk != utf8(*operator) {
                    assert(inner_view.contains_key(kk));
                    assert(before.contains_key(o));
                }
            }
            assert(self.operators_view() =~= old(self).operators_view().insert(
                utf8(*owner),
                owner_operators(*old(self), *owner).insert(utf8(*operator), expires),
            ));
        }
    }

    /// The first operator of an owner past `cursor` in byte order, with its
    /// expiration, if any.
    pub fn next_operator(&self, owner: &String, cursor: Option<Vec<u8>>) -> (r: Option<(Vec<u8>, Expiration)>)
        requires
            self.wf(),
        ensures
            ({
                let ops = owner_operators(*self, *owner);
                match r {
                    Some((k, e)) => ops.contains_key(k@) && past(opt_view(cursor), k@) && e
                        == ops[k@] && forall|o: Seq<u8>|
                        ops.contains_key(o) && past(opt_view(cursor), o) ==> !bytes_lt(o, k@),
                    None => forall|o: Seq<u8>| ops.contains_key(o) ==> !past(opt_view(cursor), o),
                }
            }),
            r matches Some((k, e)) ==> vstd::utf8::valid_utf8(k@),
    {
        let k = string_bytes(owner);
        match self.operators.get(k.as_slice()) {
            Some(inner) => {
                let ghost c = opt_view(cursor);
                let next = inner.keys_past(cursor, 1);
                if next.len() == 0 {
                    return None;
                }
                let key = copy_bytes(next[0].as_slice());
                assert(key_views(next@)[0] == key@);
                let e = match inner.get(key.as_slice()) {
                    Some(e) => *e,
                    None => {
                        return None;
                    },
                };
                proof {
                    assert forall|o: Seq<u8>| inner@.contains_key(o) && past(c, o) implies !bytes_lt(
                        o,
                        key@,
                    ) by {
                        let kv = key_views(next@);
                        if o == key@ {
                            lemma_bytes_lt_irreflexive(o);
                        } else {
                            assert(kv.len() == 1);
                            if kv.contains(o) {
                                let j = choose|j: int| 0 <= j < kv.len() && kv[j] == o;
                                assert(j == 0);
                            }
                            assert(bytes_lt(kv.last(), o));
                            lemma_bytes_lt_total(o, key@);
                        }
                    }
                }
                Some((key, e))
            },
            None => None,
        }
    }

    /// How many operators of an owner are past `cursor`: a measure that
    /// moving the cursor to one of them makes smaller.
    pub closed spec fn operators_past(self, owner: String, cursor: Option<Seq<u8>>) -> nat {
        if self.operators@.contains_key(utf8(owner)) {
            self.operators@[utf8(owner)].count_past(cursor)
        } else {
            0
        }
    }

    /// Moving the cursor to an operator past it leaves fewer operators past it.
    pub proof fn lemma_operators_past_decreases(self, owner: String, cursor: Option<Seq<u8>>, k: Seq<u8>)
        requires
            self.wf(),
            owner_operators(self, owner).contains_key(k),
            past(cursor, k),
        ensures
            self.operators_past(owner, Some(k)) < self.operators_past(owner, cursor),
    {
        self.operators@[utf8(owner)].lemma_count_past_decreases(cursor, k);
    }
}

} // verus!

verus! {

/// Removing a tick right after adding it leaves the ticks as they were.
pub proof fn lemma_add_then_remove_tick_restores(
    before: Map<Seq<u8>, Tick>,
    pool_key: PoolKey,
    index: i32,
    tick: Tick,
)
    requires
        !before.contains_key(tick_key_bytes(pool_key, index)),
    ensures
        before.insert(tick_key_bytes(pool_key, index), tick).remove(tick_key_bytes(pool_key, index))
            == before,
{
    assert(before.insert(tick_key_bytes(pool_key, index), tick).remove(
        tick_key_bytes(pool_key, index),
    ) =~= before);
}

/// Removing an owner's last position right after adding it leaves the
/// positions, the owner's count and the token locations as they were.
pub proof fn lemma_add_then_remove_position_restores(
    before: State,
    added: State,
    removed: State,
    account_id: String,
    position: Position,
)
    requires
        before.wf(),
        !before.positions_view().contains_key(
            position_key_bytes(account_id, position_length(before, account_id)),
        ),
        !before.position_keys_view().contains_key(token_key_bytes(position.token_id)),
        added.positions_view() == before.positions_view().insert(
            position_key_bytes(account_id, position_length(before, account_id)),
            added.positions_view()[position_key_bytes(
                account_id,
                position_length(before, account_id),
            )],
        ),
        added.positions_view()[position_key_bytes(
            account_id,
            position_length(before, account_id),
        )].token_id == position.token_id,
        added.positions_length_view() == before.positions_length_view().insert(
            utf8(account_id),
            (position_length(before, account_id) + 1) as u32,
        ),
        added.position_keys_view() == before.position_keys_view().insert(
            token_key_bytes(position.token_id),
            (utf8(account_id), position_length(before, account_id)),
        ),
        removed.positions_view() == added.positions_view().remove(
            position_key_bytes(account_id, position_length(before, account_id)),
        ),
        removed.position_keys_view() == added.position_keys_view().remove(
            token_key_bytes(position.token_id),
        ),
        removed.positions_length_view() == added.positions_length_view().insert(
            utf8(account_id),
            position_length(before, account_id),
        ),
    ensures
        removed.positions_view() == before.positions_view(),
        removed.position_keys_view() == before.position_keys_view(),
        position_length(removed, account_id) == position_length(before, account_id),
        forall|other: String|
            other@ != account_id@ ==> position_length(removed, other) == position_length(
                before,
                other,
            ),
{
    let k = position_key_bytes(account_id, position_length(before, account_id));
    assert(removed.positions_view() =~= before.positions_view());
    assert(removed.position_keys_view() =~= before.position_keys_view());
    assert forall|other: String| other@ != account_id@ implies position_length(removed, other)
        == position_length(before, other) by {
        vstd::utf8::encode_utf8_decode_utf8(other@);
        vstd::utf8::encode_utf8_decode_utf8(account_id@);
        assert(utf8(other) != utf8(account_id));
    }
}

} // verus!

verus! {

/// The storage key of an optional pool key.
pub open spec fn pool_start(start_after: Option<PoolKey>) -> Option<Seq<u8>> {
    match start_after {
        Some(k) => Some(k.key_bytes()),
        None => None,
    }
}

/// The limit a listing takes: the one asked for, at most `MAX_LIMIT`, which
/// is also the default.
pub open spec fn listing_limit(limit: Option<u32>) -> nat {
    match limit {
        Some(l) => if l < MAX_LIMIT {
            l as nat
        } else {
            MAX_LIMIT as nat
        },
        None => MAX_LIMIT as nat,
    }
}

/// The pools whose keys come after `start_after`'s key (from the first when
/// there is none), in increasing byte order of the keys, at most `limit` of
/// them (at most, and by default, `MAX_LIMIT`), each with the pool key its
/// storage key spells. Fails when one of those storage keys spells none.
pub fn get_pools(store: &State, limit: Option<u32>, start_after: Option<PoolKey>) -> (r: Result<
    Vec<PoolWithPoolKey>,
    ContractError,
>)
    requires
        store.wf(),
    ensures
        exists|keys: Seq<Seq<u8>>|
            #[trigger] first_keys_past(
                store.pools_view(),
                pool_start(start_after),
                listing_limit(limit),
                keys,
            ) && ((forall|i: int| 0 <= i < keys.len() ==> key_decodes(#[trigger] keys[i])) ==> (
            r is Ok && r.unwrap()@.len() == keys.len() && forall|i: int|
                0 <= i < keys.len() ==> (#[trigger] r.unwrap()@[i]).pool_key.key_bytes() == keys[i]
                    && r.unwrap()@[i].pool.equiv(store.pools_view()[keys[i]]))) && ((exists|i: int|
                0 <= i < keys.len() && !key_decodes(#[trigger] keys[i])) ==> r == Err::<
                Vec<PoolWithPoolKey>,
                ContractError,
            >(ContractError::InvalidPoolKey)),
{
    let lim: usize = match limit {
        Some(l) => if l < MAX_LIMIT {
            l as usize
        } else {
            MAX_LIMIT as usize
        },
        None => MAX_LIMIT as usize,
    };
    let start = match &start_after {
        Some(k) => Some(k.key()),
        None => None,
    };
    let ghost st = pool_start(start_after);
    assert(opt_view(start) == st);
    assert(lim == listing_limit(limit));
    let keys = store.pools.keys_past(start, lim);
    let ghost kv = key_views(keys@);
    assert(first_keys_past(store.pools_view(), st, listing_limit(limit), kv));
    let mut pools: Vec<PoolWithPoolKey> = Vec::new();
    let mut i: usize = 0;
    while i < keys.len()
        invariant
            store.wf(),
            i <= keys@.len(),
            kv == key_views(keys@),
            first_keys_past(store.pools_view(), st, listing_limit(limit), kv),
            st == pool_start(start_after),
            forall|j: int| 0 <= j < keys@.len() ==> store.pools_view().contains_key(kv[j]),
            forall|j: int| 0 <= j < i ==> key_decodes(#[trigger] kv[j]),
            pools@.len() == i,
            forall|j: int|
                0 <= j < i ==> (#[trigger] pools@[j]).pool_key.key_bytes() == kv[j]
                    && pools@[j].pool.equiv(store.pools_view()[kv[j]]),
        decreases keys@.len() - i,
    {
        assert(kv[i as int] == keys@[i as int]@);
        let pool_key = match PoolKey::from_bytes(keys[i].as_slice()) {
            Ok(k) => k,
            Err(e) => {
                assert(!key_decodes(kv[i as int]));
                assert(exists|j: int| 0 <= j < kv.len() && !key_decodes(#[trigger] kv[j]));
                return Err(e);
            },
        };
        let pool = match store.pools.get(keys[i].as_slice()) {
            Some(p) => p.duplicate(),
            None => {
                return Err(ContractError::NotFound);
            },
        };
        pools.push(PoolWithPoolKey { pool, pool_key });
        i = i + 1;
    }
    Ok(pools)
}

} // verus!

verus! {

proof fn lemma_search_limit_bounds(tick: int, ts: int)
    requires
        valid_tick(tick, ts),
    ensures
        tick - TICK_SEARCH_RANGE * ts <= search_limit(tick, ts, false) <= tick,
        tick <= search_limit(tick, ts, true) <= tick + TICK_SEARCH_RANGE * ts,
{
    lemma_index_tick_roundtrip(tick, ts);
    let q = tick / ts;
    let m = (MAX_TICK as int) / ts;
    assert(tick == ts * q);
    if tick >= 0 {
        vstd::arithmetic::div_mod::lemma_div_is_ordered(tick, MAX_TICK as int, ts);
    } else {
        assert(-tick == ts * (-q)) by (nonlinear_arith)
            requires
                tick == ts * q,
        ;
        vstd::arithmetic::div_mod::lemma_div_multiples_vanish(-q, ts);
        vstd::arithmetic::div_mod::lemma_div_is_ordered(-tick, MAX_TICK as int, ts);
    }
    assert(trunc_div(tick, ts) == q) by {
        if tick < 0 {
            vstd::arithmetic::div_mod::lemma_div_multiples_vanish(-q, ts);
        }
    }
    assert(-m <= q <= m);
    assert(m <= MAX_TICK) by {
        vstd::arithmetic::div_mod::lemma_div_is_ordered_by_denominator(MAX_TICK as int, 1, ts);
    }
    let down = vstd::math::max(vstd::math::max(-m, q - TICK_SEARCH_RANGE), -m);
    let up = vstd::math::min(
        vstd::math::min(TICKMAP_SIZE - 1 - m, q + TICK_SEARCH_RANGE),
        m,
    );
    assert(q - TICK_SEARCH_RANGE <= down <= q);
    assert(q <= up <= q + TICK_SEARCH_RANGE);
    assert(tick - TICK_SEARCH_RANGE * ts <= down * ts <= tick) by (nonlinear_arith)
        requires
            q - TICK_SEARCH_RANGE <= down <= q,
            tick == ts * q,
            ts > 0,
    ;
    assert(tick <= up * ts <= tick + TICK_SEARCH_RANGE * ts) by (nonlinear_arith)
        requires
            q <= up <= q + TICK_SEARCH_RANGE,
            tick == ts * q,
            ts > 0,
    ;
}

/// The bound of a swap step lies on the trade's side of the current tick,
/// at most `TICK_SEARCH_RANGE` spacings away: an x-to-y trade lowers the
/// price, so its bound is a tick at or below the current one (strictly
/// below when no initialized tick was found); a y-to-x trade raises it, so
/// its bound is above. A bound tick is initialized exactly when it was
/// found so, and no initialized tick lies between it and the current tick.
/// The bound's price is past the trade's limit in the trade's direction;
/// when it is not, the limit itself is the bound.
pub proof fn lemma_closer_limit_on_trade_side(
    bitmap: Map<Seq<u8>, u64>,
    pool_key: PoolKey,
    sqrt_price_limit: SqrtPrice,
    x_to_y: bool,
    current_tick: int,
    tick_spacing: int,
)
    requires
        valid_tick(current_tick, tick_spacing),
    ensures
        match closer_limit(bitmap, pool_key, sqrt_price_limit, x_to_y, current_tick, tick_spacing) {
            Ok((price, Some((t, initialized)))) => {
                &&& price.0 == sqrt_price_at(t as int)
                &&& x_to_y ==> current_tick - TICK_SEARCH_RANGE * tick_spacing <= t <= current_tick
                    && (!initialized ==> t < current_tick) && price.0 > sqrt_price_limit.0
                &&& !x_to_y ==> current_tick < t <= current_tick + TICK_SEARCH_RANGE * tick_spacing
                    && price.0 < sqrt_price_limit.0
                &&& initialized == tick_initialized(bitmap, pool_key, t as int, tick_spacing)
                &&& forall|u: int|
                    valid_tick(u, tick_spacing) && (if x_to_y {
                        t < u <= current_tick
                    } else {
                        current_tick < u < t
                    }) ==> !tick_initialized(bitmap, pool_key, u, tick_spacing)
            },
            Ok((price, None)) => price == sqrt_price_limit,
            Err(e) => e == ContractError::TickLimitReached,
        },
{
    lemma_search_limit_bounds(current_tick, tick_spacing);
    lemma_prev_initialized_is_closest(bitmap, pool_key, current_tick, tick_spacing);
    lemma_next_initialized_is_closest(bitmap, pool_key, current_tick, tick_spacing);
    let ts = tick_spacing;
    let lim = search_limit(current_tick, ts, !x_to_y);
    let found = if x_to_y {
        prev_initialized_tick(bitmap, pool_key, current_tick, ts)
    } else {
        next_initialized_tick(bitmap, pool_key, current_tick, ts)
    };
    if found is None {
        // the search limit is a tick the bitmap holds, and no tick up to it is initialized
        assert(valid_tick(lim, ts)) by {
            lemma_index_tick_roundtrip(current_tick, ts);
            let q = current_tick / ts;
            let k = lim / ts;
            assert(lim % ts == 0) by {
                let l = if x_to_y {
                    vstd::math::max(
                        vstd::math::max(-((MAX_TICK as int) / ts), trunc_div(current_tick, ts) - TICK_SEARCH_RANGE),
                        -((MAX_TICK as int) / ts),
                    )
                } else {
                    vstd::math::min(
                        vstd::math::min(
                            TICKMAP_SIZE - 1 - (MAX_TICK as int) / ts,
                            trunc_div(current_tick, ts) + TICK_SEARCH_RANGE,
                        ),
                        (MAX_TICK as int) / ts,
                    )
                };
                assert(lim == l * ts);
                vstd::arithmetic::div_mod::lemma_mod_multiples_basic(l, ts);
            }
            assert(-MAX_TICK <= lim <= MAX_TICK) by {
                if x_to_y {
                    assert(lim >= -MAX_TICK) by {
                        vstd::arithmetic::div_mod::lemma_fundamental_div_mod(MAX_TICK as int, ts);
                        let m = (MAX_TICK as int) / ts;
                        let l = lim / ts;
                        assert(lim >= -(m * ts)) by (nonlinear_arith)
                            requires
                                lim == search_limit(current_tick, ts, false),
                                search_limit(current_tick, ts, false) == vstd::math::max(
                                    vstd::math::max(-m, trunc_div(current_tick, ts) - TICK_SEARCH_RANGE),
                                    -m,
                                ) * ts,
                                ts > 0,
                        ;
                        assert(m * ts <= MAX_TICK) by (nonlinear_arith)
                            requires
                                MAX_TICK == ts * m + (MAX_TICK as int) % ts,
                                (MAX_TICK as int) % ts >= 0,
                        ;
                    }
                } else {
                    assert(lim <= MAX_TICK) by {
                        vstd::arithmetic::div_mod::lemma_fundamental_div_mod(MAX_TICK as int, ts);
                        let m = (MAX_TICK as int) / ts;
                        assert(lim <= m * ts) by (nonlinear_arith)
                            requires
                                lim == search_limit(current_tick, ts, true),
                                search_limit(current_tick, ts, true) == vstd::math::min(
                                    vstd::math::min(
                                        TICKMAP_SIZE - 1 - m,
                                        trunc_div(current_tick, ts) + TICK_SEARCH_RANGE,
                                    ),
                                    m,
                                ) * ts,
                                ts > 0,
                        ;
                        assert(m * ts <= MAX_TICK) by (nonlinear_arith)
                            requires
                                MAX_TICK == ts * m + (MAX_TICK as int) % ts,
                                (MAX_TICK as int) % ts >= 0,
                        ;
                    }
                }
            }
        }
        if x_to_y {
            assert(prev_initialized_tick(bitmap, pool_key, current_tick, ts) is None);
            assert(search_limit(current_tick, ts, false) <= lim <= current_tick);
        } else {
            assert(next_initialized_tick(bitmap, pool_key, current_tick, ts) is None);
            assert(current_tick <= lim <= search_limit(current_tick, ts, true));
            if lim == current_tick {
                assert(closer_limit(bitmap, pool_key, sqrt_price_limit, x_to_y, current_tick, ts) is Err);
            }
        }
        assert(lim != current_tick ==> !tick_initialized(bitmap, pool_key, lim, ts));
        assert((lim as i32) as int == lim);
    }
    match closer_limit(bitmap, pool_key, sqrt_price_limit, x_to_y, current_tick, ts) {
        Ok((price, Some((t, initialized)))) => {
            if found is None {
                assert(t as int == lim);
                assert(!initialized);
                assert(lim != current_tick);
                assert(initialized == tick_initialized(bitmap, pool_key, t as int, ts));
            } else {
                assert(t == found.unwrap());
                assert(initialized);
                assert(initialized == tick_initialized(bitmap, pool_key, t as int, ts));
            }
            assert(x_to_y ==> current_tick - TICK_SEARCH_RANGE * ts <= t <= current_tick);
            assert(!x_to_y ==> current_tick < t <= current_tick + TICK_SEARCH_RANGE * ts);
            assert(valid_tick(t as int, ts));
            crate::sqrt_price::lemma_sqrt_price_bounded(t as int);
            assert(x_to_y ==> price.0 > sqrt_price_limit.0);
            assert(!x_to_y ==> price.0 < sqrt_price_limit.0);
            assert forall|u: int|
                valid_tick(u, ts) && (if x_to_y {
                    t < u <= current_tick
                } else {
                    current_tick < u < t
                }) implies !tick_initialized(bitmap, pool_key, u, ts) by {
                if x_to_y {
                    assert(search_limit(current_tick, ts, false) <= u <= current_tick);
                } else {
                    assert(current_tick < u <= search_limit(current_tick, ts, true));
                }
            }
        },
        _ => {},
    }
}

} // verus!
