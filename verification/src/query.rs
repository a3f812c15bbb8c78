//! The read-only queries over the contract's storage.

use vstd::prelude::*;

use crate::error::ContractError;
use crate::interface::{
    AllNftInfoResponse, ApprovedForAllResponse, NftInfoResponse, NumTokensResponse, OwnerOfResponse, PoolWithPoolKey,
    PositionTick, TokensResponse,
};
use crate::state::{
    chunk_value, get_bitmap, get_bitmap_item, get_config, get_position, get_position_length,
    bitmap_key_bytes, get_all_position_keys, get_all_positions, get_position_by_key, get_tick,
    index_set, positions_in_range,
    listing_end, listing_in_bounds, listing_start, num_tokens, position_key_bytes, position_length,
    listing_limit, owner_operators, stored_or_zero, tick_initialized, tick_key_bytes, token_key_bytes, State,
    MAX_LIMIT, owner_positions_dense,
};
use crate::storage::{
    copy_approvals, liquidity_tick_of, Approval, BlockInfo, Expiration, LiquidityTick, Pool, Position,
    Tick,
};
use crate::tickmap::{
    bit_of, get_max_tick, get_min_tick, is_multiple_of_spacing, lemma_index_tick_roundtrip,
    lemma_tick_index_monotonic,
    get_max_chunk, get_min_chunk, max_tick_of, tick_index, tick_to_position, valid_tick, CHUNK_SIZE, MAX_TICK,
};
use crate::kv::{
    bytes_lt, copy_bytes, first_keys_past, key_views, lemma_bytes_lt_irreflexive, lemma_bytes_lt_total,
    lemma_bytes_lt_trans, opt_view, past,
};
use crate::types::{
    lemma_u64_be_order, lemma_u64_be_value, pool_key_of, push_u32_be, push_u64_be, string_bytes,
    string_from_utf8,
    u32_be, u64_be, utf8,
    u64_from_be, FeeTier, Percentage, PoolKey,
};

verus! {

/// The number of set positions in `[from, to]`.
pub open spec fn count_set(bitmap: Map<Seq<u8>, u64>, pool_key: PoolKey, from: int, to: int) -> nat
    decreases to + 1 - from,
{
    if from > to {
        0
    } else {
        count_set(bitmap, pool_key, from, to - 1) + if index_set(bitmap, pool_key, to) {
            1nat
        } else {
            0nat
        }
    }
}

/// Counting over two adjacent ranges adds up.
pub proof fn lemma_count_set_split(
    bitmap: Map<Seq<u8>, u64>,
    pool_key: PoolKey,
    a: int,
    b: int,
    c: int,
)
    requires
        a - 1 <= b <= c,
    ensures
        count_set(bitmap, pool_key, a, c) == count_set(bitmap, pool_key, a, b) + count_set(
            bitmap,
            pool_key,
            b + 1,
            c,
        ),
    decreases c - b,
{
    if b < c {
        lemma_count_set_split(bitmap, pool_key, a, b, c - 1);
    }
}

/// A range holds no more set positions than positions.
pub proof fn lemma_count_set_bound(bitmap: Map<Seq<u8>, u64>, pool_key: PoolKey, a: int, b: int)
    requires
        a - 1 <= b,
    ensures
        count_set(bitmap, pool_key, a, b) <= b + 1 - a,
    decreases b + 1 - a,
{
    if a <= b {
        lemma_count_set_bound(bitmap, pool_key, a, b - 1);
    }
}

/// The initialized positions between two bits of a chunk, both included.
fn active_bits_in_range(
    chunk: u64,
    min_bit: u8,
    max_bit: u8,
    Ghost(bitmap): Ghost<Map<Seq<u8>, u64>>,
    Ghost(pool_key): Ghost<PoolKey>,
    Ghost(chunk_index): Ghost<int>,
) -> (r: u32)
    requires
        min_bit <= max_bit < 64,
        chunk == chunk_value(bitmap, pool_key, chunk_index),
        0 <= chunk_index < 0x1_0000,
    ensures
        r == count_set(bitmap, pool_key, chunk_index * 64 + min_bit, chunk_index * 64 + max_bit),
{
    let mut count: u32 = 0;
    let mut b: u8 = min_bit;
    while b <= max_bit
        invariant
            min_bit <= b <= max_bit + 1,
            max_bit < 64,
            chunk == chunk_value(bitmap, pool_key, chunk_index),
            0 <= chunk_index < 0x1_0000,
            count == count_set(bitmap, pool_key, chunk_index * 64 + min_bit, chunk_index * 64 + b - 1),
            count <= b - min_bit,
        decreases max_bit + 1 - b,
    {
        let ghost p = chunk_index * 64 + b;
        assert(p / 64 == chunk_index);
        assert(p % 64 == b);
        assert((chunk >> b) & 1 <= 1) by (bit_vector);
        if (chunk >> b) & 1 == 1 {
            count = count + 1;
        }
        assert(index_set(bitmap, pool_key, p) == ((chunk >> b) & 1 == 1));
        b = b + 1;
    }
    count
}

/// Whether a liquidity-ticks count over `[lower_tick, upper_tick]` is one that
/// the contract answers: ranges the validation admits but whose ends fall
/// outside the tickmap, or that run backwards inside one chunk, are not.
pub open spec fn liquidity_ticks_amount_defined(lower_tick: int, upper_tick: int, tick_spacing: int) -> bool {
    let accepted = tick_spacing != 0 && lower_tick % tick_spacing == 0 && upper_tick % tick_spacing
        == 0 && -max_tick_of(tick_spacing) <= lower_tick && upper_tick <= max_tick_of(tick_spacing);
    accepted ==> {
        let lo = tick_index(lower_tick, tick_spacing);
        let hi = tick_index(upper_tick, tick_spacing);
        &&& lower_tick <= MAX_TICK
        &&& -MAX_TICK <= upper_tick
        &&& lo / 64 == hi / 64 ==> lo % 64 <= hi % 64
    }
}

/// The answer of the liquidity-ticks count.
pub open spec fn liquidity_ticks_amount(
    bitmap: Map<Seq<u8>, u64>,
    pool_key: PoolKey,
    lower_tick: int,
    upper_tick: int,
) -> Result<u32, ContractError> {
    let tick_spacing = pool_key.fee_tier.tick_spacing as int;
    if tick_spacing == 0 {
        Err(ContractError::InvalidTickSpacing)
    } else if lower_tick % tick_spacing != 0 || upper_tick % tick_spacing != 0 {
        Err(ContractError::InvalidTickIndex)
    } else if lower_tick < -max_tick_of(tick_spacing) || upper_tick > max_tick_of(tick_spacing) {
        Err(ContractError::InvalidTickIndex)
    } else {
        let lo = tick_index(lower_tick, tick_spacing);
        let hi = tick_index(upper_tick, tick_spacing);
        if lo / 64 == hi / 64 || lo <= hi {
            Ok(count_set(bitmap, pool_key, lo, hi) as u32)
        } else {
            Ok(
                (count_set(bitmap, pool_key, lo, (lo / 64) * 64 + 63) + count_set(
                    bitmap,
                    pool_key,
                    (hi / 64) * 64,
                    hi,
                )) as u32,
            )
        }
    }
}

/// Counts the initialized ticks of a pool between `lower_tick` and
/// `upper_tick`, both included.
pub fn get_liquidity_ticks_amount(
    store: &State,
    pool_key: &PoolKey,
    lower_tick: i32,
    upper_tick: i32,
) -> (r: Result<u32, ContractError>)
    requires
        store.wf(),
        liquidity_ticks_amount_defined(
            lower_tick as int,
            upper_tick as int,
            pool_key.fee_tier.tick_spacing as int,
        ),
    ensures
        r == liquidity_ticks_amount(
            store.bitmap_view(),
            *pool_key,
            lower_tick as int,
            upper_tick as int,
        ),
{
    let ghost bm = store.bitmap_view();
    let ghost pk = *pool_key;
    let tick_spacing = pool_key.fee_tier.tick_spacing;
    if tick_spacing == 0 {
        return Err(ContractError::InvalidTickSpacing);
    };

    if !is_multiple_of_spacing(lower_tick, tick_spacing) || !is_multiple_of_spacing(
        upper_tick,
        tick_spacing,
    ) {
        return Err(ContractError::InvalidTickIndex);
    }

    let max_tick = get_max_tick(tick_spacing);
    let min_tick = get_min_tick(tick_spacing);

    if lower_tick < min_tick || upper_tick > max_tick {
        return Err(ContractError::InvalidTickIndex);
    };

    let ghost ts = tick_spacing as int;
    proof {
        lemma_index_tick_roundtrip(lower_tick as int, ts);
        lemma_index_tick_roundtrip(upper_tick as int, ts);
        vstd::arithmetic::div_mod::lemma_div_is_ordered_by_denominator(MAX_TICK as int, 1, ts);
    }
    let (min_chunk_index, min_bit) = tick_to_position(lower_tick, tick_spacing);
    let (max_chunk_index, max_bit) = tick_to_position(upper_tick, tick_spacing);
    let ghost lo = tick_index(lower_tick as int, ts);
    let ghost hi = tick_index(upper_tick as int, ts);

    let min_chunk = match get_bitmap_item(store, min_chunk_index, pool_key) {
        Ok(v) => v,
        Err(_) => 0,
    };

    if max_chunk_index == min_chunk_index {
        return Ok(
            active_bits_in_range(
                min_chunk,
                min_bit,
                max_bit,
                Ghost(bm),
                Ghost(pk),
                Ghost(min_chunk_index as int),
            ),
        );
    }

    let max_chunk = match get_bitmap_item(store, max_chunk_index, pool_key) {
        Ok(v) => v,
        Err(_) => 0,
    };

    let mut amount: u32 = 0;
    let low_part = active_bits_in_range(
        min_chunk,
        min_bit,
        (CHUNK_SIZE - 1) as u8,
        Ghost(bm),
        Ghost(pk),
        Ghost(min_chunk_index as int),
    );
    proof {
        lemma_count_set_bound(bm, pk, lo, min_chunk_index * 64 + 63);
        lemma_count_set_bound(bm, pk, max_chunk_index * 64, hi);
    }
    amount = match amount.checked_add(low_part) {
        Some(v) => v,
        None => {
            return Err(ContractError::Add);
        },
    };
    let high_part = active_bits_in_range(
        max_chunk,
        0,
        max_bit,
        Ghost(bm),
        Ghost(pk),
        Ghost(max_chunk_index as int),
    );
    amount = match amount.checked_add(high_part) {
        Some(v) => v,
        None => {
            return Err(ContractError::Add);
        },
    };

    let mut i: u16 = min_chunk_index + 1;
    while i < max_chunk_index
        invariant
            store.wf(),
            bm == store.bitmap_view(),
            pk == *pool_key,
            min_chunk_index < i <= max_chunk_index || (max_chunk_index < min_chunk_index && i
                == min_chunk_index + 1),
            min_chunk_index * 64 <= lo < min_chunk_index * 64 + 64,
            max_chunk_index * 64 <= hi < max_chunk_index * 64 + 64,
            hi <= 443636,
            amount == count_set(bm, pk, lo, min_chunk_index * 64 + 63) + count_set(
                bm,
                pk,
                max_chunk_index * 64,
                hi,
            ) + count_set(bm, pk, (min_chunk_index + 1) * 64, i * 64 - 1),
        decreases max_chunk_index - i,
    {
        let chunk = match get_bitmap_item(store, i, pool_key) {
            Ok(v) => v,
            Err(_) => 0,
        };
        let ones = active_bits_in_range(chunk, 0, 63, Ghost(bm), Ghost(pk), Ghost(i as int));
        proof {
            lemma_count_set_split(bm, pk, (min_chunk_index + 1) * 64, i * 64 - 1, i * 64 + 63);
            lemma_count_set_bound(bm, pk, lo, min_chunk_index * 64 + 63);
            lemma_count_set_bound(bm, pk, max_chunk_index * 64, hi);
            lemma_count_set_bound(bm, pk, (min_chunk_index + 1) * 64, i * 64 + 63);
        }
        amount = match amount.checked_add(ones) {
            Some(v) => v,
            None => {
                return Err(ContractError::Add);
            },
        };
        i = i + 1;
    }
    proof {
        if lo <= hi {
            lemma_count_set_split(bm, pk, lo, min_chunk_index * 64 + 63, hi);
            lemma_count_set_split(bm, pk, (min_chunk_index + 1) * 64, max_chunk_index * 64 - 1, hi);
        }
    }
    Ok(amount)
}

} // verus!

verus! {

/// The contract's admin; fails when no settings are stored.
pub fn query_admin(store: &State) -> (r: Result<String, ContractError>)
    ensures
        store.config_view() is None ==> r == Err::<String, ContractError>(ContractError::NotFound),
        store.config_view() matches Some(c) ==> r == Ok::<String, ContractError>(c.admin),
{
    match get_config(store) {
        Ok(config) => Ok(config.admin),
        Err(e) => Err(e),
    }
}

/// The protocol fee; fails when no settings are stored.
pub fn get_protocol_fee(store: &State) -> (r: Result<Percentage, ContractError>)
    ensures
        store.config_view() is None ==> r == Err::<Percentage, ContractError>(
            ContractError::NotFound,
        ),
        store.config_view() matches Some(c) ==> r == Ok::<Percentage, ContractError>(
            c.protocol_fee,
        ),
{
    match get_config(store) {
        Ok(config) => Ok(config.protocol_fee),
        Err(e) => Err(e),
    }
}

/// The account that funds incentives; fails when no settings are stored.
pub fn get_incentives_fund_manager(store: &State) -> (r: Result<String, ContractError>)
    ensures
        store.config_view() is None ==> r == Err::<String, ContractError>(ContractError::NotFound),
        store.config_view() matches Some(c) ==> r == Ok::<String, ContractError>(
            c.incentives_fund_manager,
        ),
{
    match get_config(store) {
        Ok(config) => Ok(config.incentives_fund_manager),
        Err(e) => Err(e),
    }
}

/// Whether a fee tier is one the contract offers; fails when no settings are
/// stored.
pub fn fee_tier_exist(store: &State, fee_tier: FeeTier) -> (r: Result<bool, ContractError>)
    ensures
        store.config_view() is None ==> r == Err::<bool, ContractError>(ContractError::NotFound),
        store.config_view() matches Some(c) ==> r == Ok::<bool, ContractError>(
            c.fee_tiers@.contains(fee_tier),
        ),
{
    let config = match get_config(store) {
        Ok(c) => c,
        Err(e) => {
            return Err(e);
        },
    };
    let mut i: usize = 0;
    while i < config.fee_tiers.len()
        invariant
            i <= config.fee_tiers@.len(),
            store.config_view() is Some,
            config.fee_tiers@ == store.config_view().unwrap().fee_tiers@,
            forall|j: int| 0 <= j < i ==> config.fee_tiers@[j] != fee_tier,
        decreases config.fee_tiers@.len() - i,
    {
        if config.fee_tiers[i] == fee_tier {
            assert(config.fee_tiers@[i as int] == fee_tier);
            return Ok(true);
        }
        i = i + 1;
    }
    Ok(false)
}

/// The fee tiers the contract offers; fails when no settings are stored.
pub fn get_fee_tiers(store: &State) -> (r: Result<Vec<FeeTier>, ContractError>)
    ensures
        store.config_view() is None ==> r == Err::<Vec<FeeTier>, ContractError>(
            ContractError::NotFound,
        ),
        store.config_view() matches Some(c) ==> r is Ok && r.unwrap()@ == c.fee_tiers@,
{
    match get_config(store) {
        Ok(config) => Ok(config.fee_tiers),
        Err(e) => Err(e),
    }
}

/// The pool of two tokens (in either order) and a fee tier; fails when the
/// tokens are the same or no such pool is stored.
pub fn get_pool(store: &State, token_0: String, token_1: String, fee_tier: FeeTier) -> (r: Result<
    Pool,
    ContractError,
>)
    requires
        store.wf(),
    ensures
        token_0@ == token_1@ ==> r == Err::<Pool, ContractError>(ContractError::TokensAreSame),
        token_0@ != token_1@ ==> {
            let key = pool_key_of(token_0, token_1, fee_tier);
            &&& !store.pools_view().contains_key(key.key_bytes()) ==> r == Err::<
                Pool,
                ContractError,
            >(ContractError::NotFound)
            &&& store.pools_view().contains_key(key.key_bytes()) ==> r is Ok && r.unwrap().equiv(
                store.pools_view()[key.key_bytes()],
            )
        },
{
    let pool_key = match PoolKey::new(token_0, token_1, fee_tier) {
        Ok(k) => k,
        Err(e) => {
            return Err(e);
        },
    };
    crate::state::get_pool(store, &pool_key)
}

/// The keys among `keys` under which a pool is stored, in order.
pub open spec fn stored_pool_keys(pools: Map<Seq<u8>, Pool>, keys: Seq<PoolKey>) -> Seq<PoolKey>
    decreases keys.len(),
{
    if keys.len() == 0 {
        Seq::empty()
    } else {
        let rest = stored_pool_keys(pools, keys.drop_last());
        if pools.contains_key(keys.last().key_bytes()) {
            rest.push(keys.last())
        } else {
            rest
        }
    }
}

/// Whether `r` lists, in order, the pools stored under `keys`, each with its key.
pub open spec fn lists_pools(r: Seq<PoolWithPoolKey>, pools: Map<Seq<u8>, Pool>, keys: Seq<PoolKey>) -> bool {
    let found = stored_pool_keys(pools, keys);
    &&& r.len() == found.len()
    &&& forall|i: int|
        0 <= i < r.len() ==> r[i].pool_key == found[i] && r[i].pool.equiv(
            pools[found[i].key_bytes()],
        )
}

/// The pools stored under the given keys, each with its key, in the keys'
/// order; keys with no pool are skipped.
pub fn get_pools_with_pool_keys(store: &State, pool_keys: Vec<PoolKey>) -> (r: Result<
    Vec<PoolWithPoolKey>,
    ContractError,
>)
    requires
        store.wf(),
    ensures
        r is Ok,
        lists_pools(r.unwrap()@, store.pools_view(), pool_keys@),
{
    let ghost pv = store.pools_view();
    let mut pools: Vec<PoolWithPoolKey> = Vec::new();
    let mut i: usize = 0;
    while i < pool_keys.len()
        invariant
            store.wf(),
            pv == store.pools_view(),
            i <= pool_keys@.len(),
            lists_pools(pools@, pv, pool_keys@.subrange(0, i as int)),
        decreases pool_keys@.len() - i,
    {
        let pool_key = &pool_keys[i];
        assert(pool_keys@.subrange(0, i + 1).drop_last() =~= pool_keys@.subrange(0, i as int));
        match crate::state::get_pool(store, pool_key) {
            Ok(pool) => {
                pools.push(PoolWithPoolKey { pool, pool_key: pool_key.duplicate() });
            },
            Err(_) => {},
        }
        i = i + 1;
    }
    assert(pool_keys@.subrange(0, pool_keys@.len() as int) =~= pool_keys@);
    Ok(pools)
}

/// The keys of a pair of tokens with each of the given fee tiers.
pub open spec fn keys_with_tiers(token_x: String, token_y: String, fee_tiers: Seq<FeeTier>) -> Seq<
    PoolKey,
> {
    fee_tiers.map_values(|ft: FeeTier| PoolKey { token_x, token_y, fee_tier: ft })
}

/// The pools of two tokens (in either order), one for each fee tier the
/// contract offers that has one, in the fee tiers' order. Fails when no
/// settings are stored or the tokens are the same.
pub fn get_all_pools_for_pair(store: &State, token_0: String, token_1: String) -> (r: Result<
    Vec<PoolWithPoolKey>,
    ContractError,
>)
    requires
        store.wf(),
    ensures
        store.config_view() is None ==> r == Err::<Vec<PoolWithPoolKey>, ContractError>(
            ContractError::NotFound,
        ),
        store.config_view() is Some && token_0@ == token_1@ ==> r == Err::<
            Vec<PoolWithPoolKey>,
            ContractError,
        >(ContractError::TokensAreSame),
        store.config_view() is Some && token_0@ != token_1@ ==> {
            let tiers = store.config_view().unwrap().fee_tiers@;
            let key = pool_key_of(token_0, token_1, FeeTier { fee: Percentage(0), tick_spacing: 0 });
            let keys = keys_with_tiers(key.token_x, key.token_y, tiers);
            r is Ok && lists_pools(r.unwrap()@, store.pools_view(), keys)
        },
{
    let fee_tiers = match get_fee_tiers(store) {
        Ok(f) => f,
        Err(e) => {
            return Err(e);
        },
    };
    let mut pool_key = match PoolKey::new(token_0, token_1, FeeTier { fee: Percentage(0), tick_spacing: 0 }) {
        Ok(k) => k,
        Err(e) => {
            return Err(e);
        },
    };
    let ghost tx = pool_key.token_x;
    let ghost ty = pool_key.token_y;
    let ghost keys = keys_with_tiers(tx, ty, fee_tiers@);
    let ghost pv = store.pools_view();
    let mut pools: Vec<PoolWithPoolKey> = Vec::new();
    let mut i: usize = 0;
    while i < fee_tiers.len()
        invariant
            store.wf(),
            pv == store.pools_view(),
            i <= fee_tiers@.len(),
            pool_key.token_x == tx,
            pool_key.token_y == ty,
            keys == keys_with_tiers(tx, ty, fee_tiers@),
            lists_pools(pools@, pv, keys.subrange(0, i as int)),
        decreases fee_tiers@.len() - i,
    {
        pool_key.fee_tier = fee_tiers[i];
        assert(pool_key == keys[i as int]);
        assert(keys.subrange(0, i + 1).drop_last() =~= keys.subrange(0, i as int));
        match crate::state::get_pool(store, &pool_key) {
            Ok(pool) => {
                pools.push(PoolWithPoolKey { pool, pool_key: pool_key.duplicate() });
            },
            Err(_) => {},
        }
        i = i + 1;
    }
    assert(keys.subrange(0, fee_tiers@.len() as int) =~= keys);
    Ok(pools)
}

} // verus!

verus! {

/// The most ticks the position-ticks query answers with (it may pass it by
/// one).
pub const POSITION_TICK_LIMIT: usize = 372;

/// The most ticks the liquidity-ticks query takes.
pub const LIQUIDITY_TICK_LIMIT: usize = 780;

/// A tick as the position-ticks query reports it.
pub open spec fn position_tick_of(tick: Tick) -> PositionTick {
    PositionTick {
        index: tick.index,
        fee_growth_outside_x: tick.fee_growth_outside_x,
        fee_growth_outside_y: tick.fee_growth_outside_y,
        seconds_outside: tick.seconds_outside,
    }
}

/// The stored tick of a pool at an index, reported, or nothing.
pub open spec fn reported_tick(ticks: Map<Seq<u8>, Tick>, pool_key: PoolKey, index: i32) -> Seq<
    PositionTick,
> {
    let k = tick_key_bytes(pool_key, index);
    if ticks.contains_key(k) {
        seq![position_tick_of(ticks[k])]
    } else {
        Seq::empty()
    }
}

/// The stored lower and upper ticks of an owner's `index`-th position, if
/// the position is stored.
pub open spec fn ticks_of_position(store: State, owner: String, index: u32) -> Seq<PositionTick> {
    let k = position_key_bytes(owner, index);
    if store.positions_view().contains_key(k) {
        let p = store.positions_view()[k];
        reported_tick(store.ticks_view(), p.pool_key, p.lower_tick_index) + reported_tick(
            store.ticks_view(),
            p.pool_key,
            p.upper_tick_index,
        )
    } else {
        Seq::empty()
    }
}

/// The ticks of an owner's positions from index `i` below `len` added to
/// `acc`, stopping after the position that brings the count to the limit.
pub open spec fn position_ticks_from(
    store: State,
    owner: String,
    i: int,
    len: int,
    acc: Seq<PositionTick>,
) -> Seq<PositionTick>
    decreases len - i,
{
    if i >= len {
        acc
    } else {
        let next = acc + ticks_of_position(store, owner, i as u32);
        if next.len() >= POSITION_TICK_LIMIT {
            next
        } else {
            position_ticks_from(store, owner, i + 1, len, next)
        }
    }
}

/// Adds the stored lower and upper ticks of an owner's `index`-th position.
fn push_position_ticks(store: &State, owner: &String, index: u32, ticks: &mut Vec<PositionTick>)
    requires
        store.wf(),
    ensures
        final(ticks)@ == old(ticks)@ + ticks_of_position(*store, *owner, index),
{
    let ghost before = ticks@;
    match get_position(store, owner, index) {
        Ok(position) => {
            match get_tick(store, &position.pool_key, position.lower_tick_index) {
                Ok(tick) => {
                    ticks.push(
                        PositionTick {
                            index: tick.index,
                            fee_growth_outside_x: tick.fee_growth_outside_x,
                            fee_growth_outside_y: tick.fee_growth_outside_y,
                            seconds_outside: tick.seconds_outside,
                        },
                    );
                },
                Err(_) => {},
            }
            let ghost mid = ticks@;
            match get_tick(store, &position.pool_key, position.upper_tick_index) {
                Ok(tick) => {
                    ticks.push(
                        PositionTick {
                            index: tick.index,
                            fee_growth_outside_x: tick.fee_growth_outside_x,
                            fee_growth_outside_y: tick.fee_growth_outside_y,
                            seconds_outside: tick.seconds_outside,
                        },
                    );
                },
                Err(_) => {},
            }
            proof {
                let p = store.positions_view()[position_key_bytes(*owner, index)];
                assert(mid =~= before + reported_tick(
                    store.ticks_view(),
                    p.pool_key,
                    p.lower_tick_index,
                ));
                assert(ticks@ =~= before + ticks_of_position(*store, *owner, index));
            }
        },
        Err(_) => {
            assert(ticks@ =~= before + ticks_of_position(*store, *owner, index));
        },
    }
}

/// The lower and upper ticks of an owner's positions from `offset` on, as
/// stored; stops once `POSITION_TICK_LIMIT` ticks are listed. Fails when the
/// offset is past the owner's count.
pub fn get_position_ticks(store: &State, owner: &String, offset: u32) -> (r: Result<
    Vec<PositionTick>,
    ContractError,
>)
    requires
        store.wf(),
    ensures
        offset > position_length(*store, *owner) ==> r == Err::<Vec<PositionTick>, ContractError>(
            ContractError::InvalidOffset,
        ),
        offset <= position_length(*store, *owner) ==> r is Ok && r.unwrap()@
            == position_ticks_from(
            *store,
            *owner,
            offset as int,
            position_length(*store, *owner) as int,
            Seq::empty(),
        ),
{
    let positions_length = get_position_length(store, owner);
    let mut ticks: Vec<PositionTick> = Vec::new();

    if offset > positions_length {
        return Err(ContractError::InvalidOffset);
    }
    let ghost len = positions_length as int;
    let ghost answer = position_ticks_from(*store, *owner, offset as int, len, Seq::empty());

    let mut i = offset;
    while i < positions_length
        invariant_except_break
            store.wf(),
            offset <= i <= positions_length,
            positions_length == position_length(*store, *owner),
            len == positions_length as int,
            ticks@.len() < POSITION_TICK_LIMIT,
            answer == position_ticks_from(*store, *owner, i as int, len, ticks@),
        ensures
            ticks@ == answer,
        decreases positions_length - i,
    {
        let ghost before = ticks@;
        push_position_ticks(store, owner, i, &mut ticks);
        assert(answer == if ticks@.len() >= POSITION_TICK_LIMIT {
            ticks@
        } else {
            position_ticks_from(*store, *owner, i + 1, len, ticks@)
        });
        if ticks.len() >= POSITION_TICK_LIMIT {
            break;
        }
        i = i + 1;
    }

    Ok(ticks)
}

/// The stored ticks at the given indices, as liquidity ticks; fails when
/// more than `LIQUIDITY_TICK_LIMIT` indices are asked for or a tick is not
/// stored.
pub fn get_liquidity_ticks(store: &State, pool_key: &PoolKey, tick_indexes: Vec<i32>) -> (r: Result<
    Vec<LiquidityTick>,
    ContractError,
>)
    requires
        store.wf(),
    ensures
        tick_indexes@.len() > LIQUIDITY_TICK_LIMIT ==> r == Err::<
            Vec<LiquidityTick>,
            ContractError,
        >(ContractError::TickLimitReached),
        tick_indexes@.len() <= LIQUIDITY_TICK_LIMIT && (exists|i: int|
            0 <= i < tick_indexes@.len() && !store.ticks_view().contains_key(
                #[trigger] tick_key_bytes(*pool_key, tick_indexes@[i]),
            )) ==> r == Err::<Vec<LiquidityTick>, ContractError>(ContractError::NotFound),
        tick_indexes@.len() <= LIQUIDITY_TICK_LIMIT && (forall|i: int|
            0 <= i < tick_indexes@.len() ==> store.ticks_view().contains_key(
                #[trigger] tick_key_bytes(*pool_key, tick_indexes@[i]),
            )) ==> r is Ok && r.unwrap()@.len() == tick_indexes@.len() && forall|i: int|
            0 <= i < tick_indexes@.len() ==> #[trigger] r.unwrap()@[i] == liquidity_tick_of(
                store.ticks_view()[tick_key_bytes(*pool_key, tick_indexes@[i])],
            ),
{
    let mut liquidity_ticks: Vec<LiquidityTick> = Vec::new();

    if tick_indexes.len() > LIQUIDITY_TICK_LIMIT {
        return Err(ContractError::TickLimitReached);
    }

    let mut i: usize = 0;
    while i < tick_indexes.len()
        invariant
            store.wf(),
            i <= tick_indexes@.len(),
            tick_indexes@.len() <= LIQUIDITY_TICK_LIMIT,
            liquidity_ticks@.len() == i,
            forall|j: int|
                0 <= j < i ==> store.ticks_view().contains_key(
                    #[trigger] tick_key_bytes(*pool_key, tick_indexes@[j]),
                ),
            forall|j: int|
                0 <= j < i ==> #[trigger] liquidity_ticks@[j] == liquidity_tick_of(
                    store.ticks_view()[tick_key_bytes(*pool_key, tick_indexes@[j])],
                ),
        decreases tick_indexes@.len() - i,
    {
        let tick = match get_tick(store, pool_key, tick_indexes[i]) {
            Ok(t) => t,
            Err(e) => {
                assert(!store.ticks_view().contains_key(
                    tick_key_bytes(*pool_key, tick_indexes@[i as int]),
                ));
                return Err(e);
            },
        };
        liquidity_ticks.push(LiquidityTick::from_tick(&tick));
        i = i + 1;
    }

    Ok(liquidity_ticks)
}

/// Whether the tick at an index of a pool is marked initialized.
pub fn is_tick_initialized(store: &State, key: &PoolKey, index: i32) -> (r: Result<
    bool,
    ContractError,
>)
    requires
        store.wf(),
        valid_tick(index as int, key.fee_tier.tick_spacing as int),
    ensures
        r == Ok::<bool, ContractError>(
            tick_initialized(
                store.bitmap_view(),
                *key,
                index as int,
                key.fee_tier.tick_spacing as int,
            ),
        ),
{
    Ok(get_bitmap(store, index, key.fee_tier.tick_spacing, key))
}

/// The number of positions an owner holds.
pub fn get_user_position_amount(store: &State, owner: &String) -> (r: Result<u32, ContractError>)
    requires
        store.wf(),
    ensures
        r == Ok::<u32, ContractError>(position_length(*store, *owner)),
{
    Ok(get_position_length(store, owner))
}

} // verus!

verus! {

/// The most chunks the tickmap query answers with.
pub const MAX_TICKMAP_QUERY_SIZE: usize = 1638;

/// The stored, nonzero chunks of a pool with an index in `[lower, upper]`,
/// each with its index, in index order.
pub open spec fn chunks_in_range(bitmap: Map<Seq<u8>, u64>, pool_key: PoolKey, lower: int, upper: int) -> Seq<
    (u16, u64),
>
    decreases upper + 1 - lower,
{
    if upper < lower {
        Seq::empty()
    } else {
        let rest = chunks_in_range(bitmap, pool_key, lower, upper - 1);
        let k = bitmap_key_bytes(upper as u16, pool_key);
        if bitmap.contains_key(k) && bitmap[k] != 0 {
            rest.push((upper as u16, bitmap[k]))
        } else {
            rest
        }
    }
}

/// A listing cut short once it reaches `max_size` items (a zero `max_size`
/// never does).
pub open spec fn capped<A>(s: Seq<A>, max_size: int) -> Seq<A> {
    if max_size > 0 && s.len() > max_size {
        s.take(max_size)
    } else {
        s
    }
}

/// The chunks of a shorter range start the chunks of a longer one.
pub proof fn lemma_chunks_in_range_prefix(
    bitmap: Map<Seq<u8>, u64>,
    pool_key: PoolKey,
    lower: int,
    mid: int,
    upper: int,
)
    requires
        lower - 1 <= mid <= upper,
    ensures
        chunks_in_range(bitmap, pool_key, lower, mid).len() <= chunks_in_range(
            bitmap,
            pool_key,
            lower,
            upper,
        ).len(),
        chunks_in_range(bitmap, pool_key, lower, mid) =~= chunks_in_range(
            bitmap,
            pool_key,
            lower,
            upper,
        ).take(chunks_in_range(bitmap, pool_key, lower, mid).len() as int),
    decreases upper - mid,
{
    if mid < upper {
        lemma_chunks_in_range_prefix(bitmap, pool_key, lower, mid, upper - 1);
    }
}

/// The stored, nonzero chunks of a pool from `lower_chunk` to `upper_chunk`
/// (both included), in index order, stopping once `max_size` are listed.
pub fn tickmap_slice(
    store: &State,
    lower_chunk: u16,
    upper_chunk: u16,
    pool_key: &PoolKey,
    max_size: usize,
) -> (r: Vec<(u16, u64)>)
    requires
        store.wf(),
    ensures
        r@ == capped(
            chunks_in_range(store.bitmap_view(), *pool_key, lower_chunk as int, upper_chunk as int),
            max_size as int,
        ),
{
    let ghost bm = store.bitmap_view();
    let ghost all = chunks_in_range(bm, *pool_key, lower_chunk as int, upper_chunk as int);
    let mut tickmaps: Vec<(u16, u64)> = Vec::new();
    let mut chunk_index: u32 = lower_chunk as u32;
    while chunk_index <= upper_chunk as u32
        invariant
            store.wf(),
            bm == store.bitmap_view(),
            all == chunks_in_range(bm, *pool_key, lower_chunk as int, upper_chunk as int),
            lower_chunk <= chunk_index <= upper_chunk + 1 || (upper_chunk < lower_chunk
                && chunk_index == lower_chunk),
            tickmaps@ == chunks_in_range(bm, *pool_key, lower_chunk as int, chunk_index - 1),
            max_size > 0 ==> tickmaps@.len() < max_size,
        decreases upper_chunk + 1 - chunk_index,
    {
        let c = chunk_index as u16;
        match get_bitmap_item(store, c, pool_key) {
            Ok(chunk) => {
                if chunk != 0 {
                    tickmaps.push((c, chunk));
                    if tickmaps.len() == max_size {
                        proof {
                            lemma_chunks_in_range_prefix(
                                bm,
                                *pool_key,
                                lower_chunk as int,
                                chunk_index as int,
                                upper_chunk as int,
                            );
                        }
                        return tickmaps;
                    }
                }
            },
            Err(_) => {},
        }
        chunk_index = chunk_index + 1;
    }
    proof {
        if upper_chunk < lower_chunk {
            assert(all =~= Seq::<(u16, u64)>::empty());
        }
    }
    tickmaps
}

/// The stored, nonzero chunks of a pool that hold ticks from
/// `lower_tick_index` to `upper_tick_index`, within the pool's tick range, at
/// most `MAX_TICKMAP_QUERY_SIZE` of them from the lowest; highest first when
/// `x_to_y`.
pub fn get_tickmap(
    store: &State,
    pool_key: &PoolKey,
    lower_tick_index: i32,
    upper_tick_index: i32,
    x_to_y: bool,
) -> (r: Result<Vec<(u16, u64)>, ContractError>)
    requires
        store.wf(),
        valid_tick(lower_tick_index as int, pool_key.fee_tier.tick_spacing as int),
        valid_tick(upper_tick_index as int, pool_key.fee_tier.tick_spacing as int),
    ensures
        ({
            let ts = pool_key.fee_tier.tick_spacing as int;
            let lo = vstd::math::max(
                tick_index(-max_tick_of(ts), ts) / 64,
                tick_index(lower_tick_index as int, ts) / 64,
            );
            let hi = vstd::math::min(
                tick_index(max_tick_of(ts), ts) / 64,
                tick_index(upper_tick_index as int, ts) / 64,
            );
            let listed = capped(
                chunks_in_range(store.bitmap_view(), *pool_key, lo, hi),
                MAX_TICKMAP_QUERY_SIZE as int,
            );
            r is Ok && r.unwrap()@ == if x_to_y {
                listed.reverse()
            } else {
                listed
            }
        }),
{
    let tick_spacing = pool_key.fee_tier.tick_spacing;
    let (start_chunk, _) = tick_to_position(lower_tick_index, tick_spacing);
    let (end_chunk, _) = tick_to_position(upper_tick_index, tick_spacing);

    let min_chunk = get_min_chunk(tick_spacing);
    let max_chunk = get_max_chunk(tick_spacing);
    let min_chunk_index = if min_chunk > start_chunk {
        min_chunk
    } else {
        start_chunk
    };
    let max_chunk_index = if max_chunk < end_chunk {
        max_chunk
    } else {
        end_chunk
    };

    let tickmaps = tickmap_slice(
        store,
        min_chunk_index,
        max_chunk_index,
        pool_key,
        MAX_TICKMAP_QUERY_SIZE,
    );

    if x_to_y {
        let mut reversed: Vec<(u16, u64)> = Vec::new();
        let mut i: usize = tickmaps.len();
        while i > 0
            invariant
                i <= tickmaps@.len(),
                reversed@.len() == tickmaps@.len() - i,
                forall|j: int|
                    0 <= j < reversed@.len() ==> reversed@[j] == tickmaps@[tickmaps@.len() - 1 - j],
            decreases i,
        {
            i = i - 1;
            reversed.push(tickmaps[i]);
        }
        assert(reversed@ =~= tickmaps@.reverse());
        Ok(reversed)
    } else {
        Ok(tickmaps)
    }
}

} // verus!

verus! {

/// The approvals still in force at a block, or all of them when expired
/// ones are asked for too.
pub open spec fn kept_approvals(approvals: Seq<Approval>, block: BlockInfo, include_expired: bool) -> Seq<
    Approval,
>
    decreases approvals.len(),
{
    if approvals.len() == 0 {
        Seq::empty()
    } else {
        let rest = kept_approvals(approvals.drop_last(), block, include_expired);
        if include_expired || !approvals.last().expires.expired_at(block) {
            rest.push(approvals.last())
        } else {
            rest
        }
    }
}

/// Drops the approvals that have expired at a block, unless expired ones are
/// asked for too.
fn retain_approvals(approvals: &Vec<Approval>, block: &BlockInfo, include_expired: bool) -> (r: Vec<
    Approval,
>)
    ensures
        r@ == kept_approvals(approvals@, *block, include_expired),
{
    let mut kept: Vec<Approval> = Vec::new();
    let mut i: usize = 0;
    while i < approvals.len()
        invariant
            i <= approvals@.len(),
            kept@ == kept_approvals(approvals@.subrange(0, i as int), *block, include_expired),
        decreases approvals@.len() - i,
    {
        assert(approvals@.subrange(0, i + 1).drop_last() =~= approvals@.subrange(0, i as int));
        if include_expired || !approvals[i].expires.is_expired(block) {
            kept.push(approvals[i].duplicate());
        }
        i = i + 1;
    }
    assert(approvals@.subrange(0, approvals@.len() as int) =~= approvals@);
    kept
}

/// Where a position token lives: its owner's bytes and its index, if the
/// token is known.
pub open spec fn token_location(store: State, token_id: u64) -> Option<(Seq<u8>, u32)> {
    let k = token_key_bytes(token_id);
    if store.position_keys_view().contains_key(k) {
        Some(store.position_keys_view()[k])
    } else {
        None
    }
}

/// The storage key of the position of a token, from where it lives.
pub open spec fn located_position_key(location: (Seq<u8>, u32)) -> Seq<u8> {
    location.0 + u32_be(location.1)
}

/// Reads where a position token lives; fails when the token is unknown.
fn load_token_location(store: &State, token_id: u64) -> (r: Result<(Vec<u8>, u32), ContractError>)
    requires
        store.wf(),
    ensures
        token_location(*store, token_id) is None ==> r == Err::<(Vec<u8>, u32), ContractError>(
            ContractError::NotFound,
        ),
        token_location(*store, token_id) matches Some(loc) ==> r is Ok && r.unwrap().0@ == loc.0
            && r.unwrap().1 == loc.1,
{
    match store.token_location(token_id) {
        Some((owner_raw, index)) => Ok((owner_raw, index)),
        None => Err(ContractError::NotFound),
    }
}

/// The data of a position token: its position. Fails when the token or its
/// position is unknown.
pub fn query_nft_info(store: &State, token_id: u64) -> (r: Result<NftInfoResponse, ContractError>)
    requires
        store.wf(),
    ensures
        token_location(*store, token_id) is None ==> r == Err::<NftInfoResponse, ContractError>(
            ContractError::NotFound,
        ),
        token_location(*store, token_id) matches Some(loc) ==> {
            let k = located_position_key(loc);
            &&& !store.positions_view().contains_key(k) ==> r == Err::<
                NftInfoResponse,
                ContractError,
            >(ContractError::NotFound)
            &&& store.positions_view().contains_key(k) ==> r is Ok
                && r.unwrap().extension.equiv(store.positions_view()[k])
        },
{
    let (owner_raw, index) = match load_token_location(store, token_id) {
        Ok(v) => v,
        Err(e) => {
            return Err(e);
        },
    };
    let mut position_key = owner_raw;
    push_u32_be(&mut position_key, index);
    match get_position_by_key(store, position_key.as_slice()) {
        Ok(pos) => Ok(NftInfoResponse { extension: pos }),
        Err(e) => Err(e),
    }
}

/// What the owner query answers for a located token, when its owner's bytes
/// are text and its position is stored: the owner and the approvals kept.
pub open spec fn owner_of_answer(
    store: State,
    block: BlockInfo,
    loc: (Seq<u8>, u32),
    include_expired: bool,
    owner: String,
    approvals: Seq<Approval>,
) -> bool {
    &&& owner@ == vstd::utf8::decode_utf8(loc.0)
    &&& approvals == kept_approvals(
        store.positions_view()[located_position_key(loc)].approvals@,
        block,
        include_expired,
    )
}

/// Reads the owner and the position of a token, with the approvals that are
/// kept at `block`.
fn load_owned_position(store: &State, block: &BlockInfo, token_id: u64, include_expired: bool) -> (r:
    Result<(String, Position), ContractError>)
    requires
        store.wf(),
    ensures
        token_location(*store, token_id) is None ==> r == Err::<(String, Position), ContractError>(
            ContractError::NotFound,
        ),
        token_location(*store, token_id) matches Some(loc) ==> {
            let k = located_position_key(loc);
            &&& !vstd::utf8::valid_utf8(loc.0) ==> r == Err::<(String, Position), ContractError>(
                ContractError::FromUtf8,
            )
            &&& vstd::utf8::valid_utf8(loc.0) && !store.positions_view().contains_key(k) ==> r
                == Err::<(String, Position), ContractError>(ContractError::NotFound)
            &&& vstd::utf8::valid_utf8(loc.0) && store.positions_view().contains_key(k) ==> {
                &&& r is Ok
                &&& owner_of_answer(
                    *store,
                    *block,
                    loc,
                    include_expired,
                    r.unwrap().0,
                    r.unwrap().1.approvals@,
                )
                &&& r.unwrap().1.equiv(
                    Position { approvals: r.unwrap().1.approvals, ..store.positions_view()[k] },
                )
            }
        },
{
    let (owner_raw, index) = match load_token_location(store, token_id) {
        Ok(v) => v,
        Err(e) => {
            return Err(e);
        },
    };
    let ghost raw = owner_raw@;
    let owner = match string_from_utf8(owner_raw) {
        Some(s) => s,
        None => {
            return Err(ContractError::FromUtf8);
        },
    };
    proof {
        vstd::utf8::decode_utf8_encode_utf8(raw);
    }
    let mut pos = match get_position(store, &owner, index) {
        Ok(p) => p,
        Err(e) => {
            return Err(e);
        },
    };
    pos.approvals = retain_approvals(&pos.approvals, block, include_expired);
    Ok((owner, pos))
}

/// The owner of a position token and the approvals in force at `block` (all
/// of them when expired ones are asked for too). Fails when the token or its
/// position is unknown, or the stored owner is not text.
pub fn query_owner_of(store: &State, block: &BlockInfo, token_id: u64, include_expired: bool) -> (r:
    Result<OwnerOfResponse, ContractError>)
    requires
        store.wf(),
    ensures
        token_location(*store, token_id) is None ==> r == Err::<OwnerOfResponse, ContractError>(
            ContractError::NotFound,
        ),
        token_location(*store, token_id) matches Some(loc) ==> {
            let k = located_position_key(loc);
            &&& !vstd::utf8::valid_utf8(loc.0) ==> r == Err::<OwnerOfResponse, ContractError>(
                ContractError::FromUtf8,
            )
            &&& vstd::utf8::valid_utf8(loc.0) && !store.positions_view().contains_key(k) ==> r
                == Err::<OwnerOfResponse, ContractError>(ContractError::NotFound)
            &&& vstd::utf8::valid_utf8(loc.0) && store.positions_view().contains_key(k) ==> r is Ok
                && owner_of_answer(
                *store,
                *block,
                loc,
                include_expired,
                r.unwrap().owner,
                r.unwrap().approvals@,
            )
        },
{
    match load_owned_position(store, block, token_id, include_expired) {
        Ok((owner, pos)) => Ok(OwnerOfResponse { owner, approvals: pos.approvals }),
        Err(e) => Err(e),
    }
}

/// Everything about a position token: its owner and the approvals in force
/// at `block` (all of them when expired ones are asked for too), and its
/// position with those approvals. Fails as the owner query does.
pub fn query_all_nft_info(
    store: &State,
    block: &BlockInfo,
    token_id: u64,
    include_expired: bool,
) -> (r: Result<AllNftInfoResponse, ContractError>)
    requires
        store.wf(),
    ensures
        token_location(*store, token_id) is None ==> r == Err::<AllNftInfoResponse, ContractError>(
            ContractError::NotFound,
        ),
        token_location(*store, token_id) matches Some(loc) ==> {
            let k = located_position_key(loc);
            &&& !vstd::utf8::valid_utf8(loc.0) ==> r == Err::<AllNftInfoResponse, ContractError>(
                ContractError::FromUtf8,
            )
            &&& vstd::utf8::valid_utf8(loc.0) && !store.positions_view().contains_key(k) ==> r
                == Err::<AllNftInfoResponse, ContractError>(ContractError::NotFound)
            &&& vstd::utf8::valid_utf8(loc.0) && store.positions_view().contains_key(k) ==> {
                let a = r.unwrap();
                &&& r is Ok
                &&& owner_of_answer(
                    *store,
                    *block,
                    loc,
                    include_expired,
                    a.access.owner,
                    a.access.approvals@,
                )
                &&& a.info.extension.approvals@ == a.access.approvals@
                &&& a.info.extension.equiv(
                    Position { approvals: a.info.extension.approvals, ..store.positions_view()[k] },
                )
            }
        },
{
    match load_owned_position(store, block, token_id, include_expired) {
        Ok((owner, pos)) => {
            let approvals = copy_approvals(&pos.approvals);
            Ok(
                AllNftInfoResponse {
                    access: OwnerOfResponse { owner, approvals },
                    info: NftInfoResponse { extension: pos },
                },
            )
        },
        Err(e) => Err(e),
    }
}

/// The number of position tokens.
pub fn query_num_tokens(store: &State) -> (r: Result<NumTokensResponse, ContractError>)
    ensures
        r == Ok::<NumTokensResponse, ContractError>(
            NumTokensResponse { count: stored_or_zero(store.token_count_view()) },
        ),
{
    match num_tokens(store) {
        Ok(count) => Ok(NumTokensResponse { count }),
        Err(e) => Err(e),
    }
}

/// The token ids of an owner's positions from index `start_after` (default
/// 0, included), at most `limit` of them (default `MAX_LIMIT`), in index
/// order. Fails when one of those positions is not stored.
pub fn query_tokens(store: &State, owner: &String, start_after: Option<u32>, limit: Option<u32>) -> (r:
    Result<TokensResponse, ContractError>)
    requires
        store.wf(),
        listing_in_bounds(limit, start_after),
    ensures
        ({
            let from = listing_start(start_after);
            let n = vstd::math::max(0, listing_end(*store, *owner, limit, start_after) - from);
            let all_stored = forall|i: int|
                0 <= i < n ==> store.positions_view().contains_key(
                    #[trigger] position_key_bytes(*owner, (from + i) as u32),
                );
            &&& !all_stored ==> r == Err::<TokensResponse, ContractError>(ContractError::NotFound)
            &&& all_stored ==> r is Ok && r.unwrap().tokens@.len() == n && forall|i: int|
                0 <= i < n ==> #[trigger] r.unwrap().tokens@[i] == store.positions_view()[position_key_bytes(
                    *owner,
                    (from + i) as u32,
                )].token_id
        }),
        r is Ok ==> r.unwrap().tokens@.len() == vstd::math::max(
            0,
            vstd::math::min(
                position_length(*store, *owner) as int,
                listing_start(start_after) + match limit {
                    Some(l) => l as int,
                    None => MAX_LIMIT as int,
                },
            ) - listing_start(start_after),
        ),
{
    let keys = get_all_position_keys(store, owner, limit, start_after);
    let ghost from = listing_start(start_after);
    let mut tokens: Vec<u64> = Vec::new();
    let mut i: usize = 0;
    while i < keys.len()
        invariant
            store.wf(),
            i <= keys@.len(),
            from == listing_start(start_after),
            keys@.len() == vstd::math::max(0, listing_end(*store, *owner, limit, start_after) - from),
            tokens@.len() == i,
            forall|j: int|
                0 <= j < keys@.len() ==> #[trigger] keys@[j]@ == position_key_bytes(
                    *owner,
                    (from + j) as u32,
                ),
            forall|j: int|
                0 <= j < i ==> store.positions_view().contains_key(
                    #[trigger] position_key_bytes(*owner, (from + j) as u32),
                ),
            forall|j: int|
                0 <= j < i ==> #[trigger] tokens@[j] == store.positions_view()[position_key_bytes(
                    *owner,
                    (from + j) as u32,
                )].token_id,
        decreases keys@.len() - i,
    {
        assert(keys@[i as int]@ == position_key_bytes(*owner, (from + i) as u32));
        match get_position_by_key(store, keys[i].as_slice()) {
            Ok(pos) => {
                tokens.push(pos.token_id);
            },
            Err(e) => {
                assert(!store.positions_view().contains_key(
                    position_key_bytes(*owner, (from + i) as u32),
                ));
                return Err(e);
            },
        }
        i = i + 1;
    }
    Ok(TokensResponse { tokens })
}

} // verus!

verus! {

fn cap_limit(limit: Option<u32>) -> (r: usize)
    ensures
        r == listing_limit(limit),
{
    let l = match limit {
        Some(l) => l,
        None => MAX_LIMIT,
    };
    if l < MAX_LIMIT {
        l as usize
    } else {
        MAX_LIMIT as usize
    }
}

/// The big-endian bytes of an optional token id.
pub open spec fn token_start(start_after: Option<u64>) -> Option<Seq<u8>> {
    match start_after {
        Some(t) => Some(u64_be(t)),
        None => None,
    }
}

/// Whether a listing of token ids lists, in increasing order, the first
/// known tokens after `start_after`: all of them, or the first `limit` ones.
pub open spec fn first_tokens_after(store: State, start_after: Option<u64>, limit: nat, tokens: Seq<u64>) -> bool {
    &&& tokens.len() <= limit
    &&& forall|i: int, j: int| 0 <= i < j < tokens.len() ==> tokens[i] < tokens[j]
    &&& forall|i: int|
        0 <= i < tokens.len() ==> store.position_keys_view().contains_key(
            token_key_bytes(#[trigger] tokens[i]),
        ) && (start_after matches Some(s) ==> s < tokens[i])
    &&& forall|t: u64|
        #![trigger store.position_keys_view().contains_key(token_key_bytes(t))]
        store.position_keys_view().contains_key(token_key_bytes(t)) && (start_after matches Some(
            s,
        ) ==> s < t) && !tokens.contains(t) ==> tokens.len() == limit && (tokens.len() == 0
            || tokens.last() < t)
}

/// The byte-order listing of token keys is the numeric listing of the ids.
pub proof fn lemma_token_listing_numeric(
    store: State,
    start_after: Option<u64>,
    limit: nat,
    tokens: Seq<u64>,
)
    requires
        store.wf(),
        first_keys_past(
            store.position_keys_view(),
            token_start(start_after),
            limit,
            tokens.map_values(|t: u64| u64_be(t)),
        ),
    ensures
        first_tokens_after(store, start_after, limit, tokens),
{
    let keys = tokens.map_values(|t: u64| u64_be(t));
    assert forall|i: int, j: int| 0 <= i < j < tokens.len() implies tokens[i] < tokens[j] by {
        assert(keys[i] == u64_be(tokens[i]) && keys[j] == u64_be(tokens[j]));
        assert(bytes_lt(keys[i], keys[j]));
        lemma_u64_be_order(tokens[i], tokens[j]);
    }
    assert forall|i: int| 0 <= i < tokens.len() implies store.position_keys_view().contains_key(
        token_key_bytes(#[trigger] tokens[i]),
    ) && (start_after matches Some(s) ==> s < tokens[i]) by {
        assert(keys[i] == u64_be(tokens[i]));
        if let Some(s) = start_after {
            lemma_u64_be_order(s, tokens[i]);
        }
    }
    assert forall|t: u64|
        #![trigger store.position_keys_view().contains_key(token_key_bytes(t))]
        store.position_keys_view().contains_key(token_key_bytes(t)) && (start_after matches Some(
            s,
        ) ==> s < t) && !tokens.contains(t) implies tokens.len() == limit && (tokens.len() == 0
        || tokens.last() < t) by {
        let k = u64_be(t);
        if let Some(s) = start_after {
            lemma_u64_be_order(s, t);
        }
        if keys.contains(k) {
            let i = choose|i: int| 0 <= i < keys.len() && keys[i] == k;
            lemma_u64_be_value(t);
            lemma_u64_be_value(tokens[i]);
            assert(tokens[i] == t);
        }
        if tokens.len() > 0 {
            assert(keys.last() == u64_be(tokens.last()));
            lemma_u64_be_order(tokens.last(), t);
        }
    }
}

/// The ids of position tokens after `start_after` (from the first when there
/// is none), in increasing order, at most `limit` of them (at most, and by
/// default, `MAX_LIMIT`).
pub fn query_all_tokens(store: &State, start_after: Option<u64>, limit: Option<u32>) -> (r: Result<
    TokensResponse,
    ContractError,
>)
    requires
        store.wf(),
    ensures
        r is Ok,
        first_keys_past(
            store.position_keys_view(),
            token_start(start_after),
            listing_limit(limit),
            r.unwrap().tokens@.map_values(|t: u64| u64_be(t)),
        ),
        first_tokens_after(*store, start_after, listing_limit(limit), r.unwrap().tokens@),
{
    let lim = cap_limit(limit);
    let start = match start_after {
        Some(t) => {
            let mut k: Vec<u8> = Vec::new();
            push_u64_be(&mut k, t);
            assert(k@ =~= u64_be(t));
            Some(k)
        },
        None => None,
    };
    let keys = store.token_keys_past(start, lim);
    let mut tokens: Vec<u64> = Vec::new();
    let mut i: usize = 0;
    while i < keys.len()
        invariant
            i <= keys@.len(),
            forall|j: int| 0 <= j < keys@.len() ==> (#[trigger] keys@[j])@.len() == 8,
            tokens@.len() == i,
            forall|j: int| 0 <= j < i ==> u64_be(#[trigger] tokens@[j]) == keys@[j]@,
        decreases keys@.len() - i,
    {
        tokens.push(u64_from_be(keys[i].as_slice()));
        i = i + 1;
    }
    assert(tokens@.map_values(|t: u64| u64_be(t)) =~= key_views(keys@));
    proof {
        lemma_token_listing_numeric(*store, start_after, listing_limit(limit), tokens@);
    }
    Ok(TokensResponse { tokens })
}

/// The stored positions past the storage key `start_after` (from the first
/// when there is none), in increasing byte order of their keys, at most
/// `limit` of them (at most, and by default, `MAX_LIMIT`).
pub fn query_all_positions(store: &State, limit: Option<u32>, start_after: Option<Vec<u8>>) -> (r:
    Result<Vec<Position>, ContractError>)
    requires
        store.wf(),
    ensures
        r is Ok,
        exists|keys: Seq<Seq<u8>>|
            {
                &&& first_keys_past(
                    store.positions_view(),
                    opt_view(start_after),
                    listing_limit(limit),
                    keys,
                )
                &&& r.unwrap()@.len() == keys.len()
                &&& forall|i: int|
                    0 <= i < keys.len() ==> (#[trigger] r.unwrap()@[i]).equiv(
                        store.positions_view()[keys[i]],
                    )
            },
{
    let lim = cap_limit(limit);
    let keys = store.position_keys_past(start_after, lim);
    let ghost kv = key_views(keys@);
    let mut positions: Vec<Position> = Vec::new();
    let mut i: usize = 0;
    while i < keys.len()
        invariant
            store.wf(),
            i <= keys@.len(),
            kv == key_views(keys@),
            forall|j: int| 0 <= j < keys@.len() ==> store.positions_view().contains_key(kv[j]),
            positions@.len() == i,
            forall|j: int|
                0 <= j < i ==> (#[trigger] positions@[j]).equiv(store.positions_view()[kv[j]]),
        decreases keys@.len() - i,
    {
        assert(kv[i as int] == keys@[i as int]@);
        let pos = match get_position_by_key(store, keys[i].as_slice()) {
            Ok(p) => p,
            Err(e) => {
                return Err(e);
            },
        };
        positions.push(pos);
        i = i + 1;
    }
    assert(first_keys_past(store.positions_view(), opt_view(start_after), listing_limit(limit), kv));
    Ok(positions)
}

} // verus!

verus! {

proof fn lemma_position_ticks_from_bound(store: State, owner: String, i: int, len: int, acc: Seq<PositionTick>)
    requires
        acc.len() < POSITION_TICK_LIMIT,
    ensures
        position_ticks_from(store, owner, i, len, acc).len() <= POSITION_TICK_LIMIT + 1,
    decreases len - i,
{
    if i < len {
        let next = acc + ticks_of_position(store, owner, i as u32);
        if next.len() < POSITION_TICK_LIMIT {
            lemma_position_ticks_from_bound(store, owner, i + 1, len, next);
        }
    }
}

/// The position-ticks query answers with at most `POSITION_TICK_LIMIT + 1`
/// ticks: it stops after the position that reaches the limit, and a position
/// has two ticks.
pub proof fn lemma_position_ticks_bounded(store: State, owner: String, offset: u32)
    ensures
        position_ticks_from(
            store,
            owner,
            offset as int,
            position_length(store, owner) as int,
            Seq::empty(),
        ).len() <= POSITION_TICK_LIMIT + 1,
{
    lemma_position_ticks_from_bound(
        store,
        owner,
        offset as int,
        position_length(store, owner) as int,
        Seq::empty(),
    );
}

/// The chunks of a range come in increasing index order, each inside the range.
pub proof fn lemma_chunks_in_range_ordered(
    bitmap: Map<Seq<u8>, u64>,
    pool_key: PoolKey,
    lower: int,
    upper: int,
)
    requires
        0 <= lower,
        upper <= u16::MAX,
    ensures
        forall|i: int, j: int|
            0 <= i < j < chunks_in_range(bitmap, pool_key, lower, upper).len() ==> (
            #[trigger] chunks_in_range(bitmap, pool_key, lower, upper)[i]).0 < (
            #[trigger] chunks_in_range(bitmap, pool_key, lower, upper)[j]).0,
        forall|i: int|
            0 <= i < chunks_in_range(bitmap, pool_key, lower, upper).len() ==> lower
                <= (#[trigger] chunks_in_range(bitmap, pool_key, lower, upper)[i]).0 <= upper,
    decreases upper + 1 - lower,
{
    if upper >= lower {
        lemma_chunks_in_range_ordered(bitmap, pool_key, lower, upper - 1);
        let rest = chunks_in_range(bitmap, pool_key, lower, upper - 1);
        let all = chunks_in_range(bitmap, pool_key, lower, upper);
        assert forall|i: int| 0 <= i < all.len() implies lower <= (#[trigger] all[i]).0 <= upper by {
            if i < rest.len() {
                assert(all[i] == rest[i]);
            }
        }
        assert forall|i: int, j: int| 0 <= i < j < all.len() implies (#[trigger] all[i]).0 < (
        #[trigger] all[j]).0 by {
            assert(all[i] == rest[i]);
            if j < rest.len() {
                assert(all[j] == rest[j]);
            }
        }
    }
}

/// The tickmap query answers with at most `MAX_TICKMAP_QUERY_SIZE` chunks,
/// in increasing index order, or decreasing when `x_to_y`.
pub proof fn lemma_tickmap_ordered(
    bitmap: Map<Seq<u8>, u64>,
    pool_key: PoolKey,
    lower: int,
    upper: int,
    x_to_y: bool,
)
    requires
        0 <= lower,
        upper <= u16::MAX,
    ensures
        ({
            let listed = capped(
                chunks_in_range(bitmap, pool_key, lower, upper),
                MAX_TICKMAP_QUERY_SIZE as int,
            );
            let answer = if x_to_y {
                listed.reverse()
            } else {
                listed
            };
            &&& answer.len() <= MAX_TICKMAP_QUERY_SIZE
            &&& forall|i: int, j: int|
                0 <= i < j < answer.len() ==> if x_to_y {
                    answer[i].0 > answer[j].0
                } else {
                    answer[i].0 < answer[j].0
                }
        }),
{
    lemma_chunks_in_range_ordered(bitmap, pool_key, lower, upper);
    let all = chunks_in_range(bitmap, pool_key, lower, upper);
    let listed = capped(all, MAX_TICKMAP_QUERY_SIZE as int);
    assert forall|i: int, j: int| 0 <= i < j < listed.len() implies listed[i].0 < listed[j].0 by {
        assert(listed[i] == all[i] && listed[j] == all[j]);
    }
    if x_to_y {
        let answer = listed.reverse();
        assert forall|i: int, j: int| 0 <= i < j < answer.len() implies answer[i].0 > answer[j].0 by {
            assert(answer[i] == listed[listed.len() - 1 - i]);
            assert(answer[j] == listed[listed.len() - 1 - j]);
        }
    }
}

} // verus!

verus! {

/// The operators of an owner still approved at a block, or all of them when
/// expired ones are asked for too.
pub open spec fn kept_operators(ops: Map<Seq<u8>, Expiration>, block: BlockInfo, include_expired: bool) -> Map<
    Seq<u8>,
    Expiration,
> {
    Map::new(
        |k: Seq<u8>| ops.contains_key(k) && (include_expired || !ops[k].expired_at(block)),
        |k: Seq<u8>| ops[k],
    )
}

/// The bytes of an optional name.
pub open spec fn name_start(start_after: Option<String>) -> Option<Seq<u8>> {
    match start_after {
        Some(s) => Some(utf8(s)),
        None => None,
    }
}

/// The operators an owner approved for all its positions, in byte order of
/// their names, after `start_after` (from the first when there is none), at
/// most `limit` of them (at most, and by default, `MAX_LIMIT`); those expired
/// at `block` are left out unless expired ones are asked for too.
pub fn query_all_approvals(
    store: &State,
    block: &BlockInfo,
    owner: &String,
    include_expired: bool,
    start_after: Option<String>,
    limit: Option<u32>,
) -> (r: Result<ApprovedForAllResponse, ContractError>)
    requires
        store.wf(),
    ensures
        r is Ok,
        exists|keys: Seq<Seq<u8>>|
            #[trigger] first_keys_past(
                kept_operators(owner_operators(*store, *owner), *block, include_expired),
                name_start(start_after),
                listing_limit(limit),
                keys,
            ) && r.unwrap().operators@.len() == keys.len() && forall|i: int|
                0 <= i < keys.len() ==> (#[trigger] r.unwrap().operators@[i]).spender@
                    == vstd::utf8::decode_utf8(keys[i]) && r.unwrap().operators@[i].expires
                    == owner_operators(*store, *owner)[keys[i]],
{
    let lim = cap_limit(limit);
    let ghost ops = owner_operators(*store, *owner);
    let ghost kept = kept_operators(ops, *block, include_expired);
    let ghost st = name_start(start_after);
    let mut cursor: Option<Vec<u8>> = match start_after {
        Some(s) => Some(string_bytes(&s)),
        None => None,
    };
    let mut approvals: Vec<Approval> = Vec::new();
    let ghost mut keys: Seq<Seq<u8>> = Seq::empty();
    loop
        invariant
            store.wf(),
            ops == owner_operators(*store, *owner),
            kept == kept_operators(ops, *block, include_expired),
            keys.len() == approvals@.len(),
            keys.len() <= lim,
            lim == listing_limit(limit),
            forall|i: int, j: int| 0 <= i < j < keys.len() ==> bytes_lt(keys[i], keys[j]),
            forall|i: int| 0 <= i < keys.len() ==> kept.contains_key(keys[i]) && past(st, keys[i]),
            forall|i: int|
                0 <= i < keys.len() ==> (#[trigger] approvals@[i]).spender@
                    == vstd::utf8::decode_utf8(keys[i]) && approvals@[i].expires == ops[keys[i]],
            opt_view(cursor) == st || (opt_view(cursor) matches Some(c) && past(st, c)),
            forall|i: int| 0 <= i < keys.len() ==> !past(opt_view(cursor), #[trigger] keys[i]),
            forall|o: Seq<u8>|
                kept.contains_key(o) && past(st, o) && !past(opt_view(cursor), o) ==> keys.contains(
                    o,
                ),
        ensures
            first_keys_past(kept, st, lim as nat, keys),
            keys.len() == approvals@.len(),
            forall|i: int|
                0 <= i < keys.len() ==> (#[trigger] approvals@[i]).spender@
                    == vstd::utf8::decode_utf8(keys[i]) && approvals@[i].expires == ops[keys[i]],
        decreases store.operators_past(*owner, opt_view(cursor)),
    {
        let ghost c = opt_view(cursor);
        if approvals.len() >= lim {
            proof {
                assert forall|o: Seq<u8>|
                    kept.contains_key(o) && past(st, o) && !keys.contains(o) implies keys.len()
                    == lim && (keys.len() == 0 || bytes_lt(keys.last(), o)) by {
                    assert(past(c, o));
                    if keys.len() > 0 {
                        let last = keys.last();
                        assert(!past(c, last));
                        let cc = c.unwrap();
                        lemma_bytes_lt_total(last, cc);
                        if bytes_lt(last, cc) {
                            lemma_bytes_lt_trans(last, cc, o);
                        }
                    }
                }
            }
            break;
        }
        let cur = match &cursor {
            Some(v) => Some(copy_bytes(v.as_slice())),
            None => None,
        };
        match store.next_operator(owner, cur) {
            None => {
                proof {
                    assert forall|o: Seq<u8>|
                        kept.contains_key(o) && past(st, o) && !keys.contains(o) implies keys.len()
                        == lim && (keys.len() == 0 || bytes_lt(keys.last(), o)) by {
                        assert(ops.contains_key(o));
                    }
                }
                break;
            },
            Some((k, e)) => {
                let ghost kv = k@;
                proof {
                    store.lemma_operators_past_decreases(*owner, c, kv);
                    // every listed key comes before the new one
                    assert forall|i: int| 0 <= i < keys.len() implies bytes_lt(keys[i], kv) by {
                        let ki = keys[i];
                        assert(!past(c, ki));
                        match c {
                            Some(cc) => {
                                lemma_bytes_lt_total(ki, cc);
                                if bytes_lt(ki, cc) {
                                    lemma_bytes_lt_trans(ki, cc, kv);
                                }
                            },
                            None => {},
                        }
                    }
                    match st {
                        Some(s0) => {
                            match c {
                                Some(cc) => {
                                    if cc != s0 {
                                        lemma_bytes_lt_trans(s0, cc, kv);
                                    }
                                },
                                None => {},
                            }
                        },
                        None => {},
                    }
                }
                let ghost old_keys = keys;
                let ghost pushed = include_expired || !e.expired_at(*block);
                if include_expired || !e.is_expired(block) {
                    let spender = match string_from_utf8(copy_bytes(k.as_slice())) {
                        Some(s) => s,
                        None => {
                            return Err(ContractError::FromUtf8);
                        },
                    };
                    approvals.push(Approval { spender, expires: e });
                    proof {
                        keys = keys.push(kv);
                    }
                }
                proof {
                    let nk = keys;
                    assert forall|i: int| 0 <= i < nk.len() implies !past(Some(kv), #[trigger] nk[i]) by {
                        if nk[i] == kv {
                            lemma_bytes_lt_irreflexive(kv);
                        } else {
                            assert(bytes_lt(nk[i], kv));
                            lemma_bytes_lt_total(nk[i], kv);
                        }
                    }
                    assert forall|o: Seq<u8>|
                        kept.contains_key(o) && past(st, o) && !past(Some(kv), o) implies nk.contains(o) by {
                        if past(c, o) {
                            assert(!bytes_lt(o, kv));
                            lemma_bytes_lt_total(o, kv);
                            assert(o == kv);
                            assert(pushed);
                            assert(nk == old_keys.push(kv));
                            assert(nk[nk.len() - 1] == kv);
                        } else {
                            assert(old_keys.contains(o));
                            let i = choose|i: int| 0 <= i < old_keys.len() && old_keys[i] == o;
                            assert(nk[i] == o);
                        }
                    }
                }
                cursor = Some(k);
            },
        }
    }
    Ok(ApprovedForAllResponse { operators: approvals })
}

} // verus!

verus! {

/// The positions of an owner from `offset` (default 0), at most `limit` of
/// them (default `MAX_LIMIT`), in index order.
pub fn get_positions(store: &State, owner: &String, limit: Option<u32>, offset: Option<u32>) -> (r:
    Result<Vec<Position>, ContractError>)
    requires
        store.wf(),
        listing_in_bounds(limit, offset),
    ensures
        r is Ok,
        ({
            let expect = positions_in_range(
                store.positions_view(),
                *owner,
                listing_start(offset),
                listing_end(*store, *owner, limit, offset),
            );
            &&& r.unwrap()@.len() == expect.len()
            &&& forall|i: int| 0 <= i < expect.len() ==> r.unwrap()@[i].equiv(expect[i])
        }),
        owner_positions_dense(store.positions_view(), store.positions_length_view(), *owner) ==> {
            let from = listing_start(offset);
            let count = position_length(*store, *owner) as int;
            let n = vstd::math::max(
                0,
                vstd::math::min(
                    count,
                    from + match limit {
                        Some(l) => l as int,
                        None => MAX_LIMIT as int,
                    },
                ) - from,
            );
            &&& r.unwrap()@.len() == n
            &&& forall|i: int|
                0 <= i < n ==> #[trigger] r.unwrap()@[i].equiv(
                    store.positions_view()[position_key_bytes(*owner, (from + i) as u32)],
                )
        },
{
    get_all_positions(store, owner, limit, offset)
}

} // verus!

verus! {

/// The initialized ticks of a pool from `lower` to `upper`, both included,
/// that are multiples of the spacing.
pub open spec fn initialized_ticks(
    bitmap: Map<Seq<u8>, u64>,
    pool_key: PoolKey,
    lower: int,
    upper: int,
    tick_spacing: int,
) -> Set<int> {
    Set::new(
        |t: int|
            lower <= t <= upper && t % tick_spacing == 0 && tick_initialized(
                bitmap,
                pool_key,
                t,
                tick_spacing,
            ),
    )
}

proof fn lemma_count_set_is_tick_count(
    bitmap: Map<Seq<u8>, u64>,
    pool_key: PoolKey,
    lower: int,
    upper: int,
    ts: int,
)
    requires
        valid_tick(lower, ts),
        valid_tick(upper, ts),
        lower <= upper,
    ensures
        initialized_ticks(bitmap, pool_key, lower, upper, ts).finite(),
        count_set(bitmap, pool_key, tick_index(lower, ts), tick_index(upper, ts)) == initialized_ticks(
            bitmap,
            pool_key,
            lower,
            upper,
            ts,
        ).len(),
    decreases upper - lower,
{
    let s = initialized_ticks(bitmap, pool_key, lower, upper, ts);
    lemma_index_tick_roundtrip(lower, ts);
    lemma_index_tick_roundtrip(upper, ts);
    let q = upper / ts;
    let m = (MAX_TICK as int) / ts;
    if upper == lower {
        assert forall|t: int| s.contains(t) implies t == upper by {}
        let i = tick_index(upper, ts);
        assert(count_set(bitmap, pool_key, i, i - 1) == 0);
        assert(count_set(bitmap, pool_key, i, i) == if index_set(bitmap, pool_key, i) {
            1nat
        } else {
            0nat
        });
        if tick_initialized(bitmap, pool_key, upper, ts) {
            assert(s =~= Set::<int>::empty().insert(upper));
            assert(Set::<int>::empty().insert(upper).len() == 1);
        } else {
            assert(s =~= Set::<int>::empty());
        }
    } else {
        let prev = upper - ts;
        assert(prev == ts * (q - 1)) by (nonlinear_arith)
            requires
                prev == upper - ts,
                upper == ts * q,
        ;
        vstd::arithmetic::div_mod::lemma_mod_multiples_basic(q - 1, ts);
        vstd::arithmetic::div_mod::lemma_div_multiples_vanish(q - 1, ts);
        assert(lower <= prev) by {
            let ql = lower / ts;
            assert(ts * ql < ts * q);
            assert(ql < q) by {
                vstd::arithmetic::mul::lemma_mul_strict_inequality_converse(ql, q, ts);
            }
            assert(ts * ql <= ts * (q - 1)) by {
                vstd::arithmetic::mul::lemma_mul_inequality(ql, q - 1, ts);
            }
        }
        assert(prev == (q - 1) * ts) by (nonlinear_arith)
            requires
                prev == ts * (q - 1),
        ;
        assert(prev % ts == 0);
        assert(-MAX_TICK <= prev <= MAX_TICK);
        assert(valid_tick(prev, ts));
        lemma_index_tick_roundtrip(prev, ts);
        assert(tick_index(prev, ts) == tick_index(upper, ts) - 1);
        lemma_count_set_is_tick_count(bitmap, pool_key, lower, prev, ts);
        let sp = initialized_ticks(bitmap, pool_key, lower, prev, ts);
        assert forall|t: int| s.contains(t) <==> (sp.contains(t) || (t == upper && tick_initialized(
            bitmap,
            pool_key,
            upper,
            ts,
        ))) by {
            if lower <= t <= upper && t % ts == 0 && t > prev {
                vstd::arithmetic::div_mod::lemma_fundamental_div_mod(t, ts);
                let k = t / ts;
                assert(t == ts * k);
                assert(k == q) by {
                    assert(ts * (q - 1) < ts * k);
                    vstd::arithmetic::mul::lemma_mul_strict_inequality_converse(q - 1, k, ts);
                    assert(ts * k <= ts * q);
                    if k > q {
                        vstd::arithmetic::mul::lemma_mul_strict_inequality(q, k, ts);
                    }
                }
            }
        }
        let i = tick_index(upper, ts);
        let il = tick_index(lower, ts);
        lemma_tick_index_monotonic(lower, upper, ts);
        assert(count_set(bitmap, pool_key, il, i) == count_set(bitmap, pool_key, il, i - 1) + if index_set(
            bitmap,
            pool_key,
            i,
        ) {
            1nat
        } else {
            0nat
        });
        if tick_initialized(bitmap, pool_key, upper, ts) {
            assert(s =~= sp.insert(upper));
            assert(!sp.contains(upper));
        } else {
            assert(s =~= sp);
        }
    }
}

/// The liquidity-ticks count, on a range the validation admits that does not
/// run backwards, is the number of initialized ticks of the pool from the
/// lower tick to the upper one, both included.
pub proof fn lemma_liquidity_ticks_amount_counts_ticks(
    bitmap: Map<Seq<u8>, u64>,
    pool_key: PoolKey,
    lower_tick: int,
    upper_tick: int,
)
    requires
        pool_key.fee_tier.tick_spacing >= 1,
        lower_tick % (pool_key.fee_tier.tick_spacing as int) == 0,
        upper_tick % (pool_key.fee_tier.tick_spacing as int) == 0,
        -max_tick_of(pool_key.fee_tier.tick_spacing as int) <= lower_tick <= upper_tick <= max_tick_of(
            pool_key.fee_tier.tick_spacing as int,
        ),
    ensures
        ({
            let ts = pool_key.fee_tier.tick_spacing as int;
            let n = initialized_ticks(bitmap, pool_key, lower_tick, upper_tick, ts);
            &&& n.finite()
            &&& liquidity_ticks_amount(bitmap, pool_key, lower_tick, upper_tick) == Ok::<
                u32,
                ContractError,
            >(n.len() as u32)
        }),
{
    let ts = pool_key.fee_tier.tick_spacing as int;
    vstd::arithmetic::div_mod::lemma_div_is_ordered_by_denominator(MAX_TICK as int, 1, ts);
    assert(max_tick_of(ts) <= MAX_TICK) by {
        vstd::arithmetic::div_mod::lemma_fundamental_div_mod(MAX_TICK as int, ts);
        assert(((MAX_TICK as int) / ts) * ts == ts * ((MAX_TICK as int) / ts)) by (nonlinear_arith);
    }
    lemma_count_set_is_tick_count(bitmap, pool_key, lower_tick, upper_tick, ts);
    lemma_tick_index_monotonic(lower_tick, upper_tick, ts);
}

} // verus!

verus! {

/// An approval is kept by the owner queries exactly when it is one of the
/// position's approvals and, unless expired ones are asked for too, it is
/// still in force at the block: the block is below its height, before its
/// time, or it never expires.
pub proof fn lemma_kept_approvals_in_force(
    approvals: Seq<Approval>,
    block: BlockInfo,
    include_expired: bool,
    a: Approval,
)
    ensures
        kept_approvals(approvals, block, include_expired).contains(a) <==> approvals.contains(a) && (
        include_expired || match a.expires {
            Expiration::AtHeight(h) => block.height < h,
            Expiration::AtTime(t) => block.time < t,
            Expiration::Never => true,
        }),
    decreases approvals.len(),
{
    if approvals.len() > 0 {
        let p = approvals.drop_last();
        lemma_kept_approvals_in_force(p, block, include_expired, a);
        let rest = kept_approvals(p, block, include_expired);
        let last = approvals.last();
        assert(approvals =~= p.push(last));
        if include_expired || !last.expires.expired_at(block) {
            assert(rest.push(last).contains(a) <==> rest.contains(a) || a == last) by {
                if rest.push(last).contains(a) {
                    let i = choose|i: int| 0 <= i < rest.push(last).len() && rest.push(last)[i] == a;
                    if i < rest.len() {
                        assert(rest[i] == a);
                    }
                }
                if rest.contains(a) {
                    let i = choose|i: int| 0 <= i < rest.len() && rest[i] == a;
                    assert(rest.push(last)[i] == a);
                }
                if a == last {
                    assert(rest.push(last)[rest.len() as int] == a);
                }
            }
        }
        assert(approvals.contains(a) <==> p.contains(a) || a == last) by {
            if approvals.contains(a) {
                let i = choose|i: int| 0 <= i < approvals.len() && approvals[i] == a;
                if i < p.len() {
                    assert(p[i] == a);
                }
            }
            if p.contains(a) {
                let i = choose|i: int| 0 <= i < p.len() && p[i] == a;
                assert(approvals[i] == a);
            }
        }
    }
}

/// Once an approval has expired it stays expired: a later block (no lower
/// height, no earlier time) finds it expired too.
pub proof fn lemma_expiry_is_lasting(e: Expiration, earlier: BlockInfo, later: BlockInfo)
    requires
        earlier.height <= later.height,
        earlier.time <= later.time,
        e.expired_at(earlier),
    ensures
        e.expired_at(later),
{
}

/// An approval that expires at a time has expired at every block at or after
/// that time, and at no block before it; one that expires at a height
/// likewise by height; one that never expires never has.
pub proof fn lemma_expiry_by_kind(e: Expiration, block: BlockInfo)
    ensures
        e is AtTime ==> (e.expired_at(block) <==> block.time >= e->AtTime_0),
        e is AtHeight ==> (e.expired_at(block) <==> block.height >= e->AtHeight_0),
        e is Never ==> !e.expired_at(block),
{
}

} // verus!
