//! The fixed-point quantities of the protocol, the fee tier and the pool key,
//! and the big-endian byte encodings that storage keys are made of.

use vstd::prelude::*;

use crate::error::ContractError;
use crate::kv::{bytes_less, bytes_lt, lemma_bytes_lt_total};

verus! {

/// A fraction with 12 decimal places.
#[derive(Clone, Copy, Debug, PartialEq, Eq, Structural, Default)]
pub struct Percentage(pub u64);

/// An amount of tokens (no decimal places).
#[derive(Clone, Copy, Debug, PartialEq, Eq, Structural, Default)]
pub struct TokenAmount(pub u128);

/// Accumulated fee per unit of liquidity, with 28 decimal places.
#[derive(Clone, Copy, Debug, PartialEq, Eq, Structural, Default)]
pub struct FeeGrowth(pub u128);

/// Liquidity, with 6 decimal places.
#[derive(Clone, Copy, Debug, PartialEq, Eq, Structural, Default)]
pub struct Liquidity(pub u128);

/// The square root of a price, with 24 decimal places.
#[derive(Clone, Copy, Debug, PartialEq, Eq, Structural, Default)]
pub struct SqrtPrice(pub u128);

/// The fee of a pool and the spacing of its ticks.
#[derive(Clone, Copy, Debug, PartialEq, Eq, Structural, Default)]
pub struct FeeTier {
    pub fee: Percentage,
    pub tick_spacing: u16,
}

/// Identifies a pool: its two tokens and its fee tier.
#[derive(Clone, Debug, PartialEq, Eq)]
pub struct PoolKey {
    pub token_x: String,
    pub token_y: String,
    pub fee_tier: FeeTier,
}

/// Two big-endian bytes of a `u16`.
pub open spec fn u16_be(x: u16) -> Seq<u8> {
    seq![(x / 0x100) as u8, (x % 0x100) as u8]
}

/// Four big-endian bytes of a `u32`.
pub open spec fn u32_be(x: u32) -> Seq<u8> {
    seq![
        (x / 0x100_0000) as u8,
        (x / 0x1_0000 % 0x100) as u8,
        (x / 0x100 % 0x100) as u8,
        (x % 0x100) as u8,
    ]
}

/// Eight big-endian bytes of a `u64`.
pub open spec fn u64_be(x: u64) -> Seq<u8> {
    u32_be((x / 0x1_0000_0000) as u32) + u32_be((x % 0x1_0000_0000) as u32)
}

/// Four big-endian bytes of an `i32` in two's complement.
pub open spec fn i32_be(x: i32) -> Seq<u8> {
    u32_be(x as u32)
}

/// The UTF-8 bytes of a string.
pub open spec fn utf8(s: String) -> Seq<u8> {
    vstd::utf8::encode_utf8(s@)
}

/// Different numbers have different encodings.
pub proof fn lemma_u32_be_injective(a: u32, b: u32)
    requires
        u32_be(a) == u32_be(b),
    ensures
        a == b,
{
    assert(u32_be(a)[0] == u32_be(b)[0]);
    assert(u32_be(a)[1] == u32_be(b)[1]);
    assert(u32_be(a)[2] == u32_be(b)[2]);
    assert(u32_be(a)[3] == u32_be(b)[3]);
    let (a0, a1, a2, a3) = (a / 0x100_0000u32, a / 0x1_0000u32 % 0x100u32, a / 0x100u32 % 0x100u32, a % 0x100u32);
    let (b0, b1, b2, b3) = (b / 0x100_0000u32, b / 0x1_0000u32 % 0x100u32, b / 0x100u32 % 0x100u32, b % 0x100u32);
    assert(a0 < 0x100 && b0 < 0x100);
    assert(a0 == b0 && a1 == b1 && a2 == b2 && a3 == b3);
    assert(a == b) by (bit_vector)
        requires
            a / 0x100_0000u32 == b / 0x100_0000u32,
            a / 0x1_0000u32 % 0x100u32 == b / 0x1_0000u32 % 0x100u32,
            a / 0x100u32 % 0x100u32 == b / 0x100u32 % 0x100u32,
            a % 0x100u32 == b % 0x100u32,
    ;
}

/// Two keys with the same prefix are equal only when their suffixes are.
pub proof fn lemma_suffix_distinct(prefix: Seq<u8>, a: Seq<u8>, b: Seq<u8>)
    requires
        prefix + a == prefix + b,
    ensures
        a == b,
{
    assert(a =~= (prefix + a).subrange(prefix.len() as int, (prefix + a).len() as int));
    assert(b =~= (prefix + b).subrange(prefix.len() as int, (prefix + b).len() as int));
}

/// Appends the big-endian bytes of a `u16`.
pub fn push_u16_be(v: &mut Vec<u8>, x: u16)
    ensures
        final(v)@ == old(v)@ + u16_be(x),
{
    v.push((x / 0x100) as u8);
    v.push((x % 0x100) as u8);
    assert(final(v)@ =~= old(v)@ + u16_be(x));
}

/// Appends the big-endian bytes of a `u32`.
pub fn push_u32_be(v: &mut Vec<u8>, x: u32)
    ensures
        final(v)@ == old(v)@ + u32_be(x),
{
    v.push((x / 0x100_0000) as u8);
    v.push((x / 0x1_0000 % 0x100) as u8);
    v.push((x / 0x100 % 0x100) as u8);
    v.push((x % 0x100) as u8);
    assert(final(v)@ =~= old(v)@ + u32_be(x));
}

/// The number whose four big-endian bytes these are.
fn u32_from_be(b0: u8, b1: u8, b2: u8, b3: u8) -> (r: u32)
    ensures
        u32_be(r) == seq![b0, b1, b2, b3],
{
    let r: u32 = ((b0 as u32) << 24u32) | ((b1 as u32) << 16u32) | ((b2 as u32) << 8u32) | (b3 as u32);
    assert(r / 0x100_0000 == b0 as u32 && r / 0x1_0000 % 0x100 == b1 as u32 && r / 0x100 % 0x100
        == b2 as u32 && r % 0x100 == b3 as u32) by (bit_vector)
        requires
            r == ((b0 as u32) << 24u32) | ((b1 as u32) << 16u32) | ((b2 as u32) << 8u32) | (
            b3 as u32),
    ;
    assert(u32_be(r) =~= seq![b0, b1, b2, b3]);
    r
}

/// The number whose eight big-endian bytes these are.
pub fn u64_from_be(b: &[u8]) -> (r: u64)
    requires
        b@.len() == 8,
    ensures
        u64_be(r) == b@,
{
    let hi = u32_from_be(b[0], b[1], b[2], b[3]);
    let lo = u32_from_be(b[4], b[5], b[6], b[7]);
    let r: u64 = (hi as u64) * 0x1_0000_0000u64 + (lo as u64);
    assert(r / 0x1_0000_0000 == hi as u64 && r % 0x1_0000_0000 == lo as u64) by (nonlinear_arith)
        requires
            r == (hi as u64) * 0x1_0000_0000u64 + (lo as u64),
            lo < 0x1_0000_0000,
    ;
    assert(u64_be(r) =~= b@);
    r
}

/// Appends the big-endian bytes of a `u64`.
pub fn push_u64_be(v: &mut Vec<u8>, x: u64)
    ensures
        final(v)@ == old(v)@ + u64_be(x),
{
    push_u32_be(v, (x / 0x1_0000_0000) as u32);
    push_u32_be(v, (x % 0x1_0000_0000) as u32);
    assert(final(v)@ =~= old(v)@ + u64_be(x));
}

/// Appends the big-endian two's-complement bytes of an `i32`.
pub fn push_i32_be(v: &mut Vec<u8>, x: i32)
    ensures
        final(v)@ == old(v)@ + i32_be(x),
{
    push_u32_be(v, x as u32);
}

/// Appends a byte slice.
pub fn push_bytes(v: &mut Vec<u8>, b: &[u8])
    ensures
        final(v)@ == old(v)@ + b@,
{
    let mut i: usize = 0;
    while i < b.len()
        invariant
            i <= b@.len(),
            v@ == old(v)@ + b@.subrange(0, i as int),
        decreases b@.len() - i,
    {
        v.push(b[i]);
        i = i + 1;
        assert(v@ =~= old(v)@ + b@.subrange(0, i as int));
    }
    assert(b@.subrange(0, b@.len() as int) =~= b@);
}

/// The UTF-8 bytes of a string, as a vector.
pub fn string_bytes(s: &String) -> (r: Vec<u8>)
    ensures
        r@ == utf8(*s),
{
    let mut v: Vec<u8> = Vec::new();
    push_bytes(&mut v, s.as_str().as_bytes());
    assert(v@ =~= utf8(*s));
    v
}

/// The key of the pool of two different tokens: the one whose name comes
/// first in byte order is `token_x`.
pub open spec fn pool_key_of(token_0: String, token_1: String, fee_tier: FeeTier) -> PoolKey {
    if bytes_lt(utf8(token_0), utf8(token_1)) {
        PoolKey { token_x: token_0, token_y: token_1, fee_tier }
    } else {
        PoolKey { token_x: token_1, token_y: token_0, fee_tier }
    }
}

/// One, as a `Percentage`'s units.
pub const PERCENTAGE_ONE: u64 = 1_000_000_000_000;

impl FeeTier {
    /// A fee tier; fails when the tick spacing is not between 1 and 100 or
    /// the fee is above one.
    pub fn new(fee: Percentage, tick_spacing: u16) -> (r: Result<FeeTier, ContractError>)
        ensures
            tick_spacing == 0 || tick_spacing > 100 ==> r == Err::<FeeTier, ContractError>(
                ContractError::InvalidTickSpacing,
            ),
            1 <= tick_spacing <= 100 && fee.0 > PERCENTAGE_ONE ==> r == Err::<
                FeeTier,
                ContractError,
            >(ContractError::InvalidFee),
            1 <= tick_spacing <= 100 && fee.0 <= PERCENTAGE_ONE ==> r == Ok::<
                FeeTier,
                ContractError,
            >(FeeTier { fee, tick_spacing }),
    {
        if tick_spacing == 0 || tick_spacing > 100 {
            return Err(ContractError::InvalidTickSpacing);
        }
        if fee.0 > PERCENTAGE_ONE {
            return Err(ContractError::InvalidFee);
        }
        Ok(FeeTier { fee, tick_spacing })
    }

    /// The storage key bytes of a fee tier.
    pub open spec fn key_bytes(self) -> Seq<u8> {
        u64_be(self.fee.0) + u16_be(self.tick_spacing)
    }
}

impl PoolKey {
    /// The storage key bytes of a pool: the length of the first token's name,
    /// both token names, then the fee tier.
    pub open spec fn key_bytes(self) -> Seq<u8> {
        u32_be(utf8(self.token_x).len() as u32) + utf8(self.token_x) + utf8(self.token_y)
            + self.fee_tier.key_bytes()
    }

    /// The storage key of a pool.
    pub fn key(&self) -> (r: Vec<u8>)
        ensures
            r@ == self.key_bytes(),
    {
        let x = string_bytes(&self.token_x);
        let mut v: Vec<u8> = Vec::new();
        push_u32_be(&mut v, x.len() as u32);
        push_bytes(&mut v, x.as_slice());
        push_bytes(&mut v, self.token_y.as_str().as_bytes());
        push_u64_be(&mut v, self.fee_tier.fee.0);
        push_u16_be(&mut v, self.fee_tier.tick_spacing);
        assert(v@ =~= self.key_bytes());
        v
    }

    /// The key of the pool of two tokens: the token whose name comes first
    /// in byte order becomes `token_x`. Fails when the tokens are the same.
    pub fn new(token_0: String, token_1: String, fee_tier: FeeTier) -> (r: Result<
        PoolKey,
        ContractError,
    >)
        ensures
            token_0@ == token_1@ ==> r == Err::<PoolKey, ContractError>(
                ContractError::TokensAreSame,
            ),
            token_0@ != token_1@ ==> r == Ok::<PoolKey, ContractError>(
                pool_key_of(token_0, token_1, fee_tier),
            ),
    {
        if token_0 == token_1 {
            return Err(ContractError::TokensAreSame);
        }
        if bytes_less(token_0.as_str().as_bytes(), token_1.as_str().as_bytes()) {
            Ok(PoolKey { token_x: token_0, token_y: token_1, fee_tier })
        } else {
            Ok(PoolKey { token_x: token_1, token_y: token_0, fee_tier })
        }
    }

    /// A copy of this pool key.
    pub fn duplicate(&self) -> (r: PoolKey)
        ensures
            r == *self,
    {
        PoolKey {
            token_x: self.token_x.clone(),
            token_y: self.token_y.clone(),
            fee_tier: self.fee_tier,
        }
    }
}

/// The key of a pool does not depend on the order in which its two tokens
/// are given.
pub proof fn lemma_pool_key_order_free(token_0: String, token_1: String, fee_tier: FeeTier)
    requires
        token_0@ != token_1@,
    ensures
        pool_key_of(token_0, token_1, fee_tier) == pool_key_of(token_1, token_0, fee_tier),
{
    vstd::utf8::encode_utf8_decode_utf8(token_0@);
    vstd::utf8::encode_utf8_decode_utf8(token_1@);
    lemma_bytes_lt_total(utf8(token_0), utf8(token_1));
}

} // verus!

verus! {

/// `256^n`.
pub open spec fn pow256(n: nat) -> nat
    decreases n,
{
    if n == 0 {
        1
    } else {
        (256 * pow256((n - 1) as nat)) as nat
    }
}

/// The number that a byte string spells in big-endian order.
pub open spec fn be_value(s: Seq<u8>) -> nat
    decreases s.len(),
{
    if s.len() == 0 {
        0
    } else {
        (s[0] * pow256((s.len() - 1) as nat) + be_value(s.drop_first())) as nat
    }
}

proof fn lemma_be_value_bound(s: Seq<u8>)
    ensures
        be_value(s) < pow256(s.len()),
    decreases s.len(),
{
    if s.len() > 0 {
        lemma_be_value_bound(s.drop_first());
        let p = pow256((s.len() - 1) as nat);
        assert(s[0] * p + be_value(s.drop_first()) < 256 * p) by (nonlinear_arith)
            requires
                s[0] <= 255,
                be_value(s.drop_first()) < p,
        ;
    }
}

/// For byte strings of one length, byte order is the order of the numbers
/// they spell.
pub proof fn lemma_bytes_lt_is_numeric(a: Seq<u8>, b: Seq<u8>)
    requires
        a.len() == b.len(),
    ensures
        bytes_lt(a, b) <==> be_value(a) < be_value(b),
    decreases a.len(),
{
    if a.len() > 0 {
        let p = pow256((a.len() - 1) as nat);
        lemma_be_value_bound(a.drop_first());
        lemma_be_value_bound(b.drop_first());
        if a[0] == b[0] {
            lemma_bytes_lt_is_numeric(a.drop_first(), b.drop_first());
        } else if a[0] < b[0] {
            assert(a[0] * p + be_value(a.drop_first()) < b[0] * p + be_value(b.drop_first()))
                by (nonlinear_arith)
                requires
                    a[0] < b[0],
                    be_value(a.drop_first()) < p,
            ;
        } else {
            assert(b[0] * p + be_value(b.drop_first()) < a[0] * p + be_value(a.drop_first()))
                by (nonlinear_arith)
                requires
                    b[0] < a[0],
                    be_value(b.drop_first()) < p,
            ;
        }
    }
}

proof fn lemma_be_value_concat(a: Seq<u8>, b: Seq<u8>)
    ensures
        be_value(a + b) == be_value(a) * pow256(b.len()) + be_value(b),
    decreases a.len(),
{
    if a.len() > 0 {
        assert((a + b).drop_first() =~= a.drop_first() + b);
        lemma_be_value_concat(a.drop_first(), b);
        lemma_pow256_add((a.len() - 1) as nat, b.len());
        let p = pow256((a.len() - 1) as nat);
        let q = pow256(b.len());
        assert((((a + b).len() - 1) as nat) == ((a.len() - 1) as nat) + b.len());
        assert(be_value(a + b) == (a + b)[0] * pow256((((a + b).len() - 1) as nat)) + be_value(
            (a + b).drop_first(),
        ));
        assert(be_value(a) == a[0] * p + be_value(a.drop_first()));
        assert(a[0] * (p * q) + (be_value(a.drop_first()) * q + be_value(b)) == (a[0] * p
            + be_value(a.drop_first())) * q + be_value(b)) by (nonlinear_arith);
    } else {
        assert(a + b =~= b);
        assert(be_value(a) == 0);
    }
}

proof fn lemma_pow256_add(m: nat, n: nat)
    ensures
        pow256(m + n) == pow256(m) * pow256(n),
    decreases m,
{
    if m > 0 {
        lemma_pow256_add((m - 1) as nat, n);
        assert(pow256(m) == 256 * pow256((m - 1) as nat));
        assert(pow256(m + n) == 256 * pow256((m - 1 + n) as nat));
        assert(256 * (pow256((m - 1) as nat) * pow256(n)) == (256 * pow256((m - 1) as nat))
            * pow256(n)) by (nonlinear_arith);
    } else {
        assert(pow256(m) == 1);
        assert(m + n == n);
    }
}

proof fn lemma_u32_be_value(x: u32)
    ensures
        be_value(u32_be(x)) == x,
{
    let s = u32_be(x);
    let s1 = s.drop_first();
    let s2 = s1.drop_first();
    let s3 = s2.drop_first();
    assert(s3.drop_first() =~= Seq::<u8>::empty());
    assert(be_value(s3) == s3[0] * pow256(0) + be_value(s3.drop_first()));
    assert(be_value(s2) == s2[0] * pow256(1) + be_value(s3));
    assert(be_value(s1) == s1[0] * pow256(2) + be_value(s2));
    assert(be_value(s) == s[0] * pow256(3) + be_value(s1));
    assert(s[0] == x / 0x100_0000 && s1[0] == x / 0x1_0000 % 0x100 && s2[0] == x / 0x100 % 0x100
        && s3[0] == x % 0x100);
    assert(pow256(0) == 1);
    assert(pow256(1) == 256);
    assert(pow256(2) == 65536);
    assert(pow256(3) == 16777216);
    assert(be_value(s3.drop_first()) == 0);
    let a = x as int;
    vstd::arithmetic::div_mod::lemma_fundamental_div_mod(a, 256);
    vstd::arithmetic::div_mod::lemma_fundamental_div_mod(a / 256, 256);
    vstd::arithmetic::div_mod::lemma_fundamental_div_mod(a / 65536, 256);
    vstd::arithmetic::div_mod::lemma_div_denominator(a, 256, 256);
    vstd::arithmetic::div_mod::lemma_div_denominator(a, 65536, 256);
    assert(s[0] * pow256(3) == s[0] * 16777216);
    assert(s1[0] * pow256(2) == s1[0] * 65536);
    assert(s2[0] * pow256(1) == s2[0] * 256);
    assert(s3[0] * pow256(0) == s3[0] * 1);
    assert(be_value(s) == s[0] * 16777216 + s1[0] * 65536 + s2[0] * 256 + s3[0]);
    let (q1, q2, q3) = (a / 256, a / 65536, a / 16777216);
    assert(q1 / 256 == q2 && q2 / 256 == q3);
    assert(q3 * 16777216 + (q2 % 256) * 65536 + (q1 % 256) * 256 + a % 256 == a)
        by (nonlinear_arith)
        requires
            a == 256 * q1 + a % 256,
            q1 == 256 * q2 + q1 % 256,
            q2 == 256 * q3 + q2 % 256,
    ;
}

/// The number a `u64`'s big-endian bytes spell is the number itself.
pub proof fn lemma_u64_be_value(x: u64)
    ensures
        be_value(u64_be(x)) == x,
{
    let hi = (x / 0x1_0000_0000) as u32;
    let lo = (x % 0x1_0000_0000) as u32;
    lemma_be_value_concat(u32_be(hi), u32_be(lo));
    lemma_u32_be_value(hi);
    lemma_u32_be_value(lo);
    assert(pow256(4) == 0x1_0000_0000) by {
        assert(pow256(0) == 1);
        assert(pow256(1) == 256);
        assert(pow256(2) == 65536);
        assert(pow256(3) == 16777216);
    }
    assert(hi * 0x1_0000_0000 + lo == x);
}

/// The big-endian bytes of `u64`s come in the order of the numbers.
pub proof fn lemma_u64_be_order(a: u64, b: u64)
    ensures
        bytes_lt(u64_be(a), u64_be(b)) <==> a < b,
{
    lemma_bytes_lt_is_numeric(u64_be(a), u64_be(b));
    lemma_u64_be_value(a);
    lemma_u64_be_value(b);
}

/// Different numbers have different two big-endian bytes.
proof fn lemma_u16_be_injective(a: u16, b: u16)
    requires
        u16_be(a) == u16_be(b),
    ensures
        a == b,
{
    assert(u16_be(a)[0] == u16_be(b)[0] && u16_be(a)[1] == u16_be(b)[1]);
    assert(a == (a / 0x100) * 0x100 + a % 0x100);
    assert(b == (b / 0x100) * 0x100 + b % 0x100);
}

/// Pools with different tokens or fee tiers have different storage keys
/// (for token names shorter than `2^32` bytes).
pub proof fn lemma_pool_keys_distinct(a: PoolKey, b: PoolKey)
    requires
        utf8(a.token_x).len() <= u32::MAX,
        utf8(b.token_x).len() <= u32::MAX,
        a.key_bytes() == b.key_bytes(),
    ensures
        a.token_x@ == b.token_x@,
        a.token_y@ == b.token_y@,
        a.fee_tier == b.fee_tier,
{
    let (ax, ay, bx, by) = (utf8(a.token_x), utf8(a.token_y), utf8(b.token_x), utf8(b.token_y));
    let (ka, kb) = (a.key_bytes(), b.key_bytes());
    let (la, lb) = (u32_be(ax.len() as u32), u32_be(bx.len() as u32));
    assert(la =~= ka.subrange(0, 4));
    assert(lb =~= kb.subrange(0, 4));
    lemma_u32_be_injective(ax.len() as u32, bx.len() as u32);
    assert(ax.len() == bx.len());
    assert(ax =~= ka.subrange(4, 4 + ax.len() as int));
    assert(bx =~= kb.subrange(4, 4 + bx.len() as int));
    let (fa, fb) = (a.fee_tier.key_bytes(), b.fee_tier.key_bytes());
    assert(fa.len() == 10 && fb.len() == 10);
    assert(ka.len() == 4 + ax.len() + ay.len() + 10);
    assert(kb.len() == 4 + bx.len() + by.len() + 10);
    assert(ay.len() == by.len());
    assert(ay =~= ka.subrange(4 + ax.len() as int, (4 + ax.len() + ay.len()) as int));
    assert(by =~= kb.subrange(4 + bx.len() as int, (4 + bx.len() + by.len()) as int));
    assert(fa =~= ka.subrange(ka.len() - 10, ka.len() as int));
    assert(fb =~= kb.subrange(kb.len() - 10, kb.len() as int));
    vstd::utf8::encode_utf8_decode_utf8(a.token_x@);
    vstd::utf8::encode_utf8_decode_utf8(b.token_x@);
    vstd::utf8::encode_utf8_decode_utf8(a.token_y@);
    vstd::utf8::encode_utf8_decode_utf8(b.token_y@);
    let (ua, ub) = (u64_be(a.fee_tier.fee.0), u64_be(b.fee_tier.fee.0));
    assert(ua =~= fa.subrange(0, 8));
    assert(ub =~= fb.subrange(0, 8));
    lemma_u64_be_value(a.fee_tier.fee.0);
    lemma_u64_be_value(b.fee_tier.fee.0);
    assert(u16_be(a.fee_tier.tick_spacing) =~= fa.subrange(8, 10));
    assert(u16_be(b.fee_tier.tick_spacing) =~= fb.subrange(8, 10));
    lemma_u16_be_injective(a.fee_tier.tick_spacing, b.fee_tier.tick_spacing);
}

/// `String::from_utf8` of std: the string whose UTF-8 encoding is `bytes`,
/// or none when `bytes` is not valid UTF-8.
#[verifier::external_body]
pub(crate) fn string_from_utf8(bytes: Vec<u8>) -> (r: Option<String>)
    ensures
        r is Some <==> vstd::utf8::valid_utf8(bytes@),
        r matches Some(s) ==> s@ == vstd::utf8::decode_utf8(bytes@),
{
    match String::from_utf8(bytes) {
        Ok(s) => Some(s),
        Err(_) => None,
    }
}

/// The number whose two big-endian bytes these are.
fn u16_from_be(b0: u8, b1: u8) -> (r: u16)
    ensures
        u16_be(r) == seq![b0, b1],
{
    let r: u16 = (b0 as u16) * 256 + (b1 as u16);
    assert(r / 0x100 == b0 && r % 0x100 == b1);
    assert(u16_be(r) =~= seq![b0, b1]);
    r
}

/// A copy of `b[start..end]`.
fn copy_range(b: &[u8], start: usize, end: usize) -> (r: Vec<u8>)
    requires
        start <= end <= b@.len(),
    ensures
        r@ == b@.subrange(start as int, end as int),
{
    let mut v: Vec<u8> = Vec::new();
    let mut i = start;
    while i < end
        invariant
            start <= i <= end,
            end <= b@.len(),
            v@ == b@.subrange(start as int, i as int),
        decreases end - i,
    {
        v.push(b[i]);
        i = i + 1;
        assert(v@ =~= b@.subrange(start as int, i as int));
    }
    v
}

/// Whether bytes are the storage key of a pool: four bytes of length, that
/// many bytes of UTF-8 for the first token, UTF-8 for the second, and ten
/// bytes of fee tier.
pub open spec fn key_decodes(k: Seq<u8>) -> bool {
    let n = be_value(k.subrange(0, 4)) as int;
    &&& k.len() >= 14
    &&& 4 + n + 10 <= k.len()
    &&& vstd::utf8::valid_utf8(k.subrange(4, 4 + n))
    &&& vstd::utf8::valid_utf8(k.subrange(4 + n, k.len() - 10))
}

impl PoolKey {
    /// The pool key whose storage key these bytes are; fails when they are
    /// not one.
    pub fn from_bytes(bytes: &[u8]) -> (r: Result<PoolKey, ContractError>)
        ensures
            r is Ok <==> key_decodes(bytes@),
            r matches Ok(pk) ==> pk.key_bytes() == bytes@,
            r is Err ==> r == Err::<PoolKey, ContractError>(ContractError::InvalidPoolKey),
    {
        let len = bytes.len();
        if len < 14 {
            return Err(ContractError::InvalidPoolKey);
        }
        let n32 = u32_from_be(bytes[0], bytes[1], bytes[2], bytes[3]);
        let ghost k = bytes@;
        proof {
            assert(k.subrange(0, 4) =~= seq![k[0], k[1], k[2], k[3]]);
            lemma_u32_be_value(n32);
        }
        let n = n32 as usize;
        if n > len - 14 {
            return Err(ContractError::InvalidPoolKey);
        }
        let x = copy_range(bytes, 4, 4 + n);
        let y = copy_range(bytes, 4 + n, len - 10);
        let token_x = match string_from_utf8(x) {
            Some(s) => s,
            None => {
                return Err(ContractError::InvalidPoolKey);
            },
        };
        let token_y = match string_from_utf8(y) {
            Some(s) => s,
            None => {
                return Err(ContractError::InvalidPoolKey);
            },
        };
        let fee_bytes = copy_range(bytes, len - 10, len - 2);
        let fee = u64_from_be(fee_bytes.as_slice());
        let tick_spacing = u16_from_be(bytes[len - 2], bytes[len - 1]);
        let pk = PoolKey { token_x, token_y, fee_tier: FeeTier { fee: Percentage(fee), tick_spacing } };
        proof {
            let xs = k.subrange(4, 4 + n);
            let ys = k.subrange(4 + n, k.len() - 10);
            vstd::utf8::decode_utf8_encode_utf8(xs);
            vstd::utf8::decode_utf8_encode_utf8(ys);
            assert(utf8(pk.token_x) == xs);
            assert(utf8(pk.token_y) == ys);
            assert(u32_be(xs.len() as u32) =~= k.subrange(0, 4));
            assert(u16_be(tick_spacing) =~= k.subrange(k.len() - 2, k.len() as int));
            assert(pk.fee_tier.key_bytes() =~= k.subrange(k.len() - 10, k.len() as int));
            assert(pk.key_bytes() =~= k);
        }
        Ok(pk)
    }
}

} // verus!
