//! The shard of an n-gram: a 64-bit hash of its bytes, carried to a shard
//! by the jump consistent hash.
//!
//! The jump of that hash is defined over binary64 arithmetic:
//! `(b + 1) * (2^31 / ((key >> 33) + 1))`, cut to an integer. Here it is
//! computed in integers, with the two roundings to 53 significant bits made
//! by hand, so that the shard of a key is the same on every machine and an
//! index can be read where it was not built.

use vstd::arithmetic::power2::{lemma_pow2_adds, lemma_pow2_pos, lemma_pow2_unfold, pow2};
use vstd::prelude::*;
use vstd::string::*;
use vstd::utf8::encode_utf8;

verus! {

/// Two to the power of 31, the numerator of the jump.
pub const TWO_31: u64 = 0x8000_0000;

/// Two to the power of 33: the bits of a key below it are not used.
pub const TWO_33: u64 = 0x2_0000_0000;

/// Two to the power of 52: the weight of the highest bit of a significand.
pub const TWO_52: u128 = 0x10_0000_0000_0000;

/// Two to the power of 53: the bound of a significand.
pub const TWO_53: u128 = 0x20_0000_0000_0000;

/// Two to the power of 83: the numerator of the jump, times two to the
/// power of 52.
pub const TWO_83: u128 = 0x8_0000_0000_0000_0000_0000;

/// The multiplier of the generator that gives a key its next value.
pub const KEY_MULTIPLIER: u64 = 2862933555777941757;

/// The integer nearest to `a / b`; of two that are equally near, the even
/// one.
pub open spec fn round_div(a: int, b: int) -> int {
    let q = a / b;
    let r = a % b;
    if 2 * r > b || (2 * r == b && q % 2 == 1) {
        q + 1
    } else {
        q
    }
}

/// The divisor doubled as long as it stays within two to the power of 31:
/// the divisor times the power of two that brings the quotient of the jump
/// between one and two.
pub open spec fn scaled(d: int) -> int
    decreases TWO_31 - d,
{
    if 0 < d && 2 * d <= TWO_31 {
        scaled(2 * d)
    } else {
        d
    }
}

/// The least of `z`, `2 * z`, `4 * z` and so on that `n` is less than two
/// to the power of 53 times: for `z == 1`, the weight of the last of the
/// 53 leading bits of `n`.
pub open spec fn unit(n: int, z: int) -> int
    decreases n - z,
{
    if 0 < z && n >= TWO_53 * z {
        unit(n, 2 * z)
    } else {
        z
    }
}

/// Where a jump from bucket `m - 1` lands for the divisor `d`: the product
/// of `m` and the quotient of two to the power of 31 by `d`, cut to an
/// integer, with the quotient and the product each rounded to 53
/// significant bits, ties to even, as binary64 arithmetic rounds them.
pub open spec fn jump_target(m: int, d: int) -> int {
    let x = scaled(d);
    let quotient = round_div(TWO_83 as int, x);
    let n = m * quotient;
    let z = unit(n, 1);
    (round_div(n, z) * z * (x / d)) / (TWO_52 as int)
}

/// A rounded quotient is within one half of the quotient, and it is even
/// where it is one half away.
pub proof fn lemma_round_div_is_nearest(a: int, b: int)
    requires
        0 <= a,
        0 < b,
    ensures
        -b <= 2 * (a - round_div(a, b) * b) <= b,
        2 * (a - round_div(a, b) * b) == b || 2 * (a - round_div(a, b) * b) == -b ==> round_div(
            a,
            b,
        ) % 2 == 0,
        a / b <= round_div(a, b) <= a / b + 1,
{
    let q = a / b;
    let r = a % b;
    vstd::arithmetic::div_mod::lemma_fundamental_div_mod(a, b);
    vstd::arithmetic::div_mod::lemma_mod_bound(a, b);
    assert(a - q * b == r) by (nonlinear_arith)
        requires
            a == b * q + r,
    ;
    assert(a - (q + 1) * b == r - b) by (nonlinear_arith)
        requires
            a == b * q + r,
    ;
}

/// The scaled divisor is the divisor times a whole number, and it lies
/// above two to the power of 30 and within two to the power of 31.
pub proof fn lemma_scaled_bounds(d: int)
    requires
        1 <= d <= TWO_31,
    ensures
        0x4000_0000 < scaled(d) <= TWO_31,
        scaled(d) % d == 0,
        scaled(d) / d >= 1,
        scaled(d) == d * (scaled(d) / d),
    decreases TWO_31 - d,
{
    if 2 * d <= TWO_31 {
        lemma_scaled_bounds(2 * d);
        let x = scaled(2 * d);
        let g = x / (2 * d);
        assert(x == d * (2 * g)) by (nonlinear_arith)
            requires
                x == (2 * d) * g,
        ;
        lemma_multiple_divides(d, 2 * g);
    } else {
        lemma_multiple_divides(d, 1);
    }
}

/// A multiple of a positive number divides by it without remainder.
pub proof fn lemma_multiple_divides(d: int, g: int)
    requires
        0 < d,
        0 <= g,
    ensures
        (d * g) % d == 0,
        (d * g) / d == g,
{
    vstd::arithmetic::div_mod::lemma_div_multiples_vanish(g, d);
    vstd::arithmetic::div_mod::lemma_fundamental_div_mod(d * g, d);
}

/// The unit from a power of two on is a power of two, at most two to the
/// power of 52 where `n` is below two to the power of 86. `n` is below two
/// to the power of 53 times the unit, and not below two to the power of 52
/// times a unit that was doubled.
pub proof fn lemma_unit_bounds(n: int, z: int, t: nat)
    requires
        0 <= n < 0x40_0000_0000_0000_0000_0000,
        z == pow2(t),
        z == 1 || TWO_52 * z <= n,
    ensures
        exists|u: nat| unit(n, z) == #[trigger] pow2(u) && u <= 34,
        unit(n, z) >= z,
        n < TWO_53 * unit(n, z),
        unit(n, z) == 1 || TWO_52 * unit(n, z) <= n,
    decreases n - z,
{
    lemma_pow2_pos(t);
    if n >= TWO_53 * z {
        lemma_pow2_unfold(t + 1);
        lemma_unit_bounds(n, 2 * z, t + 1);
    } else {
        if t > 34 {
            lemma_pow2_adds(34, (t - 34) as nat);
            lemma_pow2_pos((t - 34) as nat);
            lemma_two_to_34();
            assert(pow2(t) >= 0x4_0000_0000) by (nonlinear_arith)
                requires
                    pow2(t) == pow2(34) * pow2((t - 34) as nat),
                    pow2(34) == 0x4_0000_0000,
                    pow2((t - 34) as nat) >= 1,
            ;
            assert(false) by (nonlinear_arith)
                requires
                    z >= 0x4_0000_0000,
                    0x10_0000_0000_0000 * z <= n,
                    n < 0x40_0000_0000_0000_0000_0000,
            ;
        }
        assert(unit(n, z) == pow2(t));
    }
}

/// Two to the power of 34, and of 52.
pub proof fn lemma_two_to_34()
    ensures
        pow2(34) == 0x4_0000_0000,
        pow2(52) == 0x10_0000_0000_0000,
{
    vstd::arithmetic::power2::lemma2_to64();
    lemma_pow2_adds(32, 2);
    lemma_pow2_adds(32, 20);
}

/// A jump goes forward: from bucket `m - 1` it lands on bucket `m` or
/// beyond.
pub proof fn lemma_jump_goes_forward(m: int, d: int)
    requires
        1 <= m <= 0x1_0000_0000,
        1 <= d <= TWO_31,
    ensures
        jump_target(m, d) >= m,
{
    let x = scaled(d);
    lemma_scaled_bounds(d);
    let quotient = round_div(TWO_83 as int, x);
    lemma_round_div_is_nearest(TWO_83 as int, x);
    assert(0x8_0000_0000_0000_0000_0000int / x >= 0x10_0000_0000_0000) by (nonlinear_arith)
        requires
            0 < x <= 0x8000_0000,
    ;
    assert(0x8_0000_0000_0000_0000_0000int / x <= 0x20_0000_0000_0000) by (nonlinear_arith)
        requires
            0x4000_0000 < x,
    ;
    let n = m * quotient;
    assert(m * 0x10_0000_0000_0000 <= n < 0x40_0000_0000_0000_0000_0000) by (nonlinear_arith)
        requires
            n == m * quotient,
            1 <= m <= 0x1_0000_0000,
            0x10_0000_0000_0000 <= quotient <= 0x20_0000_0000_0001,
    ;
    vstd::arithmetic::power2::lemma2_to64();
    lemma_unit_bounds(n, 1, 0);
    let z = unit(n, 1);
    let u = choose|u: nat| z == #[trigger] pow2(u) && u <= 34;
    lemma_two_to_34();
    lemma_pow2_adds(u, (52 - u) as nat);
    lemma_pow2_pos((52 - u) as nat);
    lemma_pow2_pos(u);
    let c = pow2((52 - u) as nat) as int;
    let n2 = round_div(n, z);
    lemma_round_div_is_nearest(n, z);
    assert(n / z >= m * c) by (nonlinear_arith)
        requires
            n >= m * 0x10_0000_0000_0000,
            z * c == 0x10_0000_0000_0000,
            z > 0,
            c > 0,
            m >= 1,
    ;
    let g = x / d;
    assert(n2 * z * g >= m * 0x10_0000_0000_0000) by (nonlinear_arith)
        requires
            n2 >= m * c,
            z * c == 0x10_0000_0000_0000,
            g >= 1,
            z > 0,
            c > 0,
            m >= 1,
    ;
    assert((n2 * z * g) / 0x10_0000_0000_0000 >= m) by (nonlinear_arith)
        requires
            n2 * z * g >= m * 0x10_0000_0000_0000,
    ;
}

/// `a / b`, rounded to the nearest integer, ties to even.
fn round_div_exec(a: u128, b: u128) -> (q: u128)
    requires
        0 < b,
        a < 0x8000_0000_0000_0000_0000_0000_0000_0000,
    ensures
        q == round_div(a as int, b as int),
{
    let q: u128 = a / b;
    let r: u128 = a % b;
    if r > b - r || (r == b - r && q % 2 == 1) {
        q + 1
    } else {
        q
    }
}

/// Where a jump from bucket `m - 1` lands for the divisor `d`.
pub fn next_jump(m: u64, d: u64) -> (j: u128)
    requires
        1 <= m <= 0x1_0000_0000,
        1 <= d <= TWO_31,
    ensures
        j == jump_target(m as int, d as int),
        j >= m,
{
    let mut x: u64 = d;
    let mut g: u64 = 1;
    while x <= 0x4000_0000
        invariant
            1 <= d <= x <= TWO_31,
            scaled(x as int) == scaled(d as int),
            x == d * g,
            1 <= g <= x,
        decreases TWO_31 - x,
    {
        assert(d * (2 * g) == 2 * (d * g)) by (nonlinear_arith);
        x = 2 * x;
        g = 2 * g;
    }
    proof {
        lemma_multiple_divides(d as int, g as int);
        lemma_round_div_is_nearest(TWO_83 as int, x as int);
        assert(0x8_0000_0000_0000_0000_0000int / (x as int) <= 0x20_0000_0000_0000)
            by (nonlinear_arith)
            requires
                0x4000_0000 < x,
        ;
    }
    let quotient: u128 = round_div_exec(TWO_83, x as u128);
    assert(m * quotient < 0x40_0000_0000_0000_0000_0000) by (nonlinear_arith)
        requires
            1 <= m <= 0x1_0000_0000,
            0 <= quotient <= 0x20_0000_0000_0001,
    ;
    let n: u128 = m as u128 * quotient;
    let mut z: u128 = 1;
    while n >= TWO_53 * z
        invariant
            n < 0x40_0000_0000_0000_0000_0000,
            1 <= z <= 0x4_0000_0000,
            unit(n as int, z as int) == unit(n as int, 1),
        decreases 0x8_0000_0000 - z,
    {
        assert(z < 0x2_0000_0000) by (nonlinear_arith)
            requires
                n >= 0x20_0000_0000_0000 * z,
                n < 0x40_0000_0000_0000_0000_0000,
        ;
        z = 2 * z;
    }
    let n2: u128 = round_div_exec(n, z);
    proof {
        lemma_round_div_is_nearest(n as int, z as int);
        let floor = (n as int) / (z as int);
        assert(floor * z <= n) by (nonlinear_arith)
            requires
                floor == (n as int) / (z as int),
                z > 0,
                n >= 0,
        ;
        assert(n2 * z <= n + z) by (nonlinear_arith)
            requires
                n2 <= floor + 1,
                floor * z <= n,
                z > 0,
        ;
        assert(n2 * z * g <= 0x40_0000_0000_0000_0000_0000_0000_0000) by (nonlinear_arith)
            requires
                0 <= n2 * z <= 0x40_0000_0000_0000_0000_0000 + 0x4_0000_0000,
                0 <= g <= 0x8000_0000,
        ;
        assert(n2 * z * g >= 0 && n2 * z >= 0) by (nonlinear_arith)
            requires
                n2 >= 0,
                z >= 0,
                g >= 0,
        ;
        lemma_jump_goes_forward(m as int, d as int);
    }
    n2 * z * g as u128 / TWO_52
}

/// The value that follows `key` in the sequence of keys of a hash.
pub open spec fn next_key(key: u64) -> u64 {
    ((key * KEY_MULTIPLIER + 1) % 0x1_0000_0000_0000_0000) as u64
}

/// The divisor that a key gives to a jump: its 31 highest bits, and one.
pub open spec fn divisor(key: u64) -> int {
    key / TWO_33 + 1
}

/// The number of buckets from `j` up to the `n`-th: no jump that lands on
/// `j` is followed by more jumps than this.
pub open spec fn buckets_left(j: int, n: u32) -> nat {
    if j < n {
        (n - j) as nat
    } else {
        0
    }
}

/// The bucket in which the jumps end that stand at bucket `b` and go to
/// bucket `j` next: the last bucket reached before a jump leaves the `n`
/// buckets.
pub open spec fn jump_from(key: u64, b: int, j: int, n: u32) -> int
    decreases buckets_left(j, n),
    via jump_from_decreases
{
    if 0 <= j < n {
        jump_from(next_key(key), j, jump_target(j + 1, divisor(next_key(key))), n)
    } else {
        b
    }
}

#[via_fn]
proof fn jump_from_decreases(key: u64, b: int, j: int, n: u32) {
    if 0 <= j < n {
        lemma_jump_goes_forward(j + 1, divisor(next_key(key)));
    }
}

/// The bucket of a key among `n` buckets, by the jump consistent hash.
pub open spec fn jump_hash(key: u64, n: u32) -> int {
    jump_from(key, 0, 0, n)
}

/// The jumps end in one of the buckets.
pub proof fn lemma_jump_stays_within(key: u64, b: int, j: int, n: u32)
    requires
        0 <= b < n,
        b <= j,
    ensures
        0 <= jump_from(key, b, j, n) < n,
    decreases buckets_left(j, n),
{
    if j < n {
        lemma_jump_goes_forward(j + 1, divisor(next_key(key)));
        lemma_jump_stays_within(next_key(key), j, jump_target(j + 1, divisor(next_key(key))), n);
    }
}

/// The bucket of a key is one of the buckets.
pub proof fn lemma_jump_hash_in_range(key: u64, n: u32)
    requires
        n > 0,
    ensures
        0 <= jump_hash(key, n) < n,
{
    lemma_jump_stays_within(key, 0, 0, n);
}

/// With one bucket more, the jumps end where they ended, or in the new
/// bucket.
pub proof fn lemma_jump_with_one_more_bucket(key: u64, b: int, j: int, n: u32)
    requires
        n < u32::MAX,
    ensures
        jump_from(key, b, j, (n + 1) as u32) == jump_from(key, b, j, n) || jump_from(
            key,
            b,
            j,
            (n + 1) as u32,
        ) == n,
    decreases buckets_left(j, (n + 1) as u32),
{
    let more = (n + 1) as u32;
    if 0 <= j < more {
        let k = next_key(key);
        let target = jump_target(j + 1, divisor(k));
        lemma_jump_goes_forward(j + 1, divisor(k));
        if j < n {
            lemma_jump_with_one_more_bucket(k, j, target, n);
        } else {
            assert(jump_from(k, j, target, more) == j);
        }
    }
}

/// The hash is consistent: where the number of buckets grows from `n` to
/// `m`, a key stays in its bucket or moves to one of the new buckets.
pub proof fn lemma_jump_hash_is_consistent(key: u64, n: u32, m: u32)
    requires
        0 < n <= m,
    ensures
        jump_hash(key, m) == jump_hash(key, n) || n <= jump_hash(key, m) < m,
    decreases m - n,
{
    if n < m {
        lemma_jump_hash_is_consistent(key, n, (m - 1) as u32);
        lemma_jump_with_one_more_bucket(key, 0, 0, (m - 1) as u32);
    }
}

/// The key that follows `key`.
fn advance_key(key: u64) -> (k: u64)
    ensures
        k == next_key(key),
{
    assert(key * KEY_MULTIPLIER + 1 < 0x1_0000_0000_0000_0000_0000_0000_0000_0000)
        by (nonlinear_arith)
        requires
            key <= 0xffff_ffff_ffff_ffff,
            KEY_MULTIPLIER <= 0xffff_ffff_ffff_ffff,
    ;
    let wide: u128 = key as u128 * KEY_MULTIPLIER as u128 + 1;
    (wide % 0x1_0000_0000_0000_0000) as u64
}

/// The bucket of a key among `num_buckets` buckets. Where the number of
/// buckets grows, a key stays in its bucket or moves to one of the new
/// ones. Without a bucket the result is 0.
pub fn jump_consistent_hash(key: u64, num_buckets: u32) -> (b: u32)
    ensures
        b == jump_hash(key, num_buckets),
        num_buckets > 0 ==> b < num_buckets,
{
    let n: u128 = num_buckets as u128;
    let mut k: u64 = key;
    let mut b: u32 = 0;
    let mut j: u128 = 0;
    while j < n
        invariant
            n == num_buckets,
            b <= j,
            num_buckets > 0 ==> b < num_buckets,
            jump_from(k, b as int, j as int, num_buckets) == jump_hash(key, num_buckets),
        decreases buckets_left(j as int, num_buckets),
    {
        b = j as u32;
        k = advance_key(k);
        j = next_jump(b as u64 + 1, k / TWO_33 + 1);
    }
    b
}

/// The first value of the hash of a byte string.
pub const FNV_OFFSET: u64 = 0xcbf2_9ce4_8422_2325;

/// The multiplier of the hash of a byte string.
pub const FNV_PRIME: u64 = 0x100_0000_01b3;

/// The hash of a byte string with one more byte: the hash so far, with the
/// byte folded into its lowest bits, times `FNV_PRIME`, cut to 64 bits.
pub open spec fn hash_step(h: u64, byte: u8) -> u64 {
    (((h ^ (byte as u64)) * FNV_PRIME) % 0x1_0000_0000_0000_0000) as u64
}

/// The 64-bit hash of a byte string: `FNV_OFFSET`, stepped by each byte in
/// turn.
pub open spec fn hash64(bytes: Seq<u8>) -> u64
    decreases bytes.len(),
{
    if bytes.len() == 0 {
        FNV_OFFSET
    } else {
        hash_step(hash64(bytes.drop_last()), bytes.last())
    }
}

/// The shard of an n-gram in an index of `nr_shards` shards.
pub open spec fn shard_of(ngram: Seq<char>, nr_shards: u32) -> int {
    jump_hash(hash64(encode_utf8(ngram)), nr_shards)
}

/// The 64-bit hash of a byte string.
pub fn key64(bytes: &[u8]) -> (h: u64)
    ensures
        h == hash64(bytes@),
{
    let n: usize = bytes.len();
    let mut h: u64 = FNV_OFFSET;
    let mut i: usize = 0;
    proof {
        assert(bytes@.take(0) =~= Seq::<u8>::empty());
    }
    while i < n
        invariant
            i <= n,
            n == bytes@.len(),
            h == hash64(bytes@.take(i as int)),
        decreases n - i,
    {
        proof {
            assert(bytes@.take(i + 1).drop_last() =~= bytes@.take(i as int));
            assert(bytes@.take(i + 1).last() == bytes@[i as int]);
        }
        let mixed: u64 = h ^ (bytes[i] as u64);
        assert(mixed * FNV_PRIME < 0x1_0000_0000_0000_0000_0000_0000_0000_0000)
            by (nonlinear_arith)
            requires
                mixed <= 0xffff_ffff_ffff_ffff,
                FNV_PRIME <= 0xffff_ffff_ffff_ffff,
        ;
        let wide: u128 = mixed as u128 * FNV_PRIME as u128;
        h = (wide % 0x1_0000_0000_0000_0000) as u64;
        i = i + 1;
    }
    proof {
        assert(bytes@.take(n as int) =~= bytes@);
    }
    h
}

/// The shard of an n-gram in an index of `num_buckets` shards.
pub fn jump_consistent_hash_str(key: &str, num_buckets: u32) -> (shard: u32)
    ensures
        shard == shard_of(key@, num_buckets),
        num_buckets > 0 ==> shard < num_buckets,
{
    jump_consistent_hash(key64(key.as_bytes()), num_buckets)
}

} // verus!
