//! Reversible packing of integers: the pairing of a bucket address with its
//! length, and the packing of a query id into a shard-local id and remainder.

use vstd::prelude::*;

verus! {

/// `s` is the integer square root of `z`: the largest natural number whose
/// square does not exceed `z`.
pub open spec fn is_floor_sqrt(s: nat, z: nat) -> bool {
    s * s <= z < (s + 1) * (s + 1)
}

/// The integer square root of `z`.
pub open spec fn floor_sqrt(z: nat) -> nat
    decreases z,
{
    if z == 0 {
        0
    } else {
        let r = floor_sqrt((z - 1) as nat);
        if (r + 1) * (r + 1) <= z {
            r + 1
        } else {
            r
        }
    }
}

/// `floor_sqrt(z)` is the integer square root of `z`.
pub proof fn lemma_floor_sqrt_is_root(z: nat)
    ensures
        is_floor_sqrt(floor_sqrt(z), z),
    decreases z,
{
    if z > 0 {
        lemma_floor_sqrt_is_root((z - 1) as nat);
        let r = floor_sqrt((z - 1) as nat);
        let s = floor_sqrt(z);
        if (r + 1) * (r + 1) <= z {
            assert(z < (s + 1) * (s + 1)) by (nonlinear_arith)
                requires
                    s == r + 1,
                    z - 1 < (r + 1) * (r + 1),
            ;
        }
    } else {
        assert(is_floor_sqrt(0, 0)) by (nonlinear_arith);
    }
}

/// A number has only one integer square root.
pub proof fn lemma_floor_sqrt_unique(s: nat, z: nat)
    requires
        is_floor_sqrt(s, z),
    ensures
        s == floor_sqrt(z),
{
    lemma_floor_sqrt_is_root(z);
    let t = floor_sqrt(z);
    if s < t {
        assert((s + 1) * (s + 1) <= t * t) by (nonlinear_arith)
            requires
                s + 1 <= t,
        ;
    } else if t < s {
        assert((t + 1) * (t + 1) <= s * s) by (nonlinear_arith)
            requires
                t + 1 <= s,
        ;
    }
}

/// The pairing of `x` and `y`: `y * y + x` below the diagonal `x < y`, and
/// `x * x + x + y` on or above it.
pub open spec fn pair(x: nat, y: nat) -> nat {
    if x < y {
        y * y + x
    } else {
        x * x + x + y
    }
}

/// The two numbers that `z` is the pairing of.
pub open spec fn pair_inv(z: nat) -> (nat, nat) {
    let s = floor_sqrt(z);
    let r = (z - s * s) as nat;
    if r < s {
        (r, s)
    } else {
        (s, (r - s) as nat)
    }
}

/// Unpairing undoes pairing, for all naturals `x` and `y`.
pub proof fn lemma_pair_inv_of_pair(x: nat, y: nat)
    ensures
        pair_inv(pair(x, y)) == (x, y),
{
    let z = pair(x, y);
    if x < y {
        assert(is_floor_sqrt(y, z)) by (nonlinear_arith)
            requires
                z == y * y + x,
                x < y,
        ;
        lemma_floor_sqrt_unique(y, z);
    } else {
        assert(is_floor_sqrt(x, z)) by (nonlinear_arith)
            requires
                z == x * x + x + y,
                y <= x,
        ;
        lemma_floor_sqrt_unique(x, z);
    }
}

/// Pairing undoes unpairing, for every natural `z`.
pub proof fn lemma_pair_of_pair_inv(z: nat)
    ensures
        pair(pair_inv(z).0, pair_inv(z).1) == z,
{
    lemma_floor_sqrt_is_root(z);
    let s = floor_sqrt(z);
    assert(z - s * s <= 2 * s) by (nonlinear_arith)
        requires
            z < (s + 1) * (s + 1),
    ;
}

/// Two pairs with the same pairing are the same pair.
pub proof fn lemma_pair_injective(x1: nat, y1: nat, x2: nat, y2: nat)
    requires
        pair(x1, y1) == pair(x2, y2),
    ensures
        x1 == x2,
        y1 == y2,
{
    lemma_pair_inv_of_pair(x1, y1);
    lemma_pair_inv_of_pair(x2, y2);
}

/// Both components of an unpaired 64-bit value fit in 32 bits.
pub proof fn lemma_pair_inv_bounds(z: nat)
    requires
        z <= u64::MAX,
    ensures
        pair_inv(z).0 <= u32::MAX,
        pair_inv(z).1 <= u32::MAX,
{
    lemma_floor_sqrt_is_root(z);
    let s = floor_sqrt(z);
    assert(s <= 0xffff_ffff) by (nonlinear_arith)
        requires
            s * s <= z,
            z <= 0xffff_ffff_ffff_ffff,
    ;
    assert(z - s * s <= 2 * s) by (nonlinear_arith)
        requires
            z < (s + 1) * (s + 1),
    ;
}

/// The integer square root of `z`, by bisection.
pub fn isqrt(z: u64) -> (s: u64)
    ensures
        s == floor_sqrt(z as nat),
        s <= u32::MAX,
{
    let mut lo: u64 = 0;
    let mut hi: u64 = 0x1_0000_0000;
    while hi - lo > 1
        invariant
            lo < hi <= 0x1_0000_0000,
            lo * lo <= z < hi * hi,
        decreases hi - lo,
    {
        let mid: u64 = lo + (hi - lo) / 2;
        assert(mid * mid < 0x1_0000_0000_0000_0000) by (nonlinear_arith)
            requires
                mid < 0x1_0000_0000,
        ;
        if mid * mid <= z {
            lo = mid;
        } else {
            hi = mid;
        }
    }
    proof {
        lemma_floor_sqrt_unique(lo as nat, z as nat);
    }
    lo
}

/// Packs `(x, y)` into one integer. Every pair of 32-bit values fits.
pub fn elegant_pair(x: u32, y: u32) -> (z: u64)
    ensures
        z == pair(x as nat, y as nat),
{
    let a: u64 = x as u64;
    let b: u64 = y as u64;
    if a < b {
        assert(b * b + a <= 0xffff_ffff_ffff_ffff) by (nonlinear_arith)
            requires
                a < b,
                b <= 0xffff_ffff,
        ;
        b * b + a
    } else {
        assert(a * a + a + b <= 0xffff_ffff_ffff_ffff) by (nonlinear_arith)
            requires
                b <= a,
                a <= 0xffff_ffff,
        ;
        a * a + a + b
    }
}

/// Unpacks a paired integer into its two components.
pub fn elegant_pair_inv(z: u64) -> (r: (u64, u64))
    ensures
        (r.0 as nat, r.1 as nat) == pair_inv(z as nat),
        r.0 <= u32::MAX,
        r.1 <= u32::MAX,
{
    let s: u64 = isqrt(z);
    proof {
        lemma_floor_sqrt_is_root(z as nat);
        lemma_pair_inv_bounds(z as nat);
        assert(s * s <= z);
    }
    let rest: u64 = z - s * s;
    if rest < s {
        (rest, s)
    } else {
        (s, rest - s)
    }
}

/// The query id that a shard-local id and a remainder stand for.
pub open spec fn qid_of(pqid: nat, remainder: nat, nr_shards: nat) -> nat {
    pqid * nr_shards + remainder
}

/// Splitting a query id by the shard count and putting it together again
/// gives the id back, and the remainder is below the shard count.
pub proof fn lemma_qid_round_trip(qid: nat, nr_shards: nat)
    requires
        nr_shards > 0,
    ensures
        qid_of(qid / nr_shards, qid % nr_shards, nr_shards) == qid,
        qid % nr_shards < nr_shards,
{
    vstd::arithmetic::div_mod::lemma_fundamental_div_mod(qid as int, nr_shards as int);
    vstd::arithmetic::div_mod::lemma_mod_bound(qid as int, nr_shards as int);
    assert(nr_shards * (qid / nr_shards) == (qid / nr_shards) * nr_shards) by (nonlinear_arith);
}

/// A packed id and a remainder below the shard count are what their query
/// id splits into.
pub proof fn lemma_qid_split_of_packed(pqid: nat, remainder: nat, nr_shards: nat)
    requires
        remainder < nr_shards,
    ensures
        qid_of(pqid, remainder, nr_shards) / nr_shards == pqid,
        qid_of(pqid, remainder, nr_shards) % nr_shards == remainder,
{
    vstd::arithmetic::div_mod::lemma_fundamental_div_mod_converse(
        qid_of(pqid, remainder, nr_shards) as int,
        nr_shards as int,
        pqid as int,
        remainder as int,
    );
}

/// Rebuilds a query id from its shard-local id and remainder.
pub fn pqid2qid(pqid: u32, remainder: u8, nr_shards: u32) -> (qid: u64)
    ensures
        qid == qid_of(pqid as nat, remainder as nat, nr_shards as nat),
{
    let p: u64 = pqid as u64;
    let n: u64 = nr_shards as u64;
    assert(p * n + remainder <= 0xffff_ffff_ffff_ffff) by (nonlinear_arith)
        requires
            p <= 0xffff_ffff,
            n <= 0xffff_ffff,
            remainder <= 0xff,
    ;
    p * n + remainder as u64
}

/// Splits a query id into its shard-local id and remainder, where both fit
/// their fields: 32 bits for the id, 8 for the remainder.
pub fn qid2pqid(qid: u64, nr_shards: u32) -> (r: Option<(u32, u8)>)
    ensures
        r is Some <==> nr_shards > 0 && qid / (nr_shards as u64) <= u32::MAX && qid % (
        nr_shards as u64) <= u8::MAX,
        r matches Some((pqid, remainder)) ==> pqid == qid / (nr_shards as u64) && remainder == qid
            % (nr_shards as u64),
{
    if nr_shards == 0 {
        return None;
    }
    let n: u64 = nr_shards as u64;
    let p: u64 = qid / n;
    let m: u64 = qid % n;
    if p > 0xffff_ffff || m > 0xff {
        return None;
    }
    Some((p as u32, m as u8))
}

} // verus!
