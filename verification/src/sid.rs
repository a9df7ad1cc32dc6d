//! Scored ids and the order in which results are ranked.
//!
//! A score is carried as the bit pattern of an IEEE-754 binary32 value, the
//! form in which `f32::to_bits` gives it and `f32::from_bits` takes it back.
//! The ranking reads the sign, exponent and fraction of that pattern, so that
//! no floating-point operation is needed to order results.

use vstd::arithmetic::power2::{
    lemma_pow2_pos, lemma_pow2_strictly_increases, lemma_pow2_unfold, pow2,
};
use std::cmp::Ordering;
use vstd::prelude::*;

verus! {

/// The exponent and fraction of positive infinity; every larger magnitude is
/// a NaN.
pub const INFINITY_BITS: u32 = 0x7f80_0000;

/// The weight of the sign bit.
pub const SIGN_BIT: u32 = 0x8000_0000;

/// The key of every NaN: below that of negative infinity.
pub const NAN_KEY: i64 = -0x7f80_0001;

/// A query id with its similarity score.
///
/// Two scored ids are equal where neither comes before the other in a
/// ranking, and the lesser of two is the one that comes later: the one
/// with the lower score, or with the same score and the higher id. A list
/// is ranked where it descends in this order.
#[derive(Clone, Copy, Debug, Eq)]
pub struct Sid {
    /// The id of an indexed query.
    pub id: u64,
    /// The score, as the bits of a binary32 value.
    pub sc: u32,
}

/// The exponent and fraction bits of a binary32 pattern.
pub open spec fn magnitude(bits: u32) -> int {
    (bits % SIGN_BIT) as int
}

/// Whether the sign bit of a binary32 pattern is set.
pub open spec fn is_negative(bits: u32) -> bool {
    bits >= SIGN_BIT
}

/// Whether a binary32 pattern is a NaN: all exponent bits set and a fraction
/// other than zero.
pub open spec fn is_nan(bits: u32) -> bool {
    magnitude(bits) > INFINITY_BITS
}

/// An integer that grows with the value a binary32 pattern denotes. Both
/// zeros share the key 0, and every NaN has the key `NAN_KEY`.
pub open spec fn rank_key(bits: u32) -> int {
    if is_nan(bits) {
        NAN_KEY as int
    } else if is_negative(bits) {
        -magnitude(bits)
    } else {
        magnitude(bits)
    }
}

impl Sid {
    /// Whether `self` comes strictly before `other` in a ranking: by the
    /// higher score, then by the lower id. A NaN score comes after every
    /// other score.
    pub open spec fn outranks(self, other: Sid) -> bool {
        rank_key(self.sc) > rank_key(other.sc) || (rank_key(self.sc) == rank_key(other.sc)
            && self.id < other.id)
    }

    /// Whether neither of the two comes before the other: the scores denote
    /// the same value, or are both NaN, and the ids are equal.
    pub open spec fn ties_with(self, other: Sid) -> bool {
        rank_key(self.sc) == rank_key(other.sc) && self.id == other.id
    }

    /// Whether `self` ranks strictly before `other`.
    pub fn ranks_before(&self, other: &Sid) -> (r: bool)
        ensures
            r == self.outranks(*other),
    {
        let a: i64 = score_key(self.sc);
        let b: i64 = score_key(other.sc);
        a > b || (a == b && self.id < other.id)
    }
}

impl PartialEq for Sid {
    fn eq(&self, other: &Sid) -> (r: bool) {
        !self.ranks_before(other) && !other.ranks_before(self)
    }
}

impl vstd::std_specs::cmp::PartialEqSpecImpl for Sid {
    open spec fn obeys_eq_spec() -> bool {
        true
    }

    open spec fn eq_spec(&self, other: &Sid) -> bool {
        !self.outranks(*other) && !other.outranks(*self)
    }
}

impl PartialOrd for Sid {
    fn partial_cmp(&self, other: &Sid) -> (r: Option<Ordering>) {
        if other.ranks_before(self) {
            Some(Ordering::Less)
        } else if self.ranks_before(other) {
            Some(Ordering::Greater)
        } else {
            Some(Ordering::Equal)
        }
    }
}

impl vstd::std_specs::cmp::PartialOrdSpecImpl for Sid {
    open spec fn obeys_partial_cmp_spec() -> bool {
        true
    }

    open spec fn partial_cmp_spec(&self, other: &Sid) -> Option<Ordering> {
        if other.outranks(*self) {
            Some(Ordering::Less)
        } else if self.outranks(*other) {
            Some(Ordering::Greater)
        } else {
            Some(Ordering::Equal)
        }
    }
}

/// The ranking key of a score.
pub fn score_key(bits: u32) -> (k: i64)
    ensures
        k == rank_key(bits),
{
    let mag: u32 = bits % SIGN_BIT;
    if mag > INFINITY_BITS {
        NAN_KEY
    } else if bits >= SIGN_BIT {
        -(mag as i64)
    } else {
        mag as i64
    }
}

/// The ranking is a strict total order up to ties: of two entries exactly
/// one comes first unless they tie, and coming first is transitive.
pub proof fn lemma_ranking_is_total_order(a: Sid, b: Sid, c: Sid)
    ensures
        !a.outranks(a),
        a.outranks(b) ==> !b.outranks(a),
        a.outranks(b) || b.outranks(a) || a.ties_with(b),
        a.outranks(b) && b.outranks(c) ==> a.outranks(c),
        a.outranks(b) && !c.outranks(b) ==> a.outranks(c),
        !b.outranks(a) && b.outranks(c) ==> a.outranks(c),
{
}

/// A NaN score outranks no score that is a number, and every number
/// outranks it.
pub proof fn lemma_nan_ranks_last(a: Sid, b: Sid)
    requires
        is_nan(a.sc),
        !is_nan(b.sc),
    ensures
        b.outranks(a),
        !a.outranks(b),
{
}

/// The weight of the lowest exponent bit: the number of fractions.
pub const FRACTIONS: u32 = 0x80_0000;

/// The absolute value that the exponent and fraction bits `m` denote,
/// times two to the power of 149, which makes an integer of every value.
/// Infinity stands as the power of two above every number.
pub open spec fn scaled_magnitude(m: int) -> int {
    let exponent = m / (FRACTIONS as int);
    let fraction = m % (FRACTIONS as int);
    if exponent == 0 {
        fraction
    } else {
        (FRACTIONS + fraction) * pow2((exponent - 1) as nat)
    }
}

/// The value that a binary32 pattern other than a NaN denotes, times two
/// to the power of 149.
pub open spec fn scaled_value(bits: u32) -> int {
    if is_negative(bits) {
        -scaled_magnitude(magnitude(bits))
    } else {
        scaled_magnitude(magnitude(bits))
    }
}

/// The larger exponent and fraction bits denote the larger absolute value.
pub proof fn lemma_scaled_magnitude_increases(low: int, high: int)
    requires
        0 <= low < high,
    ensures
        0 <= scaled_magnitude(low) < scaled_magnitude(high),
{
    let low_exp = low / (FRACTIONS as int);
    let low_frac = low % (FRACTIONS as int);
    let high_exp = high / (FRACTIONS as int);
    let high_frac = high % (FRACTIONS as int);
    if low_exp > 0 {
        lemma_pow2_pos((low_exp - 1) as nat);
    }
    lemma_pow2_pos((high_exp - 1) as nat);
    let low_power = pow2((low_exp - 1) as nat) as int;
    let high_power = pow2((high_exp - 1) as nat) as int;
    if low_exp == high_exp {
        if low_exp > 0 {
            assert((0x80_0000 + low_frac) * low_power < (0x80_0000 + high_frac) * low_power)
                by (nonlinear_arith)
                requires
                    0 <= low_frac < high_frac,
                    low_power > 0,
            ;
        }
    } else {
        assert(low_exp < high_exp);
        assert((0x80_0000 + high_frac) * high_power >= 0x80_0000 * high_power >= 0x80_0000)
            by (nonlinear_arith)
            requires
                0 <= high_frac,
                high_power >= 1,
        ;
        if low_exp > 0 {
            lemma_pow2_unfold(low_exp as nat);
            if low_exp < high_exp - 1 {
                lemma_pow2_strictly_increases(low_exp as nat, (high_exp - 1) as nat);
            }
            let q = pow2(low_exp as nat) as int;
            assert((0x80_0000 + low_frac) * low_power < 0x80_0000 * q) by (nonlinear_arith)
                requires
                    0 <= low_frac < 0x80_0000,
                    low_power > 0,
                    q == 2 * low_power,
            ;
            assert(0x80_0000 * q <= 0x80_0000 * high_power) by (nonlinear_arith)
                requires
                    q <= high_power,
            ;
            assert((0x80_0000 + low_frac) * low_power >= 0) by (nonlinear_arith)
                requires
                    0 <= low_frac,
                    low_power > 0,
            ;
        }
    }
}

/// The ranking key orders scores as their values do: of two scores other
/// than NaN, the one that denotes the larger value has the larger key, and
/// two that denote the same value, as the two zeros do, have the same key.
pub proof fn lemma_rank_key_orders_by_value(a: u32, b: u32)
    requires
        !is_nan(a),
        !is_nan(b),
    ensures
        rank_key(a) < rank_key(b) <==> scaled_value(a) < scaled_value(b),
        rank_key(a) == rank_key(b) <==> scaled_value(a) == scaled_value(b),
{
    let ma = magnitude(a);
    let mb = magnitude(b);
    assert(scaled_magnitude(0) == 0);
    if ma < mb {
        lemma_scaled_magnitude_increases(ma, mb);
    } else if mb < ma {
        lemma_scaled_magnitude_increases(mb, ma);
    }
    if 0 < ma {
        lemma_scaled_magnitude_increases(0, ma);
    }
    if 0 < mb {
        lemma_scaled_magnitude_increases(0, mb);
    }
}

} // verus!
