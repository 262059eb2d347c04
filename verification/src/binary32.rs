//! Reading numbers that are held as IEEE 754 single-precision bit patterns.
//!
//! A pattern has a sign bit, eight bits of biased exponent and 23 bits of
//! fraction. With the sign bit clear and an exponent field `e` from 1 to 254
//! it stands for `(2^23 + fraction) * 2^(e - 150)`.
use vstd::arithmetic::div_mod::{lemma_fundamental_div_mod, lemma_mod_bound};
use vstd::arithmetic::power2::{lemma2_to64, lemma_pow2_pos, lemma_pow2_strictly_increases, pow2};
use vstd::bits::{lemma_u32_shl_is_mul, lemma_u32_shr_is_div};
use vstd::prelude::*;

verus! {

/// Whether the pattern stands for a number that is greater than zero and not
/// infinite: the sign bit is clear, the exponent field is not all ones, and
/// not every bit is zero.
pub open spec fn is_positive_finite(bits: u32) -> bool {
    0 < bits < 0x7f80_0000
}

/// Whether the pattern stands for zero or for a number that is greater than
/// zero and not infinite.
pub open spec fn is_finite_non_negative(bits: u32) -> bool {
    bits < 0x7f80_0000
}

/// The exponent field of a pattern.
pub open spec fn exponent(bits: u32) -> int {
    (bits / 0x80_0000 % 256) as int
}

/// The significand of a pattern whose exponent field is not zero: the
/// fraction with the implied leading bit.
pub open spec fn significand(bits: u32) -> int {
    0x80_0000 + (bits % 0x80_0000) as int
}

/// The largest whole number that is not above the number that a finite,
/// non-negative pattern stands for.
pub open spec fn floor(bits: u32) -> int
    recommends
        is_finite_non_negative(bits),
{
    if exponent(bits) < 127 {
        0
    } else if exponent(bits) < 150 {
        significand(bits) / (pow2((150 - exponent(bits)) as nat) as int)
    } else {
        significand(bits) * pow2((exponent(bits) - 150) as nat)
    }
}

/// `floor` is the whole part: for a pattern with an exponent field from 1 to
/// 149, which stands for `significand / 2^(150 - exponent)`, that number is at
/// least `floor` and less than `floor + 1`.
pub proof fn lemma_floor_bounds(bits: u32)
    requires
        is_finite_non_negative(bits),
        1 <= exponent(bits) < 150,
    ensures
        floor(bits) * pow2((150 - exponent(bits)) as nat) <= significand(bits),
        significand(bits) < (floor(bits) + 1) * pow2((150 - exponent(bits)) as nat),
{
    let d = pow2((150 - exponent(bits)) as nat) as int;
    let s = significand(bits);
    let f = floor(bits);
    lemma_pow2_pos((150 - exponent(bits)) as nat);
    if exponent(bits) < 127 {
        lemma2_to64();
        if exponent(bits) < 126 {
            lemma_pow2_strictly_increases(24, (150 - exponent(bits)) as nat);
        }
        assert(s < 0x100_0000 <= d);
        assert(f == 0);
    } else {
        lemma_fundamental_div_mod(s, d);
        lemma_mod_bound(s, d);
        assert(f == s / d);
    }
    assert(f * d <= s < (f + 1) * d) by (nonlinear_arith)
        requires
            d > 0,
            (f == 0 && 0 <= s < d) || (s == d * f + s % d && 0 <= s % d < d),
    ;
}

/// Tells whether a pattern stands for a number that is greater than zero and
/// not infinite.
pub fn positive_finite(bits: u32) -> (yes: bool)
    ensures
        yes == is_positive_finite(bits),
{
    0 < bits && bits < 0x7f80_0000
}

/// The whole part of the number that a pattern stands for, where the pattern
/// is finite and not negative and the whole part is below `u32::MAX`.
pub fn whole_part(bits: u32) -> (whole: Option<u32>)
    ensures
        whole is Some <==> is_finite_non_negative(bits) && floor(bits) < u32::MAX,
        whole matches Some(w) ==> w == floor(bits),
{
    if bits >= 0x7f80_0000 {
        return None;
    }
    let e: u32 = bits / 0x80_0000;
    let s: u32 = 0x80_0000 + bits % 0x80_0000;
    assert(e == exponent(bits) && s == significand(bits));
    if e < 127 {
        Some(0)
    } else if e < 150 {
        let shift: u32 = 150 - e;
        proof {
            lemma_u32_shr_is_div(s, shift);
            assert(s >> shift <= s) by (bit_vector);
        }
        Some(s >> shift)
    } else if e < 159 {
        let shift: u32 = e - 150;
        proof {
            lemma2_to64();
            lemma_pow2_pos(shift as nat);
            if shift < 8 {
                lemma_pow2_strictly_increases(shift as nat, 8);
            }
            assert(s * pow2(shift as nat) <= 0xff_ffff * 0x100) by (nonlinear_arith)
                requires
                    s <= 0xff_ffff,
                    0 < pow2(shift as nat) <= 0x100,
            ;
            lemma_u32_shl_is_mul(s, shift);
        }
        Some(s << shift)
    } else {
        proof {
            let shift = (e - 150) as nat;
            lemma2_to64();
            if shift > 9 {
                lemma_pow2_strictly_increases(9, shift);
            }
            assert(s * pow2(shift) >= 0x80_0000 * 0x200) by (nonlinear_arith)
                requires
                    s >= 0x80_0000,
                    pow2(shift) >= 0x200,
            ;
        }
        None
    }
}

} // verus!
