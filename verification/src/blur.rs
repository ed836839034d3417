//! Blur scores: 64-bit floating-point numbers, kept as their bit patterns.
use vstd::arithmetic::power2::*;
use vstd::prelude::*;

verus! {

/// Below this score an image counts as blurry.
pub const BLUR_THRESHOLD: u64 = 80;

/// The biased exponent of a floating-point number.
pub open spec fn float_exponent(bits: u64) -> nat {
    (bits as nat / pow2(52)) % 2048
}

/// The fraction field of a floating-point number.
pub open spec fn float_fraction(bits: u64) -> nat {
    bits as nat % pow2(52)
}

/// Whether a floating-point number has its sign bit set.
pub open spec fn float_negative(bits: u64) -> bool {
    bits as nat >= pow2(63)
}

/// Whether a bit pattern stands for no number.
pub open spec fn float_nan(bits: u64) -> bool {
    float_exponent(bits) == 2047 && float_fraction(bits) != 0
}

/// The size of a floating-point number, in steps of the smallest number above zero: there
/// are 2 to the power of 1074 of them in one. Infinity is larger than every finite number.
pub open spec fn float_steps(bits: u64) -> nat {
    if float_exponent(bits) == 0 {
        float_fraction(bits)
    } else {
        (pow2(52) + float_fraction(bits)) * pow2((float_exponent(bits) - 1) as nat)
    }
}

/// Whether a score is a number below the threshold.
pub open spec fn is_blurry_score(bits: u64) -> bool {
    !float_nan(bits) && (float_negative(bits) || float_steps(bits) < BLUR_THRESHOLD * pow2(1074))
}

/// The bits of a pattern without its sign bit, apart.
proof fn lemma_fields(bits: u64)
    ensures
        pow2(52) == 0x10_0000_0000_0000,
        pow2(63) == 0x8000_0000_0000_0000,
        bits < 0x8000_0000_0000_0000 ==> float_exponent(bits) * 0x10_0000_0000_0000
            + float_fraction(bits) == bits,
        bits >= 0x8000_0000_0000_0000 ==> float_exponent(bits) * 0x10_0000_0000_0000
            + float_fraction(bits) == bits - 0x8000_0000_0000_0000,
        float_exponent(bits) < 2048,
        float_fraction(bits) < 0x10_0000_0000_0000,
{
    lemma2_to64();
    lemma2_to64_rest();
}

/// Whether a score is below the threshold.
pub fn is_blurry(bits: u64) -> (blurry: bool)
    ensures
        blurry == is_blurry_score(bits),
{
    proof {
        lemma_fields(bits);
    }
    if bits >= 0x8000_0000_0000_0000 {
        bits - 0x8000_0000_0000_0000 <= 0x7ff0_0000_0000_0000
    } else {
        proof {
            lemma_threshold(bits);
        }
        bits < 0x4054_0000_0000_0000
    }
}

/// The pattern of the threshold itself parts the patterns of the numbers below it from the
/// others.
proof fn lemma_threshold(bits: u64)
    requires
        bits < 0x8000_0000_0000_0000,
    ensures
        float_steps(bits) < BLUR_THRESHOLD * pow2(1074) <==> bits < 0x4054_0000_0000_0000,
        float_nan(bits) ==> bits >= 0x4054_0000_0000_0000,
{
    lemma_fields(bits);
    let exponent = float_exponent(bits);
    let fraction = float_fraction(bits);
    let unit = pow2(1028);
    lemma_pow2_adds(46, 1028);
    lemma2_to64();
    lemma2_to64_rest();
    assert(pow2(1074) == 0x4000_0000_0000 * unit);
    lemma_pow2_pos(1028);
    let limit = (BLUR_THRESHOLD * pow2(1074)) as nat;
    assert(limit == 0x14_0000_0000_0000 * unit) by (nonlinear_arith)
        requires
            limit == 80 * pow2(1074),
            pow2(1074) == 0x4000_0000_0000 * unit,
    ;
    if exponent == 0 {
        assert(fraction < limit) by (nonlinear_arith)
            requires
                fraction < 0x10_0000_0000_0000,
                limit == 0x14_0000_0000_0000 * unit,
                unit >= 1,
        ;
    } else {
        let power = pow2((exponent - 1) as nat);
        let steps = (pow2(52) + fraction) * power;
        assert(float_steps(bits) == steps);
        if exponent < 1029 {
            lemma_power_within((exponent - 1) as nat, 1027);
            lemma_pow2_adds(1, 1027);
            assert(steps < limit) by (nonlinear_arith)
                requires
                    steps == (0x10_0000_0000_0000 + fraction) * power,
                    fraction < 0x10_0000_0000_0000,
                    2 * power <= unit,
                    power >= 1,
                    limit == 0x14_0000_0000_0000 * unit,
            ;
        } else if exponent == 1029 {
            assert(steps < limit <==> fraction < 0x4_0000_0000_0000) by (nonlinear_arith)
                requires
                    steps == (0x10_0000_0000_0000 + fraction) * unit,
                    limit == 0x14_0000_0000_0000 * unit,
                    unit >= 1,
            ;
        } else {
            lemma_power_within(1029, (exponent - 1) as nat);
            lemma_pow2_adds(1, 1028);
            assert(steps >= limit) by (nonlinear_arith)
                requires
                    steps == (0x10_0000_0000_0000 + fraction) * power,
                    power >= 2 * unit,
                    limit == 0x14_0000_0000_0000 * unit,
            ;
        }
    }
}

/// Powers of two grow.
proof fn lemma_power_within(small: nat, large: nat)
    requires
        small <= large,
    ensures
        1 <= pow2(small) <= pow2(large),
{
    lemma_pow2_pos(small);
    if small < large {
        lemma_pow2_strictly_increases(small, large);
    }
}

/// Of two scores that are positive numbers, the lower one is blurry if the higher one is.
pub proof fn law_lower_score_is_blurrier(low: u64, high: u64)
    requires
        !float_negative(low),
        !float_negative(high),
        !float_nan(low),
        float_steps(low) <= float_steps(high),
        is_blurry_score(high),
    ensures
        is_blurry_score(low),
{
}

/// Which bit patterns are scores below the threshold: of those without a sign, the ones below
/// the pattern of 80, and of those with one, all but the ones that stand for no number.
pub proof fn law_blurry_patterns(bits: u64)
    ensures
        is_blurry_score(bits) <==> bits < 0x4054_0000_0000_0000 || 0x8000_0000_0000_0000 <= bits
            <= 0xfff0_0000_0000_0000,
        BLUR_THRESHOLD == 80,
{
    lemma_fields(bits);
    if bits < 0x8000_0000_0000_0000 {
        lemma_threshold(bits);
    }
}

} // verus!
