//! The bit patterns of the numbers that the settings of the walker and of its training use.
//!
//! Each is the pattern of the single-precision number nearest to the one it is named after.

use crate::fidelity::unit;
use crate::single::{Single, FRACTIONS, SIGN_BIT};
use vstd::arithmetic::power2::*;
use vstd::prelude::*;

verus! {

/// The bit pattern of -2.3.
pub const MINUS_2_3: u32 = 0xc013_3333;

/// The bit pattern of -5.
pub const MINUS_5: u32 = 0xc0a0_0000;

/// The bit pattern of -4.
pub const MINUS_4: u32 = 0xc080_0000;

/// The bit pattern of pi, negated.
pub const MINUS_HALF_TURN: u32 = 0xc049_0fdb;

/// The bit pattern of pi.
pub const HALF_TURN: u32 = 0x4049_0fdb;

/// The bit pattern of half of pi.
pub const RIGHT_ANGLE: u32 = 0x3fc9_0fdb;

/// The bit pattern of half of pi, negated.
pub const MINUS_RIGHT_ANGLE: u32 = 0xbfc9_0fdb;

/// The bit pattern of -1.2.
pub const MINUS_1_2: u32 = 0xbf99_999a;

/// The bit pattern of -0.8.
pub const MINUS_0_8: u32 = 0xbf4c_cccd;

/// The bit pattern of -0.7.
pub const MINUS_0_7: u32 = 0xbf33_3333;

/// The bit pattern of -0.5.
pub const MINUS_0_5: u32 = 0xbf00_0000;

/// The bit pattern of -0.333.
pub const MINUS_0_333: u32 = 0xbeaa_7efa;

/// The bit pattern of -0.1.
pub const MINUS_0_1: u32 = 0xbdcc_cccd;

/// The bit pattern of 0.00000001.
pub const ONE_HUNDRED_MILLIONTH: u32 = 0x322b_cc77;

/// The bit pattern of 0.000001.
pub const ONE_MILLIONTH: u32 = 0x3586_37bd;

/// The bit pattern of 0.0001.
pub const ONE_TEN_THOUSANDTH: u32 = 0x38d1_b717;

/// The bit pattern of 0.01.
pub const ONE_HUNDREDTH: u32 = 0x3c23_d70a;

/// The bit pattern of one sixtieth.
pub const ONE_SIXTIETH: u32 = 0x3c88_8889;

/// The bit pattern of 0.193.
pub const PLUS_0_193: u32 = 0x3e45_a1cb;

/// The bit pattern of 0.2.
pub const PLUS_0_2: u32 = 0x3e4c_cccd;

/// The bit pattern of 0.3.
pub const PLUS_0_3: u32 = 0x3e99_999a;

/// The bit pattern of 0.4.
pub const PLUS_0_4: u32 = 0x3ecc_cccd;

/// The bit pattern of 0.5.
pub const PLUS_0_5: u32 = 0x3f00_0000;

/// The bit pattern of 0.6.
pub const PLUS_0_6: u32 = 0x3f19_999a;

/// The bit pattern of 0.8.
pub const PLUS_0_8: u32 = 0x3f4c_cccd;

/// The bit pattern of 0.95.
pub const PLUS_0_95: u32 = 0x3f73_3333;

/// The bit pattern of 0.99.
pub const PLUS_0_99: u32 = 0x3f7d_70a4;

/// The bit pattern of 1.2.
pub const PLUS_1_2: u32 = 0x3f99_999a;

/// The bit pattern of 1.3.
pub const PLUS_1_3: u32 = 0x3fa6_6666;

/// The bit pattern of 1.4.
pub const PLUS_1_4: u32 = 0x3fb3_3333;

/// The bit pattern of 1.5.
pub const PLUS_1_5: u32 = 0x3fc0_0000;

/// The bit pattern of 1.6.
pub const PLUS_1_6: u32 = 0x3fcc_cccd;

/// The bit pattern of the natural logarithm of a whole turn.
pub const LOG_TWO_PI: u32 = 0x3feb_3f8e;

/// The bit pattern of 2.
pub const PLUS_2: u32 = 0x4000_0000;

/// The bit pattern of 2.2.
pub const PLUS_2_2: u32 = 0x400c_cccd;

/// The bit pattern of 2.5.
pub const PLUS_2_5: u32 = 0x4020_0000;

/// The bit pattern of 3.5.
pub const PLUS_3_5: u32 = 0x4060_0000;

/// The bit pattern of 5.
pub const PLUS_5: u32 = 0x40a0_0000;

/// The bit pattern of 9.8.
pub const PLUS_9_8: u32 = 0x411c_cccd;

/// The bit pattern of 10.
pub const PLUS_10: u32 = 0x4120_0000;

/// The bit pattern of 20.
pub const PLUS_20: u32 = 0x41a0_0000;

/// The bit pattern of 35.
pub const PLUS_35: u32 = 0x420c_0000;

/// The bit pattern of 80.
pub const PLUS_80: u32 = 0x42a0_0000;

/// The bit pattern of 120.
pub const PLUS_120: u32 = 0x42f0_0000;

/// The bit pattern of 150.
pub const PLUS_150: u32 = 0x4316_0000;

/// The double-precision bit pattern of 0.0003.
pub const LEARNING_RATE: u64 = 0x3f33_a92a_3055_3261;

/// The number with the pattern `bits` lies no farther than half a step from the one that is `number` by
/// `parts`, a step being what lies between two patterns that follow each other there.
pub open spec fn is_nearest(bits: u32, number: int, parts: int) -> bool {
    let a = Single::of(bits);
    let distance = a.value() * parts - number * unit();
    let step = pow2((a.magnitude() / FRACTIONS as int - 1) as nat);
    -(parts * step) <= 2 * distance <= parts * step
}

/// The value of one, as a power of two.
proof fn lemma_unit_is_a_power()
    ensures
        unit() == pow2(149),
{
    lemma2_to64();
    lemma_pow2_adds(23, 126);
}

/// A pattern is nearest where its digits are, with `power` the value of one in steps.
proof fn lemma_nearest(bits: u32, number: int, parts: int, power: int)
    requires
        ({
            let magnitude = Single::of(bits).magnitude();
            let exponent = magnitude / FRACTIONS as int;
            let digits = magnitude % FRACTIONS as int + FRACTIONS;
            let distance = (if bits >= SIGN_BIT {
                -digits
            } else {
                digits
            }) * parts - number * power;
            &&& 0 < exponent < 150
            &&& power == pow2((150 - exponent) as nat)
            &&& -parts <= 2 * distance <= parts
        }),
    ensures
        is_nearest(bits, number, parts),
{
    let a = Single::of(bits);
    let exponent = a.magnitude() / FRACTIONS as int;
    let digits = a.magnitude() % FRACTIONS as int + FRACTIONS;
    let signed = if bits >= SIGN_BIT {
        -digits
    } else {
        digits
    };
    let step = pow2((exponent - 1) as nat) as int;
    lemma_unit_is_a_power();
    lemma_pow2_pos((exponent - 1) as nat);
    lemma_pow2_adds((150 - exponent) as nat, (exponent - 1) as nat);
    assert(unit() == power * step);
    assert(a.value() == signed * step) by {
        assert((-digits) * step == -(digits * step)) by (nonlinear_arith);
    }
    let distance = signed * parts - number * power;
    assert(a.value() * parts - number * unit() == distance * step) by (nonlinear_arith)
        requires
            a.value() == signed * step,
            unit() == power * step,
            distance == signed * parts - number * power,
    ;
    assert(-(parts * step) <= 2 * (distance * step) <= parts * step) by (nonlinear_arith)
        requires
            -parts <= 2 * distance <= parts,
            step > 0,
    ;
}

/// Each pattern is that of the number nearest to the one it is named after.
pub proof fn law_patterns_are_nearest_to_their_names()
    ensures
        is_nearest(MINUS_2_3, -23, 10),
        is_nearest(MINUS_5, -5, 1),
        is_nearest(MINUS_4, -4, 1),
        is_nearest(MINUS_HALF_TURN, -314159265359, 100000000000),
        is_nearest(HALF_TURN, 314159265359, 100000000000),
        is_nearest(RIGHT_ANGLE, 314159265359, 200000000000),
        is_nearest(MINUS_RIGHT_ANGLE, -314159265359, 200000000000),
        is_nearest(MINUS_1_2, -12, 10),
        is_nearest(MINUS_0_8, -8, 10),
        is_nearest(MINUS_0_7, -7, 10),
        is_nearest(MINUS_0_5, -5, 10),
        is_nearest(MINUS_0_333, -333, 1000),
        is_nearest(MINUS_0_1, -1, 10),
        is_nearest(ONE_HUNDRED_MILLIONTH, 1, 100000000),
        is_nearest(ONE_MILLIONTH, 1, 1000000),
        is_nearest(ONE_TEN_THOUSANDTH, 1, 10000),
        is_nearest(ONE_HUNDREDTH, 1, 100),
        is_nearest(ONE_SIXTIETH, 1, 60),
        is_nearest(PLUS_0_193, 193, 1000),
        is_nearest(PLUS_0_2, 2, 10),
        is_nearest(PLUS_0_3, 3, 10),
        is_nearest(PLUS_0_4, 4, 10),
        is_nearest(PLUS_0_5, 5, 10),
        is_nearest(PLUS_0_6, 6, 10),
        is_nearest(PLUS_0_8, 8, 10),
        is_nearest(PLUS_0_95, 95, 100),
        is_nearest(PLUS_0_99, 99, 100),
        is_nearest(PLUS_1_2, 12, 10),
        is_nearest(PLUS_1_3, 13, 10),
        is_nearest(PLUS_1_4, 14, 10),
        is_nearest(PLUS_1_5, 15, 10),
        is_nearest(PLUS_1_6, 16, 10),
        is_nearest(LOG_TWO_PI, 18378770664, 10000000000),
        is_nearest(PLUS_2, 2, 1),
        is_nearest(PLUS_2_2, 22, 10),
        is_nearest(PLUS_2_5, 25, 10),
        is_nearest(PLUS_3_5, 35, 10),
        is_nearest(PLUS_5, 5, 1),
        is_nearest(PLUS_9_8, 98, 10),
        is_nearest(PLUS_10, 10, 1),
        is_nearest(PLUS_20, 20, 1),
        is_nearest(PLUS_35, 35, 1),
        is_nearest(PLUS_80, 80, 1),
        is_nearest(PLUS_120, 120, 1),
        is_nearest(PLUS_150, 150, 1),
{
    lemma2_to64();
    lemma2_to64_rest();
    lemma_nearest(MINUS_2_3, -23, 10, 0x400000);
    lemma_nearest(MINUS_5, -5, 1, 0x200000);
    lemma_nearest(MINUS_4, -4, 1, 0x200000);
    lemma_nearest(MINUS_HALF_TURN, -314159265359, 100000000000, 0x400000);
    lemma_nearest(HALF_TURN, 314159265359, 100000000000, 0x400000);
    lemma_nearest(RIGHT_ANGLE, 314159265359, 200000000000, 0x800000);
    lemma_nearest(MINUS_RIGHT_ANGLE, -314159265359, 200000000000, 0x800000);
    lemma_nearest(MINUS_1_2, -12, 10, 0x800000);
    lemma_nearest(MINUS_0_8, -8, 10, 0x1000000);
    lemma_nearest(MINUS_0_7, -7, 10, 0x1000000);
    lemma_nearest(MINUS_0_5, -5, 10, 0x1000000);
    lemma_nearest(MINUS_0_333, -333, 1000, 0x2000000);
    lemma_nearest(MINUS_0_1, -1, 10, 0x8000000);
    lemma_nearest(ONE_HUNDRED_MILLIONTH, 1, 100000000, 0x4000000000000);
    lemma_nearest(ONE_MILLIONTH, 1, 1000000, 0x80000000000);
    lemma_nearest(ONE_TEN_THOUSANDTH, 1, 10000, 0x2000000000);
    lemma_nearest(ONE_HUNDREDTH, 1, 100, 0x40000000);
    lemma_nearest(ONE_SIXTIETH, 1, 60, 0x20000000);
    lemma_nearest(PLUS_0_193, 193, 1000, 0x4000000);
    lemma_nearest(PLUS_0_2, 2, 10, 0x4000000);
    lemma_nearest(PLUS_0_3, 3, 10, 0x2000000);
    lemma_nearest(PLUS_0_4, 4, 10, 0x2000000);
    lemma_nearest(PLUS_0_5, 5, 10, 0x1000000);
    lemma_nearest(PLUS_0_6, 6, 10, 0x1000000);
    lemma_nearest(PLUS_0_8, 8, 10, 0x1000000);
    lemma_nearest(PLUS_0_95, 95, 100, 0x1000000);
    lemma_nearest(PLUS_0_99, 99, 100, 0x1000000);
    lemma_nearest(PLUS_1_2, 12, 10, 0x800000);
    lemma_nearest(PLUS_1_3, 13, 10, 0x800000);
    lemma_nearest(PLUS_1_4, 14, 10, 0x800000);
    lemma_nearest(PLUS_1_5, 15, 10, 0x800000);
    lemma_nearest(PLUS_1_6, 16, 10, 0x800000);
    lemma_nearest(LOG_TWO_PI, 18378770664, 10000000000, 0x800000);
    lemma_nearest(PLUS_2, 2, 1, 0x400000);
    lemma_nearest(PLUS_2_2, 22, 10, 0x400000);
    lemma_nearest(PLUS_2_5, 25, 10, 0x400000);
    lemma_nearest(PLUS_3_5, 35, 10, 0x400000);
    lemma_nearest(PLUS_5, 5, 1, 0x200000);
    lemma_nearest(PLUS_9_8, 98, 10, 0x100000);
    lemma_nearest(PLUS_10, 10, 1, 0x100000);
    lemma_nearest(PLUS_20, 20, 1, 0x80000);
    lemma_nearest(PLUS_35, 35, 1, 0x40000);
    lemma_nearest(PLUS_80, 80, 1, 0x20000);
    lemma_nearest(PLUS_120, 120, 1, 0x20000);
    lemma_nearest(PLUS_150, 150, 1, 0x10000);
}

} // verus!
