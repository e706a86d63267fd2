//! Single bytes that stand for numbers: signed integers, and the eight-bit
//! floating-point numbers with four bits of exponent and three of fraction
//! (E4M3, without infinities).
//!
//! A single-precision number is carried as the bits of its IEEE 754 form. Its
//! exact magnitude is a whole number of units, where a unit is the smallest
//! positive number, two to the power of -149.

use crate::protocol::ScoringProfile;
use vstd::arithmetic::div_mod::{lemma_basic_div, lemma_div_denominator, lemma_div_multiples_vanish};
use vstd::arithmetic::power2::{lemma2_to64, lemma_pow2_adds, lemma_pow2_pos, lemma_pow2_unfold, pow2};
use vstd::prelude::*;

verus! {

/// The magnitude of a finite number in units.
pub open spec fn units(magnitude: u32) -> int {
    let exponent = magnitude as int / 0x80_0000;
    let fraction = magnitude as int % 0x80_0000;
    if exponent == 0 {
        fraction
    } else {
        (0x80_0000 + fraction) * pow2((exponent - 1) as nat)
    }
}

/// The exact magnitude that a positive code stands for, in units.
pub open spec fn code_units(code: int) -> int {
    let exponent = code / 8;
    let fraction = code % 8;
    if exponent == 0 {
        fraction * pow2(140)
    } else {
        (8 + fraction) * pow2((exponent + 139) as nat)
    }
}

/// The magnitude that is encoded: no number is larger than the largest code,
/// which is 448, and what is no number counts as that.
pub open spec fn target_units(magnitude: u32) -> int {
    if magnitude >= 0x43e0_0000 {
        code_units(0x7e)
    } else {
        units(magnitude)
    }
}

/// How far a code is from a magnitude.
pub open spec fn distance(target: int, code: int) -> int {
    if target >= code_units(code) {
        target - code_units(code)
    } else {
        code_units(code) - target
    }
}

/// Whether a positive code is the nearest one; of two that are equally near, it
/// is the lower one.
pub open spec fn nearest_code(target: int, code: int) -> bool {
    &&& 0 <= code <= 0x7e
    &&& forall|other: int|
        0 <= other <= 0x7e ==> distance(target, code) < #[trigger] distance(target, other)
            || distance(target, code) == distance(target, other) && code <= other
}

/// The bits of a positive code from the eighth on.
spec fn code_bits(code: int) -> int {
    0x3c00_0000 + code * 0x10_0000
}

/// From the eighth code on, the bits between two codes grow evenly with the
/// magnitude.
proof fn lemma_between(code: int, part: int, magnitude: u32)
    requires
        8 <= code <= 0x7e,
        0 <= part <= 0x10_0000,
        magnitude == code_bits(code) + part,
    ensures
        units(magnitude) == code_units(code) + part * pow2((code / 8 + 119) as nat),
        code_units(code + 1) == code_units(code) + 0x10_0000 * pow2((code / 8 + 119) as nat),
{
    let exponent = code / 8;
    let fraction = code % 8;
    let unit = pow2((exponent + 119) as nat) as int;
    lemma2_to64();
    lemma_pow2_adds(20, (exponent + 119) as nat);
    assert(pow2((exponent + 139) as nat) == 0x10_0000 * unit);
    assert(code_units(code) == (8 + fraction) * (0x10_0000 * unit));
    assert((8 + fraction) * (0x10_0000 * unit) == (0x80_0000 + fraction * 0x10_0000) * unit)
        by (nonlinear_arith);
    lemma_pow2_unfold((exponent + 140) as nat);
    lemma_pow2_unfold((exponent + 120) as nat);
    assert((9 + fraction) * (0x10_0000 * unit) == (8 + fraction) * (0x10_0000 * unit) + 0x10_0000
        * unit) by (nonlinear_arith);
    if fraction == 7 {
        assert((code + 1) / 8 == exponent + 1);
        assert((code + 1) % 8 == 0);
        assert(code_units(code + 1) == 8 * pow2((exponent + 140) as nat));
        assert(8 * (2 * (0x10_0000 * unit)) == 16 * (0x10_0000 * unit)) by (nonlinear_arith);
    } else {
        assert((code + 1) / 8 == exponent);
        assert((code + 1) % 8 == fraction + 1);
    }
    let rest = fraction * 0x10_0000 + part;
    assert(magnitude as int == (exponent + 120) * 0x80_0000 + rest);
    if rest < 0x80_0000 {
        assert(magnitude as int / 0x80_0000 == exponent + 120);
        assert(magnitude as int % 0x80_0000 == rest);
        assert((0x80_0000 + rest) * unit == (0x80_0000 + fraction * 0x10_0000) * unit + part * unit)
            by (nonlinear_arith)
            requires
                rest == fraction * 0x10_0000 + part,
        ;
    } else {
        assert(rest == 0x80_0000);
        assert(magnitude as int / 0x80_0000 == exponent + 121);
        assert(magnitude as int % 0x80_0000 == 0);
        assert(0x80_0000 * (2 * unit) == (0x80_0000 + fraction * 0x10_0000) * unit + part * unit)
            by (nonlinear_arith)
            requires
                0x80_0000 == fraction * 0x10_0000 + part,
        ;
    }
}

/// The first eight codes are evenly spaced.
proof fn lemma_small_codes()
    ensures
        forall|code: int| 0 <= code <= 8 ==> #[trigger] code_units(code) == code * pow2(140),
        pow2(140) == 0x100_0000 * pow2(116),
        pow2(117) == 2 * pow2(116),
        pow2(118) == 4 * pow2(116),
        pow2(119) == 8 * pow2(116),
        pow2(116) > 0,
{
    lemma2_to64();
    lemma_pow2_adds(24, 116);
    lemma_pow2_unfold(117);
    lemma_pow2_unfold(118);
    lemma_pow2_unfold(119);
    lemma_pow2_pos(116);
}

/// Larger codes stand for larger numbers.
proof fn lemma_codes_increase(less: int, more: int)
    requires
        0 <= less < more <= 0x7e,
    ensures
        code_units(less) < code_units(more),
    decreases more - less,
{
    if less + 1 < more {
        lemma_codes_increase(less + 1, more);
    }
    lemma_small_codes();
    if less < 8 {
        assert(code_units(less) == less * pow2(140));
        assert(code_units(less + 1) == (less + 1) * pow2(140));
        assert((less + 1) * pow2(140) == less * pow2(140) + pow2(140)) by (nonlinear_arith);
    } else {
        lemma_between(less, 0, code_bits(less) as u32);
        lemma_pow2_pos((less / 8 + 119) as nat);
    }
}

/// Larger bits stand for larger numbers.
proof fn lemma_units_increase(less: u32, more: u32)
    requires
        less < more < 0x7f80_0000,
    ensures
        units(less) < units(more),
{
    let low = less as int / 0x80_0000;
    let high = more as int / 0x80_0000;
    let low_part = less as int % 0x80_0000;
    let high_part = more as int % 0x80_0000;
    lemma2_to64();
    if low == high {
        if low > 0 {
            let unit = pow2((low - 1) as nat) as int;
            lemma_pow2_pos((low - 1) as nat);
            assert((0x80_0000 + low_part) * unit < (0x80_0000 + high_part) * unit)
                by (nonlinear_arith)
                requires
                    low_part < high_part,
                    unit > 0,
            ;
        }
    } else {
        let top = pow2((high - 1) as nat) as int;
        lemma_pow2_pos((high - 1) as nat);
        assert(units(more) >= 0x80_0000 * top) by (nonlinear_arith)
            requires
                units(more) == (0x80_0000 + high_part) * top,
                high_part >= 0,
                top > 0,
        ;
        if low == 0 {
            assert(0x80_0000 * top >= 0x80_0000) by (nonlinear_arith)
                requires
                    top >= 1,
            ;
        } else {
            let unit = pow2((low - 1) as nat) as int;
            lemma_pow2_pos((low - 1) as nat);
            lemma_pow2_adds((high - low) as nat, (low - 1) as nat);
            lemma_pow2_unfold((high - low) as nat);
            lemma_pow2_pos((high - low - 1) as nat);
            assert(top == pow2((high - low) as nat) * unit);
            assert((0x80_0000 + low_part) * unit < 0x80_0000 * top) by (nonlinear_arith)
                requires
                    low_part < 0x80_0000,
                    unit > 0,
                    top == pow2((high - low) as nat) * unit,
                    pow2((high - low) as nat) >= 2,
            ;
        }
    }
}

/// A code is the nearest one where the magnitude lies between the middles to its
/// two neighbours.
proof fn lemma_nearest(target: int, code: int)
    requires
        0 <= code <= 0x7e,
        code > 0 ==> 2 * target > code_units(code - 1) + code_units(code),
        code < 0x7e ==> 2 * target <= code_units(code) + code_units(code + 1),
        target <= code_units(0x7e),
    ensures
        nearest_code(target, code),
{
    assert forall|other: int| 0 <= other <= 0x7e implies distance(target, code) < #[trigger] distance(
        target,
        other,
    ) || distance(target, code) == distance(target, other) && code <= other by {
        if other < code {
            lemma_codes_increase(other, code);
            if other < code - 1 {
                lemma_codes_increase(other, code - 1);
            }
            lemma_codes_increase(code - 1, code);
        }
        if other > code {
            lemma_codes_increase(code, other);
            lemma_codes_increase(code, code + 1);
            if other > code + 1 {
                lemma_codes_increase(code + 1, other);
            }
        }
    }
}

/// The middles between the first nine codes, as bits.
proof fn lemma_middles()
    ensures
        units(0x3a80_0000) * 2 == pow2(140),
        units(0x3b40_0000) * 2 == 3 * pow2(140),
        units(0x3ba0_0000) * 2 == 5 * pow2(140),
        units(0x3be0_0000) * 2 == 7 * pow2(140),
        units(0x3c10_0000) * 2 == 9 * pow2(140),
        units(0x3c30_0000) * 2 == 11 * pow2(140),
        units(0x3c50_0000) * 2 == 13 * pow2(140),
        units(0x3c70_0000) * 2 == 15 * pow2(140),
{
    lemma_small_codes();
    let p = pow2(116);
    assert(units(0x3a80_0000) == 0x80_0000 * p);
    assert(units(0x3b40_0000) == 0xc0_0000 * pow2(117));
    assert(units(0x3ba0_0000) == 0xa0_0000 * pow2(118));
    assert(units(0x3be0_0000) == 0xe0_0000 * pow2(118));
    assert(units(0x3c10_0000) == 0x90_0000 * pow2(119));
    assert(units(0x3c30_0000) == 0xb0_0000 * pow2(119));
    assert(units(0x3c50_0000) == 0xd0_0000 * pow2(119));
    assert(units(0x3c70_0000) == 0xf0_0000 * pow2(119));
}

/// Whether a magnitude lies above a middle, by the bits.
proof fn lemma_above(magnitude: u32, middle: u32)
    requires
        magnitude < 0x7f80_0000,
        middle < 0x7f80_0000,
    ensures
        magnitude > middle <==> units(magnitude) > units(middle),
{
    if magnitude > middle {
        lemma_units_increase(middle, magnitude);
    } else if magnitude < middle {
        lemma_units_increase(magnitude, middle);
    }
}

fn small_code(magnitude: u32) -> (code: u8)
    requires
        magnitude < 0x3c80_0000,
    ensures
        nearest_code(units(magnitude), code as int),
{
    proof {
        lemma_small_codes();
        lemma_middles();
        lemma_above(magnitude, 0x3a80_0000);
        lemma_above(magnitude, 0x3b40_0000);
        lemma_above(magnitude, 0x3ba0_0000);
        lemma_above(magnitude, 0x3be0_0000);
        lemma_above(magnitude, 0x3c10_0000);
        lemma_above(magnitude, 0x3c30_0000);
        lemma_above(magnitude, 0x3c50_0000);
        lemma_above(magnitude, 0x3c70_0000);
    }
    let code: u8 = if magnitude <= 0x3a80_0000 {
        0
    } else if magnitude <= 0x3b40_0000 {
        1
    } else if magnitude <= 0x3ba0_0000 {
        2
    } else if magnitude <= 0x3be0_0000 {
        3
    } else if magnitude <= 0x3c10_0000 {
        4
    } else if magnitude <= 0x3c30_0000 {
        5
    } else if magnitude <= 0x3c50_0000 {
        6
    } else if magnitude <= 0x3c70_0000 {
        7
    } else {
        8
    };
    proof {
        let c = code as int;
        assert(code_units(0) == 0 && code_units(1) == pow2(140) && code_units(2) == 2 * pow2(140));
        assert(code_units(3) == 3 * pow2(140) && code_units(4) == 4 * pow2(140));
        assert(code_units(5) == 5 * pow2(140) && code_units(6) == 6 * pow2(140));
        assert(code_units(7) == 7 * pow2(140) && code_units(8) == 8 * pow2(140));
        lemma_between(8, 0, 0x3c80_0000);
        lemma_above(magnitude, 0x3c80_0000);
        lemma_codes_increase(8, 9);
        lemma_codes_increase(8, 0x7e);
        assert(units(magnitude) <= code_units(8));
        lemma_nearest(units(magnitude), c);
    }
    code
}

fn large_code(magnitude: u32) -> (code: u8)
    requires
        0x3c80_0000 <= magnitude < 0x43e0_0000,
    ensures
        nearest_code(units(magnitude), code as int),
{
    let floor: u32 = (magnitude - 0x3c00_0000) / 0x10_0000;
    let part: u32 = (magnitude - 0x3c00_0000) % 0x10_0000;
    let code: u32 = if part > 0x8_0000 {
        floor + 1
    } else {
        floor
    };
    proof {
        let low = floor as int;
        let unit = pow2((low / 8 + 119) as nat) as int;
        lemma_pow2_pos((low / 8 + 119) as nat);
        lemma_between(low, part as int, magnitude);
        assert(part * unit <= 0x10_0000 * unit) by (nonlinear_arith)
            requires
                part <= 0x10_0000,
                unit > 0,
        ;
        lemma_codes_increase(low - 1, low);
        lemma_codes_increase(low, low + 1);
        if low + 1 < 0x7e {
            lemma_codes_increase(low + 1, low + 2);
            lemma_codes_increase(low + 1, 0x7e);
        }
        assert(units(magnitude) <= code_units(low + 1));
        if part > 0x8_0000 {
            assert(2 * (part * unit) > 0x10_0000 * unit) by (nonlinear_arith)
                requires
                    part > 0x8_0000,
                    unit > 0,
            ;
        } else {
            assert(2 * (part * unit) <= 0x10_0000 * unit) by (nonlinear_arith)
                requires
                    part <= 0x8_0000,
                    unit > 0,
            ;
            assert(part * unit >= 0) by (nonlinear_arith)
                requires
                    part >= 0,
                    unit > 0,
            ;
        }
        lemma_nearest(units(magnitude), code as int);
    }
    code as u8
}

/// The code that is nearest to a number, with the sign of the number.
pub fn f32_to_e4m3fn(bits: u32) -> (code: u8)
    ensures
        nearest_code(target_units((bits % 0x8000_0000) as u32), code as int % 128),
        code >= 128 <==> bits >= 0x8000_0000,
{
    let sign: u8 = if bits >= 0x8000_0000 {
        128
    } else {
        0
    };
    let magnitude: u32 = bits % 0x8000_0000;
    if magnitude >= 0x43e0_0000 {
        proof {
            lemma_codes_increase(0x7d, 0x7e);
            lemma_nearest(code_units(0x7e), 0x7e);
        }
        return sign + 0x7e;
    }
    if magnitude < 0x3c80_0000 {
        return sign + small_code(magnitude);
    }
    sign + large_code(magnitude)
}

/// The number that a code stands for, as bits.
pub fn e4m3fn_to_f32(code: u8) -> (bits: u32)
    ensures
        code % 128 == 127 ==> bits == 0x7fc0_0000,
        code % 128 != 127 ==> {
            &&& bits % 0x8000_0000 < 0x7f80_0000
            &&& units((bits % 0x8000_0000) as u32) == code_units(code as int % 128)
            &&& (bits >= 0x8000_0000 <==> code >= 128)
        },
{
    let positive: u8 = code % 128;
    if positive == 127 {
        return 0x7fc0_0000;
    }
    let magnitude: u32 = if positive >= 8 {
        0x3c00_0000 + positive as u32 * 0x10_0000
    } else {
        match positive {
            0 => 0,
            1 => 0x3b00_0000,
            2 => 0x3b80_0000,
            3 => 0x3bc0_0000,
            4 => 0x3c00_0000,
            5 => 0x3c20_0000,
            6 => 0x3c40_0000,
            _ => 0x3c60_0000,
        }
    };
    proof {
        if positive >= 8 {
            lemma_between(positive as int, 0, magnitude);
        } else {
            lemma_small_codes();
            assert(code_units(0) == 0 && code_units(1) == pow2(140) && code_units(2) == 2 * pow2(
                140,
            ));
            assert(code_units(3) == 3 * pow2(140) && code_units(4) == 4 * pow2(140));
            assert(code_units(5) == 5 * pow2(140) && code_units(6) == 6 * pow2(140));
            assert(code_units(7) == 7 * pow2(140));
            assert(units(0x3b00_0000) == 0x80_0000 * pow2(117));
            assert(units(0x3b80_0000) == 0x80_0000 * pow2(118));
            assert(units(0x3bc0_0000) == 0xc0_0000 * pow2(118));
            assert(units(0x3c00_0000) == 0x80_0000 * pow2(119));
            assert(units(0x3c20_0000) == 0xa0_0000 * pow2(119));
            assert(units(0x3c40_0000) == 0xc0_0000 * pow2(119));
            assert(units(0x3c60_0000) == 0xe0_0000 * pow2(119));
        }
        assert(units(magnitude) == code_units(positive as int));
        assert((magnitude + 0x8000_0000) % 0x8000_0000 == magnitude);
    }
    if code >= 128 {
        magnitude + 0x8000_0000
    } else {
        magnitude
    }
}

/// A code is the code of the number that it stands for.
pub proof fn decoded_codes_encode_back(code: int, other: int)
    requires
        0 <= code <= 0x7e,
        nearest_code(code_units(code), other),
    ensures
        other == code,
{
    if other != code {
        assert(distance(code_units(code), code) == 0);
        assert(distance(code_units(code), other) < distance(code_units(code), code) || distance(
            code_units(code),
            other,
        ) == distance(code_units(code), code) && other <= code);
        if other < code {
            lemma_codes_increase(other, code);
        } else {
            lemma_codes_increase(code, other);
        }
    }
}

/// The whole number that is nearest to a magnitude; of two that are equally
/// near, it is the larger one. No number is larger than 127, and what is no
/// number counts as zero.
pub open spec fn rounded(magnitude: u32) -> int {
    if magnitude > 0x7f80_0000 {
        0
    } else if magnitude >= 0x42fe_0000 {
        127
    } else {
        (units(magnitude) + pow2(148)) / pow2(149) as int
    }
}

/// A signed number of eight bits, as a byte.
pub open spec fn signed_byte(negative: bool, magnitude: int) -> int {
    if negative && magnitude > 0 {
        256 - magnitude
    } else {
        magnitude
    }
}

/// Rounding can be done on the fraction alone.
proof fn lemma_rounded(magnitude: u32, divisor: int)
    requires
        126 <= magnitude as int / 0x80_0000 <= 133,
        divisor == pow2((150 - magnitude as int / 0x80_0000) as nat),
    ensures
        (units(magnitude) + pow2(148)) / pow2(149) as int == (0x80_0000 + magnitude as int
            % 0x80_0000 + divisor / 2) / divisor,
{
    let exponent = magnitude as int / 0x80_0000;
    let whole = 0x80_0000 + magnitude as int % 0x80_0000;
    let unit = pow2((exponent - 1) as nat) as int;
    let half = pow2((149 - exponent) as nat) as int;
    lemma_pow2_pos((exponent - 1) as nat);
    lemma_pow2_pos((150 - exponent) as nat);
    lemma_pow2_unfold((150 - exponent) as nat);
    lemma_pow2_adds((exponent - 1) as nat, (150 - exponent) as nat);
    lemma_pow2_adds((exponent - 1) as nat, (149 - exponent) as nat);
    assert(divisor / 2 == half);
    assert(whole * unit + unit * half == unit * (whole + half)) by (nonlinear_arith);
    lemma_div_multiples_vanish(whole + half, unit);
    lemma_div_denominator(unit * (whole + half), unit, divisor);
}

fn whole_number(magnitude: u32) -> (number: u8)
    requires
        magnitude < 0x42fe_0000,
    ensures
        number == rounded(magnitude),
        number <= 127,
{
    let exponent: u32 = magnitude / 0x80_0000;
    if exponent < 126 {
        proof {
            lemma_units_increase(magnitude, 0x3f00_0000);
            lemma2_to64();
            lemma_pow2_adds(23, 125);
            assert(units(0x3f00_0000) == 0x80_0000 * pow2(125));
            lemma_pow2_unfold(149);
            lemma_pow2_pos(148);
            assert(0 <= units(magnitude) < pow2(148)) by {
                if exponent > 0 {
                    lemma_pow2_pos((exponent - 1) as nat);
                    let fraction = magnitude as int % 0x80_0000;
                    assert((0x80_0000 + fraction) * pow2((exponent - 1) as nat) >= 0)
                        by (nonlinear_arith)
                        requires
                            fraction >= 0,
                            pow2((exponent - 1) as nat) > 0,
                    ;
                }
            }
            lemma_basic_div(units(magnitude) + pow2(148), pow2(149) as int);
        }
        return 0;
    }
    let divisor: u32 = match exponent {
        126 => 0x100_0000,
        127 => 0x80_0000,
        128 => 0x40_0000,
        129 => 0x20_0000,
        130 => 0x10_0000,
        131 => 0x8_0000,
        132 => 0x4_0000,
        _ => 0x2_0000,
    };
    let fraction: u32 = magnitude % 0x80_0000;
    proof {
        lemma2_to64();
        lemma_rounded(magnitude, divisor as int);
    }
    let number: u32 = (0x80_0000 + fraction + divisor / 2) / divisor;
    number as u8
}

/// The signed number of eight bits that is nearest to a number, as a byte.
pub fn f32_to_int8(bits: u32) -> (byte: u8)
    ensures
        byte == signed_byte(bits >= 0x8000_0000, rounded((bits % 0x8000_0000) as u32)),
{
    let magnitude: u32 = bits % 0x8000_0000;
    let number: u8 = if magnitude > 0x7f80_0000 {
        0
    } else if magnitude >= 0x42fe_0000 {
        127
    } else {
        whole_number(magnitude)
    };
    if bits >= 0x8000_0000 && number > 0 {
        (256 - number as u16) as u8
    } else {
        number
    }
}

/// Whether a byte is the code of a number in a row-scaled profile.
pub open spec fn is_code(profile: ScoringProfile, bits: u32, byte: u8) -> bool {
    let magnitude = (bits % 0x8000_0000) as u32;
    if profile == ScoringProfile::Int8 {
        byte == signed_byte(bits >= 0x8000_0000, rounded(magnitude))
    } else {
        nearest_code(target_units(magnitude), byte as int % 128) && (byte >= 128 <==> bits
            >= 0x8000_0000)
    }
}

/// The code of a number in a row-scaled profile.
pub fn scalar_code(profile: ScoringProfile, bits: u32) -> (byte: u8)
    ensures
        is_code(profile, bits, byte),
{
    match profile {
        ScoringProfile::Int8 => f32_to_int8(bits),
        _ => f32_to_e4m3fn(bits),
    }
}

/// The whole number for a magnitude below 127 is the nearest: twice their distance is at
/// most one, in units of the smallest number.
pub proof fn whole_numbers_are_nearest(magnitude: u32)
    requires
        magnitude < 0x42fe_0000,
    ensures
        -(pow2(149) as int) < 2 * (units(magnitude) - rounded(magnitude) * pow2(149)) + 1
            && 2 * (units(magnitude) - rounded(magnitude) * pow2(149)) < pow2(149),
{
    let one = pow2(149) as int;
    lemma_pow2_pos(149);
    lemma_pow2_unfold(149);
    let shifted = units(magnitude) + pow2(148);
    vstd::arithmetic::div_mod::lemma_fundamental_div_mod(shifted, one);
    vstd::arithmetic::div_mod::lemma_mod_bound(shifted, one);
    vstd::arithmetic::mul::lemma_mul_is_commutative(one, shifted / one);
}

/// What is no number is coded as zero, and what is 127 or more as 127.
pub proof fn large_numbers_saturate(magnitude: u32)
    ensures
        magnitude > 0x7f80_0000 ==> rounded(magnitude) == 0,
        0x42fe_0000 <= magnitude <= 0x7f80_0000 ==> rounded(magnitude) == 127,
{
}

/// A byte stands for a signed number: a negative one is its two's complement.
pub proof fn signed_bytes_are_twos_complement(negative: bool, magnitude: int)
    requires
        0 <= magnitude <= 127,
    ensures
        0 <= signed_byte(negative, magnitude) <= 255,
        (signed_byte(negative, magnitude) + (if negative {
            magnitude
        } else {
            -magnitude
        })) % 256 == 0,
        signed_byte(negative, magnitude) >= 128 <==> negative && magnitude > 0,
{
}

} // verus!
