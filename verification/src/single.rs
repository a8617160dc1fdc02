//! Single-precision numbers, with integers.
//!
//! A single-precision number has twenty-four binary digits.  Scaling by a power of two does not
//! change how a number is rounded, so a fraction is handled here as a large integer.  A number that
//! comes from outside is handled as its bit pattern: a sign, an exponent and a fraction.

use vstd::arithmetic::div_mod::*;
use vstd::arithmetic::power2::{lemma2_to64, lemma_pow2_unfold, pow2};
use vstd::prelude::*;

verus! {

/// The step between neighbouring single-precision numbers at `value`, and no less than one.
pub open spec fn unit_of(value: nat) -> nat
    decreases value,
{
    if value < 0x100_0000 {
        1
    } else {
        2 * unit_of(value / 2)
    }
}

/// The multiple of `unit` that is nearest to a fraction; of two, the even one.
pub open spec fn nearest(numerator: nat, denominator: nat, unit: nat) -> nat {
    let step = denominator * unit;
    let below = numerator / step;
    let rest = numerator % step;
    if 2 * rest < step || (2 * rest == step && below % 2 == 0) {
        below * unit
    } else {
        (below + 1) * unit
    }
}

/// A fraction rounded to single precision.
pub open spec fn single(numerator: nat, denominator: nat) -> nat {
    nearest(numerator, denominator, unit_of(numerator / denominator))
}

proof fn lemma_unit_of(value: nat)
    ensures
        unit_of(value) >= 1,
        unit_of(value) == 1 || 0x80_0000 * unit_of(value) <= value,
    decreases value,
{
    if value >= 0x100_0000 {
        lemma_unit_of(value / 2);
    }
}

/// The unit never exceeds the value that it belongs to.
proof fn lemma_unit_fits(numerator: nat, denominator: nat)
    requires
        denominator > 0,
    ensures
        unit_of(numerator / denominator) >= 1,
        denominator * unit_of(numerator / denominator) <= numerator + denominator,
        numerator / denominator >= 0x100_0000 ==> 0x80_0000 * (denominator * unit_of(
            numerator / denominator,
        )) <= numerator,
{
    let value = numerator / denominator;
    let unit = unit_of(value);
    lemma_unit_of(value);
    lemma_fundamental_div_mod(numerator as int, denominator as int);
    if unit == 1 {
        assert(value >= 0x100_0000 ==> unit_of(value / 2) >= 1) by {
            lemma_unit_of(value / 2);
        }
    } else {
        assert(0x80_0000 * (denominator * unit) <= denominator * value) by (nonlinear_arith)
            requires
                0x80_0000 * unit <= value,
        ;
    }
}

/// Rounding loses at most one part in two to the twenty-fourth.
pub proof fn lemma_single_is_close(numerator: nat, denominator: nat)
    requires
        denominator > 0,
    ensures
        numerator / denominator >= 0x100_0000 ==> 0x100_0000 * (denominator * single(
            numerator,
            denominator,
        )) >= 0xff_ffff * numerator,
        numerator / denominator >= 0x100_0000 ==> 0x100_0000 * (denominator * single(
            numerator,
            denominator,
        )) <= 0x100_0001 * numerator,
        denominator * single(numerator, denominator) <= 2 * numerator + denominator,
{
    let unit = unit_of(numerator / denominator);
    let step = denominator * unit;
    lemma_unit_fits(numerator, denominator);
    assert(step >= 1) by (nonlinear_arith)
        requires
            step == denominator * unit,
            denominator >= 1,
            unit >= 1,
    ;
    let below = numerator / step;
    lemma_fundamental_div_mod(numerator as int, step as int);
    assert(denominator * (below * unit) == step * below) by (nonlinear_arith)
        requires
            step == denominator * unit,
    ;
    assert(denominator * ((below + 1) * unit) == step * below + step) by (nonlinear_arith)
        requires
            step == denominator * unit,
    ;
}

/// A number of at most twenty-four binary digits with zeros behind them is kept as it is.
pub proof fn lemma_single_of_shifted(digits: nat, shift: nat, denominator: nat)
    requires
        digits < 0x100_0000,
        denominator > 0,
    ensures
        single(digits * pow2(shift) * denominator, denominator) == digits * pow2(shift),
{
    let value = digits * pow2(shift);
    let unit = unit_of(value);
    lemma_unit_divides(digits, shift);
    lemma_unit_of(value);
    lemma_div_by_multiple(value as int, denominator as int);
    assert(value * denominator == denominator * value) by (nonlinear_arith);
    let numerator = value * denominator;
    assert(numerator / denominator == value);
    let step = denominator * unit;
    let count = value / unit;
    lemma_fundamental_div_mod(value as int, unit as int);
    assert(numerator == count * step + 0) by (nonlinear_arith)
        requires
            numerator == value * denominator,
            value == unit * count,
            step == denominator * unit,
    ;
    assert(step > 0) by (nonlinear_arith)
        requires
            step == denominator * unit,
            denominator > 0,
            unit > 0,
    ;
    lemma_fundamental_div_mod_converse(numerator as int, step as int, count as int, 0);
    assert(count * unit == unit * count) by (nonlinear_arith);
}

proof fn lemma_unit_divides(digits: nat, shift: nat)
    requires
        digits < 0x100_0000,
    ensures
        (digits * pow2(shift)) % unit_of(digits * pow2(shift)) == 0,
    decreases shift,
{
    let value = digits * pow2(shift);
    lemma_unit_of(value);
    if value >= 0x100_0000 {
        lemma2_to64();
        if shift == 0 {
            assert(pow2(0) == 1);
            assert(digits * 1 == digits);
        } else {
            let half = digits * pow2((shift - 1) as nat);
            lemma_pow2_unfold(shift);
            assert(value == 2 * half) by (nonlinear_arith)
                requires
                    value == digits * pow2(shift),
                    half == digits * pow2((shift - 1) as nat),
                    pow2(shift) == 2 * pow2((shift - 1) as nat),
            ;
            lemma_unit_divides(digits, (shift - 1) as nat);
            lemma_unit_of(half);
            let unit = unit_of(half);
            let count = half / unit;
            lemma_fundamental_div_mod(half as int, unit as int);
            assert(value == count * (2 * unit) + 0) by (nonlinear_arith)
                requires
                    value == 2 * half,
                    half == unit * count,
            ;
            lemma_fundamental_div_mod_converse(value as int, (2 * unit) as int, count as int, 0);
        }
    }
}

fn find_unit(value: u128) -> (unit: u128)
    ensures
        unit == unit_of(value as nat),
{
    let mut rest: u128 = value;
    let mut unit: u128 = 1;
    proof {
        lemma_unit_of(value as nat);
    }
    while rest >= 0x100_0000
        invariant
            unit * unit_of(rest as nat) == unit_of(value as nat),
            1 <= unit,
            unit_of(value as nat) <= value || unit_of(value as nat) == 1,
        decreases rest,
    {
        proof {
            lemma_unit_of((rest / 2) as nat);
            assert(unit * (2 * unit_of((rest / 2) as nat)) == (2 * unit) * unit_of(
                (rest / 2) as nat,
            )) by (nonlinear_arith);
            let next = unit_of((rest / 2) as nat);
            assert(2 * unit <= (2 * unit) * next) by (nonlinear_arith)
                requires
                    next >= 1,
            ;
        }
        unit = 2 * unit;
        rest = rest / 2;
    }
    proof {
        assert(unit_of(rest as nat) == 1);
        assert(unit * 1 == unit);
    }
    unit
}

/// Rounds a fraction to single precision.
pub fn round_to_single(numerator: u128, denominator: u128) -> (rounded: u128)
    requires
        0 < denominator,
        denominator <= 0x1_0000_0000_0000_0000,
        numerator < 0x1000_0000_0000_0000_0000_0000_0000_0000,
    ensures
        rounded == single(numerator as nat, denominator as nat),
{
    let unit: u128 = find_unit(numerator / denominator);
    proof {
        lemma_unit_fits(numerator as nat, denominator as nat);
        assert((denominator as nat) * (unit as nat) == denominator * unit);
        assert(denominator * unit >= 1) by (nonlinear_arith)
            requires
                denominator >= 1,
                unit >= 1,
        ;
    }
    let step: u128 = denominator * unit;
    let below: u128 = numerator / step;
    let rest: u128 = numerator % step;
    proof {
        lemma_fundamental_div_mod(numerator as int, step as int);
        assert(below * unit <= numerator) by (nonlinear_arith)
            requires
                numerator == step * below + rest,
                step == denominator * unit,
                denominator >= 1,
                unit >= 1,
                below >= 0,
                rest >= 0,
        ;
        assert((below + 1) * unit == below * unit + unit) by (nonlinear_arith);
        assert(unit <= denominator * unit) by (nonlinear_arith)
            requires
                denominator >= 1,
                unit >= 1,
        ;
        assert(below <= numerator) by (nonlinear_arith)
            requires
                below * unit <= numerator,
                unit >= 1,
                below >= 0,
        ;
    }
    if 2 * rest < step || (2 * rest == step && below % 2 == 0) {
        below * unit
    } else {
        (below + 1) * unit
    }
}

/// The exponent of a bit pattern.
pub open spec fn exponent(bits: u32) -> int {
    (bits as int / 0x80_0000) % 0x100
}

/// The digits of a bit pattern as a whole number.  The number is this times two to the power of the
/// exponent less 150, unless the exponent is zero or 255.
pub open spec fn significand(bits: u32) -> int {
    0x80_0000 + bits as int % 0x80_0000
}

/// The bit pattern has its sign set.
pub open spec fn is_negative(bits: u32) -> bool {
    bits >= 0x8000_0000
}

/// The bit pattern is not that of a number.
pub open spec fn is_nan(bits: u32) -> bool {
    exponent(bits) == 255 && bits as int % 0x80_0000 != 0
}

/// The bit pattern is that of a number that is not infinite.
pub open spec fn is_finite(bits: u32) -> bool {
    exponent(bits) != 255
}

/// The bit pattern is that of a number above zero.
pub open spec fn is_positive(bits: u32) -> bool {
    0 < bits <= 0x7f80_0000
}

/// Tells whether a bit pattern is not that of a number.
pub fn nan(bits: u32) -> (result: bool)
    ensures
        result == is_nan(bits),
{
    bits / 0x80_0000 % 0x100 == 255 && bits % 0x80_0000 != 0
}

/// Tells whether a bit pattern is that of a number above zero.
pub fn positive(bits: u32) -> (result: bool)
    ensures
        result == is_positive(bits),
{
    0 < bits && bits <= 0x7f80_0000
}

/// A fraction is rounded to a multiple of the smallest power of two with which 24 binary digits suffice, the
/// nearest one, and of two that are as near the even one.
pub proof fn lemma_fraction_is_rounded(numerator: u128, denominator: u128, rounded: u128, unit: nat)
    requires
        denominator > 0,
        call_ensures(round_to_single, (numerator, denominator), rounded),
        unit == unit_of((numerator / denominator) as nat),
    ensures
        rounded as nat % unit == 0,
        2 * (denominator * rounded) <= 2 * numerator + denominator * unit,
        2 * numerator <= 2 * (denominator * rounded) + denominator * unit,
        2 * (denominator * rounded) == 2 * numerator + denominator * unit || 2 * numerator == 2 * (
        denominator * rounded) + denominator * unit ==> (rounded as nat / unit) % 2 == 0,
        numerator < denominator * (0x100_0000 * unit),
        unit > 1 ==> numerator >= denominator * (0x80_0000 * unit),
{
    let n = numerator as nat;
    let d = denominator as nat;
    let value = n / d;
    lemma_unit_of(value);
    lemma_unit_above(value);
    lemma_fundamental_div_mod(n as int, d as int);
    let left = n % d;
    assert(n < d * (0x100_0000 * unit)) by (nonlinear_arith)
        requires
            n == d * value + left,
            left < d,
            value + 1 <= 0x100_0000 * unit,
    ;
    if unit > 1 {
        assert(n >= d * (0x80_0000 * unit)) by (nonlinear_arith)
            requires
                n >= d * value,
                value >= 0x80_0000 * unit,
        ;
    }
    let step = d * unit;
    assert(step > 0) by (nonlinear_arith)
        requires
            step == d * unit,
            d > 0,
            unit >= 1,
    ;
    let below = n / step;
    lemma_fundamental_div_mod(n as int, step as int);
    assert(d * (below * unit) == step * below) by (nonlinear_arith)
        requires
            step == d * unit,
    ;
    assert(d * ((below + 1) * unit) == step * below + step) by (nonlinear_arith)
        requires
            step == d * unit,
    ;
    let count = if rounded == below * unit {
        below
    } else {
        below + 1
    };
    assert(rounded as nat == count * unit);
    lemma_div_multiples_vanish(count as int, unit as int);
    lemma_mod_multiples_basic(count as int, unit as int);
    assert(count * unit == unit * count) by (nonlinear_arith);
}

proof fn lemma_unit_above(value: nat)
    ensures
        value < 0x100_0000 * unit_of(value),
    decreases value,
{
    if value >= 0x100_0000 {
        lemma_unit_above(value / 2);
    }
}

/// A pattern is no number if it lies beyond that of infinity, whatever its sign; it is above zero if it has
/// no sign, is a number, and is not zero.
pub proof fn lemma_patterns_are_told_apart(bits: u32, no_number: bool, above: bool)
    requires
        call_ensures(nan, (bits,), no_number),
        call_ensures(positive, (bits,), above),
    ensures
        no_number <==> 0x7f80_0000 < bits < 0x8000_0000 || bits > 0xff80_0000,
        above <==> 0 < bits <= 0x7f80_0000,
{
}

} // verus!
