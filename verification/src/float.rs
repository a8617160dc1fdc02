//! Numbers of single and double precision that are not negative, with integers.
//!
//! A number is counted in units of two to the power of minus 4000, so that every number of either
//! precision is whole, and so is whatever precedes its rounding.

use vstd::arithmetic::div_mod::*;
use vstd::arithmetic::power2::{
    lemma2_to64, lemma_pow2_adds, lemma_pow2_pos, lemma_pow2_strictly_increases, lemma_pow2_unfold,
    pow2,
};
use vstd::prelude::*;

use crate::single::{exponent, nearest, significand};

verus! {

/// The step between neighbouring numbers of `digits` binary digits at `value` is two to this power,
/// which is never less than `least`.
pub open spec fn power_of(value: nat, digits: nat, least: nat) -> nat
    decreases value,
{
    if value < pow2(digits + least) {
        least
    } else {
        proof {
            lemma_pow2_pos(digits + least);
        }
        1 + power_of(value / 2, digits, least)
    }
}

/// A fraction rounded to `digits` binary digits.
pub open spec fn rounded(numerator: nat, denominator: nat, digits: nat, least: nat) -> nat {
    nearest(numerator, denominator, pow2(power_of(numerator / denominator, digits, least)))
}

/// The number one.
pub open spec fn one() -> nat {
    pow2(4000)
}

/// A whole number.
pub open spec fn whole(value: nat) -> nat {
    value * one()
}

/// A fraction of units rounded to double precision.
pub open spec fn double(numerator: nat, denominator: nat) -> nat {
    rounded(numerator, denominator, 53, 2926)
}

/// A fraction of units rounded to single precision.
pub open spec fn single(numerator: nat, denominator: nat) -> nat {
    rounded(numerator, denominator, 24, 3851)
}

/// The number with a bit pattern of single precision.
pub open spec fn number(bits: u32) -> nat {
    if exponent(bits) == 0 {
        (bits as nat % 0x80_0000) * pow2(3851)
    } else {
        significand(bits) as nat * pow2((3850 + exponent(bits)) as nat)
    }
}

/// `bits` is the pattern of `value`.
pub open spec fn is_pattern_of(bits: u32, value: nat) -> bool {
    bits < 0x7f80_0000 && number(bits) == value
}

/// The bit pattern of a number of single precision.
pub open spec fn pattern(value: nat) -> u32 {
    choose|bits: u32| is_pattern_of(bits, value)
}

/// Numbers are ordered as their bit patterns are.
pub proof fn lemma_numbers_are_ordered(a: u32, b: u32)
    requires
        a < b < 0x7f80_0000,
    ensures
        number(a) < number(b),
{
    lemma_pow2_pos(3851);
    lemma_pow2_pos((3850 + exponent(a)) as nat);
    lemma_pow2_pos((3850 + exponent(b)) as nat);
    if exponent(a) == exponent(b) {
        let scale = if exponent(a) == 0 {
            pow2(3851)
        } else {
            pow2((3850 + exponent(a)) as nat)
        };
        let low = if exponent(a) == 0 {
            a as int % 0x80_0000
        } else {
            significand(a)
        };
        let high = if exponent(a) == 0 {
            b as int % 0x80_0000
        } else {
            significand(b)
        };
        assert(low < high);
        assert(low * scale < high * scale) by (nonlinear_arith)
            requires
                low < high,
                scale > 0,
        ;
    } else {
        let edge = (3850 + exponent(b)) as nat;
        let scale = pow2(edge);
        assert(number(b) >= 0x80_0000 * scale) by (nonlinear_arith)
            requires
                number(b) == significand(b) * scale,
                significand(b) >= 0x80_0000,
        ;
        if exponent(a) == 0 {
            if edge > 3851 {
                lemma_pow2_strictly_increases(3851, edge);
            }
            assert(number(a) < 0x80_0000 * scale) by (nonlinear_arith)
                requires
                    number(a) == (a as int % 0x80_0000) * pow2(3851),
                    pow2(3851) <= scale,
                    pow2(3851) > 0,
                    (a as int % 0x80_0000) < 0x80_0000,
            ;
        } else {
            let own = (3850 + exponent(a)) as nat;
            lemma_pow2_unfold(own + 1);
            if own + 1 < edge {
                lemma_pow2_strictly_increases(own + 1, edge);
            }
            assert(number(a) < 0x80_0000 * scale) by (nonlinear_arith)
                requires
                    number(a) == significand(a) * pow2(own),
                    2 * pow2(own) <= scale,
                    pow2(own) > 0,
                    significand(a) < 0x100_0000,
            ;
        }
    }
}

/// A number has one pattern.
pub proof fn lemma_pattern(bits: u32, value: nat)
    requires
        is_pattern_of(bits, value),
    ensures
        pattern(value) == bits,
{
    let found = pattern(value);
    assert(is_pattern_of(found, value));
    if found < bits {
        lemma_numbers_are_ordered(found, bits);
    } else if bits < found {
        lemma_numbers_are_ordered(bits, found);
    }
}

/// The bit pattern of what is measured: a number up to two to the power of 32.
pub open spec fn is_amount(bits: u32) -> bool {
    bits <= 0x4f80_0000
}

/// The bit pattern of a mean of what is measured: a number up to two to the power of 86.
pub open spec fn is_mean(bits: u32) -> bool {
    bits <= 0x6a80_0000
}

/// What the bit patterns of amounts and means stand for.
pub proof fn lemma_amount(bits: u32)
    requires
        bits < 0x7f80_0000,
    ensures
        is_amount(bits) <==> number(bits) <= pow2(4032),
        is_mean(bits) <==> number(bits) <= pow2(4086),
{
    let amount: u32 = 0x4f80_0000;
    let mean: u32 = 0x6a80_0000;
    lemma2_to64();
    lemma_pow2_adds(23, 4009);
    lemma_pow2_adds(23, 4063);
    assert(exponent(amount) == 159 && significand(amount) == 0x80_0000);
    assert(exponent(mean) == 213 && significand(mean) == 0x80_0000);
    assert(number(amount) == 0x80_0000 * pow2(4009));
    assert(number(mean) == 0x80_0000 * pow2(4063));
    if bits < amount {
        lemma_numbers_are_ordered(bits, amount);
    } else if bits > amount {
        lemma_numbers_are_ordered(amount, bits);
    }
    if bits < mean {
        lemma_numbers_are_ordered(bits, mean);
    } else if bits > mean {
        lemma_numbers_are_ordered(mean, bits);
    }
}

proof fn lemma_power_of(value: nat, digits: nat, least: nat, power: nat)
    requires
        power >= least,
        value < pow2(digits + power),
        power > least ==> value >= pow2((digits + power - 1) as nat),
    ensures
        power_of(value, digits, least) == power,
    decreases power,
{
    if power > least {
        if digits + power - 1 > digits + least {
            lemma_pow2_strictly_increases(digits + least, (digits + power - 1) as nat);
        }
        lemma_pow2_unfold(digits + power);
        lemma_pow2_pos((digits + power - 1) as nat);
        if power - 1 > least {
            lemma_pow2_unfold((digits + power - 1) as nat);
        }
        lemma_power_of(value / 2, digits, least, (power - 1) as nat);
    }
}

/// A value below a bound has a step below it.
pub proof fn lemma_power_bound(value: nat, digits: nat, least: nat, bound: nat)
    requires
        bound >= least,
        value < pow2(digits + bound),
    ensures
        least <= power_of(value, digits, least) <= bound,
    decreases bound,
{
    if value >= pow2(digits + least) {
        lemma_pow2_pos(digits + least);
        lemma_pow2_unfold(digits + bound);
        lemma_power_bound(value / 2, digits, least, (bound - 1) as nat);
    }
}

/// A number of at most so many digits is kept as it is, and nothing up to it is rounded beyond it.
pub proof fn lemma_rounded_keeps_bound(
    numerator: nat,
    denominator: nat,
    digits: nat,
    least: nat,
    count: nat,
    power: nat,
)
    requires
        denominator > 0,
        power >= least,
        count < pow2(digits),
        numerator <= denominator * (count * pow2(power)),
    ensures
        rounded(numerator, denominator, digits, least) <= count * pow2(power),
        numerator == denominator * (count * pow2(power)) ==> rounded(
            numerator,
            denominator,
            digits,
            least,
        ) == count * pow2(power),
{
    let n = numerator;
    let d = denominator;
    let bound = count * pow2(power);
    let value = n / d;
    lemma_pow2_pos(power);
    lemma_pow2_adds(digits, power);
    lemma_fundamental_div_mod(n as int, d as int);
    assert(value <= bound) by (nonlinear_arith)
        requires
            d * value <= n,
            n <= d * bound,
            d > 0,
    ;
    assert(bound < pow2(digits) * pow2(power)) by (nonlinear_arith)
        requires
            bound == count * pow2(power),
            count < pow2(digits),
            pow2(power) > 0,
    ;
    lemma_power_bound(value, digits, least, power);
    let own = power_of(value, digits, least);
    let unit = pow2(own);
    let times = pow2((power - own) as nat);
    lemma_pow2_pos(own);
    lemma_pow2_pos((power - own) as nat);
    lemma_pow2_adds((power - own) as nat, own);
    let step = d * unit;
    assert(step > 0) by (nonlinear_arith)
        requires
            step == d * unit,
            d > 0,
            unit > 0,
    ;
    let below = n / step;
    lemma_fundamental_div_mod(n as int, step as int);
    let most = count * times;
    assert(bound == most * unit) by (nonlinear_arith)
        requires
            bound == count * pow2(power),
            pow2(power) == times * unit,
            most == count * times,
    ;
    assert(d * bound == most * step) by (nonlinear_arith)
        requires
            bound == most * unit,
            step == d * unit,
    ;
    assert(below <= most) by (nonlinear_arith)
        requires
            step * below <= n,
            n <= most * step,
            step > 0,
    ;
    if below == most {
        assert(step * below == most * step) by (nonlinear_arith)
            requires
                below == most,
        ;
        assert(n % step == 0);
    } else {
        assert((below + 1) * unit <= most * unit) by (nonlinear_arith)
            requires
                below + 1 <= most,
                unit > 0,
        ;
        assert(below * unit <= most * unit) by (nonlinear_arith)
            requires
                below <= most,
                unit > 0,
        ;
        if n == d * bound {
            lemma_fundamental_div_mod_converse(n as int, step as int, most as int, 0);
        }
    }
}

/// Rounding keeps the order.
pub proof fn lemma_rounded_is_monotone(
    smaller: nat,
    larger: nat,
    denominator: nat,
    digits: nat,
    least: nat,
)
    requires
        denominator > 0,
        digits >= 1,
        smaller <= larger,
    ensures
        rounded(smaller, denominator, digits, least) <= rounded(larger, denominator, digits, least),
{
    let d = denominator;
    let low = smaller / d;
    let high = larger / d;
    lemma_div_is_ordered(smaller as int, larger as int, d as int);
    let low_power = power_of(low, digits, least);
    let high_power = power_of(high, digits, least);
    lemma_step_exists(low, digits, least);
    lemma_step_exists(high, digits, least);
    let unit = pow2(high_power);
    lemma_pow2_pos(high_power);
    let step = d * unit;
    assert(step > 0) by (nonlinear_arith)
        requires
            step == d * unit,
            d > 0,
            unit > 0,
    ;
    lemma_fundamental_div_mod(larger as int, step as int);
    let below = larger / step;
    if low_power == high_power {
        lemma_fundamental_div_mod(smaller as int, step as int);
        let other = smaller / step;
        lemma_div_is_ordered(smaller as int, larger as int, step as int);
        assert(other <= below);
        assert(other * unit <= below * unit) by (nonlinear_arith)
            requires
                other <= below,
                unit > 0,
        ;
        assert((other + 1) * unit <= (below + 1) * unit) by (nonlinear_arith)
            requires
                other <= below,
                unit > 0,
        ;
        if other < below {
            assert((other + 1) * unit <= below * unit) by (nonlinear_arith)
                requires
                    other + 1 <= below,
                    unit > 0,
            ;
        } else {
            assert(smaller % step <= larger % step) by {
                assert(step * other == step * below);
            }
        }
        assert(below * unit <= (below + 1) * unit) by (nonlinear_arith)
            requires
                unit > 0,
        ;
    } else {
        if low_power > high_power {
            if digits + high_power < digits + low_power - 1 {
                lemma_pow2_strictly_increases(
                    digits + high_power,
                    (digits + low_power - 1) as nat,
                );
            }
            assert(false);
        }
        let edge = pow2((digits + high_power - 1) as nat);
        if digits + low_power < digits + high_power - 1 {
            lemma_pow2_strictly_increases(digits + low_power, (digits + high_power - 1) as nat);
        }
        lemma_fundamental_div_mod(smaller as int, d as int);
        assert(smaller <= d * edge) by (nonlinear_arith)
            requires
                smaller < d * low + d,
                low + 1 <= edge,
                d > 0,
        ;
        lemma2_to64();
        let count = pow2((digits - 1) as nat);
        lemma_pow2_unfold(digits);
        lemma_pow2_pos((digits - 1) as nat);
        lemma_pow2_adds((digits - 1) as nat, high_power);
        lemma_rounded_keeps_bound(smaller, d, digits, least, count, high_power);
        lemma_fundamental_div_mod(larger as int, d as int);
        assert(larger >= d * edge) by (nonlinear_arith)
            requires
                d * high <= larger,
                high >= edge,
                d > 0,
        ;
        assert(below >= count) by (nonlinear_arith)
            requires
                larger < step * below + step,
                larger >= d * edge,
                edge == count * unit,
                step == d * unit,
                step > 0,
        ;
        assert(below * unit >= count * unit) by (nonlinear_arith)
            requires
                below >= count,
                unit > 0,
        ;
        assert((below + 1) * unit >= count * unit) by (nonlinear_arith)
            requires
                below >= count,
                unit > 0,
        ;
    }
}

/// Every value has its step.
proof fn lemma_step_exists(value: nat, digits: nat, least: nat)
    requires
        digits >= 1,
    ensures
        power_of(value, digits, least) >= least,
        value < pow2(digits + power_of(value, digits, least)),
        power_of(value, digits, least) > least ==> value >= pow2(
            (digits + power_of(value, digits, least) - 1) as nat,
        ),
    decreases value,
{
    if value >= pow2(digits + least) {
        lemma_pow2_pos(digits + least);
        lemma_step_exists(value / 2, digits, least);
        let half = power_of(value / 2, digits, least);
        lemma_pow2_unfold(digits + half + 1);
        if half > least {
            lemma_pow2_unfold((digits + half) as nat);
        }
    }
}

/// Where the step has grown too large, a small addition changes nothing.
pub proof fn lemma_rounded_stays(numerator: nat, digits: nat, least: nat, power: nat)
    requires
        digits >= 1,
        power >= digits + least,
        numerator < pow2(power) + pow2((power - digits) as nat),
    ensures
        rounded(numerator, 1, digits, least) <= pow2(power),
{
    let n = numerator;
    lemma_pow2_pos((power - digits) as nat);
    if n < pow2(power) {
        lemma2_to64();
        if digits > 1 {
            lemma_pow2_strictly_increases(1, digits);
        }
        lemma_pow2_unfold(power);
        lemma_pow2_adds(1, (power - 1) as nat);
        assert(1 * pow2(power) == pow2(power));
        assert(1 * (1 * pow2(power)) == pow2(power));
        lemma_rounded_keeps_bound(n, 1, digits, least, 1, power);
    } else {
        let own = (power - digits + 1) as nat;
        let unit = pow2(own);
        lemma_pow2_unfold(own);
        lemma_pow2_unfold((power + 1) as nat);
        if digits > 0 {
            lemma_pow2_strictly_increases((power - digits) as nat, power);
        }
        lemma_power_of(n, digits, least, own);
        assert(n / 1 == n);
        let below = pow2((digits - 1) as nat);
        lemma_pow2_adds((digits - 1) as nat, own);
        assert(1 * unit == unit);
        lemma_fundamental_div_mod_converse(
            n as int,
            unit as int,
            below as int,
            n - pow2(power),
        );
    }
}

/// A value above a bound has a step above it.
pub proof fn lemma_power_least(value: nat, digits: nat, least: nat, power: nat)
    requires
        digits >= 1,
        power >= least,
        value >= pow2((digits + power - 1) as nat),
    ensures
        power_of(value, digits, least) >= power,
{
    lemma_step_exists(value, digits, least);
    let own = power_of(value, digits, least);
    if own < power && digits + own < digits + power - 1 {
        lemma_pow2_strictly_increases(digits + own, (digits + power - 1) as nat);
    }
}

/// What is at most a power of two is so after rounding, too, and its step is bounded.
pub proof fn lemma_round_bound(numerator: nat, denominator: nat, power: nat, to: Precision)
    requires
        denominator > 0,
        numerator <= denominator * pow2(power),
        power + 1 >= to.digits() + to.least(),
    ensures
        to.round(numerator, denominator) <= pow2(power),
        to.least() <= to.power(numerator, denominator) <= power + 1 - to.digits(),
{
    let n = numerator;
    let d = denominator;
    lemma_fundamental_div_mod(n as int, d as int);
    let value = n / d;
    assert(value <= pow2(power)) by (nonlinear_arith)
        requires
            d * value <= n,
            n <= d * pow2(power),
            d > 0,
    ;
    lemma_pow2_unfold(power + 1);
    lemma_pow2_pos(power);
    lemma_power_bound(value, to.digits(), to.least(), (power + 1 - to.digits()) as nat);
    lemma2_to64();
    lemma_pow2_digits();
    assert(1 * pow2(power) == pow2(power));
    lemma_rounded_keeps_bound(n, d, to.digits(), to.least(), 1, power);
}

/// A fraction that is not the middle between two numbers is rounded to the nearer one.
pub proof fn lemma_rounded_is(
    numerator: nat,
    denominator: nat,
    digits: nat,
    least: nat,
    power: nat,
    below: nat,
    rest: nat,
)
    requires
        denominator > 0,
        digits >= 1,
        power >= least,
        numerator == below * (denominator * pow2(power)) + rest,
        rest < denominator * pow2(power),
        2 * rest != denominator * pow2(power),
        pow2((digits - 1) as nat) <= below < pow2(digits),
    ensures
        rounded(numerator, denominator, digits, least) == if 2 * rest < denominator * pow2(power) {
            below * pow2(power)
        } else {
            (below + 1) * pow2(power)
        },
{
    let n = numerator;
    let d = denominator;
    let unit = pow2(power);
    let step = d * unit;
    lemma_pow2_pos(power);
    lemma_pow2_adds((digits - 1) as nat, power);
    lemma_pow2_adds(digits, power);
    assert(step > 0);
    lemma_fundamental_div_mod_converse(n as int, step as int, below as int, rest as int);
    lemma_fundamental_div_mod(n as int, d as int);
    let value = n / d;
    let low = pow2((digits - 1) as nat);
    let high = pow2(digits);
    assert(value >= low * unit) by (nonlinear_arith)
        requires
            n < d * value + d,
            n >= below * (d * unit),
            below >= low,
            d > 0,
            unit > 0,
    ;
    assert(n < (below + 1) * (d * unit)) by (nonlinear_arith)
        requires
            n < below * (d * unit) + d * unit,
    ;
    assert(value < high * unit) by (nonlinear_arith)
        requires
            d * value <= n,
            n < (below + 1) * (d * unit),
            below + 1 <= high,
            d > 0,
            unit > 0,
    ;
    lemma_power_of(value, digits, least, power);
}

/// Two to a small power.
fn power_of_two(power: u32) -> (value: u128)
    requires
        power < 128,
    ensures
        value == pow2(power as nat),
        value >= 1,
{
    let mut value: u128 = 1;
    let mut i: u32 = 0;
    proof {
        lemma2_to64();
    }
    while i < power
        invariant
            i <= power < 128,
            value == pow2(i as nat),
            value >= 1,
        decreases power - i,
    {
        proof {
            lemma_pow2_unfold((i + 1) as nat);
            if i + 1 < 127 {
                lemma_pow2_strictly_increases((i + 1) as nat, 127);
            }
            lemma_pow2_limit();
        }
        value = 2 * value;
        i = i + 1;
    }
    value
}

proof fn lemma_pow2_limit()
    ensures
        pow2(53) == 0x20_0000_0000_0000,
        pow2(54) == 0x40_0000_0000_0000,
        pow2(64) == 0x1_0000_0000_0000_0000,
        pow2(127) == 0x8000_0000_0000_0000_0000_0000_0000_0000,
{
    lemma2_to64();
    vstd::arithmetic::power2::lemma2_to64_rest();
    lemma_pow2_adds(64, 63);
}

/// The number of binary digits.
fn length_of(value: u128) -> (length: u32)
    requires
        0 < value < 0x8000_0000_0000_0000_0000_0000_0000_0000,
    ensures
        1 <= length <= 127,
        pow2((length - 1) as nat) <= value < pow2(length as nat),
{
    let mut length: u32 = 1;
    let mut rest: u128 = value;
    proof {
        lemma2_to64();
        lemma_pow2_limit();
        assert(pow2(0) * rest == rest);
        assert(pow2(0) * (rest + 1) == rest + 1);
    }
    while rest >= 2
        invariant
            1 <= length <= 127,
            1 <= rest,
            value < pow2(127),
            pow2((length - 1) as nat) * rest <= value < pow2((length - 1) as nat) * (rest + 1),
        decreases rest,
    {
        proof {
            let before = pow2((length - 1) as nat);
            lemma_pow2_unfold(length as nat);
            let half = rest / 2;
            assert((2 * before) * half <= before * rest) by (nonlinear_arith)
                requires
                    2 * half <= rest,
                    before >= 0,
            ;
            assert(before * (rest + 1) <= (2 * before) * (half + 1)) by (nonlinear_arith)
                requires
                    rest + 1 <= 2 * (half + 1),
                    before >= 0,
            ;
            assert((2 * before) * half >= 2 * before) by (nonlinear_arith)
                requires
                    half >= 1,
                    before >= 0,
            ;
            if length == 127 {
                assert(pow2(127) <= value);
            }
        }
        rest = rest / 2;
        length = length + 1;
    }
    proof {
        lemma_pow2_unfold(length as nat);
        let before = pow2((length - 1) as nat);
        assert(before * rest == before) by (nonlinear_arith)
            requires
                rest == 1,
        ;
        assert(before * (rest + 1) == 2 * before) by (nonlinear_arith)
            requires
                rest == 1,
        ;
    }
    length
}

/// A number: `digits` times two to the power of `power` units.
#[derive(Clone, Copy)]
pub struct Float {
    pub digits: u64,
    pub power: u32,
}

impl Float {
    /// The number in units.
    pub open spec fn value(self) -> nat {
        self.digits as nat * pow2(self.power as nat)
    }

    /// The number has at most 53 binary digits, and is not out of all bounds.
    pub open spec fn wf(self) -> bool {
        self.digits <= 0x20_0000_0000_0000 && 2926 <= self.power <= 6000
    }
}

/// How a number of so many digits is cut off.
proof fn lemma_cut(n: nat, d: nat, m: nat, unit: nat, power: nat, shift: nat)
    requires
        d > 0,
        unit == pow2(shift),
        unit % 2 == 0,
        m * (pow2(power) * d) <= n < (m + 1) * (pow2(power) * d),
    ensures
        ({
            let weight = pow2(power) * d;
            let step = d * pow2(power + shift);
            let below = m / unit;
            let rest = m % unit;
            let exact = n == m * weight;
            &&& step > 0
            &&& n / step == below
            &&& 2 * (n % step) < step <==> 2 * rest < unit
            &&& 2 * (n % step) == step <==> 2 * rest == unit && exact
        }),
{
    let weight = pow2(power) * d;
    let step = d * pow2(power + shift);
    let below = m / unit;
    let rest = m % unit;
    let extra = (n - m * weight) as nat;
    lemma_pow2_pos(power);
    lemma_pow2_pos(shift);
    lemma_pow2_adds(power, shift);
    assert(weight > 0) by (nonlinear_arith)
        requires
            weight == pow2(power) * d,
            pow2(power) > 0,
            d > 0,
    ;
    assert(step == unit * weight) by (nonlinear_arith)
        requires
            step == d * pow2(power + shift),
            pow2(power + shift) == pow2(power) * pow2(shift),
            unit == pow2(shift),
            weight == pow2(power) * d,
    ;
    assert(step > 0) by (nonlinear_arith)
        requires
            step == unit * weight,
            unit > 0,
            weight > 0,
    ;
    assert((m + 1) * weight == m * weight + weight) by (nonlinear_arith);
    assert(0 <= extra < weight);
    lemma_fundamental_div_mod(m as int, unit as int);
    let left = (rest * weight + extra) as nat;
    assert(n == below * step + left) by (nonlinear_arith)
        requires
            n == m * weight + extra,
            m == unit * below + rest,
            step == unit * weight,
            left == rest * weight + extra,
    ;
    assert(left < step) by (nonlinear_arith)
        requires
            left == rest * weight + extra,
            extra < weight,
            rest + 1 <= unit,
            step == unit * weight,
    ;
    lemma_fundamental_div_mod_converse(n as int, step as int, below as int, left as int);
    if 2 * rest < unit {
        assert(2 * left < step) by (nonlinear_arith)
            requires
                left == rest * weight + extra,
                extra < weight,
                2 * rest + 2 <= unit,
                step == unit * weight,
        ;
    } else if 2 * rest == unit {
        assert(2 * left == step + 2 * extra) by (nonlinear_arith)
            requires
                left == rest * weight + extra,
                2 * rest == unit,
                step == unit * weight,
        ;
    } else {
        assert(2 * left > step) by (nonlinear_arith)
            requires
                left == rest * weight + extra,
                2 * rest >= unit + 1,
                step == unit * weight,
                weight > 0,
        ;
    }
}

/// The size of a fraction that lies between two neighbouring numbers of units.
proof fn lemma_size(n: nat, d: nat, m: nat, power: nat, length: nat)
    requires
        d > 0,
        length > 0,
        pow2((length - 1) as nat) <= m < pow2(length),
        m * (pow2(power) * d) <= n < (m + 1) * (pow2(power) * d),
    ensures
        pow2((length - 1 + power) as nat) <= n / d < pow2(length + power),
{
    let scale = pow2(power);
    lemma_pow2_pos(power);
    lemma_pow2_adds((length - 1) as nat, power);
    lemma_pow2_adds(length, power);
    let low = pow2((length - 1) as nat);
    let high = pow2(length);
    assert(low * scale * d <= n) by (nonlinear_arith)
        requires
            m * (scale * d) <= n,
            low <= m,
            scale > 0,
            d > 0,
    ;
    assert(n < high * scale * d) by (nonlinear_arith)
        requires
            n < (m + 1) * (scale * d),
            m + 1 <= high,
            scale > 0,
            d > 0,
    ;
    lemma_div_is_ordered((low * scale * d) as int, n as int, d as int);
    lemma_div_by_multiple((low * scale) as int, d as int);
    lemma_fundamental_div_mod(n as int, d as int);
    let quotient = n / d;
    assert(quotient < high * scale) by (nonlinear_arith)
        requires
            d * quotient <= n,
            n < high * scale * d,
            d > 0,
    ;
}

/// Rounds a number that is `m` times two to the power of `power` units, or a little more if
/// `inexact`.
fn round(
    m: u128,
    inexact: bool,
    power: u32,
    digits: u32,
    least: u32,
    Ghost(n): Ghost<nat>,
    Ghost(d): Ghost<nat>,
) -> (result: Float)
    requires
        0 < m < 0x8000_0000_0000_0000_0000_0000_0000_0000,
        power <= 100_000,
        least <= 100_000,
        1 <= digits <= 53,
        d > 0,
        m * (pow2(power as nat) * d) <= n < (m + 1) * (pow2(power as nat) * d),
        inexact == (n != m * (pow2(power as nat) * d)),
        inexact ==> m >= 0x20_0000_0000_0000,
    ensures
        result.value() == rounded(n, d, digits as nat, least as nat),
        result.power == power_of(n / d, digits as nat, least as nat),
        result.digits <= pow2(digits as nat),
        result.digits >= pow2((digits - 1) as nat) || result.power == least,
        result.power >= least,
        result.power == least || result.power <= power + 127 - digits,
{
    let length: u32 = length_of(m);
    let target: u32 = if power + length > least + digits {
        power + length - digits
    } else {
        least
    };
    proof {
        lemma_size(n, d, m as nat, power as nat, length as nat);
        lemma_pow2_limit();
        if target > least {
        } else if power + length < digits + least {
            lemma_pow2_strictly_increases((power + length) as nat, (digits + least) as nat);
        }
        lemma_power_of(n / d, digits as nat, least as nat, target as nat);
        if digits < 53 {
            lemma_pow2_strictly_increases(digits as nat, 53);
        }
        if inexact && length < 54 {
            if length < 53 {
                lemma_pow2_strictly_increases(length as nat, 53);
            }
        }
    }
    if target > power {
        let shift: u32 = target - power;
        if shift >= 128 {
            proof {
                lemma_flushed(n, d, m as nat, power as nat, shift as nat);
            }
            return Float { digits: 0, power: target };
        }
        let unit: u128 = power_of_two(shift);
        proof {
            lemma_pow2_unfold(shift as nat);
            lemma_cut(n, d, m as nat, unit as nat, power as nat, shift as nat);
            lemma_below(m as nat, unit as nat, shift as nat, length as nat, digits as nat);
        }
        let below: u128 = m / unit;
        let rest: u128 = m % unit;
        let half: u128 = unit / 2;
        if rest > half || (rest == half && (inexact || below % 2 == 1)) {
            Float { digits: (below + 1) as u64, power: target }
        } else {
            Float { digits: below as u64, power: target }
        }
    } else {
        let shift: u32 = power - target;
        proof {
            lemma_kept(n, d, m as nat, power as nat, shift as nat, length as nat, digits as nat);
        }
        let unit: u128 = power_of_two(shift);
        Float { digits: (m * unit) as u64, power: target }
    }
}

proof fn lemma_flushed(n: nat, d: nat, m: nat, power: nat, shift: nat)
    requires
        d > 0,
        m < pow2(127),
        shift >= 128,
        n < (m + 1) * (pow2(power) * d),
    ensures
        nearest(n, d, pow2(power + shift)) == 0,
{
    let weight = pow2(power) * d;
    let step = d * pow2(power + shift);
    lemma_pow2_pos(power);
    lemma_pow2_adds(power, shift);
    if shift > 128 {
        lemma_pow2_strictly_increases(128, shift);
    }
    lemma_pow2_unfold(128);
    assert(2 * n < step) by (nonlinear_arith)
        requires
            n < (m + 1) * weight,
            m + 1 <= pow2(127),
            2 * pow2(127) <= pow2(shift),
            weight == pow2(power) * d,
            weight >= 0,
            step == d * (pow2(power) * pow2(shift)),
    ;
    lemma_fundamental_div_mod_converse(n as int, step as int, 0, n as int);
    assert(0 * pow2(power + shift) == 0);
}

proof fn lemma_below(m: nat, unit: nat, shift: nat, length: nat, digits: nat)
    requires
        unit == pow2(shift),
        pow2((length - 1) as nat) <= m < pow2(length),
        length > 0,
        digits >= 1,
        length <= digits + shift,
    ensures
        m / unit < pow2(digits),
        length == digits + shift ==> m / unit >= pow2((digits - 1) as nat),
{
    lemma_pow2_pos(shift);
    lemma_pow2_adds(digits, shift);
    if length < digits + shift {
        lemma_pow2_strictly_increases(length, digits + shift);
    }
    lemma_fundamental_div_mod(m as int, unit as int);
    let below = m / unit;
    assert(below < pow2(digits)) by (nonlinear_arith)
        requires
            unit * below <= m,
            m < pow2(digits) * unit,
            unit > 0,
    ;
    if length == digits + shift {
        let low = pow2((digits - 1) as nat);
        lemma_pow2_adds((digits - 1) as nat, shift);
        assert(below >= low) by (nonlinear_arith)
            requires
                m < unit * below + unit,
                m >= low * unit,
                unit > 0,
        ;
    }
}

proof fn lemma_kept(n: nat, d: nat, m: nat, power: nat, shift: nat, length: nat, digits: nat)
    requires
        d > 0,
        shift <= power,
        n == m * (pow2(power) * d),
        pow2((length - 1) as nat) <= m < pow2(length),
        length > 0,
        length + shift <= digits <= 53,
    ensures
        shift < 128,
        m * pow2(shift) < pow2(digits),
        length + shift == digits ==> m * pow2(shift) >= pow2((digits - 1) as nat),
        nearest(n, d, pow2((power - shift) as nat)) == m * pow2(shift) * pow2(
            (power - shift) as nat,
        ),
{
    let unit = pow2(shift);
    let scale = pow2((power - shift) as nat);
    lemma_pow2_pos(shift);
    lemma_pow2_pos((power - shift) as nat);
    lemma_pow2_adds(shift, (power - shift) as nat);
    lemma_pow2_adds(length, shift);
    lemma_pow2_adds((length - 1) as nat, shift);
    if length + shift < digits {
        lemma_pow2_strictly_increases(length + shift, digits);
    }
    assert(m * unit < pow2(length) * unit) by (nonlinear_arith)
        requires
            m < pow2(length),
            unit > 0,
    ;
    assert(m * unit >= pow2((length - 1) as nat) * unit) by (nonlinear_arith)
        requires
            m >= pow2((length - 1) as nat),
            unit > 0,
    ;
    let step = d * scale;
    assert(step > 0) by (nonlinear_arith)
        requires
            step == d * scale,
            d > 0,
            scale > 0,
    ;
    assert(n == (m * unit) * step + 0) by (nonlinear_arith)
        requires
            n == m * ((unit * scale) * d),
            step == d * scale,
    ;
    lemma_fundamental_div_mod_converse(n as int, step as int, (m * unit) as int, 0);
}

/// The precision that a result is rounded to.
#[derive(Clone, Copy, PartialEq, Eq, Structural)]
pub enum Precision {
    Single,
    Double,
}

impl Precision {
    /// The number of binary digits.
    pub open spec fn digits(self) -> nat {
        match self {
            Precision::Single => 24,
            Precision::Double => 53,
        }
    }

    /// The smallest step is two to this power.
    pub open spec fn least(self) -> nat {
        match self {
            Precision::Single => 3851,
            Precision::Double => 2926,
        }
    }

    /// A fraction of units, rounded.
    pub open spec fn round(self, numerator: nat, denominator: nat) -> nat {
        match self {
            Precision::Single => single(numerator, denominator),
            Precision::Double => double(numerator, denominator),
        }
    }

    /// The step of a fraction of units.
    pub open spec fn power(self, numerator: nat, denominator: nat) -> nat {
        power_of(numerator / denominator, self.digits(), self.least())
    }

    fn parts(self) -> (parts: (u32, u32))
        ensures
            parts.0 == self.digits(),
            parts.1 == self.least(),
    {
        match self {
            Precision::Single => (24, 3851),
            Precision::Double => (53, 2926),
        }
    }
}

impl Float {
    /// `self` is a fraction of units rounded to a precision.
    pub open spec fn is_rounded(self, numerator: nat, denominator: nat, to: Precision) -> bool {
        &&& self.value() == to.round(numerator, denominator)
        &&& self.power == to.power(numerator, denominator)
        &&& self.digits <= pow2(to.digits())
        &&& self.digits >= pow2((to.digits() - 1) as nat) || self.power == to.least()
        &&& self.power >= to.least()
    }
}

proof fn lemma_zero(denominator: nat, to: Precision)
    requires
        denominator > 0,
    ensures
        (Float { digits: 0, power: to.least() as u32 }).is_rounded(0, denominator, to),
{
    lemma_pow2_pos(to.digits() + to.least());
    lemma_pow2_pos(to.least());
    lemma_pow2_pos(to.digits());
    assert(0nat / denominator == 0) by (nonlinear_arith)
        requires
            denominator > 0,
    ;
    let step = denominator * pow2(to.least());
    assert(step > 0) by (nonlinear_arith)
        requires
            step == denominator * pow2(to.least()),
            denominator > 0,
            pow2(to.least()) > 0,
    ;
    lemma_fundamental_div_mod_converse(0, step as int, 0, 0);
    assert(0 * pow2(to.least()) == 0);
}

/// Rounds, as `round` does, also zero.
fn round_to(
    m: u128,
    inexact: bool,
    power: u32,
    to: Precision,
    Ghost(n): Ghost<nat>,
    Ghost(d): Ghost<nat>,
) -> (result: Float)
    requires
        m < 0x8000_0000_0000_0000_0000_0000_0000_0000,
        power <= 100_000,
        d > 0,
        m * (pow2(power as nat) * d) <= n < (m + 1) * (pow2(power as nat) * d),
        inexact == (n != m * (pow2(power as nat) * d)),
        inexact ==> m >= 0x20_0000_0000_0000,
    ensures
        result.is_rounded(n, d, to),
        result.power == to.least() || result.power <= power + 127 - to.digits(),
{
    let (digits, least) = to.parts();
    if m == 0 {
        proof {
            assert(0 * (pow2(power as nat) * d) == 0);
            lemma_zero(d, to);
        }
        return Float { digits: 0, power: least };
    }
    round(m, inexact, power, digits, least, Ghost(n), Ghost(d))
}

/// A whole number.
pub fn from_integer(value: u64, to: Precision) -> (result: Float)
    ensures
        result.is_rounded(whole(value as nat), 1, to),
        result.wf(),
        result.power <= 4103,
{
    proof {
        let weight = pow2(4000) * 1;
        lemma_pow2_pos(4000);
        lemma_pow2_limit();
        lemma_pow2_digits();
        assert(value * weight < (value + 1) * weight) by (nonlinear_arith)
            requires
                weight > 0,
        ;
        assert(weight == pow2(4000));
    }
    round_to(value as u128, false, 4000, to, Ghost(whole(value as nat)), Ghost(1))
}

proof fn lemma_pow2_digits()
    ensures
        pow2(23) == 0x80_0000,
        pow2(24) == 0x100_0000,
        pow2(52) == 0x10_0000_0000_0000,
        pow2(53) == 0x20_0000_0000_0000,
{
    lemma2_to64();
    vstd::arithmetic::power2::lemma2_to64_rest();
}

/// The sum of two numbers.
pub fn add_floats(a: Float, b: Float, to: Precision) -> (result: Float)
    requires
        a.wf(),
        b.wf(),
    ensures
        result.is_rounded(a.value() + b.value(), 1, to),
        result.digits <= 0x20_0000_0000_0000,
{
    let (high, low) = if a.power >= b.power {
        (a, b)
    } else {
        (b, a)
    };
    let ghost n = a.value() + b.value();
    let distance: u32 = high.power - low.power;
    proof {
        lemma_pow2_limit();
        lemma_pow2_digits();
    }
    if distance <= 64 {
        let unit: u128 = power_of_two(distance);
        proof {
            lemma_pow2_adds(distance as nat, low.power as nat);
            lemma_pow2_pos(low.power as nat);
            if distance < 64 {
                lemma_pow2_strictly_increases(distance as nat, 64);
            }
            let scale = pow2(low.power as nat);
            assert(0 <= high.digits * unit <= 0x20_0000_0000_0000 * 0x1_0000_0000_0000_0000)
                by (nonlinear_arith)
                requires
                    0 <= high.digits <= 0x20_0000_0000_0000,
                    0 <= unit <= 0x1_0000_0000_0000_0000,
            ;
            let m = (high.digits * unit + low.digits) as nat;
            assert(n == m * scale) by (nonlinear_arith)
                requires
                    n == high.digits * (unit * scale) + low.digits * scale,
                    m == high.digits * unit + low.digits,
            ;
            assert(scale * 1 == scale);
            assert(m * scale < (m + 1) * scale) by (nonlinear_arith)
                requires
                    scale > 0,
            ;
        }
        round_to(
            high.digits as u128 * unit + low.digits as u128,
            false,
            low.power,
            to,
            Ghost(n),
            Ghost(1),
        )
    } else {
        let shift: u32 = distance - 64;
        let ghost scale = pow2((high.power - 64) as nat);
        proof {
            lemma_pow2_pos((high.power - 64) as nat);
            lemma_pow2_pos(low.power as nat);
            lemma_pow2_adds(64, (high.power - 64) as nat);
            lemma_pow2_adds(shift as nat, low.power as nat);
        }
        if high.digits == 0 {
            let ghost least = pow2(low.power as nat);
            proof {
                let top = pow2(high.power as nat);
                assert(high.digits * top == 0) by (nonlinear_arith)
                    requires
                        high.digits == 0,
                ;
                assert(least * 1 == least);
                assert(low.digits * least < (low.digits + 1) * least) by (nonlinear_arith)
                    requires
                        least > 0,
                ;
            }
            return round_to(low.digits as u128, false, low.power, to, Ghost(n), Ghost(1));
        }
        let (part, cut): (u64, bool) = if shift >= 64 {
            (0, low.digits != 0)
        } else {
            let unit: u128 = power_of_two(shift);
            ((low.digits as u128 / unit) as u64, low.digits as u128 % unit != 0)
        };
        proof {
            let least = pow2(low.power as nat);
            let unit = pow2(shift as nat);
            lemma_pow2_pos(shift as nat);
            if shift >= 64 {
                if shift > 64 {
                    lemma_pow2_strictly_increases(64, shift as nat);
                }
                lemma_fundamental_div_mod_converse(
                    low.digits as int,
                    unit as int,
                    0,
                    low.digits as int,
                );
            }
            let rest = low.digits as nat % unit;
            lemma_fundamental_div_mod(low.digits as int, unit as int);
            assert(part == low.digits as nat / unit);
            let m = (high.digits * 0x1_0000_0000_0000_0000 + part) as nat;
            assert(scale == unit * least);
            assert(n == m * scale + rest * least) by (nonlinear_arith)
                requires
                    n == high.digits * (0x1_0000_0000_0000_0000 * scale) + low.digits * least,
                    low.digits == unit * part + rest,
                    scale == unit * least,
                    m == high.digits * 0x1_0000_0000_0000_0000 + part,
            ;
            assert(0 <= rest * least < scale) by (nonlinear_arith)
                requires
                    0 <= rest < unit,
                    scale == unit * least,
                    least > 0,
            ;
            assert(rest > 0 ==> rest * least > 0) by (nonlinear_arith)
                requires
                    least > 0,
            ;
            assert(rest == 0 ==> rest * least == 0) by (nonlinear_arith);
            assert((m + 1) * scale == m * scale + scale) by (nonlinear_arith);
            assert(scale * 1 == scale);
            assert(part <= low.digits) by {
                if part > low.digits {
                    assert(unit * part >= part) by (nonlinear_arith)
                        requires
                            unit >= 1,
                    ;
                }
            }
        }
        round_to(
            high.digits as u128 * 0x1_0000_0000_0000_0000 + part as u128,
            cut,
            high.power - 64,
            to,
            Ghost(n),
            Ghost(1),
        )
    }
}

/// The product of two numbers.
pub fn multiply_floats(a: Float, b: Float, to: Precision) -> (result: Float)
    requires
        a.wf(),
        b.wf(),
    ensures
        result.is_rounded(a.value() * b.value(), one(), to),
        result.digits <= 0x20_0000_0000_0000,
{
    let ghost n = a.value() * b.value();
    let power: u32 = a.power + b.power - 4000;
    proof {
        lemma_pow2_digits();
        lemma_pow2_pos(power as nat);
        lemma_pow2_pos(4000);
        lemma_pow2_adds(a.power as nat, b.power as nat);
        lemma_pow2_adds(power as nat, 4000);
        let weight = pow2(power as nat) * one();
        let m = (a.digits * b.digits) as nat;
        assert(0 <= a.digits * b.digits <= 0x20_0000_0000_0000 * 0x20_0000_0000_0000)
            by (nonlinear_arith)
            requires
                0 <= a.digits <= 0x20_0000_0000_0000,
                0 <= b.digits <= 0x20_0000_0000_0000,
        ;
        let left = pow2(a.power as nat);
        let right = pow2(b.power as nat);
        assert(n == m * weight) by (nonlinear_arith)
            requires
                n == (a.digits * left) * (b.digits * right),
                m == a.digits * b.digits,
                weight == left * right,
        ;
        assert(weight > 0) by (nonlinear_arith)
            requires
                weight == pow2(power as nat) * one(),
                pow2(power as nat) > 0,
                one() > 0,
        ;
        assert(m * weight < (m + 1) * weight) by (nonlinear_arith)
            requires
                weight > 0,
        ;
    }
    round_to(a.digits as u128 * b.digits as u128, false, power, to, Ghost(n), Ghost(one()))
}

/// The same number with at least 53 binary digits.
fn stretched(a: Float) -> (result: Float)
    requires
        a.wf(),
        a.digits > 0,
    ensures
        result.value() == a.value(),
        0x20_0000_0000_0000 <= result.digits < 0x40_0000_0000_0000,
        a.power - 53 <= result.power <= a.power,
{
    let mut digits: u64 = a.digits;
    let mut power: u32 = a.power;
    let ghost mut size: nat = 0;
    proof {
        lemma2_to64();
        lemma_pow2_digits();
    }
    while digits < 0x20_0000_0000_0000
        invariant
            a.wf(),
            0 < digits < 0x40_0000_0000_0000,
            power == a.power - size,
            size <= 53,
            pow2(size) <= digits,
            pow2(53) == 0x20_0000_0000_0000,
            digits * pow2(power as nat) == a.value(),
        decreases 0x40_0000_0000_0000 - digits,
    {
        proof {
            if size == 53 {
                assert(false);
            }
            lemma_pow2_unfold((size + 1) as nat);
            lemma_pow2_unfold(power as nat);
            let half = pow2((power - 1) as nat);
            assert((2 * digits) * half == digits * (2 * half)) by (nonlinear_arith);
            size = size + 1;
        }
        digits = 2 * digits;
        power = power - 1;
    }
    Float { digits, power }
}

/// The quotient of two numbers.
pub fn divide_floats(a: Float, b: Float, to: Precision) -> (result: Float)
    requires
        a.wf(),
        b.wf(),
        b.digits > 0,
        b.power <= 5000,
    ensures
        result.is_rounded(a.value() * one(), b.value(), to),
        result.digits <= 0x20_0000_0000_0000,
{
    let ghost n = a.value() * one();
    let ghost d = b.value();
    proof {
        lemma_pow2_digits();
        lemma_pow2_pos(b.power as nat);
        assert(d > 0) by (nonlinear_arith)
            requires
                d == b.digits as nat * pow2(b.power as nat),
                b.digits > 0,
                pow2(b.power as nat) > 0,
        ;
    }
    if a.digits == 0 {
        proof {
            assert(0 * pow2(a.power as nat) == 0);
            assert(0 * one() == 0);
            lemma_zero(d, to);
        }
        let (_, least) = to.parts();
        return Float { digits: 0, power: least };
    }
    let left = stretched(a);
    let right = stretched(b);
    let shifted: u128 = left.digits as u128 * 0x1_0000_0000_0000_0000;
    let divisor: u128 = right.digits as u128;
    let m: u128 = shifted / divisor;
    let inexact: bool = shifted % divisor != 0;
    let power: u32 = left.power + 3936 - right.power;
    proof {
        lemma_pow2_limit();
        let scale = pow2((left.power + 3936) as nat);
        lemma_pow2_pos((left.power + 3936) as nat);
        lemma_pow2_adds(left.power as nat, 4000);
        lemma_pow2_adds(64, (left.power + 3936) as nat);
        lemma_pow2_adds(power as nat, right.power as nat);
        let weight = pow2(power as nat) * d;
        let start = pow2(left.power as nat);
        let end = pow2(right.power as nat);
        let big = pow2(power as nat);
        assert(n == shifted * scale) by (nonlinear_arith)
            requires
                n == (left.digits * start) * one(),
                start * one() == 0x1_0000_0000_0000_0000 * scale,
                shifted == left.digits * 0x1_0000_0000_0000_0000,
        ;
        assert(weight == divisor * scale) by (nonlinear_arith)
            requires
                weight == big * d,
                d == divisor * end,
                scale == big * end,
        ;
        lemma_fundamental_div_mod(shifted as int, divisor as int);
        let rest = (shifted % divisor) as nat;
        assert(n == m * weight + rest * scale) by (nonlinear_arith)
            requires
                n == shifted * scale,
                shifted == divisor * m + rest,
                weight == divisor * scale,
        ;
        assert(0 <= rest * scale < weight) by (nonlinear_arith)
            requires
                0 <= rest < divisor,
                weight == divisor * scale,
                scale > 0,
        ;
        assert(rest > 0 ==> rest * scale > 0) by (nonlinear_arith)
            requires
                scale > 0,
        ;
        assert(rest == 0 ==> rest * scale == 0) by (nonlinear_arith);
        assert((m + 1) * weight == m * weight + weight) by (nonlinear_arith);
        assert(m >= 0x20_0000_0000_0000) by (nonlinear_arith)
            requires
                shifted < divisor * m + divisor,
                shifted >= 0x20_0000_0000_0000 * 0x1_0000_0000_0000_0000,
                divisor < 0x40_0000_0000_0000,
        ;
        assert(m <= shifted) by (nonlinear_arith)
            requires
                divisor * m <= shifted,
                divisor >= 1,
        ;
    }
    round_to(m, inexact, power, to, Ghost(n), Ghost(d))
}

/// A number rounded to a precision.
pub fn convert_float(a: Float, to: Precision) -> (result: Float)
    requires
        a.wf(),
    ensures
        result.is_rounded(a.value(), 1, to),
{
    proof {
        let scale = pow2(a.power as nat);
        lemma_pow2_pos(a.power as nat);
        assert(scale * 1 == scale);
        assert(a.digits * scale < (a.digits + 1) * scale) by (nonlinear_arith)
            requires
                scale > 0,
        ;
    }
    round_to(a.digits as u128, false, a.power, to, Ghost(a.value()), Ghost(1))
}

/// Tells whether one number is smaller than another.
pub fn is_less(a: Float, b: Float) -> (less: bool)
    requires
        a.wf(),
        b.wf(),
    ensures
        less == (a.value() < b.value()),
{
    proof {
        lemma_pow2_digits();
        lemma_pow2_limit();
        lemma_pow2_pos(a.power as nat);
        lemma_pow2_pos(b.power as nat);
    }
    if a.power >= b.power {
        let distance: u32 = a.power - b.power;
        let ghost scale = pow2(b.power as nat);
        let ghost unit = pow2(distance as nat);
        proof {
            lemma_pow2_adds(distance as nat, b.power as nat);
            lemma_pow2_pos(distance as nat);
            lemma_compare(a.digits as nat, b.digits as nat, unit, scale);
            if distance >= 64 {
                if distance > 64 {
                    lemma_pow2_strictly_increases(64, distance as nat);
                }
            }
        }
        if distance >= 64 {
            return a.digits == 0 && b.digits != 0;
        }
        let factor: u128 = power_of_two(distance);
        proof {
            lemma_pow2_strictly_increases(distance as nat, 64);
        }
        a.digits as u128 * factor < b.digits as u128
    } else {
        let distance: u32 = b.power - a.power;
        let ghost scale = pow2(a.power as nat);
        let ghost unit = pow2(distance as nat);
        proof {
            lemma_pow2_adds(distance as nat, a.power as nat);
            lemma_pow2_pos(distance as nat);
            lemma_compare(b.digits as nat, a.digits as nat, unit, scale);
            if distance >= 64 {
                if distance > 64 {
                    lemma_pow2_strictly_increases(64, distance as nat);
                }
            }
        }
        if distance >= 64 {
            return b.digits != 0;
        }
        let factor: u128 = power_of_two(distance);
        proof {
            lemma_pow2_strictly_increases(distance as nat, 64);
        }
        (a.digits as u128) < b.digits as u128 * factor
    }
}

/// Numbers are compared by the digits that they have at the same power.
proof fn lemma_compare(high: nat, low: nat, unit: nat, scale: nat)
    requires
        scale > 0,
        unit > 0,
        high <= 0x20_0000_0000_0000,
    ensures
        high * (unit * scale) < low * scale <==> high * unit < low,
        low * scale < high * (unit * scale) <==> low < high * unit,
        high > 0 ==> high * unit >= unit,
        high == 0 ==> high * unit == 0,
        unit <= 0x1_0000_0000_0000_0000 ==> high * unit <= 0x20_0000_0000_0000
            * 0x1_0000_0000_0000_0000,
{
    let left = high * unit;
    assert(high * (unit * scale) == left * scale) by (nonlinear_arith)
        requires
            left == high * unit,
    ;
    assert(left * scale < low * scale <==> left < low) by (nonlinear_arith)
        requires
            scale > 0,
    ;
    assert(low * scale < left * scale <==> low < left) by (nonlinear_arith)
        requires
            scale > 0,
    ;
    assert(high > 0 ==> left >= unit) by (nonlinear_arith)
        requires
            left == high * unit,
            unit > 0,
    ;
    assert(high == 0 ==> left == 0) by (nonlinear_arith)
        requires
            left == high * unit,
    ;
    assert(unit <= 0x1_0000_0000_0000_0000 ==> left <= 0x20_0000_0000_0000
        * 0x1_0000_0000_0000_0000) by (nonlinear_arith)
        requires
            left == high * unit,
            high <= 0x20_0000_0000_0000,
            unit > 0,
    ;
}

/// What is left of one.
pub fn rest_of_one(a: Float, to: Precision) -> (result: Float)
    requires
        a.wf(),
        a.value() <= one(),
        a.digits == 0 || a.power >= 3880,
        a.power <= 4000,
    ensures
        result.is_rounded((one() - a.value()) as nat, 1, to),
        result.digits <= 0x20_0000_0000_0000,
{
    proof {
        lemma_pow2_digits();
        lemma_pow2_limit();
    }
    if a.digits == 0 {
        proof {
            lemma_pow2_pos(4000);
            assert(0 * pow2(a.power as nat) == 0);
            assert(1 * (one() * 1) == one());
            assert(2 * (one() * 1) > one());
        }
        return round_to(1, false, 4000, to, Ghost(one()), Ghost(1));
    }
    let distance: u32 = 4000 - a.power;
    let unit: u128 = power_of_two(distance);
    let ghost n = (one() - a.value()) as nat;
    proof {
        let scale = pow2(a.power as nat);
        lemma_pow2_pos(a.power as nat);
        lemma_pow2_adds(distance as nat, a.power as nat);
        lemma_pow2_strictly_increases(distance as nat, 127);
        assert(a.digits <= unit) by (nonlinear_arith)
            requires
                a.digits * scale <= unit * scale,
                scale > 0,
        ;
        let m = (unit - a.digits) as nat;
        assert(n == m * scale) by (nonlinear_arith)
            requires
                n == unit * scale - a.digits * scale,
                m == unit - a.digits,
        ;
        assert(scale * 1 == scale);
        assert(m * scale < (m + 1) * scale) by (nonlinear_arith)
            requires
                scale > 0,
        ;
    }
    round_to(unit - a.digits as u128, false, a.power, to, Ghost(n), Ghost(1))
}

/// The number with a bit pattern.
pub fn from_bits(bits: u32) -> (result: Float)
    requires
        bits < 0x7f80_0000,
    ensures
        result.value() == number(bits),
        result.wf(),
        result.digits < 0x100_0000,
        3851 <= result.power <= 4104,
        bits == 0 <==> result.digits == 0,
{
    let exponent: u32 = bits / 0x80_0000;
    if exponent == 0 {
        Float { digits: bits as u64, power: 3851 }
    } else {
        Float { digits: 0x80_0000 + (bits % 0x80_0000) as u64, power: 3850 + exponent }
    }
}

/// The bit pattern of `digits` times two to the power of `power`.
proof fn lemma_bits(digits: nat, power: nat)
    requires
        digits <= 0x100_0000,
        digits >= 0x80_0000 || power == 3851,
        3851 <= power <= 4100,
    ensures
        is_pattern_of(((power - 3851) * 0x80_0000 + digits) as u32, digits * pow2(power)),
{
    let scale = pow2(power);
    lemma_pow2_unfold(power + 1);
    assert(0x100_0000 * scale == 0x80_0000 * (2 * scale)) by (nonlinear_arith);
}

/// Every number of single precision that is not too large has a bit pattern.
pub proof fn lemma_single_has_pattern(numerator: nat, denominator: nat)
    requires
        denominator > 0,
        numerator < denominator * pow2(4124),
    ensures
        is_pattern_of(pattern(single(numerator, denominator)), single(numerator, denominator)),
{
    let n = numerator;
    let d = denominator;
    let value = n / d;
    lemma_fundamental_div_mod(n as int, d as int);
    assert(value < pow2(4124)) by (nonlinear_arith)
        requires
            d * value <= n,
            n < d * pow2(4124),
            d > 0,
    ;
    lemma_step_exists(value, 24, 3851);
    lemma_power_bound(value, 24, 3851, 4100);
    let power = power_of(value, 24, 3851);
    let unit = pow2(power);
    let step = d * unit;
    let below = n / step;
    lemma_pow2_pos(power);
    lemma_pow2_adds(24, power);
    lemma_pow2_adds(23, power);
    lemma2_to64();
    assert(step > 0) by (nonlinear_arith)
        requires
            step == d * unit,
            d > 0,
            unit > 0,
    ;
    lemma_fundamental_div_mod(n as int, step as int);
    assert(below < 0x100_0000) by (nonlinear_arith)
        requires
            step * below <= n,
            n < d * value + d,
            value + 1 <= 0x100_0000 * unit,
            step == d * unit,
            d > 0,
            unit > 0,
    ;
    if power > 3851 {
        assert(below >= 0x80_0000) by (nonlinear_arith)
            requires
                n < step * below + step,
                d * value <= n,
                value >= 0x80_0000 * unit,
                step == d * unit,
                d > 0,
                unit > 0,
        ;
    }
    lemma_bits(below, power);
    lemma_bits(below + 1, power);
    let digits = if single(n, d) == below * unit {
        below
    } else {
        below + 1
    };
    lemma_pattern(((power - 3851) * 0x80_0000 + digits) as u32, single(n, d));
}

/// The bit pattern of a number of single precision.
pub fn to_bits(a: Float) -> (bits: u32)
    requires
        a.digits <= 0x100_0000,
        a.digits >= 0x80_0000 || a.power == 3851,
        3851 <= a.power <= 4100,
    ensures
        is_pattern_of(bits, a.value()),
        bits == pattern(a.value()),
{
    let bits: u32 = (a.power - 3851) * 0x80_0000 + a.digits as u32;
    proof {
        lemma_bits(a.digits as nat, a.power as nat);
        lemma_pattern(bits, a.value());
    }
    bits
}

/// A whole number stays between one and two to the power of 64 when it is rounded, unless it is zero.
pub proof fn lemma_whole_bounds(value: u64, to: Precision)
    ensures
        to.round(whole(value as nat), 1) <= pow2(4064),
        value > 0 ==> to.round(whole(value as nat), 1) >= one(),
        value == 0 ==> to.round(whole(value as nat), 1) == 0,
{
    lemma_pow2_limit();
    lemma_pow2_digits();
    lemma_pow2_pos(4000);
    lemma_pow2_adds(64, 4000);
    let n = whole(value as nat);
    assert(n <= pow2(64) * pow2(4000)) by (nonlinear_arith)
        requires
            n == value as nat * pow2(4000),
            value <= pow2(64),
            pow2(4000) > 0,
    ;
    assert(1 * (1 * pow2(4064)) == pow2(4064));
    lemma_rounded_keeps_bound(n, 1, to.digits(), to.least(), 1, 4064);
    assert(1 * (1 * one()) == one());
    lemma_rounded_keeps_bound(one(), 1, to.digits(), to.least(), 1, 4000);
    if value > 0 {
        assert(n >= one()) by (nonlinear_arith)
            requires
                n == value as nat * pow2(4000),
                value >= 1,
                one() == pow2(4000),
        ;
        lemma_rounded_is_monotone(one(), n, 1, to.digits(), to.least());
    } else {
        assert(0 * one() == 0);
        assert(1 * (0 * one()) == 0);
        lemma_rounded_keeps_bound(0, 1, to.digits(), to.least(), 0, 4000);
    }
}

/// Dividing by one or more does not make a number larger.
pub proof fn lemma_quotient_bound(value: nat, divisor: nat)
    requires
        divisor >= one(),
    ensures
        divisor > 0,
        value * one() / divisor <= value,
{
    lemma_pow2_pos(4000);
    let n = value * one();
    lemma_fundamental_div_mod(n as int, divisor as int);
    let quotient = n / divisor;
    assert(quotient <= value) by (nonlinear_arith)
        requires
            divisor * quotient <= n,
            n == value * one(),
            divisor >= one(),
            one() > 0,
    ;
}

/// The quotient of two whole numbers in single precision.
pub open spec fn quotient(value: nat, divisor: nat) -> nat {
    single(single(whole(value), 1) * one(), single(whole(divisor), 1))
}

/// Divides two whole numbers in single precision.
pub fn divide_integers(value: u64, divisor: u64) -> (bits: u32)
    requires
        divisor > 0,
    ensures
        is_pattern_of(bits, quotient(value as nat, divisor as nat)),
        bits == pattern(quotient(value as nat, divisor as nat)),
{
    let left = from_integer(value, Precision::Single);
    let right = from_integer(divisor, Precision::Single);
    proof {
        lemma_whole_bounds(value, Precision::Single);
        lemma_whole_bounds(divisor, Precision::Single);
        lemma_quotient_bound(left.value(), right.value());
        lemma_pow2_digits();
        if right.digits == 0 {
            lemma_pow2_pos(4000);
            assert(0 * pow2(right.power as nat) == 0);
        }
        lemma_pow2_strictly_increases(4064, 4124);
        lemma_power_bound(left.value() * one() / right.value(), 24, 3851, 4100);
    }
    let bits: u32 = to_bits(divide_floats(left, right, Precision::Single));
    proof {
        lemma_pattern(bits, quotient(value as nat, divisor as nat));
    }
    bits
}

/// A number as a whole one, with a half rounded up, and no more than fits.
pub open spec fn rounded_whole(value: nat) -> int {
    let nearest = (2 * value + one()) / (2 * one());
    if nearest > u32::MAX {
        u32::MAX as int
    } else {
        nearest as int
    }
}

/// Rounds a number to a whole one.
pub fn round_to_whole(a: Float) -> (result: u32)
    requires
        a.wf(),
    ensures
        result == rounded_whole(a.value()),
{
    let ghost value = a.value();
    proof {
        lemma_pow2_pos(4000);
        lemma_pow2_limit();
        lemma_pow2_digits();
    }
    if a.power >= 4000 {
        let shift: u32 = a.power - 4000;
        let ghost unit = pow2(shift as nat);
        proof {
            lemma_pow2_adds(shift as nat, 4000);
            lemma_pow2_pos(shift as nat);
            let count = (a.digits * unit) as int;
            assert(2 * value + one() == count * (2 * one()) + one()) by (nonlinear_arith)
                requires
                    value == a.digits * (unit * one()),
                    count == a.digits * unit,
            ;
            lemma_fundamental_div_mod_converse(
                (2 * value + one()) as int,
                (2 * one()) as int,
                count,
                one() as int,
            );
        }
        if a.digits == 0 {
            proof {
                assert(0 * unit == 0);
            }
            return 0;
        }
        if shift >= 64 {
            proof {
                if shift > 64 {
                    lemma_pow2_strictly_increases(64, shift as nat);
                }
                assert(a.digits * unit >= unit) by (nonlinear_arith)
                    requires
                        a.digits >= 1,
                        unit >= 0,
                ;
            }
            return u32::MAX;
        }
        let factor: u128 = power_of_two(shift);
        proof {
            lemma_pow2_strictly_increases(shift as nat, 64);
            assert(0 <= a.digits * factor <= 0x20_0000_0000_0000 * 0x1_0000_0000_0000_0000)
                by (nonlinear_arith)
                requires
                    0 <= a.digits <= 0x20_0000_0000_0000,
                    0 <= factor <= 0x1_0000_0000_0000_0000,
            ;
        }
        let product: u128 = a.digits as u128 * factor;
        if product > 0xffff_ffff {
            u32::MAX
        } else {
            product as u32
        }
    } else {
        let shift: u32 = 4000 - a.power;
        let ghost scale = pow2(a.power as nat);
        let ghost unit = pow2(shift as nat);
        proof {
            lemma_pow2_adds(shift as nat, a.power as nat);
            lemma_pow2_pos(shift as nat);
            lemma_pow2_pos(a.power as nat);
            lemma_scaled_half(a.digits as nat, unit, scale);
        }
        if shift >= 64 {
            proof {
                if shift > 64 {
                    lemma_pow2_strictly_increases(64, shift as nat);
                }
                lemma_fundamental_div_mod_converse(
                    2 * a.digits + unit,
                    (2 * unit) as int,
                    0,
                    2 * a.digits + unit,
                );
            }
            return 0;
        }
        let factor: u128 = power_of_two(shift);
        proof {
            lemma_pow2_strictly_increases(shift as nat, 64);
        }
        let result: u128 = (2 * a.digits as u128 + factor) / (2 * factor);
        if result > 0xffff_ffff {
            u32::MAX
        } else {
            result as u32
        }
    }
}

proof fn lemma_scaled_half(digits: nat, unit: nat, scale: nat)
    requires
        unit > 0,
        scale > 0,
        one() == unit * scale,
    ensures
        (2 * (digits * scale) + one()) / (2 * one()) == (2 * digits + unit) / (2 * unit),
{
    let top = 2 * digits + unit;
    let n = (2 * (digits * scale) + one()) as int;
    lemma_fundamental_div_mod(top as int, (2 * unit) as int);
    let count = top / (2 * unit);
    let rest = top % (2 * unit);
    assert(n == count * (2 * one()) + rest * scale) by (nonlinear_arith)
        requires
            n == 2 * (digits * scale) + one(),
            one() == unit * scale,
            top == 2 * digits + unit,
            top == (2 * unit) * count + rest,
    ;
    assert(0 <= rest * scale < 2 * one()) by (nonlinear_arith)
        requires
            0 <= rest < 2 * unit,
            one() == unit * scale,
            scale > 0,
    ;
    lemma_fundamental_div_mod_converse(n, (2 * one()) as int, count as int, (rest * scale) as int);
}

/// A number of seconds in nanoseconds, the nearest; of two, the even one.
pub open spec fn nanoseconds(seconds: nat) -> nat {
    nearest(seconds * 1_000_000_000, one(), 1)
}

/// Turns seconds into nanoseconds.
pub fn to_nanoseconds(a: Float) -> (result: u64)
    requires
        a.wf(),
        a.value() <= 8_000_000 * one(),
    ensures
        result == nanoseconds(a.value()),
        result <= 8_000_000_000_000_000,
{
    let ghost n = a.value() * 1_000_000_000;
    proof {
        lemma_pow2_digits();
        lemma_pow2_limit();
        let scale = pow2(a.power as nat);
        lemma_pow2_pos(a.power as nat);
        lemma_pow2_pos(4000);
        lemma_pow2_adds(53, 4000);
        let m = (a.digits * 1_000_000_000) as nat;
        assert(n == m * scale) by (nonlinear_arith)
            requires
                n == (a.digits * scale) * 1_000_000_000,
                m == a.digits * 1_000_000_000,
        ;
        assert(scale * 1 == scale);
        assert(m * scale < (m + 1) * scale) by (nonlinear_arith)
            requires
                scale > 0,
        ;
        assert(n / 1 == n);
        lemma_power_bound(n, 53, 4000, 4000);
        assert(1 * (8_000_000_000_000_000 * one()) == 8_000_000_000_000_000 * one());
        lemma_rounded_keeps_bound(n, 1, 53, 4000, 8_000_000_000_000_000, 4000);
        if m == 0 {
            assert(0 * scale == 0);
            lemma_fundamental_div_mod_converse(0, one() as int, 0, 0);
        }
    }
    if a.digits == 0 {
        return 0;
    }
    let result = round(
        a.digits as u128 * 1_000_000_000,
        false,
        a.power,
        53,
        4000,
        Ghost(n),
        Ghost(1),
    );
    proof {
        let step = one();
        assert(1 * step == step);
        assert(step * 1 == step);
        let whole = nearest(n, step, 1);
        let below = n / step;
        assert(below * 1 == below);
        assert((below + 1) * 1 == below + 1);
        assert(rounded(n, 1, 53, 4000) == whole * step);
        assert(result.digits == whole) by (nonlinear_arith)
            requires
                result.digits * step == whole * step,
                step > 0,
        ;
        assert(whole <= 8_000_000_000_000_000) by (nonlinear_arith)
            requires
                whole * step <= 8_000_000_000_000_000 * step,
                step > 0,
        ;
    }
    result.digits
}

/// Rounding a number that is not below the range loses at most one part in two to the power of the
/// number of digits.
pub proof fn lemma_rounded_is_close(numerator: nat, denominator: nat, digits: nat, least: nat)
    requires
        denominator > 0,
        digits >= 1,
        numerator >= denominator * pow2((digits + least - 1) as nat),
    ensures
        pow2(digits) * (denominator * rounded(numerator, denominator, digits, least)) <= (pow2(
            digits,
        ) + 1) * numerator,
        pow2(digits) * (denominator * rounded(numerator, denominator, digits, least)) >= (pow2(
            digits,
        ) - 1) * numerator,
{
    let n = numerator;
    let d = denominator;
    let value = n / d;
    lemma_fundamental_div_mod(n as int, d as int);
    let bound = pow2((digits + least - 1) as nat);
    assert(value >= bound) by (nonlinear_arith)
        requires
            n >= d * bound,
            n == d * value + n % d,
            0 <= n % d < d,
            d > 0,
    ;
    lemma_step_exists(value, digits, least);
    let power = power_of(value, digits, least);
    let unit = pow2(power);
    lemma_pow2_pos(power);
    let step = d * unit;
    assert(step > 0) by (nonlinear_arith)
        requires
            step == d * unit,
            d > 0,
            unit > 0,
    ;
    let full = pow2(digits);
    lemma_pow2_adds((digits - 1) as nat, power);
    lemma_pow2_unfold(digits);
    let half = pow2((digits - 1) as nat);
    assert(value >= half * unit);
    assert(full * step <= 2 * n) by (nonlinear_arith)
        requires
            step == d * unit,
            full == 2 * half,
            value >= half * unit,
            n >= d * value,
            d > 0,
    ;
    let below = n / step;
    let rest = n % step;
    lemma_fundamental_div_mod(n as int, step as int);
    let result = rounded(n, d, digits, least);
    assert(d * (below * unit) == step * below) by (nonlinear_arith)
        requires
            step == d * unit,
    ;
    assert(d * ((below + 1) * unit) == step * below + step) by (nonlinear_arith)
        requires
            step == d * unit,
    ;
    assert(2 * (d * result) <= 2 * n + step);
    assert(2 * (d * result) >= 2 * n - step);
    assert(full * (d * result) <= (full + 1) * n && full * (d * result) >= (full - 1) * n)
        by (nonlinear_arith)
        requires
            2 * (d * result) <= 2 * n + step,
            2 * (d * result) >= 2 * n - step,
            full * step <= 2 * n,
            full >= 0,
    ;
}

/// A whole number is rounded to single precision with a loss of at most one part in two to the
/// twenty-fourth, and a number of at most twenty-four digits is kept.
pub proof fn lemma_whole_is_close(value: nat)
    ensures
        0x100_0000 * single(whole(value), 1) <= 0x100_0001 * whole(value),
        0x100_0000 * single(whole(value), 1) >= 0xff_ffff * whole(value),
        value < 0x100_0000 ==> single(whole(value), 1) == whole(value),
{
    lemma2_to64();
    lemma_pow2_pos(4000);
    if value < 0x100_0000 {
        assert(1 * (value * pow2(4000)) == whole(value));
        lemma_rounded_keeps_bound(whole(value), 1, 24, 3851, value, 4000);
    } else {
        lemma_pow2_strictly_increases(3874, 4000);
        assert(whole(value) >= one()) by (nonlinear_arith)
            requires
                whole(value) == value * one(),
                value >= 1,
        ;
        lemma_rounded_is_close(whole(value), 1, 24, 3851);
    }
}

/// The quotient of two whole numbers of at most twenty-four digits, or of which the divisor is a power of
/// two, is off by less than one part in four million.
pub proof fn lemma_quotient_is_close(value: nat, divisor: nat)
    requires
        0 < divisor <= 0x4000_0000,
        single(whole(divisor), 1) == whole(divisor),
    ensures
        0x40_0000 * (divisor * quotient(value, divisor)) <= 0x40_0001 * whole(value),
        0x40_0000 * (divisor * quotient(value, divisor)) >= 0x3f_ffff * whole(value),
{
    lemma2_to64();
    lemma_pow2_pos(4000);
    lemma_whole_is_close(value);
    let left = single(whole(value), 1);
    let n = left * one();
    let d = whole(divisor);
    let unit = one();
    let result = quotient(value, divisor);
    assert(d > 0) by (nonlinear_arith)
        requires
            d == divisor * unit,
            divisor > 0,
            unit > 0,
    ;
    if value == 0 {
        assert(whole(0) == 0);
        assert(left == 0);
        assert(n == 0) by (nonlinear_arith)
            requires
                n == left * one(),
                left == 0,
        ;
        assert(d * (0 * pow2(4000)) == 0);
        lemma_rounded_keeps_bound(n, d, 24, 3851, 0, 4000);
        assert(divisor * result == 0) by (nonlinear_arith)
            requires
                result == 0,
        ;
    } else {
        assert(whole(value) >= unit) by (nonlinear_arith)
            requires
                whole(value) == value * unit,
                value >= 1,
        ;
        assert(2 * left >= unit);
        let bound = pow2(3874);
        lemma_pow2_adds(3874, 126);
        lemma_pow2_strictly_increases(31, 126);
        assert(pow2(31) == 0x8000_0000) by {
            lemma2_to64();
        }
        assert(n >= d * bound) by (nonlinear_arith)
            requires
                n == left * unit,
                d == divisor * unit,
                divisor <= 0x4000_0000,
                2 * left >= unit,
                unit == bound * pow2(126),
                pow2(126) > 0x8000_0000,
                bound >= 0,
                unit > 0,
        ;
        lemma_rounded_is_close(n, d, 24, 3851);
        let scaled = divisor * result;
        assert(d * result == scaled * unit) by (nonlinear_arith)
            requires
                d == divisor * unit,
                scaled == divisor * result,
        ;
        assert(0x100_0000 * scaled <= 0x100_0001 * left) by (nonlinear_arith)
            requires
                0x100_0000 * (scaled * unit) <= 0x100_0001 * (left * unit),
                unit > 0,
        ;
        assert(0x100_0000 * scaled >= 0xff_ffff * left) by (nonlinear_arith)
            requires
                0x100_0000 * (scaled * unit) >= 0xff_ffff * (left * unit),
                unit > 0,
        ;
    }
}

/// What has been rounded is kept as it is.
pub proof fn lemma_rounded_is_kept(numerator: nat, denominator: nat, digits: nat, least: nat)
    requires
        denominator > 0,
        digits >= 1,
    ensures
        rounded(rounded(numerator, denominator, digits, least), 1, digits, least) == rounded(
            numerator,
            denominator,
            digits,
            least,
        ),
{
    let n = numerator;
    let d = denominator;
    let value = n / d;
    lemma_step_exists(value, digits, least);
    let power = power_of(value, digits, least);
    let unit = pow2(power);
    lemma_pow2_pos(power);
    lemma_pow2_adds(digits, power);
    let step = d * unit;
    let full = pow2(digits);
    lemma_pow2_unfold(digits);
    lemma_pow2_unfold(power + 1);
    lemma_pow2_pos((digits - 1) as nat);
    assert(step > 0) by (nonlinear_arith)
        requires
            step == d * unit,
            d > 0,
            unit > 0,
    ;
    lemma_fundamental_div_mod(n as int, d as int);
    lemma_fundamental_div_mod(n as int, step as int);
    let below = n / step;
    let rest = n % d;
    assert(n < d * (value + 1)) by (nonlinear_arith)
        requires
            n == d * value + rest,
            rest < d,
    ;
    assert(below < full) by (nonlinear_arith)
        requires
            n < d * (value + 1),
            value + 1 <= full * unit,
            step == d * unit,
            step * below <= n,
            d > 0,
            unit > 0,
    ;
    let result = rounded(n, d, digits, least);
    if result == below * unit {
        assert(1 * (below * unit) == result);
        lemma_rounded_keeps_bound(result, 1, digits, least, below, power);
    } else if below + 1 < full {
        assert(1 * ((below + 1) * unit) == result);
        lemma_rounded_keeps_bound(result, 1, digits, least, below + 1, power);
    } else {
        let half = pow2((digits - 1) as nat);
        assert(1 * (half * pow2(power + 1)) == result) by (nonlinear_arith)
            requires
                result == (below + 1) * unit,
                below + 1 == full,
                full == 2 * half,
                pow2(power + 1) == 2 * unit,
        ;
        lemma_rounded_keeps_bound(result, 1, digits, least, half, power + 1);
    }
}

/// `result` is the number of so many digits that is nearest to a fraction, and of two that are as near the
/// one that is even.  Its step is the smallest with which so many digits suffice, but never less than the
/// least one.
pub open spec fn is_nearest(
    result: Float,
    numerator: nat,
    denominator: nat,
    digits: nat,
    least: nat,
) -> bool {
    let step = denominator * pow2(result.power as nat);
    let shown = denominator * (result.digits as nat * pow2(result.power as nat));
    &&& 2 * shown <= 2 * numerator + step
    &&& 2 * numerator <= 2 * shown + step
    &&& 2 * shown == 2 * numerator + step || 2 * numerator == 2 * shown + step ==> result.digits % 2
        == 0
    &&& result.power >= least
    &&& numerator < denominator * pow2(digits + result.power as nat)
    &&& result.power > least ==> numerator >= denominator * pow2(
        (digits + result.power - 1) as nat,
    )
}

/// What is rounded is rounded to the nearest number.
pub proof fn lemma_rounded_is_nearest(result: Float, numerator: nat, denominator: nat, to: Precision)
    requires
        denominator > 0,
        result.is_rounded(numerator, denominator, to),
    ensures
        is_nearest(result, numerator, denominator, to.digits(), to.least()),
{
    let n = numerator;
    let d = denominator;
    let digits = to.digits();
    let value = n / d;
    let power = result.power as nat;
    lemma_step_exists(value, digits, to.least());
    lemma_fundamental_div_mod(n as int, d as int);
    let rest_of_value = n % d;
    assert(n < d * pow2(digits + power)) by (nonlinear_arith)
        requires
            n == d * value + rest_of_value,
            rest_of_value < d,
            value + 1 <= pow2(digits + power),
    ;
    if power > to.least() {
        let bound = pow2((digits + power - 1) as nat);
        assert(n >= d * bound) by (nonlinear_arith)
            requires
                n >= d * value,
                value >= bound,
        ;
    }
    let unit = pow2(power);
    lemma_pow2_pos(power);
    let step = d * unit;
    assert(step > 0) by (nonlinear_arith)
        requires
            step == d * unit,
            d > 0,
            unit > 0,
    ;
    lemma_fundamental_div_mod(n as int, step as int);
    let below = n / step;
    let found = result.digits as nat;
    assert(found == below || found == below + 1) by (nonlinear_arith)
        requires
            found * unit == below * unit || found * unit == (below + 1) * unit,
            unit > 0,
    ;
    if found * unit == below * unit {
        assert(found == below) by (nonlinear_arith)
            requires
                found * unit == below * unit,
                unit > 0,
        ;
    } else {
        assert(found == below + 1);
    }
    assert(d * (below * unit) == step * below) by (nonlinear_arith)
        requires
            step == d * unit,
    ;
    assert(d * ((below + 1) * unit) == step * below + step) by (nonlinear_arith)
        requires
            step == d * unit,
    ;
}

/// Sums, products, quotients, converted numbers and what is left of one are rounded to the nearest number
/// of 24 or 53 binary digits.
pub proof fn lemma_arithmetic_is_rounded(
    value: u64,
    a: Float,
    b: Float,
    to: Precision,
    integer: Float,
    sum: Float,
    product: Float,
    quotient: Float,
    converted: Float,
    rest: Float,
)
    requires
        b.value() > 0,
        a.value() <= one(),
        call_ensures(from_integer, (value, to), integer),
        call_ensures(add_floats, (a, b, to), sum),
        call_ensures(multiply_floats, (a, b, to), product),
        call_ensures(divide_floats, (a, b, to), quotient),
        call_ensures(convert_float, (a, to), converted),
        call_ensures(rest_of_one, (a, to), rest),
    ensures
        ({
            let digits: nat = if to is Single {
                24
            } else {
                53
            };
            let least: nat = if to is Single {
                3851
            } else {
                2926
            };
            &&& is_nearest(integer, value as nat * pow2(4000), 1, digits, least)
            &&& is_nearest(sum, a.value() + b.value(), 1, digits, least)
            &&& is_nearest(product, a.value() * b.value(), pow2(4000), digits, least)
            &&& is_nearest(quotient, a.value() * pow2(4000), b.value(), digits, least)
            &&& is_nearest(converted, a.value(), 1, digits, least)
            &&& is_nearest(rest, (pow2(4000) - a.value()) as nat, 1, digits, least)
        }),
{
    lemma_pow2_pos(4000);
    lemma_rounded_is_nearest(integer, whole(value as nat), 1, to);
    lemma_rounded_is_nearest(sum, a.value() + b.value(), 1, to);
    lemma_rounded_is_nearest(product, a.value() * b.value(), one(), to);
    lemma_rounded_is_nearest(quotient, a.value() * one(), b.value(), to);
    lemma_rounded_is_nearest(converted, a.value(), 1, to);
    lemma_rounded_is_nearest(rest, (one() - a.value()) as nat, 1, to);
}

/// A bit pattern has its exponent above 23 digits of its fraction: the number is the fraction with a leading
/// one, times a power of two; at the least exponent the leading one is missing.
pub proof fn lemma_pattern_is_read(bits: u32, read: Float, fraction: int, exponent: int, written: u32)
    requires
        bits < 0x7f80_0000,
        bits == fraction + 0x80_0000 * exponent,
        0 <= fraction < 0x80_0000,
        call_ensures(from_bits, (bits,), read),
        call_ensures(to_bits, (read,), written),
    ensures
        exponent == 0 ==> read.digits * pow2(read.power as nat) == fraction * pow2(3851),
        exponent > 0 ==> read.digits * pow2(read.power as nat) == (0x80_0000 + fraction) * pow2(
            (3850 + exponent) as nat,
        ),
        written == bits,
{
    assert(bits as int / 0x80_0000 == exponent);
    assert(bits as int % 0x80_0000 == fraction);
    lemma_pattern(bits, number(bits));
}

/// A number of nanoseconds is the nearest to so many seconds, and a whole number the nearest to a number,
/// with a half rounded up, as far as it fits.
pub proof fn lemma_numbers_are_made_whole(a: Float, nanoseconds: u64, nearest: u32)
    requires
        call_ensures(to_nanoseconds, (a,), nanoseconds),
        call_ensures(round_to_whole, (a,), nearest),
    ensures
        2 * (nanoseconds * one()) <= 2_000_000_000 * a.value() + one(),
        2_000_000_000 * a.value() <= 2 * (nanoseconds * one()) + one(),
        2 * (nearest * one()) <= 2 * a.value() + one(),
        nearest < u32::MAX ==> 2 * a.value() < 2 * (nearest * one()) + one(),
{
    let unit = one();
    lemma_pow2_pos(4000);
    lemma_nanoseconds_are_close(a.value());
    let n = 2 * a.value() + unit;
    let d = 2 * unit;
    lemma_fundamental_div_mod(n as int, d as int);
    let whole_part = n / d;
    assert(d * whole_part == 2 * (whole_part * unit)) by (nonlinear_arith)
        requires
            d == 2 * unit,
    ;
    if whole_part > u32::MAX {
        assert(2 * (u32::MAX * unit) <= 2 * (whole_part * unit)) by (nonlinear_arith)
            requires
                whole_part > u32::MAX,
                unit > 0,
        ;
    }
}

/// Nanoseconds are rounded to the nearest.
pub proof fn lemma_nanoseconds_are_close(seconds: nat)
    ensures
        2 * (nanoseconds(seconds) * one()) <= 2_000_000_000 * seconds + one(),
        2_000_000_000 * seconds <= 2 * (nanoseconds(seconds) * one()) + one(),
{
    let unit = one();
    lemma_pow2_pos(4000);
    let n = seconds * 1_000_000_000;
    assert(unit * 1 == unit);
    let below = n / unit;
    lemma_fundamental_div_mod(n as int, unit as int);
    assert(below * 1 == below && (below + 1) * 1 == below + 1);
    assert(unit * below == below * unit) by (nonlinear_arith);
    assert((below + 1) * unit == below * unit + unit) by (nonlinear_arith);
}

} // verus!
