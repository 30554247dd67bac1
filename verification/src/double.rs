//! Non-negative double-precision numbers, computed in integers.
//!
//! A number is a mantissa and a power of two. Every operation gives the representable number
//! nearest to the exact result, and the one with the even mantissa where two are as near, so
//! what is computed here is what binary floating point computes.

use vstd::prelude::*;

verus! {

/// The smallest mantissa of a double: 53 bits, the top one set.
pub const DOUBLE: u64 = 0x10_0000_0000_0000;

/// A power of two.
pub open spec fn two_to(exponent: nat) -> nat
    decreases exponent,
{
    if exponent == 0 {
        1
    } else {
        2 * two_to((exponent - 1) as nat)
    }
}

/// `num / den` to the nearest integer, to the even one where two are as near.
pub open spec fn half_even(num: nat, den: nat) -> nat {
    let below = num / den;
    let rest = num % den;
    if 2 * rest < den || (2 * rest == den && below % 2 == 0) {
        below
    } else {
        below + 1
    }
}

pub open spec fn distance(num: nat, den: nat, unit: nat) -> nat {
    if num >= den * unit * 2 {
        num / den
    } else if num < den * unit {
        (den * unit - num) as nat
    } else {
        0
    }
}

/// The number nearest to `num / den` whose mantissa is at least `unit` and less than twice it:
/// the mantissa, and the power of two it is to be multiplied by.
pub open spec fn nearest(num: nat, den: nat, unit: nat) -> (nat, int)
    decreases distance(num, den, unit),
    via nearest_decreases
{
    if num == 0 || den == 0 || unit == 0 {
        (0, 0)
    } else if num >= den * unit * 2 {
        let rest = nearest(num, 2 * den, unit);
        (rest.0, rest.1 + 1)
    } else if num < den * unit {
        let rest = nearest(2 * num, den, unit);
        (rest.0, rest.1 - 1)
    } else {
        let mantissa = half_even(num, den);
        if mantissa == 2 * unit {
            (unit, 1)
        } else {
            (mantissa, 0)
        }
    }
}

#[via_fn]
proof fn nearest_decreases(num: nat, den: nat, unit: nat) {
    distance_falls(num, den, unit);
}

proof fn distance_falls(num: nat, den: nat, unit: nat)
    ensures
        num > 0 && den > 0 && unit > 0 && num >= den * unit * 2 ==> distance(num, 2 * den, unit)
            < distance(num, den, unit),
        num > 0 && den > 0 && unit > 0 && num < den * unit ==> distance(2 * num, den, unit)
            < distance(num, den, unit),
{
    if num == 0 || den == 0 || unit == 0 {
    } else if num >= den * unit * 2 {
        assert((2 * den) * unit == den * unit * 2) by (nonlinear_arith);
        assert(den * unit * 2 >= den) by (nonlinear_arith)
            requires
                unit >= 1,
        ;
        assert(num / (2 * den) < num / den) by (nonlinear_arith)
            requires
                num >= den,
                den > 0,
        ;
        assert(num / den > 0) by (nonlinear_arith)
            requires
                num >= den,
                den > 0,
        ;
    }
}

/// A number as a mantissa and an exponent.
pub type Dyadic = (nat, int);

/// The double nearest to `num / den`.
pub open spec fn ratio(num: nat, den: nat) -> Dyadic {
    nearest(num, den, DOUBLE as nat)
}

/// The double nearest to an integer.
pub open spec fn of_int(value: nat) -> Dyadic {
    ratio(value, 1)
}

/// The double nearest to `a / b`.
pub open spec fn quotient(a: Dyadic, b: Dyadic) -> Dyadic {
    let scaled = ratio(a.0, b.0);
    if scaled.0 == 0 {
        (0, 0)
    } else {
        (scaled.0, scaled.1 + a.1 - b.1)
    }
}

/// The double nearest to `a * b`.
pub open spec fn product(a: Dyadic, b: Dyadic) -> Dyadic {
    let scaled = of_int(a.0 * b.0);
    if scaled.0 == 0 {
        (0, 0)
    } else {
        (scaled.0, scaled.1 + a.1 + b.1)
    }
}

/// A mantissa over a smaller exponent.
pub open spec fn spread(a: Dyadic, base: int) -> nat {
    a.0 * two_to((a.1 - base) as nat)
}

/// The double nearest to `a + b`.
pub open spec fn sum(a: Dyadic, b: Dyadic) -> Dyadic {
    if a.0 == 0 {
        b
    } else if b.0 == 0 {
        a
    } else {
        let base = if a.1 < b.1 {
            a.1
        } else {
            b.1
        };
        let exact = of_int(spread(a, base) + spread(b, base));
        (exact.0, exact.1 + base)
    }
}

/// The double nearest to `a - b`, where `b` is not the larger.
pub open spec fn difference(a: Dyadic, b: Dyadic) -> Dyadic {
    if b.0 == 0 {
        a
    } else if a.1 < b.1 {
        (0, 0)
    } else {
        let exact = of_int((spread(a, b.1) - b.0) as nat);
        if exact.0 == 0 {
            (0, 0)
        } else {
            (exact.0, exact.1 + b.1)
        }
    }
}

/// Half of a number.
pub open spec fn half(a: Dyadic) -> Dyadic {
    if a.0 == 0 {
        a
    } else {
        (a.0, a.1 - 1)
    }
}

/// A number with a sign: whether it is below zero, and how far it is from it.
pub type Signed = (bool, Dyadic);

/// `a - b`, whichever is the larger.
pub open spec fn minus(a: Dyadic, b: Dyadic) -> Signed {
    if less(a, b) {
        (true, difference(b, a))
    } else {
        (false, difference(a, b))
    }
}

/// Whether one number with a sign is less than another.
pub open spec fn signed_less(a: Signed, b: Signed) -> bool {
    if a.0 && b.0 {
        less(b.1, a.1)
    } else if a.0 {
        a.1.0 > 0 || b.1.0 > 0
    } else if b.0 {
        false
    } else {
        less(a.1, b.1)
    }
}

/// The larger of two.
pub open spec fn at_least(a: Dyadic, b: Dyadic) -> Dyadic {
    if less(a, b) {
        b
    } else {
        a
    }
}

/// Whether `a` is less than `b`.
pub open spec fn less(a: Dyadic, b: Dyadic) -> bool {
    if b.0 == 0 {
        false
    } else if a.0 == 0 {
        true
    } else {
        a.1 < b.1 || (a.1 == b.1 && a.0 < b.0)
    }
}

/// The smaller of the two.
pub open spec fn at_most(a: Dyadic, b: Dyadic) -> Dyadic {
    if less(b, a) {
        b
    } else {
        a
    }
}

/// The integer part.
pub open spec fn whole(a: Dyadic) -> nat {
    if a.1 >= 0 {
        a.0 * two_to(a.1 as nat)
    } else {
        a.0 / two_to((-a.1) as nat)
    }
}

/// The least integer that is not below the number.
pub open spec fn ceiling(a: Dyadic) -> nat {
    if a.1 >= 0 {
        a.0 * two_to(a.1 as nat)
    } else {
        ((a.0 + two_to((-a.1) as nat) - 1) / two_to((-a.1) as nat) as int) as nat
    }
}

/// The nearest integer, the larger where two are as near.
pub open spec fn rounded(a: Dyadic) -> nat {
    if a.1 >= 0 {
        a.0 * two_to(a.1 as nat)
    } else {
        (2 * a.0 + two_to((-a.1) as nat)) / (2 * two_to((-a.1) as nat))
    }
}

/// `scale` times the number, to the nearest integer, to the even one where two are as near.
pub open spec fn printed(a: Dyadic, scale: nat) -> nat {
    if a.1 >= 0 {
        scale * a.0 * two_to(a.1 as nat)
    } else {
        half_even(scale * a.0, two_to((-a.1) as nat))
    }
}

/// A number that counts as a double here.
pub open spec fn is_double(a: Dyadic) -> bool {
    ||| a == (0nat, 0int)
    ||| DOUBLE <= a.0 < 2 * DOUBLE
}

proof fn half_even_bounds(num: nat, den: nat, unit: nat)
    requires
        den > 0,
        den * unit <= num < den * unit * 2,
    ensures
        unit <= num / den < 2 * unit,
        unit <= half_even(num, den) <= 2 * unit,
{
    assert(unit <= num / den < 2 * unit) by (nonlinear_arith)
        requires
            den > 0,
            den * unit <= num < den * unit * 2,
    ;
}

/// Rounding gives a normalised number, and zero for zero alone.
pub proof fn nearest_is_normal(num: nat, den: nat, unit: nat)
    requires
        den > 0,
        unit > 0,
    ensures
        num == 0 ==> nearest(num, den, unit) == (0nat, 0int),
        num > 0 ==> unit <= nearest(num, den, unit).0 < 2 * unit,
    decreases distance(num, den, unit),
{
    distance_falls(num, den, unit);
    if num == 0 {
    } else if num >= den * unit * 2 {
        assert((2 * den) * unit == den * unit * 2) by (nonlinear_arith);
        nearest_is_normal(num, 2 * den, unit);
    } else if num < den * unit {
        nearest_is_normal(2 * num, den, unit);
    } else {
        half_even_bounds(num, den, unit);
    }
}

pub proof fn two_to_grows(exponent: nat)
    ensures
        two_to(exponent) >= 1,
        two_to(exponent + 1) == 2 * two_to(exponent),
    decreases exponent,
{
    if exponent > 0 {
        two_to_grows((exponent - 1) as nat);
    }
}

pub proof fn two_to_is_monotone(low: nat, high: nat)
    requires
        low <= high,
    ensures
        two_to(low) <= two_to(high),
    decreases high - low,
{
    if low < high {
        two_to_is_monotone(low, (high - 1) as nat);
        two_to_grows((high - 1) as nat);
    }
}

proof fn two_to_by_twelve(exponent: nat)
    ensures
        two_to(exponent + 12) == 4096 * two_to(exponent),
{
    two_to_grows(exponent);
    two_to_grows(exponent + 1);
    two_to_grows(exponent + 2);
    two_to_grows(exponent + 3);
    two_to_grows(exponent + 4);
    two_to_grows(exponent + 5);
    two_to_grows(exponent + 6);
    two_to_grows(exponent + 7);
    two_to_grows(exponent + 8);
    two_to_grows(exponent + 9);
    two_to_grows(exponent + 10);
    two_to_grows(exponent + 11);
}

pub proof fn some_powers()
    ensures
        two_to(0) == 1,
        two_to(11) == 2048,
        two_to(53) == 2 * DOUBLE,
        two_to(64) == 0x1_0000_0000_0000_0000,
        two_to(120) == 0x100_0000_0000_0000_0000_0000_0000_0000,
{
    reveal_with_fuel(two_to, 13);
    two_to_by_twelve(5);
    two_to_by_twelve(17);
    two_to_by_twelve(29);
    two_to_by_twelve(41);
    two_to_by_twelve(4);
    two_to_by_twelve(16);
    two_to_by_twelve(28);
    two_to_by_twelve(40);
    two_to_by_twelve(52);
    two_to_by_twelve(0);
    two_to_by_twelve(12);
    two_to_by_twelve(24);
    two_to_by_twelve(36);
    two_to_by_twelve(48);
    two_to_by_twelve(60);
    two_to_by_twelve(72);
    two_to_by_twelve(84);
    two_to_by_twelve(96);
    two_to_by_twelve(108);
}

/// The number nearest to `num / den` with a mantissa of `unit` or more.
pub(crate) fn round_ratio(num: u128, den: u128, unit: u64) -> (out: (u64, i32))
    requires
        0 < den < 0x1000_0000_0000_0000,
        num < 0x100_0000_0000_0000_0000_0000_0000_0000,
        0 < unit <= DOUBLE,
    ensures
        (out.0 as nat, out.1 as int) == nearest(num as nat, den as nat, unit as nat),
        -121 <= out.1 <= 121,
{
    if num == 0 {
        return (0, 0);
    }
    let mut top: u128 = num;
    let mut bottom: u128 = den;
    assert(den * unit <= 0x1000_0000_0000_0000 * 0x10_0000_0000_0000) by (nonlinear_arith)
        requires
            0 < den < 0x1000_0000_0000_0000,
            0 < unit <= 0x10_0000_0000_0000,
    ;
    let mut low: u128 = den * (unit as u128);
    let mut exponent: i32 = 0;
    let ghost goal = nearest(num as nat, den as nat, unit as nat);
    assert(low >= 1) by (nonlinear_arith)
        requires
            low == den * unit,
            den > 0,
            unit > 0,
    ;
    proof {
        some_powers();
    }
    while top >= low * 2
        invariant
            0 < unit <= DOUBLE,
            0 < top == num < 0x100_0000_0000_0000_0000_0000_0000_0000,
            0 < bottom,
            1 <= low <= 0x100_0000_0000_0000_0000_0000_0000_0000,
            low == bottom * unit,
            0 <= exponent,
            low >= two_to(exponent as nat),
            0x100_0000_0000_0000_0000_0000_0000_0000int == two_to(120),
            exponent <= 120,
            exponent > 0 ==> top >= low,
            ({
                let rest = nearest(top as nat, bottom as nat, unit as nat);
                goal == (rest.0, rest.1 + exponent)
            }),
        decreases top - low,
    {
        proof {
            assert((2 * bottom) * unit == low * 2) by (nonlinear_arith)
                requires
                    low == bottom * unit,
            ;
            assert(bottom <= low) by (nonlinear_arith)
                requires
                    low == bottom * unit,
                    unit >= 1,
                    bottom >= 0,
            ;
            two_to_grows(exponent as nat);
            if exponent >= 119 {
                two_to_is_monotone(120, (exponent + 1) as nat);
                assert(false);
            }
        }
        bottom = bottom * 2;
        low = low * 2;
        exponent += 1;
    }
    while top < low
        invariant
            0 < unit <= DOUBLE,
            0 < bottom,
            0 < top < low * 2,
            1 <= low <= 0x100_0000_0000_0000_0000_0000_0000_0000,
            low == bottom * unit,
            -120 <= exponent <= 120,
            exponent > 0 ==> top >= low,
            exponent <= 0 ==> top >= two_to((-exponent) as nat),
            0x100_0000_0000_0000_0000_0000_0000_0000int == two_to(120),
            ({
                let rest = nearest(top as nat, bottom as nat, unit as nat);
                goal == (rest.0, rest.1 + exponent)
            }),
        decreases low * 2 - top,
    {
        proof {
            two_to_grows((-exponent) as nat);
            if exponent == -120 {
                assert(false);
            }
        }
        top = top * 2;
        exponent -= 1;
    }
    proof {
        half_even_bounds(top as nat, bottom as nat, unit as nat);
    }
    let below: u128 = top / bottom;
    let rest: u128 = top % bottom;
    let mut mantissa: u64 = below as u64;
    if !(rest < bottom - rest || (rest == bottom - rest && below % 2 == 0)) {
        mantissa = mantissa + 1;
    }
    if mantissa == 2 * unit {
        (unit, exponent + 1)
    } else {
        (mantissa, exponent)
    }
}

/// An integer that a mantissa holds is a double as it stands.
pub proof fn nearest_is_exact(num: nat, shift: nat, unit: nat)
    requires
        unit > 0,
        unit <= num * two_to(shift) < 2 * unit,
    ensures
        nearest(num, 1, unit) == (num * two_to(shift), -(shift as int)),
    decreases shift,
{
    if shift == 0 {
        assert(num * two_to(0) == num) by (nonlinear_arith)
            requires
                two_to(0) == 1,
        ;
        assert(half_even(num, 1) == num);
    } else {
        two_to_grows((shift - 1) as nat);
        let half = two_to((shift - 1) as nat);
        assert(num * two_to(shift) == (2 * num) * half) by (nonlinear_arith)
            requires
                two_to(shift) == 2 * half,
        ;
        assert(2 * num <= (2 * num) * half) by (nonlinear_arith)
            requires
                half >= 1,
        ;
        assert(num > 0) by (nonlinear_arith)
            requires
                (2 * num) * half >= 1,
                num >= 0,
        ;
        nearest_is_exact(2 * num, (shift - 1) as nat, unit);
    }
}

/// A ratio this far below the unit has at most this exponent.
pub proof fn nearest_exponent_below(num: nat, den: nat, unit: nat, shift: nat)
    requires
        den > 0,
        unit > 0,
        num > 0,
        num * two_to(shift) < den * unit,
    ensures
        nearest(num, den, unit).1 <= -(shift as int),
    decreases shift, distance(num, den, unit),
{
    two_to_grows(shift);
    let scale = two_to(shift);
    assert(num <= num * scale) by (nonlinear_arith)
        requires
            scale >= 1,
    ;
    distance_falls(num, den, unit);
    if shift == 0 {
        assert(num * two_to(0) == num) by (nonlinear_arith)
            requires
                two_to(0) == 1,
        ;
        if 2 * num < den * unit {
            assert((2 * num) * two_to(0) == 2 * num) by (nonlinear_arith)
                requires
                    two_to(0) == 1,
            ;
            nearest_exponent_below(2 * num, den, unit, 0);
        } else {
            assert(2 * num < den * unit * 2);
            let mantissa = half_even(2 * num, den);
            assert(nearest(2 * num, den, unit) == if mantissa == 2 * unit {
                (unit, 1int)
            } else {
                (mantissa, 0int)
            });
        }
    } else {
        let half = two_to((shift - 1) as nat);
        two_to_grows((shift - 1) as nat);
        assert((2 * num) * half == num * scale) by (nonlinear_arith)
            requires
                scale == 2 * half,
        ;
        nearest_exponent_below(2 * num, den, unit, (shift - 1) as nat);
    }
}

/// A ratio no further above the unit than this has at most this exponent.
pub proof fn nearest_exponent_above(num: nat, den: nat, unit: nat, shift: nat)
    requires
        den > 0,
        unit > 0,
        num > 0,
        num < den * unit * two_to(shift + 1),
    ensures
        nearest(num, den, unit).1 <= shift + 1,
    decreases shift,
{
    two_to_grows(shift);
    if num < den * unit {
        assert(num * two_to(0) == num) by (nonlinear_arith)
            requires
                two_to(0) == 1,
        ;
        nearest_exponent_below(num, den, unit, 0);
    } else if num >= den * unit * 2 {
        assert(shift > 0) by {
            if shift == 0 {
                assert(two_to(1) == 2) by {
                    reveal_with_fuel(two_to, 2);
                }
            }
        }
        let scale = two_to(shift);
        assert(den * unit * (2 * scale) == (2 * den) * unit * scale) by (nonlinear_arith);
        nearest_exponent_above(num, 2 * den, unit, (shift - 1) as nat);
    }
}

/// A ratio this close to the unit has at least this exponent.
pub proof fn nearest_exponent_least(num: nat, den: nat, unit: nat, shift: nat)
    requires
        den > 0,
        unit > 0,
        num * two_to(shift) >= den * unit,
    ensures
        nearest(num, den, unit).1 >= -(shift as int),
    decreases shift, distance(num, den, unit),
{
    distance_falls(num, den, unit);
    if num == 0 {
        assert(0 * two_to(shift) == 0) by (nonlinear_arith);
        assert(den * unit > 0) by (nonlinear_arith)
            requires
                den > 0,
                unit > 0,
        ;
    } else if num >= den * unit * 2 {
        two_to_grows(0);
        assert((2 * den) * unit == den * unit * 2) by (nonlinear_arith);
        assert(num * two_to(0) == num) by (nonlinear_arith)
            requires
                two_to(0) == 1,
        ;
        nearest_exponent_least(num, 2 * den, unit, 0);
    } else if num < den * unit {
        assert(shift > 0) by {
            if shift == 0 {
                assert(num * two_to(0) == num) by (nonlinear_arith)
                    requires
                        two_to(0) == 1,
                ;
            }
        }
        let half = two_to((shift - 1) as nat);
        two_to_grows((shift - 1) as nat);
        assert((2 * num) * half == num * two_to(shift)) by (nonlinear_arith)
            requires
                two_to(shift) == 2 * half,
        ;
        nearest_exponent_least(2 * num, den, unit, (shift - 1) as nat);
    }
}

/// A ratio this far above the unit has at least this exponent.
pub proof fn nearest_exponent_reaches(num: nat, den: nat, unit: nat, shift: nat)
    requires
        den > 0,
        unit > 0,
        num >= den * unit * two_to(shift),
    ensures
        nearest(num, den, unit).1 >= shift,
    decreases shift,
{
    two_to_grows(shift);
    assert(den * unit * two_to(shift) >= den * unit) by (nonlinear_arith)
        requires
            two_to(shift) >= 1,
            den * unit >= 0,
    ;
    assert(den * unit > 0) by (nonlinear_arith)
        requires
            den > 0,
            unit > 0,
    ;
    if shift == 0 {
        assert(num * two_to(0) == num) by (nonlinear_arith)
            requires
                two_to(0) == 1,
        ;
        nearest_exponent_least(num, den, unit, 0);
    } else {
        let half = two_to((shift - 1) as nat);
        two_to_grows((shift - 1) as nat);
        assert(den * unit * two_to(shift) == (2 * den) * unit * half) by (nonlinear_arith)
            requires
                two_to(shift) == 2 * half,
        ;
        assert((2 * den) * unit * half >= den * unit * 2) by (nonlinear_arith)
            requires
                half >= 1,
                den * unit >= 0,
        ;
        nearest_exponent_reaches(num, 2 * den, unit, (shift - 1) as nat);
    }
}

/// A number that keeps this exponent keeps at least what is above its last place.
proof fn nearest_keeps_the_top(num: nat, den: nat, unit: nat, shift: nat)
    requires
        den > 0,
        unit > 0,
        num >= den * unit * two_to(shift),
        nearest(num, den, unit).1 == shift,
    ensures
        den * two_to(shift) > 0,
        nearest(num, den, unit).0 >= num / (den * two_to(shift)),
    decreases shift,
{
    two_to_grows(shift);
    assert(den * two_to(shift) > 0) by (nonlinear_arith)
        requires
            den > 0,
            two_to(shift) >= 1,
    ;
    assert(den * unit * two_to(shift) >= den * unit) by (nonlinear_arith)
        requires
            two_to(shift) >= 1,
            den * unit >= 0,
    ;
    assert(den * unit > 0) by (nonlinear_arith)
        requires
            den > 0,
            unit > 0,
    ;
    if num >= den * unit * 2 {
        assert(shift > 0) by {
            assert((2 * den) * unit * two_to(0) == den * unit * 2) by (nonlinear_arith)
                requires
                    two_to(0) == 1,
            ;
            nearest_exponent_reaches(num, 2 * den, unit, 0);
        }
        let half = two_to((shift - 1) as nat);
        two_to_grows((shift - 1) as nat);
        assert(den * unit * two_to(shift) == (2 * den) * unit * half) by (nonlinear_arith)
            requires
                two_to(shift) == 2 * half,
        ;
        nearest_keeps_the_top(num, 2 * den, unit, (shift - 1) as nat);
        assert((2 * den) * half == den * two_to(shift)) by (nonlinear_arith)
            requires
                two_to(shift) == 2 * half,
        ;
    } else {
        assert(shift == 0 || half_even(num, den) == 2 * unit);
        if shift > 0 {
            two_to_is_monotone(1, shift);
            assert(two_to(1) == 2) by {
                reveal_with_fuel(two_to, 2);
            }
            assert(den * unit * two_to(shift) >= den * unit * 2) by (nonlinear_arith)
                requires
                    two_to(shift) >= 2,
                    den * unit >= 0,
            ;
        } else {
            assert(den * two_to(0) == den) by (nonlinear_arith)
                requires
                    two_to(0) == 1,
            ;
        }
    }
}

/// Adding never makes a number smaller.
pub proof fn sums_do_not_shrink(a: Dyadic, b: Dyadic)
    requires
        is_double(a),
        is_double(b),
    ensures
        !less(sum(a, b), a),
        !less(sum(a, b), b),
{
    if a.0 > 0 && b.0 > 0 {
        if a.1 < b.1 {
            larger_exponent_stays(b, a);
        } else {
            larger_exponent_stays(a, b);
            if a.1 == b.1 {
                larger_exponent_stays(b, a);
            }
        }
    }
}

proof fn larger_exponent_stays(high: Dyadic, low: Dyadic)
    requires
        is_double(high),
        is_double(low),
        high.0 > 0,
        low.0 > 0,
        high.1 >= low.1,
    ensures
        sum(high, low) == sum(low, high),
        !less(sum(high, low), high),
        high.1 > low.1 ==> !less(sum(high, low), low),
{
    let unit = DOUBLE as nat;
    let gap = (high.1 - low.1) as nat;
    let scale = two_to(gap);
    two_to_grows(gap);
    assert(low.0 * two_to(0) == low.0) by (nonlinear_arith)
        requires
            two_to(0) == 1,
    ;
    if gap == 0 {
        assert(high.0 * scale == high.0) by (nonlinear_arith)
            requires
                scale == 1,
        ;
    }
    let num = high.0 * scale + low.0;
    assert(spread(high, low.1) + spread(low, low.1) == num);
    assert(sum(high, low) == (of_int(num).0, of_int(num).1 + low.1));
    assert(1 * unit * scale <= num) by (nonlinear_arith)
        requires
            num == high.0 * scale + low.0,
            high.0 >= unit,
    ;
    nearest_exponent_reaches(num, 1, unit, gap);
    nearest_is_normal(num, 1, unit);
    if of_int(num).1 == gap {
        nearest_keeps_the_top(num, 1, unit, gap);
        assert(1 * scale == scale);
        assert(num / scale >= high.0) by (nonlinear_arith)
            requires
                num == high.0 * scale + low.0,
                scale >= 1,
        ;
    }
}

/// A number whose last place lies far above another is what their sum or difference rounds to.
proof fn specks_round_away(high: nat, speck: int, shift: nat, done: nat)
    requires
        DOUBLE <= high < 2 * DOUBLE,
        -(2 * DOUBLE) < speck < 2 * DOUBLE,
        60 < shift,
        done < shift,
    ensures
        high * two_to(shift) + speck > 0,
        nearest((high * two_to(shift) + speck) as nat, two_to(done), DOUBLE as nat) == (
            high,
            shift - done,
        ),
    decreases shift - done,
{
    let unit = DOUBLE as nat;
    let all = two_to(shift);
    let den = two_to(done);
    let top = two_to((shift - 1) as nat);
    some_powers();
    two_to_grows(53);
    two_to_grows(54);
    two_to_is_monotone(55, (shift - 1) as nat);
    two_to_is_monotone(done, (shift - 1) as nat);
    two_to_grows(done);
    two_to_grows((shift - 1) as nat);
    assert(all == 2 * top && top >= 4 * unit * 2);
    let exact = high * all + speck;
    assert(high * all >= unit * all) by (nonlinear_arith)
        requires
            high >= unit,
    ;
    assert(unit * all >= all) by (nonlinear_arith)
        requires
            unit >= 1,
    ;
    let num = exact as nat;
    if done < shift - 1 {
        two_to_is_monotone(done + 1, (shift - 1) as nat);
        assert(2 * den == two_to(done + 1));
        assert(den * unit * 2 <= top * unit) by (nonlinear_arith)
            requires
                2 * den <= top,
        ;
        assert(unit * all == 2 * (top * unit)) by (nonlinear_arith)
            requires
                all == 2 * top,
        ;
        assert(top * unit >= top) by (nonlinear_arith)
            requires
                unit >= 1,
        ;
        specks_round_away(high, speck, shift, done + 1);
    } else {
        assert(den == top);
        assert(den * unit * 2 == unit * all) by (nonlinear_arith)
            requires
                all == 2 * den,
        ;
        if exact >= den * unit * 2 {
            // One more halving, and the mantissa is there.
            assert(2 * den == all);
            assert(all * unit * 2 == (2 * unit) * all) by (nonlinear_arith);
            assert((high + 1) * all <= (2 * unit) * all) by (nonlinear_arith)
                requires
                    high + 1 <= 2 * unit,
            ;
            assert((high + 1) * all == high * all + all) by (nonlinear_arith);
            assert(all * unit == unit * all) by (nonlinear_arith);
            assert(half_even(num, all) == high) by {
                rounds_to(num, all, high, speck);
            }
            assert(nearest(num, all, unit) == (high, 0int));
        } else {
            assert(high == unit) by {
                if high > unit {
                    assert(high * all >= unit * all + all) by (nonlinear_arith)
                        requires
                            high >= unit + 1,
                    ;
                }
            }
            assert(speck < 0);
            assert(high * all == (2 * unit) * den) by (nonlinear_arith)
                requires
                    high == unit,
                    all == 2 * den,
            ;
            assert(den * unit <= num) by (nonlinear_arith)
                requires
                    num == (2 * unit) * den + speck,
                    den * unit >= den,
                    den >= -speck,
            {
                assert((2 * unit) * den == 2 * (den * unit));
            }
            assert(half_even(num, den) == 2 * unit) by {
                rounds_to(num, den, 2 * unit, speck);
            }
        }
    }
}

/// A multiple of `den` and less than half as much either way rounds to the multiple.
proof fn rounds_to(num: nat, den: nat, times: nat, speck: int)
    requires
        num == times * den + speck,
        -(den as int) < 2 * speck < den,
        times > 0,
    ensures
        half_even(num, den) == times,
{
    if speck >= 0 {
        vstd::arithmetic::div_mod::lemma_fundamental_div_mod_converse(
            num as int,
            den as int,
            times as int,
            speck,
        );
    } else {
        assert((times - 1) * den + (den + speck) == times * den + speck) by (nonlinear_arith);
        vstd::arithmetic::div_mod::lemma_fundamental_div_mod_converse(
            num as int,
            den as int,
            times - 1,
            den + speck,
        );
    }
}

/// The quotient of two doubles lies below two powers of their exponents' difference.
pub proof fn quotient_exponent(a: Dyadic, b: Dyadic)
    requires
        is_double(a),
        is_double(b),
        a.0 > 0,
        b.0 > 0,
    ensures
        quotient(a, b).1 <= a.1 - b.1 - 50,
        is_double(quotient(a, b)),
        quotient(a, b).0 > 0,
{
    some_powers();
    let scale = two_to(50);
    two_to_grows(50);
    two_to_grows(51);
    two_to_grows(52);
    assert(scale * 8 == 2 * DOUBLE);
    assert(a.0 * scale < b.0 * DOUBLE as nat) by (nonlinear_arith)
        requires
            scale * 8 == 2 * 0x10_0000_0000_0000,
            a.0 < 2 * 0x10_0000_0000_0000,
            b.0 >= 0x10_0000_0000_0000,
            DOUBLE == 0x10_0000_0000_0000,
    ;
    nearest_exponent_below(a.0, b.0, DOUBLE as nat, 50);
    nearest_is_normal(a.0, b.0, DOUBLE as nat);
}

/// A 64-bit integer as a double has an exponent of at most twelve.
pub proof fn of_int_exponent(value: nat)
    requires
        0 < value <= u64::MAX,
    ensures
        of_int(value).1 <= 12,
        is_double(of_int(value)),
        of_int(value).0 > 0,
{
    some_powers();
    two_to_grows(11);
    nearest_exponent_above(value, 1, DOUBLE as nat, 11);
    nearest_is_normal(value, 1, DOUBLE as nat);
}

/// The doubles that sizes and shares are held against.
pub proof fn some_doubles()
    ensures
        of_int(1) == (DOUBLE as nat, -52int),
        of_int(10) == (5629499534213120nat, -49int),
        of_int(100) == (7036874417766400nat, -46int),
        of_int(1000) == (8796093022208000nat, -43int),
        of_int(1024) == (DOUBLE as nat, -42int),
{
    some_powers();
    two_to_grows(52);
    two_to_grows(51);
    two_to_grows(50);
    two_to_grows(49);
    two_to_grows(48);
    two_to_grows(47);
    two_to_grows(46);
    two_to_grows(45);
    two_to_grows(44);
    two_to_grows(43);
    two_to_grows(42);
    nearest_is_exact(1, 52, DOUBLE as nat);
    nearest_is_exact(10, 49, DOUBLE as nat);
    nearest_is_exact(100, 46, DOUBLE as nat);
    nearest_is_exact(1000, 43, DOUBLE as nat);
    nearest_is_exact(1024, 42, DOUBLE as nat);
}

/// A non-negative double.
#[derive(Copy, Clone, Debug, PartialEq, Eq, Structural)]
pub struct Double {
    pub mantissa: u64,
    pub exponent: i32,
}

impl View for Double {
    type V = Dyadic;

    open spec fn view(&self) -> Dyadic {
        (self.mantissa as nat, self.exponent as int)
    }
}

/// A double with a sign.
#[derive(Copy, Clone, Debug, PartialEq, Eq, Structural)]
pub struct SignedDouble {
    pub negative: bool,
    pub size: Double,
}

impl View for SignedDouble {
    type V = Signed;

    open spec fn view(&self) -> Signed {
        (self.negative, self.size@)
    }
}

impl SignedDouble {
    /// Whether this number is less than the other.
    pub fn is_less(&self, other: &SignedDouble) -> (yes: bool)
        ensures
            yes == signed_less(self@, other@),
    {
        if self.negative && other.negative {
            other.size.is_less(&self.size)
        } else if self.negative {
            self.size.mantissa > 0 || other.size.mantissa > 0
        } else if other.negative {
            false
        } else {
            self.size.is_less(&other.size)
        }
    }
}

/// How far a product or quotient of two numbers within `a` and `b` of one can be from it.
pub open spec fn reach(a: int, b: int) -> int {
    a + b + 121
}

impl Double {
    /// A normalised number, no further from one than `bound` powers of two.
    pub open spec fn within(&self, bound: int) -> bool {
        is_double(self@) && -bound <= self.exponent <= bound
    }

    /// A number that any measurement of a disk can give, with room to spare.
    pub open spec fn valid(&self) -> bool {
        self.within(2000)
    }

    pub fn zero() -> (out: Double)
        ensures
            out@ == (0nat, 0int),
            out.valid(),
    {
        Double { mantissa: 0, exponent: 0 }
    }

    /// The double nearest to an integer.
    pub fn from_u64(value: u64) -> (out: Double)
        ensures
            out@ == of_int(value as nat),
            out.within(121),
            out.valid(),
    {
        let (mantissa, exponent): (u64, i32) = round_ratio(value as u128, 1, DOUBLE);
        proof {
            nearest_is_normal(value as nat, 1, DOUBLE as nat);
        }
        Double { mantissa, exponent }
    }

    /// The double nearest to `num / den`, both of which fit 64 bits.
    pub(crate) fn from_ratio(num: u64, den: u64) -> (out: Double)
        requires
            0 < den < 0x1000_0000_0000_0000,
        ensures
            out@ == ratio(num as nat, den as nat),
            out.within(121),
            out.valid(),
    {
        let (mantissa, exponent): (u64, i32) = round_ratio(num as u128, den as u128, DOUBLE);
        proof {
            nearest_is_normal(num as nat, den as nat, DOUBLE as nat);
        }
        Double { mantissa, exponent }
    }

    pub(crate) fn divided_by(&self, other: &Double, Ghost(bound): Ghost<int>) -> (out: Double)
        requires
            self.within(bound),
            other.within(bound),
            0 <= bound <= 500_000_000,
            other.mantissa > 0,
        ensures
            out@ == quotient(self@, other@),
            out.mantissa == 0 <==> self.mantissa == 0,
            out.mantissa > 0 ==> -121 <= out.exponent - self.exponent + other.exponent <= 121,
            out.within(reach(bound, bound)),
    {
        let (mantissa, exponent): (u64, i32) = round_ratio(
            self.mantissa as u128,
            other.mantissa as u128,
            DOUBLE,
        );
        proof {
            nearest_is_normal(self.mantissa as nat, other.mantissa as nat, DOUBLE as nat);
        }
        if mantissa == 0 {
            return Double { mantissa: 0, exponent: 0 };
        }
        Double { mantissa, exponent: exponent + self.exponent - other.exponent }
    }

    pub(crate) fn times(&self, other: &Double, Ghost(bound): Ghost<int>) -> (out: Double)
        requires
            self.within(bound),
            other.within(bound),
            0 <= bound <= 500_000_000,
        ensures
            out@ == product(self@, other@),
            out.mantissa > 0 ==> -121 <= out.exponent - self.exponent - other.exponent <= 121,
            out.mantissa == 0 <==> self.mantissa == 0 || other.mantissa == 0,
            out.within(reach(bound, bound)),
    {
        assert(self.mantissa * other.mantissa <= 0x20_0000_0000_0000 * 0x20_0000_0000_0000)
            by (nonlinear_arith)
            requires
                self.mantissa <= 0x20_0000_0000_0000,
                other.mantissa <= 0x20_0000_0000_0000,
        ;
        assert(self.mantissa * other.mantissa >= 0) by (nonlinear_arith);
        assert(self.mantissa * other.mantissa == 0 <==> self.mantissa == 0 || other.mantissa == 0)
            by (nonlinear_arith);
        let exact: u128 = (self.mantissa as u128) * (other.mantissa as u128);
        let (mantissa, exponent): (u64, i32) = round_ratio(exact, 1, DOUBLE);
        proof {
            nearest_is_normal(exact as nat, 1, DOUBLE as nat);
        }
        if mantissa == 0 {
            return Double { mantissa: 0, exponent: 0 };
        }
        Double { mantissa, exponent: exponent + self.exponent + other.exponent }
    }

    pub(crate) fn plus(&self, other: &Double, Ghost(bound): Ghost<int>) -> (out: Double)
        requires
            self.within(bound),
            other.within(bound),
            0 <= bound <= 500_000_000,
        ensures
            out@ == sum(self@, other@),
            is_double(out@),
            out.mantissa == 0 <==> self.mantissa == 0 && other.mantissa == 0,
            out.exponent >= -bound,
            other.mantissa == 0 || (self.mantissa > 0 && self.exponent > other.exponent + 60)
                ==> out == *self,
            self.mantissa == 0 ==> out == *other,
            out.exponent <= self.exponent + 2 || out.exponent <= other.exponent + 2,
            out.within(bound + 2),
    {
        if self.mantissa == 0 {
            return *other;
        }
        if other.mantissa == 0 {
            return *self;
        }
        if self.exponent < other.exponent {
            return other.add_smaller(self, Ghost(bound));
        }
        self.add_smaller(other, Ghost(bound))
    }

    fn add_smaller(&self, other: &Double, Ghost(bound): Ghost<int>) -> (out: Double)
        requires
            self.within(bound),
            other.within(bound),
            0 <= bound <= 500_000_000,
            self.mantissa > 0,
            other.mantissa > 0,
            self.exponent >= other.exponent,
        ensures
            out@ == sum(self@, other@),
            out@ == sum(other@, self@),
            is_double(out@),
            out.mantissa > 0,
            self.exponent > other.exponent + 60 ==> out == *self,
            self.exponent <= out.exponent <= self.exponent + 2,
    {
        let gap: i32 = self.exponent - other.exponent;
        let ghost spread_out = self.mantissa as nat * two_to(gap as nat);
        let ghost exact = spread_out + other.mantissa as nat;
        proof {
            two_to_grows(gap as nat);
            assert(other.mantissa * two_to(0) == other.mantissa) by (nonlinear_arith)
                requires
                    two_to(0) == 1,
            ;
            assert(sum(self@, other@) == (of_int(exact).0, of_int(exact).1 + other.exponent));
            if gap == 0 {
                assert(spread_out == self.mantissa) by (nonlinear_arith)
                    requires
                        spread_out == self.mantissa as nat * two_to(gap as nat),
                        two_to(gap as nat) == 1,
                ;
            }
            assert(sum(other@, self@) == sum(self@, other@));
        }
        if gap > 60 {
            proof {
                two_to_grows(0);
                specks_round_away(
                    self.mantissa as nat,
                    other.mantissa as int,
                    gap as nat,
                    0,
                );
            }
            return *self;
        }
        let scale: u128 = power(gap as u32);
        proof {
            some_powers();
            two_to_is_monotone(gap as nat, 60);
            two_to_grows(60);
            two_to_grows(61);
            two_to_grows(62);
            two_to_grows(63);
            assert(two_to(60) == 0x1000_0000_0000_0000);
            assert(0 <= self.mantissa * scale <= 0x20_0000_0000_0000 * 0x1000_0000_0000_0000)
                by (nonlinear_arith)
                requires
                    0 <= self.mantissa <= 0x20_0000_0000_0000,
                    0 <= scale <= 0x1000_0000_0000_0000,
            ;
        }
        let num: u128 = self.mantissa as u128 * scale + other.mantissa as u128;
        let (mantissa, exponent): (u64, i32) = round_ratio(num, 1, DOUBLE);
        proof {
            assert(num == exact);
            nearest_is_normal(num as nat, 1, DOUBLE as nat);
            two_to_grows(gap as nat + 1);
            assert(num < 1 * DOUBLE as nat * two_to((gap + 2) as nat)) by (nonlinear_arith)
                requires
                    num == self.mantissa * scale + other.mantissa,
                    two_to((gap + 2) as nat) == 4 * scale,
                    self.mantissa < 2 * DOUBLE,
                    other.mantissa < 2 * DOUBLE,
                    scale >= 1,
            ;
            nearest_exponent_above(num as nat, 1, DOUBLE as nat, (gap + 1) as nat);
            assert(num >= 1 * DOUBLE as nat * two_to(gap as nat)) by (nonlinear_arith)
                requires
                    num == self.mantissa * scale + other.mantissa,
                    two_to(gap as nat) == scale,
                    self.mantissa >= DOUBLE,
                    other.mantissa >= 0,
                    scale >= 1,
            ;
            nearest_exponent_reaches(num as nat, 1, DOUBLE as nat, gap as nat);
        }
        Double { mantissa, exponent: exponent + other.exponent }
    }

    /// What is left of this number without the other, with its sign.
    pub(crate) fn minus(&self, other: &Double, Ghost(bound): Ghost<int>) -> (out: SignedDouble)
        requires
            self.within(bound),
            other.within(bound),
            0 <= bound <= 500_000_000,
        ensures
            out@ == minus(self@, other@),
            out.size.within(bound + 121),
            other.mantissa == 0 ==> !out.negative && out.size == *self,
    {
        if self.is_less(other) {
            SignedDouble { negative: true, size: other.without(self, Ghost(bound)) }
        } else {
            SignedDouble { negative: false, size: self.without(other, Ghost(bound)) }
        }
    }

    fn without(&self, other: &Double, Ghost(bound): Ghost<int>) -> (out: Double)
        requires
            self.within(bound),
            other.within(bound),
            0 <= bound <= 500_000_000,
            !less(self@, other@),
        ensures
            out@ == difference(self@, other@),
            out.within(bound + 121),
            other.mantissa == 0 ==> out == *self,
    {
        if other.mantissa == 0 {
            return *self;
        }
        let gap: i32 = self.exponent - other.exponent;
        let ghost exact = self.mantissa as nat * two_to(gap as nat) - other.mantissa;
        proof {
            two_to_grows(gap as nat);
        }
        if gap > 60 {
            proof {
                two_to_grows(0);
                specks_round_away(
                    self.mantissa as nat,
                    -(other.mantissa as int),
                    gap as nat,
                    0,
                );
            }
            return *self;
        }
        let scale: u128 = power(gap as u32);
        proof {
            some_powers();
            two_to_is_monotone(gap as nat, 60);
            two_to_grows(60);
            two_to_grows(61);
            two_to_grows(62);
            two_to_grows(63);
            assert(two_to(60) == 0x1000_0000_0000_0000);
            assert(0 <= self.mantissa * scale <= 0x20_0000_0000_0000 * 0x1000_0000_0000_0000)
                by (nonlinear_arith)
                requires
                    0 <= self.mantissa <= 0x20_0000_0000_0000,
                    0 <= scale <= 0x1000_0000_0000_0000,
            ;
            assert(self.mantissa * scale >= other.mantissa) by {
                if gap == 0 {
                    assert(self.mantissa * scale == self.mantissa) by (nonlinear_arith)
                        requires
                            scale == 1,
                    ;
                } else {
                    two_to_is_monotone(1, gap as nat);
                    reveal_with_fuel(two_to, 2);
                    assert(self.mantissa * scale >= 2 * self.mantissa) by (nonlinear_arith)
                        requires
                            scale >= 2,
                            self.mantissa >= 0,
                    ;
                }
            }
        }
        let num: u128 = self.mantissa as u128 * scale - other.mantissa as u128;
        let (mantissa, exponent): (u64, i32) = round_ratio(num, 1, DOUBLE);
        proof {
            assert(num == exact);
            nearest_is_normal(num as nat, 1, DOUBLE as nat);
        }
        if mantissa == 0 {
            return Double { mantissa: 0, exponent: 0 };
        }
        Double { mantissa, exponent: exponent + other.exponent }
    }

    /// Half of this number.
    pub(crate) fn halved(&self) -> (out: Double)
        requires
            self.exponent > i32::MIN,
        ensures
            out@ == half(self@),
            is_double(self@) ==> is_double(out@),
            self.exponent - 1 <= out.exponent <= self.exponent,
            out.mantissa == self.mantissa,
    {
        if self.mantissa == 0 {
            *self
        } else {
            Double { mantissa: self.mantissa, exponent: self.exponent - 1 }
        }
    }

    /// Whether this number is less than the other.
    pub fn is_less(&self, other: &Double) -> (yes: bool)
        ensures
            yes == less(self@, other@),
    {
        if other.mantissa == 0 {
            false
        } else if self.mantissa == 0 {
            true
        } else {
            self.exponent < other.exponent || (self.exponent == other.exponent && self.mantissa
                < other.mantissa)
        }
    }

    pub(crate) fn capped(&self, limit: Double) -> (out: Double)
        ensures
            out@ == at_most(self@, limit@),
            out == *self || out == limit,
    {
        if limit.is_less(self) {
            limit
        } else {
            *self
        }
    }

    pub(crate) fn raised(&self, limit: Double) -> (out: Double)
        ensures
            out@ == at_least(self@, limit@),
            out == *self || out == limit,
    {
        if self.is_less(&limit) {
            limit
        } else {
            *self
        }
    }

    /// The integer part, as far as 64 bits hold it.
    pub(crate) fn to_u64(&self) -> (out: u64)
        requires
            is_double(self@),
        ensures
            out == if whole(self@) > u64::MAX {
                u64::MAX as nat
            } else {
                whole(self@)
            },
    {
        if self.mantissa == 0 {
            return 0;
        }
        if self.exponent >= 0 {
            return scale_up(self.mantissa, self.exponent);
        }
        shifted(self.mantissa, self.exponent)
    }

    /// The least integer that is not below the number, as far as 64 bits hold it.
    pub(crate) fn ceil(&self) -> (out: u64)
        requires
            is_double(self@),
        ensures
            out == if ceiling(self@) > u64::MAX {
                u64::MAX as nat
            } else {
                ceiling(self@)
            },
    {
        if self.mantissa == 0 {
            return 0;
        }
        if self.exponent >= 0 {
            return scale_up(self.mantissa, self.exponent);
        }
        if self.exponent <= -64 {
            proof {
                some_powers();
                let den = two_to((-self.exponent) as nat);
                two_to_is_monotone(64, (-self.exponent) as nat);
                assert(den * 1 + (self.mantissa - 1) == self.mantissa + den - 1);
                vstd::arithmetic::div_mod::lemma_fundamental_div_mod_converse(
                    self.mantissa + den - 1,
                    den as int,
                    1,
                    self.mantissa - 1,
                );
            }
            return 1;
        }
        let den: u128 = power((-self.exponent) as u32);
        let out: u128 = (self.mantissa as u128 + den - 1) / den;
        assert(out <= self.mantissa + 1) by (nonlinear_arith)
            requires
                out == (self.mantissa + den - 1) / (den as int),
                den >= 1,
                self.mantissa >= 0,
        ;
        out as u64
    }

    /// The nearest integer, as far as 64 bits hold it.
    pub(crate) fn round(&self) -> (out: u64)
        requires
            is_double(self@),
        ensures
            out == if rounded(self@) > u64::MAX {
                u64::MAX as nat
            } else {
                rounded(self@)
            },
    {
        if self.mantissa == 0 {
            return 0;
        }
        if self.exponent >= 0 {
            return scale_up(self.mantissa, self.exponent);
        }
        if self.exponent <= -64 {
            proof {
                some_powers();
                let den = two_to((-self.exponent) as nat);
                two_to_is_monotone(64, (-self.exponent) as nat);
                vstd::arithmetic::div_mod::lemma_basic_div(
                    2 * self.mantissa + den,
                    2 * den as int,
                );
            }
            return 0;
        }
        let den: u128 = power((-self.exponent) as u32);
        let out: u128 = (2 * (self.mantissa as u128) + den) / (2 * den);
        assert(out <= 2 * self.mantissa + den) by (nonlinear_arith)
            requires
                out == (2 * self.mantissa + den) / (2 * den as int),
                den >= 1,
        ;
        assert(out <= self.mantissa + 1) by (nonlinear_arith)
            requires
                out == (2 * self.mantissa + den) / (2 * den as int),
                den >= 1,
        ;
        out as u64
    }

    /// `scale` times the number to the nearest integer, for printing its decimals.
    pub(crate) fn print(&self, scale: u64) -> (out: u64)
        requires
            is_double(self@),
            1 <= scale <= 10,
            self.exponent < 0 || self.mantissa == 0,
        ensures
            out == printed(self@, scale as nat),
    {
        if self.mantissa == 0 {
            proof {
                assert(scale * 0 * two_to(0) == 0) by (nonlinear_arith);
            }
            return 0;
        }
        assert(0 <= scale * self.mantissa <= 10 * 0x20_0000_0000_0000) by (nonlinear_arith)
            requires
                1 <= scale <= 10,
                0 <= self.mantissa <= 0x20_0000_0000_0000,
        ;
        let num: u128 = (scale * self.mantissa) as u128;
        if self.exponent <= -64 {
            proof {
                some_powers();
                let den = two_to((-self.exponent) as nat);
                two_to_is_monotone(64, (-self.exponent) as nat);
                vstd::arithmetic::div_mod::lemma_basic_div(num as int, den as int);
                vstd::arithmetic::div_mod::lemma_small_mod(num as nat, den);
            }
            return 0;
        }
        let den: u128 = power((-self.exponent) as u32);
        let below: u128 = num / den;
        let rest: u128 = num % den;
        assert(below <= num) by (nonlinear_arith)
            requires
                below == num / den,
                den >= 1,
        ;
        if rest < den - rest || (rest == den - rest && below % 2 == 0) {
            below as u64
        } else {
            below as u64 + 1
        }
    }
}

/// A power of two below `2^64`.
pub(crate) fn power(exponent: u32) -> (out: u128)
    requires
        exponent < 64,
    ensures
        out == two_to(exponent as nat),
        1 <= out <= 0x1_0000_0000_0000_0000,
{
    let mut out: u128 = 1;
    let mut done: u32 = 0;
    proof {
        some_powers();
    }
    while done < exponent
        invariant
            done <= exponent < 64,
            out == two_to(done as nat),
            two_to(64) == 0x1_0000_0000_0000_0000,
        decreases exponent - done,
    {
        proof {
            two_to_grows(done as nat);
            two_to_is_monotone(done as nat, 64);
        }
        out = out * 2;
        done += 1;
    }
    proof {
        two_to_grows(done as nat);
        two_to_is_monotone(done as nat, 64);
    }
    out
}

/// The integer part of a mantissa divided by a power of two.
pub(crate) fn shifted(mantissa: u64, exponent: i32) -> (out: u64)
    requires
        exponent < 0,
    ensures
        out == whole((mantissa as nat, exponent as int)),
{
    if exponent <= -64 {
        proof {
            some_powers();
            two_to_is_monotone(64, (-exponent) as nat);
            vstd::arithmetic::div_mod::lemma_basic_div(
                mantissa as int,
                two_to((-exponent) as nat) as int,
            );
        }
        return 0;
    }
    let den: u128 = power((-exponent) as u32);
    assert(mantissa as u128 / den <= mantissa) by (nonlinear_arith)
        requires
            den >= 1,
    ;
    (mantissa as u128 / den) as u64
}

/// A mantissa times a power of two, as far as 64 bits hold it.
fn scale_up(mantissa: u64, exponent: i32) -> (out: u64)
    requires
        DOUBLE <= mantissa < 2 * DOUBLE,
        exponent >= 0,
    ensures
        out == if mantissa * two_to(exponent as nat) > u64::MAX {
            u64::MAX as int
        } else {
            mantissa * two_to(exponent as nat)
        },
{
    proof {
        some_powers();
    }
    if exponent > 11 {
        proof {
            two_to_grows(11);
            two_to_is_monotone(12, exponent as nat);
            let scale = two_to(exponent as nat);
            assert(mantissa * scale >= 0x10_0000_0000_0000 * 4096) by (nonlinear_arith)
                requires
                    mantissa >= 0x10_0000_0000_0000,
                    scale >= 4096,
            ;
        }
        return u64::MAX;
    }
    let scale: u128 = power(exponent as u32);
    proof {
        two_to_is_monotone(exponent as nat, 11);
        assert(mantissa * scale <= 0x1f_ffff_ffff_ffff * 2048) by (nonlinear_arith)
            requires
                0 <= mantissa <= 0x1f_ffff_ffff_ffff,
                0 <= scale <= 2048,
        ;
        assert(mantissa * scale >= 0) by (nonlinear_arith)
            requires
                0 <= mantissa,
                0 <= scale,
        ;
    }
    mantissa * (scale as u64)
}

/// A number a power of two larger.
pub open spec fn raised(number: Dyadic, by: nat) -> nat {
    number.0 * two_to((number.1 + by) as nat)
}

/// The nearest number is near: it is off by no more than half of its last place.
pub proof fn nearest_is_near(num: nat, den: nat, unit: nat, by: nat)
    requires
        num > 0,
        den > 0,
        unit > 0,
        nearest(num, den, unit).1 + by >= 0,
    ensures
        ({
            let value = raised(nearest(num, den, unit), by);
            let exact = num * two_to(by);
            &&& 2 * unit * (value * den) >= (2 * unit - 1) * exact
            &&& 2 * unit * (value * den) <= (2 * unit + 1) * exact
        }),
        num >= den * unit ==> nearest(num, den, unit).1 >= 0,
    decreases distance(num, den, unit),
{
    distance_falls(num, den, unit);
    let out = nearest(num, den, unit);
    let power = two_to(by);
    if num >= den * unit * 2 {
        let rest = nearest(num, 2 * den, unit);
        assert((2 * den) * unit == den * unit * 2) by (nonlinear_arith);
        assert(num * two_to(0) == num) by (nonlinear_arith)
            requires
                two_to(0) == 1,
        ;
        nearest_exponent_least(num, 2 * den, unit, 0);
        nearest_is_near(num, 2 * den, unit, by);
        two_to_grows((rest.1 + by) as nat);
        let value = raised(rest, by);
        assert(raised(out, by) == 2 * value) by (nonlinear_arith)
            requires
                raised(out, by) == rest.0 * two_to((rest.1 + by + 1) as nat),
                value == rest.0 * two_to((rest.1 + by) as nat),
                two_to((rest.1 + by + 1) as nat) == 2 * two_to(
                    (rest.1 + by) as nat,
                ),
        ;
        assert((2 * value) * den == value * (2 * den)) by (nonlinear_arith);
    } else if num < den * unit {
        let rest = nearest(2 * num, den, unit);
        nearest_is_near(2 * num, den, unit, by);
        two_to_grows((out.1 + by) as nat);
        let value = raised(out, by);
        assert(raised(rest, by) == 2 * value) by (nonlinear_arith)
            requires
                raised(rest, by) == rest.0 * two_to((out.1 + by + 1) as nat),
                value == rest.0 * two_to((out.1 + by) as nat),
                two_to((out.1 + by + 1) as nat) == 2 * two_to(
                    (out.1 + by) as nat,
                ),
        ;
        let exact = num * power;
        assert((2 * num) * power == 2 * exact) by (nonlinear_arith)
            requires
                exact == num * power,
        ;
        let whole = value * den;
        assert((2 * value) * den == 2 * whole) by (nonlinear_arith)
            requires
                whole == value * den,
        ;
        assert(2 * unit * whole >= (2 * unit - 1) * exact && 2 * unit * whole <= (2 * unit + 1)
            * exact) by (nonlinear_arith)
            requires
                2 * unit * (2 * whole) >= (2 * unit - 1) * (2 * exact),
                2 * unit * (2 * whole) <= (2 * unit + 1) * (2 * exact),
        ;
    } else {
        let mantissa = half_even(num, den);
        let below = num / den;
        let rest = num % den;
        assert(num == below * den + rest) by (nonlinear_arith)
            requires
                below == num / den,
                rest == num % den,
                den > 0,
        ;
        let off = mantissa * den;
        assert(2 * off >= 2 * num - den && 2 * off <= 2 * num + den) by (nonlinear_arith)
            requires
                off == mantissa * den,
                num == below * den + rest,
                0 <= rest < den,
                (mantissa == below && 2 * rest <= den) || (mantissa == below + 1 && 2 * rest
                    >= den),
        ;
        two_to_grows(by);
        two_to_grows((by + 1) as nat);
        assert(raised(out, by) == mantissa * power) by {
            if mantissa == 2 * unit {
                assert(unit * (2 * power) == (2 * unit) * power) by (nonlinear_arith);
            }
        }
        assert(2 * unit * off >= (2 * unit - 1) * num && 2 * unit * off <= (2 * unit + 1) * num)
            by (nonlinear_arith)
            requires
                2 * off >= 2 * num - den,
                2 * off <= 2 * num + den,
                num >= den * unit,
                unit > 0,
        ;
        let value = raised(out, by);
        assert(value * den == off * power) by (nonlinear_arith)
            requires
                value == mantissa * power,
                off == mantissa * den,
        ;
        assert(2 * unit * (off * power) >= (2 * unit - 1) * (num * power) && 2 * unit * (off
            * power) <= (2 * unit + 1) * (num * power)) by (nonlinear_arith)
            requires
                2 * unit * off >= (2 * unit - 1) * num,
                2 * unit * off <= (2 * unit + 1) * num,
                power >= 1,
        ;
    }
}

} // verus!
