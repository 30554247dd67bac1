//! Decimal numbers of any length, rounded to doubles.

use vstd::prelude::*;
use crate::double;
use crate::double::{Double, DOUBLE};

verus! {

/// What a run of decimal digits stands for, the first one counting most.
pub open spec fn number(digits: Seq<u8>) -> nat
    decreases digits.len(),
{
    if digits.len() == 0 {
        0
    } else {
        10 * number(digits.drop_last()) + digits.last() as nat
    }
}

/// A power of ten.
pub open spec fn ten_to(exponent: nat) -> nat
    decreases exponent,
{
    if exponent == 0 {
        1
    } else {
        10 * ten_to((exponent - 1) as nat)
    }
}

/// Whether every digit is one.
pub open spec fn proper(digits: Seq<u8>) -> bool {
    forall|i: int| 0 <= i < digits.len() ==> (#[trigger] digits[i]) < 10
}

/// What digits stand for, the first one counting least.
spec fn value(digits: Seq<u8>) -> nat
    decreases digits.len(),
{
    if digits.len() == 0 {
        0
    } else {
        digits[0] as nat + 10 * value(digits.drop_first())
    }
}

proof fn ten_to_is_positive(exponent: nat)
    ensures
        ten_to(exponent) > 0,
    decreases exponent,
{
    if exponent > 0 {
        ten_to_is_positive((exponent - 1) as nat);
    }
}

proof fn value_of_push(digits: Seq<u8>, digit: u8)
    ensures
        value(digits.push(digit)) == value(digits) + digit as nat * ten_to(digits.len()),
    decreases digits.len(),
{
    let all = digits.push(digit);
    if digits.len() == 0 {
        assert(all.drop_first() =~= digits);
        assert(all[0] == digit);
        assert(digit as nat * ten_to(0) == digit as nat) by (nonlinear_arith)
            requires
                ten_to(0) == 1,
        ;
    } else {
        assert(all.drop_first() =~= digits.drop_first().push(digit));
        assert(all[0] == digits[0]);
        value_of_push(digits.drop_first(), digit);
        let less = ten_to((digits.len() - 1) as nat);
        assert(10 * (digit as nat * less) == digit as nat * (10 * less)) by (nonlinear_arith);
    }
}

proof fn value_splits(digits: Seq<u8>, at: int)
    requires
        0 <= at <= digits.len(),
    ensures
        value(digits) == value(digits.take(at)) + ten_to(at as nat) * value(digits.skip(at)),
    decreases at,
{
    if at == 0 {
        assert(digits.skip(0) =~= digits);
        assert(1 * value(digits) == value(digits)) by (nonlinear_arith);
    } else {
        let rest = digits.drop_first();
        value_splits(rest, at - 1);
        assert(digits.take(at).drop_first() =~= rest.take(at - 1));
        assert(rest.skip(at - 1) =~= digits.skip(at));
        let less = ten_to((at - 1) as nat);
        let high = value(digits.skip(at));
        assert(10 * (less * high) == (10 * less) * high) by (nonlinear_arith);
    }
}

proof fn value_is_below(digits: Seq<u8>)
    requires
        proper(digits),
    ensures
        value(digits) < ten_to(digits.len()),
    decreases digits.len(),
{
    if digits.len() > 0 {
        let rest = digits.drop_first();
        assert(proper(rest)) by {
            assert forall|i: int| 0 <= i < rest.len() implies (#[trigger] rest[i]) < 10 by {
                assert(rest[i] == digits[i + 1]);
            }
        }
        assert(digits[0] < 10);
        value_is_below(rest);
    }
}

/// One more digit of a reversed number.
proof fn value_steps(digits: Seq<u8>, at: int)
    requires
        0 <= at < digits.len(),
    ensures
        value(digits.skip(at)) == digits[at] as nat + 10 * value(digits.skip(at + 1)),
{
    assert(digits.skip(at).drop_first() =~= digits.skip(at + 1));
}

/// A number written backwards.
fn reversed(digits: &Vec<u8>) -> (out: Vec<u8>)
    requires
        proper(digits@),
    ensures
        value(out@) == number(digits@),
        proper(out@),
{
    let mut out: Vec<u8> = Vec::new();
    let mut left: usize = digits.len();
    assert(digits@.take(left as int) =~= digits@);
    assert(ten_to(0) * number(digits@) == number(digits@)) by (nonlinear_arith)
        requires
            ten_to(0) == 1,
    ;
    while left > 0
        invariant
            left <= digits@.len(),
            out@.len() == digits@.len() - left,
            proper(out@),
            proper(digits@),
            number(digits@) == value(out@) + ten_to(out@.len()) * number(
                digits@.take(left as int),
            ),
        decreases left,
    {
        proof {
            let upto = digits@.take(left as int);
            assert(upto.drop_last() =~= digits@.take(left - 1));
            value_of_push(out@, digits@[left - 1]);
            let scale = ten_to(out@.len());
            let high = number(upto.drop_last());
            let digit = digits@[left - 1] as nat;
            assert(scale * (10 * high + digit) == digit * scale + (10 * scale) * high)
                by (nonlinear_arith);
        }
        left -= 1;
        out.push(digits[left]);
    }
    proof {
        assert(digits@.take(0).len() == 0);
        assert(ten_to(out@.len()) * 0 == 0) by (nonlinear_arith);
    }
    out
}

fn pad(digits: &mut Vec<u8>, length: usize)
    requires
        proper(old(digits)@),
        old(digits)@.len() <= length,
    ensures
        value(final(digits)@) == value(old(digits)@),
        proper(final(digits)@),
        final(digits)@.len() == length,
{
    while digits.len() < length
        invariant
            value(digits@) == value(old(digits)@),
            proper(digits@),
            digits@.len() <= length,
        decreases length - digits@.len(),
    {
        proof {
            value_of_push(digits@, 0);
            assert(0 * ten_to(digits@.len()) == 0) by (nonlinear_arith);
        }
        digits.push(0);
    }
}

/// A one and as many zeros as asked for, backwards.
fn power_of_ten(exponent: usize) -> (out: Vec<u8>)
    ensures
        value(out@) == ten_to(exponent as nat),
        proper(out@),
{
    let mut out: Vec<u8> = Vec::new();
    pad(&mut out, exponent);
    proof {
        value_of_push(out@, 1);
        assert(1 * ten_to(exponent as nat) == ten_to(exponent as nat)) by (nonlinear_arith);
    }
    out.push(1);
    out
}

/// Twice a number; the digit that is carried out of it comes beside it.
fn doubled(digits: &Vec<u8>) -> (out: (Vec<u8>, u8))
    requires
        proper(digits@),
    ensures
        out.0@.len() == digits@.len(),
        proper(out.0@),
        out.1 < 10,
        value(out.0@) + out.1 * ten_to(digits@.len()) == 2 * value(digits@),
{
    let mut out: Vec<u8> = Vec::new();
    let mut carry: u8 = 0;
    let mut at: usize = 0;
    assert(digits@.skip(0) =~= digits@);
    assert(ten_to(0) * (2 * value(digits@) + 0) == 2 * value(digits@)) by (nonlinear_arith)
        requires
            ten_to(0) == 1,
    ;
    while at < digits.len()
        invariant
            at <= digits@.len(),
            out@.len() == at,
            carry <= 1,
            proper(digits@),
            proper(out@),
            value(out@) + ten_to(at as nat) * (2 * value(digits@.skip(at as int)) + carry as nat)
                == 2 * value(digits@),
        decreases digits@.len() - at,
    {
        let sum: u8 = digits[at] * 2 + carry;
        let digit: u8 = sum % 10;
        proof {
            value_steps(digits@, at as int);
            value_of_push(out@, digit);
            let scale = ten_to(at as nat);
            let high = value(digits@.skip(at as int + 1));
            let next = (sum / 10) as nat;
            let own = digits@[at as int] as nat;
            assert(scale * (2 * (own + 10 * high) + carry as nat) == digit as nat * scale + (10
                * scale) * (2 * high + next)) by (nonlinear_arith)
                requires
                    2 * own + carry as nat == 10 * next + digit as nat,
            ;
        }
        out.push(digit);
        carry = sum / 10;
        at += 1;
    }
    proof {
        assert(digits@.skip(at as int) =~= Seq::empty());
        let scale = ten_to(at as nat);
        assert(scale * (2 * 0 + carry as nat) == carry * scale) by (nonlinear_arith);
    }
    (out, carry)
}

/// Whether one number is at least another of the same length.
fn reaches(left: &Vec<u8>, right: &Vec<u8>) -> (yes: bool)
    requires
        proper(left@),
        proper(right@),
        left@.len() == right@.len(),
    ensures
        yes == (value(left@) >= value(right@)),
{
    let mut at: usize = left.len();
    assert(left@.skip(at as int) =~= right@.skip(at as int));
    while at > 0
        invariant
            at <= left@.len() == right@.len(),
            proper(left@),
            proper(right@),
            value(left@.skip(at as int)) == value(right@.skip(at as int)),
        decreases at,
    {
        at -= 1;
        proof {
            value_steps(left@, at as int);
            value_steps(right@, at as int);
        }
        if left[at] != right[at] {
            proof {
                value_splits(left@, at as int);
                value_splits(right@, at as int);
                assert(proper(left@.take(at as int)) && proper(right@.take(at as int)));
                value_is_below(left@.take(at as int));
                value_is_below(right@.take(at as int));
                let scale = ten_to(at as nat);
                let a = value(left@.skip(at as int));
                let b = value(right@.skip(at as int));
                if left@[at as int] > right@[at as int] {
                    assert(scale * a >= scale * b + scale) by (nonlinear_arith)
                        requires
                            a >= b + 1,
                    ;
                } else {
                    assert(scale * b >= scale * a + scale) by (nonlinear_arith)
                        requires
                            b >= a + 1,
                    ;
                }
            }
            return left[at] > right[at];
        }
    }
    assert(left@.skip(0) =~= left@);
    assert(right@.skip(0) =~= right@);
    true
}

/// What one number leaves of another of the same length that reaches it.
fn without(left: &Vec<u8>, right: &Vec<u8>) -> (out: Vec<u8>)
    requires
        proper(left@),
        proper(right@),
        left@.len() == right@.len(),
        value(left@) >= value(right@),
    ensures
        out@.len() == left@.len(),
        proper(out@),
        value(out@) == value(left@) - value(right@),
{
    let mut out: Vec<u8> = Vec::new();
    let mut borrow: u8 = 0;
    let mut at: usize = 0;
    assert(left@.skip(0) =~= left@);
    assert(right@.skip(0) =~= right@);
    assert(ten_to(0) * (value(left@) - value(right@)) == value(left@) - value(right@))
        by (nonlinear_arith)
        requires
            ten_to(0) == 1,
    ;
    while at < left.len()
        invariant
            at <= left@.len() == right@.len(),
            out@.len() == at,
            borrow <= 1,
            proper(left@),
            proper(right@),
            proper(out@),
            value(out@) + ten_to(at as nat) * (value(left@.skip(at as int)) - value(
                right@.skip(at as int),
            ) - borrow) == value(left@) - value(right@),
        decreases left@.len() - at,
    {
        let from: u8 = left[at] + 10 - right[at] - borrow;
        let digit: u8 = from % 10;
        let next: u8 = if from >= 10 {
            0
        } else {
            1
        };
        proof {
            value_steps(left@, at as int);
            value_steps(right@, at as int);
            value_of_push(out@, digit);
            let scale = ten_to(at as nat) as int;
            let high = value(left@.skip(at as int + 1)) - value(right@.skip(at as int + 1));
            let own = left@[at as int] - right@[at as int];
            assert(scale * (own + 10 * high - borrow) == digit * scale + (10 * scale) * (high
                - next)) by (nonlinear_arith)
                requires
                    own - borrow == digit - 10 * next,
            ;
        }
        out.push(digit);
        borrow = next;
        at += 1;
    }
    proof {
        assert(left@.skip(at as int) =~= right@.skip(at as int));
        let scale = ten_to(at as nat);
        value_is_below(out@);
        assert(borrow == 0) by {
            if borrow == 1 {
                assert(scale * (0 - 1) == -scale) by (nonlinear_arith);
            }
        }
        assert(scale * 0 == 0) by (nonlinear_arith);
    }
    out
}

/// Twice a number, lengthening it and its companion where a digit is carried out of it.
fn grow(digits: &Vec<u8>, companion: &mut Vec<u8>) -> (out: Vec<u8>)
    requires
        proper(digits@),
        proper(old(companion)@),
        old(companion)@.len() == digits@.len(),
    ensures
        value(out@) == 2 * value(digits@),
        proper(out@),
        proper(final(companion)@),
        value(final(companion)@) == value(old(companion)@),
        final(companion)@.len() == out@.len(),
        out@.len() >= digits@.len(),
{
    let (mut out, carry): (Vec<u8>, u8) = doubled(digits);
    proof {
        value_of_push(out@, carry);
        value_of_push(companion@, 0);
        assert(0 * ten_to(companion@.len()) == 0) by (nonlinear_arith);
        assert(carry == 0 ==> carry * ten_to(digits@.len()) == 0) by (nonlinear_arith);
    }
    if carry > 0 {
        out.push(carry);
        companion.push(0);
    }
    out
}

/// A fraction rounded to a double, or which way it lies beyond all that is measured here.
enum Rounded {
    Tiny,
    Huge,
    Exact(Double),
}

spec fn is_rounded(out: Rounded, goal: double::Dyadic) -> bool {
    match out {
        Rounded::Tiny => goal.0 == 0 || (double::is_double(goal) && goal.1 <= -200),
        Rounded::Huge => double::is_double(goal) && goal.0 > 0 && goal.1 >= 100,
        Rounded::Exact(out) => out@ == goal && out.within(300),
    }
}

/// The double nearest to `num / den`, both written backwards.
fn round(num: Vec<u8>, den: &Vec<u8>) -> (out: Rounded)
    requires
        proper(num@),
        proper(den@),
        num@.len() == den@.len(),
        value(den@) > 0,
    ensures
        is_rounded(out, double::ratio(value(num@), value(den@))),
{
    let ghost unit = DOUBLE as nat;
    let ghost goal = double::ratio(value(num@), value(den@));
    let mut zero: Vec<u8> = Vec::new();
    pad(&mut zero, num.len());
    assert(value(zero@) == 0) by {
        let none: Seq<u8> = Seq::empty();
        assert(value(none) == 0);
    }
    if reaches(&zero, &num) {
        return Rounded::Tiny;
    }
    proof {
        double::nearest_is_normal(value(num@), value(den@), unit);
    }
    let mut top = num;
    let ghost mut below = value(den@);
    // The denominator times the smallest mantissa.
    let mut low = copied(den);
    let mut done: u32 = 0;
    assert(value(den@) * double::two_to(0) == value(den@)) by (nonlinear_arith)
        requires
            double::two_to(0) == 1,
    ;
    while done < 52
        invariant
            done <= 52,
            proper(low@),
            proper(top@),
            value(top@) == value(num@),
            low@.len() == top@.len(),
            value(low@) == value(den@) * double::two_to(done as nat),
        decreases 52 - done,
    {
        proof {
            double::two_to_grows(done as nat);
            let power = double::two_to(done as nat);
            let base = value(den@);
            assert(2 * (base * power) == base * (2 * power)) by (nonlinear_arith);
        }
        let next = grow(&low, &mut top);
        low = next;
        done += 1;
    }
    proof {
        double::some_powers();
        double::two_to_grows(52);
        assert(double::two_to(52) == unit);
    }
    let mut exponent: i32 = 0;
    // Too large a ratio: the denominator doubles until it is not.
    let mut twice = grow(&low, &mut top);
    pad(&mut low, twice.len());
    while reaches(&top, &twice)
        invariant
            unit == DOUBLE as nat,
            proper(low@),
            proper(top@),
            proper(twice@),
            low@.len() == top@.len() == twice@.len(),
            value(low@) == below * unit,
            value(twice@) == 2 * value(low@),
            below > 0,
            value(top@) > 0,
            0 <= exponent <= 100,
            double::is_double(goal),
            goal.0 > 0,
            goal == double::ratio(value(num@), value(den@)),
            goal == (
                double::nearest(value(top@), below, unit).0,
                double::nearest(value(top@), below, unit).1 + exponent,
            ),
        decreases 101 - exponent,
    {
        proof {
            assert(below * unit * 2 == (2 * below) * unit) by (nonlinear_arith);
            below = 2 * below;
        }
        exponent += 1;
        low = twice;
        if exponent > 100 {
            proof {
                assert(value(top@) * double::two_to(0) == value(top@)) by (nonlinear_arith)
                    requires
                        double::two_to(0) == 1,
                ;
                double::nearest_exponent_least(value(top@), below, unit, 0);
            }
            return Rounded::Huge;
        }
        twice = grow(&low, &mut top);
        pad(&mut low, twice.len());
    }
    // Too small a ratio: the numerator doubles until it is not.
    while !reaches(&top, &low)
        invariant
            unit == DOUBLE as nat,
            proper(low@),
            proper(top@),
            low@.len() == top@.len(),
            value(low@) == below * unit,
            below > 0,
            value(top@) > 0,
            value(top@) < below * unit * 2,
            -200 <= exponent <= 100,
            double::is_double(goal),
            goal.0 > 0,
            goal == double::ratio(value(num@), value(den@)),
            goal == (
                double::nearest(value(top@), below, unit).0,
                double::nearest(value(top@), below, unit).1 + exponent,
            ),
        decreases 201 + exponent,
    {
        if exponent <= -200 {
            proof {
                assert(value(top@) * double::two_to(0) == value(top@)) by (nonlinear_arith)
                    requires
                        double::two_to(0) == 1,
                ;
                double::nearest_exponent_below(value(top@), below, unit, 0);
            }
            return Rounded::Tiny;
        }
        let next = grow(&top, &mut low);
        top = next;
        exponent -= 1;
    }
    finish(top, low, exponent, Ghost(below), Ghost(goal))
}

fn copied(digits: &Vec<u8>) -> (out: Vec<u8>)
    ensures
        out@ == digits@,
{
    let mut out: Vec<u8> = Vec::new();
    let mut at: usize = 0;
    while at < digits.len()
        invariant
            at <= digits@.len(),
            out@ == digits@.take(at as int),
        decreases digits@.len() - at,
    {
        assert(digits@.take(at as int + 1) =~= digits@.take(at as int).push(digits@[at as int]));
        out.push(digits[at]);
        at += 1;
    }
    assert(digits@.take(at as int) =~= digits@);
    out
}

/// The mantissa of a ratio between one unit and two, a bit at a time.
fn finish(
    top: Vec<u8>,
    low: Vec<u8>,
    exponent: i32,
    Ghost(below): Ghost<nat>,
    Ghost(goal): Ghost<double::Dyadic>,
) -> (out: Rounded)
    requires
        proper(low@),
        proper(top@),
        low@.len() == top@.len(),
        below > 0,
        value(low@) == below * DOUBLE as nat,
        value(low@) <= value(top@) < 2 * value(low@),
        -200 <= exponent <= 100,
        goal == (
            double::nearest(value(top@), below, DOUBLE as nat).0,
            double::nearest(value(top@), below, DOUBLE as nat).1 + exponent,
        ),
    ensures
        is_rounded(out, goal),
{
    let ghost unit = DOUBLE as nat;
    let ghost num = value(top@);
    let mut mantissa: u64 = 1;
    let mut low = low;
    let mut rest = without(&top, &low);
    let mut done: u32 = 0;
    proof {
        assert(num * double::two_to(0) == num) by (nonlinear_arith)
            requires
                double::two_to(0) == 1,
        ;
        assert(1 * value(low@) == value(low@)) by (nonlinear_arith);
        double::some_powers();
        double::two_to_grows(52);
        assert(double::two_to(52) == unit);
    }
    while done < 52
        invariant
            done <= 52,
            unit == DOUBLE as nat,
            double::two_to(52) == unit,
            proper(low@),
            proper(rest@),
            low@.len() == rest@.len(),
            value(low@) == below * unit,
            value(rest@) < value(low@),
            num * double::two_to(done as nat) == mantissa * value(low@) + value(rest@),
            mantissa < 2 * double::two_to(done as nat),
        decreases 52 - done,
    {
        proof {
            double::two_to_grows(done as nat);
            double::two_to_is_monotone(done as nat + 1, 52);
            let power = double::two_to(done as nat);
            assert(num * (2 * power) == 2 * (num * power)) by (nonlinear_arith);
            let whole = value(low@);
            assert((2 * mantissa) * whole == 2 * (mantissa * whole)) by (nonlinear_arith);
            assert((2 * mantissa + 1) * whole == 2 * (mantissa * whole) + whole)
                by (nonlinear_arith);
        }
        let next = grow(&rest, &mut low);
        if reaches(&next, &low) {
            rest = without(&next, &low);
            mantissa = 2 * mantissa + 1;
        } else {
            rest = next;
            mantissa = 2 * mantissa;
        }
        done += 1;
    }
    let ghost left = value(rest@);
    let ghost whole = value(low@);
    let twice = grow(&rest, &mut low);
    let up = if reaches(&twice, &low) {
        !reaches(&low, &twice) || mantissa % 2 == 1
    } else {
        false
    };
    let rounded: u64 = if up {
        mantissa + 1
    } else {
        mantissa
    };
    proof {
        mantissa_is_quotient(num, below, unit, mantissa as nat, left);
        assert(rounded == double::half_even(num, below));
        assert(unit <= mantissa) by (nonlinear_arith)
            requires
                num * unit == mantissa * whole + left,
                whole <= num,
                left < whole,
                whole > 0,
                unit > 0,
        ;
        assert(below * unit * 2 == 2 * whole);
    }
    if rounded == 2 * DOUBLE {
        Rounded::Exact(Double { mantissa: DOUBLE, exponent: exponent + 1 })
    } else {
        Rounded::Exact(Double { mantissa: rounded, exponent })
    }
}

/// Long division by a scaled denominator gives the quotient, and the remainder scaled.
proof fn mantissa_is_quotient(num: nat, den: nat, unit: nat, quotient: nat, left: nat)
    requires
        den > 0,
        unit > 0,
        num * unit == quotient * (den * unit) + left,
        left < den * unit,
    ensures
        num / den == quotient,
        left == (num % den) * unit,
        2 * (num % den) < den <==> 2 * left < den * unit,
        2 * (num % den) == den <==> 2 * left == den * unit,
        den * unit > 0,
{
    let rest = num - quotient * den;
    assert(left == rest * unit) by (nonlinear_arith)
        requires
            num * unit == quotient * (den * unit) + left,
            rest == num - quotient * den,
    ;
    assert(0 <= rest < den) by (nonlinear_arith)
        requires
            left == rest * unit,
            0 <= left < den * unit,
            unit > 0,
    ;
    assert(num == quotient * den + rest);
    vstd::arithmetic::div_mod::lemma_fundamental_div_mod_converse(
        num as int,
        den as int,
        quotient as int,
        rest,
    );
    assert(2 * rest < den <==> 2 * left < den * unit) by (nonlinear_arith)
        requires
            left == rest * unit,
            unit > 0,
    ;
    assert(2 * rest == den <==> 2 * left == den * unit) by (nonlinear_arith)
        requires
            left == rest * unit,
            unit > 0,
    ;
    assert(den * unit > 0) by (nonlinear_arith)
        requires
            den > 0,
            unit > 0,
    ;
}

/// The integer part of a fraction, read as a double, times a scale.
pub open spec fn scaled(num: nat, den: nat, scale: nat) -> nat {
    let exact = double::whole(double::product(double::ratio(num, den), double::of_int(scale)));
    if exact > u64::MAX {
        u64::MAX as nat
    } else {
        exact
    }
}

/// Digits with a decimal point before the last `places` of them, as a double, times a scale: the
/// integer part, as far as 64 bits hold it.
pub(crate) fn scale_fraction(digits: &Vec<u8>, places: usize, scale: u64) -> (out: u64)
    requires
        proper(digits@),
        places <= digits@.len(),
        1 <= scale < 0x10_0000_0000_0000,
    ensures
        out == scaled(number(digits@), ten_to(places as nat), scale as nat),
{
    let mut num = reversed(digits);
    let mut den = power_of_ten(places);
    if num.len() < den.len() {
        pad(&mut num, den.len());
    } else {
        pad(&mut den, num.len());
    }
    proof {
        ten_to_is_positive(places as nat);
    }
    let factor = Double::from_u64(scale);
    match round(num, &den) {
        Rounded::Exact(value) => value.times(&factor, Ghost(300)).to_u64(),
        Rounded::Tiny => {
            proof {
                tiny_products_vanish(
                    double::ratio(number(digits@), ten_to(places as nat)),
                    scale as nat,
                );
            }
            0
        },
        Rounded::Huge => {
            proof {
                huge_products_overflow(
                    double::ratio(number(digits@), ten_to(places as nat)),
                    scale as nat,
                );
            }
            u64::MAX
        },
    }
}

proof fn tiny_products_vanish(a: double::Dyadic, scale: nat)
    requires
        a.0 == 0 || (double::is_double(a) && a.1 <= -200),
        0 < scale <= u64::MAX,
    ensures
        double::whole(double::product(a, double::of_int(scale))) == 0,
{
    let b = double::of_int(scale);
    let unit = DOUBLE as nat;
    double::of_int_exponent(scale);
    if a.0 == 0 {
        assert(0 * b.0 == 0) by (nonlinear_arith);
        assert(0 * double::two_to(0) == 0) by (nonlinear_arith);
    } else {
        let exact = a.0 * b.0;
        assert(0 < exact < 4 * (unit * unit)) by (nonlinear_arith)
            requires
                unit <= a.0 < 2 * unit,
                unit <= b.0 < 2 * unit,
                exact == a.0 * b.0,
                unit > 0,
        ;
        double::some_powers();
        double::two_to_grows(52);
        double::two_to_grows(53);
        double::two_to_grows(54);
        assert(double::two_to(55) == 8 * unit);
        assert(exact < 1 * unit * double::two_to(55)) by (nonlinear_arith)
            requires
                exact < 4 * (unit * unit),
                double::two_to(55) == 8 * unit,
                unit > 0,
        ;
        double::nearest_exponent_above(exact, 1, unit, 54);
        double::nearest_is_normal(exact, 1, unit);
        let product = double::product(a, b);
        assert(product.1 <= 55 - 200 + 12);
        double::two_to_is_monotone(64, (-product.1) as nat);
        vstd::arithmetic::div_mod::lemma_basic_div(
            product.0 as int,
            double::two_to((-product.1) as nat) as int,
        );
    }
}

proof fn huge_products_overflow(a: double::Dyadic, scale: nat)
    requires
        double::is_double(a),
        a.0 > 0,
        a.1 >= 100,
        0 < scale <= u64::MAX,
    ensures
        double::whole(double::product(a, double::of_int(scale))) > u64::MAX,
{
    let b = double::of_int(scale);
    let unit = DOUBLE as nat;
    double::of_int_exponent(scale);
    double::some_powers();
    double::two_to_grows(52);
    assert(double::two_to(52) == unit);
    assert(scale * double::two_to(52) >= 1 * unit) by (nonlinear_arith)
        requires
            scale >= 1,
            double::two_to(52) == unit,
    ;
    double::nearest_exponent_least(scale, 1, unit, 52);
    let exact = a.0 * b.0;
    assert(exact >= 1 * unit * double::two_to(52)) by (nonlinear_arith)
        requires
            a.0 >= unit,
            b.0 >= unit,
            exact == a.0 * b.0,
            double::two_to(52) == unit,
    ;
    double::nearest_exponent_reaches(exact, 1, unit, 52);
    double::nearest_is_normal(exact, 1, unit);
    let product = double::product(a, b);
    assert(product.1 >= 100);
    double::two_to_is_monotone(64, product.1 as nat);
    let power = double::two_to(product.1 as nat);
    assert(product.0 * power > u64::MAX) by (nonlinear_arith)
        requires
            product.0 >= 1,
            power >= 0x1_0000_0000_0000_0000,
    ;
}

} // verus!
