//! What a duration comes to.

use vstd::arithmetic::div_mod::{lemma_div_by_multiple, lemma_mod_multiples_basic};
use vstd::prelude::*;
use crate::decimal;
use crate::double;
use crate::strings;
use crate::timefmt;
use crate::timefmt::Reading;

verus! {

proof fn two_to_adds(a: nat, b: nat)
    ensures
        double::two_to(a + b) == double::two_to(a) * double::two_to(b),
    decreases b,
{
    if b == 0 {
        assert(double::two_to(a) * 1 == double::two_to(a)) by (nonlinear_arith);
    } else {
        two_to_adds(a, (b - 1) as nat);
        double::two_to_grows((a + b - 1) as nat);
        double::two_to_grows((b - 1) as nat);
        let x = double::two_to(a);
        let y = double::two_to((b - 1) as nat);
        assert(2 * (x * y) == x * (2 * y)) by (nonlinear_arith);
    }
}

/// A number of at most 53 bits reaches the mantissa by doubling.
proof fn doubling_reaches(value: nat, unit: nat) -> (shift: nat)
    requires
        0 < value < 2 * unit,
    ensures
        unit <= value * double::two_to(shift) < 2 * unit,
    decreases 2 * unit - value,
{
    if value >= unit {
        assert(value * 1 == value);
        0
    } else {
        let rest = doubling_reaches(2 * value, unit);
        double::two_to_grows(rest);
        let y = double::two_to(rest);
        assert((2 * value) * y == value * (2 * y)) by (nonlinear_arith);
        rest + 1
    }
}

/// A mantissa with zeros behind it is a double as it stands.
proof fn zeros_are_kept(mantissa: nat, zeros: nat, taken: nat, unit: nat)
    requires
        unit > 0,
        unit <= mantissa < 2 * unit,
        taken <= zeros,
    ensures
        double::nearest(mantissa * double::two_to(zeros), double::two_to(taken), unit) == (
            mantissa,
            zeros - taken,
        ),
    decreases zeros - taken,
{
    let num = mantissa * double::two_to(zeros);
    let den = double::two_to(taken);
    double::two_to_grows(taken);
    double::two_to_grows(zeros);
    double::two_to_is_monotone(taken, zeros);
    assert(num >= mantissa) by (nonlinear_arith)
        requires
            num == mantissa * double::two_to(zeros),
            double::two_to(zeros) >= 1,
    ;
    if taken == zeros {
        assert(den * unit <= mantissa * den < den * unit * 2) by (nonlinear_arith)
            requires
                unit <= mantissa < 2 * unit,
                den >= 1,
        ;
        lemma_div_by_multiple(mantissa as int, den as int);
        lemma_mod_multiples_basic(mantissa as int, den as int);
        assert(double::half_even(num, den) == mantissa);
    } else {
        double::two_to_is_monotone(taken + 1, zeros);
        let top = double::two_to(zeros);
        assert(num >= den * unit * 2) by (nonlinear_arith)
            requires
                num == mantissa * top,
                top >= 2 * den,
                mantissa >= unit,
                den >= 1,
        ;
        zeros_are_kept(mantissa, zeros, taken + 1, unit);
    }
}

/// Whole numbers are multiplied exactly as long as what comes out fits a mantissa.
proof fn whole_products_are_exact(count: nat, scale: nat)
    requires
        count * scale < 0x20_0000_0000_0000,
        scale > 0,
    ensures
        decimal::scaled(count, 1, scale) == count * scale,
{
    let unit: nat = 0x10_0000_0000_0000;
    if count == 0 {
        assert(0 * scale == 0);
        assert(double::of_int(0).0 == 0);
        assert(double::of_int(0).0 * double::of_int(scale).0 == 0) by (nonlinear_arith)
            requires
                double::of_int(0).0 == 0,
        ;
        assert(double::two_to(0) == 1);
    } else {
        let all = count * scale;
        assert(count <= all && scale <= all && all > 0) by (nonlinear_arith)
            requires
                all == count * scale,
                count >= 1,
                scale >= 1,
        ;
        let s = doubling_reaches(count, unit);
        let t = doubling_reaches(scale, unit);
        let u = doubling_reaches(all, unit);
        double::nearest_is_exact(count, s, unit);
        double::nearest_is_exact(scale, t, unit);
        two_to_adds(s, t);
        let a = count * double::two_to(s);
        let b = scale * double::two_to(t);
        let both = double::two_to(s + t);
        let x = double::two_to(s);
        let y = double::two_to(t);
        assert(a * b == all * both) by (nonlinear_arith)
            requires
                a == count * x,
                b == scale * y,
                all == count * scale,
                both == x * y,
        ;
        assert(a * b >= unit * unit) by (nonlinear_arith)
            requires
                a >= unit,
                b >= unit,
        ;
        if s + t < u {
            double::two_to_is_monotone(s + t, u);
            assert(all * both <= all * double::two_to(u)) by (nonlinear_arith)
                requires
                    both <= double::two_to(u),
            ;
        }
        let zeros = (s + t - u) as nat;
        two_to_adds(u, zeros);
        let mantissa = all * double::two_to(u);
        assert(all * both == mantissa * double::two_to(zeros)) by (nonlinear_arith)
            requires
                both == double::two_to(u) * double::two_to(zeros),
                mantissa == all * double::two_to(u),
        ;
        zeros_are_kept(mantissa, zeros, 0, unit);
        assert(double::product(double::of_int(count), double::of_int(scale)) == (
            mantissa,
            -(u as int),
        ));
        double::two_to_grows(u);
        let v = double::two_to(u);
        lemma_div_by_multiple(all as int, v as int);
        if u == 0 {
            assert(all * 1 == all);
        }
    }
}

/// The digits of a number are read back as that number.
proof fn digits_are_read_back(value: nat)
    ensures
        ({
            let text = strings::digits(value);
            &&& text.len() > 0
            &&& forall|i: int| 0 <= i < text.len() ==> '0' <= #[trigger] text[i] <= '9'
            &&& timefmt::points_in(text) == 0
            &&& timefmt::digits_of(text).len() == text.len()
            &&& decimal::number(timefmt::digits_of(text)) == value
        }),
    decreases value,
{
    let text = strings::digits(value);
    if value < 10 {
        assert(text.drop_last() =~= Seq::empty());
        assert(timefmt::digits_of(text.drop_last()) =~= Seq::empty());
        assert(timefmt::digits_of(text).drop_last() =~= Seq::empty());
        assert(decimal::number(timefmt::digits_of(text).drop_last()) == 0);
        assert(timefmt::points_in(text.drop_last()) == 0);
    } else {
        digits_are_read_back(value / 10);
        assert(text.last() == strings::digit(value % 10));
        assert(text.drop_last() =~= strings::digits(value / 10));
        assert(timefmt::digits_of(text).drop_last() =~= timefmt::digits_of(text.drop_last()));
    }
}

proof fn numbers_end_with_their_digits(number: Seq<char>, unit: Seq<char>, from: nat)
    requires
        from <= number.len(),
        forall|i: int| 0 <= i < number.len() ==> '0' <= #[trigger] number[i] <= '9',
        unit.len() > 0 ==> !('0' <= unit[0] <= '9') && unit[0] != '.',
    ensures
        timefmt::number_end(number + unit, from) == number.len(),
    decreases number.len() - from,
{
    if from < number.len() {
        assert((number + unit)[from as int] == number[from as int]);
        numbers_end_with_their_digits(number, unit, from + 1);
    } else if unit.len() > 0 {
        assert((number + unit)[from as int] == unit[0]);
    }
}

/// A whole number of a known unit comes to so many times its seconds; one of an unknown unit is
/// refused with the unit's name. Beyond 53 bits the product is rounded, so nothing is said there.
pub proof fn durations_are_so_many_units(count: nat, unit: Seq<char>)
    requires
        unit.len() > 0 ==> !('0' <= unit[0] <= '9') && unit[0] != '.',
    ensures
        ({
            let given = strings::digits(count) + unit;
            match timefmt::unit_seconds(strings::trimmed(unit)) {
                Some(seconds) => count * seconds < 0x20_0000_0000_0000
                    ==> timefmt::understood(given) == Reading::Seconds(count * seconds as nat),
                None => timefmt::understood(given) == Reading::UnknownUnit(strings::trimmed(unit)),
            }
        }),
{
    let number = strings::digits(count);
    let given = number + unit;
    digits_are_read_back(count);
    numbers_end_with_their_digits(number, unit, 0);
    assert(given.take(number.len() as int) =~= number);
    assert(given.skip(number.len() as int) =~= unit);
    assert(decimal::ten_to(0) == 1);
    if let Some(seconds) = timefmt::unit_seconds(strings::trimmed(unit)) {
        if count * seconds < 0x20_0000_0000_0000 {
            whole_products_are_exact(count, seconds as nat);
        }
    }
}

proof fn digits_come_from_the_start(text: Seq<char>)
    requires
        text.len() > 0 ==> !timefmt::in_number(text[0]),
    ensures
        timefmt::number_end(text, 0) == 0,
{
}

/// What does not start with a digit or a point has no number, and nothing at all is told apart from
/// that.
pub proof fn durations_start_with_a_number(given: Seq<char>)
    ensures
        given.len() == 0 ==> timefmt::understood(given) == Reading::Empty,
        given.len() > 0 && !('0' <= given[0] <= '9') && given[0] != '.' ==> timefmt::understood(
            given,
        ) == Reading::NoNumber(given),
{
    if given.len() > 0 && !('0' <= given[0] <= '9') && given[0] != '.' {
        digits_come_from_the_start(given);
        assert(given.take(0) =~= Seq::empty());
        assert(timefmt::digits_of(given.take(0)).len() == 0);
    }
}

} // verus!
