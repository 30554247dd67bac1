//! Colours for the radial view and the capacity bar.

use vstd::prelude::*;
use crate::double;
use crate::double::Double;

verus! {

#[derive(Copy, Clone, Debug, PartialEq, Eq, Structural)]
pub struct Rgb {
    pub r: u8,
    pub g: u8,
    pub b: u8,
}

impl Rgb {
    #[verifier::allow_in_spec]
    pub fn new(r: u8, g: u8, b: u8) -> Rgb
        returns
            (Rgb { r, g, b }),
    {
        Rgb { r, g, b }
    }
}

/// How many hues there are before they repeat.
pub const HUES: usize = 8;

/// The Okabe-Ito qualitative palette: eight hues chosen to stay distinct for the common forms of
/// colour blindness, which matters more here than usual because a segment's colour is the only thing
/// tying it to its legend row.
pub open spec fn hue(index: int) -> Rgb {
    if index == 0 {
        Rgb { r: 0, g: 114, b: 178 }
    } else if index == 1 {
        Rgb { r: 230, g: 159, b: 0 }
    } else if index == 2 {
        Rgb { r: 0, g: 158, b: 115 }
    } else if index == 3 {
        Rgb { r: 204, g: 121, b: 167 }
    } else if index == 4 {
        Rgb { r: 86, g: 180, b: 233 }
    } else if index == 5 {
        Rgb { r: 213, g: 94, b: 0 }
    } else if index == 6 {
        Rgb { r: 240, g: 228, b: 66 }
    } else {
        Rgb { r: 140, g: 140, b: 148 }
    }
}

/// Wraps, so a directory with more than eight children still gets a colour.
pub fn categorical(index: usize) -> (color: Rgb)
    ensures
        color == hue(index as int % 8),
{
    match index % HUES {
        // blue
        0 => Rgb::new(0, 114, 178),
        // orange
        1 => Rgb::new(230, 159, 0),
        // bluish green
        2 => Rgb::new(0, 158, 115),
        // reddish purple
        3 => Rgb::new(204, 121, 167),
        // sky blue
        4 => Rgb::new(86, 180, 233),
        // vermillion
        5 => Rgb::new(213, 94, 0),
        // yellow
        6 => Rgb::new(240, 228, 66),
        // neutral grey
        _ => Rgb::new(140, 140, 148),
    }
}

/// Colours come round again after eight, and no two of the eight are the same.
pub proof fn hues_wrap_and_differ(index: int, other: int)
    requires
        0 <= index,
    ensures
        hue(index % 8) == hue((index + 8) % 8),
        0 <= other < 8 && other != index % 8 ==> hue(other) != hue(index % 8),
{
}

/// The smallest mantissa of a single-precision number: 24 bits, the top one set.
pub const SINGLE: u64 = 0x80_0000;

/// How much lighter or darker a colour is drawn: a single-precision number that is not negative.
#[derive(Copy, Clone, Debug, PartialEq, Eq, Structural)]
pub struct Factor {
    pub mantissa: u64,
    pub exponent: i32,
}

impl View for Factor {
    type V = double::Dyadic;

    open spec fn view(&self) -> double::Dyadic {
        (self.mantissa as nat, self.exponent as int)
    }
}

impl Factor {
    pub open spec fn valid(&self) -> bool {
        &&& self@ == (0nat, 0int) || SINGLE <= self.mantissa < 2 * SINGLE
        &&& -149 <= self.exponent <= 121
    }

    /// The single-precision number nearest to `num / den`.
    pub fn of(num: u32, den: u32) -> (factor: Factor)
        requires
            den > 0,
        ensures
            factor@ == single(num as nat, den as nat),
            factor.valid(),
    {
        let (mantissa, exponent): (u64, i32) = double::round_ratio(
            num as u128,
            den as u128,
            SINGLE,
        );
        proof {
            double::nearest_is_normal(num as nat, den as nat, SINGLE as nat);
        }
        Factor { mantissa, exponent }
    }
}

/// The single-precision number nearest to `num / den`.
pub open spec fn single(num: nat, den: nat) -> double::Dyadic {
    double::nearest(num, den, SINGLE as nat)
}

/// One channel of a darkened colour.
pub open spec fn darkened(channel: nat, factor: double::Dyadic) -> nat {
    let exact = single(channel * factor.0, 1);
    double::whole((exact.0, exact.1 + factor.1))
}

/// A channel plus part of what it lacks to white, `part` of `2^23` being all of it.
pub open spec fn lightened(channel: nat, part: nat) -> nat {
    let step = single(((255 - channel) * part) as nat, SINGLE as nat);
    if step.0 == 0 {
        channel
    } else {
        let scale = double::two_to((-step.1) as nat);
        double::whole(single(channel * scale + step.0, scale))
    }
}

/// One channel of a shaded colour: up to one, the factor darkens toward black; above one, it
/// lightens toward white.
pub open spec fn shaded_channel(channel: nat, factor: double::Dyadic) -> nat {
    let shaded = if factor.0 == 0 || factor.1 < -23 || factor == (SINGLE as nat, -23int) {
        darkened(channel, factor)
    } else {
        let part = if factor.1 == -23 {
            (factor.0 - SINGLE) as nat
        } else {
            SINGLE as nat
        };
        lightened(channel, part)
    };
    if shaded > 255 {
        255
    } else {
        shaded
    }
}

/// A whole colour, shaded.
pub open spec fn shaded(color: Rgb, factor: double::Dyadic) -> Rgb {
    Rgb {
        r: shaded_channel(color.r as nat, factor) as u8,
        g: shaded_channel(color.g as nat, factor) as u8,
        b: shaded_channel(color.b as nat, factor) as u8,
    }
}

/// The integer part of a single-precision number, at most 255.
fn clamp(mantissa: u64, exponent: i32) -> (out: u8)
    requires
        mantissa == 0 || SINGLE <= mantissa < 2 * SINGLE,
    ensures
        out == if double::whole((mantissa as nat, exponent as int)) > 255 {
            255
        } else {
            double::whole((mantissa as nat, exponent as int))
        },
{
    if mantissa == 0 {
        proof {
            if exponent >= 0 {
                assert(0 * double::two_to(exponent as nat) == 0) by (nonlinear_arith);
            } else {
                double::two_to_grows((-exponent) as nat);
                vstd::arithmetic::div_mod::lemma_basic_div(
                    0,
                    double::two_to((-exponent) as nat) as int,
                );
            }
        }
        return 0;
    }
    if exponent >= 0 {
        proof {
            double::two_to_grows(exponent as nat);
            let scale = double::two_to(exponent as nat);
            assert(mantissa * scale >= mantissa) by (nonlinear_arith)
                requires
                    scale >= 1,
            ;
        }
        return 255;
    }
    let out: u64 = double::shifted(mantissa, exponent);
    if out > 255 {
        255
    } else {
        out as u8
    }
}

fn lighten(channel: u8, part: u64) -> (out: u8)
    requires
        part <= SINGLE,
    ensures
        out == if lightened(channel as nat, part as nat) > 255 {
            255
        } else {
            lightened(channel as nat, part as nat)
        },
{
    let lacking: u64 = (255 - channel) as u64;
    assert(0 <= lacking * part <= 255 * 0x80_0000) by (nonlinear_arith)
        requires
            0 <= lacking <= 255,
            0 <= part <= 0x80_0000,
    ;
    let num: u64 = lacking * part;
    let (mantissa, exponent): (u64, i32) = double::round_ratio(num as u128, SINGLE as u128, SINGLE);
    proof {
        double::nearest_is_normal(num as nat, SINGLE as nat, SINGLE as nat);
    }
    if mantissa == 0 {
        return channel;
    }
    proof {
        // A ratio of at least 2^-23 and less than 2^8.
        assert(double::two_to(46) == 0x4000_0000_0000 && double::two_to(14) == 16384) by {
            reveal_with_fuel(double::two_to, 47);
        }
        double::nearest_exponent_below(num as nat, SINGLE as nat, SINGLE as nat, 14);
        double::nearest_exponent_least(num as nat, SINGLE as nat, SINGLE as nat, 46);
    }
    let scale: u128 = double::power((-exponent) as u32);
    proof {
        double::two_to_is_monotone((-exponent) as nat, 46);
        assert(0 <= channel * scale <= 255 * 0x4000_0000_0000) by (nonlinear_arith)
            requires
                0 <= channel <= 255,
                0 <= scale <= 0x4000_0000_0000,
        ;
    }
    let total: u128 = channel as u128 * scale + mantissa as u128;
    let (mantissa, exponent): (u64, i32) = double::round_ratio(total, scale, SINGLE);
    proof {
        double::nearest_is_normal(total as nat, scale as nat, SINGLE as nat);
    }
    clamp(mantissa, exponent)
}

fn blend(channel: u8, factor: Factor) -> (out: u8)
    requires
        factor.valid(),
    ensures
        out == shaded_channel(channel as nat, factor@),
{
    if factor.mantissa == 0 || factor.exponent < -23 || (factor.mantissa == SINGLE
        && factor.exponent == -23) {
        assert(0 <= channel * factor.mantissa <= 255 * 0x100_0000) by (nonlinear_arith)
            requires
                0 <= channel <= 255,
                0 <= factor.mantissa <= 0x100_0000,
        ;
        let num: u64 = channel as u64 * factor.mantissa;
        let (mantissa, exponent): (u64, i32) = double::round_ratio(num as u128, 1, SINGLE);
        proof {
            double::nearest_is_normal(num as nat, 1, SINGLE as nat);
        }
        clamp(mantissa, exponent + factor.exponent)
    } else if factor.exponent == -23 {
        lighten(channel, factor.mantissa - SINGLE)
    } else {
        lighten(channel, SINGLE)
    }
}

/// A factor up to one darkens toward black, one above it lightens toward white.
///
/// Deeper rings are lighter shades of their parent, which is what makes a sunburst readable as a
/// hierarchy rather than a pile of unrelated wedges.
pub fn shade(color: Rgb, factor: Factor) -> (out: Rgb)
    requires
        factor.valid(),
    ensures
        out == shaded(color, factor@),
{
    Rgb::new(blend(color.r, factor), blend(color.g, factor), blend(color.b, factor))
}

/// The whole colour is what a factor of one leaves as it is.
pub proof fn one_changes_nothing(color: Rgb)
    ensures
        shaded(color, (SINGLE as nat, -23int)) == color,
{
    channel_stays(color.r as nat);
    channel_stays(color.g as nat);
    channel_stays(color.b as nat);
}

proof fn channel_stays(channel: nat)
    requires
        channel <= 255,
    ensures
        shaded_channel(channel, (SINGLE as nat, -23int)) == channel,
{
    if channel == 0 {
        assert(0nat * SINGLE as nat == 0);
        assert(double::whole((0nat, -23int)) == 0) by {
            double::two_to_grows(23);
            vstd::arithmetic::div_mod::lemma_basic_div(0, double::two_to(23) as int);
        }
    } else {
        single_of_channel(channel, 0);
    }
}

/// A channel times the unit halves into a mantissa without loss.
#[verifier::spinoff_prover]
#[verifier::rlimit(50)]
proof fn single_of_channel(channel: nat, shift: nat)
    requires
        0 < channel <= 255,
        shift <= 8,
        shift > 0 ==> channel * SINGLE >= double::two_to(shift) * SINGLE,
    ensures
        ({
            let exact = double::nearest(channel * SINGLE as nat, double::two_to(shift), SINGLE as nat);
            double::whole((exact.0, exact.1 + shift - 23)) == channel
        }),
    decreases 8 - shift,
{
    reveal_with_fuel(double::two_to, 25);
    let num = channel * SINGLE as nat;
    let den = double::two_to(shift);
    double::two_to_grows(shift);
    assert(den == 1 || den == 2 || den == 4 || den == 8 || den == 16 || den == 32 || den == 64
        || den == 128 || den == 256);
    if num >= den * SINGLE * 2 {
        assert(2 * den == double::two_to(shift + 1));
        single_of_channel(channel, shift + 1);
    } else {
        assert(channel < 2 * den);
        assert(num % den == 0 && num / den * den == num) by {
            let part = SINGLE as nat / den;
            assert(part * den == SINGLE);
            assert(num == (channel * part) * den) by (nonlinear_arith)
                requires
                    num == channel * 0x80_0000,
                    part * den == 0x80_0000,
            ;
            vstd::arithmetic::div_mod::lemma_mod_multiples_basic((channel * part) as int, den as int);
            vstd::arithmetic::div_mod::lemma_div_multiples_vanish((channel * part) as int, den as int);
        }
        let mantissa = num / den;
        assert(double::half_even(num, den) == mantissa);
        assert(mantissa < 2 * SINGLE) by (nonlinear_arith)
            requires
                mantissa * den == channel * 0x80_0000,
                channel < 2 * den,
                SINGLE == 0x80_0000,
        ;
        let scale = double::two_to((23 - shift) as nat);
        assert(scale * den == 0x80_0000);
        assert(mantissa / scale == channel) by {
            assert(mantissa == channel * scale) by (nonlinear_arith)
                requires
                    mantissa * den == channel * 0x80_0000,
                    scale * den == 0x80_0000,
                    den > 0,
            ;
            vstd::arithmetic::div_mod::lemma_div_multiples_vanish(channel as int, scale as int);
        }
    }
}

#[verifier::allow_in_spec]
pub fn capacity_ok() -> Rgb
    returns
        (Rgb { r: 0, g: 158, b: 115 }),
{
    Rgb::new(0, 158, 115)
}

#[verifier::allow_in_spec]
pub fn capacity_warn() -> Rgb
    returns
        (Rgb { r: 230, g: 159, b: 0 }),
{
    Rgb::new(230, 159, 0)
}

#[verifier::allow_in_spec]
pub fn capacity_critical() -> Rgb
    returns
        (Rgb { r: 213, g: 94, b: 0 }),
{
    Rgb::new(213, 94, 0)
}

/// Green until the disk is worth thinking about, amber at 75%, red at 90%.
pub fn capacity_color(used_fraction: Double) -> (color: Rgb)
    ensures
        color == if !double::less(used_fraction@, double::ratio(9, 10)) {
            capacity_critical()
        } else if !double::less(used_fraction@, double::ratio(3, 4)) {
            capacity_warn()
        } else {
            capacity_ok()
        },
{
    if !used_fraction.is_less(&Double::from_ratio(9, 10)) {
        capacity_critical()
    } else if !used_fraction.is_less(&Double::from_ratio(3, 4)) {
        capacity_warn()
    } else {
        capacity_ok()
    }
}

/// What a change is drawn in, before it is weighed: growth glows, shrinkage cools to blue, and what
/// did not move recedes into the background.
pub open spec fn direction_hue(delta: int) -> Rgb {
    if delta > 0 {
        hue(5)
    } else if delta < 0 {
        hue(4)
    } else {
        hue(7)
    }
}

/// How strongly a change is drawn: in full from half the biggest one up, dimmer below.
pub open spec fn weighed(delta: nat, scale: nat) -> double::Dyadic {
    if 2 * delta >= scale {
        single(1, 1)
    } else {
        single(7, 10)
    }
}

/// What a change is drawn in, next to the biggest one on screen.
pub open spec fn growth_hue(delta: int, scale: nat) -> Rgb {
    shaded(
        direction_hue(delta),
        weighed(
            if delta < 0 {
                (-delta) as nat
            } else {
                delta as nat
            },
            scale,
        ),
    )
}

/// The colour of a change, next to the biggest one on screen.
pub fn growth_color(delta: i64, scale: u64) -> (color: Rgb)
    ensures
        color == growth_hue(delta as int, scale as nat),
{
    let base = if delta > 0 {
        categorical(5)
    } else if delta < 0 {
        categorical(4)
    } else {
        categorical(7)
    };
    let size: u128 = if delta < 0 {
        (-(delta as i128)) as u128
    } else {
        delta as u128
    };
    let factor = if 2 * size >= scale as u128 {
        Factor::of(1, 1)
    } else {
        Factor::of(7, 10)
    };
    shade(base, factor)
}

} // verus!
