//! Human-readable byte formatting.

use vstd::prelude::*;
use crate::double;
use crate::double::Double;
use crate::strings;

verus! {

/// Which size a caller wants when a tree is queried.
///
/// `Allocated` is what the filesystem actually took (`du`), `Apparent` is the sum of file lengths
/// (`ls`). Sparse files and compression make them differ.
#[derive(Copy, Clone, Debug, PartialEq, Eq, Structural)]
pub enum SizeKind {
    Allocated,
    Apparent,
}

impl Default for SizeKind {
    fn default() -> (kind: SizeKind)
        ensures
            kind == SizeKind::Allocated,
    {
        SizeKind::Allocated
    }
}

/// Decimal (GB, what disk vendors and macOS print) or binary (GiB).
#[derive(Copy, Clone, Debug, PartialEq, Eq, Structural)]
pub enum Unit {
    Decimal,
    Binary,
}

impl Default for Unit {
    fn default() -> (unit: Unit)
        ensures
            unit == Unit::Decimal,
    {
        Unit::Decimal
    }
}

/// How many of one unit make the next.
pub open spec fn base_of(unit: Unit) -> nat {
    match unit {
        Unit::Decimal => 1000,
        Unit::Binary => 1024,
    }
}

/// What a unit is called, `step` steps up from bytes.
pub open spec fn unit_name(unit: Unit, step: nat) -> Seq<char> {
    match unit {
        Unit::Decimal => if step == 0 {
            "B"@
        } else if step == 1 {
            "KB"@
        } else if step == 2 {
            "MB"@
        } else if step == 3 {
            "GB"@
        } else if step == 4 {
            "TB"@
        } else if step == 5 {
            "PB"@
        } else {
            "EB"@
        },
        Unit::Binary => if step == 0 {
            "B"@
        } else if step == 1 {
            "KiB"@
        } else if step == 2 {
            "MiB"@
        } else if step == 3 {
            "GiB"@
        } else if step == 4 {
            "TiB"@
        } else if step == 5 {
            "PiB"@
        } else {
            "EiB"@
        },
    }
}

/// An amount divided by the base until it is below it, and how often that took. There is no unit
/// above the sixth.
pub open spec fn scaled(value: double::Dyadic, base: nat, step: nat) -> (double::Dyadic, nat)
    decreases 6 - step,
{
    if step < 6 && !double::less(value, double::of_int(base)) {
        scaled(double::quotient(value, double::of_int(base)), base, step + 1)
    } else {
        (value, step)
    }
}

/// A number of tenths, without the decimal where it is zero.
pub open spec fn tenths_text(tenths: nat) -> Seq<char> {
    if tenths % 10 == 0 {
        strings::digits(tenths / 10)
    } else {
        strings::digits(tenths / 10) + "."@ + strings::digits(tenths % 10)
    }
}

/// An amount with one decimal below ten and none from there on.
pub open spec fn amount_text(value: double::Dyadic) -> Seq<char> {
    if double::less(value, double::of_int(10)) {
        tenths_text(double::printed(value, 10))
    } else {
        strings::digits(double::printed(value, 1))
    }
}

/// How a number of bytes is written.
pub open spec fn formatted(bytes: nat, unit: Unit) -> Seq<char> {
    if bytes < base_of(unit) {
        strings::digits(bytes) + " B"@
    } else {
        let (value, step) = scaled(double::of_int(bytes), base_of(unit), 0);
        amount_text(value) + " "@ + unit_name(unit, step)
    }
}

/// A share in percent, never above a hundred.
pub open spec fn percent(fraction: double::Dyadic) -> double::Dyadic {
    double::at_most(double::product(fraction, double::of_int(100)), double::of_int(100))
}

/// A share in percent with one decimal, without it where it is zero.
pub open spec fn percent_text(fraction: double::Dyadic) -> Seq<char> {
    tenths_text(double::printed(percent(fraction), 10)) + "%"@
}

/// A share in whole percent.
pub open spec fn whole_percent_text(fraction: double::Dyadic) -> Seq<char> {
    strings::digits(double::printed(percent(fraction), 1)) + "%"@
}

/// The share that `part` is of `whole`; nothing has no parts.
pub open spec fn share(part: nat, whole: nat) -> double::Dyadic {
    if whole == 0 {
        (0, 0)
    } else {
        double::quotient(double::of_int(part), double::of_int(whole))
    }
}

fn name_of(unit: Unit, step: usize) -> (name: &'static str)
    ensures
        name@ == unit_name(unit, step as nat),
{
    match unit {
        Unit::Decimal => match step {
            0 => "B",
            1 => "KB",
            2 => "MB",
            3 => "GB",
            4 => "TB",
            5 => "PB",
            _ => "EB",
        },
        Unit::Binary => match step {
            0 => "B",
            1 => "KiB",
            2 => "MiB",
            3 => "GiB",
            4 => "TiB",
            5 => "PiB",
            _ => "EiB",
        },
    }
}

fn in_tenths(tenths: u64) -> (text: String)
    ensures
        text@ == tenths_text(tenths as nat),
{
    let mut text = strings::decimal(tenths / 10);
    if tenths % 10 != 0 {
        text.append(".");
        strings::push_decimal(&mut text, tenths % 10);
    }
    text
}

/// `4096` -> `"4.1 KB"`, `433791631360` -> `"434 GB"`.
///
/// Values below 10 keep one decimal, larger ones are rounded to a whole number: at 100 GB the
/// tenths digit is noise, and ragged decimals make a column of sizes harder to compare at a
/// glance.
pub fn format(bytes: u64, unit: Unit) -> (text: String)
    ensures
        text@ == formatted(bytes as nat, unit),
{
    let base: u64 = match unit {
        Unit::Decimal => 1000,
        Unit::Binary => 1024,
    };
    if bytes < base {
        let mut text = strings::decimal(bytes);
        text.append(" B");
        return text;
    }
    let divisor = Double::from_u64(base);
    let mut value = Double::from_u64(bytes);
    let mut step: usize = 0;
    proof {
        double::some_doubles();
        double::of_int_exponent(bytes as nat);
    }
    while step < 6 && !value.is_less(&divisor)
        invariant
            step <= 6,
            base == base_of(unit),
            divisor@ == double::of_int(base as nat),
            divisor.within(121),
            divisor.mantissa > 0,
            divisor.exponent >= -43,
            value.mantissa > 0,
            double::is_double(value@),
            -1921 <= -300 * step - 121 <= value.exponent <= 12 - 7 * step,
            scaled(double::of_int(bytes as nat), base as nat, 0) == scaled(
                value@,
                base as nat,
                step as nat,
            ),
        decreases 6 - step,
    {
        proof {
            double::quotient_exponent(value@, divisor@);
        }
        value = value.divided_by(&divisor, Ghost(1921));
        step += 1;
    }
    proof {
        double::some_doubles();
    }
    let mut text = if value.is_less(&Double::from_u64(10)) {
        in_tenths(value.print(10))
    } else {
        strings::decimal(value.print(1))
    };
    text.append(" ");
    text.append(name_of(unit, step));
    text
}

/// Same as [`format`], right-aligned into `width` so a column lines up.
pub fn format_padded(bytes: u64, unit: Unit, width: usize) -> (text: String)
    ensures
        text@ == strings::right_aligned(formatted(bytes as nat, unit), width as int),
{
    strings::align_right(format(bytes, unit).as_str(), width)
}

fn to_percent(fraction: Double) -> (out: Double)
    requires
        fraction.valid(),
    ensures
        out@ == percent(fraction@),
        double::is_double(out@),
        out.exponent < 0 || out.mantissa == 0,
{
    let hundred = Double::from_u64(100);
    let scaled = fraction.times(&hundred, Ghost(2000));
    proof {
        double::some_doubles();
    }
    scaled.capped(hundred)
}

/// `0.187` -> `"18.7%"`, `0.82` -> `"82%"`. Used for the per-row share of the current directory,
/// where a tenth of a percent still distinguishes two rows.
pub fn format_percent(fraction: Double) -> (text: String)
    requires
        fraction.valid(),
    ensures
        text@ == percent_text(fraction@),
{
    let mut text = in_tenths(to_percent(fraction).print(10));
    text.append("%");
    text
}

/// `0.817` -> `"82%"`. Used for the capacity header, where the extra digit only adds noise.
pub fn format_percent_whole(fraction: Double) -> (text: String)
    requires
        fraction.valid(),
    ensures
        text@ == whole_percent_text(fraction@),
{
    let mut text = strings::decimal(to_percent(fraction).print(1));
    text.append("%");
    text
}

/// Guards against the 0/0 that an empty directory would otherwise produce.
pub fn fraction(part: u64, whole: u64) -> (out: Double)
    ensures
        out@ == share(part as nat, whole as nat),
        out.valid(),
        out.mantissa == 0 <==> part == 0 || whole == 0,
{
    if whole == 0 {
        return Double::zero();
    }
    proof {
        double::nearest_is_normal(whole as nat, 1, double::DOUBLE as nat);
        double::nearest_is_normal(part as nat, 1, double::DOUBLE as nat);
    }
    let top = Double::from_u64(part);
    let bottom = Double::from_u64(whole);
    proof {
        double::nearest_is_normal(top.mantissa as nat, bottom.mantissa as nat, double::DOUBLE as nat);
    }
    top.divided_by(&bottom, Ghost(121))
}

} // verus!
