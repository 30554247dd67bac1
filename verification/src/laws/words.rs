//! How sizes, shares and times are put into words.

use vstd::prelude::*;
use crate::double;
use crate::size;
use crate::size::Unit;
use crate::strings;
use crate::timefmt;
use crate::timefmt::LocalTime;
use crate::tree;

verus! {

/// A number is written with its digits: one where it is below ten, and otherwise those of a tenth of
/// it and the last one after them.
pub proof fn numbers_are_written_in_decimal(value: nat)
    ensures
        value < 10 ==> strings::digits(value) == seq![(48 + value) as char],
        strings::digits(value).len() > 0,
        value >= 10 ==> strings::digits(value) == strings::digits(value / 10).push(
            (48 + value % 10) as char,
        ),
    decreases value,
{
    if value >= 10 {
        numbers_are_written_in_decimal(value / 10);
    }
}

/// A thousand of a unit is one of the next, or 1024 in binary units, and the units go by the names
/// that they have everywhere.
pub proof fn units_have_their_names()
    ensures
        size::base_of(Unit::Decimal) == 1000,
        size::base_of(Unit::Binary) == 1024,
        size::unit_name(Unit::Decimal, 0) == "B"@,
        size::unit_name(Unit::Decimal, 1) == "KB"@,
        size::unit_name(Unit::Decimal, 2) == "MB"@,
        size::unit_name(Unit::Decimal, 3) == "GB"@,
        size::unit_name(Unit::Decimal, 4) == "TB"@,
        size::unit_name(Unit::Decimal, 5) == "PB"@,
        size::unit_name(Unit::Decimal, 6) == "EB"@,
        size::unit_name(Unit::Binary, 0) == "B"@,
        size::unit_name(Unit::Binary, 1) == "KiB"@,
        size::unit_name(Unit::Binary, 2) == "MiB"@,
        size::unit_name(Unit::Binary, 3) == "GiB"@,
        size::unit_name(Unit::Binary, 4) == "TiB"@,
        size::unit_name(Unit::Binary, 5) == "PiB"@,
        size::unit_name(Unit::Binary, 6) == "EiB"@,
{
}

/// A size below one thousand, or 1024, is written in bytes as it is. A larger one is divided by that
/// as long as it is not below it and there is a unit left, once for each unit that it is written
/// in; below ten there is one digit after the point, where it is not a zero, and from ten on none.
pub proof fn sizes_are_scaled_to_their_unit(bytes: nat, unit: Unit)
    ensures
        ({
            let base: nat = match unit {
                Unit::Decimal => 1000,
                Unit::Binary => 1024,
            };
            let (value, step) = size::scaled(double::of_int(bytes), base, 0);
            let small = double::less(value, double::of_int(10));
            let tenths = double::printed(value, 10);
            &&& bytes < base ==> size::formatted(bytes, unit) == strings::digits(bytes) + " B"@
            &&& step <= 6
            &&& step == 6 || double::less(value, double::of_int(base))
            &&& bytes >= base && !small ==> size::formatted(bytes, unit) == strings::digits(
                double::printed(value, 1),
            ) + " "@ + size::unit_name(unit, step)
            &&& bytes >= base && small && tenths % 10 == 0 ==> size::formatted(bytes, unit)
                == strings::digits(tenths / 10) + " "@ + size::unit_name(unit, step)
            &&& bytes >= base && small && tenths % 10 != 0 ==> size::formatted(bytes, unit)
                == strings::digits(tenths / 10) + "."@ + strings::digits(tenths % 10) + " "@
                + size::unit_name(unit, step)
        }),
{
    let base = size::base_of(unit);
    scaling_stops(double::of_int(bytes), base, 0);
}

proof fn scaling_stops(value: double::Dyadic, base: nat, step: nat)
    requires
        step <= 6,
    ensures
        step <= size::scaled(value, base, step).1 <= 6,
        size::scaled(value, base, step).1 == 6 || double::less(
            size::scaled(value, base, step).0,
            double::of_int(base),
        ),
    decreases 6 - step,
{
    if step < 6 && !double::less(value, double::of_int(base)) {
        scaling_stops(double::quotient(value, double::of_int(base)), base, step + 1);
    }
}

/// A share of nothing is nothing, and any other is the quotient of the two.
pub proof fn shares_are_quotients(part: nat, whole: nat)
    ensures
        whole == 0 ==> size::share(part, whole) == (0nat, 0int),
        whole > 0 ==> size::share(part, whole) == double::quotient(
            double::of_int(part),
            double::of_int(whole),
        ),
{
}

/// A time is told in the largest unit of which there are some: seconds up to a minute, minutes up to
/// an hour, hours up to a day, days up to two weeks, weeks up to two months, months up to two years,
/// and then years. One of a unit is told in the singular.
pub proof fn times_are_told_in_a_unit_that_fits(seconds: u64)
    ensures
        ({
            let (length, name) = if seconds < 3_600 {
                (60u64, "minute"@)
            } else if seconds < 86_400 {
                (3_600u64, "hour"@)
            } else if seconds < 1_209_600 {
                (86_400u64, "day"@)
            } else if seconds < 5_259_492 {
                (604_800u64, "week"@)
            } else if seconds < 63_113_904 {
                (2_629_746u64, "month"@)
            } else {
                (31_556_952u64, "year"@)
            };
            timefmt::humanized(seconds) == if seconds < 60 {
                strings::digits(seconds as nat) + " seconds"@
            } else if seconds / length == 1 {
                "1 "@ + name
            } else {
                strings::digits((seconds / length) as nat) + " "@ + name + "s"@
            }
        }),
        timefmt::since(seconds) == if seconds < 60 {
            "just now"@
        } else {
            timefmt::humanized(seconds) + " ago"@
        },
{
}

/// A moment is told by the clock on the day, and the less exactly the longer it is ago: today,
/// yesterday, by the weekday within a week, by day and month within a year, and then by the year.
pub proof fn moments_are_told_by_distance(time: LocalTime, elapsed: u64)
    ensures
        timefmt::moment_text(Some(time), elapsed) == if elapsed < 86_400 {
            "today, "@ + timefmt::clock(time)
        } else if elapsed < 172_800 {
            "yesterday, "@ + timefmt::clock(time)
        } else if elapsed < 604_800 {
            timefmt::weekday(time) + ", "@ + timefmt::clock(time)
        } else if elapsed < 31_556_952 {
            timefmt::day_and_month(time) + ", "@ + timefmt::clock(time)
        } else {
            timefmt::full_date(time)
        },
        timefmt::moment_text(None, elapsed) == "unknown"@,
        timefmt::date_text(None) == "unknown"@,
        timefmt::date_text(Some(time)) == timefmt::full_date(time),
{
}

/// The names of the months.
pub proof fn months_have_their_names()
    ensures
        timefmt::month_name(1) == "Jan"@,
        timefmt::month_name(2) == "Feb"@,
        timefmt::month_name(3) == "Mar"@,
        timefmt::month_name(4) == "Apr"@,
        timefmt::month_name(5) == "May"@,
        timefmt::month_name(6) == "Jun"@,
        timefmt::month_name(7) == "Jul"@,
        timefmt::month_name(8) == "Aug"@,
        timefmt::month_name(9) == "Sep"@,
        timefmt::month_name(10) == "Oct"@,
        timefmt::month_name(11) == "Nov"@,
        timefmt::month_name(12) == "Dec"@,
{
}

/// The weekdays follow each other, and the day of the epoch was a Thursday.
pub proof fn weekdays_follow_each_other(time: LocalTime)
    ensures
        timefmt::epoch_day(time) == 0 ==> timefmt::weekday(time) == "Thursday"@,
        timefmt::epoch_day(time) % 7 == 1 ==> timefmt::weekday(time) == "Friday"@,
        timefmt::epoch_day(time) % 7 == 2 ==> timefmt::weekday(time) == "Saturday"@,
        timefmt::epoch_day(time) % 7 == 3 ==> timefmt::weekday(time) == "Sunday"@,
        timefmt::epoch_day(time) % 7 == 4 ==> timefmt::weekday(time) == "Monday"@,
        timefmt::epoch_day(time) % 7 == 5 ==> timefmt::weekday(time) == "Tuesday"@,
        timefmt::epoch_day(time) % 7 == 6 ==> timefmt::weekday(time) == "Wednesday"@,
        timefmt::epoch_day(time) % 7 == 0 ==> timefmt::weekday(time) == "Thursday"@,
{
}

/// A unit of time goes by its letter, its short forms and its name in full, and a number without one
/// is a number of days.
pub proof fn time_units_go_by_their_names(unit: Seq<char>)
    ensures
        unit.len() == 0 || unit == "d"@ || unit == "day"@ || unit == "days"@
            ==> timefmt::unit_seconds(unit) == Some(86_400u64),
        unit == "w"@ || unit == "week"@ || unit == "weeks"@ ==> time_unit_is(unit, 604_800),
        unit == "s"@ || unit == "sec"@ || unit == "secs"@ || unit == "second"@ || unit
            == "seconds"@ ==> time_unit_is(unit, 1),
        unit == "m"@ || unit == "min"@ || unit == "mins"@ || unit == "minute"@ || unit
            == "minutes"@ ==> time_unit_is(unit, 60),
        unit == "h"@ || unit == "hr"@ || unit == "hrs"@ || unit == "hour"@ || unit == "hours"@
            ==> time_unit_is(unit, 3_600),
        unit == "mo"@ || unit == "month"@ || unit == "months"@ ==> time_unit_is(unit, 2_629_746),
        unit == "y"@ || unit == "yr"@ || unit == "year"@ || unit == "years"@ ==> time_unit_is(
            unit,
            31_556_952,
        ),
{
    reveal_strlit("");
    reveal_strlit("d");
    reveal_strlit("day");
    reveal_strlit("days");
    reveal_strlit("s");
    reveal_strlit("sec");
    reveal_strlit("secs");
    reveal_strlit("second");
    reveal_strlit("seconds");
    reveal_strlit("m");
    reveal_strlit("min");
    reveal_strlit("mins");
    reveal_strlit("minute");
    reveal_strlit("minutes");
    reveal_strlit("h");
    reveal_strlit("hr");
    reveal_strlit("hrs");
    reveal_strlit("hour");
    reveal_strlit("hours");
    reveal_strlit("w");
    reveal_strlit("week");
    reveal_strlit("weeks");
    reveal_strlit("mo");
    reveal_strlit("month");
    reveal_strlit("months");
    reveal_strlit("y");
    reveal_strlit("yr");
    reveal_strlit("year");
    reveal_strlit("years");
    if unit.len() == 0 {
        assert(unit =~= ""@);
    }
    let days = seq!["", "d", "day", "days"];
    let seconds = seq!["s", "sec", "secs", "second", "seconds"];
    let minutes = seq!["m", "min", "mins", "minute", "minutes"];
    let hours = seq!["h", "hr", "hrs", "hour", "hours"];
    let weeks = seq!["w", "week", "weeks"];
    let months = seq!["mo", "month", "months"];
    let years = seq!["y", "yr", "year", "years"];
    assert(days[0] == "" && days[1] == "d" && days[2] == "day" && days[3] == "days");
    assert(seconds[0] == "s" && seconds[1] == "sec" && seconds[2] == "secs" && seconds[3]
        == "second" && seconds[4] == "seconds");
    assert(minutes[0] == "m" && minutes[1] == "min" && minutes[2] == "mins" && minutes[3]
        == "minute" && minutes[4] == "minutes");
    assert(hours[0] == "h" && hours[1] == "hr" && hours[2] == "hrs" && hours[3] == "hour"
        && hours[4] == "hours");
    assert(weeks[0] == "w" && weeks[1] == "week" && weeks[2] == "weeks");
    assert(months[0] == "mo" && months[1] == "month" && months[2] == "months");
    assert(years[0] == "y" && years[1] == "yr" && years[2] == "year" && years[3] == "years");
    assert(forall|i: int|
        0 <= i < days.len() ==> (#[trigger] days[i])@.len() == 0 || days[i]@[0] == 'd');
    assert(forall|i: int| 0 <= i < seconds.len() ==> (#[trigger] seconds[i])@[0] == 's');
    assert(forall|i: int|
        0 <= i < minutes.len() ==> (#[trigger] minutes[i])@[0] == 'm' && (minutes[i]@.len() == 1
            || minutes[i]@[1] == 'i'));
    assert(forall|i: int| 0 <= i < hours.len() ==> (#[trigger] hours[i])@[0] == 'h');
    assert(forall|i: int| 0 <= i < weeks.len() ==> (#[trigger] weeks[i])@[0] == 'w');
    assert(forall|i: int| 0 <= i < months.len() ==> (#[trigger] months[i])@[0] == 'm');
    if unit.len() > 0 {
        assert(unit[0] != 'd' ==> !strings::is_one_of(unit, days));
        assert(unit[0] != 's' ==> !strings::is_one_of(unit, seconds));
        assert(unit[0] != 'm' || (unit.len() > 1 && unit[1] == 'o') ==> !strings::is_one_of(
            unit,
            minutes,
        ));
        assert(unit[0] != 'h' ==> !strings::is_one_of(unit, hours));
        assert(unit[0] != 'w' ==> !strings::is_one_of(unit, weeks));
        assert(unit[0] != 'm' ==> !strings::is_one_of(unit, months));
    }
}

/// Whether a unit of time is so many seconds.
pub open spec fn time_unit_is(unit: Seq<char>, seconds: u64) -> bool {
    timefmt::unit_seconds(unit) == Some(seconds)
}

/// How long something is ago is never negative.
pub proof fn nothing_is_ahead_of_now(now: u64, then: u64)
    ensures
        now < then ==> tree::less_by(now, then) == 0,
        now >= then ==> tree::less_by(now, then) == now - then,
{
}

/// A share is told in percent: a hundred times as much, a hundred at most, to a tenth or to a whole
/// one. A tenth that is nought is left out.
pub proof fn shares_are_told_in_percent(fraction: double::Dyadic)
    ensures
        ({
            let hundredfold = double::product(fraction, double::of_int(100));
            let capped = if double::less(double::of_int(100), hundredfold) {
                double::of_int(100)
            } else {
                hundredfold
            };
            let tenths = double::printed(capped, 10);
            &&& size::whole_percent_text(fraction) == strings::digits(double::printed(capped, 1))
                + "%"@
            &&& tenths % 10 == 0 ==> size::percent_text(fraction) == strings::digits(tenths / 10)
                + "%"@
            &&& tenths % 10 != 0 ==> size::percent_text(fraction) == strings::digits(tenths / 10)
                + "."@ + strings::digits(tenths % 10) + "%"@
        }),
{
}

} // verus!
