//! Parsing `--since 7d` and saying when things happened in words.

use vstd::prelude::*;
use crate::decimal;
use crate::strings;
use crate::tree;

verus! {

pub const MINUTE: u64 = 60;

pub const HOUR: u64 = 3_600;

pub const DAY: u64 = 86_400;

pub const WEEK: u64 = 604_800;

/// The average Gregorian month, which is the honest unit for "4 months ago".
pub const MONTH: u64 = 2_629_746;

pub const YEAR: u64 = 31_556_952;

/// Why a duration could not be read.
#[derive(Debug)]
pub enum DurationError {
    Empty,
    /// What was given does not start with a number.
    NoNumber(String),
    /// The unit is not one that is known.
    UnknownUnit(String),
}

impl DurationError {
    /// The reason in words.
    pub fn describe(&self) -> (text: String)
        ensures
            text@ == complaint(*self),
    {
        match self {
            DurationError::Empty => String::from_str("empty duration"),
            DurationError::NoNumber(given) => {
                let mut text = strings::quoted(given.as_str());
                text.append(" does not start with a number");
                text
            },
            DurationError::UnknownUnit(unit) => {
                let mut text = String::from_str("unknown time unit ");
                text.append(strings::quoted(unit.as_str()).as_str());
                text.append(" — try 30m, 12h, 7d, 2w, 3mo");
                text
            },
        }
    }
}

/// What is said of a duration that could not be read.
pub open spec fn complaint(error: DurationError) -> Seq<char> {
    match error {
        DurationError::Empty => "empty duration"@,
        DurationError::NoNumber(given) => strings::debugged(given@)
            + " does not start with a number"@,
        DurationError::UnknownUnit(unit) => "unknown time unit "@ + strings::debugged(unit@)
            + " — try 30m, 12h, 7d, 2w, 3mo"@,
    }
}

/// Whether a character can be part of a number.
pub open spec fn in_number(letter: char) -> bool {
    '0' <= letter <= '9' || letter == '.'
}

/// Where the number that a text starts with ends.
pub open spec fn number_end(text: Seq<char>, from: nat) -> nat
    decreases text.len() - from,
{
    if from >= text.len() || !in_number(text[from as int]) {
        from
    } else {
        number_end(text, from + 1)
    }
}

/// The digits of a number, without its decimal point.
pub open spec fn digits_of(text: Seq<char>) -> Seq<u8>
    decreases text.len(),
{
    if text.len() == 0 {
        Seq::empty()
    } else if text.last() == '.' {
        digits_of(text.drop_last())
    } else {
        digits_of(text.drop_last()).push((text.last() as u32 - '0' as u32) as u8)
    }
}

/// How many decimal points a number holds.
pub open spec fn points_in(text: Seq<char>) -> nat
    decreases text.len(),
{
    if text.len() == 0 {
        0
    } else if text.last() == '.' {
        points_in(text.drop_last()) + 1
    } else {
        points_in(text.drop_last())
    }
}

/// How many digits follow the last decimal point, where there is one.
pub open spec fn places_in(text: Seq<char>) -> nat
    decreases text.len(),
{
    if points_in(text) == 0 || text.last() == '.' {
        0
    } else {
        places_in(text.drop_last()) + 1
    }
}

/// How many seconds a unit is. A bare number is days: `--since 7` means the obvious thing.
pub open spec fn unit_seconds(unit: Seq<char>) -> Option<u64> {
    if strings::is_one_of(unit, seq!["", "d", "day", "days"]) {
        Some(DAY)
    } else if strings::is_one_of(unit, seq!["s", "sec", "secs", "second", "seconds"]) {
        Some(1u64)
    } else if strings::is_one_of(unit, seq!["m", "min", "mins", "minute", "minutes"]) {
        Some(MINUTE)
    } else if strings::is_one_of(unit, seq!["h", "hr", "hrs", "hour", "hours"]) {
        Some(HOUR)
    } else if strings::is_one_of(unit, seq!["w", "week", "weeks"]) {
        Some(WEEK)
    } else if strings::is_one_of(unit, seq!["mo", "month", "months"]) {
        Some(MONTH)
    } else if strings::is_one_of(unit, seq!["y", "yr", "year", "years"]) {
        Some(YEAR)
    } else {
        None
    }
}

/// What a duration comes to.
pub enum Reading {
    Seconds(nat),
    Empty,
    NoNumber(Seq<char>),
    UnknownUnit(Seq<char>),
}

/// What a duration in lower case comes to: a number, one decimal point at most, and a unit. The
/// number is read as a double and multiplied as one.
pub open spec fn understood(given: Seq<char>) -> Reading {
    let end = number_end(given, 0) as int;
    let number = given.take(end);
    let unit = strings::trimmed(given.skip(end));
    if given.len() == 0 {
        Reading::Empty
    } else if digits_of(number).len() == 0 || points_in(number) > 1 {
        Reading::NoNumber(given)
    } else {
        match unit_seconds(unit) {
            None => Reading::UnknownUnit(unit),
            Some(scale) => Reading::Seconds(
                decimal::scaled(
                    decimal::number(digits_of(number)),
                    decimal::ten_to(places_in(number)),
                    scale as nat,
                ),
            ),
        }
    }
}

/// Whether a result is what a duration comes to.
pub open spec fn says(result: Result<u64, DurationError>, reading: Reading) -> bool {
    match result {
        Ok(seconds) => reading == Reading::Seconds(seconds as nat),
        Err(DurationError::Empty) => reading is Empty,
        Err(DurationError::NoNumber(given)) => reading == Reading::NoNumber(given@),
        Err(DurationError::UnknownUnit(unit)) => reading == Reading::UnknownUnit(unit@),
    }
}

/// `"7d"` is a week of seconds. Accepts `s`, `m`, `h`, `d`, `w`, `mo`, `y`, and a bare number
/// meaning days.
pub fn parse_duration(spec_text: &str) -> (result: Result<u64, DurationError>)
    ensures
        says(result, understood(strings::lowercase(strings::trimmed(spec_text@)))),
{
    let given = strings::to_lowercase(strings::trim(spec_text).as_str());
    read_duration(given.as_str())
}

/// Read a duration that is in lower case, with nothing blank around it.
pub fn read_duration(given: &str) -> (result: Result<u64, DurationError>)
    ensures
        says(result, understood(given@)),
{
    let letters = strings::letters(given);
    if letters.len() == 0 {
        return Err(DurationError::Empty);
    }
    let mut end: usize = 0;
    let mut digits: Vec<u8> = Vec::new();
    let mut points: usize = 0;
    let mut places: usize = 0;
    assert(letters@.take(0) =~= Seq::empty());
    while end < letters.len() && (('0' <= letters[end] && letters[end] <= '9') || letters[end]
        == '.')
        invariant
            letters@ == given@,
            end <= letters@.len(),
            number_end(given@, 0) == number_end(given@, end as nat),
            digits@ == digits_of(given@.take(end as int)),
            points == points_in(given@.take(end as int)),
            places == places_in(given@.take(end as int)),
            points <= end,
            places <= digits@.len() <= end,
            decimal::proper(digits@),
        decreases letters@.len() - end,
    {
        let ghost upto = given@.take(end as int + 1);
        assert(upto.drop_last() =~= given@.take(end as int));
        let letter = letters[end];
        assert(upto.last() == letter);
        if letter == '.' {
            points += 1;
            places = 0;
        } else {
            if points > 0 {
                places += 1;
            }
            digits.push((letter as u32 - '0' as u32) as u8);
        }
        end += 1;
    }
    if digits.len() == 0 || points > 1 {
        return Err(DurationError::NoNumber(String::from_str(given)));
    }
    let rest = strings::spell(&letters, end, letters.len());
    assert(rest@ =~= given@.skip(end as int));
    let unit = strings::trim(rest.as_str());
    match scale_of(unit.as_str()) {
        None => Err(DurationError::UnknownUnit(unit)),
        Some(scale) => Ok(decimal::scale_fraction(&digits, places, scale)),
    }
}

fn scale_of(unit: &str) -> (scale: Option<u64>)
    ensures
        scale == unit_seconds(unit@),
        scale matches Some(scale) ==> 1 <= scale <= YEAR,
{
    let days: [&'static str; 4] = ["", "d", "day", "days"];
    let seconds: [&'static str; 5] = ["s", "sec", "secs", "second", "seconds"];
    let minutes: [&'static str; 5] = ["m", "min", "mins", "minute", "minutes"];
    let hours: [&'static str; 5] = ["h", "hr", "hrs", "hour", "hours"];
    let weeks: [&'static str; 3] = ["w", "week", "weeks"];
    let months: [&'static str; 3] = ["mo", "month", "months"];
    let years: [&'static str; 4] = ["y", "yr", "year", "years"];
    assert(days@ =~= seq!["", "d", "day", "days"]);
    assert(seconds@ =~= seq!["s", "sec", "secs", "second", "seconds"]);
    assert(minutes@ =~= seq!["m", "min", "mins", "minute", "minutes"]);
    assert(hours@ =~= seq!["h", "hr", "hrs", "hour", "hours"]);
    assert(weeks@ =~= seq!["w", "week", "weeks"]);
    assert(months@ =~= seq!["mo", "month", "months"]);
    assert(years@ =~= seq!["y", "yr", "year", "years"]);
    if strings::one_of(unit, &days) {
        Some(DAY)
    } else if strings::one_of(unit, &seconds) {
        Some(1)
    } else if strings::one_of(unit, &minutes) {
        Some(MINUTE)
    } else if strings::one_of(unit, &hours) {
        Some(HOUR)
    } else if strings::one_of(unit, &weeks) {
        Some(WEEK)
    } else if strings::one_of(unit, &months) {
        Some(MONTH)
    } else if strings::one_of(unit, &years) {
        Some(YEAR)
    } else {
        None
    }
}

/// The largest unit that a duration is best counted in, in seconds, with its name.
pub open spec fn best_unit(seconds: u64) -> (u64, Seq<char>) {
    if seconds < HOUR {
        (MINUTE, "minute"@)
    } else if seconds < DAY {
        (HOUR, "hour"@)
    } else if seconds < 2 * WEEK {
        (DAY, "day"@)
    } else if seconds < 2 * MONTH {
        (WEEK, "week"@)
    } else if seconds < 2 * YEAR {
        (MONTH, "month"@)
    } else {
        (YEAR, "year"@)
    }
}

/// A duration in words.
pub open spec fn humanized(seconds: u64) -> Seq<char> {
    if seconds < MINUTE {
        strings::digits(seconds as nat) + " seconds"@
    } else {
        let (size, name) = best_unit(seconds);
        if seconds / size == 1 {
            "1 "@ + name
        } else {
            strings::digits((seconds / size) as nat) + " "@ + name + "s"@
        }
    }
}

/// `604800` is `"7 days"`. Rounded to whatever unit reads best.
pub fn humanize(seconds: u64) -> (text: String)
    ensures
        text@ == humanized(seconds),
{
    if seconds < MINUTE {
        let mut text = strings::decimal(seconds);
        text.append(" seconds");
        return text;
    }
    let (value, name): (u64, &'static str) = if seconds < HOUR {
        (seconds / MINUTE, "minute")
    } else if seconds < DAY {
        (seconds / HOUR, "hour")
    } else if seconds < 2 * WEEK {
        (seconds / DAY, "day")
    } else if seconds < 2 * MONTH {
        (seconds / WEEK, "week")
    } else if seconds < 2 * YEAR {
        (seconds / MONTH, "month")
    } else {
        (seconds / YEAR, "year")
    };
    if value == 1 {
        let mut text = String::from_str("1 ");
        text.append(name);
        text
    } else {
        let mut text = strings::decimal(value);
        text.append(" ");
        text.append(name);
        text.append("s");
        text
    }
}

/// How long ago something was, in words.
pub open spec fn since(seconds: u64) -> Seq<char> {
    if seconds < MINUTE {
        "just now"@
    } else {
        humanized(seconds) + " ago"@
    }
}

/// `"3 days ago"`, or `"just now"` for anything within the minute.
pub fn ago(seconds: u64) -> (text: String)
    ensures
        text@ == since(seconds),
{
    if seconds < MINUTE {
        return String::from_str("just now");
    }
    let mut text = humanize(seconds);
    text.append(" ago");
    text
}

/// A time of day on a date, on the clock and the calendar of some place.
#[derive(Copy, Clone, Debug, PartialEq, Eq, Structural)]
pub struct LocalTime {
    pub year: i16,
    pub month: i8,
    pub day: i8,
    pub hour: i8,
    pub minute: i8,
}

/// How many days a month of the Gregorian calendar has.
pub open spec fn days_in(year: int, month: int) -> int {
    if month == 2 {
        if year % 4 == 0 && (year % 100 != 0 || year % 400 == 0) {
            29
        } else {
            28
        }
    } else if month == 4 || month == 6 || month == 9 || month == 11 {
        30
    } else {
        31
    }
}

impl LocalTime {
    /// Whether there is such a day, with such a time.
    pub open spec fn valid(&self) -> bool {
        &&& 0 <= self.year <= 9999
        &&& 1 <= self.month <= 12
        &&& 1 <= self.day <= days_in(self.year as int, self.month as int)
        &&& 0 <= self.hour <= 23
        &&& 0 <= self.minute <= 59
    }
}

/// How many days of a year lie before a month.
pub open spec fn days_before(year: int, month: int) -> int
    decreases month,
{
    if month <= 1 {
        0
    } else {
        days_before(year, month - 1) + days_in(year, month - 1)
    }
}

/// How many days a date lies after the first of January 1970. Of the years from the first to the
/// one before that, 477 were leap years.
pub open spec fn epoch_day(time: LocalTime) -> int {
    let past = time.year - 1;
    365 * (time.year - 1970) + (past / 4 - past / 100 + past / 400 - 477) + days_before(
        time.year as int,
        time.month as int,
    ) + (time.day - 1)
}

/// How many minutes a time on a date lies after the start of 1970.
pub open spec fn epoch_minute(time: LocalTime) -> int {
    (24 * epoch_day(time) + time.hour) * 60 + time.minute
}

/// The furthest that a clock can be from that of Greenwich, in seconds.
pub const MOST_OFFSET: i64 = 93_599;

/// Whether some place can have a time at a second since the Unix epoch: the minute it is there is
/// the one that the second falls in, seen from a clock that is no further off than clocks are.
pub open spec fn is_time_at(time: LocalTime, unix_seconds: int) -> bool {
    &&& time.valid()
    &&& unix_seconds - MOST_OFFSET - 60 < 60 * epoch_minute(time) <= unix_seconds + MOST_OFFSET
}

/// The last second that has a local time everywhere.
pub const LAST_SECOND: i64 = 253_402_207_200;

/// `jiff::Timestamp::from_second` and `to_zoned` with `jiff::tz::TimeZone::system`: the date and
/// the time of day at a second since the Unix epoch, where the machine is. There is none after
/// the last second that jiff counts. How far the machine's clock is from that of Greenwich depends
/// on its time zone, and is left open, but jiff knows no offset of 26 hours or more.
#[verifier::external_body]
pub(crate) fn local(unix_seconds: i64) -> (time: Option<LocalTime>)
    requires
        unix_seconds >= 0,
    ensures
        time is Some <==> unix_seconds <= LAST_SECOND,
        time matches Some(time) ==> is_time_at(time, unix_seconds as int),
{
    let timestamp = jiff::Timestamp::from_second(unix_seconds).ok()?;
    let zoned = timestamp.to_zoned(jiff::tz::TimeZone::system());
    Some(
        LocalTime {
            year: zoned.year(),
            month: zoned.month(),
            day: zoned.day(),
            hour: zoned.hour(),
            minute: zoned.minute(),
        },
    )
}

/// Two digits.
pub open spec fn two_digits(value: int) -> Seq<char> {
    seq![strings::digit((value / 10) as nat), strings::digit((value % 10) as nat)]
}

/// A time of day on a 24-hour clock.
pub open spec fn clock(time: LocalTime) -> Seq<char> {
    two_digits(time.hour as int) + ":"@ + two_digits(time.minute as int)
}

/// The day of the week. The first of January 1970 was a Thursday.
pub open spec fn weekday(time: LocalTime) -> Seq<char> {
    let day = (epoch_day(time) + 4) % 7;
    if day == 0 {
        "Sunday"@
    } else if day == 1 {
        "Monday"@
    } else if day == 2 {
        "Tuesday"@
    } else if day == 3 {
        "Wednesday"@
    } else if day == 4 {
        "Thursday"@
    } else if day == 5 {
        "Friday"@
    } else {
        "Saturday"@
    }
}

/// The month in three letters.
pub open spec fn month_name(month: int) -> Seq<char> {
    if month == 1 {
        "Jan"@
    } else if month == 2 {
        "Feb"@
    } else if month == 3 {
        "Mar"@
    } else if month == 4 {
        "Apr"@
    } else if month == 5 {
        "May"@
    } else if month == 6 {
        "Jun"@
    } else if month == 7 {
        "Jul"@
    } else if month == 8 {
        "Aug"@
    } else if month == 9 {
        "Sep"@
    } else if month == 10 {
        "Oct"@
    } else if month == 11 {
        "Nov"@
    } else {
        "Dec"@
    }
}

/// The day of the month, and the month.
pub open spec fn day_and_month(time: LocalTime) -> Seq<char> {
    strings::digits(time.day as nat) + " "@ + month_name(time.month as int)
}

/// The day of the month, the month, and the year in four digits.
pub open spec fn full_date(time: LocalTime) -> Seq<char> {
    day_and_month(time) + " "@ + two_digits(time.year as int / 100) + two_digits(
        time.year as int % 100,
    )
}

/// Whether a format is one that is written here.
pub open spec fn known_format(format: Seq<char>) -> bool {
    ||| format == "today, %H:%M"@
    ||| format == "yesterday, %H:%M"@
    ||| format == "%A, %H:%M"@
    ||| format == "%-d %b, %H:%M"@
    ||| format == "%-d %b %Y"@
}

/// `jiff::civil::DateTime::strftime`: the time written after the format. `%H:%M` is the time of day
/// in two digits each, `%A` the weekday in full, `%-d` the day of the month with nothing before it,
/// `%b` the month in three letters and `%Y` the year in four digits; all else is written as it is.
#[verifier::external_body]
fn write_time(time: LocalTime, format: &'static str) -> (text: String)
    requires
        time.valid(),
        known_format(format@),
    ensures
        format@ == "today, %H:%M"@ ==> text@ == "today, "@ + clock(time),
        format@ == "yesterday, %H:%M"@ ==> text@ == "yesterday, "@ + clock(time),
        format@ == "%A, %H:%M"@ ==> text@ == weekday(time) + ", "@ + clock(time),
        format@ == "%-d %b, %H:%M"@ ==> text@ == day_and_month(time) + ", "@ + clock(time),
        format@ == "%-d %b %Y"@ ==> text@ == full_date(time),
{
    jiff::civil::datetime(time.year, time.month, time.day, time.hour, time.minute, 0, 0)
        .strftime(format)
        .to_string()
}

/// A moment in words, by how long ago it was. Within the last week that names the day, the form
/// people actually use when reconstructing what they were doing. Older than that needs a date.
pub open spec fn moment_text(time: Option<LocalTime>, elapsed: u64) -> Seq<char> {
    match time {
        None => "unknown"@,
        Some(time) => if elapsed < DAY {
            "today, "@ + clock(time)
        } else if elapsed < 2 * DAY {
            "yesterday, "@ + clock(time)
        } else if elapsed < WEEK {
            weekday(time) + ", "@ + clock(time)
        } else if elapsed < YEAR {
            day_and_month(time) + ", "@ + clock(time)
        } else {
            full_date(time)
        },
    }
}

/// When something happened, given its local time and how long ago it was.
pub fn moment_at(time: Option<LocalTime>, elapsed: u64) -> (text: String)
    requires
        time matches Some(time) ==> time.valid(),
    ensures
        text@ == moment_text(time, elapsed),
{
    match time {
        None => String::from_str("unknown"),
        Some(time) => write_time(
            time,
            if elapsed < DAY {
                "today, %H:%M"
            } else if elapsed < 2 * DAY {
                "yesterday, %H:%M"
            } else if elapsed < WEEK {
                "%A, %H:%M"
            } else if elapsed < YEAR {
                "%-d %b, %H:%M"
            } else {
                "%-d %b %Y"
            },
        ),
    }
}

/// A second since the epoch as a signed number.
fn signed(unix_seconds: u64) -> (out: i64)
    ensures
        out == if unix_seconds > i64::MAX {
            i64::MAX as int
        } else {
            unix_seconds as int
        },
{
    if unix_seconds > i64::MAX as u64 {
        i64::MAX
    } else {
        unix_seconds as i64
    }
}

/// Whether a local time is one that some place has at a second, or there is none because the second
/// is beyond the last.
pub open spec fn local_at(time: Option<LocalTime>, unix_seconds: u64) -> bool {
    &&& time is Some <==> unix_seconds <= LAST_SECOND
    &&& time matches Some(time) ==> is_time_at(time, unix_seconds as int)
}

/// Whether a text tells when something happened, on the clock of some place.
pub open spec fn tells_moment(text: Seq<char>, unix_seconds: u64, now: u64) -> bool {
    exists|time: Option<LocalTime>| #[trigger]
        local_at(time, unix_seconds) && text == moment_text(
            time,
            tree::less_by(now, unix_seconds),
        )
}

/// When something happened, in local time. How far the local clock is off is up to the machine's
/// time zone.
pub fn moment(unix_seconds: u64, now: u64) -> (text: String)
    ensures
        tells_moment(text@, unix_seconds, now),
{
    let time = local(signed(unix_seconds));
    let elapsed: u64 = now.saturating_sub(unix_seconds);
    assert(elapsed == tree::less_by(now, unix_seconds));
    assert(local_at(time, unix_seconds));
    moment_at(time, elapsed)
}

/// A calendar date, where there is one.
pub open spec fn date_text(time: Option<LocalTime>) -> Seq<char> {
    match time {
        None => "unknown"@,
        Some(time) => full_date(time),
    }
}

/// A calendar date, given the local time.
pub fn date_at(time: Option<LocalTime>) -> (text: String)
    requires
        time matches Some(time) ==> time.valid(),
    ensures
        text@ == date_text(time),
{
    match time {
        None => String::from_str("unknown"),
        Some(time) => write_time(time, "%-d %b %Y"),
    }
}

/// A calendar date with no time of day, for "last used" columns: the date that it is at that second
/// in some place, the machine's.
pub fn date(unix_seconds: u64) -> (text: String)
    ensures
        exists|time: Option<LocalTime>| #[trigger]
            local_at(time, unix_seconds) && text@ == date_text(time),
{
    let time = local(signed(unix_seconds));
    assert(local_at(time, unix_seconds));
    date_at(time)
}

/// The day after a day of the calendar.
pub open spec fn next_day(time: LocalTime) -> LocalTime {
    if time.day < days_in(time.year as int, time.month as int) {
        LocalTime { day: (time.day + 1) as i8, ..time }
    } else if time.month < 12 {
        LocalTime { month: (time.month + 1) as i8, day: 1, ..time }
    } else {
        LocalTime { year: (time.year + 1) as i16, month: 1, day: 1, ..time }
    }
}

/// Days are counted as the calendar has them, from the first of January 1970 on: each is one more
/// than the one before it, over the ends of months and of years, leap years or not.
pub proof fn days_follow_each_other(time: LocalTime)
    requires
        time.valid(),
    ensures
        epoch_day(next_day(time)) == epoch_day(time) + 1,
        epoch_minute(next_day(time)) == epoch_minute(time) + 24 * 60,
        time.year == 1970 && time.month == 1 && time.day == 1 ==> epoch_day(time) == 0,
{
    reveal_with_fuel(days_before, 13);
    let year = time.year as int;
    assert(days_before(year, 13) == if days_in(year, 2) == 29 {
        366int
    } else {
        365
    });
    assert(time.month == 12 ==> days_before(year, 12) + 31 == days_before(year, 13));
}

/// A longer duration is never said to be a smaller number of the same unit: the count of whole
/// units never falls.
pub proof fn longer_is_not_fewer(shorter: u64, longer: u64)
    requires
        MINUTE <= shorter <= longer,
        best_unit(shorter) == best_unit(longer),
    ensures
        shorter / best_unit(shorter).0 <= longer / best_unit(longer).0,
        1 <= shorter / best_unit(shorter).0,
{
    let size = best_unit(shorter).0 as int;
    vstd::arithmetic::div_mod::lemma_div_is_ordered(shorter as int, longer as int, size);
}

} // verus!
