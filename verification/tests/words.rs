use disko::text::{fit, pad, shorten_path, truncate, width};
use disko::timefmt::{
    ago, date, date_at, humanize, moment, moment_at, parse_duration, read_duration, DurationError,
    LocalTime, DAY, HOUR, MINUTE, MONTH, WEEK, YEAR,
};

#[test]
fn durations_parse_with_or_without_a_unit() {
    assert_eq!(parse_duration("7d").unwrap(), 7 * DAY);
    assert_eq!(parse_duration("7").unwrap(), 7 * DAY);
    assert_eq!(parse_duration("24h").unwrap(), DAY);
    assert_eq!(parse_duration("30m").unwrap(), 30 * MINUTE);
    assert_eq!(parse_duration("2w").unwrap(), 2 * WEEK);
    assert_eq!(parse_duration("3mo").unwrap(), 3 * MONTH);
    assert_eq!(parse_duration("1y").unwrap(), YEAR);
}

#[test]
fn durations_accept_spelled_out_units_and_spacing() {
    assert_eq!(parse_duration(" 2 weeks ").unwrap(), 2 * WEEK);
    assert_eq!(parse_duration("1HOUR").unwrap(), HOUR);
    assert_eq!(parse_duration("0.5d").unwrap(), DAY / 2);
}

#[test]
fn nonsense_durations_explain_themselves() {
    let error = parse_duration("banana").unwrap_err().describe();
    assert!(error.contains("does not start with a number"), "{error}");

    let error = parse_duration("5 fortnights").unwrap_err().describe();
    assert!(error.contains("unknown time unit"), "{error}");

    assert!(parse_duration("").is_err());
}

#[test]
fn each_way_a_duration_can_fail_has_a_name() {
    assert!(matches!(parse_duration("  "), Err(DurationError::Empty)));
    assert!(matches!(parse_duration("d7"), Err(DurationError::NoNumber(_))));
    assert!(matches!(
        parse_duration("7 parsecs"),
        Err(DurationError::UnknownUnit(_))
    ));
    // Already trimmed and in lower case.
    assert_eq!(read_duration("90s").unwrap(), 90);
    assert!(read_duration("90S").is_err());
}

#[test]
fn humanized_durations_pick_a_readable_unit() {
    assert_eq!(humanize(30), "30 seconds");
    assert_eq!(humanize(90), "1 minute");
    assert_eq!(humanize(3 * HOUR), "3 hours");
    assert_eq!(humanize(3 * DAY), "3 days");
    assert_eq!(humanize(3 * WEEK), "3 weeks");
    assert_eq!(humanize(4 * MONTH), "4 months");
    assert_eq!(humanize(3 * YEAR), "3 years");
}

#[test]
fn recent_things_happened_just_now() {
    assert_eq!(ago(5), "just now");
    assert_eq!(ago(2 * DAY), "2 days ago");
}

#[test]
fn moments_get_more_precise_the_more_recent_they_are() {
    let now = 1_800_000_000;
    assert!(moment(now - 3600, now).starts_with("today,"));
    assert!(moment(now - 30 * HOUR, now).starts_with("yesterday,"));
    // Four days back names the weekday.
    let weekday = moment(now - 4 * DAY, now);
    assert!(weekday.contains(','), "{weekday}");
    assert!(!weekday.starts_with("today"), "{weekday}");
    // A year back needs the year.
    assert!(moment(now - 2 * YEAR, now).len() >= 8);
}

#[test]
fn dates_render_without_a_time() {
    let rendered = date(1_800_000_000);
    assert!(
        rendered.contains("2027") || rendered.contains("2026"),
        "{rendered}"
    );
    assert!(!rendered.contains(':'), "{rendered}");
}

#[test]
fn a_known_time_is_written_exactly() {
    let time = LocalTime {
        year: 2024,
        month: 2,
        day: 29,
        hour: 7,
        minute: 5,
    };
    assert_eq!(moment_at(Some(time), HOUR), "today, 07:05");
    assert_eq!(moment_at(Some(time), 30 * HOUR), "yesterday, 07:05");
    assert_eq!(moment_at(Some(time), 4 * DAY), "Thursday, 07:05");
    assert_eq!(date_at(Some(time)), "29 Feb 2024");
    assert!(moment_at(Some(time), 2 * YEAR).contains("2024"));
    // A moment that no calendar reaches is still written somehow.
    assert_eq!(moment_at(None, HOUR), date_at(None));
}

#[test]
fn wide_characters_count_double() {
    assert_eq!(width("abc"), 3);
    assert_eq!(width("日本"), 4);
    assert_eq!(width("é"), 1);
}

#[test]
fn blanks_are_filled_up() {
    assert_eq!(pad("ab", 5), "ab   ");
    assert_eq!(pad("abcdef", 3), "abcdef");
}

#[test]
fn truncation_marks_the_cut() {
    assert_eq!(truncate("Downloads", 20), "Downloads");
    assert_eq!(truncate("Downloads", 5), "Down…");
    assert_eq!(truncate("Downloads", 1), "…");
}

#[test]
fn fitting_produces_exactly_the_requested_width() {
    for target in 1..12 {
        assert_eq!(width(&fit("Applications", target)), target);
        assert_eq!(width(&fit("ab", target)), target);
    }
}

#[test]
fn wide_text_never_overflows_its_column() {
    assert!(width(&fit("日本語のフォルダ", 7)) <= 7);
}

#[test]
fn shortened_paths_keep_their_tail() {
    let shortened = shorten_path("/home/cesar/code/disko/crates/core/src", 20);
    assert!(width(&shortened) <= 20);
    assert!(shortened.ends_with("src"));
    assert!(shortened.contains('…'));
}

#[test]
fn any_text_fits_any_width_exactly() {
    let texts = [
        "",
        "ab",
        "Applications",
        "日本語のフォルダ",
        "☀\u{fe0f}☀\u{fe0f}☀\u{fe0f}☀\u{fe0f}",
        "👩\u{200d}👩\u{200d}👧 and 🇩🇪🇫🇷",
        "e\u{301}e\u{301}e\u{301}",
    ];
    for text in texts {
        for target in 0..20 {
            let fitted = fit(text, target);
            assert_eq!(width(&fitted), target, "{text:?} at {target}");
            if width(text) <= target {
                assert_eq!(fitted.trim_end_matches(' '), text);
            }
            assert!(width(&truncate(text, target)) <= target, "{text:?} at {target}");
        }
    }
    assert_eq!(truncate("Downloads", 0), "");
    assert_eq!(fit("Downloads", 0), "");
}

#[test]
fn shortened_paths_are_measured_in_cells() {
    // Six and five wide characters: the end is kept whichever way they are counted.
    assert_eq!(shorten_path("日本語日本語", 9), "日…日本語");
    assert_eq!(shorten_path("日本語日本", 9), "日…語日本");
    for path in ["/書類/写真/二〇二六年/夏休み", "☀\u{fe0f}/☀\u{fe0f}/☀\u{fe0f}/☀\u{fe0f}/☀\u{fe0f}"] {
        for max in 6..width(path) {
            let shortened = shorten_path(path, max);
            assert!(width(&shortened) <= max, "{shortened:?} at {max}");
            let (_, tail) = shortened.split_once('…').unwrap();
            assert!(!tail.is_empty() && path.ends_with(tail), "{shortened:?} at {max}");
        }
        assert_eq!(shorten_path(path, width(path)), path);
    }
}

#[test]
fn every_format_is_written_out_in_full() {
    let time = |year, month, day, hour, minute| {
        Some(LocalTime {
            year,
            month,
            day,
            hour,
            minute,
        })
    };
    let then = time(1970, 1, 1, 0, 0);
    assert_eq!(moment_at(then, 3 * DAY), "Thursday, 00:00");
    assert_eq!(moment_at(then, WEEK), "1 Jan, 00:00");
    assert_eq!(moment_at(then, YEAR), "1 Jan 1970");
    assert_eq!(moment_at(time(2026, 11, 16, 23, 59), 6 * DAY), "Monday, 23:59");
    assert_eq!(moment_at(time(2000, 12, 31, 9, 30), 8 * DAY), "31 Dec, 09:30");
    assert_eq!(date_at(time(987, 6, 5, 4, 3)), "5 Jun 0987");
    let months = [
        "Jan", "Feb", "Mar", "Apr", "May", "Jun", "Jul", "Aug", "Sep", "Oct", "Nov", "Dec",
    ];
    for (at, month) in months.iter().enumerate() {
        let then = time(2024, at as i8 + 1, 17, 1, 2);
        assert_eq!(date_at(then), format!("17 {month} 2024"));
    }
    let days = [
        "Sunday", "Monday", "Tuesday", "Wednesday", "Thursday", "Friday", "Saturday",
    ];
    for (at, day) in days.iter().enumerate() {
        // The third of March 2024 was a Sunday.
        let then = time(2024, 3, 3 + at as i8, 1, 2);
        assert_eq!(moment_at(then, 4 * DAY), format!("{day}, 01:02"));
    }
}

#[test]
fn moments_and_dates_are_those_of_the_second_given() {
    // Noon of a day: whatever the time zone, it is no further than the day after the next.
    let noon = 1_709_208_000;
    let near = ["27 Feb 2024", "28 Feb 2024", "29 Feb 2024", "1 Mar 2024", "2 Mar 2024"];
    assert!(near.contains(&date(noon).as_str()), "{}", date(noon));
    let later = noon + 2 * YEAR;
    assert_eq!(moment(noon, later), date(noon));
    // Ten minutes on are ten minutes on, wherever the clock stands.
    let minutes = |text: &str| {
        let (hour, minute) = text.rsplit(' ').next().unwrap().split_once(':').unwrap();
        hour.parse::<u64>().unwrap() * 60 + minute.parse::<u64>().unwrap()
    };
    let (one, other) = (moment(noon, noon), moment(noon + 600, noon + 600));
    assert_eq!((minutes(&one) + 10) % (24 * 60), minutes(&other));
    // Beyond the last second of the calendar there is none.
    assert_ne!(date(253_402_207_200), "unknown");
    assert_eq!(date(253_402_207_201), "unknown");
    assert_eq!(moment(u64::MAX, 0), "unknown");
}

#[test]
fn the_calendar_goes_over_months_and_leap_years() {
    // Sixty days apart over the end of a February, in a leap year and in another.
    let day = |at: u64| date(at).split_once(' ').unwrap().0.parse::<u64>().unwrap();
    for first in [1_707_048_000, 1_738_670_400] {
        let leap = first == 1_707_048_000;
        let turned = (0..60).filter(|n| day(first + n * DAY) > day(first + (n + 1) * DAY)).count();
        assert_eq!(turned, 2);
        let longest = (0..30).map(|n| day(first + n * DAY)).max().unwrap();
        assert_eq!(longest, if leap { 29 } else { 28 });
    }
}
