use disko::bar::{bar, gauge, TRACK};
use disko::double::Double;
use disko::palette::{
    capacity_color, capacity_critical, capacity_ok, capacity_warn, categorical, growth_color,
    shade, Factor, Rgb,
};
use disko::size::{self, format_percent, format_percent_whole, fraction, Unit};

/// A double as the library holds one: 53 bits and a power of two.
fn double(value: f64) -> Double {
    if value == 0.0 {
        return Double::zero();
    }
    let bits = value.to_bits();
    Double {
        mantissa: (bits & ((1 << 52) - 1)) | (1 << 52),
        exponent: ((bits >> 52) & 0x7ff) as i32 - 1075,
    }
}

fn value(double: Double) -> f64 {
    double.mantissa as f64 * 2f64.powi(double.exponent)
}

#[test]
fn formats_decimal_sizes() {
    assert_eq!(size::format(0, Unit::Decimal), "0 B");
    assert_eq!(size::format(999, Unit::Decimal), "999 B");
    assert_eq!(size::format(1_000, Unit::Decimal), "1 KB");
    assert_eq!(size::format(1_500, Unit::Decimal), "1.5 KB");
    assert_eq!(size::format(494_000_000_000, Unit::Decimal), "494 GB");
    assert_eq!(size::format(4_000_000_000, Unit::Decimal), "4 GB");
    assert_eq!(size::format(4_200_000_000, Unit::Decimal), "4.2 GB");
}

#[test]
fn formats_binary_sizes() {
    assert_eq!(size::format(1_024, Unit::Binary), "1 KiB");
    assert_eq!(size::format(1_048_576, Unit::Binary), "1 MiB");
}

#[test]
fn sizes_can_be_padded() {
    assert_eq!(size::format_padded(1_500, Unit::Decimal, 9), "   1.5 KB");
    assert_eq!(size::format_padded(1_500, Unit::Decimal, 3), "1.5 KB");
}

#[test]
fn percentages_drop_a_trailing_zero_decimal() {
    assert_eq!(format_percent(double(0.187)), "18.7%");
    assert_eq!(format_percent(double(0.82)), "82%");
    assert_eq!(format_percent(double(1.0)), "100%");
    assert_eq!(format_percent_whole(double(0.817)), "82%");
}

#[test]
fn fraction_of_nothing_is_zero() {
    assert_eq!(value(fraction(10, 0)), 0.0);
    assert_eq!(value(fraction(1, 4)), 0.25);
}

#[test]
fn fractions_are_what_the_machine_divides() {
    for (part, whole) in [(1u64, 3u64), (404, 494), (7, 9), (u64::MAX, 3), (5, u64::MAX)] {
        assert_eq!(value(fraction(part, whole)), part as f64 / whole as f64);
    }
}

fn cells(s: &str) -> usize {
    s.chars().count()
}

#[test]
fn bars_never_exceed_their_width() {
    for percent in 0..=100 {
        let rendered = bar(double(percent as f64 / 100.0), 20);
        assert!(cells(&rendered) <= 20, "{percent}% overflowed: {rendered}");
    }
}

#[test]
fn a_full_bar_is_solid() {
    assert_eq!(bar(double(1.0), 4), "████");
    assert_eq!(bar(double(0.5), 4), "██");
}

#[test]
fn tiny_values_still_show_something() {
    assert_eq!(bar(double(0.0), 10), "");
    assert_eq!(bar(double(0.0001), 10), "▏");
}

#[test]
fn sub_cell_precision_uses_partial_blocks() {
    // 0.25 of 3 cells is 0.75 of a cell: six eighths.
    assert_eq!(bar(double(0.25), 3), "▊");
}

#[test]
fn gauges_always_fill_their_width() {
    for percent in 0..=100 {
        assert_eq!(cells(&gauge(double(percent as f64 / 100.0), 24)), 24);
    }
}

#[test]
fn a_nearly_full_gauge_keeps_one_empty_cell() {
    assert!(gauge(double(0.999), 10).ends_with(TRACK));
    assert_eq!(gauge(double(1.0), 10), "██████████");
}

#[test]
fn categorical_colours_wrap() {
    assert_eq!(categorical(0), categorical(8));
    assert_eq!(categorical(3), Rgb::new(204, 121, 167));
}

#[test]
fn shading_moves_toward_black_and_white() {
    let base = Rgb::new(100, 100, 100);
    assert_eq!(shade(base, Factor::of(1, 2)), Rgb::new(50, 50, 50));
    assert_eq!(shade(base, Factor::of(1, 1)), base);
    let lighter = shade(base, Factor::of(3, 2));
    assert!(lighter.r > base.r && lighter.r < 255);
    assert_eq!(shade(base, Factor::of(2, 1)), Rgb::new(255, 255, 255));
}

#[test]
fn capacity_colour_escalates() {
    assert_eq!(capacity_color(double(0.10)), capacity_ok());
    assert_eq!(capacity_color(double(0.80)), capacity_warn());
    assert_eq!(capacity_color(double(0.95)), capacity_critical());
}

#[test]
fn growth_and_shrinkage_have_colours_of_their_own() {
    let grew = growth_color(100, 100);
    let shrank = growth_color(-100, 100);
    assert!(grew.r > grew.b, "growth is warm");
    assert!(shrank.b > shrank.r, "shrinkage is cool");
    // A small movement is drawn dimmer than a big one.
    assert_eq!(grew, categorical(5));
    assert!(growth_color(1, 100).r < grew.r);
    assert_eq!(growth_color(i64::MIN, 1), categorical(4));
}
