//! Figures in words, held against the machine's own floating point.

use lave_core::engine::ContainerStats;
use lave_core::model::format::{
    age, bytes, instant, instant_with_age, least_tag_at, percent, share, short_id, timestamp,
    timestamp_or_unknown,
};

const UNITS: [&str; 6] = ["B", "kB", "MB", "GB", "TB", "PB"];

/// A spread of sizes around every power of ten, with the digits varied.
fn sizes() -> Vec<i64> {
    let mut sizes = vec![0, 1, 9, 999, 1000, 1001, i64::MAX, i64::MAX - 1];
    let mut power: i64 = 1;
    while power < i64::MAX / 10 {
        for digits in [9_949, 9_950, 9_999, 1_050, 1_049, 1_234, 5_555, 8_765] {
            if let Some(size) = power.checked_mul(digits) {
                sizes.push(size);
                sizes.push(size - 1);
                sizes.push(size + 1);
            }
        }
        power *= 10;
    }
    sizes
}

fn bytes_by_machine(size: i64) -> String {
    if size < 0 {
        return "unknown".to_owned();
    }
    let mut scaled = size as f64;
    let mut unit = 0;
    while scaled >= 1000.0 && unit < UNITS.len() - 1 {
        scaled /= 1000.0;
        unit += 1;
    }
    if unit == 0 {
        format!("{size} B")
    } else {
        format!("{scaled:.1} {}", UNITS[unit])
    }
}

fn percent_by_machine(fraction: f64) -> String {
    if !fraction.is_finite() || fraction < 0.0 {
        return "unknown".to_owned();
    }
    let value = fraction * 100.0;
    if value > 0.0 && value < 0.1 {
        "<0.1%".to_owned()
    } else {
        format!("{value:.1}%")
    }
}

#[test]
fn sizes_read_as_the_machine_would_round_them() {
    for size in sizes() {
        assert_eq!(bytes(size), bytes_by_machine(size), "{size}");
    }
}

#[test]
fn fractions_read_as_the_machine_would_round_them() {
    let mut fractions = vec![
        0.0,
        -0.0,
        0.0005,
        0.000_499_999,
        0.000_500_001,
        0.0007,
        0.000_999_999,
        0.001,
        0.001_000_001,
        0.125,
        0.1255,
        0.999_95,
        1.0,
        2.5,
        1e-300,
        5e-324,
        f64::MAX,
        f64::MIN_POSITIVE,
        f64::INFINITY,
        f64::NEG_INFINITY,
        -1.0,
    ];
    for step in 0..2_000 {
        fractions.push(f64::from(step) / 1_997.0);
    }
    for fraction in fractions {
        assert_eq!(
            percent(fraction.to_bits()),
            percent_by_machine(fraction),
            "{fraction:e}"
        );
    }
}

#[test]
fn what_is_below_a_tenth_of_a_percent_is_said_to_be_small() {
    assert_eq!(percent(0.0007_f64.to_bits()), "<0.1%");
    assert_eq!(percent(0.000_999_f64.to_bits()), "<0.1%");
    assert_eq!(percent(0.001_f64.to_bits()), "0.1%");
    assert_eq!(share(7, 10_000), "7 B of 10.0 kB (<0.1%)");
    assert_eq!(share(10, 10_000), "10 B of 10.0 kB (0.1%)");
}

#[test]
fn shares_read_as_the_machine_would_round_them() {
    for used in sizes() {
        for ceiling in [1, 3, 7, 1_000, 999_999, 64_960_110_592, i64::MAX] {
            let fraction = used as f64 / ceiling as f64;
            assert_eq!(
                share(used, ceiling),
                format!(
                    "{} of {} ({})",
                    bytes_by_machine(used),
                    bytes_by_machine(ceiling),
                    percent_by_machine(fraction)
                ),
                "{used} of {ceiling}"
            );
        }
    }
}

#[test]
fn a_memory_fraction_is_the_quotient_the_machine_computes() {
    for used in sizes() {
        for limit in [1, 3, 1_000, 8_000_000_001, i64::MAX] {
            let stats = ContainerStats {
                id: "web".to_owned(),
                memory_usage: used,
                memory_limit: limit,
            };
            assert_eq!(
                stats.memory_fraction(),
                Some((used as f64 / limit as f64).to_bits()),
                "{used} of {limit}"
            );
        }
    }
}

#[test]
fn the_calendar_ends_where_the_years_run_out() {
    assert_eq!(timestamp(0, 0), "1970-01-01 00:00:00");
    assert_eq!(timestamp(-1, 0), "1969-12-31 23:59:59");
    assert_eq!(timestamp(i64::MAX, 0), "unknown");
    assert_eq!(timestamp(i64::MIN, 0), "unknown");
    assert_eq!(timestamp(8_210_266_876_799, 0), "+262142-12-31 23:59:59");
    assert_eq!(timestamp(8_210_266_876_800, 0), "unknown");
    assert_eq!(timestamp(-8_334_601_228_800, 0), "-262143-01-01 00:00:00");
    assert_eq!(timestamp(-8_334_601_228_801, 0), "unknown");
    for east in [-86_399, -1, 1, 86_399] {
        assert_ne!(timestamp(8_210_266_876_799, east), "unknown");
        assert_ne!(timestamp(-8_334_601_228_800, east), "unknown");
    }
}

#[test]
fn an_offset_west_of_greenwich_moves_the_clock_back() {
    assert_eq!(timestamp(3_600, -3_600), "1970-01-01 00:00:00");
    assert_eq!(timestamp(0, -1), "1969-12-31 23:59:59");
}

#[test]
fn an_instant_off_the_calendar_still_has_an_age() {
    assert_eq!(timestamp_or_unknown(None), "unknown");
    assert_eq!(
        instant_with_age(None, 100, 160),
        "unknown (1 minute ago)"
    );
    assert_eq!(
        instant_with_age(Some("noon".to_owned()), 100, 100),
        "noon (just now)"
    );
    assert_eq!(instant(-5, 100, 0), "unknown");
}

#[test]
fn no_age_starts_with_a_zero() {
    let now = 4_000_000_000;
    let mut seconds = 0;
    while seconds < 100_000_000 {
        assert!(!age(now - seconds, now).starts_with('0'), "{seconds}");
        seconds += 997;
    }
}

#[test]
fn every_pair_of_instants_has_an_age() {
    assert_eq!(age(1, i64::MIN), "in the future");
    assert_eq!(age(i64::MAX, i64::MIN), "in the future");
    assert_eq!(age(i64::MIN, i64::MAX), "unknown");
    assert_eq!(age(1, i64::MAX), "292471208677 years ago");
    assert_eq!(
        instant(1, i64::MIN, 0),
        "1970-01-01 00:00:01 (in the future)"
    );
}

#[test]
fn an_age_of_three_quarters_of_a_minute_rounds_up() {
    assert_eq!(age(1_000, 1_045), "1 minute ago");
    assert_eq!(age(1_000, 1_044), "just now");
}

#[test]
fn the_first_tag_by_its_lowered_form_wins() {
    let tags = ["b", "", "A", "a"].map(str::to_owned).to_vec();
    let lowered = ["b", "", "a", "a"].map(str::to_owned).to_vec();

    assert_eq!(least_tag_at(&tags, &lowered), Some(2));
    assert_eq!(least_tag_at(&Vec::new(), &Vec::new()), None);
    assert_eq!(
        least_tag_at(&vec!["<none>:<none>".to_owned()], &vec![String::new()]),
        None
    );
}

#[test]
fn short_ids_count_characters_rather_than_bytes() {
    assert_eq!(short_id("sha256:\u{e9}\u{e9}"), "\u{e9}\u{e9}");
    assert_eq!(short_id("0123456789abcdef"), "0123456789ab");
}
