use std::time::Duration;

use ratto::duration::{format_clock, format_compact, format_long, parse_duration, parse_interval};

#[test]
fn compact_matches_fish_format_duration() {
    assert_eq!(format_compact(5580), "1h 33m");
    assert_eq!(format_compact(2700), "45m");
    assert_eq!(format_compact(0), "0m");
    assert_eq!(format_compact(-5), "0m");
    assert_eq!(format_compact(59), "1m");
    // Ceil-carry: 3599s ceils 59m59s to 60m, which carries to 1h 00m.
    assert_eq!(format_compact(3599), "1h 00m");
    assert_eq!(format_compact(3600), "1h 00m");
    assert_eq!(format_compact(5548), "1h 33m");
}

#[test]
fn long_omits_zero_components() {
    assert_eq!(format_long(5592), "1h 33m 12s");
    assert_eq!(format_long(2700), "45m");
    assert_eq!(format_long(90), "1m 30s");
    assert_eq!(format_long(0), "0s");
    assert_eq!(format_long(-3), "0s");
}

#[test]
fn clock_is_zero_padded() {
    assert_eq!(format_clock(5592), "01:33:12");
    assert_eq!(format_clock(45), "00:00:45");
    assert_eq!(format_clock(-1), "00:00:00");
    assert_eq!(format_clock(90061), "25:01:01");
}

#[test]
fn parse_duration_tokens() {
    assert_eq!(parse_duration("1h33m").unwrap(), 5580);
    assert_eq!(parse_duration("1h 33m").unwrap(), 5580);
    assert_eq!(parse_duration("90s").unwrap(), 90);
    assert_eq!(parse_duration("2h").unwrap(), 7200);
    assert_eq!(parse_duration("2").unwrap(), 2);
    assert_eq!(parse_duration("1d").unwrap(), 86400);
    assert!(parse_duration("").is_err());
    assert!(parse_duration("abc").is_err());
    assert!(parse_duration("5x").is_err());
}

#[test]
fn long_round_trips_through_parse() {
    for n in [1, 59, 60, 90, 3600, 5592, 86461] {
        assert_eq!(parse_duration(&format_long(n)).unwrap(), n, "n={n}");
    }
}

#[test]
fn parse_interval_supports_ms_and_seconds() {
    assert_eq!(parse_interval("2s").unwrap(), Duration::from_secs(2));
    assert_eq!(parse_interval("500ms").unwrap(), Duration::from_millis(500));
    assert_eq!(parse_interval("2").unwrap(), Duration::from_secs(2));
    assert_eq!(parse_interval("1m").unwrap(), Duration::from_secs(60));
    assert!(parse_interval("bogus").is_err());
    assert!(parse_interval("").is_err());
}

#[test]
fn duration_refusals_say_what_was_wrong() {
    assert_eq!(parse_duration("").unwrap_err(), "empty duration");
    assert_eq!(parse_duration("h").unwrap_err(), "invalid duration: \"h\"");
    assert_eq!(parse_duration("5x").unwrap_err(), "invalid duration unit 'x' in \"5x\"");
    assert_eq!(parse_duration("1h5").unwrap_err(), "trailing number without unit in \"1h5\"");
    assert_eq!(
        parse_duration("99999999999999999999s").unwrap_err(),
        "number too large to fit in target type"
    );
    assert_eq!(parse_duration(" 1 d 2 h ").unwrap(), 86400 + 7200);
    assert_eq!(parse_interval("  +7 ms ").unwrap(), std::time::Duration::from_millis(7));
    assert_eq!(parse_interval("xms").unwrap_err(), "invalid interval: \"xms\"");
}
