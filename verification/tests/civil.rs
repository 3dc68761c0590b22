use zdump_rs::civil::{civil_from_days, days_from_civil, format_iso_utc, iso_utc_fits, parse_iso_utc};

#[test]
fn epoch_roundtrips() {
    assert_eq!(parse_iso_utc("1970-01-01T00:00:00Z").unwrap(), 0);
    assert_eq!(format_iso_utc(0), "1970-01-01T00:00:00Z");
}

#[test]
fn known_instants() {
    // 2026-01-01T00:00:00Z — independently checkable
    let t = parse_iso_utc("2026-01-01T00:00:00Z").unwrap();
    assert_eq!(format_iso_utc(t), "2026-01-01T00:00:00Z");
    // round-trip a far-future and a pre-epoch instant
    for s in [
        "2038-01-19T03:14:07Z",
        "1901-12-13T20:45:52Z",
        "2200-07-01T12:00:00Z",
    ] {
        assert_eq!(format_iso_utc(parse_iso_utc(s).unwrap()), s);
    }
}

#[test]
fn days_from_civil_known_values() {
    assert_eq!(days_from_civil(1970, 1, 1), 0);
    assert_eq!(days_from_civil(2000, 3, 1), 11017);
    assert_eq!(days_from_civil(1969, 12, 31), -1);
    assert_eq!(days_from_civil(2026, 1, 1), 20454);
    assert_eq!(days_from_civil(1600, 2, 29), -135081);
}

#[test]
fn civil_from_days_known_values() {
    assert_eq!(civil_from_days(0), (1970, 1, 1));
    assert_eq!(civil_from_days(-1), (1969, 12, 31));
    assert_eq!(civil_from_days(11016), (2000, 2, 29));
    assert_eq!(civil_from_days(20454), (2026, 1, 1));
}

#[test]
fn civil_roundtrip_over_a_range() {
    for z in -800_000i64..800_000 {
        let (y, m, d) = civil_from_days(z);
        assert!((1..=12).contains(&m));
        assert!(d >= 1 && d <= 31);
        assert_eq!(days_from_civil(y, m, d), z);
    }
}

#[test]
fn parse_accepts_space_and_short_times() {
    assert_eq!(parse_iso_utc("  1970-01-02 01:02:03  ").unwrap(), 86400 + 3723);
    assert_eq!(parse_iso_utc("1970-01-02").unwrap(), 86400);
    assert_eq!(parse_iso_utc("1970-01-01T05").unwrap(), 5 * 3600);
    assert_eq!(parse_iso_utc("1970-01-01T00:01ZZ").unwrap(), 60);
    assert_eq!(parse_iso_utc("1972-06-30T23:59:60Z").unwrap(), 78796800);
}

#[test]
fn parse_error_messages() {
    assert_eq!(
        parse_iso_utc("1970/01/01").unwrap_err(),
        "bad date (want YYYY-MM-DD): \"1970/01/01\""
    );
    assert_eq!(parse_iso_utc("19x0-01-01").unwrap_err(), "not an integer: \"19x0\"");
    assert_eq!(
        parse_iso_utc("1970-13-01").unwrap_err(),
        "month/day out of range in \"1970-13-01\""
    );
    assert_eq!(
        parse_iso_utc("1970-01-01T1:2:3:4").unwrap_err(),
        "bad time (want HH:MM:SS): \"1:2:3:4\""
    );
    assert_eq!(
        parse_iso_utc("1970-01-01T24:00:00").unwrap_err(),
        "time component out of range in \"24:00:00\""
    );
    assert_eq!(parse_iso_utc("1970-01-01T00:aa").unwrap_err(), "not an integer: \"aa\"");
}

#[test]
fn range_check_for_huge_years() {
    assert!(iso_utc_fits("1970-01-01"));
    assert!(iso_utc_fits("not a date"));
    assert!(!iso_utc_fits("9000000000000000-01-01"));
}

#[test]
fn format_pads_and_signs() {
    assert_eq!(format_iso_utc(-1), "1969-12-31T23:59:59Z");
    assert_eq!(format_iso_utc(-62167219200), "0000-01-01T00:00:00Z");
    assert_eq!(format_iso_utc(-62167219201), "-001-12-31T23:59:59Z");
    assert_eq!(format_iso_utc(253402300800), "10000-01-01T00:00:00Z");
}

#[test]
fn probe_default_instants_round_trip() {
    assert_eq!(zdump_rs::PROBE_DEFAULT.len(), 9);
    for s in zdump_rs::PROBE_DEFAULT {
        assert_eq!(zdump_rs::civil::format_iso_utc(zdump_rs::civil::parse_iso_utc(s).unwrap()), s);
    }
}
