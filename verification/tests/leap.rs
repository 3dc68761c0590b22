use zdump_rs::leap::{corr_at, displayed_leap};
use zdump_rs::tzif::LeapSecond;

#[test]
fn first_two_leaps_render_60() {
    assert_eq!(displayed_leap(78796800, 1), "1972-06-30T23:59:60Z");
    assert_eq!(displayed_leap(94694401, 2), "1972-12-31T23:59:60Z");
    assert_eq!(displayed_leap(126230402, 3), "1973-12-31T23:59:60Z");
}

#[test]
fn corr_lookup_is_monotone() {
    let leaps = vec![
        LeapSecond {
            occur: 78796800,
            corr: 1,
        },
        LeapSecond {
            occur: 94694401,
            corr: 2,
        },
    ];
    assert_eq!(corr_at(&leaps, 0), 0);
    assert_eq!(corr_at(&leaps, 78796800), 1);
    assert_eq!(corr_at(&leaps, 94694401), 2);
    assert_eq!(corr_at(&leaps, 99999999999), 2);
}

#[test]
fn corr_scan_stops_at_first_later_leap() {
    // out of order: the scan stops at the first leap after t
    let leaps = vec![
        LeapSecond { occur: 100, corr: 1 },
        LeapSecond { occur: 50, corr: 7 },
    ];
    assert_eq!(corr_at(&leaps, 75), 0);
    assert_eq!(corr_at(&leaps, 100), 7);
    assert_eq!(corr_at(&[], 5), 0);
}

#[test]
fn off_boundary_leap_keeps_its_seconds() {
    assert_eq!(displayed_leap(30, 0), "1970-01-01T00:00:30Z");
}
