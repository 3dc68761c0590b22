use zdump_rs::civil::parse_iso_utc;
use zdump_rs::posix::parse;

#[test]
fn parses_est5edt() {
    let z = parse("EST5EDT,M3.2.0,M11.1.0").unwrap();
    assert_eq!(z.std_abbr, "EST");
    assert_eq!(z.std_utoff, -5 * 3600);
    let d = z.dst.as_ref().unwrap();
    assert_eq!(d.dst_abbr, "EDT");
    assert_eq!(d.dst_utoff, -4 * 3600); // default std+1h east
}

#[test]
fn est_winter_summer() {
    let z = parse("EST5EDT,M3.2.0,M11.1.0").unwrap();
    // 2027-01-15 UTC -> EST; 2027-07-15 UTC -> EDT (far beyond any explicit table)
    let jan = parse_iso_utc("2027-01-15T12:00:00Z").unwrap();
    let jul = parse_iso_utc("2027-07-15T12:00:00Z").unwrap();
    let a = z.observe(jan);
    assert_eq!((a.utoff, a.is_dst, a.abbr.as_str()), (-18000, false, "EST"));
    let b = z.observe(jul);
    assert_eq!((b.utoff, b.is_dst, b.abbr.as_str()), (-14400, true, "EDT"));
}

#[test]
fn london_and_angle_names() {
    let z = parse("GMT0BST,M3.5.0/1,M10.5.0").unwrap();
    assert_eq!(z.std_utoff, 0);
    assert_eq!(z.dst.as_ref().unwrap().dst_utoff, 3600);
    // angle-bracket numeric names (e.g. -03/-02)
    let z2 = parse("<-03>3<-02>,M3.5.0/-2,M10.5.0/-1").unwrap();
    assert_eq!(z2.std_abbr, "-03");
    assert_eq!(z2.std_utoff, -3 * 3600);
    assert_eq!(z2.dst.as_ref().unwrap().dst_utoff, -2 * 3600);
}

#[test]
fn fixed_zone_no_dst() {
    let z = parse("UTC0").unwrap();
    assert!(z.dst.is_none());
    let o = z.observe(0);
    assert_eq!((o.utoff, o.is_dst), (0, false));
}

#[test]
fn southern_hemisphere_wraps_year() {
    // Sydney-like: DST Oct..Apr (start month > end month)
    let z = parse("AEST-10AEDT,M10.1.0,M4.1.0/3").unwrap();
    let jan = parse_iso_utc("2030-01-15T00:00:00Z").unwrap(); // summer (DST)
    let jul = parse_iso_utc("2030-07-15T00:00:00Z").unwrap(); // winter (std)
    assert!(z.observe(jan).is_dst);
    assert!(!z.observe(jul).is_dst);
}

#[test]
fn rejects_malformed_strings() {
    assert!(parse("").is_none());
    assert!(parse("AB5").is_none()); // name too short
    assert!(parse("EST").is_none()); // no offset
    assert!(parse("EST5EDT").is_none()); // DST name without rules
    assert!(parse("EST5EDT,M3.2.0").is_none()); // no end rule
    assert!(parse("<EST5").is_none()); // unterminated angle name
    assert!(parse("EST99999999999999999999999").is_none()); // offset digits overflow
    assert!(parse("EST5EDT,M3.2,M11.1.0").is_none());
}

#[test]
fn offsets_with_minutes_and_seconds() {
    let z = parse("XXX-5:30:15").unwrap();
    assert_eq!(z.std_utoff, 5 * 3600 + 30 * 60 + 15);
    let z = parse("IST-5:30").unwrap();
    assert_eq!(z.std_utoff, 5 * 3600 + 30 * 60);
    let z = parse("EST5EDT4,M3.2.0,M11.1.0").unwrap();
    assert_eq!(z.dst.as_ref().unwrap().dst_utoff, -4 * 3600);
}

#[test]
fn transition_edges_new_york_2027() {
    // 2027-03-14 07:00:00Z is the DST start (02:00 EST), 2027-11-07 06:00:00Z its end (02:00 EDT)
    let z = parse("EST5EDT,M3.2.0,M11.1.0").unwrap();
    let start = parse_iso_utc("2027-03-14T07:00:00Z").unwrap();
    let end = parse_iso_utc("2027-11-07T06:00:00Z").unwrap();
    assert!(!z.observe(start - 1).is_dst);
    assert!(z.observe(start).is_dst);
    assert!(z.observe(end - 1).is_dst);
    assert!(!z.observe(end).is_dst);
}

#[test]
fn julian_and_zero_based_rules() {
    // J60 is always March 1; day 59 (zero-based) is Feb 29 in a leap year, March 1 otherwise
    let z = parse("AAA0BBB,J60/0,J300/0").unwrap();
    let mar1 = parse_iso_utc("2027-03-01T00:00:00Z").unwrap();
    assert!(!z.observe(mar1 - 1).is_dst);
    assert!(z.observe(mar1).is_dst);
    let z = parse("AAA0BBB,59/0,300/0").unwrap();
    let feb29 = parse_iso_utc("2028-02-29T00:00:00Z").unwrap();
    assert!(!z.observe(feb29 - 1).is_dst);
    assert!(z.observe(feb29).is_dst);
}

#[test]
fn observe_never_panics_at_extremes() {
    let z = parse("EST5EDT,M3.2.0,M11.1.0").unwrap();
    let _ = z.observe(i64::MAX);
    let _ = z.observe(i64::MIN);
    let z = parse("AAA0BBB,M12.5.6/999999,J365/-999999").unwrap();
    let _ = z.observe(0);
    let _ = z.observe(i64::MAX);
}

#[test]
fn rejects_malformed_bracket_names() {
    assert!(parse("<>0").is_none());
    assert!(parse("<ab>0").is_none());
    assert!(parse("<a-b>0").is_none()); // sign only in first place
    assert!(parse("<a b>0").is_none());
    assert!(parse("<+-3>0").is_none());
    let z = parse("<+0330>-3:30").unwrap();
    assert_eq!(z.std_abbr, "+0330");
    assert_eq!(z.std_utoff, 3 * 3600 + 30 * 60);
    let z = parse("<ABC>5<xy1>,M3.2.0,M11.1.0").unwrap();
    assert_eq!(z.std_abbr, "ABC");
    assert_eq!(z.dst.as_ref().unwrap().dst_abbr, "xy1");
}

#[test]
fn rejects_rules_out_of_range() {
    assert!(parse("EST5EDT,M13.2.0,M11.1.0").is_none());
    assert!(parse("EST5EDT,M0.2.0,M11.1.0").is_none());
    assert!(parse("EST5EDT,M3.0.0,M11.1.0").is_none());
    assert!(parse("EST5EDT,M3.6.0,M11.1.0").is_none());
    assert!(parse("EST5EDT,M3.2.7,M11.1.0").is_none());
    assert!(parse("EST5EDT,J0,J365").is_none());
    assert!(parse("EST5EDT,J1,J366").is_none());
    assert!(parse("EST5EDT,0,366").is_none());
    assert!(parse("EST5EDT,M1.1.0,M12.5.6").is_some());
    assert!(parse("EST5EDT,J1,J365").is_some());
    assert!(parse("EST5EDT,0,365").is_some());
}

#[test]
fn dst_part_fields() {
    let z = parse("EST5EDT,M3.2.0/2,M11.1.0/-1:30").unwrap();
    let d = z.dst.as_ref().unwrap();
    assert_eq!(d.dst_abbr, "EDT");
    assert_eq!(d.dst_utoff, -4 * 3600);
    assert_eq!(d.start, zdump_rs::posix::Rule::MonthWeekDay { m: 3, w: 2, d: 0 });
    assert_eq!(d.start_time, 7200);
    assert_eq!(d.end, zdump_rs::posix::Rule::MonthWeekDay { m: 11, w: 1, d: 0 });
    assert_eq!(d.end_time, -5400);
}
