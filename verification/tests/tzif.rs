use zdump_rs::tzif::{footer_from_text, parse, LeapSecond, TtInfo, Tzif};

// A minimal hand-built v1 TZif: one type (UTC, "UTC"), no transitions.
fn utc_v1() -> Vec<u8> {
    let mut b = Vec::new();
    b.extend_from_slice(b"TZif");
    b.push(0); // v1
    b.extend_from_slice(&[0u8; 15]);
    for v in [0u32, 0, 0, 0, 1, 4] {
        b.extend_from_slice(&v.to_be_bytes()); // isut,isstd,leap,time,type,char
    }
    // one ttinfo: utoff 0, isdst 0, desigidx 0
    b.extend_from_slice(&0i32.to_be_bytes());
    b.push(0);
    b.push(0);
    b.extend_from_slice(b"UTC\0");
    b
}

#[test]
fn parses_utc_and_observes() {
    let z = parse(&utc_v1()).unwrap();
    assert_eq!(z.types.len(), 1);
    let o = z.observe(1_767_225_600); // 2026-01-01Z
    assert_eq!(o.utoff, 0);
    assert!(!o.is_dst);
    assert_eq!(o.abbr, "UTC");
}

#[test]
fn rejects_truncated() {
    assert!(parse(b"TZif").is_err());
    assert!(parse(b"XXXX").is_err());
}

#[test]
fn rejects_oob_type_index() {
    // timecnt=1 transition pointing at type 5 with typecnt=1 -> must be rejected, not panic
    let mut b = Vec::new();
    b.extend_from_slice(b"TZif");
    b.push(0);
    b.extend_from_slice(&[0u8; 15]);
    for v in [0u32, 0, 0, 1, 1, 4] {
        b.extend_from_slice(&v.to_be_bytes());
    }
    b.extend_from_slice(&0i32.to_be_bytes()); // transition time
    b.push(5); // bad type index
    b.extend_from_slice(&0i32.to_be_bytes());
    b.push(0);
    b.push(0);
    b.extend_from_slice(b"UTC\0");
    assert!(parse(&b).is_err());
}

fn header(version: u8, counts: [u32; 6]) -> Vec<u8> {
    let mut b = Vec::new();
    b.extend_from_slice(b"TZif");
    b.push(version);
    b.extend_from_slice(&[0u8; 15]);
    for v in counts {
        b.extend_from_slice(&v.to_be_bytes());
    }
    b
}

/// A v2 file: EST/EDT with two transitions in the 64-bit block and a footer.
fn new_york_v2() -> Vec<u8> {
    let mut b = header(b'2', [0, 0, 0, 0, 1, 4]);
    b.extend_from_slice(&0i32.to_be_bytes());
    b.push(0);
    b.push(0);
    b.extend_from_slice(b"UTC\0");
    b.extend(header(b'2', [0, 0, 0, 2, 2, 8]));
    b.extend_from_slice(&1000i64.to_be_bytes());
    b.extend_from_slice(&2000i64.to_be_bytes());
    b.push(1);
    b.push(0);
    b.extend_from_slice(&(-18000i32).to_be_bytes());
    b.push(0);
    b.push(0);
    b.extend_from_slice(&(-14400i32).to_be_bytes());
    b.push(1);
    b.push(4);
    b.extend_from_slice(b"EST\0EDT\0");
    b.extend_from_slice(b"\nEST5EDT,M3.2.0,M11.1.0\n");
    b
}

#[test]
fn error_messages_name_the_fault() {
    assert_eq!(parse(b"TZif").unwrap_err(), "truncated: need 1 bytes at 4");
    assert_eq!(parse(b"XXXX").unwrap_err(), "bad magic (not TZif)");
    assert_eq!(parse(b"TZ").unwrap_err(), "truncated: need 4 bytes at 0");
    let mut b = utc_v1();
    b[4] = b'9';
    assert_eq!(parse(&b).unwrap_err(), "unknown version byte 0x39");
    let b = header(0, [0, 0, 0, 0, 0, 0]);
    assert_eq!(parse(&b).unwrap_err(), "typecnt == 0");
    let mut b = header(0, [0, 0, 0, 1, 1, 4]);
    b.extend_from_slice(&0i32.to_be_bytes());
    b.push(5);
    assert_eq!(parse(&b).unwrap_err(), "transition type index 5 >= typecnt 1");
    let mut b = header(0, [0, 0, 0, 0, 1, 4]);
    b.extend_from_slice(&0i32.to_be_bytes());
    b.push(0);
    b.push(9);
    assert_eq!(parse(&b).unwrap_err(), "designation index 9 >= charcnt 4");
    let mut b = new_york_v2();
    b[44 + 4 + 6 + 4] = b'3';
    assert_eq!(parse(&b).unwrap_err(), "v1/v2 header version mismatch: 2 vs 3");
}

#[test]
fn v2_block_footer_and_lookups() {
    let z = parse(&new_york_v2()).unwrap();
    assert_eq!(z.version, 2);
    assert_eq!(z.transitions, vec![1000, 2000]);
    assert_eq!(z.type_indices, vec![1, 0]);
    assert_eq!(z.types[0].abbr, "EST");
    assert_eq!(z.types[1].abbr, "EDT");
    assert_eq!(z.footer.as_deref(), Some("EST5EDT,M3.2.0,M11.1.0"));
    // before the first transition: the first non-DST type
    assert_eq!(z.observe_explicit(999).abbr, "EST");
    assert_eq!(z.observe_explicit(1000).abbr, "EDT");
    assert_eq!(z.observe_explicit(1999).abbr, "EDT");
    assert_eq!(z.observe_explicit(2000).abbr, "EST");
    assert!(!z.beyond_explicit(1999));
    assert!(z.beyond_explicit(2000));
    // beyond the table the footer projects: mid-July is daylight time
    let o = z.observe(1_815_998_400); // 2027-07-15T12:00:00Z
    assert_eq!((o.utoff, o.is_dst, o.abbr.as_str()), (-14400, true, "EDT"));
}

#[test]
fn transitions_in_window() {
    let z = parse(&new_york_v2()).unwrap();
    let rows = z.transitions_in(0, 3000);
    assert_eq!(rows.len(), 2);
    assert_eq!(rows[0].at, 1000);
    assert_eq!(rows[0].before.abbr, "EST");
    assert_eq!(rows[0].after.abbr, "EDT");
    assert_eq!(rows[1].before.abbr, "EDT");
    assert_eq!(rows[1].after.abbr, "EST");
    assert_eq!(z.transitions_in(1001, 2000).len(), 0);
    assert_eq!(z.transitions_in(2000, 2001).len(), 1);
}

#[test]
fn no_footer_pins_last_type() {
    let z = parse(&utc_v1()).unwrap();
    assert!(z.footer.is_none());
    assert!(z.beyond_explicit(i64::MIN));
    assert_eq!(z.observe(i64::MAX).abbr, "UTC");
}

#[test]
fn footer_text_trims_padding() {
    assert_eq!(footer_from_text("\n\0EST5EDT,M3.2.0,M11.1.0\r\n").as_deref(), Some("EST5EDT,M3.2.0,M11.1.0"));
    assert_eq!(footer_from_text("\n\n\0"), None);
    assert_eq!(footer_from_text(""), None);
    assert_eq!(footer_from_text(" x ").as_deref(), Some(" x "));
}

#[test]
fn invalid_utf8_abbreviation_is_replaced() {
    let mut b = header(0, [0, 0, 0, 0, 1, 4]);
    b.extend_from_slice(&0i32.to_be_bytes());
    b.push(0);
    b.push(0);
    b.extend_from_slice(&[b'A', 0xff, b'B', 0]);
    let z = parse(&b).unwrap();
    assert_eq!(z.types[0].abbr, "A\u{fffd}B");
}

#[test]
fn transition_rows_agree_with_lookups() {
    let z = parse(&new_york_v2()).unwrap();
    for r in z.transitions_in(i64::MIN, i64::MAX) {
        assert_eq!(r.after, z.observe_explicit(r.at));
        assert_eq!(r.before, z.observe_explicit(r.at - 1));
    }
}

fn table(transitions: Vec<i64>, type_indices: Vec<u8>) -> Tzif {
    Tzif {
        version: 2,
        transitions,
        type_indices,
        types: vec![
            TtInfo { utoff: 0, is_dst: false, abbr: "AAA".to_string() },
            TtInfo { utoff: 3600, is_dst: true, abbr: "BBB".to_string() },
            TtInfo { utoff: 7200, is_dst: false, abbr: "CCC".to_string() },
        ],
        leaps: Vec::<LeapSecond>::new(),
        footer: None,
    }
}

#[test]
fn extra_type_indices_are_ignored() {
    let z = table(vec![100, 200], vec![1, 2, 7, 9]);
    assert_eq!(z.observe(50).abbr, "AAA");
    assert_eq!(z.observe(100).abbr, "BBB");
    assert_eq!(z.observe(250).abbr, "CCC");
    assert_eq!(z.transitions_in(0, 1000).len(), 2);
}

#[test]
fn unsorted_table_lookup_is_the_binary_search() {
    // the search probes index 1 (5 <= 7) and ends past both entries: the last type index answers
    let z = table(vec![10, 5], vec![1, 2]);
    assert_eq!(z.observe_explicit(7).abbr, "CCC");
    assert_eq!(z.observe(7).abbr, "CCC");
    // probing index 1 (5 > 3), then index 0 (10 > 3): before every transition
    assert_eq!(z.observe_explicit(3).abbr, "AAA");
}
