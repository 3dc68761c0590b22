use zdump_rs::tzif::parse;
use zdump_rs::tzif::TransitionRow;
use zdump_rs::witness::{
    footer_json, json_str, rows_to_json_array, transition_to_json, transition_to_text,
    transitions_to_json, transitions_to_text, WitnessRow,
};
use zdump_rs::tzif::{LeapSecond, TtInfo, Tzif};
use zdump_rs::Observation;

#[test]
fn json_escapes() {
    assert_eq!(json_str("EST"), "\"EST\"");
    assert_eq!(json_str("a\"b\\c"), "\"a\\\"b\\\\c\"");
}

#[test]
fn json_escapes_control_characters() {
    assert_eq!(json_str("a\nb\tc\r"), "\"a\\nb\\tc\\r\"");
    assert_eq!(json_str("\u{1}\u{1f}"), "\"\\u0001\\u001f\"");
    assert_eq!(json_str("é"), "\"é\"");
}

fn utc_v1() -> Vec<u8> {
    let mut b = Vec::new();
    b.extend_from_slice(b"TZif");
    b.push(0);
    b.extend_from_slice(&[0u8; 15]);
    for v in [0u32, 0, 0, 0, 1, 4] {
        b.extend_from_slice(&v.to_be_bytes());
    }
    b.extend_from_slice(&0i32.to_be_bytes());
    b.push(0);
    b.push(0);
    b.extend_from_slice(b"UTC\0");
    b
}

#[test]
fn rows_render_deterministically() {
    let z = parse(&utc_v1()).unwrap();
    let r = WitnessRow::build("fixtures/UTC.tzif", &z, 1_767_225_600);
    assert_eq!(
        r.to_json(),
        "{\"zone_file\":\"fixtures/UTC.tzif\",\"at_utc\":\"2026-01-01T00:00:00Z\",\"at_unix\":1767225600,\"utoff_seconds\":0,\"is_dst\":false,\"abbr\":\"UTC\",\"beyond_explicit_transitions\":true}"
    );
    assert_eq!(
        r.to_text(),
        "fixtures/UTC.tzif  2026-01-01T00:00:00Z  UT+00:00:00  isdst=0  UTC  [beyond-explicit/footer-governed]"
    );
    let r2 = WitnessRow {
        zone_file: "x".to_string(),
        at_unix: -1,
        utoff: -18000,
        is_dst: true,
        abbr: "EDT".to_string(),
        beyond_explicit: false,
    };
    assert_eq!(r2.to_text(), "x  1969-12-31T23:59:59Z  UT-05:00:00  isdst=1  EDT");
    let arr = rows_to_json_array(&[r, r2]);
    assert!(arr.starts_with("[\n  {\"zone_file\":\"fixtures/UTC.tzif\""));
    assert!(arr.contains("true},\n  {\"zone_file\":\"x\""));
    assert!(arr.ends_with("\"beyond_explicit_transitions\":false}\n]\n"));
    assert_eq!(rows_to_json_array(&[]), "[\n]\n");
}

#[test]
fn transition_rows_render() {
    let tr = TransitionRow {
        at: 1000,
        before: Observation { utoff: -18000, is_dst: false, abbr: "EST".to_string() },
        after: Observation { utoff: -14400, is_dst: true, abbr: "EDT".to_string() },
    };
    assert_eq!(
        transition_to_json("z.tzif", &tr),
        "{\"zone_file\":\"z.tzif\",\"at_utc\":\"1970-01-01T00:16:40Z\",\"at_unix\":1000,\"before\":{\"utoff_seconds\":-18000,\"is_dst\":false,\"abbr\":\"EST\"},\"after\":{\"utoff_seconds\":-14400,\"is_dst\":true,\"abbr\":\"EDT\"}}"
    );
    assert_eq!(
        transition_to_text(&tr),
        "1970-01-01T00:16:40Z  EST utoff=-18000 isdst=0 -> EDT utoff=-14400 isdst=1"
    );
}

fn small_zone(footer: Option<&str>) -> Tzif {
    Tzif {
        version: 2,
        transitions: vec![1000, 2000],
        type_indices: vec![1, 0],
        types: vec![
            TtInfo { utoff: -18000, is_dst: false, abbr: "EST".to_string() },
            TtInfo { utoff: -14400, is_dst: true, abbr: "EDT".to_string() },
        ],
        leaps: vec![
            LeapSecond { occur: 78796800, corr: 1 },
            LeapSecond { occur: 94694401, corr: 2 },
        ],
        footer: footer.map(|f| f.to_string()),
    }
}

#[test]
fn footer_json_quotes_or_null() {
    assert_eq!(footer_json(&small_zone(Some("EST5EDT,M3.2.0,M11.1.0"))), "\"EST5EDT,M3.2.0,M11.1.0\"");
    assert_eq!(footer_json(&small_zone(None)), "null");
}

#[test]
fn transitions_document_json() {
    let z = small_zone(Some("EST5"));
    let trs = z.transitions_in(0, 1500);
    let doc = transitions_to_json("z.tzif", &z, 1970, 1970, &trs, true);
    assert_eq!(
        doc,
        "{\"zone_file\":\"z.tzif\",\"from_year\":1970,\"to_year\":1970,\"footer\":\"EST5\",\"transitions\":[\n  \
         {\"zone_file\":\"z.tzif\",\"at_utc\":\"1970-01-01T00:16:40Z\",\"at_unix\":1000,\"before\":{\"utoff_seconds\":-18000,\"is_dst\":false,\"abbr\":\"EST\"},\"after\":{\"utoff_seconds\":-14400,\"is_dst\":true,\"abbr\":\"EDT\"}}\n\
         ],\"leaps\":[{\"occur_utc\":\"1972-07-01T00:00:00Z\",\"occur_unix\":78796800,\"corr\":1},\
         {\"occur_utc\":\"1973-01-01T00:00:01Z\",\"occur_unix\":94694401,\"corr\":2}]}\n"
    );
    let none = transitions_to_json("z.tzif", &small_zone(None), 1, 2, &[], false);
    assert_eq!(
        none,
        "{\"zone_file\":\"z.tzif\",\"from_year\":1,\"to_year\":2,\"footer\":null,\"transitions\":[\n]}\n"
    );
}

#[test]
fn transitions_document_text() {
    let z = small_zone(None);
    let trs = z.transitions_in(0, 3000);
    let doc = transitions_to_text(&z, 1900, 2040, &trs, true);
    assert_eq!(
        doc,
        "# 2 transitions in [1900,2040]  (footer: <none>)\n\
         1970-01-01T00:16:40Z  EST utoff=-18000 isdst=0 -> EDT utoff=-14400 isdst=1\n\
         1970-01-01T00:33:20Z  EDT utoff=-14400 isdst=1 -> EST utoff=-18000 isdst=0\n\
         # 2 leap records\n\
         leap 1972-07-01T00:00:00Z  corr=1\n\
         leap 1973-01-01T00:00:01Z  corr=2\n"
    );
}

/// Reads a JSON string literal back (the escapes `json_str` can emit).
fn read_json_string(lit: &str) -> String {
    let body = &lit[1..lit.len() - 1];
    let mut out = String::new();
    let mut it = body.chars();
    while let Some(c) = it.next() {
        if c != '\\' {
            out.push(c);
            continue;
        }
        match it.next().unwrap() {
            'n' => out.push('\n'),
            'r' => out.push('\r'),
            't' => out.push('\t'),
            'u' => {
                let hex: String = (0..4).map(|_| it.next().unwrap()).collect();
                out.push(char::from_u32(u32::from_str_radix(&hex, 16).unwrap()).unwrap());
            }
            other => out.push(other),
        }
    }
    out
}

#[test]
fn json_str_reads_back() {
    for s in ["", "UTC", "a\"b\\c", "\u{0}\u{8}\u{1f} x\n\r\t", "é∑😀", "<+0330>"] {
        let lit = json_str(s);
        assert!(lit.starts_with('"') && lit.ends_with('"'));
        assert!(lit.chars().all(|c| (c as u32) >= 0x20));
        assert_eq!(read_json_string(&lit), s);
    }
}
