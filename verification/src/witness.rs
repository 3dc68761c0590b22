//! Deterministic JSON witness rows — the evidence surface this tool exists to produce.
//!
//! A *witness row* records, for one TZif file at one explicit instant, what the reader observed:
//! UT offset, DST flag, abbreviation, and whether the answer fell beyond the explicit transition
//! table. Rows are stable and order-preserving so they can be diffed against reference `zdump`.
use vstd::prelude::*;
use crate::civil::{format_iso_utc, iso_text};
use crate::text::{
    bool_text, chars_of, debug_quoted, digit_char, hex_digits, hex_digits_of, int_text,
    padded_int, push_bool, push_chars, push_int, push_padded_int, push_str, repeat_char,
    str_debug, string_of,
};
use crate::tzif::{beyond_spec, observe_spec, LeapSecond, LocalTime, Observation, RowModel, TransitionRow, Tzif};

verus! {

/// One observation row.
pub struct WitnessRow {
    pub zone_file: String,
    pub at_unix: i64,
    pub utoff: i32,
    pub is_dst: bool,
    pub abbr: String,
    pub beyond_explicit: bool,
}

/// A witness row as mathematical values.
pub struct RowText {
    pub zone_file: Seq<char>,
    pub at_unix: i64,
    pub utoff: i32,
    pub is_dst: bool,
    pub abbr: Seq<char>,
    pub beyond_explicit: bool,
}

impl View for WitnessRow {
    type V = RowText;

    open spec fn view(&self) -> RowText {
        RowText {
            zone_file: self.zone_file@,
            at_unix: self.at_unix,
            utoff: self.utoff,
            is_dst: self.is_dst,
            abbr: self.abbr@,
            beyond_explicit: self.beyond_explicit,
        }
    }
}

// ---------------------------------------------------------------------------
// JSON strings.
// ---------------------------------------------------------------------------

/// The JSON escape of one character: `"`, `\`, newline, carriage return and tab by their short
/// escapes, other control characters as `\u00XX`, everything else as itself.
pub open spec fn json_escape_char(c: char) -> Seq<char> {
    if c == '"' {
        seq!['\\', '"']
    } else if c == '\\' {
        seq!['\\', '\\']
    } else if c == '\n' {
        seq!['\\', 'n']
    } else if c == '\r' {
        seq!['\\', 'r']
    } else if c == '\t' {
        seq!['\\', 't']
    } else if (c as u32) < 0x20 {
        seq!['\\', 'u'] + repeat_char('0', 4 - hex_digits(c as u32 as nat).len()) + hex_digits(
            c as u32 as nat,
        )
    } else {
        seq![c]
    }
}

/// The JSON escape of a character sequence, character by character.
pub open spec fn json_escape(s: Seq<char>) -> Seq<char>
    decreases s.len(),
{
    if s.len() == 0 {
        Seq::empty()
    } else {
        json_escape(s.drop_last()) + json_escape_char(s.last())
    }
}

/// A JSON string literal holding `s`.
#[verifier::opaque]
pub open spec fn json_quote(s: Seq<char>) -> Seq<char> {
    seq!['"'] + json_escape(s) + seq!['"']
}

fn push_json_escape_char(out: &mut Vec<char>, c: char)
    ensures
        final(out)@ == old(out)@ + json_escape_char(c),
{
    let ghost start = out@;
    if c == '"' {
        out.push('\\');
        out.push('"');
    } else if c == '\\' {
        out.push('\\');
        out.push('\\');
    } else if c == '\n' {
        out.push('\\');
        out.push('n');
    } else if c == '\r' {
        out.push('\\');
        out.push('r');
    } else if c == '\t' {
        out.push('\\');
        out.push('t');
    } else if (c as u32) < 0x20 {
        out.push('\\');
        out.push('u');
        let hx = hex_digits_of(c as u32 as u128);
        proof {
            let n = c as u32 as nat;
            if n >= 16 {
                assert(n / 16 < 16);
                assert(hex_digits(n / 16).len() == 1);
            }
        }
        let mut k: usize = hx.len();
        let ghost mid = out@;
        while k < 4
            invariant
                hx.len() <= k <= 4,
                out@ == mid + repeat_char('0', k - hx.len()),
            decreases 4 - k,
        {
            out.push('0');
            k = k + 1;
        }
        push_chars(out, &hx);
        assert(out@ == start + json_escape_char(c));
    } else {
        out.push(c);
    }
}

/// Minimal RFC-8259 string escaper: the quoted, escaped form of `s`.
pub fn json_str(s: &str) -> (r: String)
    ensures
        r@ == json_quote(s@),
{
    let cs = chars_of(s);
    let mut out: Vec<char> = Vec::new();
    out.push('"');
    let mut i: usize = 0;
    while i < cs.len()
        invariant
            i <= cs.len(),
            out@ == seq!['"'] + json_escape(cs@.take(i as int)),
        decreases cs.len() - i,
    {
        assert(cs@.take(i + 1).drop_last() == cs@.take(i as int));
        push_json_escape_char(&mut out, cs[i]);
        i = i + 1;
    }
    assert(cs@.take(cs.len() as int) == cs@);
    out.push('"');
    proof { reveal(json_quote); }
    string_of(&out)
}

// ---------------------------------------------------------------------------
// Rows.
// ---------------------------------------------------------------------------

/// The canonical JSON object of a row (fixed field order, no trailing newline).
#[verifier::opaque]
pub open spec fn row_json(r: RowText) -> Seq<char> {
    "{\"zone_file\":"@ + json_quote(r.zone_file) + ",\"at_utc\":"@ + json_quote(
        iso_text(r.at_unix as int),
    ) + ",\"at_unix\":"@ + int_text(r.at_unix as int) + ",\"utoff_seconds\":"@ + int_text(
        r.utoff as int,
    ) + ",\"is_dst\":"@ + bool_text(r.is_dst) + ",\"abbr\":"@ + json_quote(r.abbr)
        + ",\"beyond_explicit_transitions\":"@ + bool_text(r.beyond_explicit) + "}"@
}

/// The compact human line of a row.
pub open spec fn row_line(r: RowText) -> Seq<char> {
    let a: int = if r.utoff < 0 { -(r.utoff as int) } else { r.utoff as int };
    r.zone_file + "  "@ + iso_text(r.at_unix as int) + "  UT"@ + (if r.utoff < 0 {
        seq!['-']
    } else {
        seq!['+']
    }) + padded_int(a / 3600, 2) + seq![':'] + padded_int((a % 3600) / 60, 2) + seq![':']
        + padded_int(a % 60, 2) + "  isdst="@ + (if r.is_dst {
        seq!['1']
    } else {
        seq!['0']
    }) + "  "@ + r.abbr + (if r.beyond_explicit {
        "  [beyond-explicit/footer-governed]"@
    } else {
        Seq::empty()
    })
}

/// The JSON array of rows: one row per line, each indented by two spaces and followed by a comma
/// except the last, wrapped in `[` and `]` lines.
pub open spec fn rows_json(rows: Seq<RowText>) -> Seq<char> {
    "[\n"@ + rows_json_body(rows, rows.len()) + "]\n"@
}

/// The lines of the first `n` rows of the array.
pub open spec fn rows_json_body(rows: Seq<RowText>, n: nat) -> Seq<char>
    decreases n,
{
    if n == 0 {
        Seq::empty()
    } else {
        rows_json_body(rows, (n - 1) as nat) + "  "@ + row_json(rows[n - 1]) + (if n < rows.len() {
            ","@
        } else {
            ""@
        }) + "\n"@
    }
}

impl WitnessRow {
    /// The row for `zone_file` at `at_unix`: what the table observes there, and whether the
    /// instant lies beyond the explicit transitions.
    pub fn build(zone_file: &str, z: &Tzif, at_unix: i64) -> (r: WitnessRow)
        requires
            z.wf(),
        ensures
            r.zone_file@ == zone_file@,
            r.at_unix == at_unix,
            (LocalTime { utoff: r.utoff, is_dst: r.is_dst, abbr: r.abbr@ }) == observe_spec(
                z@,
                at_unix as int,
            ),
            r.beyond_explicit == beyond_spec(z@, at_unix as int),
    {
        let o = z.observe(at_unix);
        let zf = zone_file.to_owned();
        WitnessRow {
            zone_file: zf,
            at_unix,
            utoff: o.utoff,
            is_dst: o.is_dst,
            abbr: o.abbr,
            beyond_explicit: z.beyond_explicit(at_unix),
        }
    }

    /// One canonical JSON object (no trailing newline). Field order is fixed for deterministic
    /// diffs.
    pub fn to_json(&self) -> (s: String)
        ensures
            s@ == row_json(self@),
    {
        let mut out: Vec<char> = Vec::new();
        self.push_json(&mut out);
        string_of(&out)
    }

    fn push_json(&self, out: &mut Vec<char>)
        ensures
            final(out)@ == old(out)@ + row_json(self@),
    {
        let ghost start = out@;
        self.push_json_head(out);
        let ghost mid = out@;
        self.push_json_tail(out);
        proof { reveal(row_json); }
        assert(out@ =~= start + row_json(self@));
    }

    fn push_json_head(&self, out: &mut Vec<char>)
        ensures
            final(out)@ == old(out)@ + ("{\"zone_file\":"@ + json_quote(self.zone_file@)
                + ",\"at_utc\":"@ + json_quote(iso_text(self.at_unix as int)) + ",\"at_unix\":"@
                + int_text(self.at_unix as int)),
    {
        let ghost start = out@;
        push_str(out, "{\"zone_file\":");
        let q = json_str(self.zone_file.as_str());
        push_str(out, q.as_str());
        push_str(out, ",\"at_utc\":");
        let stamp = format_iso_utc(self.at_unix);
        let q = json_str(stamp.as_str());
        push_str(out, q.as_str());
        push_str(out, ",\"at_unix\":");
        push_int(out, self.at_unix as i128);
        assert(out@ =~= start + ("{\"zone_file\":"@ + json_quote(self.zone_file@)
            + ",\"at_utc\":"@ + json_quote(iso_text(self.at_unix as int)) + ",\"at_unix\":"@
            + int_text(self.at_unix as int)));
    }

    fn push_json_tail(&self, out: &mut Vec<char>)
        ensures
            final(out)@ == old(out)@ + (",\"utoff_seconds\":"@ + int_text(self.utoff as int)
                + ",\"is_dst\":"@ + bool_text(self.is_dst) + ",\"abbr\":"@ + json_quote(self.abbr@)
                + ",\"beyond_explicit_transitions\":"@ + bool_text(self.beyond_explicit) + "}"@),
    {
        let ghost start = out@;
        push_str(out, ",\"utoff_seconds\":");
        push_int(out, self.utoff as i128);
        push_str(out, ",\"is_dst\":");
        push_bool(out, self.is_dst);
        push_str(out, ",\"abbr\":");
        let q = json_str(self.abbr.as_str());
        push_str(out, q.as_str());
        push_str(out, ",\"beyond_explicit_transitions\":");
        push_bool(out, self.beyond_explicit);
        push_str(out, "}");
        assert(out@ =~= start + (",\"utoff_seconds\":"@ + int_text(self.utoff as int)
            + ",\"is_dst\":"@ + bool_text(self.is_dst) + ",\"abbr\":"@ + json_quote(self.abbr@)
            + ",\"beyond_explicit_transitions\":"@ + bool_text(self.beyond_explicit) + "}"@));
    }

    /// A compact human line (not a stability contract — the JSON is the contract).
    pub fn to_text(&self) -> (s: String)
        ensures
            s@ == row_line(self@),
    {
        let mut out: Vec<char> = Vec::new();
        let ghost start = out@;
        push_str(&mut out, self.zone_file.as_str());
        push_str(&mut out, "  ");
        let stamp = format_iso_utc(self.at_unix);
        push_str(&mut out, stamp.as_str());
        push_str(&mut out, "  UT");
        out.push(if self.utoff < 0 { '-' } else { '+' });
        let a: i128 = if self.utoff < 0 { -(self.utoff as i128) } else { self.utoff as i128 };
        let ghost mid = out@;
        assert(mid =~= self.zone_file@ + "  "@ + iso_text(self.at_unix as int) + "  UT"@ + (if self.utoff
            < 0 {
            seq!['-']
        } else {
            seq!['+']
        }));
        push_padded_int(&mut out, a / 3600, 2);
        out.push(':');
        push_padded_int(&mut out, (a % 3600) / 60, 2);
        out.push(':');
        push_padded_int(&mut out, a % 60, 2);
        push_str(&mut out, "  isdst=");
        out.push(if self.is_dst { '1' } else { '0' });
        push_str(&mut out, "  ");
        push_str(&mut out, self.abbr.as_str());
        let ghost mid2 = out@;
        if self.beyond_explicit {
            push_str(&mut out, "  [beyond-explicit/footer-governed]");
        }
        assert(out@ =~= mid2 + (if self.beyond_explicit {
            "  [beyond-explicit/footer-governed]"@
        } else {
            Seq::empty()
        }));
        assert(out@ =~= row_line(self@));
        string_of(&out)
    }
}

/// Render a slice of rows as a stable, pretty JSON array (the witness artifact).
pub fn rows_to_json_array(rows: &[WitnessRow]) -> (s: String)
    ensures
        s@ == rows_json(rows@.map_values(|r: WitnessRow| r@)),
{
    let ghost rs = rows@.map_values(|r: WitnessRow| r@);
    let mut out: Vec<char> = Vec::new();
    push_str(&mut out, "[\n");
    let mut k: usize = 0;
    while k < rows.len()
        invariant
            k <= rows.len(),
            rs == rows@.map_values(|r: WitnessRow| r@),
            out@ == "[\n"@ + rows_json_body(rs, k as nat),
        decreases rows.len() - k,
    {
        let ghost before = out@;
        push_str(&mut out, "  ");
        rows[k].push_json(&mut out);
        if k + 1 < rows.len() {
            push_str(&mut out, ",");
        } else {
            push_str(&mut out, "");
        }
        push_str(&mut out, "\n");
        assert(rs[k as int] == rows@[k as int]@);
        assert(out@ =~= before + ("  "@ + row_json(rs[k as int]) + (if k + 1 < rows.len() {
            ","@
        } else {
            ""@
        }) + "\n"@));
        k = k + 1;
    }
    push_str(&mut out, "]\n");
    string_of(&out)
}

// ---------------------------------------------------------------------------
// Transition rows.
// ---------------------------------------------------------------------------

/// The JSON object of an observation: offset, DST flag, abbreviation.
#[verifier::opaque]
pub open spec fn observation_json(o: LocalTime) -> Seq<char> {
    "{\"utoff_seconds\":"@ + int_text(o.utoff as int) + ",\"is_dst\":"@ + bool_text(o.is_dst)
        + ",\"abbr\":"@ + json_quote(o.abbr) + "}"@
}

/// The JSON object of an explicit transition of `zone_file`: its instant (rendered and as
/// seconds), then the observation before it and at it.
pub open spec fn transition_json(zone_file: Seq<char>, r: RowModel) -> Seq<char> {
    "{\"zone_file\":"@ + json_quote(zone_file) + ",\"at_utc\":"@ + json_quote(iso_text(r.at as int))
        + ",\"at_unix\":"@ + int_text(r.at as int) + ",\"before\":"@ + observation_json(r.before)
        + ",\"after\":"@ + observation_json(r.after) + "}"@
}

/// The human line of an explicit transition: its instant, then `before -> after`, each as
/// abbreviation, UT offset in seconds and DST flag.
pub open spec fn transition_line(r: RowModel) -> Seq<char> {
    iso_text(r.at as int) + "  "@ + r.before.abbr + " utoff="@ + int_text(r.before.utoff as int)
        + " isdst="@ + (if r.before.is_dst { seq!['1'] } else { seq!['0'] }) + " -> "@
        + r.after.abbr + " utoff="@ + int_text(r.after.utoff as int) + " isdst="@ + (
    if r.after.is_dst {
        seq!['1']
    } else {
        seq!['0']
    })
}

fn push_observation_json(out: &mut Vec<char>, o: &Observation)
    ensures
        final(out)@ == old(out)@ + observation_json(o@),
{
    let ghost start = out@;
    push_str(out, "{\"utoff_seconds\":");
    push_int(out, o.utoff as i128);
    push_str(out, ",\"is_dst\":");
    push_bool(out, o.is_dst);
    push_str(out, ",\"abbr\":");
    let q = json_str(o.abbr.as_str());
    push_str(out, q.as_str());
    push_str(out, "}");
    proof { reveal(observation_json); }
    assert(out@ =~= start + observation_json(o@));
}

/// One explicit transition as a JSON object (no trailing newline).
pub fn transition_to_json(zone_file: &str, tr: &TransitionRow) -> (s: String)
    ensures
        s@ == transition_json(zone_file@, tr@),
{
    let mut out: Vec<char> = Vec::new();
    push_str(&mut out, "{\"zone_file\":");
    let q = json_str(zone_file);
    push_str(&mut out, q.as_str());
    push_str(&mut out, ",\"at_utc\":");
    let stamp = format_iso_utc(tr.at);
    let q = json_str(stamp.as_str());
    push_str(&mut out, q.as_str());
    push_str(&mut out, ",\"at_unix\":");
    push_int(&mut out, tr.at as i128);
    let ghost mid = out@;
    assert(mid =~= "{\"zone_file\":"@ + json_quote(zone_file@) + ",\"at_utc\":"@ + json_quote(
        iso_text(tr.at as int),
    ) + ",\"at_unix\":"@ + int_text(tr.at as int));
    push_str(&mut out, ",\"before\":");
    push_observation_json(&mut out, &tr.before);
    push_str(&mut out, ",\"after\":");
    push_observation_json(&mut out, &tr.after);
    push_str(&mut out, "}");
    assert(out@ =~= mid + (",\"before\":"@ + observation_json(tr.before@) + ",\"after\":"@
        + observation_json(tr.after@) + "}"@));
    assert(out@ =~= transition_json(zone_file@, tr@));
    string_of(&out)
}

/// One explicit transition as a compact human line.
pub fn transition_to_text(tr: &TransitionRow) -> (s: String)
    ensures
        s@ == transition_line(tr@),
{
    let mut out: Vec<char> = Vec::new();
    let stamp = format_iso_utc(tr.at);
    push_str(&mut out, stamp.as_str());
    push_str(&mut out, "  ");
    push_str(&mut out, tr.before.abbr.as_str());
    push_str(&mut out, " utoff=");
    push_int(&mut out, tr.before.utoff as i128);
    push_str(&mut out, " isdst=");
    out.push(if tr.before.is_dst { '1' } else { '0' });
    let ghost mid = out@;
    assert(mid =~= iso_text(tr.at as int) + "  "@ + tr.before.abbr@ + " utoff="@ + int_text(
        tr.before.utoff as int,
    ) + " isdst="@ + (if tr.before.is_dst { seq!['1'] } else { seq!['0'] }));
    push_str(&mut out, " -> ");
    push_str(&mut out, tr.after.abbr.as_str());
    push_str(&mut out, " utoff=");
    push_int(&mut out, tr.after.utoff as i128);
    push_str(&mut out, " isdst=");
    out.push(if tr.after.is_dst { '1' } else { '0' });
    assert(out@ =~= mid + (" -> "@ + tr.after.abbr@ + " utoff="@ + int_text(
        tr.after.utoff as int,
    ) + " isdst="@ + (if tr.after.is_dst { seq!['1'] } else { seq!['0'] })));
    assert(out@ =~= transition_line(tr@));
    string_of(&out)
}

// ---------------------------------------------------------------------------
// The transitions document.
// ---------------------------------------------------------------------------

/// The JSON value of a footer: its Debug-quoted text (`{:?}`), or `null` when there is none.
pub open spec fn footer_json_text(f: Option<Seq<char>>) -> Seq<char> {
    match f {
        Some(t) => str_debug(t),
        None => "null"@,
    }
}

/// The lines of the first `n` transition objects of the document: each indented by two spaces
/// and followed by a comma except the last.
pub open spec fn transition_items_json(zone_file: Seq<char>, rows: Seq<RowModel>, n: nat) -> Seq<
    char,
>
    decreases n,
{
    if n == 0 {
        Seq::empty()
    } else {
        transition_items_json(zone_file, rows, (n - 1) as nat) + "  "@ + transition_json(
            zone_file,
            rows[n - 1],
        ) + (if n < rows.len() {
            ","@
        } else {
            ""@
        }) + "\n"@
    }
}

/// The JSON object of a leap-second record: its instant rendered and Debug-quoted, the instant
/// in seconds, and the cumulative correction.
pub open spec fn leap_json(l: LeapSecond) -> Seq<char> {
    "{\"occur_utc\":"@ + str_debug(iso_text(l.occur as int)) + ",\"occur_unix\":"@ + int_text(
        l.occur as int,
    ) + ",\"corr\":"@ + int_text(l.corr as int) + "}"@
}

/// The first `n` leap objects, separated by commas.
pub open spec fn leap_items_json(leaps: Seq<LeapSecond>, n: nat) -> Seq<char>
    decreases n,
{
    if n == 0 {
        Seq::empty()
    } else {
        leap_items_json(leaps, (n - 1) as nat) + leap_json(leaps[n - 1]) + (if n < leaps.len() {
            ","@
        } else {
            ""@
        })
    }
}

/// The transitions document in JSON: the zone file (Debug-quoted), the year window, the footer,
/// one transition object per line, and, when asked for, the leap records.
pub open spec fn transitions_doc_json(
    zone_file: Seq<char>,
    from_year: int,
    to_year: int,
    footer: Option<Seq<char>>,
    rows: Seq<RowModel>,
    leaps: Seq<LeapSecond>,
    want_leaps: bool,
) -> Seq<char> {
    "{\"zone_file\":"@ + str_debug(zone_file) + ",\"from_year\":"@ + int_text(from_year)
        + ",\"to_year\":"@ + int_text(to_year) + ",\"footer\":"@ + footer_json_text(footer)
        + ",\"transitions\":[\n"@ + transition_items_json(zone_file, rows, rows.len()) + "]"@ + (
    if want_leaps {
        ",\"leaps\":["@ + leap_items_json(leaps, leaps.len()) + "]"@
    } else {
        ""@
    }) + "}\n"@
}

/// The lines of the first `n` transitions of the text document.
pub open spec fn transition_items_text(rows: Seq<RowModel>, n: nat) -> Seq<char>
    decreases n,
{
    if n == 0 {
        Seq::empty()
    } else {
        transition_items_text(rows, (n - 1) as nat) + transition_line(rows[n - 1]) + "\n"@
    }
}

/// The lines of the first `n` leap records of the text document.
pub open spec fn leap_items_text(leaps: Seq<LeapSecond>, n: nat) -> Seq<char>
    decreases n,
{
    if n == 0 {
        Seq::empty()
    } else {
        leap_items_text(leaps, (n - 1) as nat) + "leap "@ + iso_text(leaps[n - 1].occur as int)
            + "  corr="@ + int_text(leaps[n - 1].corr as int) + "\n"@
    }
}

/// The transitions document as text: a header line with the count, the year window and the
/// footer, one line per transition, and, when asked for, the leap records.
pub open spec fn transitions_doc_text(
    from_year: int,
    to_year: int,
    footer: Option<Seq<char>>,
    rows: Seq<RowModel>,
    leaps: Seq<LeapSecond>,
    want_leaps: bool,
) -> Seq<char> {
    "# "@ + int_text(rows.len() as int) + " transitions in ["@ + int_text(from_year) + ","@
        + int_text(to_year) + "]  (footer: "@ + (match footer {
        Some(f) => f,
        None => "<none>"@,
    }) + ")\n"@ + transition_items_text(rows, rows.len()) + (if want_leaps {
        "# "@ + int_text(leaps.len() as int) + " leap records\n"@ + leap_items_text(
            leaps,
            leaps.len(),
        )
    } else {
        ""@
    })
}

/// The footer of `z` as a JSON value: Debug-quoted, or `null` when there is none.
pub fn footer_json(z: &Tzif) -> (s: String)
    ensures
        s@ == footer_json_text(z@.footer),
{
    match &z.footer {
        Some(f) => debug_quoted(f.as_str()),
        None => "null".to_string(),
    }
}

fn push_transition_items_json(out: &mut Vec<char>, zone_file: &str, trs: &[TransitionRow])
    ensures
        final(out)@ == old(out)@ + transition_items_json(
            zone_file@,
            trs@.map_values(|r: TransitionRow| r@),
            trs.len() as nat,
        ),
{
    let ghost rs = trs@.map_values(|r: TransitionRow| r@);
    let ghost start = out@;
    let mut k: usize = 0;
    while k < trs.len()
        invariant
            k <= trs.len(),
            rs == trs@.map_values(|r: TransitionRow| r@),
            out@ == start + transition_items_json(zone_file@, rs, k as nat),
        decreases trs.len() - k,
    {
        let ghost before = out@;
        push_str(out, "  ");
        let item = transition_to_json(zone_file, &trs[k]);
        push_str(out, item.as_str());
        if k + 1 < trs.len() {
            push_str(out, ",");
        } else {
            push_str(out, "");
        }
        push_str(out, "\n");
        assert(rs[k as int] == trs@[k as int]@);
        assert(out@ =~= before + ("  "@ + transition_json(zone_file@, rs[k as int]) + (if k + 1
            < trs.len() {
            ","@
        } else {
            ""@
        }) + "\n"@));
        k = k + 1;
    }
}

fn push_leap_items_json(out: &mut Vec<char>, leaps: &[LeapSecond])
    ensures
        final(out)@ == old(out)@ + leap_items_json(leaps@, leaps.len() as nat),
{
    let ghost start = out@;
    let mut k: usize = 0;
    while k < leaps.len()
        invariant
            k <= leaps.len(),
            out@ == start + leap_items_json(leaps@, k as nat),
        decreases leaps.len() - k,
    {
        let ghost before = out@;
        let l = leaps[k];
        push_str(out, "{\"occur_utc\":");
        let stamp = format_iso_utc(l.occur);
        let q = debug_quoted(stamp.as_str());
        push_str(out, q.as_str());
        push_str(out, ",\"occur_unix\":");
        push_int(out, l.occur as i128);
        push_str(out, ",\"corr\":");
        push_int(out, l.corr as i128);
        push_str(out, "}");
        if k + 1 < leaps.len() {
            push_str(out, ",");
        } else {
            push_str(out, "");
        }
        assert(out@ =~= before + (leap_json(l) + (if k + 1 < leaps.len() {
            ","@
        } else {
            ""@
        })));
        k = k + 1;
    }
}

/// The transitions document in JSON for the rows `trs` of `z`, listed for the years
/// `from_year..=to_year`, with the leap records when `want_leaps`.
pub fn transitions_to_json(
    zone_file: &str,
    z: &Tzif,
    from_year: i64,
    to_year: i64,
    trs: &[TransitionRow],
    want_leaps: bool,
) -> (s: String)
    ensures
        s@ == transitions_doc_json(
            zone_file@,
            from_year as int,
            to_year as int,
            z@.footer,
            trs@.map_values(|r: TransitionRow| r@),
            z@.leaps,
            want_leaps,
        ),
{
    let mut out: Vec<char> = Vec::new();
    push_str(&mut out, "{\"zone_file\":");
    let q = debug_quoted(zone_file);
    push_str(&mut out, q.as_str());
    push_str(&mut out, ",\"from_year\":");
    push_int(&mut out, from_year as i128);
    push_str(&mut out, ",\"to_year\":");
    push_int(&mut out, to_year as i128);
    push_str(&mut out, ",\"footer\":");
    let f = footer_json(z);
    push_str(&mut out, f.as_str());
    push_str(&mut out, ",\"transitions\":[\n");
    let ghost head = out@;
    push_transition_items_json(&mut out, zone_file, trs);
    push_str(&mut out, "]");
    let ghost mid = out@;
    if want_leaps {
        push_str(&mut out, ",\"leaps\":[");
        push_leap_items_json(&mut out, z.leaps.as_slice());
        push_str(&mut out, "]");
    } else {
        push_str(&mut out, "");
    }
    push_str(&mut out, "}\n");
    assert(out@ =~= transitions_doc_json(
        zone_file@,
        from_year as int,
        to_year as int,
        z@.footer,
        trs@.map_values(|r: TransitionRow| r@),
        z@.leaps,
        want_leaps,
    ));
    string_of(&out)
}

/// The transitions document as text for the rows `trs` of `z`, listed for the years
/// `from_year..=to_year`, with the leap records when `want_leaps`.
pub fn transitions_to_text(
    z: &Tzif,
    from_year: i64,
    to_year: i64,
    trs: &[TransitionRow],
    want_leaps: bool,
) -> (s: String)
    ensures
        s@ == transitions_doc_text(
            from_year as int,
            to_year as int,
            z@.footer,
            trs@.map_values(|r: TransitionRow| r@),
            z@.leaps,
            want_leaps,
        ),
{
    let ghost rs = trs@.map_values(|r: TransitionRow| r@);
    let mut out: Vec<char> = Vec::new();
    push_str(&mut out, "# ");
    push_int(&mut out, trs.len() as i128);
    push_str(&mut out, " transitions in [");
    push_int(&mut out, from_year as i128);
    push_str(&mut out, ",");
    push_int(&mut out, to_year as i128);
    push_str(&mut out, "]  (footer: ");
    match &z.footer {
        Some(f) => push_str(&mut out, f.as_str()),
        None => push_str(&mut out, "<none>"),
    }
    push_str(&mut out, ")\n");
    let ghost head = out@;
    let mut k: usize = 0;
    while k < trs.len()
        invariant
            k <= trs.len(),
            rs == trs@.map_values(|r: TransitionRow| r@),
            out@ == head + transition_items_text(rs, k as nat),
        decreases trs.len() - k,
    {
        let ghost before = out@;
        let line = transition_to_text(&trs[k]);
        push_str(&mut out, line.as_str());
        push_str(&mut out, "\n");
        assert(rs[k as int] == trs@[k as int]@);
        assert(out@ =~= before + (transition_line(rs[k as int]) + "\n"@));
        k = k + 1;
    }
    let ghost mid = out@;
    if want_leaps {
        push_str(&mut out, "# ");
        push_int(&mut out, z.leaps.len() as i128);
        push_str(&mut out, " leap records\n");
        let ghost lhead = out@;
        let mut j: usize = 0;
        while j < z.leaps.len()
            invariant
                j <= z.leaps.len(),
                out@ == lhead + leap_items_text(z@.leaps, j as nat),
            decreases z.leaps.len() - j,
        {
            let ghost before = out@;
            let l = z.leaps[j];
            push_str(&mut out, "leap ");
            let stamp = format_iso_utc(l.occur);
            push_str(&mut out, stamp.as_str());
            push_str(&mut out, "  corr=");
            push_int(&mut out, l.corr as i128);
            push_str(&mut out, "\n");
            assert(out@ =~= before + ("leap "@ + iso_text(l.occur as int) + "  corr="@ + int_text(
                l.corr as int,
            ) + "\n"@));
            j = j + 1;
        }
        assert(out@ =~= mid + ("# "@ + int_text(z@.leaps.len() as int) + " leap records\n"@
            + leap_items_text(z@.leaps, z@.leaps.len())));
    } else {
        push_str(&mut out, "");
    }
    assert(out@ =~= transitions_doc_text(
        from_year as int,
        to_year as int,
        z@.footer,
        rs,
        z@.leaps,
        want_leaps,
    ));
    string_of(&out)
}

/// Law: text with no quote, no backslash and no control character is emitted verbatim between
/// quotes.
pub proof fn lemma_json_plain_text(s: Seq<char>)
    requires
        forall|i: int|
            0 <= i < s.len() ==> #[trigger] s[i] != '"' && s[i] != '\\' && (s[i] as u32) >= 0x20,
    ensures
        json_quote(s) == seq!['"'] + s + seq!['"'],
{
    lemma_json_escape_plain(s);
    reveal(json_quote);
}

proof fn lemma_json_escape_plain(s: Seq<char>)
    requires
        forall|i: int|
            0 <= i < s.len() ==> #[trigger] s[i] != '"' && s[i] != '\\' && (s[i] as u32) >= 0x20,
    ensures
        json_escape(s) == s,
    decreases s.len(),
{
    if s.len() > 0 {
        let p = s.drop_last();
        assert forall|i: int| 0 <= i < p.len() implies #[trigger] p[i] != '"' && p[i] != '\\'
            && (p[i] as u32) >= 0x20 by {
            assert(p[i] == s[i]);
        }
        lemma_json_escape_plain(p);
        let c = s.last();
        assert(c != '"' && c != '\\' && (c as u32) >= 0x20);
        assert(c != '\n' && c != '\r' && c != '\t');
        assert(s == p.push(c));
    }
}


// ---------------------------------------------------------------------------
// Reading JSON strings back.
// ---------------------------------------------------------------------------

/// The value of a hexadecimal digit (either case), or `None` for any other character.
pub open spec fn hex_value(c: char) -> Option<int> {
    let v = c as u32 as int;
    if 48 <= v <= 57 {
        Some(v - 48)
    } else if 97 <= v <= 102 {
        Some(v - 87)
    } else if 65 <= v <= 70 {
        Some(v - 55)
    } else {
        None
    }
}

/// The number four hexadecimal digits starting at `i` spell.
pub open spec fn hex4_at(e: Seq<char>, i: int) -> Option<int> {
    if i < 0 || i + 4 > e.len() {
        None
    } else {
        match (hex_value(e[i]), hex_value(e[i + 1]), hex_value(e[i + 2]), hex_value(e[i + 3])) {
            (Some(a), Some(b), Some(c), Some(d)) => Some(4096 * a + 256 * b + 16 * c + d),
            _ => None,
        }
    }
}

/// The escape sequence at the start of `e` (which begins with a backslash): the character it
/// stands for and its length. `\uXXXX` naming a surrogate, which RFC 8259 pairs with a second
/// escape, is not read here.
pub open spec fn json_escape_at(e: Seq<char>) -> Option<(char, int)> {
    if e.len() < 2 {
        None
    } else if e[1] == '"' {
        Some(('"', 2))
    } else if e[1] == '\\' {
        Some(('\\', 2))
    } else if e[1] == '/' {
        Some(('/', 2))
    } else if e[1] == 'b' {
        Some(('\x08', 2))
    } else if e[1] == 'f' {
        Some(('\x0c', 2))
    } else if e[1] == 'n' {
        Some(('\n', 2))
    } else if e[1] == 'r' {
        Some(('\r', 2))
    } else if e[1] == 't' {
        Some(('\t', 2))
    } else if e[1] == 'u' {
        match hex4_at(e, 2) {
            Some(v) => if v < 0xD800 || 0xE000 <= v {
                Some((v as char, 6))
            } else {
                None
            },
            None => None,
        }
    } else {
        None
    }
}

/// The characters the body of a JSON string literal (the text between its quotes) denotes, read
/// as RFC 8259 does: escapes stand for their characters, every other character for itself, and
/// an unescaped quote or control character makes the body ill-formed.
pub open spec fn json_unescape(e: Seq<char>) -> Option<Seq<char>>
    decreases e.len(),
{
    if e.len() == 0 {
        Some(Seq::empty())
    } else if e[0] == '\\' {
        match json_escape_at(e) {
            None => None,
            Some((c, k)) => match json_unescape(e.subrange(k, e.len() as int)) {
                None => None,
                Some(r) => Some(seq![c] + r),
            },
        }
    } else if e[0] == '"' || (e[0] as u32) < 0x20 {
        None
    } else {
        match json_unescape(e.subrange(1, e.len() as int)) {
            None => None,
            Some(r) => Some(seq![e[0]] + r),
        }
    }
}

/// The text a JSON string literal denotes: its body between the enclosing quotes, decoded.
pub open spec fn json_string_value(r: Seq<char>) -> Option<Seq<char>> {
    if r.len() >= 2 && r[0] == '"' && r.last() == '"' {
        json_unescape(r.subrange(1, r.len() - 1))
    } else {
        None
    }
}

/// Prepending `c` to a decoded text, when there is one.
pub open spec fn prepend(p: Seq<char>, r: Option<Seq<char>>) -> Option<Seq<char>> {
    match r {
        Some(x) => Some(p + x),
        None => None,
    }
}

proof fn lemma_unescape_char(c: char, rest: Seq<char>)
    ensures
        json_unescape(json_escape_char(c) + rest) == prepend(seq![c], json_unescape(rest)),
        forall|i: int|
            0 <= i < json_escape_char(c).len() ==> (#[trigger] json_escape_char(c)[i] as u32)
                >= 0x20,
{
    let esc = json_escape_char(c);
    let e = esc + rest;
    if c == '"' || c == '\\' || c == '\n' || c == '\r' || c == '\t' {
        assert(e.subrange(2, e.len() as int) == rest);
    } else if (c as u32) < 0x20 {
        let n = c as u32 as nat;
        let h = hex_digits(n);
        if n < 16 {
            assert(h == seq![digit_char(n as int)]);
            assert(repeat_char('0', 3) == seq!['0', '0', '0']) by {
                reveal_with_fuel(repeat_char, 4);
            }
        } else {
            assert(n / 16 == 1);
            assert(hex_digits(1) == seq![digit_char(1)]);
            assert(h == seq![digit_char(1), digit_char((n % 16) as int)]);
            assert(repeat_char('0', 2) == seq!['0', '0']) by {
                reveal_with_fuel(repeat_char, 3);
            }
        }
        assert(esc.len() == 6);
        assert(hex_value(e[2]) == Some(0int));
        assert(hex_value(e[3]) == Some(0int));
        assert(hex4_at(e, 2) == Some(n as int));
        assert(((n as int) as char) == c);
        assert(e.subrange(6, e.len() as int) == rest);
    } else {
        assert(e.subrange(1, e.len() as int) == rest);
    }
}

proof fn lemma_unescape_escape(s: Seq<char>, rest: Seq<char>)
    ensures
        json_unescape(json_escape(s) + rest) == prepend(s, json_unescape(rest)),
        forall|i: int|
            0 <= i < json_escape(s).len() ==> (#[trigger] json_escape(s)[i] as u32) >= 0x20,
    decreases s.len(),
{
    if s.len() == 0 {
        assert(json_escape(s) + rest == rest);
        match json_unescape(rest) {
            Some(x) => assert(s + x == x),
            None => {},
        }
    } else {
        let p = s.drop_last();
        let c = s.last();
        lemma_unescape_char(c, rest);
        lemma_unescape_escape(p, json_escape_char(c) + rest);
        assert(json_escape(s) + rest == json_escape(p) + (json_escape_char(c) + rest));
        match json_unescape(rest) {
            Some(x) => assert(p + (seq![c] + x) == s + x),
            None => {},
        }
        assert forall|i: int| 0 <= i < json_escape(s).len() implies (#[trigger] json_escape(
            s,
        )[i] as u32) >= 0x20 by {
            if i >= json_escape(p).len() {
                assert(json_escape(s)[i] == json_escape_char(c)[i - json_escape(p).len()]);
            } else {
                assert(json_escape(s)[i] == json_escape(p)[i]);
            }
        }
    }
}

/// Law: what [`json_str`] renders is a JSON string literal without raw control characters, and
/// reading it back as JSON gives exactly the text it was made from.
pub proof fn lemma_json_str_round_trip(s: Seq<char>)
    ensures
        json_string_value(json_quote(s)) == Some(s),
        forall|i: int| 0 <= i < json_quote(s).len() ==> (#[trigger] json_quote(s)[i] as u32) >= 0x20,
{
    reveal(json_quote);
    let q = json_quote(s);
    lemma_unescape_escape(s, Seq::empty());
    assert(json_escape(s) + Seq::<char>::empty() == json_escape(s));
    assert(q.subrange(1, q.len() - 1) == json_escape(s));
    assert(s + Seq::<char>::empty() == s);
    assert forall|i: int| 0 <= i < q.len() implies (#[trigger] q[i] as u32) >= 0x20 by {
        if 0 < i < q.len() - 1 {
            assert(q[i] == json_escape(s)[i - 1]);
        }
    }
}


/// Law: a row's text shows its UT offset right after the zone file, the instant and `UT`: a
/// sign (`-` exactly when the offset is negative), then hours, minutes and seconds, each
/// zero-padded to two digits and separated by `:`, with minutes and seconds below 60 and
/// hours·3600 + minutes·60 + seconds equal to the offset's magnitude.
pub proof fn lemma_row_line_offset(r: RowText)
    ensures
        exists|hh: int, mm: int, ss: int, rest: Seq<char>|
            #![trigger padded_int(hh, 2), padded_int(mm, 2), padded_int(ss, 2), rest.len()]
            {
                &&& 0 <= hh && 0 <= mm < 60 && 0 <= ss < 60
                &&& hh * 3600 + mm * 60 + ss == (if r.utoff < 0 {
                    -(r.utoff as int)
                } else {
                    r.utoff as int
                })
                &&& row_line(r) == r.zone_file + "  "@ + iso_text(r.at_unix as int) + "  UT"@ + (
                if r.utoff < 0 {
                    seq!['-']
                } else {
                    seq!['+']
                }) + padded_int(hh, 2) + seq![':'] + padded_int(mm, 2) + seq![':'] + padded_int(
                    ss,
                    2,
                ) + "  isdst="@ + rest
            },
{
    let a: int = if r.utoff < 0 { -(r.utoff as int) } else { r.utoff as int };
    let hh = a / 3600;
    let mm = (a % 3600) / 60;
    let ss = a % 60;
    assert(hh * 3600 + mm * 60 + ss == a && 0 <= hh && 0 <= mm < 60 && 0 <= ss < 60)
        by (nonlinear_arith)
        requires
            a >= 0,
            hh == a / 3600,
            mm == (a % 3600) / 60,
            ss == a % 60,
    ;
    let rest = (if r.is_dst {
        seq!['1']
    } else {
        seq!['0']
    }) + "  "@ + r.abbr + (if r.beyond_explicit {
        "  [beyond-explicit/footer-governed]"@
    } else {
        Seq::empty()
    });
    let pre = r.zone_file + "  "@ + iso_text(r.at_unix as int) + "  UT"@ + (if r.utoff < 0 {
        seq!['-']
    } else {
        seq!['+']
    });
    assert(row_line(r) =~= pre + padded_int(hh, 2) + seq![':'] + padded_int(mm, 2) + seq![':']
        + padded_int(ss, 2) + "  isdst="@ + rest);
    assert(padded_int(hh, 2).len() >= 0 && rest.len() >= 0);
}
} // verus!
