//! POSIX TZ-string parsing + evaluation — the TZif **footer**, used to project
//! offset/is_dst/abbreviation for instants beyond the last explicit transition.
//!
//! Grammar (POSIX, with the common extensions tzcode emits):
//! ```text
//!   std offset [dst [offset] [,start[/time],end[/time]]]
//!   name   := alpha{3,} | '<' [+-A-Za-z0-9]{3,} '>'   (in brackets, a sign only first: `<-03>`)
//!   offset := [+-]hh[:mm[:ss]]        (POSIX sign: POSITIVE means WEST of UTC)
//!   rule   := 'J'n | n | 'M'm.w.d     (Jn=1..365 skip Feb29; n=0..365; Mm.w.d month 1..12,
//!                                       week 1..5, weekday 0..6)
//!   time   := [+-]hh[:mm[:ss]]        (LOCAL wall clock; default 02:00:00; may be negative or >24h)
//! ```
//! A field outside its range, or whose digits exceed the integer type that holds it, makes the
//! string ill-formed.
use vstd::prelude::*;
use crate::civil::{
    civil_from_days_spec, civil_from_days_wide, days_from_civil_spec, days_from_civil_wide,
    days_in_month_spec, floor_div, floor_mod, is_leap_year, lemma_month_length,
};
use crate::tzif::{LocalTime, Observation};
use crate::text::{
    all_digits, is_digit, chars_of, copy_range, digits_run_value, digits_value, find_char, first_index,
    string_of,
};

verus! {

/// A transition rule (when DST starts or ends within a year).
#[derive(Debug, Clone, Copy, PartialEq, Eq)]
pub enum Rule {
    /// `Jn` — Julian day 1..365, never counting Feb 29.
    Julian1(i64),
    /// `n` — zero-based day of year 0..365, counting Feb 29.
    ZeroBased(i64),
    /// `Mm.w.d` — month (1..12), week (1..5, 5 = last), weekday (0=Sunday..6).
    MonthWeekDay { m: i64, w: i64, d: i64 },
}

/// A parsed POSIX TZ string. `utoff_*` are seconds EAST of UTC (so `local = UTC + utoff`), already
/// sign-flipped from the POSIX west-positive convention.
#[derive(Debug, Clone, PartialEq, Eq)]
pub struct TzString {
    pub std_abbr: String,
    pub std_utoff: i32,
    pub dst: Option<Dst>,
}

/// The daylight-saving part of a TZ string: its abbreviation and UT offset (seconds east), and
/// the rules and local wall times at which it starts and ends.
#[derive(Debug, Clone, PartialEq, Eq)]
pub struct Dst {
    pub dst_abbr: String,
    pub dst_utoff: i32,
    pub start: Rule,
    pub start_time: i64,
    pub end: Rule,
    pub end_time: i64,
}

/// The DST part of a TZ string, as mathematical values.
pub struct DstModel {
    pub dst_abbr: Seq<char>,
    pub dst_utoff: i32,
    pub start: Rule,
    pub start_time: i64,
    pub end: Rule,
    pub end_time: i64,
}

/// A TZ string, as mathematical values.
pub struct TzModel {
    pub std_abbr: Seq<char>,
    pub std_utoff: i32,
    pub dst: Option<DstModel>,
}

impl View for Dst {
    type V = DstModel;

    open spec fn view(&self) -> DstModel {
        DstModel {
            dst_abbr: self.dst_abbr@,
            dst_utoff: self.dst_utoff,
            start: self.start,
            start_time: self.start_time,
            end: self.end,
            end_time: self.end_time,
        }
    }
}

impl View for TzString {
    type V = TzModel;

    open spec fn view(&self) -> TzModel {
        TzModel {
            std_abbr: self.std_abbr@,
            std_utoff: self.std_utoff,
            dst: match self.dst {
                Some(d) => Some(d@),
                None => None,
            },
        }
    }
}

// ---------------------------------------------------------------------------
// The grammar, over the characters of the string.
// ---------------------------------------------------------------------------

/// An ASCII letter.
pub open spec fn is_ascii_alpha(c: char) -> bool {
    (65 <= c as u32 <= 90) || (97 <= c as u32 <= 122)
}

/// End of the run of ASCII letters starting at `i`.
pub open spec fn alpha_end(b: Seq<char>, i: int) -> int
    decreases b.len() - i,
{
    if 0 <= i < b.len() && is_ascii_alpha(b[i]) {
        alpha_end(b, i + 1)
    } else {
        i
    }
}

/// End of the run of ASCII digits starting at `i`.
pub open spec fn digit_end(b: Seq<char>, i: int) -> int
    decreases b.len() - i,
{
    if 0 <= i < b.len() && 48 <= b[i] as u32 <= 57 {
        digit_end(b, i + 1)
    } else {
        i
    }
}

/// An ASCII letter or digit.
pub open spec fn is_ascii_alnum(c: char) -> bool {
    is_ascii_alpha(c) || (48 <= c as u32 <= 57)
}

/// The text of a bracketed name: at least three characters, each an ASCII letter or digit, except
/// that the first may be a sign.
pub open spec fn bracket_name_ok(n: Seq<char>) -> bool {
    &&& n.len() >= 3
    &&& forall|k: int|
        0 <= k < n.len() ==> is_ascii_alnum(#[trigger] n[k]) || (k == 0 && (n[k] == '+' || n[k]
            == '-'))
}

/// A zone name at `i`: `<...>` holding a well-formed bracketed name, or at least three ASCII
/// letters; the name and the position after it.
pub open spec fn name_at(b: Seq<char>, i: int) -> Option<(Seq<char>, int)> {
    if i < 0 || i >= b.len() {
        None
    } else if b[i] == '<' {
        match first_index(b.subrange(i + 1, b.len() as int), '>') {
            None => None,
            Some(k) => if bracket_name_ok(b.subrange(i + 1, i + 1 + k)) {
                Some((b.subrange(i + 1, i + 1 + k), i + 2 + k))
            } else {
                None
            },
        }
    } else {
        let j = alpha_end(b, i);
        if j - i < 3 {
            None
        } else {
            Some((b.subrange(i, j), j))
        }
    }
}

/// An unsigned decimal number at `i` (at least one digit, value within `u64`).
pub open spec fn uint_at(b: Seq<char>, i: int) -> Option<(u64, int)> {
    let j = digit_end(b, i);
    if j == i || i < 0 {
        None
    } else {
        let v = digits_value(b.subrange(i, j));
        if v > u64::MAX {
            None
        } else {
            Some((v as u64, j))
        }
    }
}

/// An optional sign at `i`: `(-1 or 1, position after it)`.
pub open spec fn sign_at(b: Seq<char>, i: int) -> (int, int) {
    if 0 <= i < b.len() && (b[i] == '+' || b[i] == '-') {
        (if b[i] == '-' { -1 } else { 1 }, i + 1)
    } else {
        (1, i)
    }
}

/// The `:mm[:ss]` tail of a UT offset whose hours gave `secs` seconds and ended at `i`, summed
/// as `u64`.
pub open spec fn clock_tail_u64(b: Seq<char>, i: int, secs: int) -> Option<(int, int)> {
    if 0 <= i < b.len() && b[i] == ':' {
        match uint_at(b, i + 1) {
            None => None,
            Some((mm, i3)) => {
                let s1 = secs + mm * 60;
                if mm * 60 > u64::MAX || s1 > u64::MAX {
                    None
                } else if 0 <= i3 < b.len() && b[i3] == ':' {
                    match uint_at(b, i3 + 1) {
                        None => None,
                        Some((ss, i4)) => if s1 + ss > u64::MAX {
                            None
                        } else {
                            Some((s1 + ss, i4))
                        },
                    }
                } else {
                    Some((s1, i3))
                }
            },
        }
    } else {
        Some((secs, i))
    }
}

/// A UT offset `[+-]hh[:mm[:ss]]` at `i`, in POSIX (west-positive) seconds: the seconds are
/// summed as `u64`, narrowed to `i32` by truncation, then signed.
pub open spec fn offset_at(b: Seq<char>, i: int) -> Option<(i32, int)> {
    let (sign, i1) = sign_at(b, i);
    match uint_at(b, i1) {
        None => None,
        Some((hh, i2)) => if hh * 3600 > u64::MAX {
            None
        } else {
            match clock_tail_u64(b, i2, hh * 3600) {
                None => None,
                Some((secs, j)) => {
                    let v = sign * ((secs as u64) as i32);
                    if v < i32::MIN || v > i32::MAX {
                        None
                    } else {
                        Some((v as i32, j))
                    }
                },
            }
        },
    }
}

/// The `:mm[:ss]` tail of a rule time whose hours gave `secs`, summed as `i64`.
pub open spec fn clock_tail_i64(b: Seq<char>, i: int, secs: int) -> Option<(int, int)> {
    if 0 <= i < b.len() && b[i] == ':' {
        match uint_at(b, i + 1) {
            None => None,
            Some((mm, i3)) => {
                let m60 = (mm as i64) * 60;
                let s1 = secs + m60;
                if m60 < i64::MIN || m60 > i64::MAX || s1 < i64::MIN || s1 > i64::MAX {
                    None
                } else if 0 <= i3 < b.len() && b[i3] == ':' {
                    match uint_at(b, i3 + 1) {
                        None => None,
                        Some((ss, i4)) => {
                            let s2 = s1 + (ss as i64);
                            if s2 < i64::MIN || s2 > i64::MAX {
                                None
                            } else {
                                Some((s2, i4))
                            }
                        },
                    }
                } else {
                    Some((s1, i3))
                }
            },
        }
    } else {
        Some((secs, i))
    }
}

/// A signed rule time `[+-]hh[:mm[:ss]]` at `i`, in seconds (each field widened to `i64`).
pub open spec fn signed_time_at(b: Seq<char>, i: int) -> Option<(i64, int)> {
    let (sign, i1) = sign_at(b, i);
    match uint_at(b, i1) {
        None => None,
        Some((hh, i2)) => {
            let h = (hh as i64) * 3600;
            if h < i64::MIN || h > i64::MAX {
                None
            } else {
                match clock_tail_i64(b, i2, h) {
                    None => None,
                    Some((secs, j)) => {
                        let v = sign * secs;
                        if v < i64::MIN || v > i64::MAX {
                            None
                        } else {
                            Some((v as i64, j))
                        }
                    },
                }
            }
        },
    }
}

/// `/time` at `i`, defaulting to 02:00:00 (and not advancing) when absent or malformed.
pub open spec fn opt_time_at(b: Seq<char>, i: int) -> (i64, int) {
    if 0 <= i < b.len() && b[i] == '/' {
        match signed_time_at(b, i + 1) {
            Some((t, ni)) => (t, ni),
            None => (7200, i),
        }
    } else {
        (7200, i)
    }
}

/// A rule at `i`: `Jn` with `n` in 1..=365, `Mm.w.d` with month 1..=12, week 1..=5 and weekday
/// 0..=6, or a bare day number 0..=365. Anything else is no rule.
pub open spec fn rule_at(b: Seq<char>, i: int) -> Option<(Rule, int)> {
    if i < 0 || i >= b.len() {
        None
    } else if b[i] == 'J' {
        match uint_at(b, i + 1) {
            None => None,
            Some((n, ni)) => if 1 <= n <= 365 {
                Some((Rule::Julian1(n as i64), ni))
            } else {
                None
            },
        }
    } else if b[i] == 'M' {
        match uint_at(b, i + 1) {
            None => None,
            Some((m, i1)) => if !(0 <= i1 < b.len() && b[i1] == '.') {
                None
            } else {
                match uint_at(b, i1 + 1) {
                    None => None,
                    Some((w, i2)) => if !(0 <= i2 < b.len() && b[i2] == '.') {
                        None
                    } else {
                        match uint_at(b, i2 + 1) {
                            None => None,
                            Some((d, i3)) => if 1 <= m <= 12 && 1 <= w <= 5 && d <= 6 {
                                Some(
                                    (
                                        Rule::MonthWeekDay { m: m as i64, w: w as i64, d: d as i64 },
                                        i3,
                                    ),
                                )
                            } else {
                                None
                            },
                        }
                    },
                }
            },
        }
    } else {
        match uint_at(b, i) {
            None => None,
            Some((n, ni)) => if n <= 365 {
                Some((Rule::ZeroBased(n as i64), ni))
            } else {
                None
            },
        }
    }
}

/// The DST part after the DST name, which ended at `i`: an optional DST offset (default: one
/// hour east of standard), then `,start[/time],end[/time]`.
pub open spec fn dst_rules_at(b: Seq<char>, i: int, dst_abbr: Seq<char>, std_utoff: i32) -> Option<
    DstModel,
> {
    let off = if 0 <= i < b.len() && b[i] != ',' {
        match offset_at(b, i) {
            None => None,
            Some((p, ni)) => if p == i32::MIN {
                None
            } else {
                Some(((-p) as i32, ni))
            },
        }
    } else if std_utoff + 3600 > i32::MAX {
        None
    } else {
        Some(((std_utoff + 3600) as i32, i))
    };
    match off {
        None => None,
        Some((dst_utoff, i4)) => if !(0 <= i4 < b.len() && b[i4] == ',') {
            None
        } else {
            match rule_at(b, i4 + 1) {
                None => None,
                Some((start, i5)) => {
                    let (start_time, i6) = opt_time_at(b, i5);
                    if !(0 <= i6 < b.len() && b[i6] == ',') {
                        None
                    } else {
                        match rule_at(b, i6 + 1) {
                            None => None,
                            Some((end, i7)) => {
                                let (end_time, _) = opt_time_at(b, i7);
                                Some(
                                    DstModel {
                                        dst_abbr,
                                        dst_utoff,
                                        start,
                                        start_time,
                                        end,
                                        end_time,
                                    },
                                )
                            },
                        }
                    }
                },
            }
        },
    }
}

/// What a POSIX TZ string denotes, or `None` when it is not a well-formed footer.
pub open spec fn tz_parse_spec(b: Seq<char>) -> Option<TzModel> {
    match name_at(b, 0) {
        None => None,
        Some((std_abbr, i1)) => match offset_at(b, i1) {
            None => None,
            Some((std_posix, i2)) => if std_posix == i32::MIN {
                None
            } else {
                let std_utoff = (-std_posix) as i32;
                if i2 >= b.len() {
                    Some(TzModel { std_abbr, std_utoff, dst: None })
                } else {
                    match name_at(b, i2) {
                        None => None,
                        Some((dst_abbr, i3)) => match dst_rules_at(b, i3, dst_abbr, std_utoff) {
                            None => None,
                            Some(d) => Some(TzModel { std_abbr, std_utoff, dst: Some(d) }),
                        },
                    }
                }
            },
        },
    }
}

// ---------------------------------------------------------------------------
// The parser.
// ---------------------------------------------------------------------------

proof fn lemma_digit_run(b: Seq<char>, i: int)
    requires
        0 <= i <= b.len(),
    ensures
        i <= digit_end(b, i) <= b.len(),
        all_digits(b.subrange(i, digit_end(b, i))),
        digit_end(b, i) < b.len() ==> !(48 <= b[digit_end(b, i)] as u32 <= 57),
    decreases b.len() - i,
{
    if i < b.len() && 48 <= b[i] as u32 <= 57 {
        lemma_digit_run(b, i + 1);
        let j = digit_end(b, i);
        assert forall|k: int| 0 <= k < j - i implies crate::text::is_digit(
            #[trigger] b.subrange(i, j)[k],
        ) by {
            if k > 0 {
                assert(b.subrange(i, j)[k] == b.subrange(i + 1, j)[k - 1]);
            }
        }
    }
}

fn digit_end_exec(b: &[char], i: usize) -> (j: usize)
    requires
        i <= b.len(),
    ensures
        j == digit_end(b@, i as int),
        i <= j <= b.len(),
{
    let mut j = i;
    while j < b.len() && (48 <= b[j] as u32 && b[j] as u32 <= 57)
        invariant
            i <= j <= b.len(),
            digit_end(b@, i as int) == digit_end(b@, j as int),
        decreases b.len() - j,
    {
        j = j + 1;
    }
    j
}

fn alpha_end_exec(b: &[char], i: usize) -> (j: usize)
    requires
        i <= b.len(),
    ensures
        j == alpha_end(b@, i as int),
        i <= j <= b.len(),
{
    let mut j = i;
    while j < b.len() && ((65 <= b[j] as u32 && b[j] as u32 <= 90) || (97 <= b[j] as u32
        && b[j] as u32 <= 122))
        invariant
            i <= j <= b.len(),
            alpha_end(b@, i as int) == alpha_end(b@, j as int),
        decreases b.len() - j,
    {
        j = j + 1;
    }
    j
}

fn parse_uint(b: &[char], i: usize) -> (r: Option<(u64, usize)>)
    requires
        i <= b.len(),
    ensures
        match r {
            Some((v, j)) => uint_at(b@, i as int) == Some((v, j as int)) && j <= b.len(),
            None => uint_at(b@, i as int) is None,
        },
{
    let j = digit_end_exec(b, i);
    if j == i {
        return None;
    }
    proof { lemma_digit_run(b@, i as int); }
    match digits_run_value(b, i, j, 0xffff_ffff_ffff_ffff) {
        Some(v) => {
            if v > 0xffff_ffff_ffff_ffff {
                None
            } else {
                Some((v as u64, j))
            }
        },
        None => None,
    }
}

fn bracket_name_ok_exec(n: &[char]) -> (r: bool)
    ensures
        r == bracket_name_ok(n@),
{
    if n.len() < 3 {
        return false;
    }
    let mut k: usize = 0;
    while k < n.len()
        invariant
            k <= n.len(),
            n.len() >= 3,
            forall|j: int|
                0 <= j < k ==> is_ascii_alnum(#[trigger] n@[j]) || (j == 0 && (n@[j] == '+'
                    || n@[j] == '-')),
        decreases n.len() - k,
    {
        let c = n[k];
        let alnum = (65 <= c as u32 && c as u32 <= 90) || (97 <= c as u32 && c as u32 <= 122) || (48
            <= c as u32 && c as u32 <= 57);
        if !alnum && !(k == 0 && (c == '+' || c == '-')) {
            assert(!(is_ascii_alnum(n@[k as int]) || (k == 0 && (n@[k as int] == '+'
                || n@[k as int] == '-'))));
            return false;
        }
        k = k + 1;
    }
    true
}

fn parse_name(b: &[char], i: usize) -> (r: Option<(String, usize)>)
    requires
        i <= b.len(),
    ensures
        match r {
            Some((n, j)) => name_at(b@, i as int) == Some((n@, j as int)) && j <= b.len(),
            None => name_at(b@, i as int) is None,
        },
{
    if i >= b.len() {
        return None;
    }
    if b[i] == '<' {
        match find_char(b, i + 1, b.len(), '>') {
            None => None,
            Some(k) => {
                let name = copy_range(b, i + 1, k);
                if !bracket_name_ok_exec(&name) {
                    return None;
                }
                Some((string_of(&name), k + 1))
            },
        }
    } else {
        let j = alpha_end_exec(b, i);
        if j - i < 3 {
            None
        } else {
            let name = copy_range(b, i, j);
            Some((string_of(&name), j))
        }
    }
}

fn parse_sign(b: &[char], i: usize) -> (r: (i64, usize))
    requires
        i <= b.len(),
    ensures
        (r.0 as int, r.1 as int) == sign_at(b@, i as int),
        r.1 <= b.len(),
{
    if i < b.len() && (b[i] == '+' || b[i] == '-') {
        (if b[i] == '-' { -1 } else { 1 }, i + 1)
    } else {
        (1, i)
    }
}

fn clock_tail_u64_exec(b: &[char], i: usize, secs: u64) -> (r: Option<(u64, usize)>)
    requires
        i <= b.len(),
    ensures
        match r {
            Some((v, j)) => clock_tail_u64(b@, i as int, secs as int) == Some(
                (v as int, j as int),
            ) && j <= b.len(),
            None => clock_tail_u64(b@, i as int, secs as int) is None,
        },
{
    if i < b.len() && b[i] == ':' {
        let (mm, i3) = parse_uint(b, i + 1)?;
        let m60 = mm.checked_mul(60)?;
        let s1 = secs.checked_add(m60)?;
        if i3 < b.len() && b[i3] == ':' {
            let (ss, i4) = parse_uint(b, i3 + 1)?;
            let s2 = s1.checked_add(ss)?;
            Some((s2, i4))
        } else {
            Some((s1, i3))
        }
    } else {
        Some((secs, i))
    }
}

/// Parse `[+-]hh[:mm[:ss]]` into seconds (POSIX west-positive sign, returned as-is).
fn parse_offset(b: &[char], i: usize) -> (r: Option<(i32, usize)>)
    requires
        i <= b.len(),
    ensures
        match r {
            Some((v, j)) => offset_at(b@, i as int) == Some((v, j as int)) && j <= b.len(),
            None => offset_at(b@, i as int) is None,
        },
{
    let (sign, i1) = parse_sign(b, i);
    let (hh, i2) = parse_uint(b, i1)?;
    let h = hh.checked_mul(3600)?;
    let (secs, j) = clock_tail_u64_exec(b, i2, h)?;
    let t = #[verifier::truncate] (secs as i32);
    if sign == -1 {
        if t == i32::MIN {
            return None;
        }
        Some((-t, j))
    } else {
        Some((t, j))
    }
}

fn clock_tail_i64_exec(b: &[char], i: usize, secs: i64) -> (r: Option<(i64, usize)>)
    requires
        i <= b.len(),
    ensures
        match r {
            Some((v, j)) => clock_tail_i64(b@, i as int, secs as int) == Some(
                (v as int, j as int),
            ) && j <= b.len(),
            None => clock_tail_i64(b@, i as int, secs as int) is None,
        },
{
    if i < b.len() && b[i] == ':' {
        let (mm, i3) = parse_uint(b, i + 1)?;
        let m60 = (#[verifier::truncate] (mm as i64)).checked_mul(60)?;
        let s1 = secs.checked_add(m60)?;
        if i3 < b.len() && b[i3] == ':' {
            let (ss, i4) = parse_uint(b, i3 + 1)?;
            let s2 = s1.checked_add(#[verifier::truncate] (ss as i64))?;
            Some((s2, i4))
        } else {
            Some((s1, i3))
        }
    } else {
        Some((secs, i))
    }
}

fn parse_signed_time(b: &[char], i: usize) -> (r: Option<(i64, usize)>)
    requires
        i <= b.len(),
    ensures
        match r {
            Some((v, j)) => signed_time_at(b@, i as int) == Some((v, j as int)) && j <= b.len(),
            None => signed_time_at(b@, i as int) is None,
        },
{
    let (sign, i1) = parse_sign(b, i);
    let (hh, i2) = parse_uint(b, i1)?;
    let h = (#[verifier::truncate] (hh as i64)).checked_mul(3600)?;
    let (secs, j) = clock_tail_i64_exec(b, i2, h)?;
    let v = sign.checked_mul(secs)?;
    Some((v, j))
}

/// `/time` with default 02:00:00; the time is LOCAL wall and may be signed / exceed 24h.
fn parse_opt_time(b: &[char], i: usize) -> (r: (i64, usize))
    requires
        i <= b.len(),
    ensures
        (r.0, r.1 as int) == opt_time_at(b@, i as int),
        r.1 <= b.len(),
{
    if i < b.len() && b[i] == '/' {
        if let Some((t, ni)) = parse_signed_time(b, i + 1) {
            return (t, ni);
        }
    }
    (7200, i)
}

fn parse_rule(b: &[char], i: usize) -> (r: Option<(Rule, usize)>)
    requires
        i <= b.len(),
    ensures
        match r {
            Some((v, j)) => rule_at(b@, i as int) == Some((v, j as int)) && j <= b.len(),
            None => rule_at(b@, i as int) is None,
        },
{
    if i >= b.len() {
        return None;
    }
    if b[i] == 'J' {
        let (n, ni) = parse_uint(b, i + 1)?;
        if !(1 <= n && n <= 365) {
            return None;
        }
        Some((Rule::Julian1(n as i64), ni))
    } else if b[i] == 'M' {
        let (m, i1) = parse_uint(b, i + 1)?;
        if !(i1 < b.len() && b[i1] == '.') {
            return None;
        }
        let (w, i2) = parse_uint(b, i1 + 1)?;
        if !(i2 < b.len() && b[i2] == '.') {
            return None;
        }
        let (d, i3) = parse_uint(b, i2 + 1)?;
        if !(1 <= m && m <= 12 && 1 <= w && w <= 5 && d <= 6) {
            return None;
        }
        Some((Rule::MonthWeekDay { m: m as i64, w: w as i64, d: d as i64 }, i3))
    } else {
        let (n, ni) = parse_uint(b, i)?;
        if n > 365 {
            return None;
        }
        Some((Rule::ZeroBased(n as i64), ni))
    }
}

fn parse_dst_rules(b: &[char], i: usize, dst_abbr: String, std_utoff: i32) -> (r: Option<Dst>)
    requires
        i <= b.len(),
    ensures
        match r {
            Some(d) => dst_rules_at(b@, i as int, dst_abbr@, std_utoff) == Some(d@),
            None => dst_rules_at(b@, i as int, dst_abbr@, std_utoff) is None,
        },
{
    let (dst_utoff, i4) = if i < b.len() && b[i] != ',' {
        let (p, ni) = parse_offset(b, i)?;
        if p == i32::MIN {
            return None;
        }
        (-p, ni)
    } else {
        (std_utoff.checked_add(3600)?, i)
    };
    if !(i4 < b.len() && b[i4] == ',') {
        return None;
    }
    let (start, i5) = parse_rule(b, i4 + 1)?;
    let (start_time, i6) = parse_opt_time(b, i5);
    if !(i6 < b.len() && b[i6] == ',') {
        return None;
    }
    let (end, i7) = parse_rule(b, i6 + 1)?;
    let (end_time, _ni) = parse_opt_time(b, i7);
    Some(Dst { dst_abbr, dst_utoff, start, start_time, end, end_time })
}

/// Parse a POSIX TZ string. Returns `None` if it is not a well-formed footer (the witness then
/// falls back to the explicit table).
pub fn parse(s: &str) -> (r: Option<TzString>)
    ensures
        match r {
            Some(z) => tz_parse_spec(s@) == Some(z@),
            None => tz_parse_spec(s@) is None,
        },
{
    let b = chars_of(s);
    let (std_abbr, i1) = parse_name(&b, 0)?;
    let (std_posix, i2) = parse_offset(&b, i1)?;
    if std_posix == i32::MIN {
        return None;
    }
    let std_utoff = -std_posix;
    if i2 >= b.len() {
        return Some(TzString { std_abbr, std_utoff, dst: None });
    }
    let (dst_abbr, i3) = parse_name(&b, i2)?;
    let d = parse_dst_rules(&b, i3, dst_abbr, std_utoff)?;
    Some(TzString { std_abbr, std_utoff, dst: Some(d) })
}

// ---------------------------------------------------------------------------
// Evaluating the rule.
// ---------------------------------------------------------------------------

/// Weekday of a day count since the epoch, 0 = Sunday .. 6 = Saturday (1970-01-01 was a
/// Thursday).
pub open spec fn weekday_spec(days: int) -> int {
    (days % 7 + 4) % 7
}

/// Month lengths of a common (non-leap) year.
pub open spec fn common_month_len(m: int) -> int {
    if m == 2 {
        28
    } else {
        days_in_month_spec(1, m)
    }
}

/// `Jn`: walk the months of a common year from month `m`, subtracting their lengths while `n`
/// exceeds them (stopping after December).
pub open spec fn julian_md(n: int, m: int) -> (int, int)
    decreases 13 - m,
{
    if 1 <= m <= 12 && n > common_month_len(m) {
        julian_md(n - common_month_len(m), m + 1)
    } else {
        (m, n)
    }
}

/// `n` (zero-based, leap-aware): walk the months of `y` from `mm`; a day number past the year's
/// end clamps to December 31.
pub open spec fn zero_based_md(y: int, rem: int, mm: int) -> (int, int)
    decreases 12 - mm,
{
    if mm < 1 || mm > 12 || rem < days_in_month_spec(y, mm) {
        (mm, rem + 1)
    } else if mm == 12 {
        (12, days_in_month_spec(y, 12))
    } else {
        zero_based_md(y, rem - days_in_month_spec(y, mm), mm + 1)
    }
}

/// Stepping a day of month back by whole weeks until it falls within a month of `dim` days.
pub open spec fn week_back(dom: int, dim: int) -> int {
    if dom <= dim {
        dom
    } else {
        dom - 7 * ((dom - dim + 6) / 7)
    }
}

/// The (month, day) a rule selects in `year`.
pub open spec fn rule_md(r: Rule, year: int) -> (int, int) {
    match r {
        Rule::Julian1(n) => julian_md(n as int, 1),
        Rule::ZeroBased(n) => zero_based_md(year, n as int, 1),
        Rule::MonthWeekDay { m, w, d } => {
            let first = days_from_civil_spec(year, m as int, 1);
            let dom = 1 + (d - weekday_spec(first)) % 7 + (w - 1) * 7;
            (m as int, week_back(dom, days_in_month_spec(year, m as int)))
        },
    }
}

/// The UTC instant of a rule's transition in `year`: the selected local date at midnight plus the
/// rule's local time, less the offset in effect just before it.
pub open spec fn rule_instant(r: Rule, time: int, year: int, utoff_before: int) -> int {
    let (m, d) = rule_md(r, year);
    days_from_civil_spec(year, m, d) * 86400 + time - utoff_before
}

fn weekday(days: i128) -> (r: i128)
    requires
        -0x400_0000_0000_0000_0000_0000 <= days <= 0x400_0000_0000_0000_0000_0000,
    ensures
        r == weekday_spec(days as int),
        0 <= r < 7,
{
    floor_mod(floor_mod(days, 7) + 4, 7)
}

#[verifier::spinoff_prover]
#[verifier::rlimit(40)]
fn days_in_month(y: i128, m: i128) -> (r: i128)
    ensures
        r == days_in_month_spec(y as int, m as int),
{
    let leap = (y % 4 == 0 && y % 100 != 0) || y % 400 == 0;
    assert(leap == crate::civil::is_leap_year(y as int)) by {
        assert((y % 4 == 0) == ((y as int) % 4 == 0)) by (nonlinear_arith);
        assert((y % 100 == 0) == ((y as int) % 100 == 0)) by (nonlinear_arith);
        assert((y % 400 == 0) == ((y as int) % 400 == 0)) by (nonlinear_arith);
    }
    if m == 1 || m == 3 || m == 5 || m == 7 || m == 8 || m == 10 || m == 12 {
        31
    } else if m == 4 || m == 6 || m == 9 || m == 11 {
        30
    } else if m == 2 {
        if leap {
            29
        } else {
            28
        }
    } else {
        30
    }
}

fn common_month_len_exec(m: i128) -> (r: i128)
    ensures
        r == common_month_len(m as int),
{
    if m == 2 {
        28
    } else {
        days_in_month(1, m)
    }
}

/// Convert a `Jn` (1..365, no Feb 29) to (month, day).
fn julian1_to_md(n: i128) -> (r: (i128, i128))
    requires
        -0x1_0000_0000_0000_0000 <= n <= 0x1_0000_0000_0000_0000,
    ensures
        (r.0 as int, r.1 as int) == julian_md(n as int, 1),
        1 <= r.0 <= 13,
        n - 365 <= r.1 <= n,
{
    let mut n = n;
    let ghost n0 = n;
    let mut m: i128 = 1;
    while m <= 12 && n > common_month_len_exec(m)
        invariant
            1 <= m <= 13,
            julian_md(n0 as int, 1) == julian_md(n as int, m as int),
            n0 - 365 <= n <= n0,
            n0 - n == cumulative_common(m as int),
        decreases 13 - m,
    {
        proof { lemma_cumulative_common(m + 1); }
        n = n - common_month_len_exec(m);
        m = m + 1;
    }
    (m, n)
}

/// Days of a common year before month `m` (for `1 <= m <= 13`).
pub open spec fn cumulative_common(m: int) -> int
    decreases m,
{
    if m <= 1 {
        0
    } else {
        cumulative_common(m - 1) + common_month_len(m - 1)
    }
}

proof fn lemma_cumulative_common(m: int)
    requires
        1 <= m <= 13,
    ensures
        0 <= cumulative_common(m) <= 365,
    decreases 13 - m,
{
    lemma_cumulative_common_nonneg(m);
    if m < 13 {
        lemma_cumulative_common(m + 1);
        assert(cumulative_common(m + 1) == cumulative_common(m) + common_month_len(m));
    } else {
        reveal_with_fuel(cumulative_common, 13);
        assert(cumulative_common(13) == 365);
    }
}

proof fn lemma_cumulative_common_nonneg(m: int)
    ensures
        0 <= cumulative_common(m),
    decreases m,
{
    if m > 1 {
        lemma_cumulative_common_nonneg(m - 1);
    }
}

fn zero_based_to_md(y: i128, n: i128) -> (r: (i128, i128))
    requires
        -0x1_0000_0000_0000_0000 <= n <= 0x1_0000_0000_0000_0000,
    ensures
        (r.0 as int, r.1 as int) == zero_based_md(y as int, n as int, 1),
        1 <= r.0 <= 12,
        -0x1_0000_0000_0000_0400 <= r.1 <= 0x1_0000_0000_0000_0001,
{
    let mut rem = n;
    let mut mm: i128 = 1;
    while mm < 12 && rem >= days_in_month(y, mm)
        invariant
            1 <= mm <= 12,
            zero_based_md(y as int, n as int, 1) == zero_based_md(y as int, rem as int, mm as int),
            n - 31 * (mm - 1) <= rem <= n,
        decreases 12 - mm,
    {
        rem = rem - days_in_month(y, mm);
        mm = mm + 1;
    }
    if rem < days_in_month(y, mm) {
        (mm, rem + 1)
    } else {
        (12, days_in_month(y, 12))
    }
}

/// The UTC instant of a rule's transition in `year`, given the offset in effect *just before* it.
fn rule_to_unix(r: &Rule, time: i64, year: i128, utoff_before: i32) -> (u: i128)
    requires
        -0x40_0000_0000_0000_0000 <= year <= 0x40_0000_0000_0000_0000,
    ensures
        u == rule_instant(*r, time as int, year as int, utoff_before as int),
{
    let (m, d) = match *r {
        Rule::Julian1(n) => julian1_to_md(n as i128),
        Rule::ZeroBased(n) => zero_based_to_md(year, n as i128),
        Rule::MonthWeekDay { m, w, d } => {
            let first = days_from_civil_wide(year, m as i128, 1);
            let wd = weekday(first);
            let x = floor_mod(d as i128 - wd, 7);
            let dom = 1 + x + (w as i128 - 1) * 7;
            let dim = days_in_month(year, m as i128);
            let dom = if dom > dim { dom - 7 * ((dom - dim + 6) / 7) } else { dom };
            assert(dom <= dim ==> -0x10_0000_0000_0000_0000 <= dom) by (nonlinear_arith)
                requires
                    dom == (if 1 + x + (w as i128 - 1) * 7 > dim {
                        (1 + x + (w as i128 - 1) * 7) - 7 * (((1 + x + (w as i128 - 1) * 7) - dim
                            + 6) / 7)
                    } else {
                        1 + x + (w as i128 - 1) * 7
                    }),
                    0 <= x < 7,
                    28 <= dim <= 31,
                    i64::MIN <= w <= i64::MAX,
            ;
            assert(dom <= dim) by (nonlinear_arith)
                requires
                    dom == (if 1 + x + (w as i128 - 1) * 7 > dim {
                        (1 + x + (w as i128 - 1) * 7) - 7 * (((1 + x + (w as i128 - 1) * 7) - dim
                            + 6) / 7)
                    } else {
                        1 + x + (w as i128 - 1) * 7
                    }),
                    28 <= dim <= 31,
            ;
            (m as i128, dom)
        },
    };
    let local = days_from_civil_wide(year, m, d) * 86400 + time as i128;
    local - utoff_before as i128
}

// ---------------------------------------------------------------------------
// Observing an instant.
// ---------------------------------------------------------------------------

/// Standard time of a TZ string.
pub open spec fn std_local(z: TzModel) -> LocalTime {
    LocalTime { utoff: z.std_utoff, is_dst: false, abbr: z.std_abbr }
}

/// Daylight time of a TZ string's DST part.
pub open spec fn dst_local(d: DstModel) -> LocalTime {
    LocalTime { utoff: d.dst_utoff, is_dst: true, abbr: d.dst_abbr }
}

/// The local year used to pick which transitions to materialise: the civil year of `t` shifted by
/// the standard offset.
pub open spec fn local_year(z: TzModel, t: int) -> int {
    civil_from_days_spec((t + z.std_utoff) / 86400).0
}

/// The DST start and end transitions of the years around `t` (`(instant, becomes_dst)`), in
/// materialisation order: year before, year of, year after; start before end within a year.
pub open spec fn candidate_transitions(z: TzModel, d: DstModel, t: int) -> Seq<(int, bool)> {
    let y = local_year(z, t);
    let start = |yr: int| rule_instant(d.start, d.start_time as int, yr, z.std_utoff as int);
    let end = |yr: int| rule_instant(d.end, d.end_time as int, yr, d.dst_utoff as int);
    seq![
        (start(y - 1), true),
        (end(y - 1), false),
        (start(y), true),
        (end(y), false),
        (start(y + 1), true),
        (end(y + 1), false),
    ]
}

/// Among the first `n` transitions, the index of the latest one at or before `t` (a later one in
/// the list wins a tie, as in a stable sort by instant).
pub open spec fn latest_idx(tr: Seq<(int, bool)>, t: int, n: nat) -> Option<int>
    decreases n,
{
    if n == 0 {
        None
    } else {
        let prev = latest_idx(tr, t, (n - 1) as nat);
        let k = n - 1;
        if tr[k].0 <= t {
            match prev {
                None => Some(k),
                Some(p) => if tr[k].0 >= tr[p].0 {
                    Some(k)
                } else {
                    Some(p)
                },
            }
        } else {
            prev
        }
    }
}

/// Among the first `n >= 1` transitions, the index of the earliest one (an earlier one in the
/// list wins a tie).
pub open spec fn earliest_idx(tr: Seq<(int, bool)>, n: nat) -> int
    decreases n,
{
    if n <= 1 {
        0
    } else {
        let p = earliest_idx(tr, (n - 1) as nat);
        if tr[n - 1].0 < tr[p].0 {
            n - 1
        } else {
            p
        }
    }
}

/// Whether DST is in effect at `t`: the state set by the latest transition at or before `t`, or,
/// before all of them, the opposite of the earliest one.
pub open spec fn dst_in_effect(tr: Seq<(int, bool)>, t: int) -> bool {
    match latest_idx(tr, t, tr.len()) {
        Some(k) => tr[k].1,
        None => !tr[earliest_idx(tr, tr.len())].1,
    }
}

/// Offset, DST flag and abbreviation a TZ string gives at UTC instant `t`.
pub open spec fn tz_observe_spec(z: TzModel, t: int) -> LocalTime {
    match z.dst {
        None => std_local(z),
        Some(d) => if dst_in_effect(candidate_transitions(z, d, t), t) {
            dst_local(d)
        } else {
            std_local(z)
        },
    }
}

proof fn lemma_latest_idx_range(tr: Seq<(int, bool)>, t: int, n: nat)
    ensures
        latest_idx(tr, t, n) matches Some(k) ==> 0 <= k < n,
    decreases n,
{
    if n > 0 {
        lemma_latest_idx_range(tr, t, (n - 1) as nat);
    }
}

proof fn lemma_earliest_idx_range(tr: Seq<(int, bool)>, n: nat)
    ensures
        0 <= earliest_idx(tr, n) < if n == 0 { 1 } else { n },
    decreases n,
{
    if n > 1 {
        lemma_earliest_idx_range(tr, (n - 1) as nat);
    }
}

impl TzString {
    fn std_obs(&self) -> (o: Observation)
        ensures
            o@ == std_local(self@),
    {
        Observation { utoff: self.std_utoff, is_dst: false, abbr: self.std_abbr.clone() }
    }

    fn dst_obs(&self, d: &Dst) -> (o: Observation)
        ensures
            o@ == dst_local(d@),
    {
        Observation { utoff: d.dst_utoff, is_dst: true, abbr: d.dst_abbr.clone() }
    }

    /// offset/is_dst/abbreviation at UTC instant `t`, via the POSIX rule: the start/end
    /// transitions for the years around `t` are materialised, and the state set by the latest one
    /// at or before `t` is taken.
    pub fn observe(&self, t: i64) -> (o: Observation)
        ensures
            o@ == tz_observe_spec(self@, t as int),
    {
        let d = match &self.dst {
            None => return self.std_obs(),
            Some(d) => d,
        };
        let days = floor_div(t as i128 + self.std_utoff as i128, 86400);
        let (y, _, _) = civil_from_days_wide(days);
        let mut tr: Vec<(i128, bool)> = Vec::new();
        tr.push((rule_to_unix(&d.start, d.start_time, y - 1, self.std_utoff), true));
        tr.push((rule_to_unix(&d.end, d.end_time, y - 1, d.dst_utoff), false));
        tr.push((rule_to_unix(&d.start, d.start_time, y, self.std_utoff), true));
        tr.push((rule_to_unix(&d.end, d.end_time, y, d.dst_utoff), false));
        tr.push((rule_to_unix(&d.start, d.start_time, y + 1, self.std_utoff), true));
        tr.push((rule_to_unix(&d.end, d.end_time, y + 1, d.dst_utoff), false));
        let ghost cand = candidate_transitions(self@, d@, t as int);
        assert(y == local_year(self@, t as int));
        assert(tr@.map_values(|x: (i128, bool)| (x.0 as int, x.1)) =~= cand);
        let mut latest: Option<usize> = None;
        let mut earliest: usize = 0;
        let mut i: usize = 0;
        while i < 6
            invariant
                tr@.len() == 6,
                cand.len() == 6,
                forall|j: int| 0 <= j < 6 ==> (#[trigger] tr@[j]).0 as int == cand[j].0 && tr@[j].1
                    == cand[j].1,
                i <= 6,
                match latest {
                    Some(k) => latest_idx(cand, t as int, i as nat) == Some(k as int),
                    None => latest_idx(cand, t as int, i as nat) is None,
                },
                i >= 1 ==> earliest == earliest_idx(cand, i as nat),
                i == 0 ==> earliest == 0,
            decreases 6 - i,
        {
            proof {
                lemma_latest_idx_range(cand, t as int, i as nat);
                lemma_earliest_idx_range(cand, i as nat);
            }
            assert(tr@[i as int].0 as int == cand[i as int].0);
            if tr[i].0 <= t as i128 {
                latest = match latest {
                    None => Some(i),
                    Some(p) => if tr[i].0 >= tr[p].0 {
                        Some(i)
                    } else {
                        Some(p)
                    },
                };
            }
            if i >= 1 && tr[i].0 < tr[earliest].0 {
                earliest = i;
            }
            i = i + 1;
        }
        proof {
            lemma_latest_idx_range(cand, t as int, 6);
            lemma_earliest_idx_range(cand, 6);
        }
        let dst_now = match latest {
            Some(k) => tr[k].1,
            None => !tr[earliest].1,
        };
        if dst_now {
            self.dst_obs(d)
        } else {
            self.std_obs()
        }
    }
}

// ---------------------------------------------------------------------------
// Laws.
// ---------------------------------------------------------------------------

/// Law: a TZ string without a DST part observes its standard time at every instant.
pub proof fn lemma_no_dst_is_standard(z: TzModel, t: int)
    requires
        z.dst is None,
    ensures
        tz_observe_spec(z, t) == std_local(z),
{
}

/// Law: every observation is the string's standard time or its daylight time, and the DST flag
/// says which.
pub proof fn lemma_standard_or_daylight(z: TzModel, t: int)
    ensures
        !tz_observe_spec(z, t).is_dst ==> tz_observe_spec(z, t) == std_local(z),
        tz_observe_spec(z, t).is_dst ==> (z.dst matches Some(d) && tz_observe_spec(z, t)
            == dst_local(d)),
{
}


// ---------------------------------------------------------------------------
// Laws of the calendar rules and rule times.
// ---------------------------------------------------------------------------

/// Law: weekdays count days: 1970-01-01 (day 0) is a Thursday (4, with 0 = Sunday), and the
/// day after any day has the next weekday, Saturday (6) wrapping to Sunday (0).
pub proof fn lemma_weekday_steps(z: int)
    ensures
        weekday_spec(0) == 4,
        0 <= weekday_spec(z) < 7,
        weekday_spec(z + 1) == (weekday_spec(z) + 1) % 7,
{
    let r = z % 7;
    assert((z + 1) % 7 == (if r == 6 { 0 } else { r + 1 })) by (nonlinear_arith)
        requires
            r == z % 7,
    ;
}

/// Law: `Mm.w.d` selects, in month `m` of `year`, a day that lies in the month and falls on
/// weekday `d`: for weeks 1..=4 the `w`-th such day (so in days `7w-6..=7w`), and for week 5
/// the last such day of the month (a week later is past the month's end).
pub proof fn lemma_month_week_day(year: int, m: i64, w: i64, d: i64)
    requires
        1 <= m <= 12,
        1 <= w <= 5,
        0 <= d <= 6,
    ensures
        ({
            let (mm, dom) = rule_md(Rule::MonthWeekDay { m, w, d }, year);
            let dim = days_in_month_spec(year, m as int);
            &&& mm == m
            &&& 1 <= dom <= dim
            &&& weekday_spec(days_from_civil_spec(year, m as int, dom)) == d
            &&& w < 5 ==> 7 * (w - 1) < dom <= 7 * w
            &&& w == 5 ==> dom + 7 > dim
        }),
{
    let first = days_from_civil_spec(year, m as int, 1);
    let wf = weekday_spec(first);
    let x = (d - wf) % 7;
    let dom0 = 1 + x + (w - 1) * 7;
    let dim = days_in_month_spec(year, m as int);
    let dom = week_back(dom0, dim);
    assert(28 <= dim <= 31);
    assert(0 <= x < 7);
    assert(dom == dom0 || (w == 5 && dom == dom0 - 7)) by {
        if dom0 > dim {
            assert(w == 5);
            assert((dom0 - dim + 6) / 7 == 1) by (nonlinear_arith)
                requires
                    dim < dom0 <= dim + 7,
            ;
        }
    }
    assert(days_from_civil_spec(year, m as int, dom) == first + dom - 1);
    let k: int = if dom == dom0 { w - 1 } else { w - 2 };
    assert(dom - 1 == x + 7 * k);
    let q = first / 7;
    let r = first % 7;
    vstd::arithmetic::div_mod::lemma_fundamental_div_mod(first, 7);
    assert(first == 7 * q + r && 0 <= r < 7);
    assert(weekday_spec(first + dom - 1) == d) by (nonlinear_arith)
        requires
            first == 7 * q + r,
            0 <= r < 7,
            wf == ((first % 7) + 4) % 7,
            x == (d - wf) % 7,
            dom - 1 == x + 7 * k,
            0 <= d < 7,
            weekday_spec(first + dom - 1) == ((first + dom - 1) % 7 + 4) % 7,
    ;
}

/// Day counts of month starts: month `m` of `year` begins `cumulative_common(m)` days after
/// January 1, one more after February in a leap year.
proof fn lemma_month_starts(year: int, m: int)
    requires
        1 <= m <= 12,
    ensures
        days_from_civil_spec(year, m, 1) - days_from_civil_spec(year, 1, 1) == cumulative_common(m)
            + (if is_leap_year(year) && m >= 3 { 1int } else { 0int }),
    decreases m,
{
    if m > 1 {
        lemma_month_starts(year, m - 1);
        lemma_month_length(year, m - 1);
        assert(cumulative_common(m) == cumulative_common(m - 1) + common_month_len(m - 1));
    }
}

proof fn lemma_julian_walk(n0: int, n: int, m: int)
    requires
        1 <= m <= 13,
        n0 - n == cumulative_common(m),
        1 <= n,
        n0 <= 365,
    ensures
        ({
            let (mm, d) = julian_md(n, m);
            &&& 1 <= mm <= 12
            &&& 1 <= d <= common_month_len(mm)
            &&& n0 - d == cumulative_common(mm)
        }),
    decreases 13 - m,
{
    if m == 13 {
        reveal_with_fuel(cumulative_common, 13);
        assert(cumulative_common(13) == 365);
    } else if n > common_month_len(m) {
        assert(cumulative_common(m + 1) == cumulative_common(m) + common_month_len(m));
        lemma_julian_walk(n0, n - common_month_len(m), m + 1);
    }
}

/// Law: `Jn` selects, in `year`, the day `n - 1` days after January 1 when February 29 is not
/// counted: that many days after it, plus one from March on in a leap year; February 29 itself
/// is never selected.
pub proof fn lemma_julian_day(year: int, n: i64)
    requires
        1 <= n <= 365,
    ensures
        ({
            let (m, dom) = rule_md(Rule::Julian1(n), year);
            &&& 1 <= m <= 12
            &&& 1 <= dom <= days_in_month_spec(year, m)
            &&& !(m == 2 && dom == 29)
            &&& days_from_civil_spec(year, m, dom) - days_from_civil_spec(year, 1, 1) == (n - 1)
                + (if is_leap_year(year) && m >= 3 { 1int } else { 0int })
        }),
{
    lemma_julian_walk(n as int, n as int, 1);
    let (m, dom) = julian_md(n as int, 1);
    lemma_month_starts(year, m);
    assert(days_from_civil_spec(year, m, dom) == days_from_civil_spec(year, m, 1) + dom - 1);
}

proof fn lemma_zero_walk(year: int, n: int, rem: int, mm: int)
    requires
        1 <= mm <= 12,
        0 <= rem,
        rem + (days_from_civil_spec(year, mm, 1) - days_from_civil_spec(year, 1, 1)) == n,
    ensures
        ({
            let (m, d) = zero_based_md(year, rem, mm);
            let ylen = days_from_civil_spec(year + 1, 1, 1) - days_from_civil_spec(year, 1, 1);
            &&& 1 <= m <= 12
            &&& 1 <= d <= days_in_month_spec(year, m)
            &&& days_from_civil_spec(year, m, d) - days_from_civil_spec(year, 1, 1) == (if n
                < ylen {
                n
            } else {
                ylen - 1
            })
        }),
    decreases 12 - mm,
{
    let first = days_from_civil_spec(year, 1, 1);
    let ylen = days_from_civil_spec(year + 1, 1, 1) - first;
    let dim = days_in_month_spec(year, mm);
    lemma_month_starts(year, mm);
    lemma_month_starts(year, 12);
    lemma_month_length(year, 12);
    lemma_month_length(year, mm);
    lemma_cumulative_common(mm + 1);
    reveal_with_fuel(cumulative_common, 13);
    assert(cumulative_common(13) == 365);
    assert(cumulative_common(mm + 1) == cumulative_common(mm) + common_month_len(mm));
    if rem < dim {
        assert(days_from_civil_spec(year, mm, rem + 1) == days_from_civil_spec(year, mm, 1) + rem);
    } else if mm == 12 {
        assert(days_from_civil_spec(year, 12, dim) == days_from_civil_spec(year, 12, 1) + dim - 1);
    } else {
        lemma_zero_walk(year, n, rem - dim, mm + 1);
    }
}

/// Law: `n` (zero-based) selects, in `year`, the day `n` days after January 1 (February 29
/// counted), or December 31 when the year has no day `n`.
pub proof fn lemma_zero_based_day(year: int, n: i64)
    requires
        0 <= n <= 365,
    ensures
        ({
            let (m, dom) = rule_md(Rule::ZeroBased(n), year);
            let ylen = days_from_civil_spec(year + 1, 1, 1) - days_from_civil_spec(year, 1, 1);
            &&& 1 <= m <= 12
            &&& 1 <= dom <= days_in_month_spec(year, m)
            &&& days_from_civil_spec(year, m, dom) - days_from_civil_spec(year, 1, 1) == (if n
                < ylen {
                n as int
            } else {
                ylen - 1
            })
        }),
{
    lemma_zero_walk(year, n as int, n as int, 1);
}

/// The UTC instant daylight time starts in year `yr`: the start rule's local date and time,
/// read on standard time.
pub open spec fn dst_start_instant(z: TzModel, d: DstModel, yr: int) -> int {
    rule_instant(d.start, d.start_time as int, yr, z.std_utoff as int)
}

/// The UTC instant daylight time ends in year `yr`: the end rule's local date and time, read on
/// daylight time.
pub open spec fn dst_end_instant(d: DstModel, yr: int) -> int {
    rule_instant(d.end, d.end_time as int, yr, d.dst_utoff as int)
}

/// Law: where daylight time starts and ends once a year, start before end (northern order), and
/// these instants run in strictly ascending order over the years around `t`, daylight time is
/// in effect at `t` exactly when `t` lies in one of those years' `[start, end)` spans.
#[verifier::rlimit(40)]
pub proof fn lemma_dst_spans_northern(z: TzModel, t: int)
    requires
        z.dst is Some,
        ({
            let d = z.dst->Some_0;
            let y = local_year(z, t);
            &&& dst_start_instant(z, d, y - 1) < dst_end_instant(d, y - 1)
            &&& dst_end_instant(d, y - 1) < dst_start_instant(z, d, y)
            &&& dst_start_instant(z, d, y) < dst_end_instant(d, y)
            &&& dst_end_instant(d, y) < dst_start_instant(z, d, y + 1)
            &&& dst_start_instant(z, d, y + 1) < dst_end_instant(d, y + 1)
        }),
    ensures
        ({
            let d = z.dst->Some_0;
            let y = local_year(z, t);
            tz_observe_spec(z, t).is_dst <==> (exists|k: int|
                y - 1 <= k <= y + 1 && dst_start_instant(z, d, k) <= t < #[trigger] dst_end_instant(
                    d,
                    k,
                ))
        }),
{
    let d = z.dst->Some_0;
    let y = local_year(z, t);
    let c = candidate_transitions(z, d, t);
    reveal_with_fuel(latest_idx, 7);
    reveal_with_fuel(earliest_idx, 7);
    assert(c[0].0 == dst_start_instant(z, d, y - 1) && c[1].0 == dst_end_instant(d, y - 1));
    assert(c[2].0 == dst_start_instant(z, d, y) && c[3].0 == dst_end_instant(d, y));
    assert(c[4].0 == dst_start_instant(z, d, y + 1) && c[5].0 == dst_end_instant(d, y + 1));
    if exists|k: int|
        y - 1 <= k <= y + 1 && dst_start_instant(z, d, k) <= t < #[trigger] dst_end_instant(d, k) {
        let k = choose|k: int|
            y - 1 <= k <= y + 1 && dst_start_instant(z, d, k) <= t < #[trigger] dst_end_instant(
                d,
                k,
            );
        assert(k == y - 1 || k == y || k == y + 1);
    } else {
        assert(!(dst_start_instant(z, d, y - 1) <= t < dst_end_instant(d, y - 1)));
        assert(!(dst_start_instant(z, d, y) <= t < dst_end_instant(d, y)));
        assert(!(dst_start_instant(z, d, y + 1) <= t < dst_end_instant(d, y + 1)));
    }
}

/// Law: where daylight time starts and ends once a year, end before start (southern order), and
/// these instants run in strictly ascending order over the years around `t`, daylight time is
/// in effect at `t` exactly when `t` is not in one of those years' `[end, start)` spans.
#[verifier::rlimit(40)]
pub proof fn lemma_dst_spans_southern(z: TzModel, t: int)
    requires
        z.dst is Some,
        ({
            let d = z.dst->Some_0;
            let y = local_year(z, t);
            &&& dst_end_instant(d, y - 1) < dst_start_instant(z, d, y - 1)
            &&& dst_start_instant(z, d, y - 1) < dst_end_instant(d, y)
            &&& dst_end_instant(d, y) < dst_start_instant(z, d, y)
            &&& dst_start_instant(z, d, y) < dst_end_instant(d, y + 1)
            &&& dst_end_instant(d, y + 1) < dst_start_instant(z, d, y + 1)
        }),
    ensures
        ({
            let d = z.dst->Some_0;
            let y = local_year(z, t);
            tz_observe_spec(z, t).is_dst <==> !(exists|k: int|
                y - 1 <= k <= y + 1 && #[trigger] dst_end_instant(d, k) <= t < dst_start_instant(
                    z,
                    d,
                    k,
                ))
        }),
{
    let d = z.dst->Some_0;
    let y = local_year(z, t);
    let c = candidate_transitions(z, d, t);
    reveal_with_fuel(latest_idx, 7);
    reveal_with_fuel(earliest_idx, 7);
    assert(c[0].0 == dst_start_instant(z, d, y - 1) && c[1].0 == dst_end_instant(d, y - 1));
    assert(c[2].0 == dst_start_instant(z, d, y) && c[3].0 == dst_end_instant(d, y));
    assert(c[4].0 == dst_start_instant(z, d, y + 1) && c[5].0 == dst_end_instant(d, y + 1));
    if exists|k: int|
        y - 1 <= k <= y + 1 && #[trigger] dst_end_instant(d, k) <= t < dst_start_instant(z, d, k) {
        let k = choose|k: int|
            y - 1 <= k <= y + 1 && #[trigger] dst_end_instant(d, k) <= t < dst_start_instant(
                z,
                d,
                k,
            );
        assert(k == y - 1 || k == y || k == y + 1);
    } else {
        assert(!(dst_end_instant(d, y - 1) <= t < dst_start_instant(z, d, y - 1)));
        assert(!(dst_end_instant(d, y) <= t < dst_start_instant(z, d, y)));
        assert(!(dst_end_instant(d, y + 1) <= t < dst_start_instant(z, d, y + 1)));
    }
}

proof fn lemma_digit_end_at(b: Seq<char>, i: int, j: int)
    requires
        0 <= i <= j <= b.len(),
        forall|k: int| i <= k < j ==> is_digit(#[trigger] b[k]),
        j == b.len() || !is_digit(b[j]),
    ensures
        digit_end(b, i) == j,
    decreases j - i,
{
    if i < j {
        lemma_digit_end_at(b, i + 1, j);
    }
}

/// A run of digits `ds` at position `pre.len()` of `pre + ds + rest`, with `rest` not going on
/// with a digit, reads as its decimal value.
proof fn lemma_uint_run(pre: Seq<char>, ds: Seq<char>, rest: Seq<char>)
    requires
        ds.len() >= 1,
        all_digits(ds),
        digits_value(ds) <= u64::MAX,
        rest.len() == 0 || !is_digit(rest[0]),
    ensures
        uint_at(pre + ds + rest, pre.len() as int) == Some(
            (digits_value(ds) as u64, (pre.len() + ds.len()) as int),
        ),
{
    let b = pre + ds + rest;
    let i = pre.len() as int;
    let j = i + ds.len();
    assert forall|k: int| i <= k < j implies is_digit(#[trigger] b[k]) by {
        assert(b[k] == ds[k - i]);
    }
    if j < b.len() {
        assert(b[j] == rest[0]);
    }
    lemma_digit_end_at(b, i, j);
    assert(b.subrange(i, j) == ds);
}

/// The text of a rule time: an optional minus sign, then the hour digits, and, when `tail` is
/// given, `:` minute digits `:` second digits.
pub open spec fn time_text(neg: bool, h: Seq<char>, tail: Option<(Seq<char>, Seq<char>)>) -> Seq<
    char,
> {
    (if neg {
        seq!['-']
    } else {
        Seq::empty()
    }) + h + match tail {
        Some((mm, ss)) => seq![':'] + mm + seq![':'] + ss,
        None => Seq::empty(),
    }
}

/// Law: a rule time reads as the hours, minutes and seconds its digits spell, whatever their
/// size (hours beyond 24 included): `[-]h[:m:s]` denotes `±(h·3600 + m·60 + s)` seconds,
/// whenever that fits in an `i64`, and the reading stops right after the last field.
pub proof fn lemma_rule_time_value(
    neg: bool,
    h: Seq<char>,
    tail: Option<(Seq<char>, Seq<char>)>,
    rest: Seq<char>,
)
    requires
        h.len() >= 1,
        all_digits(h),
        tail matches Some((mm, ss)) ==> mm.len() >= 1 && ss.len() >= 1 && all_digits(mm)
            && all_digits(ss),
        digits_value(h) * 3600 + (match tail {
            Some((mm, ss)) => digits_value(mm) * 60 + digits_value(ss),
            None => 0,
        }) <= i64::MAX,
        rest.len() == 0 || (!is_digit(rest[0]) && (tail is None ==> rest[0] != ':')),
    ensures
        ({
            let total = digits_value(h) * 3600 + (match tail {
                Some((mm, ss)) => digits_value(mm) * 60 + digits_value(ss),
                None => 0,
            });
            let t = time_text(neg, h, tail);
            signed_time_at(t + rest, 0) == Some(
                ((if neg { -total } else { total as int }) as i64, t.len() as int),
            )
        }),
{
    match tail {
        None => lemma_rule_time_hours(neg, h, rest),
        Some((mm, ss)) => lemma_rule_time_clock(neg, h, mm, ss, rest),
    }
}

#[verifier::spinoff_prover]
proof fn lemma_rule_time_hours(neg: bool, h: Seq<char>, rest: Seq<char>)
    requires
        h.len() >= 1,
        all_digits(h),
        digits_value(h) * 3600 <= i64::MAX,
        rest.len() == 0 || (!is_digit(rest[0]) && rest[0] != ':'),
    ensures
        ({
            let total = digits_value(h) * 3600;
            let t = time_text(neg, h, None);
            signed_time_at(t + rest, 0) == Some(
                ((if neg { -total } else { total as int }) as i64, t.len() as int),
            )
        }),
{
    let sg: Seq<char> = if neg { seq!['-'] } else { Seq::empty() };
    let t = time_text(neg, h, None);
    assert(t == sg + h);
    let b = t + rest;
    assert(b == sg + h + rest);
    let hv = digits_value(h);
    assert(sign_at(b, 0) == (if neg { -1int } else { 1int }, sg.len() as int));
    lemma_uint_run(sg, h, rest);
    let i2 = (sg.len() + h.len()) as int;
    assert(uint_at(b, sg.len() as int) == Some((hv as u64, i2)));
    assert(((hv as u64) as i64) == hv);
    assert(!(0 <= i2 < b.len() && b[i2] == ':')) by {
        if i2 < b.len() {
            assert(b[i2] == rest[0]);
        }
    }
    assert(clock_tail_i64(b, i2, (hv * 3600) as int) == Some(((hv * 3600) as int, i2)));
}

proof fn lemma_clock_tail(b: Seq<char>, i2: int, secs: int, mv: nat, i3: int, sv: nat, j: int)
    requires
        0 <= i2 < b.len(),
        b[i2] == ':',
        0 <= i3 < b.len(),
        b[i3] == ':',
        mv <= u64::MAX,
        sv <= u64::MAX,
        uint_at(b, i2 + 1) == Some((mv as u64, i3)),
        uint_at(b, i3 + 1) == Some((sv as u64, j)),
        0 <= secs,
        secs + mv * 60 + sv <= i64::MAX,
    ensures
        clock_tail_i64(b, i2, secs) == Some((secs + mv * 60 + sv, j)),
{
    assert(((mv as u64) as i64) == mv);
    assert(((sv as u64) as i64) == sv);
}

#[verifier::spinoff_prover]
#[verifier::rlimit(40)]
proof fn lemma_rule_time_clock(
    neg: bool,
    h: Seq<char>,
    mm: Seq<char>,
    ss: Seq<char>,
    rest: Seq<char>,
)
    requires
        h.len() >= 1 && mm.len() >= 1 && ss.len() >= 1,
        all_digits(h) && all_digits(mm) && all_digits(ss),
        digits_value(h) * 3600 + digits_value(mm) * 60 + digits_value(ss) <= i64::MAX,
        rest.len() == 0 || !is_digit(rest[0]),
    ensures
        ({
            let total = digits_value(h) * 3600 + digits_value(mm) * 60 + digits_value(ss);
            let t = time_text(neg, h, Some((mm, ss)));
            signed_time_at(t + rest, 0) == Some(
                ((if neg { -total } else { total as int }) as i64, t.len() as int),
            )
        }),
{
    let sg: Seq<char> = if neg { seq!['-'] } else { Seq::empty() };
    let t = time_text(neg, h, Some((mm, ss)));
    let b = t + rest;
    let hv = digits_value(h);
    let mv = digits_value(mm);
    let sv = digits_value(ss);
    let i2 = (sg.len() + h.len()) as int;
    let i3 = i2 + 1 + mm.len();
    let j = i3 + 1 + ss.len();
    assert(t.len() == j);
    assert(sign_at(b, 0) == (if neg { -1int } else { 1int }, sg.len() as int));
    assert(uint_at(b, sg.len() as int) == Some((hv as u64, i2)) && b[i2] == ':') by {
        let r1 = seq![':'] + mm + seq![':'] + ss + rest;
        assert(b == sg + h + r1);
        assert(r1[0] == ':');
        lemma_uint_run(sg, h, r1);
    }
    assert(uint_at(b, i2 + 1) == Some((mv as u64, i3)) && b[i3] == ':') by {
        let p2 = sg + h + seq![':'];
        let r2 = seq![':'] + ss + rest;
        assert(b == p2 + mm + r2);
        assert(r2[0] == ':');
        lemma_uint_run(p2, mm, r2);
    }
    assert(uint_at(b, i3 + 1) == Some((sv as u64, j))) by {
        let p3 = sg + h + seq![':'] + mm + seq![':'];
        assert(b == p3 + ss + rest);
        lemma_uint_run(p3, ss, rest);
    }
    assert(((hv as u64) as i64) == hv);
    lemma_clock_tail(b, i2, (hv * 3600) as int, mv, i3, sv, j);
    let total: int = (hv * 3600 + mv * 60 + sv) as int;
    let sign: int = if neg { -1 } else { 1 };
    assert(sign * total == (if neg { -total } else { total })) by (nonlinear_arith)
        requires
            sign == (if neg { -1int } else { 1int }),
    ;
    assert(signed_time_at(b, 0) == Some(((sign * total) as i64, j)));
}

} // verus!
