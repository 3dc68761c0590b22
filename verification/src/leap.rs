//! Leap-second wall rendering for `right/` zones — the `23:59:60` display.
//!
//! A `right/` TZif stores transition/leap times on a continuous (leap-inclusive) scale. For a
//! positive leap entry `(occur, corr)` the value `occur - corr` lands on `HH:MM:59` of the leap
//! day, and the inserted second is shown as `HH:MM:60`. This module renders that display and the
//! cumulative-correction lookup.
use vstd::prelude::*;
use crate::civil::{civil_from_days, civil_from_days_spec, stamp_text};
use crate::text::string_of;
use crate::tzif::LeapSecond;

verus! {

/// Length of the leading run of leaps whose occurrence is at or before `t`.
pub open spec fn leading_at_or_before(leaps: Seq<LeapSecond>, t: int) -> nat
    decreases leaps.len(),
{
    if leaps.len() == 0 || leaps[0].occur > t {
        0
    } else {
        1 + leading_at_or_before(leaps.drop_first(), t)
    }
}

/// The correction of the last leap in that run (scanning stops at the first leap after `t`), or
/// 0 when the run is empty.
pub open spec fn corr_at_spec(leaps: Seq<LeapSecond>, t: int) -> i32 {
    let k = leading_at_or_before(leaps, t);
    if k == 0 {
        0
    } else {
        leaps[k - 1].corr
    }
}

proof fn lemma_leading_bound(leaps: Seq<LeapSecond>, t: int)
    ensures
        leading_at_or_before(leaps, t) <= leaps.len(),
        forall|j: int| 0 <= j < leading_at_or_before(leaps, t) ==> leaps[j].occur <= t,
        leading_at_or_before(leaps, t) < leaps.len() ==> leaps[leading_at_or_before(
            leaps,
            t,
        ) as int].occur > t,
    decreases leaps.len(),
{
    if leaps.len() > 0 && leaps[0].occur <= t {
        lemma_leading_bound(leaps.drop_first(), t);
        assert forall|j: int| 0 <= j < leading_at_or_before(leaps, t) implies leaps[j].occur
            <= t by {
            if j > 0 {
                assert(leaps[j] == leaps.drop_first()[j - 1]);
            }
        }
    }
}

proof fn lemma_leading_unique(leaps: Seq<LeapSecond>, t: int, k: int)
    requires
        0 <= k <= leaps.len(),
        forall|j: int| 0 <= j < k ==> leaps[j].occur <= t,
        k < leaps.len() ==> leaps[k].occur > t,
    ensures
        leading_at_or_before(leaps, t) == k,
    decreases leaps.len(),
{
    if k > 0 {
        assert forall|j: int| 0 <= j < k - 1 implies leaps.drop_first()[j].occur <= t by {
            assert(leaps.drop_first()[j] == leaps[j + 1]);
        }
        lemma_leading_unique(leaps.drop_first(), t, k - 1);
    }
}

/// Cumulative leap correction in effect at a `right/`-scale instant `t` (the corr of the latest
/// leap whose occurrence is at or before `t`). Lets a caller map a `right/` stored time to pure
/// UTC: `utc = t - corr`.
pub fn corr_at(leaps: &[LeapSecond], t: i64) -> (c: i32)
    ensures
        c == corr_at_spec(leaps@, t as int),
{
    let mut c: i32 = 0;
    let mut i: usize = 0;
    while i < leaps.len()
        invariant
            i <= leaps.len(),
            forall|j: int| 0 <= j < i ==> leaps@[j].occur <= t,
            c == (if i == 0 { 0 } else { leaps@[i - 1].corr }),
        decreases leaps.len() - i,
    {
        if leaps[i].occur <= t {
            c = leaps[i].corr;
        } else {
            proof { lemma_leading_unique(leaps@, t as int, i as int); }
            return c;
        }
        i = i + 1;
    }
    proof { lemma_leading_unique(leaps@, t as int, i as int); }
    c
}

/// Law: when corrections never decrease along the table and none is negative, the correction in
/// effect never decreases as the instant advances.
pub proof fn lemma_corr_at_monotone(leaps: Seq<LeapSecond>, t1: int, t2: int)
    requires
        t1 <= t2,
        forall|i: int, j: int| 0 <= i <= j < leaps.len() ==> leaps[i].corr <= leaps[j].corr,
        forall|i: int| 0 <= i < leaps.len() ==> leaps[i].corr >= 0,
    ensures
        corr_at_spec(leaps, t1) <= corr_at_spec(leaps, t2),
{
    lemma_leading_bound(leaps, t1);
    lemma_leading_bound(leaps, t2);
    let k1 = leading_at_or_before(leaps, t1);
    let k2 = leading_at_or_before(leaps, t2);
    assert(k1 <= k2) by {
        if k1 > k2 {
            assert(leaps[k2 as int].occur <= t1);
        }
    }
}

/// The text shown for a leap entry: the instant `occur - corr` rendered as a UTC stamp, its
/// seconds field shown as 60 when it is 59.
pub open spec fn leap_text(occur: int, corr: int) -> Seq<char> {
    let t = occur - corr;
    let days = t / 86400;
    let secs = t % 86400;
    let (y, m, d) = civil_from_days_spec(days);
    let ss = secs % 60;
    stamp_text(y, m, d, secs / 3600, (secs % 3600) / 60, if ss == 59 { 60 } else { ss })
}

/// The displayed UTC leap-second instant for a positive leap entry, as `YYYY-MM-DDTHH:MM:60Z`.
/// `occur - corr` is the `HH:MM:59` second immediately before the day boundary; the leap is the
/// next (inserted) second, shown with a seconds field of 60.
pub fn displayed_leap(occur: i64, corr: i32) -> (r: String)
    requires
        i64::MIN <= occur - corr <= i64::MAX,
    ensures
        r@ == leap_text(occur as int, corr as int),
{
    let t = occur - corr as i64;
    let (days, secs) = crate::civil::split_day(t);
    let (y, m, d) = civil_from_days(days);
    let ss = secs % 60;
    let shown = if ss == 59 { 60 } else { ss };
    let mut out: Vec<char> = Vec::new();
    crate::civil::push_stamp(&mut out, y, m, d, secs / 3600, (secs % 3600) / 60, shown);
    string_of(&out)
}

} // verus!
