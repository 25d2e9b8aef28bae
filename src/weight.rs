use vstd::prelude::*;

verus! {

/// Number of notes picked for one day.
pub const DAILY_QUOTA: usize = 3;

/// Weight of a note that was never reviewed: the base weight plus full urgency.
pub const UNSEEN_WEIGHT: u64 = 110;

/// No note weighs less than this, so each keeps a chance to be picked.
pub const MINIMUM_WEIGHT: u64 = 1;

/// A calendar date, held as the number of days since 0001-01-01 (that day is 1).
#[derive(Clone, Copy, Debug, PartialEq, Eq, Structural)]
pub struct Date {
    pub day: i32,
}

/// What `chrono::NaiveDate::parse_from_str(s, "%Y-%m-%d")` gives for `s`, as a day number.
pub uninterp spec fn iso_date_day(s: Seq<char>) -> Option<i32>;

/// Relies on chrono::NaiveDate::parse_from_str with the format `%Y-%m-%d`; the date is
/// carried over as its day number (`Datelike::num_days_from_ce`).
#[verifier::external_body]
fn parse_iso_date(s: &str) -> (r: Option<Date>)
    ensures
        r matches Some(d) ==> iso_date_day(s@) == Some(d.day),
        r is None ==> iso_date_day(s@) is None,
{
    chrono::NaiveDate::parse_from_str(s, "%Y-%m-%d")
        .ok()
        .map(|d| Date { day: chrono::Datelike::num_days_from_ce(&d) })
}

/// The day a run works for: the date given on the command line when it parses,
/// else `now`.
pub fn resolve_today(date_arg: Option<&str>, now: Date) -> (r: Date)
    ensures
        r == (match date_arg {
            Some(s) => match iso_date_day(s@) {
                Some(d) => Date { day: d },
                None => now,
            },
            None => now,
        }),
{
    match date_arg {
        Some(s) => match parse_iso_date(s) {
            Some(d) => d,
            None => now,
        },
        None => now,
    }
}

/// `ceil(n * 2 / DAILY_QUOTA)`: the gap assumed for a reviewed note without a date.
pub open spec fn spec_max_lookback(catalog_size: nat) -> int {
    (2 * catalog_size + DAILY_QUOTA - 1) / (DAILY_QUOTA as int)
}

/// Days elapsed since the last review, never negative; `max_lookback` when the date is missing.
pub open spec fn spec_days_since_last(last: Option<Date>, today: Date, max_lookback: u64) -> int {
    match last {
        Some(d) => if today.day >= d.day { today.day - d.day } else { 0 },
        None => max_lookback as int,
    }
}

/// The weight of a note with `review_count` reviews; `reviewed_score` is the rounded
/// score `10 + priority - penalty` of a note that has been reviewed.
pub open spec fn spec_weight(review_count: u32, reviewed_score: i64) -> int {
    if review_count == 0 {
        UNSEEN_WEIGHT as int
    } else if reviewed_score < MINIMUM_WEIGHT {
        MINIMUM_WEIGHT as int
    } else {
        reviewed_score as int
    }
}

/// The gap assumed for a reviewed note whose last date is unknown, for a catalog of
/// `catalog_size` notes.
pub fn max_lookback(catalog_size: usize) -> (r: u64)
    ensures
        r == spec_max_lookback(catalog_size as nat),
        r as int * DAILY_QUOTA >= 2 * catalog_size,
        (r as int - 1) * DAILY_QUOTA < 2 * catalog_size,
{
    let n = catalog_size as u64;
    let w: u128 = 2 * (n as u128) + (DAILY_QUOTA as u128 - 1);
    let r: u128 = w / (DAILY_QUOTA as u128);
    r as u64
}

/// Days since the last review, as the weight uses them.
pub fn days_since_last(last: Option<Date>, today: Date, max_lookback: u64) -> (r: u64)
    ensures
        r == spec_days_since_last(last, today, max_lookback),
{
    match last {
        Some(d) => {
            if today.day >= d.day {
                (today.day as i64 - d.day as i64) as u64
            } else {
                0
            }
        },
        None => max_lookback,
    }
}

/// A later day never gives fewer days since the last review.
pub proof fn lemma_days_monotone(last: Option<Date>, t1: Date, t2: Date, max_lookback: u64)
    requires
        t1.day <= t2.day,
    ensures
        spec_days_since_last(last, t1, max_lookback) <= spec_days_since_last(last, t2, max_lookback),
{
}

/// The weight never falls as the rounded score rises, the review count held fixed.
pub proof fn lemma_weight_monotone_in_score(review_count: u32, s1: i64, s2: i64)
    requires
        s1 <= s2,
    ensures
        spec_weight(review_count, s1) <= spec_weight(review_count, s2),
{
}

/// A note never reviewed weighs at least as much as a reviewed one whose rounded score
/// is at most the base weight plus full urgency, as it always is.
pub proof fn lemma_unseen_weighs_most(review_count: u32, reviewed_score: i64)
    requires
        reviewed_score <= UNSEEN_WEIGHT,
    ensures
        spec_weight(0, reviewed_score) >= spec_weight(review_count, reviewed_score),
        spec_weight(review_count, reviewed_score) >= MINIMUM_WEIGHT,
{
}

/// The selection weight of a note. A note never reviewed has full urgency and weighs
/// `UNSEEN_WEIGHT`, whatever its date; otherwise the rounded score counts, but never
/// below `MINIMUM_WEIGHT`.
pub fn weight(review_count: u32, reviewed_score: i64) -> (r: u64)
    ensures
        r == spec_weight(review_count, reviewed_score),
        r >= MINIMUM_WEIGHT,
        review_count == 0 ==> r == UNSEEN_WEIGHT,
{
    if review_count == 0 {
        UNSEEN_WEIGHT
    } else if reviewed_score < MINIMUM_WEIGHT as i64 {
        MINIMUM_WEIGHT
    } else {
        reviewed_score as u64
    }
}

} // verus!
