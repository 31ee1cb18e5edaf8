//! Calendar and timetable rules: which day an instant falls on, on which
//! days an operating period runs, and which journey a passenger catches.
//!
//! Instants are milliseconds since 1970-01-01 00:00 UTC, days are counted
//! from that date, and durations are milliseconds.
//!
//! A journey whose arrival minute lies before the current time of day
//! arrives on the next day: it lasts the time left until midnight plus the
//! arrival minute.

use crate::graph::{EdgeModel, Error, JourneyModel, PeriodModel, NO_WALK};
use chrono::{Datelike, NaiveDate};
use vstd::prelude::*;

verus! {

/// Milliseconds in one day.
pub const MILLIS_PER_DAY: i64 = 86_400_000;

/// Milliseconds in one minute.
pub const MILLIS_PER_MINUTE: i64 = 60_000;

/// Minutes in one day.
pub const MINUTES_PER_DAY: u16 = 1440;

/// The day number of 1970-01-01 where 0001-01-01 is day 1.
pub const EPOCH_DAY: i32 = 719_163;

/// The last year, counted from 2000, that an encoded date may name.
pub const MAX_YEAR_OFFSET: u32 = 127;

/// The day number of a date of the proleptic Gregorian calendar, where
/// 0001-01-01 is day 1, or `None` where the calendar has no such date.
pub uninterp spec fn civil_day_number(year: int, month: int, day: int) -> Option<int>;

/// `chrono::NaiveDate::from_ymd_opt` followed by
/// `chrono::Datelike::num_days_from_ce`: the day number of a calendar date,
/// or `None` where the date does not exist.
#[verifier::external_body]
fn day_number(year: i32, month: u32, day: u32) -> (r: Option<i32>)
    ensures
        (match r {
            Some(n) => Some(n as int),
            None => None::<int>,
        }) == civil_day_number(year as int, month as int, day as int),
{
    match NaiveDate::from_ymd_opt(year, month, day) {
        Some(date) => Some(date.num_days_from_ce()),
        None => None,
    }
}

/// The day, counted from 1970-01-01, that an encoded date names. A date is
/// encoded as `(year - 2000) * 10000 + month * 100 + day`; years after 2127
/// and dates that the calendar does not have name no day.
pub open spec fn date_day(encoded: u32) -> Option<int> {
    if encoded / 10000 > MAX_YEAR_OFFSET {
        None
    } else {
        match civil_day_number(
            2000 + encoded / 10000,
            ((encoded / 100) % 100) as int,
            (encoded % 100) as int,
        ) {
            Some(n) => Some(n - EPOCH_DAY),
            None => None,
        }
    }
}

/// Decodes a date to its day, counted from 1970-01-01.
pub fn decode_date(encoded: u32) -> (r: Option<i64>)
    ensures
        (match r {
            Some(n) => Some(n as int),
            None => None::<int>,
        }) == date_day(encoded),
        r is Some ==> i32::MIN - EPOCH_DAY <= r->0 <= i32::MAX - EPOCH_DAY,
{
    let year: u32 = encoded / 10000;
    if year > MAX_YEAR_OFFSET {
        return None;
    }
    match day_number(2000 + year as i32, (encoded / 100) % 100, encoded % 100) {
        Some(n) => Some(n as i64 - EPOCH_DAY as i64),
        None => None,
    }
}

/// The day, counted from 1970-01-01, on which an instant falls.
pub open spec fn day_of(instant: int) -> int {
    instant / (MILLIS_PER_DAY as int)
}

/// The milliseconds that have passed since midnight at an instant.
pub open spec fn millis_of_day(instant: int) -> int {
    instant % (MILLIS_PER_DAY as int)
}

/// Splits the instant `start + elapsed` into its day and its milliseconds
/// since midnight.
pub fn split_instant(start: i64, elapsed: i64) -> (r: (i64, u32))
    requires
        elapsed >= 0,
    ensures
        r.0 == day_of(start + elapsed),
        r.1 == millis_of_day(start + elapsed),
{
    // Days are counted from a day far enough in the past for every instant
    // to be positive.
    let shift_days: u128 = 106_751_991_168;
    let day: u128 = 86_400_000;
    let shifted: u128 = (start as i128 + elapsed as i128 + (shift_days * day) as i128) as u128;
    let whole: u128 = shifted / day;
    let rest: u128 = shifted % day;
    proof {
        let t = start + elapsed;
        assert(shifted == t + 106_751_991_168 * 86_400_000);
        assert(t == 86_400_000 * (whole - 106_751_991_168) + rest);
        assert(whole - 106_751_991_168 == t / 86_400_000 && rest == t % 86_400_000) by {
            vstd::arithmetic::div_mod::lemma_fundamental_div_mod_converse(
                t,
                86_400_000,
                whole - 106_751_991_168,
                rest as int,
            );
        }
    }
    ((whole as i128 - shift_days as i128) as i64, rest as u32)
}

/// Whether bit `bit` of `byte` is set, bit 0 being the least significant.
pub open spec fn bit_set(byte: u8, bit: u8) -> bool {
    byte & (1u8 << bit) != 0
}

/// Tests bit `bit` of `byte`, bit 0 being the least significant.
pub fn test_bit(byte: u8, bit: u8) -> (r: bool)
    requires
        bit < 8,
    ensures
        r == bit_set(byte, bit),
{
    byte & (1u8 << bit) != 0
}

/// Whether a period that lasts from day `first` to day `last` and has the
/// bitmap `valid_days` runs on `day`.
///
/// A period never runs outside its window. Inside, day `k` of the window is
/// bit `k % 8` of byte `k / 8` of the bitmap. A bitmap that has no byte for
/// the day is malformed.
pub open spec fn runs_on(first: int, last: int, valid_days: Seq<u8>, day: int) -> Result<
    bool,
    Error,
> {
    if day < first || day > last {
        Ok(false)
    } else if (day - first) / 8 >= valid_days.len() {
        Err(Error::MalformedGraph)
    } else {
        Ok(bit_set(valid_days[(day - first) / 8], ((day - first) % 8) as u8))
    }
}

/// Decides whether a period that lasts from day `first` to day `last` and
/// has the bitmap `valid_days` runs on `day`.
pub fn runs_on_day(first: i64, last: i64, valid_days: &[u8], day: i64) -> (r: Result<bool, Error>)
    ensures
        r == runs_on(first as int, last as int, valid_days@, day as int),
{
    if day < first || day > last {
        return Ok(false);
    }
    let offset: u128 = (day as i128 - first as i128) as u128;
    let index: u128 = offset / 8;
    if index >= valid_days.len() as u128 {
        return Err(Error::MalformedGraph);
    }
    Ok(test_bit(valid_days[index as usize], (offset % 8) as u8))
}

/// Whether an operating period runs on `day`, counted from 1970-01-01. A
/// period whose first or last day is no date is malformed.
pub open spec fn valid_on_spec(period: PeriodModel, day: int) -> Result<bool, Error> {
    match (date_day(period.start), date_day(period.end)) {
        (Some(first), Some(last)) => runs_on(first, last, period.valid_days, day),
        _ => Err(Error::MalformedGraph),
    }
}

/// Whether a journey of `edge` can be caught at `millis` milliseconds after
/// midnight of `day`: it has not left yet and its operating period runs on
/// that day.
pub open spec fn catchable(edge: EdgeModel, journey: JourneyModel, day: int, millis: int) -> bool {
    &&& journey.departure * MILLIS_PER_MINUTE >= millis
    &&& journey.period < edge.periods.len()
    &&& valid_on_spec(edge.periods[journey.period as int], day) == Ok::<bool, Error>(true)
}

/// The journey caught among the first `k` journeys of `edge`, scanning in
/// file order.
///
/// A journey is looked at when it has not left yet and does not leave after
/// the best one found so far. Only then is its operating period decoded, so
/// only then can a malformed record stop the scan. A departure minute that
/// is not a minute of the day stops it at once.
pub open spec fn scan_journeys(edge: EdgeModel, day: int, millis: int, k: nat) -> Result<
    Option<JourneyModel>,
    Error,
>
    decreases k,
{
    if k == 0 {
        Ok(None)
    } else {
        match scan_journeys(edge, day, millis, (k - 1) as nat) {
            Err(e) => Err(e),
            Ok(best) => {
                let journey = edge.journeys[k - 1];
                if journey.departure >= MINUTES_PER_DAY {
                    Err(Error::MalformedGraph)
                } else if (best is Some && journey.departure > best->0.departure)
                    || journey.departure * MILLIS_PER_MINUTE < millis {
                    Ok(best)
                } else if journey.period >= edge.periods.len() {
                    Err(Error::MalformedGraph)
                } else {
                    match valid_on_spec(edge.periods[journey.period as int], day) {
                        Err(e) => Err(e),
                        Ok(true) => Ok(Some(journey)),
                        Ok(false) => Ok(best),
                    }
                }
            },
        }
    }
}

/// The journey a passenger catches on `edge` at `millis` milliseconds after
/// midnight of `day`, if any. The next day is never searched.
pub open spec fn next_journey_spec(edge: EdgeModel, day: int, millis: int) -> Result<
    Option<JourneyModel>,
    Error,
> {
    scan_journeys(edge, day, millis, edge.journeys.len())
}

/// How long a journey takes a passenger who waits for it from `millis`
/// milliseconds after midnight on: up to its arrival on the same day, or on
/// the next day where the arrival minute lies before `millis`.
pub open spec fn ride_duration(journey: JourneyModel, millis: int) -> int {
    if journey.arrival * MILLIS_PER_MINUTE >= millis {
        journey.arrival * MILLIS_PER_MINUTE - millis
    } else {
        MILLIS_PER_DAY - millis + journey.arrival * MILLIS_PER_MINUTE
    }
}

/// The duration of the ride on `edge` for a passenger who is at its start at
/// `millis` milliseconds after midnight of `day`; `None` where no journey
/// can be caught.
pub open spec fn next_journey_duration_spec(edge: EdgeModel, day: int, millis: int) -> Result<
    Option<int>,
    Error,
> {
    match next_journey_spec(edge, day, millis) {
        Err(e) => Err(e),
        Ok(None) => Ok(None),
        Ok(Some(journey)) => {
            if journey.arrival >= MINUTES_PER_DAY {
                Err(Error::MalformedGraph)
            } else {
                Ok(Some(ride_duration(journey, millis)))
            }
        },
    }
}

/// The duration of the walk along `edge`, if it can be walked.
pub open spec fn walk_duration(edge: EdgeModel) -> Option<int> {
    if edge.walk == NO_WALK {
        None
    } else {
        Some(edge.walk * 1000)
    }
}

/// What it costs to cross `edge` for a passenger who is at its start at the
/// instant `now`: the shorter of walk and ride, or `None` where the edge can
/// be neither walked nor ridden now.
pub open spec fn step_cost(edge: EdgeModel, now: int) -> Result<Option<int>, Error> {
    match next_journey_duration_spec(edge, day_of(now), millis_of_day(now)) {
        Err(e) => Err(e),
        Ok(ride) => Ok(
            match (walk_duration(edge), ride) {
                (None, None) => None,
                (None, Some(r)) => Some(r),
                (Some(w), None) => Some(w),
                (Some(w), Some(r)) => Some(
                    if w <= r {
                        w
                    } else {
                        r
                    },
                ),
            },
        ),
    }
}

/// On the first day of its window a period runs exactly when the lowest bit
/// of the first byte of its bitmap is set.
pub proof fn lemma_runs_on_first_day(first: int, last: int, valid_days: Seq<u8>)
    requires
        first <= last,
        valid_days.len() > 0,
    ensures
        runs_on(first, last, valid_days, first) == Ok::<bool, Error>(bit_set(valid_days[0], 0)),
{
}

/// An operating period whose window is not empty runs on the day that its
/// start names exactly when the lowest bit of the first byte of its bitmap is
/// set.
pub proof fn lemma_valid_on_first_day(period: PeriodModel)
    ensures
        date_day(period.start) is Some && date_day(period.end) is Some && date_day(
            period.start,
        )->0 <= date_day(period.end)->0 && period.valid_days.len() > 0 ==> valid_on_spec(
            period,
            date_day(period.start)->0,
        ) == Ok::<bool, Error>(bit_set(period.valid_days[0], 0)),
{
}

/// The journey that a scan finds can be caught, and no journey that can be
/// caught leaves before it. Where a scan finds none, none can be caught.
pub proof fn lemma_scan_finds_earliest(edge: EdgeModel, day: int, millis: int, k: nat)
    requires
        k <= edge.journeys.len(),
    ensures
        match scan_journeys(edge, day, millis, k) {
            Ok(Some(found)) => {
                &&& catchable(edge, found, day, millis)
                &&& found.departure < MINUTES_PER_DAY
                &&& exists|i: int| 0 <= i < k && edge.journeys[i] == found
                &&& forall|i: int|
                    0 <= i < k && catchable(edge, #[trigger] edge.journeys[i], day, millis)
                        ==> found.departure <= edge.journeys[i].departure
            },
            Ok(None) => forall|i: int|
                0 <= i < k ==> !catchable(edge, #[trigger] edge.journeys[i], day, millis),
            Err(e) => e == Error::MalformedGraph,
        },
    decreases k,
{
    if k > 0 {
        lemma_scan_finds_earliest(edge, day, millis, (k - 1) as nat);
        match scan_journeys(edge, day, millis, (k - 1) as nat) {
            Ok(Some(found)) => {
                let i = choose|i: int| 0 <= i < k - 1 && edge.journeys[i] == found;
                assert(0 <= i < k && edge.journeys[i] == found);
            },
            _ => {},
        }
        match scan_journeys(edge, day, millis, k) {
            Ok(Some(found)) => {
                if found == edge.journeys[k - 1] {
                    assert(0 <= k - 1 < k && edge.journeys[k - 1] == found);
                }
            },
            _ => {},
        }
    }
}

/// A scan that a malformed record has stopped stays stopped.
pub proof fn lemma_scan_error_stays(edge: EdgeModel, day: int, millis: int, k: nat, n: nat)
    requires
        scan_journeys(edge, day, millis, k) is Err,
        k <= n,
    ensures
        scan_journeys(edge, day, millis, n) == scan_journeys(edge, day, millis, k),
    decreases n,
{
    if k < n {
        lemma_scan_error_stays(edge, day, millis, k, (n - 1) as nat);
    }
}

/// A ride takes less than a day and never negative time.
pub proof fn lemma_ride_duration_range(journey: JourneyModel, millis: int)
    requires
        journey.arrival < MINUTES_PER_DAY,
        0 <= millis < MILLIS_PER_DAY,
    ensures
        0 <= ride_duration(journey, millis) < MILLIS_PER_DAY,
{
}

} // verus!
