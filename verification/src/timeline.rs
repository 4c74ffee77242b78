//! The timeline of one station-year: each admissible observation becomes a
//! sample that holds from its own minute of the year to that of the next.

use vstd::prelude::*;
use crate::calendar::{
    day_of_year,
    is_leap_year,
    minute_of_year,
    spec_day_of_year,
    spec_days_in_year,
    spec_is_leap_year,
    spec_minute_of_year,
    valid_date,
    valid_time,
    MINUTES_PER_DAY,
};
use crate::error::{Error, Fault, Rejection};
use crate::record::ParsedObservation;

verus! {

/// One point of the timeline.
#[derive(Clone, Copy, Debug, PartialEq, Eq)]
pub struct TempSample {
    /// Temperature in tenths of a degree.
    pub temperature_tenths: i16,
    /// Minutes from January 1st, 00:00.
    pub minute_of_year: u32,
    /// For how many minutes the reading counts.
    pub duration_minutes: u32,
}

/// The samples of one station-year, with the kind of year they lie in.
#[derive(Debug, PartialEq, Eq)]
pub struct Timeline {
    pub leap_year: bool,
    pub samples: Vec<TempSample>,
}

/// Whether the series lies in a leap year: the year of the first record
/// decides. An empty series counts as a common year.
pub open spec fn series_leap_year(records: Seq<ParsedObservation>) -> bool {
    records.len() > 0 && spec_is_leap_year(records[0].year as int)
}

/// The record's date and time of day exist in the calendar.
pub open spec fn on_calendar(record: ParsedObservation, leap_year: bool) -> bool {
    valid_date(record.month as int, record.day as int, leap_year) && valid_time(
        record.hour as int,
        record.minute as int,
    )
}

/// The minute of the year at which the record was taken.
pub open spec fn record_minute(record: ParsedObservation, leap_year: bool) -> int {
    spec_minute_of_year(
        spec_day_of_year(record.month as int, record.day as int, leap_year),
        record.hour as int,
        record.minute as int,
    )
}

/// What keeps the record at `index` out of the timeline, if anything. The
/// year is held against that of the first record, then the date and time
/// against the calendar, then the minute of the year against that of the
/// record before.
pub open spec fn record_fault(records: Seq<ParsedObservation>, index: int) -> Option<Error> {
    let leap_year = series_leap_year(records);
    if records[index].year != records[0].year {
        Some(Error::MalformedRecord(Fault::YearMismatch))
    } else if !on_calendar(records[index], leap_year) {
        Some(Error::InvalidDate)
    } else if index > 0 && record_minute(records[index], leap_year) <= record_minute(
        records[index - 1],
        leap_year,
    ) {
        Some(Error::MalformedRecord(Fault::TimeNotIncreasing))
    } else {
        None
    }
}

/// No record of the series has a fault.
pub open spec fn faultless(records: Seq<ParsedObservation>) -> bool {
    forall|i: int| 0 <= i < records.len() ==> #[trigger] record_fault(records, i) is None
}

/// For how long the sample at `index` counts: until the next sample, and
/// for the last sample of the series until the end of its day.
pub open spec fn sample_duration(records: Seq<ParsedObservation>, index: int) -> int {
    let leap_year = series_leap_year(records);
    let minute = record_minute(records[index], leap_year);
    if index + 1 < records.len() {
        record_minute(records[index + 1], leap_year) - minute
    } else {
        1440 - minute % 1440
    }
}

/// The sample that the record at `index` becomes.
pub open spec fn sample_at(records: Seq<ParsedObservation>, index: int) -> TempSample {
    TempSample {
        temperature_tenths: records[index].temperature_tenths,
        minute_of_year: record_minute(records[index], series_leap_year(records)) as u32,
        duration_minutes: sample_duration(records, index) as u32,
    }
}

/// `timeline` is the timeline of `records`.
pub open spec fn timeline_of(records: Seq<ParsedObservation>, timeline: Timeline) -> bool {
    &&& timeline.leap_year == series_leap_year(records)
    &&& timeline.samples@.len() == records.len()
    &&& forall|i: int|
        0 <= i < records.len() ==> #[trigger] timeline.samples@[i] == sample_at(records, i)
}

/// The record at `rejection.index` is the first with a fault, and
/// `rejection.error` is that fault.
pub open spec fn first_fault(records: Seq<ParsedObservation>, rejection: Rejection) -> bool {
    &&& rejection.index < records.len()
    &&& record_fault(records, rejection.index as int) == Some(rejection.error)
    &&& forall|i: int| 0 <= i < rejection.index ==> #[trigger] record_fault(records, i) is None
}

/// In a series without fault every record lies within its year, later
/// records lie at later minutes, and every duration is at least one minute
/// and fits the number it is stored in. So there are no more records than
/// the longest year has minutes.
pub proof fn lemma_faultless_series(records: Seq<ParsedObservation>)
    requires
        faultless(records),
    ensures
        forall|i: int|
            0 <= i < records.len() ==> 0 <= #[trigger] record_minute(
                records[i],
                series_leap_year(records),
            ) < spec_days_in_year(series_leap_year(records)) * 1440,
        forall|i: int, j: int|
            0 <= i < j < records.len() ==> record_minute(records[i], series_leap_year(records))
                < record_minute(records[j], series_leap_year(records)),
        forall|i: int|
            0 <= i < records.len() ==> 1 <= #[trigger] sample_duration(records, i) < 366 * 1440,
        records.len() <= 366 * 1440,
{
    let leap_year = series_leap_year(records);
    if records.len() > 0 {
        lemma_minutes_leave_room(records, records.len() - 1);
        assert(record_fault(records, records.len() - 1) is None);
    }
    assert forall|i: int| 0 <= i < records.len() implies 0 <= #[trigger] record_minute(
        records[i],
        leap_year,
    ) < spec_days_in_year(leap_year) * 1440 by {
        assert(record_fault(records, i) is None);
    }
    assert forall|i: int, j: int| 0 <= i < j < records.len() implies record_minute(
        records[i],
        leap_year,
    ) < record_minute(records[j], leap_year) by {
        lemma_minutes_rise(records, i, j);
    }
    assert forall|i: int| 0 <= i < records.len() implies 1 <= #[trigger] sample_duration(
        records,
        i,
    ) < 366 * 1440 by {
        assert(record_fault(records, i) is None);
        if i + 1 < records.len() {
            assert(record_fault(records, i + 1) is None);
        }
    }
}

proof fn lemma_minutes_leave_room(records: Seq<ParsedObservation>, index: int)
    requires
        faultless(records),
        0 <= index < records.len(),
    ensures
        index <= record_minute(records[index], series_leap_year(records)),
    decreases index,
{
    assert(record_fault(records, index) is None);
    if index > 0 {
        lemma_minutes_leave_room(records, index - 1);
    }
}

proof fn lemma_minutes_rise(records: Seq<ParsedObservation>, i: int, j: int)
    requires
        faultless(records),
        0 <= i < j < records.len(),
    ensures
        record_minute(records[i], series_leap_year(records)) < record_minute(
            records[j],
            series_leap_year(records),
        ),
    decreases j - i,
{
    assert(record_fault(records, j) is None);
    if i + 1 < j {
        lemma_minutes_rise(records, i, j - 1);
    }
}

/// Builds the timeline. The records must be of one year, each on the
/// calendar and each later than the one before: the first record that is
/// not is reported, with its position. Nothing is sorted.
pub fn build_timeline(records: &Vec<ParsedObservation>) -> (built: Result<Timeline, Rejection>)
    ensures
        match built {
            Ok(timeline) => faultless(records@) && timeline_of(records@, timeline),
            Err(rejection) => first_fault(records@, rejection),
        },
{
    let count: usize = records.len();
    if count == 0 {
        return Ok(Timeline { leap_year: false, samples: Vec::new() });
    }
    let year: u32 = records[0].year;
    let leap_year: bool = is_leap_year(year);
    let mut minutes: Vec<u32> = Vec::new();
    let mut index: usize = 0;
    while index < count
        invariant
            index <= count,
            count == records@.len(),
            count > 0,
            year == records@[0].year,
            leap_year == series_leap_year(records@),
            minutes@.len() == index,
            forall|i: int| 0 <= i < index ==> #[trigger] record_fault(records@, i) is None,
            forall|i: int|
                0 <= i < index ==> #[trigger] minutes@[i] == record_minute(records@[i], leap_year),
        decreases count - index,
    {
        let record: ParsedObservation = records[index];
        if record.year != year {
            return Err(
                Rejection { index, error: Error::MalformedRecord(Fault::YearMismatch) },
            );
        }
        let ordinal: u32 = match day_of_year(record.month, record.day, leap_year) {
            Ok(ordinal) => ordinal,
            Err(_) => {
                return Err(Rejection { index, error: Error::InvalidDate });
            },
        };
        let minute: u32 = match minute_of_year(ordinal, record.hour, record.minute) {
            Ok(minute) => minute,
            Err(_) => {
                return Err(Rejection { index, error: Error::InvalidDate });
            },
        };
        if index > 0 && minute <= minutes[index - 1] {
            return Err(
                Rejection { index, error: Error::MalformedRecord(Fault::TimeNotIncreasing) },
            );
        }
        minutes.push(minute);
        index = index + 1;
    }
    proof {
        lemma_faultless_series(records@);
    }
    let mut samples: Vec<TempSample> = Vec::new();
    let mut index: usize = 0;
    while index < count
        invariant
            index <= count,
            count == records@.len(),
            leap_year == series_leap_year(records@),
            minutes@.len() == count,
            samples@.len() == index,
            faultless(records@),
            forall|i: int|
                0 <= i < count ==> #[trigger] minutes@[i] == record_minute(records@[i], leap_year),
            forall|i: int|
                0 <= i < count ==> 1 <= #[trigger] sample_duration(records@, i) < 366 * 1440,
            forall|i: int| 0 <= i < index ==> #[trigger] samples@[i] == sample_at(records@, i),
        decreases count - index,
    {
        let minute: u32 = minutes[index];
        assert(1 <= sample_duration(records@, index as int) < 366 * 1440);
        let duration: u32 = if index + 1 < count {
            minutes[index + 1] - minute
        } else {
            MINUTES_PER_DAY - minute % MINUTES_PER_DAY
        };
        samples.push(
            TempSample {
                temperature_tenths: records[index].temperature_tenths,
                minute_of_year: minute,
                duration_minutes: duration,
            },
        );
        index = index + 1;
    }
    Ok(Timeline { leap_year, samples })
}

/// The sample begins before the end of the first `days` days of the year.
pub open spec fn begins_within(sample: TempSample, days: int) -> bool {
    sample.minute_of_year < 1440 * days
}

/// `begins_within` as a predicate for `Seq::filter`.
pub open spec fn beginning_within(days: int) -> spec_fn(TempSample) -> bool {
    |sample: TempSample| begins_within(sample, days)
}

/// Keeps the samples that begin within the first `days` days of the year,
/// in their order.
pub fn remove_past_day(samples: &Vec<TempSample>, days: u32) -> (kept: Vec<TempSample>)
    ensures
        kept@ == samples@.filter(beginning_within(days as int)),
{
    assert(MINUTES_PER_DAY * days <= 1440 * 0xffff_ffff) by (nonlinear_arith)
        requires
            MINUTES_PER_DAY == 1440,
            days <= 0xffff_ffff,
    ;
    let limit: u64 = MINUTES_PER_DAY as u64 * days as u64;
    let ghost within = beginning_within(days as int);
    let mut kept: Vec<TempSample> = Vec::new();
    let mut index: usize = 0;
    proof {
        reveal(Seq::filter);
        assert(samples@.take(0) =~= Seq::empty());
    }
    while index < samples.len()
        invariant
            index <= samples.len(),
            limit == 1440 * days,
            within == beginning_within(days as int),
            kept@ == samples@.take(index as int).filter(within),
        decreases samples.len() - index,
    {
        let sample: TempSample = samples[index];
        proof {
            assert(samples@.take(index + 1) =~= samples@.take(index as int).push(sample));
            samples@.take(index as int).lemma_filter_push(sample, within);
        }
        if (sample.minute_of_year as u64) < limit {
            kept.push(sample);
        }
        index = index + 1;
    }
    assert(samples@.take(index as int) =~= samples@);
    kept
}

} // verus!
