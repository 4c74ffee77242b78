//! One station-year from its lines to its days: parse, hold every record
//! to one year, filter, build the timeline, sum the days.

use vstd::prelude::*;
use crate::calendar::spec_days_in_year;
use crate::daily::{
    aggregate_days,
    checked_variance_numerator,
    day_index,
    days_of,
    durations_at_most,
    lemma_variance_numerator_exists,
    within_year,
    DayMoments,
};
use crate::error::{Error, Fault, Rejection};
use crate::quality::{admissible, admissible_positions, retain_admissible};
use crate::record::{first_unparsed, parse_records, spec_parse_record, ParsedObservation};
use crate::timeline::{
    build_timeline,
    faultless,
    first_fault,
    lemma_faultless_series,
    record_minute,
    sample_at,
    sample_duration,
    series_leap_year,
    timeline_of,
    TempSample,
    Timeline,
};

verus! {

/// Every line parses.
pub open spec fn all_parse(lines: Seq<Vec<u8>>) -> bool {
    forall|i: int| 0 <= i < lines.len() ==> spec_parse_record(#[trigger] lines[i]@) is Ok
}

/// What the lines parse to, where every line parses.
pub open spec fn parsed_records(lines: Seq<Vec<u8>>) -> Seq<ParsedObservation> {
    Seq::new(lines.len(), |i: int| spec_parse_record(lines[i]@)->Ok_0)
}

/// The admissible records among those that the lines parse to.
pub open spec fn admitted_records(lines: Seq<Vec<u8>>) -> Seq<ParsedObservation> {
    parsed_records(lines).filter(admissible())
}

/// The samples of a series of records.
pub open spec fn samples_of(records: Seq<ParsedObservation>) -> Seq<TempSample> {
    Seq::new(records.len(), |i: int| sample_at(records, i))
}

/// The line at `rejection.index` holds the first admissible record that the
/// timeline cannot take, and `rejection.error` says why.
pub open spec fn first_fault_at_line(lines: Seq<Vec<u8>>, rejection: Rejection) -> bool {
    exists|rank: int|
        {
            &&& 0 <= rank < admissible_positions(parsed_records(lines)).len()
            &&& #[trigger] admissible_positions(parsed_records(lines))[rank] == rejection.index
            &&& first_fault(
                admitted_records(lines),
                Rejection { index: rank as usize, error: rejection.error },
            )
        }
}

/// Every record is of the year of the first.
pub open spec fn one_year(records: Seq<ParsedObservation>) -> bool {
    forall|i: int| 0 <= i < records.len() ==> (#[trigger] records[i]).year == records[0].year
}

/// The record at `index` is the first that is of another year than the
/// first record.
pub open spec fn first_of_another_year(records: Seq<ParsedObservation>, index: int) -> bool {
    &&& 0 <= index < records.len()
    &&& records[index].year != records[0].year
    &&& forall|i: int| 0 <= i < index ==> (#[trigger] records[i]).year == records[0].year
}

/// Why a station-year is refused. A line that does not parse comes before
/// anything else. Where all lines parse, a record of another year than the
/// first comes next, admissible or not. Where all are of one year, it is
/// the first admissible record that the timeline cannot take. In each case
/// `rejection.index` is the number of the line.
pub open spec fn station_rejected(lines: Seq<Vec<u8>>, rejection: Rejection) -> bool {
    if !all_parse(lines) {
        first_unparsed(lines, rejection)
    } else if !one_year(parsed_records(lines)) {
        rejection.error == Error::MalformedRecord(Fault::YearMismatch) && first_of_another_year(
            parsed_records(lines),
            rejection.index as int,
        )
    } else {
        first_fault_at_line(lines, rejection)
    }
}

/// Looks for a record of another year than the first.
pub fn find_other_year(records: &Vec<ParsedObservation>) -> (found: Option<usize>)
    ensures
        match found {
            Some(index) => first_of_another_year(records@, index as int),
            None => one_year(records@),
        },
{
    let mut index: usize = 0;
    while index < records.len()
        invariant
            index <= records.len(),
            forall|i: int| 0 <= i < index ==> (#[trigger] records@[i]).year == records@[0].year,
        decreases records.len() - index,
    {
        if records[index].year != records[0].year {
            return Some(index);
        }
        index = index + 1;
    }
    None
}

/// Parses the lines, holds every record, admissible or not, to the year of
/// the first, drops the records that are not admissible, and builds the
/// timeline of the rest. Dates and times are held against the calendar, and
/// against each other, for the admissible records only.
pub fn station_timeline(lines: &Vec<Vec<u8>>) -> (built: Result<Timeline, Rejection>)
    ensures
        match built {
            Ok(timeline) => all_parse(lines@) && one_year(parsed_records(lines@)) && faultless(
                admitted_records(lines@),
            ) && timeline_of(admitted_records(lines@), timeline),
            Err(rejection) => station_rejected(lines@, rejection),
        },
{
    let records: Vec<ParsedObservation> = match parse_records(lines) {
        Ok(records) => records,
        Err(rejection) => {
            return Err(rejection);
        },
    };
    assert(records@ =~= parsed_records(lines@));
    match find_other_year(&records) {
        Some(index) => {
            assert(!one_year(parsed_records(lines@))) by {
                assert(parsed_records(lines@)[index as int].year != parsed_records(lines@)[0].year);
            }
            return Err(Rejection { index, error: Error::MalformedRecord(Fault::YearMismatch) });
        },
        None => {},
    }
    let (admitted, positions) = retain_admissible(&records);
    match build_timeline(&admitted) {
        Ok(timeline) => Ok(timeline),
        Err(rejection) => {
            let line: usize = positions[rejection.index];
            assert(first_fault_at_line(lines@, Rejection { index: line, error: rejection.error }))
                by {
                assert(admissible_positions(parsed_records(lines@))[rejection.index as int]
                    == line);
            }
            Err(Rejection { index: line, error: rejection.error })
        },
    }
}

/// A timeline without fault stays within its year.
pub proof fn lemma_samples_within_year(records: Seq<ParsedObservation>)
    requires
        faultless(records),
    ensures
        within_year(samples_of(records), series_leap_year(records)),
{
    lemma_faultless_series(records);
    assert forall|i: int| 0 <= i < samples_of(records).len() implies day_index(
        #[trigger] samples_of(records)[i],
    ) < spec_days_in_year(series_leap_year(records)) by {
        let minute = record_minute(records[i], series_leap_year(records));
        assert(0 <= minute < spec_days_in_year(series_leap_year(records)) * 1440);
    }
}

/// The sums of every day of the station's year, from its lines. The result
/// has 366 entries where the records lie in a leap year, else 365, and for
/// each of them the numerator of the variance can be had exactly.
pub fn station_days(lines: &Vec<Vec<u8>>) -> (summed: Result<Vec<DayMoments>, Rejection>)
    ensures
        match summed {
            Ok(days) => all_parse(lines@) && one_year(parsed_records(lines@)) && faultless(
                admitted_records(lines@),
            ) && days_of(
                samples_of(admitted_records(lines@)),
                series_leap_year(admitted_records(lines@)),
                days@,
            ),
            Err(rejection) => station_rejected(lines@, rejection),
        },
        summed is Ok ==> forall|day: int|
            0 <= day < summed->Ok_0@.len() ==> checked_variance_numerator(
                #[trigger] summed->Ok_0@[day],
            ) is Some,
{
    let timeline: Timeline = match station_timeline(lines) {
        Ok(timeline) => timeline,
        Err(rejection) => {
            return Err(rejection);
        },
    };
    proof {
        assert(timeline.samples@ =~= samples_of(admitted_records(lines@)));
        lemma_samples_within_year(admitted_records(lines@));
    }
    match aggregate_days(&timeline.samples, timeline.leap_year) {
        Ok(days) => {
            proof {
                let records = admitted_records(lines@);
                let samples = samples_of(records);
                lemma_faultless_series(records);
                assert(durations_at_most(samples, 0x10_0000)) by {
                    assert forall|i: int| 0 <= i < samples.len() implies (
                    #[trigger] samples[i]).duration_minutes <= 0x10_0000 by {
                        assert(1 <= sample_duration(records, i) < 366 * 1440);
                    }
                }
                assert forall|day: int| 0 <= day < days@.len() implies checked_variance_numerator(
                    #[trigger] days@[day],
                ) is Some by {
                    lemma_variance_numerator_exists(samples, day, days@[day]);
                }
            }
            Ok(days)
        },
        Err(rejection) => {
            // A timeline never leaves its year, so no sample is refused.
            assert(day_index(timeline.samples@[rejection.index as int]) < spec_days_in_year(
                timeline.leap_year,
            ));
            Err(rejection)
        },
    }
}

} // verus!
