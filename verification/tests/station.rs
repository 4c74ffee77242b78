use sweat::daily::DayMoments;
use sweat::error::{Error, Fault, Field, Rejection};
use sweat::location::days_with_data;
use sweat::station::{station_days, station_timeline};
use sweat::timeline::TempSample;

fn line(date_and_time: &str, version: &str, temperature: &str, flag: &str) -> Vec<u8> {
    let mut text = String::from("0184722540139");
    text.push_str("58");
    text.push_str(date_and_time);
    text.push_str("7+30321-097760FM-15+0199KATT ");
    text.push_str(version);
    text.push_str("0340");
    text.push_str("5N00465220005");
    text.push_str("9N0160935N5");
    text.push_str(temperature);
    text.push_str(flag);
    text.push_str("+00615102135");
    assert_eq!(&text[15..27], date_and_time);
    assert_eq!(&text[56..59], version);
    assert_eq!(&text[87..92], temperature);
    assert_eq!(&text[92..93], flag);
    text.into_bytes()
}

fn good(date_and_time: &str, temperature: &str) -> Vec<u8> {
    line(date_and_time, "V03", temperature, "5")
}

fn moments(count: usize, duration: u128, first: i128, second: u128) -> DayMoments {
    DayMoments {
        sample_count: count,
        total_duration: duration,
        weighted_sum: first,
        weighted_square_sum: second,
    }
}

/// The mean in degrees, `S1 / (10 D)`; not a number for a day without data.
fn mean(day: &DayMoments) -> f64 {
    if !day.has_data() {
        return f64::NAN;
    }
    day.weighted_sum as f64 / (10.0 * day.total_duration as f64)
}

/// The standard deviation in degrees, the square root of
/// `(D S2 - S1^2) / (100 D^2)`; not a number for a day without data.
fn standard_deviation(day: &DayMoments) -> f64 {
    if !day.has_data() {
        return f64::NAN;
    }
    let numerator = day.variance_numerator().unwrap();
    (numerator as f64).sqrt() / (10.0 * day.total_duration as f64)
}

/// The mean of `values` and the square root of their mean square less the
/// squared mean, each value counted once.
fn pooled(values: &[f64]) -> (f64, f64) {
    let count = values.len() as f64;
    let first: f64 = values.iter().sum::<f64>() / count;
    let second: f64 = values.iter().map(|value| value * value).sum::<f64>() / count;
    (first, (second - first * first).sqrt())
}

#[test]
fn two_days_from_lines_to_pooled_statistics() {
    let lines = vec![good("202201010000", "+0200"), good("202201020000", "+0300")];
    let timeline = station_timeline(&lines).unwrap();
    assert_eq!(
        timeline.samples,
        vec![
            TempSample { temperature_tenths: 200, minute_of_year: 0, duration_minutes: 1440 },
            TempSample { temperature_tenths: 300, minute_of_year: 1440, duration_minutes: 1440 },
        ]
    );
    let days = station_days(&lines).unwrap();
    assert_eq!(days.len(), 365);
    assert_eq!(days[0], moments(1, 1440, 200 * 1440, 200 * 200 * 1440));
    assert_eq!(days[1], moments(1, 1440, 300 * 1440, 300 * 300 * 1440));
    assert_eq!((mean(&days[0]), standard_deviation(&days[0])), (20.0, 0.0));
    assert_eq!((mean(&days[1]), standard_deviation(&days[1])), (30.0, 0.0));
    let valid = days_with_data(&days).unwrap();
    assert_eq!(valid.len(), 2);
    let means: Vec<f64> = valid.iter().map(mean).collect();
    let deviations: Vec<f64> = valid.iter().map(standard_deviation).collect();
    assert_eq!(pooled(&means), (25.0, 5.0));
    assert_eq!(pooled(&deviations), (0.0, 0.0));
}

#[test]
fn records_that_are_not_admissible_leave_no_trace() {
    let lines = vec![
        line("202201010000", "V01", "+0999", "5"),
        good("202201010000", "+0200"),
        line("202201010030", "V03", "-0999", "1"),
        line("202201010100", "V02", "+0100", "5"),
        line("202213329999", "V03", "+0000", "9"),
    ];
    let timeline = station_timeline(&lines).unwrap();
    assert_eq!(
        timeline.samples,
        vec![
            TempSample { temperature_tenths: 200, minute_of_year: 0, duration_minutes: 60 },
            TempSample { temperature_tenths: 100, minute_of_year: 60, duration_minutes: 1380 },
        ]
    );
    let days = station_days(&lines).unwrap();
    assert_eq!(days[0], moments(2, 1440, 200 * 60 + 100 * 1380, 40000 * 60 + 10000 * 1380));
}

#[test]
fn a_leap_year_has_one_day_more() {
    let days = station_days(&vec![good("202412312359", "-0010")]).unwrap();
    assert_eq!(days.len(), 366);
    assert_eq!(days[365], moments(1, 1, -10, 100));
    let days = station_days(&vec![good("202212312359", "-0010")]).unwrap();
    assert_eq!(days.len(), 365);
    assert_eq!(days[364], moments(1, 1, -10, 100));
}

#[test]
fn a_malformed_line_stops_everything_even_if_not_admissible() {
    let mut short = line("202201010030", "V01", "+0100", "1");
    short.truncate(92);
    let lines = vec![good("202201010000", "+0200"), short, good("202201010100", "+0200")];
    let too_short = Rejection { index: 1, error: Error::MalformedRecord(Fault::TooShort) };
    assert_eq!(station_days(&lines), Err(too_short));
    assert_eq!(station_timeline(&lines), Err(too_short));
    let lines = vec![
        good("202201010000", "+0200"),
        good("202201010100", "+0200"),
        line("2022010101xx", "V01", "+0100", "1"),
    ];
    assert_eq!(
        station_days(&lines),
        Err(Rejection {
            index: 2,
            error: Error::MalformedRecord(Fault::NotANumber(Field::Minute)),
        })
    );
}

#[test]
fn a_malformed_line_comes_before_any_fault_of_the_timeline() {
    let lines = vec![
        good("202201010000", "+0200"),
        good("202201010000", "+0200"),
        good("202201010100", "+02x0"),
    ];
    assert_eq!(
        station_days(&lines),
        Err(Rejection {
            index: 2,
            error: Error::MalformedRecord(Fault::NotANumber(Field::Temperature)),
        })
    );
}

#[test]
fn faults_of_the_timeline_are_reported_by_line() {
    let dropped = line("202201010000", "V01", "+0100", "5");
    let lines = vec![
        dropped.clone(),
        good("202201010000", "+0200"),
        dropped.clone(),
        dropped.clone(),
        good("202201010000", "+0200"),
    ];
    assert_eq!(
        station_days(&lines),
        Err(Rejection { index: 4, error: Error::MalformedRecord(Fault::TimeNotIncreasing) })
    );
    let lines = vec![dropped.clone(), good("202202300000", "+0200")];
    assert_eq!(station_days(&lines), Err(Rejection { index: 1, error: Error::InvalidDate }));
    let lines = vec![
        good("202201010000", "+0200"),
        dropped.clone(),
        dropped,
        good("202301010100", "+0200"),
    ];
    assert_eq!(
        station_timeline(&lines),
        Err(Rejection { index: 3, error: Error::MalformedRecord(Fault::YearMismatch) })
    );
}

#[test]
fn no_lines_or_none_admissible_give_a_year_without_data() {
    let days = station_days(&Vec::new()).unwrap();
    assert_eq!(days.len(), 365);
    assert_eq!(days_with_data(&days), Err(Error::InsufficientData));
    let lines = vec![line("202401010000", "V01", "+0100", "5")];
    let days = station_days(&lines).unwrap();
    assert_eq!(days.len(), 365);
    assert!(days.iter().all(|day| *day == DayMoments::empty()));
    assert_eq!(days_with_data(&days), Err(Error::InsufficientData));
}

#[test]
fn every_line_is_held_to_the_year_of_the_first() {
    let other_year = Rejection { index: 2, error: Error::MalformedRecord(Fault::YearMismatch) };
    let lines = vec![
        good("202201010000", "+0200"),
        good("202201010100", "+0200"),
        line("202301010200", "V01", "+0100", "1"),
        good("202201010300", "+0200"),
    ];
    assert_eq!(station_timeline(&lines), Err(other_year));
    assert_eq!(station_days(&lines), Err(other_year));
    let lines = vec![
        line("202101010000", "V01", "+0100", "1"),
        good("202201010000", "+0200"),
        good("202201010100", "+0200"),
    ];
    assert_eq!(
        station_days(&lines),
        Err(Rejection { index: 1, error: Error::MalformedRecord(Fault::YearMismatch) })
    );
}

#[test]
fn another_year_comes_before_any_fault_of_the_timeline() {
    let lines = vec![
        good("202201010000", "+0200"),
        good("202201010000", "+0200"),
        good("202202300000", "+0200"),
        good("202301010000", "+0200"),
    ];
    assert_eq!(
        station_days(&lines),
        Err(Rejection { index: 3, error: Error::MalformedRecord(Fault::YearMismatch) })
    );
    assert_eq!(
        station_days(&lines[..3].to_vec()),
        Err(Rejection { index: 1, error: Error::MalformedRecord(Fault::TimeNotIncreasing) })
    );
}
