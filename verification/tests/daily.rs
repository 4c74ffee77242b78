use sweat::daily::{aggregate_days, temperatures_by_day, DayMoments};
use sweat::error::{Error, Rejection};
use sweat::location::days_with_data;
use sweat::record::{ParsedObservation, QualityFlag, QualityVersion};
use sweat::timeline::{build_timeline, TempSample};

fn sample(temperature_tenths: i16, minute_of_year: u32, duration_minutes: u32) -> TempSample {
    TempSample { temperature_tenths, minute_of_year, duration_minutes }
}

fn observation(month: u32, day: u32, hour: u32, minute: u32, tenths: i16) -> ParsedObservation {
    ParsedObservation {
        year: 2022,
        month,
        day,
        hour,
        minute,
        temperature_tenths: tenths,
        quality_version: QualityVersion::V02,
        quality_flag: QualityFlag::Passed,
    }
}

fn moments(count: usize, duration: u128, first: i128, second: u128) -> DayMoments {
    DayMoments {
        sample_count: count,
        total_duration: duration,
        weighted_sum: first,
        weighted_square_sum: second,
    }
}

/// The mean in degrees, `S1 / (10 D)`; not a number for a day without data.
fn mean(day: &DayMoments) -> f64 {
    if !day.has_data() {
        return f64::NAN;
    }
    day.weighted_sum as f64 / (10.0 * day.total_duration as f64)
}

/// The standard deviation in degrees, the square root of
/// `(D S2 - S1^2) / (100 D^2)`; not a number for a day without data.
fn standard_deviation(day: &DayMoments) -> f64 {
    if !day.has_data() {
        return f64::NAN;
    }
    let numerator = day.variance_numerator().unwrap();
    (numerator as f64).sqrt() / (10.0 * day.total_duration as f64)
}

#[test]
fn a_day_of_one_temperature_has_that_mean_and_no_deviation() {
    for tenths in [-325i16, -1, 0, 7, 235, 1000] {
        let records: Vec<ParsedObservation> =
            (0..24).map(|hour| observation(7, 4, hour, 0, tenths)).collect();
        let timeline = build_timeline(&records).unwrap();
        assert!(timeline.samples.iter().all(|sample| sample.duration_minutes == 60));
        let days = aggregate_days(&timeline.samples, timeline.leap_year).unwrap();
        let day = days[184];
        let t = tenths as i128;
        assert_eq!(day, moments(24, 1440, t * 1440, (t * t * 1440) as u128));
        assert_eq!(day.weighted_sum, t * day.total_duration as i128);
        assert_eq!(day.variance_numerator(), Some(0));
        assert_eq!(mean(&day), tenths as f64 / 10.0);
        assert_eq!(standard_deviation(&day), 0.0);
    }
}

#[test]
fn the_mean_is_weighted_by_duration() {
    let records = vec![observation(1, 1, 23, 56, 100), observation(1, 1, 23, 57, 300)];
    let timeline = build_timeline(&records).unwrap();
    assert_eq!(
        timeline.samples,
        vec![sample(100, 23 * 60 + 56, 1), sample(300, 23 * 60 + 57, 3)]
    );
    let days = aggregate_days(&timeline.samples, false).unwrap();
    assert_eq!(days[0], moments(2, 4, 1000, 280_000));
    assert_eq!(mean(&days[0]), 25.0);
    assert!(mean(&days[0]) != 20.0);
    let made_by_hand = vec![sample(100, 10, 1), sample(300, 20, 3)];
    let days = aggregate_days(&made_by_hand, false).unwrap();
    assert_eq!(days[0], moments(2, 4, 1000, 280_000));
    assert_eq!(days[0].variance_numerator(), Some(120_000));
    assert!((standard_deviation(&days[0]) - 75.0f64.sqrt()).abs() < 1e-12);
}

#[test]
fn sums_are_exact() {
    let samples = vec![
        sample(-15, 1440 + 5, 10),
        sample(20, 1440 + 15, 20),
        sample(7, 2 * 1440, 30),
        sample(-32768, 1440 + 700, 2),
        sample(32767, 3 * 1440 - 1, 1),
    ];
    let days = aggregate_days(&samples, true).unwrap();
    assert_eq!(days.len(), 366);
    assert_eq!(days[0], DayMoments::empty());
    assert_eq!(
        days[1],
        moments(
            3,
            32,
            -150 + 400 - 65536,
            225 * 10 + 400 * 20 + 1_073_741_824 * 2,
        )
    );
    assert_eq!(days[2], moments(2, 31, 210 + 32767, 49 * 30 + 1_073_676_289));
    for day in 3..366 {
        assert_eq!(days[day], DayMoments::empty());
    }
}

#[test]
fn the_widest_sample_fits() {
    let samples = vec![sample(i16::MIN, 0, u32::MAX), sample(i16::MIN, 1, u32::MAX)];
    let days = aggregate_days(&samples, false).unwrap();
    let duration = u32::MAX as i128;
    assert_eq!(
        days[0],
        moments(
            2,
            2 * duration as u128,
            -2 * 32768 * duration,
            (2 * 32768 * 32768 * duration) as u128,
        )
    );
}

#[test]
fn a_year_has_365_or_366_days() {
    assert_eq!(aggregate_days(&Vec::new(), false).unwrap().len(), 365);
    assert_eq!(aggregate_days(&Vec::new(), true).unwrap().len(), 366);
    let last_of_leap_year = vec![sample(1, 366 * 1440 - 1, 1)];
    let days = aggregate_days(&last_of_leap_year, true).unwrap();
    assert_eq!(days[365], moments(1, 1, 1, 1));
    assert_eq!(
        aggregate_days(&last_of_leap_year, false),
        Err(Rejection { index: 0, error: Error::InvalidDate })
    );
    let samples = vec![sample(1, 0, 1), sample(1, 365 * 1440 - 1, 1), sample(1, 365 * 1440, 1)];
    assert_eq!(
        aggregate_days(&samples, false),
        Err(Rejection { index: 2, error: Error::InvalidDate })
    );
    assert!(aggregate_days(&samples, true).is_ok());
    assert_eq!(
        aggregate_days(&vec![sample(1, u32::MAX, 1)], true),
        Err(Rejection { index: 0, error: Error::InvalidDate })
    );
}

#[test]
fn a_day_without_samples_has_no_data_and_is_not_pooled() {
    let samples = vec![sample(200, 0, 1440), sample(300, 2 * 1440, 1440)];
    let days = aggregate_days(&samples, false).unwrap();
    assert!(days[0].has_data());
    assert!(!days[1].has_data());
    assert_eq!(days[1], DayMoments::empty());
    assert!(mean(&days[1]).is_nan());
    assert!(standard_deviation(&days[1]).is_nan());
    assert!(days[2].has_data());
    let pooled = days_with_data(&days).unwrap();
    assert_eq!(pooled, vec![days[0], days[2]]);
}

#[test]
fn without_any_data_there_is_nothing_to_pool() {
    let days = aggregate_days(&Vec::new(), false).unwrap();
    assert_eq!(days_with_data(&days), Err(Error::InsufficientData));
    assert_eq!(days_with_data(&Vec::new()), Err(Error::InsufficientData));
    let zero_durations = aggregate_days(&vec![sample(5, 0, 0), sample(6, 1, 0)], false).unwrap();
    assert_eq!(zero_durations[0], moments(2, 0, 0, 0));
    assert!(mean(&zero_durations[0]).is_nan());
    assert_eq!(days_with_data(&zero_durations), Err(Error::InsufficientData));
    let one_day = aggregate_days(&vec![sample(5, 364 * 1440, 1)], false).unwrap();
    assert_eq!(days_with_data(&one_day), Ok(vec![moments(1, 1, 5, 25)]));
}

#[test]
fn the_variance_is_never_negative() {
    let mut samples: Vec<TempSample> = Vec::new();
    let mut state: u32 = 12345;
    for index in 0..2000u32 {
        state = state.wrapping_mul(1_103_515_245).wrapping_add(12345);
        let tenths = ((state >> 8) % 1200) as i16 - 400;
        let duration = (state >> 20) % 90;
        samples.push(sample(tenths, index * 37, duration));
    }
    let days = aggregate_days(&samples, false).unwrap();
    for day in days {
        let square = (day.weighted_sum * day.weighted_sum) as u128;
        let product = day.total_duration * day.weighted_square_sum;
        assert!(product >= square);
        assert_eq!(day.variance_numerator(), Some(product - square));
    }
}

#[test]
fn the_variance_numerator_is_exact_or_absent() {
    assert_eq!(DayMoments::empty().variance_numerator(), Some(0));
    assert_eq!(moments(2, 4, 1000, 280_000).variance_numerator(), Some(120_000));
    assert_eq!(moments(2, 4, -1000, 280_000).variance_numerator(), Some(120_000));
    assert_eq!(moments(1, 1, 5, 25).variance_numerator(), Some(0));
    assert_eq!(moments(1, 1, 5, 24).variance_numerator(), None);
    assert_eq!(moments(1, 1, -5, 24).variance_numerator(), None);
    assert_eq!(moments(1, u128::MAX, 0, 2).variance_numerator(), None);
    assert_eq!(moments(1, u128::MAX, 0, 1).variance_numerator(), Some(u128::MAX));
    assert_eq!(moments(1, 1, i128::MIN, u128::MAX).variance_numerator(), None);
    assert_eq!(moments(1, 1, i128::MAX, u128::MAX).variance_numerator(), None);
    let large = 1u128 << 63;
    assert_eq!(moments(1, 1, -(large as i128), large * large).variance_numerator(), Some(0));
}

#[test]
fn the_order_of_the_samples_does_not_change_the_sums() {
    let samples = vec![
        sample(-15, 5, 10),
        sample(20, 1440 + 15, 20),
        sample(7, 700, 30),
        sample(300, 1440 + 700, 2),
        sample(-32, 3 * 1440 - 1, 1),
        sample(20, 1440 + 16, 4),
    ];
    let mut turned = samples.clone();
    turned.reverse();
    let mut rotated = samples.clone();
    rotated.rotate_left(2);
    let days = aggregate_days(&samples, false).unwrap();
    assert_eq!(aggregate_days(&turned, false).unwrap(), days);
    assert_eq!(aggregate_days(&rotated, false).unwrap(), days);
    let (front, back) = samples.split_at(3);
    let first_half = aggregate_days(&front.to_vec(), false).unwrap();
    let second_half = aggregate_days(&back.to_vec(), false).unwrap();
    for day in 0..365 {
        assert_eq!(
            days[day],
            moments(
                first_half[day].sample_count + second_half[day].sample_count,
                first_half[day].total_duration + second_half[day].total_duration,
                first_half[day].weighted_sum + second_half[day].weighted_sum,
                first_half[day].weighted_square_sum + second_half[day].weighted_square_sum,
            )
        );
    }
}

#[test]
fn the_mean_lies_between_the_lowest_and_the_highest_temperature() {
    let samples = vec![sample(-40, 0, 7), sample(125, 10, 1), sample(30, 20, 1000), sample(-39, 30, 0)];
    let day = aggregate_days(&samples, false).unwrap()[0];
    assert_eq!(day, moments(4, 1008, -280 + 125 + 30_000, 11_200 + 15_625 + 900_000));
    assert!(-40 * (day.total_duration as i128) <= day.weighted_sum);
    assert!(day.weighted_sum <= 125 * (day.total_duration as i128));
    assert!(-4.0 <= mean(&day) && mean(&day) <= 12.5);
    let range = (125 + 40) * day.total_duration;
    assert!(day.variance_numerator().unwrap() <= range * range);
    assert!(standard_deviation(&day) <= 16.5);
}

#[test]
fn temperatures_are_sorted_into_their_days() {
    let records = vec![
        observation(1, 1, 0, 0, 10),
        observation(3, 1, 5, 0, -20),
        observation(1, 1, 23, 59, 30),
        observation(12, 31, 0, 0, 40),
        observation(3, 1, 4, 0, 50),
        observation(1, 1, 99, 99, 60),
    ];
    let days = temperatures_by_day(&records).unwrap();
    assert_eq!(days.len(), 365);
    assert_eq!(days[0], vec![10, 30, 60]);
    assert_eq!(days[59], vec![-20, 50]);
    assert_eq!(days[364], vec![40]);
    let filled = days.iter().filter(|day| !day.is_empty()).count();
    assert_eq!(filled, 3);
    assert_eq!(temperatures_by_day(&Vec::new()), Ok(vec![Vec::new(); 365]));
}

#[test]
fn temperatures_of_a_leap_year_have_one_day_more() {
    let mut first = observation(3, 1, 0, 0, 7);
    first.year = 2024;
    let mut last = observation(12, 31, 0, 0, 8);
    last.year = 2024;
    let mut leap_day = observation(2, 29, 0, 0, 9);
    leap_day.year = 2024;
    let days = temperatures_by_day(&vec![first, last, leap_day]).unwrap();
    assert_eq!(days.len(), 366);
    assert_eq!(days[60], vec![7]);
    assert_eq!(days[365], vec![8]);
    assert_eq!(days[59], vec![9]);
}

#[test]
fn a_date_off_the_calendar_has_no_day() {
    let refused = |index| Err(Rejection { index, error: Error::InvalidDate });
    let good = observation(1, 1, 0, 0, 10);
    assert_eq!(temperatures_by_day(&vec![good, observation(2, 29, 0, 0, 1)]), refused(1));
    assert_eq!(temperatures_by_day(&vec![observation(13, 1, 0, 0, 1), good]), refused(0));
    assert_eq!(temperatures_by_day(&vec![good, good, observation(0, 1, 0, 0, 1)]), refused(2));
    assert_eq!(temperatures_by_day(&vec![good, observation(4, 31, 0, 0, 1)]), refused(1));
    assert_eq!(temperatures_by_day(&vec![good, observation(4, 0, 0, 0, 1)]), refused(1));
}
