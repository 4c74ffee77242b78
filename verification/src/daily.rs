//! The day aggregator: the samples of a year are sorted into days, and for
//! each day the duration-weighted sums are taken from which its mean and
//! its standard deviation follow.
//!
//! With `D` the total duration of a day, `S1` the sum of temperature times
//! duration and `S2` the sum of squared temperature times duration, all in
//! tenths of a degree and minutes, the day's mean is `S1 / (10 D)` degrees
//! and its variance `S2 / (100 D) - mean^2`, which is
//! `(D S2 - S1^2) / (100 D^2)`.

use vstd::prelude::*;
use crate::calendar::{
    day_of_year,
    days_in_year,
    is_leap_year,
    spec_day_of_year,
    spec_days_in_year,
    valid_date,
    MINUTES_PER_DAY,
};
use crate::error::{Error, Rejection};
use crate::record::ParsedObservation;
use crate::timeline::{series_leap_year, TempSample};

verus! {

/// The exact sums of one day.
#[derive(Clone, Copy, Debug, PartialEq, Eq)]
pub struct DayMoments {
    /// How many samples fell on the day.
    pub sample_count: usize,
    /// `D`: the sum of the durations, in minutes.
    pub total_duration: u128,
    /// `S1`: the sum of temperature times duration.
    pub weighted_sum: i128,
    /// `S2`: the sum of squared temperature times duration.
    pub weighted_square_sum: u128,
}

/// The 0-based day on which a sample falls.
pub open spec fn day_index(sample: TempSample) -> int {
    sample.minute_of_year as int / 1440
}

/// What one sample adds to the sum of the given order: its duration times
/// the temperature raised to `order` (0, 1 or 2).
pub open spec fn weighted_power(sample: TempSample, order: int) -> int {
    let temperature = sample.temperature_tenths as int;
    let duration = sample.duration_minutes as int;
    if order == 0 {
        duration
    } else if order == 1 {
        temperature * duration
    } else {
        temperature * temperature * duration
    }
}

/// The sum of `weighted_power` over the samples that fall on `day`.
pub open spec fn raw_moment(samples: Seq<TempSample>, day: int, order: int) -> int
    decreases samples.len(),
{
    if samples.len() == 0 {
        0
    } else if day_index(samples.last()) == day {
        raw_moment(samples.drop_last(), day, order) + weighted_power(samples.last(), order)
    } else {
        raw_moment(samples.drop_last(), day, order)
    }
}

/// The number of samples that fall on `day`.
pub open spec fn samples_on(samples: Seq<TempSample>, day: int) -> int
    decreases samples.len(),
{
    if samples.len() == 0 {
        0
    } else if day_index(samples.last()) == day {
        samples_on(samples.drop_last(), day) + 1
    } else {
        samples_on(samples.drop_last(), day)
    }
}

/// `moments` holds the sums of `day`.
pub open spec fn moments_of(samples: Seq<TempSample>, day: int, moments: DayMoments) -> bool {
    &&& moments.sample_count == samples_on(samples, day)
    &&& moments.total_duration == raw_moment(samples, day, 0)
    &&& moments.weighted_sum == raw_moment(samples, day, 1)
    &&& moments.weighted_square_sum == raw_moment(samples, day, 2)
}

/// Every sample falls on a day of the year.
pub open spec fn within_year(samples: Seq<TempSample>, leap_year: bool) -> bool {
    forall|i: int|
        0 <= i < samples.len() ==> day_index(#[trigger] samples[i]) < spec_days_in_year(leap_year)
}

/// `days` holds one entry for each day of the year, each with the sums of
/// its day.
pub open spec fn days_of(samples: Seq<TempSample>, leap_year: bool, days: Seq<DayMoments>) -> bool {
    &&& days.len() == spec_days_in_year(leap_year)
    &&& forall|day: int| 0 <= day < days.len() ==> moments_of(samples, day, #[trigger] days[day])
}

/// The sample at `rejection.index` is the first that falls past the end of
/// the year.
pub open spec fn first_past_year(
    samples: Seq<TempSample>,
    leap_year: bool,
    rejection: Rejection,
) -> bool {
    &&& rejection.error == Error::InvalidDate
    &&& rejection.index < samples.len()
    &&& day_index(samples[rejection.index as int]) >= spec_days_in_year(leap_year)
    &&& within_year(samples.take(rejection.index as int), leap_year)
}

/// The day holds something to average: its total duration is not zero.
pub open spec fn spec_has_data(moments: DayMoments) -> bool {
    moments.total_duration > 0
}

/// The numerator of the day's variance, `D S2 - S1^2`.
pub open spec fn spec_variance_numerator(moments: DayMoments) -> int {
    moments.total_duration * moments.weighted_square_sum - moments.weighted_sum
        * moments.weighted_sum
}

/// The numerator of the variance where it is not negative and `D S2` fits
/// 128 bits, else nothing.
pub open spec fn checked_variance_numerator(moments: DayMoments) -> Option<u128> {
    let product = moments.total_duration * moments.weighted_square_sum;
    let square = moments.weighted_sum * moments.weighted_sum;
    if square <= product <= u128::MAX {
        Some((product - square) as u128)
    } else {
        None
    }
}

impl DayMoments {
    /// The sums of a day without samples.
    pub fn empty() -> (moments: DayMoments)
        ensures
            moments == (DayMoments {
                sample_count: 0,
                total_duration: 0,
                weighted_sum: 0,
                weighted_square_sum: 0,
            }),
            !spec_has_data(moments),
    {
        DayMoments { sample_count: 0, total_duration: 0, weighted_sum: 0, weighted_square_sum: 0 }
    }

    /// Whether the day has a mean at all.
    pub fn has_data(&self) -> (present: bool)
        ensures
            present == spec_has_data(*self),
    {
        self.total_duration > 0
    }

    /// `D S2 - S1^2` in whole numbers: divided by `100 D^2` it is the
    /// variance in squared degrees, with no rounding before the division.
    /// There is no result where `D S2` does not fit 128 bits, or where the
    /// three sums are not those of any samples and the difference would be
    /// negative.
    pub fn variance_numerator(&self) -> (numerator: Option<u128>)
        ensures
            numerator == checked_variance_numerator(*self),
            numerator is Some ==> numerator->Some_0 == spec_variance_numerator(*self),
    {
        let product: u128 = match self.total_duration.checked_mul(self.weighted_square_sum) {
            Some(product) => product,
            None => {
                return None;
            },
        };
        let magnitude: u128 = if self.weighted_sum >= 0 {
            self.weighted_sum as u128
        } else if self.weighted_sum == i128::MIN {
            0x8000_0000_0000_0000_0000_0000_0000_0000
        } else {
            (-self.weighted_sum) as u128
        };
        assert(magnitude * magnitude == self.weighted_sum * self.weighted_sum)
            by (nonlinear_arith)
            requires
                magnitude == self.weighted_sum || magnitude == -self.weighted_sum,
        ;
        match magnitude.checked_mul(magnitude) {
            Some(square) => if square <= product {
                Some(product - square)
            } else {
                None
            },
            None => None,
        }
    }
}

/// The largest that one sample can add to any of the three sums.
pub open spec fn term_bound() -> int {
    0x4000_0000_0000_0000
}

proof fn lemma_weighted_power_bounds(sample: TempSample, order: int)
    requires
        0 <= order <= 2,
    ensures
        -term_bound() <= weighted_power(sample, order) <= term_bound(),
        order != 1 ==> 0 <= weighted_power(sample, order),
{
    let temperature = sample.temperature_tenths as int;
    let duration = sample.duration_minutes as int;
    assert(-0x8000 * 0x1_0000_0000 <= temperature * duration <= 0x8000 * 0x1_0000_0000)
        by (nonlinear_arith)
        requires
            -0x8000 <= temperature <= 0x8000,
            0 <= duration <= 0x1_0000_0000,
    ;
    assert(0 <= temperature * temperature <= 0x8000 * 0x8000) by (nonlinear_arith)
        requires
            -0x8000 <= temperature <= 0x8000,
    ;
    let square = temperature * temperature;
    assert(0 <= square * duration <= 0x4000_0000 * 0x1_0000_0000) by (nonlinear_arith)
        requires
            0 <= square <= 0x4000_0000,
            0 <= duration <= 0x1_0000_0000,
    ;
}

/// No sum is larger than the number of samples times the largest term, and
/// the sums of order 0 and 2 are not negative.
pub proof fn lemma_raw_moment_bounds(samples: Seq<TempSample>, day: int, order: int)
    requires
        0 <= order <= 2,
    ensures
        -samples.len() * term_bound() <= raw_moment(samples, day, order) <= samples.len()
            * term_bound(),
        order != 1 ==> 0 <= raw_moment(samples, day, order),
        0 <= samples_on(samples, day) <= samples.len(),
    decreases samples.len(),
{
    if samples.len() > 0 {
        lemma_raw_moment_bounds(samples.drop_last(), day, order);
        lemma_weighted_power_bounds(samples.last(), order);
    }
}

proof fn lemma_no_samples_no_sum(samples: Seq<TempSample>, day: int, order: int)
    requires
        samples_on(samples, day) == 0,
    ensures
        raw_moment(samples, day, order) == 0,
    decreases samples.len(),
{
    if samples.len() > 0 {
        lemma_raw_moment_bounds(samples.drop_last(), day, 0);
        lemma_no_samples_no_sum(samples.drop_last(), day, order);
    }
}

/// A day on which no sample falls has nothing in its sums, and so no data:
/// it has no mean and no standard deviation.
pub proof fn lemma_day_without_samples(samples: Seq<TempSample>, day: int, moments: DayMoments)
    requires
        moments_of(samples, day, moments),
        moments.sample_count == 0,
    ensures
        moments.total_duration == 0,
        moments.weighted_sum == 0,
        moments.weighted_square_sum == 0,
        !spec_has_data(moments),
{
    lemma_no_samples_no_sum(samples, day, 0);
    lemma_no_samples_no_sum(samples, day, 1);
    lemma_no_samples_no_sum(samples, day, 2);
}

/// Every sample that falls on `day` reads `temperature`.
pub open spec fn constant_on(samples: Seq<TempSample>, day: int, temperature: int) -> bool {
    forall|i: int|
        0 <= i < samples.len() && day_index(#[trigger] samples[i]) == day
            ==> samples[i].temperature_tenths == temperature
}

/// Where every sample of a day reads the same temperature `t`, whatever the
/// durations, `S1 = t D` and `S2 = t^2 D`: the mean `S1 / (10 D)` is `t`
/// tenths of a degree, and the variance is zero.
pub proof fn lemma_constant_day(
    samples: Seq<TempSample>,
    day: int,
    temperature: int,
    moments: DayMoments,
)
    requires
        constant_on(samples, day, temperature),
        moments_of(samples, day, moments),
    ensures
        moments.weighted_sum == temperature * moments.total_duration,
        moments.weighted_square_sum == temperature * temperature * moments.total_duration,
        spec_variance_numerator(moments) == 0,
{
    lemma_constant_sums(samples, day, temperature);
    let total = raw_moment(samples, day, 0);
    let first = raw_moment(samples, day, 1);
    let second = raw_moment(samples, day, 2);
    assert(moments.total_duration * moments.weighted_square_sum == total * second)
        by (nonlinear_arith)
        requires
            moments.total_duration == total,
            moments.weighted_square_sum == second,
    ;
    assert(moments.weighted_sum * moments.weighted_sum == first * first) by (nonlinear_arith)
        requires
            moments.weighted_sum == first,
    ;
}

proof fn lemma_constant_sums(samples: Seq<TempSample>, day: int, temperature: int)
    requires
        constant_on(samples, day, temperature),
    ensures
        raw_moment(samples, day, 1) == temperature * raw_moment(samples, day, 0),
        raw_moment(samples, day, 2) == temperature * temperature * raw_moment(samples, day, 0),
        raw_moment(samples, day, 0) * raw_moment(samples, day, 2) - raw_moment(samples, day, 1)
            * raw_moment(samples, day, 1) == 0,
    decreases samples.len(),
{
    let total = raw_moment(samples, day, 0);
    if samples.len() > 0 {
        let shorter = samples.drop_last();
        assert(constant_on(shorter, day, temperature)) by {
            assert forall|i: int|
                0 <= i < shorter.len() && day_index(
                    #[trigger] shorter[i],
                ) == day implies shorter[i].temperature_tenths == temperature by {
                assert(shorter[i] == samples[i]);
            }
        }
        lemma_constant_sums(shorter, day, temperature);
        if day_index(samples.last()) == day {
            let earlier = raw_moment(shorter, day, 0);
            let duration = samples.last().duration_minutes as int;
            assert(samples[samples.len() - 1].temperature_tenths == temperature);
            assert(temperature * (earlier + duration) == temperature * earlier + temperature
                * duration) by (nonlinear_arith);
            assert(temperature * temperature * (earlier + duration) == temperature * temperature
                * earlier + temperature * temperature * duration) by (nonlinear_arith);
        }
    }
    assert(total * (temperature * temperature * total) - (temperature * total) * (temperature
        * total) == 0) by (nonlinear_arith);
}

/// Every sample that falls on `day` reads a temperature from `lowest` to
/// `highest`.
pub open spec fn bounded_on(samples: Seq<TempSample>, day: int, lowest: int, highest: int) -> bool {
    forall|i: int|
        0 <= i < samples.len() && day_index(#[trigger] samples[i]) == day ==> lowest
            <= samples[i].temperature_tenths <= highest
}

proof fn lemma_first_sum_within_range(samples: Seq<TempSample>, day: int, lowest: int, highest: int)
    requires
        bounded_on(samples, day, lowest, highest),
    ensures
        lowest * raw_moment(samples, day, 0) <= raw_moment(samples, day, 1) <= highest
            * raw_moment(samples, day, 0),
    decreases samples.len(),
{
    if samples.len() > 0 {
        let shorter = samples.drop_last();
        assert(bounded_on(shorter, day, lowest, highest)) by {
            assert forall|i: int|
                0 <= i < shorter.len() && day_index(#[trigger] shorter[i]) == day implies lowest
                <= shorter[i].temperature_tenths <= highest by {
                assert(shorter[i] == samples[i]);
            }
        }
        lemma_first_sum_within_range(shorter, day, lowest, highest);
        if day_index(samples.last()) == day {
            let temperature = samples.last().temperature_tenths as int;
            let duration = samples.last().duration_minutes as int;
            let total = raw_moment(shorter, day, 0);
            assert(lowest <= samples[samples.len() - 1].temperature_tenths <= highest);
            assert(lowest * (total + duration) <= lowest * total + temperature * duration)
                by (nonlinear_arith)
                requires
                    lowest <= temperature,
                    0 <= duration,
            ;
            assert(highest * total + temperature * duration <= highest * (total + duration))
                by (nonlinear_arith)
                requires
                    temperature <= highest,
                    0 <= duration,
            ;
        }
    }
}

/// The mean of a day lies within the range of the day's temperatures:
/// where they all lie from `lowest` to `highest`, so does `S1 / D`.
pub proof fn lemma_mean_within_range(
    samples: Seq<TempSample>,
    day: int,
    lowest: int,
    highest: int,
    moments: DayMoments,
)
    requires
        bounded_on(samples, day, lowest, highest),
        moments_of(samples, day, moments),
    ensures
        lowest * moments.total_duration <= moments.weighted_sum <= highest
            * moments.total_duration,
{
    lemma_first_sum_within_range(samples, day, lowest, highest);
}

/// `S2 - 2 c S1 + c^2 D`, the duration-weighted sum of the squared distances
/// of a day's temperatures from `center`.
pub open spec fn squared_distance(samples: Seq<TempSample>, day: int, center: int) -> int {
    raw_moment(samples, day, 2) - 2 * center * raw_moment(samples, day, 1) + center * center
        * raw_moment(samples, day, 0)
}

/// The weighted sum of squared distances from any number is not negative.
pub proof fn lemma_squared_distance_not_negative(samples: Seq<TempSample>, day: int, center: int)
    ensures
        0 <= squared_distance(samples, day, center),
    decreases samples.len(),
{
    if samples.len() > 0 {
        let shorter = samples.drop_last();
        lemma_squared_distance_not_negative(shorter, day, center);
        if day_index(samples.last()) == day {
            let temperature = samples.last().temperature_tenths as int;
            let duration = samples.last().duration_minutes as int;
            let total = raw_moment(shorter, day, 0);
            let first = raw_moment(shorter, day, 1);
            let second = raw_moment(shorter, day, 2);
            assert((second + temperature * temperature * duration) - 2 * center * (first
                + temperature * duration) + center * center * (total + duration) == (second - 2
                * center * first + center * center * total) + duration * ((temperature - center)
                * (temperature - center))) by (nonlinear_arith);
            assert(0 <= duration * ((temperature - center) * (temperature - center)))
                by (nonlinear_arith)
                requires
                    0 <= duration,
            ;
        }
    }
}

/// The variance of a day is never negative: `D S2 - S1^2 >= 0`, so that
/// the square root that gives the standard deviation is always defined.
pub proof fn lemma_variance_not_negative(samples: Seq<TempSample>, day: int, moments: DayMoments)
    requires
        moments_of(samples, day, moments),
    ensures
        spec_variance_numerator(moments) >= 0,
{
    lemma_sums_obey_cauchy_schwarz(samples, day);
    let total = raw_moment(samples, day, 0);
    let first = raw_moment(samples, day, 1);
    let second = raw_moment(samples, day, 2);
    assert(moments.total_duration * moments.weighted_square_sum == total * second)
        by (nonlinear_arith)
        requires
            moments.total_duration == total,
            moments.weighted_square_sum == second,
    ;
    assert(moments.weighted_sum * moments.weighted_sum == first * first) by (nonlinear_arith)
        requires
            moments.weighted_sum == first,
    ;
}

proof fn lemma_sums_obey_cauchy_schwarz(samples: Seq<TempSample>, day: int)
    ensures
        0 <= raw_moment(samples, day, 0) * raw_moment(samples, day, 2) - raw_moment(
            samples,
            day,
            1,
        ) * raw_moment(samples, day, 1),
    decreases samples.len(),
{
    if samples.len() > 0 {
        let shorter = samples.drop_last();
        lemma_sums_obey_cauchy_schwarz(shorter, day);
        if day_index(samples.last()) == day {
            let temperature = samples.last().temperature_tenths as int;
            let duration = samples.last().duration_minutes as int;
            let total = raw_moment(shorter, day, 0);
            let first = raw_moment(shorter, day, 1);
            let second = raw_moment(shorter, day, 2);
            lemma_squared_distance_not_negative(shorter, day, temperature);
            let distance = squared_distance(shorter, day, temperature);
            let square = temperature * temperature;
            let added_first = temperature * duration;
            let added_second = square * duration;
            assert((total + duration) * (second + added_second) == total * second + total
                * added_second + duration * second + duration * added_second)
                by (nonlinear_arith);
            assert((first + added_first) * (first + added_first) == first * first + 2 * (first
                * added_first) + added_first * added_first) by (nonlinear_arith);
            assert(total * added_second == duration * (square * total)) by (nonlinear_arith)
                requires
                    added_second == square * duration,
            ;
            assert(duration * added_second == added_first * added_first) by (nonlinear_arith)
                requires
                    added_second == temperature * temperature * duration,
                    added_first == temperature * duration,
            ;
            assert(first * added_first == duration * (temperature * first)) by (nonlinear_arith)
                requires
                    added_first == temperature * duration,
            ;
            assert(duration * distance == duration * second - 2 * (duration * (temperature
                * first)) + duration * (square * total)) by (nonlinear_arith)
                requires
                    distance == second - 2 * temperature * first + square * total,
            ;
            assert(0 <= duration * distance) by (nonlinear_arith)
                requires
                    0 <= duration,
                    0 <= distance,
            ;
        }
    }
}

/// The sums of two runs of samples, one after the other, are the sums of
/// the two runs added: each sample adds its part wherever it stands, so
/// the order of the samples does not change the sums of a day.
pub proof fn lemma_sums_add_up(earlier: Seq<TempSample>, later: Seq<TempSample>, day: int, order: int)
    ensures
        raw_moment(earlier + later, day, order) == raw_moment(earlier, day, order) + raw_moment(
            later,
            day,
            order,
        ),
        samples_on(earlier + later, day) == samples_on(earlier, day) + samples_on(later, day),
    decreases later.len(),
{
    if later.len() == 0 {
        assert(earlier + later =~= earlier);
    } else {
        assert((earlier + later).drop_last() =~= earlier + later.drop_last());
        assert((earlier + later).last() == later.last());
        lemma_sums_add_up(earlier, later.drop_last(), day, order);
    }
}

proof fn lemma_second_sum_within_range(
    samples: Seq<TempSample>,
    day: int,
    lowest: int,
    highest: int,
)
    requires
        bounded_on(samples, day, lowest, highest),
    ensures
        raw_moment(samples, day, 2) <= (lowest + highest) * raw_moment(samples, day, 1) - lowest
            * highest * raw_moment(samples, day, 0),
    decreases samples.len(),
{
    if samples.len() > 0 {
        let shorter = samples.drop_last();
        assert(bounded_on(shorter, day, lowest, highest)) by {
            assert forall|i: int|
                0 <= i < shorter.len() && day_index(#[trigger] shorter[i]) == day implies lowest
                <= shorter[i].temperature_tenths <= highest by {
                assert(shorter[i] == samples[i]);
            }
        }
        lemma_second_sum_within_range(shorter, day, lowest, highest);
        if day_index(samples.last()) == day {
            let temperature = samples.last().temperature_tenths as int;
            let duration = samples.last().duration_minutes as int;
            let total = raw_moment(shorter, day, 0);
            let first = raw_moment(shorter, day, 1);
            let added = temperature * duration;
            assert(lowest <= samples[samples.len() - 1].temperature_tenths <= highest);
            assert(temperature * temperature * duration <= (lowest + highest) * added - lowest
                * highest * duration) by (nonlinear_arith)
                requires
                    lowest <= temperature <= highest,
                    0 <= duration,
                    added == temperature * duration,
            ;
            assert((lowest + highest) * (first + added) == (lowest + highest) * first + (lowest
                + highest) * added) by (nonlinear_arith);
            assert(lowest * highest * (total + duration) == lowest * highest * total + lowest
                * highest * duration) by (nonlinear_arith);
        }
    }
}

/// The variance of a day is at most the square of the range of the day's
/// temperatures: where they all lie from `lowest` to `highest`,
/// `D S2 - S1^2 <= ((highest - lowest) D)^2`.
pub proof fn lemma_variance_at_most_range(
    samples: Seq<TempSample>,
    day: int,
    lowest: int,
    highest: int,
    moments: DayMoments,
)
    requires
        bounded_on(samples, day, lowest, highest),
        moments_of(samples, day, moments),
    ensures
        spec_variance_numerator(moments) <= ((highest - lowest) * moments.total_duration) * ((
        highest - lowest) * moments.total_duration),
{
    lemma_first_sum_within_range(samples, day, lowest, highest);
    lemma_second_sum_within_range(samples, day, lowest, highest);
    let total = moments.total_duration as int;
    let first = moments.weighted_sum as int;
    let second = moments.weighted_square_sum as int;
    let above = first - lowest * total;
    let below = highest * total - first;
    assert(total * second <= total * ((lowest + highest) * first - lowest * highest * total))
        by (nonlinear_arith)
        requires
            0 <= total,
            second <= (lowest + highest) * first - lowest * highest * total,
    ;
    assert(total * ((lowest + highest) * first - lowest * highest * total) - first * first
        == above * below) by (nonlinear_arith)
        requires
            above == first - lowest * total,
            below == highest * total - first,
    ;
    assert(above * below <= (above + below) * (above + below)) by (nonlinear_arith)
        requires
            0 <= above,
            0 <= below,
    ;
    assert(above + below == (highest - lowest) * total) by (nonlinear_arith)
        requires
            above == first - lowest * total,
            below == highest * total - first,
    ;
}

/// The sums of a day depend on which samples there are and how often, not
/// on their order: two runs of the same samples have the same sums.
pub proof fn lemma_order_does_not_matter(
    first: Seq<TempSample>,
    second: Seq<TempSample>,
    day: int,
    order: int,
)
    requires
        first.to_multiset() == second.to_multiset(),
    ensures
        raw_moment(first, day, order) == raw_moment(second, day, order),
        samples_on(first, day) == samples_on(second, day),
    decreases first.len(),
{
    vstd::seq_lib::to_multiset_len(first);
    vstd::seq_lib::to_multiset_len(second);
    if first.len() > 0 {
        let sample = first.last();
        let shorter = first.drop_last();
        assert(first =~= shorter.push(sample));
        vstd::seq_lib::to_multiset_build(shorter, sample);
        assert(second.to_multiset().count(sample) > 0);
        vstd::seq_lib::to_multiset_contains(second, sample);
        let at = choose|at: int| 0 <= at < second.len() && second[at] == sample;
        let rest = second.remove(at);
        vstd::seq_lib::to_multiset_remove(second, at);
        assert(rest.to_multiset() =~= shorter.to_multiset());
        lemma_order_does_not_matter(shorter, rest, day, order);
        let before = second.subrange(0, at);
        let after = second.subrange(at + 1, second.len() as int);
        let alone = seq![sample];
        assert(second =~= before + alone + after);
        assert(rest =~= before + after);
        assert(alone.drop_last() =~= Seq::<TempSample>::empty());
        assert(alone.last() == sample);
        assert(raw_moment(alone.drop_last(), day, order) == 0);
        assert(samples_on(alone.drop_last(), day) == 0);
        assert(raw_moment(first, day, order) == raw_moment(shorter, day, order) + raw_moment(
            alone,
            day,
            order,
        ));
        assert(samples_on(first, day) == samples_on(shorter, day) + samples_on(alone, day));
        lemma_sums_add_up(before, alone, day, order);
        lemma_sums_add_up(before + alone, after, day, order);
        lemma_sums_add_up(before, after, day, order);
    } else {
        assert(second.len() == 0);
    }
}

/// No sample counts for more than `limit` minutes.
pub open spec fn durations_at_most(samples: Seq<TempSample>, limit: int) -> bool {
    forall|i: int| 0 <= i < samples.len() ==> (#[trigger] samples[i]).duration_minutes <= limit
}

proof fn lemma_raw_moment_duration_bounds(samples: Seq<TempSample>, day: int, limit: int)
    requires
        durations_at_most(samples, limit),
        0 <= limit,
    ensures
        raw_moment(samples, day, 0) <= samples.len() * limit,
        raw_moment(samples, day, 2) <= samples.len() * (0x4000_0000 * limit),
    decreases samples.len(),
{
    if samples.len() > 0 {
        let shorter = samples.drop_last();
        assert(durations_at_most(shorter, limit)) by {
            assert forall|i: int| 0 <= i < shorter.len() implies (
            #[trigger] shorter[i]).duration_minutes <= limit by {
                assert(shorter[i] == samples[i]);
            }
        }
        lemma_raw_moment_duration_bounds(shorter, day, limit);
        let temperature = samples.last().temperature_tenths as int;
        let duration = samples.last().duration_minutes as int;
        assert(samples[samples.len() - 1].duration_minutes <= limit);
        assert(0 <= temperature * temperature <= 0x4000_0000) by (nonlinear_arith)
            requires
                -0x8000 <= temperature <= 0x8000,
        ;
        let square = temperature * temperature;
        assert(square * duration <= 0x4000_0000 * limit) by (nonlinear_arith)
            requires
                0 <= square <= 0x4000_0000,
                0 <= duration <= limit,
        ;
        assert(samples.len() * limit == shorter.len() * limit + limit) by (nonlinear_arith)
            requires
                samples.len() == shorter.len() + 1,
        ;
        assert(samples.len() * (0x4000_0000 * limit) == shorter.len() * (0x4000_0000 * limit)
            + 0x4000_0000 * limit) by (nonlinear_arith)
            requires
                samples.len() == shorter.len() + 1,
        ;
    }
}

/// For a year of at most 2^20 samples, none of them longer than 2^20
/// minutes, the numerator of each day's variance is there: it is not
/// negative, and it fits.
pub proof fn lemma_variance_numerator_exists(
    samples: Seq<TempSample>,
    day: int,
    moments: DayMoments,
)
    requires
        moments_of(samples, day, moments),
        samples.len() <= 0x10_0000,
        durations_at_most(samples, 0x10_0000),
    ensures
        checked_variance_numerator(moments) is Some,
        checked_variance_numerator(moments)->Some_0 == spec_variance_numerator(moments),
{
    lemma_raw_moment_duration_bounds(samples, day, 0x10_0000);
    lemma_raw_moment_bounds(samples, day, 0);
    lemma_raw_moment_bounds(samples, day, 2);
    lemma_variance_not_negative(samples, day, moments);
    let total = raw_moment(samples, day, 0);
    let second = raw_moment(samples, day, 2);
    let count = samples.len() as int;
    assert(total <= 0x100_0000_0000 && second <= 0x4_0000_0000_0000_0000_0000) by (nonlinear_arith)
        requires
            0 <= count <= 0x10_0000,
            total <= count * 0x10_0000,
            second <= count * (0x4000_0000 * 0x10_0000),
    ;
    let product = moments.total_duration * moments.weighted_square_sum;
    let square = moments.weighted_sum * moments.weighted_sum;
    assert(0 <= product <= 0x100_0000_0000 * 0x4_0000_0000_0000_0000_0000) by (nonlinear_arith)
        requires
            product == total * second,
            0 <= total <= 0x100_0000_0000,
            0 <= second <= 0x4_0000_0000_0000_0000_0000,
    ;
    assert(0 <= square <= product) by (nonlinear_arith)
        requires
            square == moments.weighted_sum * moments.weighted_sum,
            square <= product,
    ;
}

/// Sorts the samples into the days of the year and sums each day. A year
/// has 366 days if `leap_year` and 365 if not, and a sample falls on the day
/// `minute_of_year / 1440`; the first sample that falls on no day of the
/// year is refused as an invalid date.
pub fn aggregate_days(samples: &Vec<TempSample>, leap_year: bool) -> (summed: Result<
    Vec<DayMoments>,
    Rejection,
>)
    ensures
        match summed {
            Ok(days) => within_year(samples@, leap_year) && days_of(samples@, leap_year, days@),
            Err(rejection) => first_past_year(samples@, leap_year, rejection),
        },
{
    let day_count: usize = days_in_year(leap_year) as usize;
    let mut days: Vec<DayMoments> = Vec::new();
    while days.len() < day_count
        invariant
            days@.len() <= day_count,
            forall|day: int|
                0 <= day < days@.len() ==> moments_of(Seq::empty(), day, #[trigger] days@[day]),
        decreases day_count - days.len(),
    {
        days.push(DayMoments::empty());
    }
    let mut index: usize = 0;
    assert(samples@.take(0) =~= Seq::empty());
    while index < samples.len()
        invariant
            index <= samples.len(),
            day_count == spec_days_in_year(leap_year),
            within_year(samples@.take(index as int), leap_year),
            days_of(samples@.take(index as int), leap_year, days@),
        decreases samples.len() - index,
    {
        let sample: TempSample = samples[index];
        let day: usize = (sample.minute_of_year / MINUTES_PER_DAY) as usize;
        if day >= day_count {
            return Err(Rejection { index, error: Error::InvalidDate });
        }
        let ghost shorter = samples@.take(index as int);
        let ghost longer = samples@.take(index + 1);
        let before: DayMoments = days[day];
        proof {
            assert(longer.drop_last() =~= shorter);
            assert(longer.last() == sample);
            assert(moments_of(shorter, day as int, before));
            lemma_raw_moment_bounds(longer, day as int, 0);
            lemma_raw_moment_bounds(longer, day as int, 1);
            lemma_raw_moment_bounds(longer, day as int, 2);
            lemma_weighted_power_bounds(sample, 1);
            lemma_weighted_power_bounds(sample, 2);
        }
        let temperature: i128 = sample.temperature_tenths as i128;
        let duration: i128 = sample.duration_minutes as i128;
        assert(0 <= temperature * temperature <= 0x4000_0000) by (nonlinear_arith)
            requires
                -0x8000 <= temperature <= 0x8000,
        ;
        let first: i128 = temperature * duration;
        let second: i128 = temperature * temperature * duration;
        let after = DayMoments {
            sample_count: before.sample_count + 1,
            total_duration: before.total_duration + sample.duration_minutes as u128,
            weighted_sum: before.weighted_sum + first,
            weighted_square_sum: before.weighted_square_sum + second as u128,
        };
        days.set(day, after);
        proof {
            assert(moments_of(longer, day as int, after));
            assert forall|other: int| 0 <= other < days@.len() implies moments_of(
                longer,
                other,
                #[trigger] days@[other],
            ) by {
                if other != day {
                    assert(moments_of(shorter, other, days@[other]));
                }
            }
            assert forall|i: int| 0 <= i < longer.len() implies day_index(#[trigger] longer[i])
                < spec_days_in_year(leap_year) by {
                if i < index {
                    assert(shorter[i] == longer[i]);
                }
            }
        }
        index = index + 1;
    }
    assert(samples@.take(index as int) =~= samples@);
    Ok(days)
}

/// The record's month and day name a day of the calendar.
pub open spec fn dated(record: ParsedObservation, leap_year: bool) -> bool {
    valid_date(record.month as int, record.day as int, leap_year)
}

/// The temperatures, in order, of the records whose day of the year, in a
/// year of the given kind, is `ordinal`.
pub open spec fn temperatures_of_day(
    records: Seq<ParsedObservation>,
    leap_year: bool,
    ordinal: int,
) -> Seq<i16>
    decreases records.len(),
{
    if records.len() == 0 {
        Seq::empty()
    } else if spec_day_of_year(
        records.last().month as int,
        records.last().day as int,
        leap_year,
    ) == ordinal {
        temperatures_of_day(records.drop_last(), leap_year, ordinal).push(
            records.last().temperature_tenths,
        )
    } else {
        temperatures_of_day(records.drop_last(), leap_year, ordinal)
    }
}

/// The temperatures, in order, of the records that were taken on the day
/// with the given 1-based ordinal. The year of the first record decides
/// whether the year is a leap year.
pub open spec fn temperatures_on(records: Seq<ParsedObservation>, ordinal: int) -> Seq<i16> {
    temperatures_of_day(records, series_leap_year(records), ordinal)
}

/// Every record is dated on the calendar.
pub open spec fn all_dated(records: Seq<ParsedObservation>) -> bool {
    forall|i: int|
        0 <= i < records.len() ==> dated(#[trigger] records[i], series_leap_year(records))
}

/// The record at `rejection.index` is the first whose date is off the
/// calendar.
pub open spec fn first_undated(records: Seq<ParsedObservation>, rejection: Rejection) -> bool {
    &&& rejection.error == Error::InvalidDate
    &&& rejection.index < records.len()
    &&& !dated(records[rejection.index as int], series_leap_year(records))
    &&& forall|i: int|
        0 <= i < rejection.index ==> dated(#[trigger] records[i], series_leap_year(records))
}

/// Sorts the temperatures of the records into the days of the year, each
/// day's readings in the order of the records. The year has 366 days where
/// the first record is of a leap year, else 365. Only the date is read: the
/// first record whose month or day is off the calendar is refused.
pub fn temperatures_by_day(records: &Vec<ParsedObservation>) -> (sorted: Result<
    Vec<Vec<i16>>,
    Rejection,
>)
    ensures
        match sorted {
            Ok(days) => all_dated(records@) && days@.len() == spec_days_in_year(
                series_leap_year(records@),
            ) && forall|d: int|
                0 <= d < days@.len() ==> (#[trigger] days@[d])@ == temperatures_on(
                    records@,
                    d + 1,
                ),
            Err(rejection) => first_undated(records@, rejection),
        },
{
    let leap_year: bool = records.len() > 0 && is_leap_year(records[0].year);
    let day_count: usize = days_in_year(leap_year) as usize;
    let mut days: Vec<Vec<i16>> = Vec::new();
    while days.len() < day_count
        invariant
            days@.len() <= day_count,
            forall|d: int| 0 <= d < days@.len() ==> (#[trigger] days@[d])@ == Seq::<i16>::empty(),
        decreases day_count - days.len(),
    {
        days.push(Vec::new());
    }
    let mut index: usize = 0;
    assert(records@.take(0) =~= Seq::empty());
    while index < records.len()
        invariant
            index <= records.len(),
            leap_year == series_leap_year(records@),
            day_count == spec_days_in_year(leap_year),
            days@.len() == day_count,
            forall|i: int| 0 <= i < index ==> dated(#[trigger] records@[i], leap_year),
            forall|d: int|
                0 <= d < days@.len() ==> (#[trigger] days@[d])@ == temperatures_of_day(
                    records@.take(index as int),
                    leap_year,
                    d + 1,
                ),
        decreases records.len() - index,
    {
        let record: ParsedObservation = records[index];
        let ordinal: u32 = match day_of_year(record.month, record.day, leap_year) {
            Ok(ordinal) => ordinal,
            Err(_) => {
                return Err(Rejection { index, error: Error::InvalidDate });
            },
        };
        let slot: usize = (ordinal - 1) as usize;
        let ghost shorter = records@.take(index as int);
        let ghost longer = records@.take(index + 1);
        let ghost earlier = days@;
        proof {
            assert(longer.drop_last() =~= shorter);
            assert(longer.last() == record);
        }
        days[slot].push(record.temperature_tenths);
        proof {
            assert forall|d: int| 0 <= d < days@.len() implies (#[trigger] days@[d])@
                == temperatures_of_day(longer, leap_year, d + 1) by {
                if d != slot {
                    assert(days@[d] == earlier[d]);
                }
            }
        }
        index = index + 1;
    }
    assert(records@.take(index as int) =~= records@);
    Ok(days)
}

} // verus!
