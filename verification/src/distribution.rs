//! How long each temperature was held: the durations of the samples, summed
//! by temperature.

use vstd::prelude::*;
use crate::timeline::TempSample;

verus! {

/// One temperature and the minutes for which it was read.
#[derive(Clone, Copy, Debug, PartialEq, Eq)]
pub struct TemperatureShare {
    /// Temperature in tenths of a degree.
    pub temperature_tenths: i16,
    /// The sum of the durations of the samples that read it.
    pub duration_minutes: u128,
}

/// The sum of the durations of the samples that read `temperature`.
pub open spec fn duration_at(samples: Seq<TempSample>, temperature: int) -> int
    decreases samples.len(),
{
    if samples.len() == 0 {
        0
    } else if samples.last().temperature_tenths == temperature {
        duration_at(samples.drop_last(), temperature) + samples.last().duration_minutes
    } else {
        duration_at(samples.drop_last(), temperature)
    }
}

/// The shares rise by temperature, so that none is listed twice.
pub open spec fn rising(shares: Seq<TemperatureShare>) -> bool {
    forall|i: int, j: int|
        0 <= i < j < shares.len() ==> shares[i].temperature_tenths < shares[j].temperature_tenths
}

/// Each share holds the whole duration of its temperature, and that is not
/// zero.
pub open spec fn shares_are_sums(samples: Seq<TempSample>, shares: Seq<TemperatureShare>) -> bool {
    forall|i: int|
        0 <= i < shares.len() ==> (#[trigger] shares[i]).duration_minutes > 0
            && shares[i].duration_minutes == duration_at(
            samples,
            shares[i].temperature_tenths as int,
        )
}

/// Some share is for `temperature`.
pub open spec fn listed(shares: Seq<TemperatureShare>, temperature: int) -> bool {
    exists|i: int| 0 <= i < shares.len() && (#[trigger] shares[i]).temperature_tenths == temperature
}

/// Every temperature from `lowest` up to, not including, `end` that was
/// held for any time is listed.
pub open spec fn complete_between(
    samples: Seq<TempSample>,
    shares: Seq<TemperatureShare>,
    lowest: int,
    end: int,
) -> bool {
    forall|temperature: int|
        lowest <= temperature < end && #[trigger] duration_at(samples, temperature) > 0 ==> listed(
            shares,
            temperature,
        )
}

/// The sum of the durations of all the samples.
pub open spec fn whole_duration(samples: Seq<TempSample>) -> int
    decreases samples.len(),
{
    if samples.len() == 0 {
        0
    } else {
        whole_duration(samples.drop_last()) + samples.last().duration_minutes
    }
}

/// The sum of the durations of all the shares.
pub open spec fn shared_duration(shares: Seq<TemperatureShare>) -> int
    decreases shares.len(),
{
    if shares.len() == 0 {
        0
    } else {
        shared_duration(shares.drop_last()) + shares.last().duration_minutes
    }
}

/// The sum of the first `end` totals.
spec fn sum_to(totals: Seq<u128>, end: int) -> int
    decreases end,
{
    if end <= 0 {
        0
    } else {
        sum_to(totals, end - 1) + totals[end - 1]
    }
}

proof fn lemma_sum_of_zeros(totals: Seq<u128>, end: int)
    requires
        0 <= end <= totals.len(),
        forall|k: int| 0 <= k < totals.len() ==> #[trigger] totals[k] == 0,
    ensures
        sum_to(totals, end) == 0,
    decreases end,
{
    if end > 0 {
        lemma_sum_of_zeros(totals, end - 1);
    }
}

proof fn lemma_sum_after_update(totals: Seq<u128>, slot: int, total: u128, end: int)
    requires
        0 <= slot < totals.len(),
        0 <= end <= totals.len(),
    ensures
        sum_to(totals.update(slot, total), end) == sum_to(totals, end) + if slot < end {
            total - totals[slot]
        } else {
            0
        },
    decreases end,
{
    if end > 0 {
        lemma_sum_after_update(totals, slot, total, end - 1);
    }
}

/// A duration summed over `samples` is not negative and at most 2^32 times
/// their number.
pub proof fn lemma_duration_at_bounds(samples: Seq<TempSample>, temperature: int)
    ensures
        0 <= duration_at(samples, temperature) <= samples.len() * 0x1_0000_0000,
    decreases samples.len(),
{
    if samples.len() > 0 {
        lemma_duration_at_bounds(samples.drop_last(), temperature);
    }
}

/// Sums the durations by temperature. The result lists each temperature
/// that was held for any time once, lowest first, with the minutes for
/// which it was held; samples of no duration leave no trace. No minute is
/// lost or counted twice: the shares add up to the durations of the samples.
pub fn combine_like_temps(samples: &Vec<TempSample>) -> (shares: Vec<TemperatureShare>)
    ensures
        rising(shares@),
        shares_are_sums(samples@, shares@),
        complete_between(samples@, shares@, i16::MIN as int, i16::MAX + 1),
        shared_duration(shares@) == whole_duration(samples@),
{
    let mut totals: Vec<u128> = Vec::new();
    while totals.len() < 0x1_0000
        invariant
            totals@.len() <= 0x1_0000,
            forall|k: int| 0 <= k < totals@.len() ==> #[trigger] totals@[k] == 0,
        decreases 0x1_0000 - totals.len(),
    {
        totals.push(0);
    }
    let mut index: usize = 0;
    proof {
        assert(samples@.take(0) =~= Seq::empty());
        lemma_sum_of_zeros(totals@, 0x1_0000);
    }
    while index < samples.len()
        invariant
            index <= samples.len(),
            totals@.len() == 0x1_0000,
            sum_to(totals@, 0x1_0000) == whole_duration(samples@.take(index as int)),
            forall|k: int|
                0 <= k < 0x1_0000 ==> #[trigger] totals@[k] == duration_at(
                    samples@.take(index as int),
                    k - 0x8000,
                ),
        decreases samples.len() - index,
    {
        let sample: TempSample = samples[index];
        let slot: usize = (sample.temperature_tenths as i32 + 0x8000) as usize;
        let ghost shorter = samples@.take(index as int);
        let ghost longer = samples@.take(index + 1);
        proof {
            assert(longer.drop_last() =~= shorter);
            assert(longer.last() == sample);
            lemma_duration_at_bounds(longer, slot - 0x8000);
        }
        let total: u128 = totals[slot] + sample.duration_minutes as u128;
        proof {
            lemma_sum_after_update(totals@, slot as int, total, 0x1_0000);
        }
        totals.set(slot, total);
        index = index + 1;
    }
    assert(samples@.take(index as int) =~= samples@);
    let mut shares: Vec<TemperatureShare> = Vec::new();
    let mut slot: usize = 0;
    while slot < 0x1_0000
        invariant
            slot <= 0x1_0000,
            totals@.len() == 0x1_0000,
            shared_duration(shares@) == sum_to(totals@, slot as int),
            forall|k: int|
                0 <= k < 0x1_0000 ==> #[trigger] totals@[k] == duration_at(samples@, k - 0x8000),
            rising(shares@),
            shares_are_sums(samples@, shares@),
            complete_between(samples@, shares@, i16::MIN as int, slot - 0x8000),
            forall|i: int|
                0 <= i < shares@.len() ==> (#[trigger] shares@[i]).temperature_tenths < slot
                    - 0x8000,
        decreases 0x1_0000 - slot,
    {
        let total: u128 = totals[slot];
        let ghost earlier = shares@;
        if total > 0 {
            let temperature: i16 = (slot as i32 - 0x8000) as i16;
            shares.push(TemperatureShare { temperature_tenths: temperature, duration_minutes: total });
            assert(shares@[shares@.len() - 1].temperature_tenths == temperature);
            assert(shares@.drop_last() =~= earlier);
        }
        proof {
            assert forall|temperature: int|
                i16::MIN <= temperature < slot + 1 - 0x8000 && #[trigger] duration_at(
                    samples@,
                    temperature,
                ) > 0 implies listed(shares@, temperature) by {
                if temperature < slot - 0x8000 {
                    assert(listed(earlier, temperature));
                    let i = choose|i: int|
                        0 <= i < earlier.len() && (#[trigger] earlier[i]).temperature_tenths
                            == temperature;
                    assert(shares@[i] == earlier[i]);
                } else {
                    assert(totals@[slot as int] == duration_at(samples@, slot - 0x8000));
                    assert(shares@[shares@.len() - 1].temperature_tenths == temperature);
                }
            }
        }
        slot = slot + 1;
    }
    shares
}

} // verus!
