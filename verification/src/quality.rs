//! The quality filter: which observations are let through to the statistics.

use vstd::prelude::*;
use crate::record::{ParsedObservation, QualityFlag, QualityVersion};

verus! {

/// An observation is admissible when its quality-control version is one of
/// the two accepted ones and its flag says that it passed.
pub open spec fn spec_is_admissible(observation: ParsedObservation) -> bool {
    (observation.quality_version is V02 || observation.quality_version is V03)
        && observation.quality_flag is Passed
}

/// `spec_is_admissible` as a predicate for `Seq::filter`.
pub open spec fn admissible() -> spec_fn(ParsedObservation) -> bool {
    |observation: ParsedObservation| spec_is_admissible(observation)
}

/// The positions of the admissible observations, in rising order.
pub open spec fn admissible_positions(records: Seq<ParsedObservation>) -> Seq<int>
    decreases records.len(),
{
    if records.len() == 0 {
        Seq::empty()
    } else if spec_is_admissible(records.last()) {
        admissible_positions(records.drop_last()).push(records.len() - 1)
    } else {
        admissible_positions(records.drop_last())
    }
}

/// `positions` holds exactly the numbers of `expected`.
pub open spec fn positions_are(positions: Seq<usize>, expected: Seq<int>) -> bool {
    &&& positions.len() == expected.len()
    &&& forall|k: int| 0 <= k < positions.len() ==> #[trigger] positions[k] as int == expected[k]
}

/// `kept` holds the records at `positions`, in that order.
pub open spec fn picked_from(
    kept: Seq<ParsedObservation>,
    records: Seq<ParsedObservation>,
    positions: Seq<int>,
) -> bool {
    &&& kept.len() == positions.len()
    &&& forall|k: int|
        0 <= k < kept.len() ==> 0 <= #[trigger] positions[k] < records.len() && kept[k]
            == records[positions[k]]
}

pub fn is_admissible(observation: &ParsedObservation) -> (admitted: bool)
    ensures
        admitted == spec_is_admissible(*observation),
{
    let version_accepted: bool = match observation.quality_version {
        QualityVersion::V02 => true,
        QualityVersion::V03 => true,
        QualityVersion::Other => false,
    };
    let passed: bool = match observation.quality_flag {
        QualityFlag::Passed => true,
        QualityFlag::NotPassed => false,
    };
    version_accepted && passed
}

/// The positions name admissible records only, each admissible record once,
/// and rise.
pub proof fn lemma_admissible_positions(records: Seq<ParsedObservation>)
    ensures
        admissible_positions(records).len() <= records.len(),
        forall|k: int|
            0 <= k < admissible_positions(records).len() ==> 0 <= #[trigger] admissible_positions(
                records,
            )[k] < records.len() && spec_is_admissible(records[admissible_positions(records)[k]]),
        forall|j: int, k: int|
            0 <= j < k < admissible_positions(records).len() ==> admissible_positions(records)[j]
                < admissible_positions(records)[k],
        forall|i: int|
            0 <= i < records.len() && spec_is_admissible(#[trigger] records[i])
                ==> admissible_positions(records).contains(i),
    decreases records.len(),
{
    if records.len() > 0 {
        let shorter = records.drop_last();
        let positions = admissible_positions(records);
        lemma_admissible_positions(shorter);
        assert forall|i: int|
            0 <= i < records.len() && spec_is_admissible(
                #[trigger] records[i],
            ) implies positions.contains(i) by {
            if i < shorter.len() {
                assert(spec_is_admissible(shorter[i]));
                let k = choose|k: int|
                    0 <= k < admissible_positions(shorter).len() && admissible_positions(
                        shorter,
                    )[k] == i;
                assert(positions[k] == i);
            } else {
                assert(positions[positions.len() - 1] == i);
            }
        }
    }
}

/// Keeps the admissible observations, in their order, and says for each at
/// which position of `records` it stood.
pub fn retain_admissible(records: &Vec<ParsedObservation>) -> (kept: (
    Vec<ParsedObservation>,
    Vec<usize>,
))
    ensures
        kept.0@ == records@.filter(admissible()),
        positions_are(kept.1@, admissible_positions(records@)),
        picked_from(kept.0@, records@, admissible_positions(records@)),
{
    let mut admitted: Vec<ParsedObservation> = Vec::new();
    let mut positions: Vec<usize> = Vec::new();
    let mut index: usize = 0;
    proof {
        reveal(Seq::filter);
        assert(records@.take(0) =~= Seq::empty());
    }
    while index < records.len()
        invariant
            index <= records.len(),
            admitted@ == records@.take(index as int).filter(admissible()),
            positions_are(positions@, admissible_positions(records@.take(index as int))),
            picked_from(
                admitted@,
                records@.take(index as int),
                admissible_positions(records@.take(index as int)),
            ),
        decreases records.len() - index,
    {
        let record: ParsedObservation = records[index];
        proof {
            let shorter = records@.take(index as int);
            let longer = records@.take(index + 1);
            assert(longer.drop_last() =~= shorter);
            assert(longer =~= shorter.push(record));
            shorter.lemma_filter_push(record, admissible());
            assert(admissible_positions(longer) == if spec_is_admissible(record) {
                admissible_positions(shorter).push(index as int)
            } else {
                admissible_positions(shorter)
            });
        }
        if is_admissible(&record) {
            admitted.push(record);
            positions.push(index);
        }
        index = index + 1;
    }
    assert(records@.take(index as int) =~= records@);
    (admitted, positions)
}

} // verus!
