//! The location aggregator's choice of days: only days with data are pooled,
//! each counted once, and a year without any such day cannot be pooled.

use vstd::prelude::*;
use crate::daily::{spec_has_data, DayMoments};
use crate::error::Error;

verus! {

/// `spec_has_data` as a predicate for `Seq::filter`.
pub open spec fn with_data() -> spec_fn(DayMoments) -> bool {
    |moments: DayMoments| spec_has_data(moments)
}

/// No day of `days` has data.
pub open spec fn all_empty(days: Seq<DayMoments>) -> bool {
    forall|day: int| 0 <= day < days.len() ==> !spec_has_data(#[trigger] days[day])
}

/// The days that are pooled: those with data, in their order. Their number
/// is the `N` by which the pooled sums are divided, so it is never zero:
/// where every day is empty, and only there, the data is insufficient.
pub fn days_with_data(days: &Vec<DayMoments>) -> (pooled: Result<Vec<DayMoments>, Error>)
    ensures
        match pooled {
            Ok(kept) => kept@ == days@.filter(with_data()) && kept@.len() > 0,
            Err(error) => error == Error::InsufficientData && days@.filter(with_data()).len()
                == 0,
        },
        pooled is Err <==> all_empty(days@),
{
    let mut kept: Vec<DayMoments> = Vec::new();
    let mut index: usize = 0;
    proof {
        reveal(Seq::filter);
        assert(days@.take(0) =~= Seq::empty());
    }
    while index < days.len()
        invariant
            index <= days.len(),
            kept@ == days@.take(index as int).filter(with_data()),
            kept@.len() == 0 <==> all_empty(days@.take(index as int)),
        decreases days.len() - index,
    {
        let moments: DayMoments = days[index];
        proof {
            let shorter = days@.take(index as int);
            let longer = days@.take(index + 1);
            assert(longer =~= shorter.push(moments));
            shorter.lemma_filter_push(moments, with_data());
            if spec_has_data(moments) {
                assert(spec_has_data(longer[index as int]));
            } else if all_empty(shorter) {
                assert forall|day: int| 0 <= day < longer.len() implies !spec_has_data(
                    #[trigger] longer[day],
                ) by {
                    if day < index {
                        assert(longer[day] == shorter[day]);
                    }
                }
            } else {
                let day = choose|day: int| 0 <= day < shorter.len() && spec_has_data(shorter[day]);
                assert(longer[day] == shorter[day]);
            }
        }
        if moments.has_data() {
            kept.push(moments);
        }
        index = index + 1;
    }
    assert(days@.take(index as int) =~= days@);
    if kept.len() == 0 {
        Err(Error::InsufficientData)
    } else {
        Ok(kept)
    }
}

} // verus!
