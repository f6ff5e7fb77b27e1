//! Results by horizon: which results a horizon's group holds, and whether
//! it holds any, so that an average is only ever taken over a group that
//! has members.

use crate::horizon::SimulationResult;
use vstd::prelude::*;

verus! {

/// The results of one horizon.
#[derive(Debug)]
pub enum HorizonGroup<V> {
    /// No start year contributed to the horizon: there is nothing to
    /// average.
    NoData,
    /// The contributing results, in the order in which they were computed.
    /// Never empty.
    Rows(Vec<SimulationResult<V>>),
}

/// The results of `horizon` among `results`, in their order.
pub open spec fn of_horizon<V>(results: Seq<SimulationResult<V>>, horizon: u32) -> Seq<
    SimulationResult<V>,
> {
    results.filter(|r: SimulationResult<V>| r.horizon == horizon)
}

/// Gathers the results of `horizon`. The group is `NoData` exactly when no
/// result is of that horizon, so the number of rows of a group that has
/// rows is never zero.
pub fn group_for_horizon<V: Copy>(results: &Vec<SimulationResult<V>>, horizon: u32) -> (group:
    HorizonGroup<V>)
    ensures
        match group {
            HorizonGroup::NoData => of_horizon(results@, horizon).len() == 0,
            HorizonGroup::Rows(rows) => rows@ == of_horizon(results@, horizon) && rows.len() > 0,
        },
{
    let mut rows: Vec<SimulationResult<V>> = Vec::new();
    let mut i: usize = 0;
    assert(results@.take(0).filter(|r: SimulationResult<V>| r.horizon == horizon) =~= Seq::empty())
        by {
        reveal(Seq::filter);
    }
    while i < results.len()
        invariant
            i <= results.len(),
            rows@ == of_horizon(results@.take(i as int), horizon),
        decreases results.len() - i,
    {
        let r = results[i];
        proof {
            reveal(Seq::filter);
            assert(results@.take(i + 1).drop_last() =~= results@.take(i as int));
            assert(results@.take(i + 1).last() == r);
        }
        if r.horizon == horizon {
            rows.push(r);
        }
        i = i + 1;
    }
    assert(results@.take(results.len() as int) =~= results@);
    if rows.len() == 0 {
        HorizonGroup::NoData
    } else {
        HorizonGroup::Rows(rows)
    }
}

} // verus!
