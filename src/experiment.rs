//! Reducing the results of independent trials to averages.

use vstd::prelude::*;
use crate::world::{SimulationError, SimulationResult};

verus! {

/// Averages over the trials of one experiment, rounded down.
#[derive(Debug, Clone, Copy, PartialEq, Eq, Structural)]
pub struct ExperimentSummary {
    pub trial_count: u32,
    pub average_last_interrogated_day: u32,
    pub average_freed_day: u32,
}

/// Sum of the days on which the prisoners were freed.
pub open spec fn sum_freed(s: Seq<SimulationResult>) -> nat
    decreases s.len(),
{
    if s.len() == 0 {
        0
    } else {
        sum_freed(s.drop_last()) + s.last().prisoners_freed_on_day as nat
    }
}

/// Sum of the days on which the last prisoner was interrogated.
pub open spec fn sum_last(s: Seq<SimulationResult>) -> nat
    decreases s.len(),
{
    if s.len() == 0 {
        0
    } else {
        sum_last(s.drop_last()) + s.last().last_prisoner_interrogated_on_day as nat
    }
}

/// Each trial adds at most `u32::MAX` to either sum.
pub proof fn lemma_sums_bounded(s: Seq<SimulationResult>)
    ensures
        sum_freed(s) <= s.len() * (u32::MAX as nat),
        sum_last(s) <= s.len() * (u32::MAX as nat),
    decreases s.len(),
{
    if s.len() > 0 {
        lemma_sums_bounded(s.drop_last());
    }
}

/// Checks what an experiment is configured with before any trial runs.
pub fn validate_config(prisoner_count: usize, repetitions: u32) -> (r: Result<(), SimulationError>)
    ensures
        r == Ok::<(), SimulationError>(()) <==> 1 <= prisoner_count <= u32::MAX && repetitions >= 1,
        prisoner_count == 0 ==> r == Err::<(), SimulationError>(SimulationError::NoPrisoners),
        prisoner_count > u32::MAX ==> r == Err::<(), SimulationError>(SimulationError::TooManyPrisoners),
        1 <= prisoner_count <= u32::MAX && repetitions == 0 ==> r == Err::<(), SimulationError>(
            SimulationError::NoRepetitions,
        ),
{
    if prisoner_count == 0 {
        Err(SimulationError::NoPrisoners)
    } else if prisoner_count > u32::MAX as usize {
        Err(SimulationError::TooManyPrisoners)
    } else if repetitions == 0 {
        Err(SimulationError::NoRepetitions)
    } else {
        Ok(())
    }
}

/// The averages of the trials' days: each sum divided by the number of
/// trials, rounded down.
pub fn summarize(results: &[SimulationResult]) -> (r: Result<ExperimentSummary, SimulationError>)
    ensures
        results@.len() == 0 <==> r == Err::<ExperimentSummary, SimulationError>(SimulationError::NoRepetitions),
        results@.len() > u32::MAX <==> r == Err::<ExperimentSummary, SimulationError>(
            SimulationError::TooManyRepetitions,
        ),
        1 <= results@.len() <= u32::MAX ==> r == Ok::<ExperimentSummary, SimulationError>(
            ExperimentSummary {
                trial_count: results@.len() as u32,
                average_last_interrogated_day: (sum_last(results@) / results@.len()) as u32,
                average_freed_day: (sum_freed(results@) / results@.len()) as u32,
            },
        ),
        1 <= results@.len() ==> sum_freed(results@) / results@.len() <= u32::MAX,
        1 <= results@.len() ==> sum_last(results@) / results@.len() <= u32::MAX,
{
    proof {
        if results@.len() >= 1 {
            lemma_sums_bounded(results@);
            assert(sum_freed(results@) / results@.len() <= u32::MAX) by (nonlinear_arith)
                requires
                    sum_freed(results@) <= results@.len() * (u32::MAX as nat),
                    results@.len() >= 1,
            ;
            assert(sum_last(results@) / results@.len() <= u32::MAX) by (nonlinear_arith)
                requires
                    sum_last(results@) <= results@.len() * (u32::MAX as nat),
                    results@.len() >= 1,
            ;
        }
    }
    if results.len() == 0 {
        return Err(SimulationError::NoRepetitions);
    }
    if results.len() > u32::MAX as usize {
        return Err(SimulationError::TooManyRepetitions);
    }
    let mut freed_total: u64 = 0;
    let mut last_total: u64 = 0;
    let mut i: usize = 0;
    while i < results.len()
        invariant
            i <= results@.len() <= u32::MAX,
            freed_total == sum_freed(results@.subrange(0, i as int)),
            last_total == sum_last(results@.subrange(0, i as int)),
        decreases results@.len() - i,
    {
        proof {
            let next = results@.subrange(0, i + 1);
            assert(next.drop_last() == results@.subrange(0, i as int));
            lemma_sums_bounded(next);
            assert(next.len() * (u32::MAX as nat) <= (u32::MAX as nat) * (u32::MAX as nat)) by (nonlinear_arith)
                requires
                    next.len() <= u32::MAX,
            ;
        }
        freed_total = freed_total + results[i].prisoners_freed_on_day as u64;
        last_total = last_total + results[i].last_prisoner_interrogated_on_day as u64;
        i = i + 1;
    }
    assert(results@.subrange(0, results@.len() as int) == results@);
    let count = results.len() as u64;
    Ok(ExperimentSummary {
        trial_count: results.len() as u32,
        average_last_interrogated_day: (last_total / count) as u32,
        average_freed_day: (freed_total / count) as u32,
    })
}

} // verus!
