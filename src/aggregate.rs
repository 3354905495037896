//! The two aggregation strategies over a dataset's segments: the sequential
//! one, and the reduce phase of the fork-join one, which combines the outcomes
//! of the units of work in the order they were scheduled.
use vstd::prelude::*;

use crate::digits::{segment_sum, segment_sum_spec, DigitError};
use crate::segment::{segments, split_segments, texts};

verus! {

/// Why an aggregation run produced no final result; `segment` is the index of
/// the segment at which it stopped.
#[derive(Clone, Copy, Debug, PartialEq, Eq, Structural)]
pub enum MapReduceError {
    /// The segment holds a character that is not a decimal digit.
    InvalidDigit { segment: usize },
    /// The segment's sum, or the running total with it, does not fit in a `u32`.
    Overflow { segment: usize },
    /// The unit of work for the segment ended without delivering a result.
    WorkerFailure { segment: usize },
}

/// What joining one unit of work gave back.
#[derive(Clone, Copy, Debug)]
pub enum JoinOutcome {
    /// The unit ran to its end and delivered the primitive's outcome.
    Completed(Result<u32, DigitError>),
    /// The unit terminated abnormally.
    Panicked,
}

/// Adds the outcome of segment `index` to the running `total`.
pub open spec fn step(total: u32, partial: Result<u32, DigitError>, index: int) -> Result<
    u32,
    MapReduceError,
> {
    match partial {
        Err(DigitError::InvalidDigit) => Err(MapReduceError::InvalidDigit { segment: index as usize }),
        Err(DigitError::Overflow) => Err(MapReduceError::Overflow { segment: index as usize }),
        Ok(p) => if total + p > u32::MAX {
            Err(MapReduceError::Overflow { segment: index as usize })
        } else {
            Ok((total + p) as u32)
        },
    }
}

/// The sequential aggregator on the segments `segs`: each segment's digit sum
/// is added in order, and the first failure ends the run.
pub open spec fn sequential_spec(segs: Seq<Seq<char>>) -> Result<u32, MapReduceError>
    decreases segs.len(),
{
    if segs.len() == 0 {
        Ok(0)
    } else {
        match sequential_spec(segs.drop_last()) {
            Err(e) => Err(e),
            Ok(t) => step(t, segment_sum_spec(segs.last()), segs.len() - 1),
        }
    }
}

/// The reduce phase on the joined outcomes, in scheduling order: the first
/// failed unit ends the run.
pub open spec fn reduce_spec(outcomes: Seq<JoinOutcome>) -> Result<u32, MapReduceError>
    decreases outcomes.len(),
{
    if outcomes.len() == 0 {
        Ok(0)
    } else {
        match reduce_spec(outcomes.drop_last()) {
            Err(e) => Err(e),
            Ok(t) => match outcomes.last() {
                JoinOutcome::Completed(p) => step(t, p, outcomes.len() - 1),
                JoinOutcome::Panicked => Err(
                    MapReduceError::WorkerFailure { segment: (outcomes.len() - 1) as usize },
                ),
            },
        }
    }
}

/// The outcomes that units of work deliver when each of them runs the
/// primitive on its segment to the end.
pub open spec fn units(segs: Seq<Seq<char>>) -> Seq<JoinOutcome> {
    segs.map_values(|g: Seq<char>| JoinOutcome::Completed(segment_sum_spec(g)))
}

fn accumulate(total: u32, partial: Result<u32, DigitError>, index: usize) -> (r: Result<
    u32,
    MapReduceError,
>)
    ensures
        r == step(total, partial, index as int),
{
    match partial {
        Err(DigitError::InvalidDigit) => Err(MapReduceError::InvalidDigit { segment: index }),
        Err(DigitError::Overflow) => Err(MapReduceError::Overflow { segment: index }),
        Ok(p) => match total.checked_add(p) {
            Some(t) => Ok(t),
            None => Err(MapReduceError::Overflow { segment: index }),
        },
    }
}

/// The sequential aggregator: the digit sum of every segment of `data`,
/// computed one segment after the other in the calling thread.
pub fn map_reduce_sync(data: &str) -> (r: Result<u32, MapReduceError>)
    ensures
        r == sequential_spec(segments(data@)),
{
    let segs = split_segments(data);
    let ghost all = segments(data@);
    let mut total: u32 = 0;
    let mut idx: usize = 0;
    while idx < segs.len()
        invariant
            texts(segs@) == all,
            all == segments(data@),
            idx <= segs.len(),
            sequential_spec(all.take(idx as int)) == Ok::<u32, MapReduceError>(total),
        decreases segs.len() - idx,
    {
        let partial = segment_sum(segs[idx].as_str());
        proof {
            assert(all.take(idx + 1).drop_last() =~= all.take(idx as int));
            assert(all[idx as int] == segs@[idx as int]@);
        }
        match accumulate(total, partial, idx) {
            Ok(t) => total = t,
            Err(e) => {
                proof {
                    lemma_sequential_stops(all, idx as int + 1);
                }
                return Err(e);
            },
        }
        idx = idx + 1;
    }
    proof {
        assert(all.take(idx as int) =~= all);
    }
    Ok(total)
}

/// The reduce phase of the fork-join aggregator: combines the joined outcomes
/// of the units of work, in the order they were scheduled.
pub fn reduce_joined(outcomes: &Vec<JoinOutcome>) -> (r: Result<u32, MapReduceError>)
    ensures
        r == reduce_spec(outcomes@),
{
    let ghost all = outcomes@;
    let mut total: u32 = 0;
    let mut idx: usize = 0;
    while idx < outcomes.len()
        invariant
            outcomes@ == all,
            idx <= outcomes.len(),
            reduce_spec(all.take(idx as int)) == Ok::<u32, MapReduceError>(total),
        decreases outcomes.len() - idx,
    {
        proof {
            assert(all.take(idx + 1).drop_last() =~= all.take(idx as int));
        }
        let step_result = match outcomes[idx] {
            JoinOutcome::Completed(p) => accumulate(total, p, idx),
            JoinOutcome::Panicked => Err(MapReduceError::WorkerFailure { segment: idx }),
        };
        match step_result {
            Ok(t) => total = t,
            Err(e) => {
                proof {
                    lemma_reduce_stops(all, idx as int + 1);
                }
                return Err(e);
            },
        }
        idx = idx + 1;
    }
    proof {
        assert(all.take(idx as int) =~= all);
    }
    Ok(total)
}

/// Once the sequential aggregator fails on a prefix, it fails the same way on
/// the whole.
pub proof fn lemma_sequential_stops(segs: Seq<Seq<char>>, k: int)
    requires
        0 <= k <= segs.len(),
        sequential_spec(segs.take(k)) is Err,
    ensures
        sequential_spec(segs) == sequential_spec(segs.take(k)),
    decreases segs.len() - k,
{
    if k < segs.len() {
        assert(segs.take(k + 1).drop_last() =~= segs.take(k));
        lemma_sequential_stops(segs, k + 1);
    } else {
        assert(segs.take(k) =~= segs);
    }
}

/// Once the reduce phase fails on a prefix, it fails the same way on the whole.
proof fn lemma_reduce_stops(outcomes: Seq<JoinOutcome>, k: int)
    requires
        0 <= k <= outcomes.len(),
        reduce_spec(outcomes.take(k)) is Err,
    ensures
        reduce_spec(outcomes) == reduce_spec(outcomes.take(k)),
    decreases outcomes.len() - k,
{
    if k < outcomes.len() {
        assert(outcomes.take(k + 1).drop_last() =~= outcomes.take(k));
        lemma_reduce_stops(outcomes, k + 1);
    } else {
        assert(outcomes.take(k) =~= outcomes);
    }
}

} // verus!
