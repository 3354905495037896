//! What holds of the aggregators across all datasets.
use vstd::prelude::*;

use crate::aggregate::{
    lemma_sequential_stops, reduce_spec, sequential_spec, step, units, MapReduceError,
};
use crate::digits::{all_digits, digit_total, segment_sum_spec};
use crate::segment::{is_whitespace, segments};

verus! {

/// The sum of the digit sums of all segments.
pub open spec fn grand_total(segs: Seq<Seq<char>>) -> nat
    decreases segs.len(),
{
    if segs.len() == 0 {
        0
    } else {
        grand_total(segs.drop_last()) + digit_total(segs.last())
    }
}

/// Every segment consists of decimal digits only.
pub open spec fn all_segments_digits(segs: Seq<Seq<char>>) -> bool {
    forall|i: int| 0 <= i < segs.len() ==> all_digits(#[trigger] segs[i])
}

proof fn lemma_units_agree(segs: Seq<Seq<char>>)
    ensures
        reduce_spec(units(segs)) == sequential_spec(segs),
    decreases segs.len(),
{
    if segs.len() > 0 {
        assert(units(segs).drop_last() =~= units(segs.drop_last()));
        lemma_units_agree(segs.drop_last());
    }
}

/// When every unit of work runs to its end, the fork-join aggregator returns
/// exactly what the sequential one returns, on every dataset.
pub proof fn lemma_strategies_agree(data: Seq<char>)
    ensures
        reduce_spec(units(segments(data))) == sequential_spec(segments(data)),
{
    lemma_units_agree(segments(data));
}

/// The sequential aggregator succeeds exactly when every segment is made of
/// digits and the sum of all digits fits in a `u32`, and then returns that sum.
pub proof fn lemma_sequential_total(segs: Seq<Seq<char>>)
    ensures
        sequential_spec(segs) is Ok <==> all_segments_digits(segs) && grand_total(segs)
            <= u32::MAX,
        sequential_spec(segs) is Ok ==> sequential_spec(segs)->Ok_0 == grand_total(segs),
    decreases segs.len(),
{
    if segs.len() > 0 {
        let init = segs.drop_last();
        lemma_sequential_total(init);
        if all_segments_digits(segs) {
            assert forall|i: int| 0 <= i < init.len() implies all_digits(#[trigger] init[i]) by {
                assert(init[i] == segs[i]);
            }
        }
        if !all_segments_digits(segs) && all_segments_digits(init) {
            let i = choose|i: int| 0 <= i < segs.len() && !all_digits(#[trigger] segs[i]);
            if i < init.len() {
                assert(init[i] == segs[i]);
            }
        }
        if all_segments_digits(init) && !all_digits(segs.last()) {
            assert(!all_segments_digits(segs));
        }
        if all_segments_digits(init) && all_digits(segs.last()) {
            assert forall|i: int| 0 <= i < segs.len() implies all_digits(#[trigger] segs[i]) by {
                if i < init.len() {
                    assert(init[i] == segs[i]);
                }
            }
        }
    }
}

/// The final result is the sum of the digit sums of all segments of the
/// dataset, whichever strategy computes it, and it is returned exactly when
/// every segment is made of digits and that sum fits in a `u32`.
pub proof fn lemma_final_result(data: Seq<char>)
    ensures
        sequential_spec(segments(data)) is Ok <==> all_segments_digits(segments(data))
            && grand_total(segments(data)) <= u32::MAX,
        sequential_spec(segments(data)) is Ok ==> sequential_spec(segments(data))->Ok_0
            == grand_total(segments(data)),
        reduce_spec(units(segments(data))) == sequential_spec(segments(data)),
{
    lemma_sequential_total(segments(data));
    lemma_units_agree(segments(data));
}

/// A dataset with a segment that holds a non-digit character makes both
/// aggregators fail with `InvalidDigit` at the first such segment, provided
/// the digits before it sum to a `u32` (else the run stops earlier, with
/// `Overflow`).
pub proof fn lemma_invalid_digit_fails(data: Seq<char>, i: int)
    requires
        0 <= i < segments(data).len(),
        !all_digits(segments(data)[i]),
        forall|j: int| 0 <= j < i ==> all_digits(#[trigger] segments(data)[j]),
        grand_total(segments(data).take(i)) <= u32::MAX,
    ensures
        sequential_spec(segments(data)) == Err::<u32, MapReduceError>(
            MapReduceError::InvalidDigit { segment: i as usize },
        ),
        reduce_spec(units(segments(data))) == sequential_spec(segments(data)),
{
    let segs = segments(data);
    let pre = segs.take(i);
    assert forall|j: int| 0 <= j < pre.len() implies all_digits(#[trigger] pre[j]) by {
        assert(pre[j] == segs[j]);
    }
    lemma_sequential_total(pre);
    let t = sequential_spec(pre)->Ok_0;
    assert(segs.take(i + 1).drop_last() =~= pre);
    assert(segment_sum_spec(segs[i]) == Err::<u32, crate::digits::DigitError>(
        crate::digits::DigitError::InvalidDigit,
    ));
    assert(sequential_spec(segs.take(i + 1)) == step(t, segment_sum_spec(segs[i]), i));
    lemma_sequential_stops(segs, i + 1);
    lemma_units_agree(segs);
}

/// Running either aggregator twice on one dataset yields one final result.
pub proof fn lemma_repeatable(first: Seq<char>, second: Seq<char>)
    requires
        first == second,
    ensures
        sequential_spec(segments(first)) == sequential_spec(segments(second)),
        reduce_spec(units(segments(first))) == reduce_spec(units(segments(second))),
{
}

proof fn lemma_run_collapses(a: Seq<char>, b: Seq<char>, c: char, d: char)
    requires
        is_whitespace(c),
        is_whitespace(d),
    ensures
        segments(a + seq![c] + b) == segments(a + seq![c, d] + b),
    decreases b.len(),
{
    let p = a + seq![c];
    let q = a + seq![c, d];
    if b.len() == 0 {
        assert(p + b =~= p);
        assert(q + b =~= q);
        assert(p.drop_last() =~= a);
        assert(q.drop_last() =~= p);
    } else {
        let rest = b.drop_last();
        lemma_run_collapses(a, rest, c, d);
        assert((p + b).drop_last() =~= p + rest);
        assert((q + b).drop_last() =~= q + rest);
        assert((p + b).last() == b.last());
        assert((q + b).last() == b.last());
        let np = (p + b).len() as int;
        let nq = (q + b).len() as int;
        if rest.len() > 0 {
            assert((p + b)[np - 2] == rest.last());
            assert((q + b)[nq - 2] == rest.last());
        } else {
            assert((p + b)[np - 2] == c);
            assert((q + b)[nq - 2] == d);
        }
    }
}

/// A run of whitespace separates segments as a single whitespace character
/// does: doubling a whitespace character changes neither the segments nor the
/// final result.
pub proof fn lemma_whitespace_run_collapses(a: Seq<char>, b: Seq<char>, c: char, d: char)
    requires
        is_whitespace(c),
        is_whitespace(d),
    ensures
        segments(a + seq![c] + b) == segments(a + seq![c, d] + b),
        sequential_spec(segments(a + seq![c] + b)) == sequential_spec(
            segments(a + seq![c, d] + b),
        ),
        reduce_spec(units(segments(a + seq![c] + b))) == reduce_spec(
            units(segments(a + seq![c, d] + b)),
        ),
{
    lemma_run_collapses(a, b, c, d);
}

} // verus!
