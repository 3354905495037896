//! The digit-sum primitive: the sum of the decimal digit values of one segment.
use vstd::prelude::*;

verus! {

/// Why the digit sum of one segment could not be computed.
#[derive(Clone, Copy, Debug, PartialEq, Eq, Structural)]
pub enum DigitError {
    /// A character of the segment is not one of `0` to `9`.
    InvalidDigit,
    /// The sum of the segment's digits does not fit in a `u32`.
    Overflow,
}

pub open spec fn is_digit(c: char) -> bool {
    '0' <= c && c <= '9'
}

/// The numeric value of a decimal digit character.
pub open spec fn digit_value(c: char) -> nat {
    (c as u32 - '0' as u32) as nat
}

/// Every character of `seg` is a decimal digit.
pub open spec fn all_digits(seg: Seq<char>) -> bool {
    forall|i: int| 0 <= i < seg.len() ==> is_digit(#[trigger] seg[i])
}

/// The arithmetic sum of the digit values of `seg`.
pub open spec fn digit_total(seg: Seq<char>) -> nat
    decreases seg.len(),
{
    if seg.len() == 0 {
        0
    } else {
        digit_total(seg.drop_last()) + digit_value(seg.last())
    }
}

/// What the primitive yields for a segment: an invalid character wins over
/// an oversized sum.
pub open spec fn segment_sum_spec(seg: Seq<char>) -> Result<u32, DigitError> {
    if !all_digits(seg) {
        Err(DigitError::InvalidDigit)
    } else if digit_total(seg) > u32::MAX {
        Err(DigitError::Overflow)
    } else {
        Ok(digit_total(seg) as u32)
    }
}

/// The value of `c` as a decimal digit, if it is one.
pub fn to_digit(c: char) -> (r: Option<u32>)
    ensures
        r == (if is_digit(c) { Some(digit_value(c) as u32) } else { None::<u32> }),
{
    if '0' <= c && c <= '9' {
        Some(c as u32 - '0' as u32)
    } else {
        None
    }
}

/// The sum of the digit values of `seg`.
pub fn segment_sum(seg: &str) -> (r: Result<u32, DigitError>)
    ensures
        r == segment_sum_spec(seg@),
{
    let ghost s = seg@;
    let mut sum: u32 = 0;
    let mut overflowed = false;
    for c in it: seg.chars()
        invariant
            it.seq() == s,
            s == seg@,
            all_digits(s.take(it.index())),
            overflowed ==> digit_total(s.take(it.index())) > u32::MAX,
            !overflowed ==> sum == digit_total(s.take(it.index())),
    {
        let ghost i = it.index();
        proof {
            assert(s.take(i + 1).drop_last() == s.take(i));
            assert(s[i] == c);
        }
        match to_digit(c) {
            None => {
                proof {
                    assert(0 <= i < s.len());
                    assert(!is_digit(s[i]));
                    assert(!all_digits(s));
                }
                return Err(DigitError::InvalidDigit);
            },
            Some(d) => {
                if !overflowed {
                    match sum.checked_add(d) {
                        Some(t) => sum = t,
                        None => overflowed = true,
                    }
                }
            },
        }
        proof {
            assert(all_digits(s.take(i + 1))) by {
                assert forall|j: int| 0 <= j < i + 1 implies is_digit(#[trigger] s.take(i + 1)[j]) by {
                    if j < i {
                        assert(s.take(i + 1)[j] == s.take(i)[j]);
                    }
                }
            }
        }
    }
    proof {
        assert(s.take(s.len() as int) == s);
    }
    if overflowed {
        Err(DigitError::Overflow)
    } else {
        Ok(sum)
    }
}

} // verus!
