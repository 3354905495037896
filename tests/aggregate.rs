use map_reduce::aggregate::{map_reduce_sync, reduce_joined, JoinOutcome, MapReduceError};
use map_reduce::digits::{segment_sum, to_digit, DigitError};
use map_reduce::segment::{is_space, split_segments};

const DATA: &str = "86967897737416471853297327050364959
    11861322575564723963297542624962850
    70856234701860851907960690014725639
    58495327135744041048897885734297812
    69920216438980873548808413720956532
    16278424637452589860345374828574668";

/// The fork-join aggregator with every unit of work run in place.
fn fork_join(data: &str) -> Result<u32, MapReduceError> {
    let outcomes: Vec<JoinOutcome> = split_segments(data)
        .iter()
        .map(|s| JoinOutcome::Completed(segment_sum(s)))
        .collect();
    reduce_joined(&outcomes)
}

#[test]
fn strategies_agree_on_sample_data() {
    let seq = map_reduce_sync(DATA);
    assert_eq!(seq, Ok(1012));
    assert_eq!(fork_join(DATA), seq);
}

#[test]
fn strategies_agree_on_mixed_data() {
    for data in ["7", "0 0 0", "9\t8\n7\r\n6", "  1  ", "1 2x 3", "abc"] {
        assert_eq!(fork_join(data), map_reduce_sync(data));
    }
}

#[test]
fn empty_dataset_sums_to_zero() {
    assert_eq!(map_reduce_sync(""), Ok(0));
    assert_eq!(fork_join(""), Ok(0));
    assert_eq!(map_reduce_sync(" \n\t "), Ok(0));
    assert_eq!(reduce_joined(&vec![]), Ok(0));
}

#[test]
fn single_segment() {
    assert_eq!(map_reduce_sync("123"), Ok(6));
    assert_eq!(fork_join("123"), Ok(6));
}

#[test]
fn three_segments() {
    assert_eq!(map_reduce_sync("12 34 56"), Ok(21));
    assert_eq!(fork_join("12 34 56"), Ok(21));
}

#[test]
fn non_digit_fails_both() {
    let expected = Err(MapReduceError::InvalidDigit { segment: 1 });
    assert_eq!(map_reduce_sync("12 3x"), expected);
    assert_eq!(fork_join("12 3x"), expected);
}

#[test]
fn first_bad_segment_is_reported() {
    let expected = Err(MapReduceError::InvalidDigit { segment: 0 });
    assert_eq!(map_reduce_sync("-1 2 y"), expected);
    assert_eq!(fork_join("-1 2 y"), expected);
}

#[test]
fn repeated_runs_agree() {
    assert_eq!(map_reduce_sync(DATA), map_reduce_sync(DATA));
    assert_eq!(fork_join(DATA), fork_join(DATA));
    assert_eq!(map_reduce_sync("12 3x"), map_reduce_sync("12 3x"));
}

#[test]
fn whitespace_runs_collapse() {
    assert_eq!(split_segments("12   34\n\n\t56 "), vec!["12", "34", "56"]);
    assert_eq!(map_reduce_sync("12   34\n\n\t56 "), Ok(21));
    assert_eq!(fork_join("  12 \u{3000}34\u{a0}56"), Ok(21));
}

#[test]
fn segments_in_order() {
    assert_eq!(split_segments(""), Vec::<String>::new());
    assert_eq!(split_segments("a"), vec!["a"]);
    assert_eq!(split_segments(" ab c\u{2028}d "), vec!["ab", "c", "d"]);
}

#[test]
fn space_classification() {
    for c in [' ', '\t', '\n', '\r', '\u{b}', '\u{c}', '\u{85}', '\u{a0}', '\u{1680}', '\u{2000}', '\u{200a}', '\u{2028}', '\u{2029}', '\u{202f}', '\u{205f}', '\u{3000}'] {
        assert!(is_space(c));
        assert_eq!(is_space(c), c.is_whitespace());
    }
    for c in ['0', 'a', '_', '\u{200b}', '\u{1f}'] {
        assert!(!is_space(c));
        assert_eq!(is_space(c), c.is_whitespace());
    }
}

#[test]
fn digit_values() {
    assert_eq!(to_digit('0'), Some(0));
    assert_eq!(to_digit('7'), Some(7));
    assert_eq!(to_digit('9'), Some(9));
    assert_eq!(to_digit('a'), None);
    assert_eq!(to_digit('/'), None);
    assert_eq!(to_digit(':'), None);
}

#[test]
fn segment_sums() {
    assert_eq!(segment_sum(""), Ok(0));
    assert_eq!(segment_sum("86967897737416471853297327050364959"), Ok(187));
    assert_eq!(segment_sum("1x"), Err(DigitError::InvalidDigit));
    assert_eq!(segment_sum("1 2"), Err(DigitError::InvalidDigit));
}

#[test]
fn running_total_overflow() {
    let outcomes = vec![
        JoinOutcome::Completed(Ok(u32::MAX - 1)),
        JoinOutcome::Completed(Ok(1)),
        JoinOutcome::Completed(Ok(1)),
    ];
    assert_eq!(reduce_joined(&outcomes), Err(MapReduceError::Overflow { segment: 2 }));
    let fits = vec![JoinOutcome::Completed(Ok(u32::MAX - 1)), JoinOutcome::Completed(Ok(1))];
    assert_eq!(reduce_joined(&fits), Ok(u32::MAX));
}

#[test]
fn unit_errors_propagate() {
    let overflow = vec![JoinOutcome::Completed(Ok(3)), JoinOutcome::Completed(Err(DigitError::Overflow))];
    assert_eq!(reduce_joined(&overflow), Err(MapReduceError::Overflow { segment: 1 }));
    let invalid = vec![
        JoinOutcome::Completed(Ok(3)),
        JoinOutcome::Completed(Err(DigitError::InvalidDigit)),
        JoinOutcome::Panicked,
    ];
    assert_eq!(reduce_joined(&invalid), Err(MapReduceError::InvalidDigit { segment: 1 }));
}

#[test]
fn worker_failure_is_not_zero() {
    let outcomes = vec![JoinOutcome::Completed(Ok(5)), JoinOutcome::Panicked, JoinOutcome::Completed(Ok(2))];
    assert_eq!(reduce_joined(&outcomes), Err(MapReduceError::WorkerFailure { segment: 1 }));
}
