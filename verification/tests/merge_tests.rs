use misccli::merge::{merge, merge_all, MergeError, Pulled, Side};

fn oks<T>(values: Vec<T>) -> Vec<Result<T, ()>> {
    values.into_iter().map(Ok).collect()
}

fn items<T, E>(out: &[Pulled<T, E>]) -> Vec<&T> {
    out.iter()
        .filter_map(|p| match p {
            Pulled::Item(v) => Some(v),
            _ => None,
        })
        .collect()
}

#[test]
fn merge_pure() {
    let left = oks(vec![0u32, 7, 11, 19, 30]);
    let right = oks(vec![1u32, 6, 7, 7, 8, 40]);

    let merged = merge_all(left, right);
    let expected = vec![0u32, 1, 6, 7, 8, 11, 19, 30, 40];

    assert_eq!(merged.len(), expected.len());
    for (got, want) in merged.iter().zip(expected.iter()) {
        assert_eq!(got, &Pulled::Item(*want));
    }
}

#[test]
fn merge_pure_bad_right() {
    let left = oks(vec![0u32, 11, 19, 30]);
    let right = oks(vec![1u32, 6, 17, 8, 40]);

    let merged = merge_all(left, right);
    let expected = vec![
        Pulled::Item(0u32),
        Pulled::Item(1),
        Pulled::OrderViolation(MergeError::unsorted_pair(Side::Right, 2, 17, 8)),
    ];

    assert_eq!(merged, expected);
}

#[test]
fn merge_empty_with_source_keeps_distinct_values() {
    let left: Vec<Result<u32, ()>> = Vec::new();
    let right = oks(vec![2u32, 2, 5, 9, 9, 9, 12]);

    let merged = merge_all(left, right);
    let expected = vec![2u32, 5, 9, 12];

    assert_eq!(merged.len(), expected.len());
    for (got, want) in merged.iter().zip(expected.iter()) {
        assert_eq!(got, &Pulled::Item(*want));
    }
}

#[test]
fn merge_two_empty_sources_is_end_immediately() {
    let left: Vec<Result<u32, ()>> = Vec::new();
    let right: Vec<Result<u32, ()>> = Vec::new();

    let mut m = merge(left, right);
    assert_eq!(m.next(), Pulled::End);
    assert_eq!(m.next(), Pulled::End);
    assert_eq!(m.next(), Pulled::End);
}

#[test]
fn merge_end_is_permanent_after_items() {
    let left = oks(vec![1u32, 4]);
    let right = oks(vec![2u32]);

    let mut m = merge(left, right);
    assert_eq!(m.next(), Pulled::Item(1));
    assert_eq!(m.next(), Pulled::Item(2));
    assert_eq!(m.next(), Pulled::Item(4));
    assert_eq!(m.next(), Pulled::End);
    assert_eq!(m.next(), Pulled::End);
}

#[test]
fn merge_violation_is_terminal() {
    let left = oks(vec![5u32, 3, 8]);
    let right = oks(vec![1u32, 2, 3, 4]);

    let mut m = merge(left, right);
    assert_eq!(
        m.next(),
        Pulled::OrderViolation(MergeError::unsorted_pair(Side::Left, 0, 5, 3))
    );
    assert_eq!(m.next(), Pulled::End);
    assert_eq!(m.next(), Pulled::End);
}

#[test]
fn merge_source_failure_propagates_after_validated_values() {
    let left: Vec<Result<u32, &str>> = vec![Ok(0), Ok(11), Err("read failed")];
    let right: Vec<Result<u32, &str>> = vec![Ok(5), Ok(100)];

    let mut m = merge(left, right);
    assert_eq!(m.next(), Pulled::Item(0));
    assert_eq!(m.next(), Pulled::Item(11));
    assert_eq!(m.next(), Pulled::SourceError("read failed"));
    assert_eq!(m.next(), Pulled::End);
    assert_eq!(m.next(), Pulled::End);
}

#[test]
fn merge_right_failure_mirrors_left() {
    let left: Vec<Result<u32, &str>> = vec![Ok(5), Ok(100)];
    let right: Vec<Result<u32, &str>> = vec![Ok(0), Ok(11), Err("read failed")];

    let mut m = merge(left, right);
    assert_eq!(m.next(), Pulled::Item(0));
    assert_eq!(m.next(), Pulled::Item(11));
    assert_eq!(m.next(), Pulled::SourceError("read failed"));
    assert_eq!(m.next(), Pulled::End);
}

#[test]
fn merge_failure_on_first_read_is_immediate() {
    let left: Vec<Result<u32, &str>> = vec![Err("no data")];
    let right: Vec<Result<u32, &str>> = vec![Ok(1), Ok(2)];

    let mut m = merge(left, right);
    assert_eq!(m.next(), Pulled::SourceError("no data"));
    assert_eq!(m.next(), Pulled::End);
}

#[test]
fn merge_duplicates_within_one_source_collapse() {
    let left = oks(vec![3u32, 3, 3]);
    let right: Vec<Result<u32, ()>> = Vec::new();

    let merged = merge_all(left, right);
    assert_eq!(merged, vec![Pulled::Item(3u32)]);
}

#[test]
fn merge_handles_extreme_values() {
    let left = oks(vec![0u32, u32::MAX]);
    let right = oks(vec![u32::MAX]);

    let merged = merge_all(left, right);
    assert_eq!(items(&merged), vec![&0u32, &u32::MAX]);
    assert_eq!(merged.len(), 2);
}

#[test]
fn merge_violation_later_in_stream() {
    let left = oks(vec![0u32, 11, 19, 30]);
    let right = oks(vec![1u32, 6, 17, 8, 40]);

    let mut m = merge(left, right);
    let mut got = Vec::new();
    loop {
        match m.next() {
            Pulled::End => break,
            p => got.push(p),
        }
    }
    assert_eq!(got.len(), 3);
    assert!(matches!(got[2], Pulled::OrderViolation(_)));
    match &got[2] {
        Pulled::OrderViolation(MergeError::UnsortedPair { side, index, first, second }) => {
            assert_eq!(side, &Side::Right);
            assert_eq!(*index, 2);
            assert_eq!(*first, 17);
            assert_eq!(*second, 8);
        }
        _ => panic!("expected an order violation"),
    }
}

#[test]
fn merge_strings_of_digits_as_numbers() {
    let left: Vec<Result<u64, ()>> = vec![Ok(10), Ok(20), Ok(30)];
    let right: Vec<Result<u64, ()>> = vec![Ok(15), Ok(20), Ok(25), Ok(35)];

    let merged = merge_all(left, right);
    let expected = vec![10u64, 15, 20, 25, 30, 35];
    assert_eq!(merged.len(), expected.len());
    for (got, want) in merged.iter().zip(expected.iter()) {
        assert_eq!(got, &Pulled::Item(*want));
    }
}
