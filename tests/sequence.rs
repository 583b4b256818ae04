use corpuslib::sequence::{sequence_compare, sequence_compare_n, sequence_ordering, sequence_ordering_n};
use std::cmp;

fn random_sequence(ntypes: usize, ntokens: usize) -> Vec<usize> {
    let mut sequence: Vec<usize> = Vec::with_capacity(ntokens);
    for _ in 0..ntokens {
        let v = rand::random::<usize>() % ntypes;
        sequence.push(v);
    }
    sequence
}

#[test]
fn sequences_equal_themself() {
    for _ in 0..100 {
        let seq = random_sequence(10, 100);
        assert!(sequence_compare(&seq[..], &seq[..]) == cmp::Ordering::Equal);
        assert!(sequence_compare_n(&seq[..], &seq[..], &seq.len()) == cmp::Ordering::Equal);
    }
}

#[test]
fn sequences_reverse_comparison_ordering() {
    for _ in 0..100 {
        let seq1 = random_sequence(10, 100);
        let seq2 = random_sequence(10, 100);
        let cmp1 = sequence_compare(&seq1[..], &seq2[..]);
        let cmp2 = sequence_compare(&seq2[..], &seq1[..]);
        assert!((cmp1 == cmp::Ordering::Equal && cmp2 == cmp::Ordering::Equal) ||
                (cmp1 == cmp::Ordering::Less && cmp2 == cmp::Ordering::Greater) ||
                (cmp1 == cmp::Ordering::Greater && cmp2 == cmp::Ordering::Less));
    }
}

#[test]
fn bounded_compare_cases() {
    // First differing position decides.
    assert_eq!(sequence_compare_n(&[1, 2, 3], &[1, 3, 0], &3), cmp::Ordering::Less);
    assert_eq!(sequence_compare_n(&[1, 4], &[1, 3, 0], &3), cmp::Ordering::Greater);
    // Agreement over the whole bound is Equal.
    assert_eq!(sequence_compare_n(&[1, 2, 3], &[1, 2, 9], &2), cmp::Ordering::Equal);
    assert_eq!(sequence_compare_n(&[5], &[7], &0), cmp::Ordering::Equal);
    // A proper prefix within the bound is Less; its extension Greater.
    assert_eq!(sequence_compare_n(&[1, 2], &[1, 2, 3], &3), cmp::Ordering::Less);
    assert_eq!(sequence_compare_n(&[1, 2, 3], &[1, 2], &3), cmp::Ordering::Greater);
    assert_eq!(sequence_ordering_n(&[1, 2], &[1, 2, 3], 3), cmp::Ordering::Less);
}

#[test]
fn unbounded_forms() {
    assert_eq!(sequence_compare(&[1, 2], &[1, 2, 0]), cmp::Ordering::Less);
    assert_eq!(sequence_compare(&[2], &[1, 9, 9]), cmp::Ordering::Greater);
    assert_eq!(sequence_compare(&[], &[]), cmp::Ordering::Equal);
    assert_eq!(sequence_ordering(&[1, 2], &[1, 2, 0]), cmp::Ordering::Less);
    assert_eq!(sequence_ordering(&[1, 3], &[1, 2, 0]), cmp::Ordering::Greater);
    // Past the longer length, equal sequences fall to the length rule.
    assert_eq!(sequence_ordering(&[4, 4], &[4, 4]), cmp::Ordering::Greater);
}
