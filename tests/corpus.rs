use corpuslib::corpus::Corpus;
use corpuslib::sequence;
use std::cmp;

fn random_corpus(ntypes: usize, ntokens: usize) -> Corpus {
    // Generate a corpus of strings.
    let mut tokens: Vec<String> = Vec::with_capacity(ntokens);
    for _ in 0..ntokens {
        let token = rand::random::<usize>() % ntypes;
        tokens.push(format!("{}", token));
    }
    // Create the corpus.
    let c = Corpus::new(tokens);
    c
}

fn words(ws: &[&str]) -> Vec<String> {
    ws.iter().map(|w| w.to_string()).collect()
}

#[test]
fn check_corpus_creation() {
    // Generate random corpus.
    let (ntypes, ntokens) = (100, 10000);
    let c = random_corpus(ntypes, ntokens);
    // Check sequence and suffix array are the same length.
    if c.sequence.len() != ntokens || c.suffix.len() != ntokens {
        assert!(false);
    }
}

#[test]
fn corpus_check_corpus_creation() {
    // Generate random corpus.
    let (ntypes, ntokens) = (100, 10000);
    let c = random_corpus(ntypes, ntokens);
    // Check sequence and suffix array are the same length.
    if c.sequence.len() != ntokens || c.suffix.len() != ntokens {
        assert!(false);
    }
}

#[test]
fn check_suffix_ordering() {
    // Generate random corpus.
    let (ntypes, ntokens) = (100, 10000);
    let c = random_corpus(ntypes, ntokens);
    // Check the ordering of corpus suffixes.
    for i in 0..(c.suffix.len() - 1) {
        let seq1 = &c.sequence[c.suffix[i]..];
        let seq2 = &c.sequence[c.suffix[i + 1]..];
        assert!(sequence::sequence_compare(seq1, seq2) == cmp::Ordering::Less);
    }
}

#[test]
fn corpus_check_suffix_ordering() {
    // Generate random corpus.
    let (ntypes, ntokens) = (100, 10000);
    let c = random_corpus(ntypes, ntokens);
    // Check the ordering of corpus suffixes.
    for i in 0..(c.suffix.len() - 1) {
        let seq1 = &c.sequence[c.suffix[i]..];
        let seq2 = &c.sequence[c.suffix[i + 1]..];
        let ord = sequence::sequence_compare(seq1, seq2);
        assert!(ord == cmp::Ordering::Less);
    }
}

#[test]
fn check_search() {
    // Generate random corpus.
    let (ntypes, ntokens) = (10, 1000);
    let c = random_corpus(ntypes, ntokens);
    // Compare search results for sub-sequences to make sure they agree.
    for n in 1..4 {
        for seq_pos in 0..(c.sequence.len() - n) {
            let seq = &c.sequence[seq_pos..(seq_pos + n)];
            let r1 = c.search_linear(seq);
            let r2 = c.search_binary(seq);
            assert!(r1 == r2);
        }
    }
}

#[test]
fn corpus_check_search() {
    // Generate random corpus.
    let (ntypes, ntokens) = (10, 10000);
    let c = random_corpus(ntypes, ntokens);
    // Compare search results for sub-sequences to make sure they agree.
    for n in 1..3 {
        for seq_pos in 0..(c.sequence.len() - n) {
            let seq = &c.sequence[seq_pos..(seq_pos + n)];
            let r1 = c.search_linear(seq);
            let r2 = c.search_binary(seq);
            assert!(r1 == r2);
        }
    }
}

#[test]
fn adjacent_suffixes_never_greater_unbounded() {
    let c = random_corpus(5, 500);
    for i in 0..(c.suffix.len() - 1) {
        let seq1 = &c.sequence[c.suffix[i]..];
        let seq2 = &c.sequence[c.suffix[i + 1]..];
        assert_ne!(sequence::sequence_ordering(seq1, seq2), cmp::Ordering::Greater);
    }
}

#[test]
fn suffix_array_of_small_sequence() {
    // codes: a=0 b=1; sequence [0,1,0,1,0]
    let c = Corpus::new(words(&["a", "b", "a", "b", "a"]));
    assert_eq!(c.sequence, vec![0, 1, 0, 1, 0]);
    // suffixes: 4:[0] 2:[0,1,0] 0:[0,1,0,1,0] 3:[1,0] 1:[1,0,1,0]
    assert_eq!(c.suffix, vec![4, 2, 0, 3, 1]);
}

#[test]
fn both_searches_find_two_occurrences() {
    let c = Corpus::new(words(&["1", "2", "1", "2", "1"]));
    // "1" -> 0, "2" -> 1, so the coded sequence is [0,1,0,1,0].
    let q = [0usize, 1];
    let r1 = c.search_linear(&q);
    let r2 = c.search_binary(&q);
    assert_eq!(r1, Ok((1, 2)));
    assert_eq!(r1, r2);
    let (lo, hi) = r1.unwrap();
    let mut offsets: Vec<usize> = (lo..=hi).map(|p| c.suffix[p]).collect();
    offsets.sort();
    assert_eq!(offsets, vec![0, 2]);
}

#[test]
fn empty_query_returns_full_range() {
    let c = Corpus::new(words(&["x", "y", "x", "z"]));
    let q: [usize; 0] = [];
    assert_eq!(c.search_linear(&q), Ok((0, 3)));
    assert_eq!(c.search_binary(&q), Ok((0, 3)));
}

#[test]
fn unknown_code_is_not_found() {
    let c = Corpus::new(words(&["x", "y", "x", "z"]));
    let q = [7usize];
    assert_eq!(c.search_linear(&q), Err(false));
    assert_eq!(c.search_binary(&q), Err(false));
}

#[test]
fn unknown_token_is_not_found() {
    let c = Corpus::new(words(&["x", "y", "x", "z"]));
    assert_eq!(c.search_tokens(&words(&["x", "never"])), Err(false));
    assert_eq!(c.search_tokens(&words(&["x"])), Ok((0, 1)));
    assert_eq!(c.search_tokens(&words(&["z"])), Ok((3, 3)));
}

#[test]
fn empty_corpus_finds_nothing() {
    let c = Corpus::new(Vec::new());
    assert!(c.sequence.is_empty());
    assert!(c.suffix.is_empty());
    assert_eq!(c.search_linear(&[0usize]), Err(false));
    assert_eq!(c.search_binary(&[0usize]), Err(false));
    let q: [usize; 0] = [];
    assert_eq!(c.search_binary(&q), Err(false));
}

#[test]
fn query_longer_than_suffix_does_not_match() {
    // coded [0,1]; the query [1,0] would need a suffix longer than "b".
    let c = Corpus::new(words(&["a", "b"]));
    assert_eq!(c.search_linear(&[1usize, 0]), Err(false));
    assert_eq!(c.search_binary(&[1usize, 0]), Err(false));
    assert_eq!(c.search_binary(&[1usize]), Ok((1, 1)));
}

#[test]
fn distinct_ngrams_in_order() {
    // coded [0,1,0,1,0]
    let c = Corpus::new(words(&["a", "b", "a", "b", "a"]));
    let two: Vec<Vec<usize>> = c.ngrams(2).iter().map(|g| g.to_vec()).collect();
    assert_eq!(two, vec![vec![0, 1], vec![1, 0]]);
    let one: Vec<Vec<usize>> = c.ngrams(1).iter().map(|g| g.to_vec()).collect();
    assert_eq!(one, vec![vec![0], vec![1]]);
    let three: Vec<Vec<usize>> = c.ngrams(3).iter().map(|g| g.to_vec()).collect();
    assert_eq!(three, vec![vec![0, 1, 0], vec![1, 0, 1]]);
    assert_eq!(c.ngrams(0).len(), 1);
    assert!(c.ngrams(6).is_empty());
}
