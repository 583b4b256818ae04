use std::cmp::Ordering;
use vstd::prelude::*;

verus! {

/// The first index in `i..n` at which `a` and `b` differ, or `n` when they
/// agree on the whole range.
pub open spec fn first_mismatch(a: Seq<usize>, b: Seq<usize>, i: nat, n: nat) -> nat
    decreases n - i,
{
    if i >= n {
        n
    } else if a[i as int] != b[i as int] {
        i
    } else {
        first_mismatch(a, b, i + 1, n)
    }
}

pub open spec fn min_nat(x: nat, y: nat) -> nat {
    if x <= y { x } else { y }
}

pub open spec fn max_nat(x: nat, y: nat) -> nat {
    if x >= y { x } else { y }
}

/// Bounded comparison: compare the first `min(|a|, |b|, limit)` codes; when
/// they agree, the comparison is `Equal` if it covered `limit` codes and
/// otherwise the shorter sequence is the smaller one.
pub open spec fn compare_n(a: Seq<usize>, b: Seq<usize>, limit: nat) -> Ordering {
    let n = min_nat(min_nat(a.len(), b.len()), limit);
    let d = first_mismatch(a, b, 0, n);
    if d < n {
        if a[d as int] < b[d as int] {
            Ordering::Less
        } else {
            Ordering::Greater
        }
    } else if n == limit {
        Ordering::Equal
    } else if a.len() < b.len() {
        Ordering::Less
    } else {
        Ordering::Greater
    }
}

/// Ordinary lexicographic order, where a proper prefix sorts first.
pub open spec fn lex_cmp(a: Seq<usize>, b: Seq<usize>) -> Ordering {
    compare_n(a, b, max_nat(a.len(), b.len()))
}

/// `a` sorts before `b`, witnessed at position `d`: the two agree below `d`,
/// and at `d` either `a` holds the smaller code or `a` has ended while `b` goes on.
pub open spec fn less_at(a: Seq<usize>, b: Seq<usize>, d: nat) -> bool {
    &&& d <= a.len()
    &&& d <= b.len()
    &&& forall|k: int| 0 <= k < d ==> a[k] == b[k]
    &&& ((d < a.len() && d < b.len() && a[d as int] < b[d as int]) || (d == a.len() && d
        < b.len()))
}

/// `a` cut to at most `k` codes.
pub open spec fn truncate(a: Seq<usize>, k: nat) -> Seq<usize> {
    a.subrange(0, min_nat(a.len(), k) as int)
}

/// The rank of an ordering, so that orderings can be compared as integers.
pub open spec fn rank(o: Ordering) -> int {
    match o {
        Ordering::Less => -1,
        Ordering::Equal => 0,
        Ordering::Greater => 1,
    }
}

pub proof fn lemma_first_mismatch(a: Seq<usize>, b: Seq<usize>, i: nat, n: nat)
    requires
        i <= n,
    ensures
        i <= first_mismatch(a, b, i, n) <= n,
        forall|k: int| i <= k < first_mismatch(a, b, i, n) ==> a[k] == b[k],
        first_mismatch(a, b, i, n) < n ==> a[first_mismatch(a, b, i, n) as int]
            != b[first_mismatch(a, b, i, n) as int],
    decreases n - i,
{
    if i < n && a[i as int] == b[i as int] {
        lemma_first_mismatch(a, b, i + 1, n);
    }
}

/// Any index below which the two sequences agree and at which they differ
/// (or which is the bound) is the first mismatch.
pub proof fn lemma_first_mismatch_unique(a: Seq<usize>, b: Seq<usize>, i: nat, n: nat, d: nat)
    requires
        i <= d <= n,
        forall|k: int| i <= k < d ==> a[k] == b[k],
        d < n ==> a[d as int] != b[d as int],
    ensures
        first_mismatch(a, b, i, n) == d,
    decreases n - i,
{
    if i < d {
        lemma_first_mismatch_unique(a, b, i + 1, n, d);
    }
}

pub proof fn lemma_first_mismatch_symmetric(a: Seq<usize>, b: Seq<usize>, i: nat, n: nat)
    ensures
        first_mismatch(a, b, i, n) == first_mismatch(b, a, i, n),
    decreases n - i,
{
    if i < n && a[i as int] == b[i as int] {
        lemma_first_mismatch_symmetric(a, b, i + 1, n);
    }
}

pub proof fn lemma_less_witness(a: Seq<usize>, b: Seq<usize>)
    requires
        lex_cmp(a, b) == Ordering::Less,
    ensures
        less_at(a, b, first_mismatch(a, b, 0, min_nat(a.len(), b.len()))),
{
    lemma_first_mismatch(a, b, 0, min_nat(a.len(), b.len()));
}

pub proof fn lemma_less_from_witness(a: Seq<usize>, b: Seq<usize>, d: nat)
    requires
        less_at(a, b, d),
    ensures
        lex_cmp(a, b) == Ordering::Less,
{
    let n = min_nat(a.len(), b.len());
    lemma_first_mismatch_unique(a, b, 0, n, d);
}

/// `lex_cmp` is antisymmetric, and `Equal` exactly on equal sequences.
pub proof fn lemma_lex_antisymmetric(a: Seq<usize>, b: Seq<usize>)
    ensures
        lex_cmp(a, b) == Ordering::Less <==> lex_cmp(b, a) == Ordering::Greater,
        lex_cmp(a, b) == Ordering::Equal <==> a == b,
{
    let n = min_nat(a.len(), b.len());
    lemma_first_mismatch(a, b, 0, n);
    lemma_first_mismatch_symmetric(a, b, 0, n);
    if lex_cmp(a, b) == Ordering::Equal {
        assert(a =~= b);
    }
    if a == b {
        lemma_first_mismatch_unique(a, b, 0, n, n);
    }
}

pub proof fn lemma_lex_transitive(a: Seq<usize>, b: Seq<usize>, c: Seq<usize>)
    requires
        lex_cmp(a, b) == Ordering::Less,
        lex_cmp(b, c) == Ordering::Less,
    ensures
        lex_cmp(a, c) == Ordering::Less,
{
    lemma_less_witness(a, b);
    lemma_less_witness(b, c);
    let d1 = first_mismatch(a, b, 0, min_nat(a.len(), b.len()));
    let d2 = first_mismatch(b, c, 0, min_nat(b.len(), c.len()));
    if d1 <= d2 {
        assert(less_at(a, c, d1));
        lemma_less_from_witness(a, c, d1);
    } else {
        assert(less_at(a, c, d2));
        lemma_less_from_witness(a, c, d2);
    }
}

/// `lex_cmp(a, b) != Greater` and `lex_cmp(b, c) != Greater` give `lex_cmp(a, c) != Greater`.
pub proof fn lemma_lex_le_transitive(a: Seq<usize>, b: Seq<usize>, c: Seq<usize>)
    requires
        lex_cmp(a, b) != Ordering::Greater,
        lex_cmp(b, c) != Ordering::Greater,
    ensures
        lex_cmp(a, c) != Ordering::Greater,
        lex_cmp(a, b) == Ordering::Less || lex_cmp(b, c) == Ordering::Less ==> lex_cmp(a, c)
            == Ordering::Less,
{
    lemma_lex_antisymmetric(a, b);
    lemma_lex_antisymmetric(b, c);
    lemma_lex_antisymmetric(a, c);
    if lex_cmp(a, b) == Ordering::Less && lex_cmp(b, c) == Ordering::Less {
        lemma_lex_transitive(a, b, c);
    }
}

/// Cutting both sides to the same length keeps their order (or makes them equal).
pub proof fn lemma_truncate_monotone(a: Seq<usize>, b: Seq<usize>, k: nat)
    requires
        lex_cmp(a, b) != Ordering::Greater,
    ensures
        lex_cmp(truncate(a, k), truncate(b, k)) != Ordering::Greater,
{
    let ta = truncate(a, k);
    let tb = truncate(b, k);
    lemma_lex_antisymmetric(a, b);
    lemma_lex_antisymmetric(ta, tb);
    if lex_cmp(a, b) == Ordering::Less {
        lemma_less_witness(a, b);
        let d = first_mismatch(a, b, 0, min_nat(a.len(), b.len()));
        if d < k {
            assert(less_at(ta, tb, d));
            lemma_less_from_witness(ta, tb, d);
        } else {
            assert(ta =~= tb);
        }
    }
}

/// Comparing against a query over the query's length is the ordinary order
/// of the compared sequence, cut to that length, against the query.
pub proof fn lemma_compare_query(s: Seq<usize>, q: Seq<usize>)
    ensures
        compare_n(s, q, q.len()) == lex_cmp(truncate(s, q.len()), q),
{
    let t = truncate(s, q.len());
    let n = min_nat(s.len(), q.len());
    lemma_first_mismatch(s, q, 0, n);
    lemma_first_mismatch(t, q, 0, n);
    assert forall|k: int| 0 <= k < n implies t[k] == s[k] by {}
    lemma_first_mismatch_unique(t, q, 0, n, first_mismatch(s, q, 0, n));
}

/// Along the ordinary order, the comparison against a bounded query never
/// goes down: all sequences that start with the query sit together.
pub proof fn lemma_compare_query_monotone(x: Seq<usize>, y: Seq<usize>, q: Seq<usize>)
    requires
        lex_cmp(x, y) != Ordering::Greater,
    ensures
        rank(compare_n(x, q, q.len())) <= rank(compare_n(y, q, q.len())),
{
    let tx = truncate(x, q.len());
    let ty = truncate(y, q.len());
    lemma_compare_query(x, q);
    lemma_compare_query(y, q);
    lemma_truncate_monotone(x, y, q.len());
    lemma_lex_antisymmetric(tx, q);
    lemma_lex_antisymmetric(ty, q);
    lemma_lex_antisymmetric(q, ty);
    if lex_cmp(ty, q) == Ordering::Less {
        lemma_lex_le_transitive(tx, ty, q);
    }
    if lex_cmp(tx, q) == Ordering::Greater {
        lemma_lex_antisymmetric(q, tx);
        lemma_lex_le_transitive(q, tx, ty);
    }
}

/// A sequence starts with `q` exactly when the bounded comparison says `Equal`.
pub proof fn lemma_compare_query_equal(s: Seq<usize>, q: Seq<usize>)
    ensures
        compare_n(s, q, q.len()) == Ordering::Equal <==> (q.len() <= s.len() && s.subrange(
            0,
            q.len() as int,
        ) == q),
{
    lemma_compare_query(s, q);
    lemma_lex_antisymmetric(truncate(s, q.len()), q);
}

/// Compares two sequences in the ordinary lexicographic order.
pub fn sequence_compare(seq1: &[usize], seq2: &[usize]) -> (r: Ordering)
    ensures
        r == lex_cmp(seq1@, seq2@),
{
    let m: usize = if seq1.len() >= seq2.len() {
        seq1.len()
    } else {
        seq2.len()
    };
    sequence_compare_n(seq1, seq2, &m)
}

/// Compares at most `comparison_length` leading codes of the two sequences.
pub fn sequence_compare_n(seq1: &[usize], seq2: &[usize], comparison_length: &usize) -> (r:
    Ordering)
    ensures
        r == compare_n(seq1@, seq2@, *comparison_length as nat),
{
    let n1: usize = seq1.len();
    let n2: usize = seq2.len();
    let mut n: usize = if n1 <= n2 {
        n1
    } else {
        n2
    };
    if *comparison_length < n {
        n = *comparison_length;
    }
    let ghost gn = n as nat;
    proof {
        lemma_first_mismatch(seq1@, seq2@, 0, gn);
    }
    let mut seq_pos: usize = 0;
    while seq_pos < n
        invariant
            seq_pos <= n,
            gn == n as nat,
            n as nat == min_nat(min_nat(seq1@.len(), seq2@.len()), *comparison_length as nat),
            n <= seq1@.len(),
            n <= seq2@.len(),
            forall|k: int| 0 <= k < seq_pos ==> seq1@[k] == seq2@[k],
        decreases n - seq_pos,
    {
        if seq1[seq_pos] != seq2[seq_pos] {
            proof {
                lemma_first_mismatch_unique(seq1@, seq2@, 0, gn, seq_pos as nat);
            }
            if seq1[seq_pos] < seq2[seq_pos] {
                return Ordering::Less;
            } else {
                return Ordering::Greater;
            }
        }
        seq_pos = seq_pos + 1;
    }
    proof {
        lemma_first_mismatch_unique(seq1@, seq2@, 0, gn, gn);
    }
    if n == *comparison_length {
        Ordering::Equal
    } else if n1 < n2 {
        Ordering::Less
    } else {
        Ordering::Greater
    }
}

/// The same bounded comparison as `sequence_compare_n`, with the bound by value.
pub fn sequence_ordering_n(seq1: &[usize], seq2: &[usize], n: usize) -> (r: Ordering)
    ensures
        r == compare_n(seq1@, seq2@, n as nat),
{
    sequence_compare_n(seq1, seq2, &n)
}

/// Compares with a bound one past the longer length, so that whenever the two
/// sequences differ the result is their lexicographic order.
pub fn sequence_ordering(seq1: &[usize], seq2: &[usize]) -> (r: Ordering)
    requires
        seq1@.len() < usize::MAX,
        seq2@.len() < usize::MAX,
    ensures
        r == compare_n(seq1@, seq2@, max_nat(seq1@.len(), seq2@.len()) + 1),
        seq1@ != seq2@ ==> r == lex_cmp(seq1@, seq2@),
{
    let n1: usize = seq1.len();
    let n2: usize = seq2.len();
    let m: usize = if n1 >= n2 {
        n1
    } else {
        n2
    };
    proof {
        lemma_ordering_unbounded(seq1@, seq2@);
    }
    sequence_ordering_n(seq1, seq2, m + 1)
}

/// For two different sequences, any bound past the longer length gives the
/// lexicographic order.
pub proof fn lemma_ordering_unbounded(a: Seq<usize>, b: Seq<usize>)
    ensures
        a != b ==> compare_n(a, b, max_nat(a.len(), b.len()) + 1) == lex_cmp(a, b),
{
    let n = min_nat(a.len(), b.len());
    lemma_first_mismatch(a, b, 0, n);
    lemma_lex_antisymmetric(a, b);
    if a != b && a.len() == b.len() && first_mismatch(a, b, 0, n) == n {
        assert(a =~= b);
    }
}

} // verus!
