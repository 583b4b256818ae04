use crate::sequence::{
    compare_n, lemma_compare_query_equal, lemma_compare_query_monotone, lemma_lex_antisymmetric,
    lemma_lex_transitive, lemma_ordering_unbounded, lemma_truncate_monotone, lex_cmp, max_nat,
    rank, sequence_compare, sequence_compare_n, truncate,
};
use crate::stringmap::{intern_all, Stringmap};
use std::cmp::Ordering;
use vstd::prelude::*;
use vstd::set_lib::{lemma_int_range, lemma_subset_equality, set_int_range};

verus! {

/// The suffix of `s` that starts at offset `p`.
pub open spec fn suffix_of(s: Seq<usize>, p: int) -> Seq<usize> {
    s.subrange(p, s.len() as int)
}

/// The suffix at offset `x` sorts strictly before the one at offset `y`.
pub open spec fn suffix_lt(s: Seq<usize>, x: usize, y: usize) -> bool {
    lex_cmp(suffix_of(s, x as int), suffix_of(s, y as int)) == Ordering::Less
}

/// Offsets in `sa` appear in strictly increasing order of their suffixes.
pub open spec fn suffixes_sorted(s: Seq<usize>, sa: Seq<usize>) -> bool {
    forall|i: int, j: int| 0 <= i < j < sa.len() ==> suffix_lt(s, #[trigger] sa[i], #[trigger] sa[j])
}

/// Every entry of `sa` lies in `lo..hi`.
pub open spec fn offsets_within(sa: Seq<usize>, lo: int, hi: int) -> bool {
    forall|k: int| 0 <= k < sa.len() ==> lo <= #[trigger] sa[k] < hi
}

/// `sa` is the suffix array of `s`: one entry per offset, in suffix order.
pub open spec fn is_suffix_array(s: Seq<usize>, sa: Seq<usize>) -> bool {
    &&& sa.len() == s.len()
    &&& offsets_within(sa, 0, s.len() as int)
    &&& suffixes_sorted(s, sa)
}

/// The offsets of `s` at which `q` occurs.
pub open spec fn occurrences(s: Seq<usize>, q: Seq<usize>) -> Set<int> {
    Set::new(
        |i: int|
            0 <= i < s.len() && i + q.len() <= s.len() && s.subrange(i, i + q.len() as int) == q,
    )
}

/// The code sequences that the slices `r` hold.
pub open spec fn gram_views(r: Seq<&[usize]>) -> Seq<Seq<usize>> {
    r.map_values(|g: &[usize]| g@)
}

/// `g` is the `n` codes of `s` from some offset.
pub open spec fn is_ngram(s: Seq<usize>, g: Seq<usize>, n: nat) -> bool {
    exists|o: int| 0 <= o < s.len() && o + n <= s.len() && g == #[trigger] s.subrange(o, o + n)
}

/// The corpus offsets held at array positions `lo..=hi` of `sa`.
pub open spec fn band_offsets(sa: Seq<usize>, lo: int, hi: int) -> Set<int> {
    Set::new(|i: int| exists|p: int| lo <= p <= hi && #[trigger] sa[p] as int == i)
}

/// The codes that the table `m` gives to the tokens `ts`.
pub open spec fn codes_of(m: Seq<Seq<char>>, ts: Seq<Seq<char>>) -> Seq<usize> {
    ts.map_values(|t: Seq<char>| m.index_of(t) as usize)
}

/// An indexed corpus: the token codes in input order, the suffix array over
/// them, and the interner that assigned the codes.
pub struct Corpus {
    pub sequence: Vec<usize>,
    pub suffix: Vec<usize>,
    pub stringmap: Stringmap,
}

impl Corpus {
    pub open spec fn wf(&self) -> bool {
        &&& self.stringmap.wf()
        &&& is_suffix_array(self.sequence@, self.suffix@)
        &&& forall|i: int|
            0 <= i < self.sequence@.len() ==> #[trigger] self.sequence@[i] < self.stringmap@.len()
    }

    /// The bounded comparison of the suffix at array position `p` against `q`.
    pub open spec fn probe(&self, q: Seq<usize>, p: int) -> Ordering {
        compare_n(suffix_of(self.sequence@, self.suffix@[p] as int), q, q.len())
    }

    /// The suffix at array position `p` starts with `q`.
    pub open spec fn is_match(&self, q: Seq<usize>, p: int) -> bool {
        self.probe(q, p) == Ordering::Equal
    }

    /// `r` is the outcome that a search for `q` owes: the inclusive band of
    /// array positions whose suffixes start with `q`, or `Err(false)` when
    /// there is none.
    pub open spec fn search_outcome(&self, q: Seq<usize>, r: Result<(usize, usize), bool>) -> bool {
        match r {
            Ok((lo, hi)) => {
                &&& lo <= hi < self.suffix@.len()
                &&& forall|p: int|
                    0 <= p < self.suffix@.len() ==> (#[trigger] self.is_match(q, p) <==> lo <= p
                        <= hi)
            },
            Err(e) => {
                &&& !e
                &&& forall|p: int| 0 <= p < self.suffix@.len() ==> !#[trigger] self.is_match(q, p)
            },
        }
    }

    /// Interns `strings` in order and builds the suffix array over their codes.
    pub fn new(strings: Vec<String>) -> (r: Corpus)
        requires
            strings@.len() < usize::MAX,
        ensures
            r.wf(),
            r.stringmap@ == intern_all(strings@.map_values(|t: String| t@)),
            r.sequence@.len() == strings@.len(),
            forall|i: int|
                0 <= i < strings@.len() ==> Stringmap::code_in(
                    r.stringmap@,
                    strings@[i]@,
                    #[trigger] r.sequence@[i] as nat,
                ),
    {
        let ghost views = strings@.map_values(|t: String| t@);
        let mut sequence: Vec<usize> = Vec::new();
        let mut stringmap = Stringmap::new();
        let mut i: usize = 0;
        proof {
            assert(views.take(0) =~= Seq::<Seq<char>>::empty());
        }
        while i < strings.len()
            invariant
                i <= strings@.len(),
                strings@.len() < usize::MAX,
                views == strings@.map_values(|t: String| t@),
                stringmap.wf(),
                stringmap@ == intern_all(views.take(i as int)),
                stringmap@.len() <= i,
                sequence@.len() == i,
                forall|k: int|
                    0 <= k < i ==> Stringmap::code_in(
                        stringmap@,
                        strings@[k]@,
                        #[trigger] sequence@[k] as nat,
                    ),
            decreases strings@.len() - i,
        {
            let ghost before = stringmap@;
            let code_value = stringmap.add(&strings[i]);
            sequence.push(code_value);
            proof {
                assert(views.take(i + 1).drop_last() =~= views.take(i as int));
                assert(views.take(i + 1).last() == strings@[i as int]@);
                assert forall|k: int|
                    0 <= k < i + 1 implies Stringmap::code_in(
                    stringmap@,
                    strings@[k]@,
                    #[trigger] sequence@[k] as nat,
                ) by {
                    if k < i {
                        assert(before.len() <= stringmap@.len());
                        assert(stringmap@[sequence@[k] as int] == before[sequence@[k] as int]);
                    }
                }
            }
            i = i + 1;
        }
        proof {
            assert(views.take(strings@.len() as int) =~= views);
        }
        let n = sequence.len();
        let suffix = sort_suffixes(&sequence, 0, n);
        Corpus { sequence, suffix, stringmap }
    }

    /// The distinct `n`-grams of the corpus, in increasing lexicographic
    /// order. Equal `n`-grams are neighbours in the suffix array, so one pass
    /// over it that skips repeats of the last one kept finds each once.
    pub fn ngrams(&self, n: usize) -> (r: Vec<&[usize]>)
        requires
            self.wf(),
        ensures
            forall|i: int| 0 <= i < r@.len() ==> is_ngram(self.sequence@, (#[trigger] r@[i])@, n as nat),
            forall|o: int|
                0 <= o < self.sequence@.len() && o + n <= self.sequence@.len() ==> gram_views(
                    r@,
                ).contains(#[trigger] self.sequence@.subrange(o, o + n)),
            forall|i: int, j: int|
                0 <= i < j < r@.len() ==> lex_cmp((#[trigger] r@[i])@, (#[trigger] r@[j])@)
                    == Ordering::Less,
    {
        let ghost s = self.sequence@;
        let ghost sa = self.suffix@;
        let mut out: Vec<&[usize]> = Vec::new();
        // The array position that each kept n-gram was read at.
        let ghost mut src: Seq<int> = Seq::empty();
        let mut p: usize = 0;
        while p < self.suffix.len()
            invariant
                self.wf(),
                s == self.sequence@,
                sa == self.suffix@,
                p <= sa.len(),
                src.len() == out@.len(),
                forall|i: int|
                    0 <= i < src.len() ==> 0 <= #[trigger] src[i] < p && sa[src[i]] + n <= s.len()
                        && out@[i]@ == s.subrange(sa[src[i]] as int, sa[src[i]] + n),
                forall|i: int, j: int|
                    0 <= i < j < out@.len() ==> lex_cmp((#[trigger] out@[i])@, (#[trigger] out@[j])@)
                        == Ordering::Less,
                forall|q: int|
                    0 <= q < p && sa[q] + n <= s.len() ==> gram_views(out@).contains(
                        s.subrange(#[trigger] sa[q] as int, sa[q] + n),
                    ),
                out@.len() > 0 ==> src[src.len() - 1] < p,
            decreases sa.len() - p,
        {
            let o = self.suffix[p];
            if n <= self.sequence.len() - o {
                let g = gram_at(&self.sequence, o, n);
                let fresh = if out.len() == 0 {
                    true
                } else {
                    let last = out[out.len() - 1];
                    !matches!(sequence_compare(last, g), Ordering::Equal)
                };
                let ghost out0 = out@;
                let ghost src0 = src;
                proof {
                    if out0.len() > 0 {
                        let q = src0[src0.len() - 1];
                        let x = suffix_of(s, sa[q] as int);
                        let y = suffix_of(s, o as int);
                        assert(suffix_lt(s, sa[q], sa[p as int]));
                        lemma_truncate_monotone(x, y, n as nat);
                        assert(truncate(x, n as nat) =~= out0[out0.len() - 1]@);
                        assert(truncate(y, n as nat) =~= g@);
                        lemma_lex_antisymmetric(out0[out0.len() - 1]@, g@);
                    }
                }
                if fresh {
                    out.push(g);
                    proof {
                        src = src0.push(p as int);
                        assert forall|i: int, j: int|
                            0 <= i < j < out@.len() implies lex_cmp(
                            (#[trigger] out@[i])@,
                            (#[trigger] out@[j])@,
                        ) == Ordering::Less by {
                            if j == out@.len() - 1 && i < j - 1 {
                                lemma_lex_transitive(out0[i]@, out0[j - 1]@, g@);
                            }
                        }
                        assert forall|q: int|
                            0 <= q < p + 1 && sa[q] + n <= s.len() implies gram_views(out@).contains(
                            s.subrange(#[trigger] sa[q] as int, sa[q] + n),
                        ) by {
                            let g0 = s.subrange(sa[q] as int, sa[q] + n);
                            if q < p {
                                assert(gram_views(out0).contains(g0));
                                let i = choose|i: int| 0 <= i < out0.len() && gram_views(out0)[i] == g0;
                                assert(gram_views(out@)[i] == g0);
                            } else {
                                assert(gram_views(out@)[out0.len() as int] == g0);
                            }
                        }
                    }
                } else {
                    proof {
                        assert forall|q: int|
                            0 <= q < p + 1 && sa[q] + n <= s.len() implies gram_views(out@).contains(
                            s.subrange(#[trigger] sa[q] as int, sa[q] + n),
                        ) by {
                            if q == p {
                                assert(gram_views(out@)[out@.len() - 1] == s.subrange(
                                    sa[q] as int,
                                    sa[q] + n,
                                ));
                            }
                        }
                    }
                }
            }
            p = p + 1;
        }
        proof {
            assert forall|o: int|
                0 <= o < s.len() && o + n <= s.len() implies gram_views(out@).contains(
                #[trigger] s.subrange(o, o + n),
            ) by {
                lemma_suffix_array_covers(s, sa, o);
                let q = choose|q: int| 0 <= q < sa.len() && #[trigger] sa[q] as int == o;
                assert(sa[q] + n <= s.len());
            }
            assert forall|i: int| 0 <= i < out@.len() implies is_ngram(s, (#[trigger] out@[i])@, n as nat) by {
                let o = sa[src[i]] as int;
                assert(0 <= o < s.len());
                assert(out@[i]@ == s.subrange(o, o + n));
            }
        }
        out
    }

    /// Returns the band of suffix-array positions whose suffixes start with
    /// `seq`, testing every position in turn.
    pub fn search_linear(&self, seq: &[usize]) -> (r: Result<(usize, usize), bool>)
        requires
            self.wf(),
        ensures
            self.search_outcome(seq@, r),
    {
        let n = seq.len();
        let mut found: bool = false;
        let mut suffix_lo: usize = 0;
        let mut suffix_hi: usize = 0;
        let mut suffix_pos: usize = 0;
        while suffix_pos < self.suffix.len()
            invariant
                self.wf(),
                n == seq@.len(),
                suffix_pos <= self.suffix@.len(),
                found ==> suffix_lo <= suffix_hi < suffix_pos,
                found ==> self.is_match(seq@, suffix_lo as int),
                found ==> self.is_match(seq@, suffix_hi as int),
                forall|p: int|
                    0 <= p < suffix_pos ==> (#[trigger] self.is_match(seq@, p) ==> found
                        && suffix_lo <= p <= suffix_hi),
            decreases self.suffix@.len() - suffix_pos,
        {
            let offset = self.suffix[suffix_pos];
            if matches!(sequence_compare_n(suffix_at(&self.sequence, offset), seq, &n), Ordering::Equal) {
                if !found {
                    found = true;
                    suffix_lo = suffix_pos;
                }
                suffix_hi = suffix_pos;
            }
            suffix_pos = suffix_pos + 1;
        }
        if !found {
            Err(false)
        } else {
            proof {
                assert forall|p: int|
                    0 <= p < self.suffix@.len() && suffix_lo <= p <= suffix_hi implies #[trigger] self.is_match(
                    seq@,
                    p,
                ) by {
                    self.lemma_probe_monotone(seq@, suffix_lo as int, p);
                    self.lemma_probe_monotone(seq@, p, suffix_hi as int);
                }
            }
            Ok((suffix_lo, suffix_hi))
        }
    }

    /// The leftmost position in `suffix_min..=suffix_max` whose suffix starts
    /// with `seq`, together with a right bound that lies at or past every
    /// match in the range; `Err(false)` when the range holds no match.
    fn binary_search_left(&self, seq: &[usize], suffix_min: usize, suffix_max: usize) -> (r: Result<
        (usize, usize),
        bool,
    >)
        requires
            self.wf(),
            suffix_min <= suffix_max < self.suffix@.len(),
        ensures
            match r {
                Ok((p, right_bound)) => {
                    &&& suffix_min <= p <= right_bound <= suffix_max
                    &&& self.is_match(seq@, p as int)
                    &&& forall|q: int| suffix_min <= q < p ==> !#[trigger] self.is_match(seq@, q)
                    &&& forall|q: int|
                        suffix_min <= q <= suffix_max && #[trigger] self.is_match(seq@, q) ==> q
                            <= right_bound
                },
                Err(e) => {
                    &&& !e
                    &&& forall|q: int|
                        suffix_min <= q <= suffix_max ==> !#[trigger] self.is_match(seq@, q)
                },
            },
    {
        let n = seq.len();
        let mut smin = suffix_min;
        let mut smax = suffix_max;
        let mut right_bound = suffix_max;
        while smax > smin
            invariant
                self.wf(),
                n == seq@.len(),
                suffix_min <= smin <= smax <= suffix_max,
                smin <= right_bound <= suffix_max,
                suffix_max < self.suffix@.len(),
                smax == suffix_max || self.probe(seq@, smax as int) != Ordering::Less,
                right_bound == suffix_max || self.probe(seq@, right_bound as int)
                    == Ordering::Greater,
                forall|q: int|
                    suffix_min <= q < smin ==> #[trigger] self.probe(seq@, q) == Ordering::Less,
            decreases smax - smin,
        {
            let smid = smin + (smax - smin) / 2;
            let offset = self.suffix[smid];
            let cmp = sequence_compare_n(suffix_at(&self.sequence, offset), seq, &n);
            if matches!(cmp, Ordering::Greater) && smid < right_bound {
                right_bound = smid;
            }
            if matches!(cmp, Ordering::Less) {
                proof {
                    assert forall|q: int| suffix_min <= q < smid + 1 implies #[trigger] self.probe(
                        seq@,
                        q,
                    ) == Ordering::Less by {
                        self.lemma_probe_monotone(seq@, q, smid as int);
                    }
                }
                smin = smid + 1;
            } else {
                smax = smid;
            }
        }
        let offset = self.suffix[smin];
        let found = matches!(
            sequence_compare_n(suffix_at(&self.sequence, offset), seq, &n),
            Ordering::Equal
        );
        proof {
            if right_bound < suffix_max {
                assert forall|q: int|
                    suffix_min <= q <= suffix_max && #[trigger] self.is_match(seq@, q) implies q
                    <= right_bound by {
                    if q > right_bound {
                        self.lemma_probe_monotone(seq@, right_bound as int, q);
                    }
                }
            }
            if !found {
                assert forall|q: int| suffix_min <= q <= suffix_max implies !#[trigger] self.is_match(
                    seq@,
                    q,
                ) by {
                    if q > smin {
                        self.lemma_probe_monotone(seq@, smin as int, q);
                    }
                }
            } else {
                if right_bound < smin {
                    self.lemma_probe_monotone(seq@, right_bound as int, smin as int);
                }
            }
        }
        if found {
            Ok((smin, right_bound))
        } else {
            Err(false)
        }
    }

    /// The rightmost position in `suffix_min..=suffix_max` whose suffix starts
    /// with `seq`, together with a left bound that lies at or before every
    /// match in the range; `Err(false)` when the range holds no match.
    fn binary_search_right(&self, seq: &[usize], suffix_min: usize, suffix_max: usize) -> (r:
        Result<(usize, usize), bool>)
        requires
            self.wf(),
            suffix_min <= suffix_max < self.suffix@.len(),
        ensures
            match r {
                Ok((p, left_bound)) => {
                    &&& suffix_min <= left_bound <= p <= suffix_max
                    &&& self.is_match(seq@, p as int)
                    &&& forall|q: int| p < q <= suffix_max ==> !#[trigger] self.is_match(seq@, q)
                    &&& forall|q: int|
                        suffix_min <= q <= suffix_max && #[trigger] self.is_match(seq@, q)
                            ==> left_bound <= q
                },
                Err(e) => {
                    &&& !e
                    &&& forall|q: int|
                        suffix_min <= q <= suffix_max ==> !#[trigger] self.is_match(seq@, q)
                },
            },
    {
        let n = seq.len();
        let mut smin = suffix_min;
        let mut smax = suffix_max;
        let mut left_bound = suffix_min;
        while smax > smin
            invariant
                self.wf(),
                n == seq@.len(),
                suffix_min <= smin <= smax <= suffix_max,
                suffix_min <= left_bound <= smax,
                suffix_max < self.suffix@.len(),
                smin == suffix_min || self.probe(seq@, smin as int) != Ordering::Greater,
                left_bound == suffix_min || self.probe(seq@, left_bound as int) == Ordering::Less,
                forall|q: int|
                    smax < q <= suffix_max ==> #[trigger] self.probe(seq@, q) == Ordering::Greater,
            decreases smax - smin,
        {
            let smid = smin + (smax - smin) / 2 + 1;
            let offset = self.suffix[smid];
            let cmp = sequence_compare_n(suffix_at(&self.sequence, offset), seq, &n);
            if matches!(cmp, Ordering::Less) && smid > left_bound {
                left_bound = smid;
            }
            if matches!(cmp, Ordering::Greater) {
                proof {
                    assert forall|q: int| smid - 1 < q <= suffix_max implies #[trigger] self.probe(
                        seq@,
                        q,
                    ) == Ordering::Greater by {
                        self.lemma_probe_monotone(seq@, smid as int, q);
                    }
                }
                smax = smid - 1;
            } else {
                smin = smid;
            }
        }
        let offset = self.suffix[smin];
        let found = matches!(
            sequence_compare_n(suffix_at(&self.sequence, offset), seq, &n),
            Ordering::Equal
        );
        proof {
            if left_bound > suffix_min {
                assert forall|q: int|
                    suffix_min <= q <= suffix_max && #[trigger] self.is_match(seq@, q) implies left_bound
                    <= q by {
                    if q < left_bound {
                        self.lemma_probe_monotone(seq@, q, left_bound as int);
                    }
                }
            }
            if !found {
                assert forall|q: int| suffix_min <= q <= suffix_max implies !#[trigger] self.is_match(
                    seq@,
                    q,
                ) by {
                    if q < smin {
                        self.lemma_probe_monotone(seq@, q, smin as int);
                    }
                }
            } else {
                if left_bound > smin {
                    self.lemma_probe_monotone(seq@, smin as int, left_bound as int);
                }
            }
        }
        if found {
            Ok((smin, left_bound))
        } else {
            Err(false)
        }
    }

    /// Returns the band of suffix-array positions whose suffixes start with
    /// `seq`: a binary search finds one match, and two one-sided binary
    /// searches find the edges of the band around it.
    pub fn search_binary(&self, seq: &[usize]) -> (r: Result<(usize, usize), bool>)
        requires
            self.wf(),
        ensures
            self.search_outcome(seq@, r),
    {
        let n = seq.len();
        let mut lo: usize = 0;
        let mut hi: usize = self.suffix.len();
        let mut hit: Option<usize> = None;
        while lo < hi && hit.is_none()
            invariant
                self.wf(),
                n == seq@.len(),
                lo <= hi <= self.suffix@.len(),
                hit matches Some(p) ==> p < self.suffix@.len() && self.is_match(seq@, p as int),
                hit is None ==> forall|p: int|
                    0 <= p < self.suffix@.len() && !(lo <= p < hi) ==> !#[trigger] self.is_match(
                        seq@,
                        p,
                    ),
            decreases hi - lo + (if hit is None { 1int } else { 0int }),
        {
            let mid = lo + (hi - lo) / 2;
            let offset = self.suffix[mid];
            let cmp = sequence_compare_n(suffix_at(&self.sequence, offset), seq, &n);
            if matches!(cmp, Ordering::Less) {
                proof {
                    assert forall|p: int| 0 <= p <= mid implies !#[trigger] self.is_match(seq@, p) by {
                        self.lemma_probe_monotone(seq@, p, mid as int);
                    }
                }
                lo = mid + 1;
            } else if matches!(cmp, Ordering::Greater) {
                proof {
                    assert forall|p: int|
                        mid <= p < self.suffix@.len() implies !#[trigger] self.is_match(seq@, p) by {
                        self.lemma_probe_monotone(seq@, mid as int, p);
                    }
                }
                hi = mid;
            } else {
                hit = Some(mid);
            }
        }
        match hit {
            None => Err(false),
            Some(suffix_pos) => {
                let last = self.suffix.len() - 1;
                let mut suffix_lo = suffix_pos;
                let mut suffix_hi = suffix_pos;
                // Search lower.
                if let Ok((lo, _)) = self.binary_search_left(seq, 0, suffix_pos) {
                    suffix_lo = lo;
                }
                // Search higher.
                if let Ok((hi, _)) = self.binary_search_right(seq, suffix_pos, last) {
                    suffix_hi = hi;
                }
                proof {
                    assert forall|p: int|
                        0 <= p < self.suffix@.len() implies (#[trigger] self.is_match(seq@, p)
                        <==> suffix_lo <= p <= suffix_hi) by {
                        if suffix_lo <= p <= suffix_hi {
                            self.lemma_probe_monotone(seq@, suffix_lo as int, p);
                            self.lemma_probe_monotone(seq@, p, suffix_hi as int);
                        }
                    }
                }
                Ok((suffix_lo, suffix_hi))
            },
        }
    }

    /// Searches for a query given as tokens. Each token is resolved through
    /// the interner; a token that was never interned cannot occur, and the
    /// search then ends at once with `Err(false)`.
    pub fn search_tokens(&self, tokens: &Vec<String>) -> (r: Result<(usize, usize), bool>)
        requires
            self.wf(),
        ensures
            ({
                let ts = tokens@.map_values(|t: String| t@);
                if forall|i: int| 0 <= i < ts.len() ==> self.stringmap@.contains(#[trigger] ts[i]) {
                    self.search_outcome(codes_of(self.stringmap@, ts), r)
                } else {
                    r == Err::<(usize, usize), bool>(false)
                }
            }),
    {
        let ghost ts = tokens@.map_values(|t: String| t@);
        let ghost m = self.stringmap@;
        let mut codes: Vec<usize> = Vec::new();
        let mut i: usize = 0;
        while i < tokens.len()
            invariant
                self.wf(),
                m == self.stringmap@,
                ts == tokens@.map_values(|t: String| t@),
                i <= tokens@.len(),
                codes@.len() == i,
                forall|k: int| 0 <= k < i ==> m.contains(#[trigger] ts[k]),
                forall|k: int| 0 <= k < i ==> #[trigger] codes@[k] == m.index_of(ts[k]) as usize,
            decreases tokens@.len() - i,
        {
            match self.stringmap.get(&tokens[i]) {
                None => {
                    proof {
                        assert(!m.contains(ts[i as int]));
                    }
                    return Err(false);
                },
                Some(code) => {
                    proof {
                        let j = m.index_of(ts[i as int]);
                        assert(m[code as int] == ts[i as int]);
                        assert(0 <= j < m.len() && m[j] == ts[i as int]);
                        assert(j == code);
                    }
                    codes.push(code);
                },
            }
            i = i + 1;
        }
        proof {
            assert(codes@ =~= codes_of(m, ts));
        }
        self.search_binary(codes.as_slice())
    }

    /// Along the suffix array, the comparison against a bounded query never goes down.
    pub proof fn lemma_probe_monotone(&self, q: Seq<usize>, i: int, j: int)
        requires
            self.wf(),
            0 <= i <= j < self.suffix@.len(),
        ensures
            rank(self.probe(q, i)) <= rank(self.probe(q, j)),
    {
        let s = self.sequence@;
        let x = suffix_of(s, self.suffix@[i] as int);
        let y = suffix_of(s, self.suffix@[j] as int);
        if i < j {
            assert(suffix_lt(s, self.suffix@[i], self.suffix@[j]));
        } else {
            lemma_lex_antisymmetric(x, y);
        }
        lemma_compare_query_monotone(x, y, q);
    }
}

/// A suffix array holds every offset of its sequence.
pub proof fn lemma_suffix_array_covers(s: Seq<usize>, sa: Seq<usize>, i: int)
    requires
        is_suffix_array(s, sa),
        0 <= i < s.len(),
    ensures
        exists|p: int| 0 <= p < sa.len() && #[trigger] sa[p] as int == i,
{
    let m = sa.map_values(|x: usize| x as int);
    assert forall|a: int, b: int| 0 <= a < b < m.len() implies m[a] != m[b] by {
        assert(suffix_lt(s, sa[a], sa[b]));
        lemma_lex_antisymmetric(suffix_of(s, sa[a] as int), suffix_of(s, sa[b] as int));
    }
    assert(m.no_duplicates());
    m.unique_seq_to_set();
    let range = set_int_range(0, s.len() as int);
    lemma_int_range(0, s.len() as int);
    assert forall|x: int| m.to_set().contains(x) implies range.contains(x) by {
        let p = choose|p: int| 0 <= p < m.len() && m[p] == x;
        assert(0 <= sa[p] < s.len());
    }
    vstd::set_lib::lemma_len_subset(m.to_set(), range);
    lemma_subset_equality(m.to_set(), range);
    assert(range.contains(i));
    assert(m.to_set().contains(i));
    let p = choose|p: int| 0 <= p < m.len() && m[p] == i;
    assert(sa[p] as int == i);
}

/// Neighbouring entries of a built suffix array never compare `Greater`
/// under the unbounded comparison.
pub proof fn lemma_neighbours_ordered(c: &Corpus, i: int)
    requires
        c.wf(),
        0 <= i < c.suffix@.len() - 1,
    ensures
        compare_n(
            suffix_of(c.sequence@, c.suffix@[i] as int),
            suffix_of(c.sequence@, c.suffix@[i + 1] as int),
            max_nat(
                suffix_of(c.sequence@, c.suffix@[i] as int).len(),
                suffix_of(c.sequence@, c.suffix@[i + 1] as int).len(),
            ) + 1,
        ) != Ordering::Greater,
{
    let a = suffix_of(c.sequence@, c.suffix@[i] as int);
    let b = suffix_of(c.sequence@, c.suffix@[i + 1] as int);
    assert(suffix_lt(c.sequence@, c.suffix@[i], c.suffix@[i + 1]));
    lemma_lex_antisymmetric(a, b);
    lemma_ordering_unbounded(a, b);
}

/// A query holding a code that the interner never gave matches nothing.
pub proof fn lemma_unknown_code_not_found(
    c: &Corpus,
    q: Seq<usize>,
    k: int,
    r: Result<(usize, usize), bool>,
)
    requires
        c.wf(),
        0 <= k < q.len(),
        q[k] >= c.stringmap@.len(),
        c.search_outcome(q, r),
    ensures
        r == Err::<(usize, usize), bool>(false),
{
    if let Ok((lo, hi)) = r {
        assert(c.is_match(q, lo as int));
        let t = suffix_of(c.sequence@, c.suffix@[lo as int] as int);
        lemma_compare_query_equal(t, q);
        assert(t.subrange(0, q.len() as int)[k] == q[k]);
        assert(c.sequence@[c.suffix@[lo as int] + k] == q[k]);
    }
}

/// Any two outcomes that a search for `q` may give are the same, and a found
/// band holds exactly the corpus offsets at which `q` occurs.
pub proof fn lemma_search_agreement(
    c: &Corpus,
    q: Seq<usize>,
    r1: Result<(usize, usize), bool>,
    r2: Result<(usize, usize), bool>,
)
    requires
        c.wf(),
        c.search_outcome(q, r1),
        c.search_outcome(q, r2),
    ensures
        r1 == r2,
        r1 matches Ok((lo, hi)) ==> band_offsets(c.suffix@, lo as int, hi as int) == occurrences(
            c.sequence@,
            q,
        ),
        r1 is Err ==> occurrences(c.sequence@, q) == Set::<int>::empty(),
{
    let s = c.sequence@;
    let sa = c.suffix@;
    match r1 {
        Ok((lo1, hi1)) => {
            assert(c.is_match(q, lo1 as int));
            assert(c.is_match(q, hi1 as int));
        },
        Err(_) => {},
    }
    match r2 {
        Ok((lo2, hi2)) => {
            assert(c.is_match(q, lo2 as int));
            assert(c.is_match(q, hi2 as int));
        },
        Err(_) => {},
    }
    assert forall|p: int| 0 <= p < sa.len() implies (#[trigger] c.is_match(q, p) <==> occurrences(
        s,
        q,
    ).contains(sa[p] as int)) by {
        let t = suffix_of(s, sa[p] as int);
        lemma_compare_query_equal(t, q);
        if q.len() <= t.len() {
            assert(t.subrange(0, q.len() as int) =~= s.subrange(
                sa[p] as int,
                sa[p] + q.len() as int,
            ));
        }
    }
    match r1 {
        Ok((lo, hi)) => {
            assert forall|i: int| #[trigger]
                occurrences(s, q).contains(i) implies band_offsets(sa, lo as int, hi as int).contains(
                i,
            ) by {
                lemma_suffix_array_covers(s, sa, i);
                let p = choose|p: int| 0 <= p < sa.len() && #[trigger] sa[p] as int == i;
                assert(c.is_match(q, p));
            }
            assert forall|i: int| #[trigger]
                band_offsets(sa, lo as int, hi as int).contains(i) implies occurrences(
                s,
                q,
            ).contains(i) by {
                let p = choose|p: int| lo <= p <= hi && #[trigger] sa[p] as int == i;
                assert(c.is_match(q, p));
            }
            assert(band_offsets(sa, lo as int, hi as int) =~= occurrences(s, q));
        },
        Err(_) => {
            assert forall|i: int| !#[trigger] occurrences(s, q).contains(i) by {
                if occurrences(s, q).contains(i) {
                    lemma_suffix_array_covers(s, sa, i);
                    let p = choose|p: int| 0 <= p < sa.len() && #[trigger] sa[p] as int == i;
                    assert(c.is_match(q, p));
                }
            }
            assert(occurrences(s, q) =~= Set::<int>::empty());
        },
    }
}

/// The `n` codes of `seq` from offset `o`.
fn gram_at(seq: &Vec<usize>, o: usize, n: usize) -> (r: &[usize])
    requires
        o + n <= seq@.len(),
    ensures
        r@ == seq@.subrange(o as int, o + n),
{
    let s = seq.as_slice();
    let end: usize = s.len() - (s.len() - o - n);
    &s[o..end]
}

/// The suffix of `seq` that starts at `p`.
fn suffix_at(seq: &Vec<usize>, p: usize) -> (r: &[usize])
    requires
        p <= seq@.len(),
    ensures
        r@ == suffix_of(seq@, p as int),
{
    let s = seq.as_slice();
    &s[p..s.len()]
}

/// Suffixes at different offsets have different lengths, so they never compare equal.
proof fn lemma_distinct_offsets(s: Seq<usize>, x: usize, y: usize)
    requires
        x <= s.len(),
        y <= s.len(),
        x != y,
    ensures
        suffix_lt(s, x, y) || suffix_lt(s, y, x),
{
    let a = suffix_of(s, x as int);
    let b = suffix_of(s, y as int);
    lemma_lex_antisymmetric(a, b);
    assert(a.len() != b.len());
}

/// The offsets `lo..hi` of `sequence`, in strictly increasing suffix order.
fn sort_suffixes(sequence: &Vec<usize>, lo: usize, hi: usize) -> (r: Vec<usize>)
    requires
        lo <= hi <= sequence@.len(),
    ensures
        r@.len() == hi - lo,
        offsets_within(r@, lo as int, hi as int),
        suffixes_sorted(sequence@, r@),
    decreases hi - lo,
{
    if hi - lo <= 1 {
        let mut v: Vec<usize> = Vec::new();
        if hi > lo {
            v.push(lo);
        }
        v
    } else {
        let mid = lo + (hi - lo) / 2;
        let left = sort_suffixes(sequence, lo, mid);
        let right = sort_suffixes(sequence, mid, hi);
        merge_suffixes(sequence, &left, &right, Ghost(lo as int), Ghost(mid as int), Ghost(hi as int))
    }
}

/// Merges two sorted runs of offsets drawn from adjacent ranges.
fn merge_suffixes(
    sequence: &Vec<usize>,
    left: &Vec<usize>,
    right: &Vec<usize>,
    lo: Ghost<int>,
    mid: Ghost<int>,
    hi: Ghost<int>,
) -> (r: Vec<usize>)
    requires
        lo@ <= mid@ <= hi@ <= sequence@.len(),
        offsets_within(left@, lo@, mid@),
        offsets_within(right@, mid@, hi@),
        suffixes_sorted(sequence@, left@),
        suffixes_sorted(sequence@, right@),
    ensures
        r@.len() == left@.len() + right@.len(),
        offsets_within(r@, lo@, hi@),
        suffixes_sorted(sequence@, r@),
{
    let ghost s = sequence@;
    let mut out: Vec<usize> = Vec::new();
    let mut i: usize = 0;
    let mut j: usize = 0;
    while i < left.len() || j < right.len()
        invariant
            lo@ <= mid@ <= hi@ <= s.len(),
            s == sequence@,
            offsets_within(left@, lo@, mid@),
            offsets_within(right@, mid@, hi@),
            suffixes_sorted(s, left@),
            suffixes_sorted(s, right@),
            i <= left@.len(),
            j <= right@.len(),
            out@.len() == i + j,
            offsets_within(out@, lo@, hi@),
            suffixes_sorted(s, out@),
            forall|k: int, l: int|
                0 <= k < out@.len() && i <= l < left@.len() ==> suffix_lt(
                    s,
                    #[trigger] out@[k],
                    #[trigger] left@[l],
                ),
            forall|k: int, l: int|
                0 <= k < out@.len() && j <= l < right@.len() ==> suffix_lt(
                    s,
                    #[trigger] out@[k],
                    #[trigger] right@[l],
                ),
        decreases left@.len() + right@.len() - i - j,
    {
        let take_left = if i >= left.len() {
            false
        } else if j >= right.len() {
            true
        } else {
            let a = left[i];
            let b = right[j];
            matches!(sequence_compare(suffix_at(sequence, a), suffix_at(sequence, b)), Ordering::Less)
        };
        let ghost i0 = i as int;
        let ghost j0 = j as int;
        let ghost out0 = out@;
        let ghost x: usize = if take_left {
            left@[i0]
        } else {
            right@[j0]
        };
        proof {
            if i0 < left@.len() && j0 < right@.len() {
                lemma_distinct_offsets(s, left@[i0], right@[j0]);
            }
        }
        if take_left {
            out.push(left[i]);
            i = i + 1;
        } else {
            out.push(right[j]);
            j = j + 1;
        }
        proof {
            assert(out@ == out0.push(x));
            assert forall|l: int| i <= l < left@.len() implies suffix_lt(s, x, #[trigger] left@[l]) by {
                if take_left {
                    assert(suffix_lt(s, left@[i0], left@[l]));
                } else if l > i0 {
                    assert(suffix_lt(s, left@[i0], left@[l]));
                    lemma_lex_transitive(
                        suffix_of(s, x as int),
                        suffix_of(s, left@[i0] as int),
                        suffix_of(s, left@[l] as int),
                    );
                }
            }
            assert forall|l: int| j <= l < right@.len() implies suffix_lt(s, x, #[trigger] right@[l]) by {
                if !take_left {
                    assert(suffix_lt(s, right@[j0], right@[l]));
                } else if l > j0 {
                    assert(suffix_lt(s, right@[j0], right@[l]));
                    lemma_lex_transitive(
                        suffix_of(s, x as int),
                        suffix_of(s, right@[j0] as int),
                        suffix_of(s, right@[l] as int),
                    );
                }
            }
            assert forall|k: int, l: int|
                0 <= k < out@.len() && i <= l < left@.len() implies suffix_lt(
                s,
                #[trigger] out@[k],
                #[trigger] left@[l],
            ) by {
                if k < out0.len() {
                    assert(out@[k] == out0[k]);
                }
            }
            assert forall|k: int, l: int|
                0 <= k < out@.len() && j <= l < right@.len() implies suffix_lt(
                s,
                #[trigger] out@[k],
                #[trigger] right@[l],
            ) by {
                if k < out0.len() {
                    assert(out@[k] == out0[k]);
                }
            }
            assert forall|a: int, b: int| 0 <= a < b < out@.len() implies suffix_lt(
                s,
                #[trigger] out@[a],
                #[trigger] out@[b],
            ) by {
                assert(out@[a] == out0[a]);
                if b < out0.len() {
                    assert(out@[b] == out0[b]);
                } else if take_left {
                    assert(suffix_lt(s, out0[a], left@[i0]));
                } else {
                    assert(suffix_lt(s, out0[a], right@[j0]));
                }
            }
        }
    }
    out
}

} // verus!
