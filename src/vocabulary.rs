use vstd::prelude::*;

verus! {

/// The frequency of each word seen, keyed by the word.
pub open spec fn freq_map(words: Seq<Seq<char>>, counts: Seq<usize>) -> Map<Seq<char>, usize> {
    Map::new(|w: Seq<char>| words.contains(w), |w: Seq<char>| counts[words.index_of(w)])
}

/// A word-frequency table: how often each word has been added.
pub struct Vocabulary {
    words: Vec<String>,
    counts: Vec<usize>,
}

impl View for Vocabulary {
    type V = Map<Seq<char>, usize>;

    closed spec fn view(&self) -> Map<Seq<char>, usize> {
        freq_map(self.word_seq(), self.counts@)
    }
}

impl Vocabulary {
    closed spec fn word_seq(&self) -> Seq<Seq<char>> {
        self.words@.map_values(|w: String| w@)
    }

    /// Words are unique, and each has one count.
    pub closed spec fn wf(&self) -> bool {
        &&& self.word_seq().no_duplicates()
        &&& self.words@.len() == self.counts@.len()
    }

    pub fn new() -> (r: Vocabulary)
        ensures
            r.wf(),
            r@ == Map::<Seq<char>, usize>::empty(),
    {
        let r = Vocabulary { words: Vec::new(), counts: Vec::new() };
        proof {
            assert(r@ =~= Map::<Seq<char>, usize>::empty());
        }
        r
    }

    /// The position of `word` in the table, if it is there.
    fn position(&self, word: &String) -> (r: Option<usize>)
        requires
            self.wf(),
        ensures
            r is None <==> !self.word_seq().contains(word@),
            r matches Some(i) ==> i < self.words@.len() && self.word_seq()[i as int] == word@
                && self.word_seq().index_of(word@) == i,
    {
        let mut i: usize = 0;
        while i < self.words.len()
            invariant
                self.wf(),
                i <= self.words@.len(),
                forall|k: int| 0 <= k < i ==> self.word_seq()[k] != word@,
            decreases self.words@.len() - i,
        {
            if self.words[i] == *word {
                proof {
                    let ws = self.word_seq();
                    assert(ws[i as int] == word@);
                    let j = ws.index_of(word@);
                    assert(0 <= j < ws.len() && ws[j] == word@);
                }
                return Some(i);
            }
            i = i + 1;
        }
        None
    }

    /// Counts one more occurrence of `word`.
    pub fn add(&mut self, word: &str)
        requires
            old(self).wf(),
            old(self)@.contains_key(word@) ==> old(self)@[word@] < usize::MAX,
        ensures
            final(self).wf(),
            final(self)@ == old(self)@.insert(
                word@,
                if old(self)@.contains_key(word@) {
                    (old(self)@[word@] + 1) as usize
                } else {
                    1
                },
            ),
    {
        let s = word.to_owned();
        let ghost ws0 = self.word_seq();
        let ghost cs0 = self.counts@;
        match self.position(&s) {
            Some(i) => {
                let c = self.counts[i];
                self.counts.set(i, c + 1);
                proof {
                    assert(self.word_seq() == ws0);
                    assert forall|w: Seq<char>| ws0.contains(w) && w != s@ implies ws0.index_of(w)
                        != i by {}
                    assert(self@ =~= old(self)@.insert(s@, (c + 1) as usize));
                }
            },
            None => {
                self.words.push(s);
                self.counts.push(1);
                proof {
                    let ws1 = self.word_seq();
                    assert(ws1 =~= ws0.push(s@));
                    assert(ws1.index_of(s@) == ws0.len()) by {
                        assert(ws1[ws0.len() as int] == s@);
                    }
                    assert forall|w: Seq<char>| ws0.contains(w) implies ws1.index_of(w)
                        == ws0.index_of(w) by {
                        let j = ws0.index_of(w);
                        assert(ws1[j] == w);
                    }
                    assert forall|w: Seq<char>| ws1.contains(w) <==> (ws0.contains(w) || w
                        == s@) by {
                        if ws1.contains(w) {
                            let j = choose|j: int| 0 <= j < ws1.len() && ws1[j] == w;
                            if j < ws0.len() {
                                assert(ws0[j] == w);
                            }
                        }
                        if ws0.contains(w) {
                            let j = choose|j: int| 0 <= j < ws0.len() && ws0[j] == w;
                            assert(ws1[j] == w);
                        }
                        if w == s@ {
                            assert(ws1[ws0.len() as int] == w);
                        }
                    }
                    assert forall|w: Seq<char>| ws1.contains(w) implies self.counts@[ws1.index_of(w)]
                        == (if w == s@ {
                        1
                    } else {
                        cs0[ws0.index_of(w)]
                    }) by {
                        if w != s@ {
                            let j = ws0.index_of(w);
                            assert(ws0[j] == w);
                        }
                    }
                    assert(self@ =~= old(self)@.insert(s@, 1));
                }
            },
        }
    }

    pub fn contains(&self, word: &str) -> (r: bool)
        requires
            self.wf(),
        ensures
            r == self@.contains_key(word@),
    {
        let s = word.to_owned();
        self.position(&s).is_some()
    }

    /// Drops every word seen fewer than `min_freq` times.
    pub fn filter_by_minimum_frequency(&mut self, min_freq: usize)
        requires
            old(self).wf(),
        ensures
            final(self).wf(),
            final(self)@ == old(self)@.restrict(
                old(self)@.dom().filter(|w: Seq<char>| old(self)@[w] >= min_freq),
            ),
    {
        let ghost ws0 = self.word_seq();
        let ghost cs0 = self.counts@;
        let mut words: Vec<String> = Vec::new();
        let mut counts: Vec<usize> = Vec::new();
        // For each kept entry, the position it came from.
        let ghost mut src: Seq<int> = Seq::empty();
        let mut i: usize = 0;
        while i < self.words.len()
            invariant
                self.wf(),
                ws0 == self.word_seq(),
                cs0 == self.counts@,
                i <= self.words@.len(),
                words@.len() == counts@.len(),
                src.len() == words@.len(),
                forall|a: int, b: int| 0 <= a < b < src.len() ==> src[a] < src[b],
                forall|k: int|
                    0 <= k < src.len() ==> 0 <= #[trigger] src[k] < i && ws0[src[k]] == words@[k]@
                        && cs0[src[k]] == counts@[k] && cs0[src[k]] >= min_freq,
                forall|j: int|
                    0 <= j < i && cs0[j] >= min_freq ==> exists|k: int|
                        0 <= k < src.len() && #[trigger] src[k] == j,
            decreases self.words@.len() - i,
        {
            if self.counts[i] >= min_freq {
                words.push(self.words[i].clone());
                counts.push(self.counts[i]);
                proof {
                    let src0 = src;
                    src = src.push(i as int);
                    assert forall|j: int|
                        0 <= j < i + 1 && cs0[j] >= min_freq implies exists|k: int|
                        0 <= k < src.len() && #[trigger] src[k] == j by {
                        if j < i {
                            let k = choose|k: int| 0 <= k < src0.len() && #[trigger] src0[k] == j;
                            assert(src[k] == j);
                        } else {
                            assert(src[src0.len() as int] == j);
                        }
                    }
                }
            }
            i = i + 1;
        }
        let ghost old_map = freq_map(ws0, cs0);
        self.words = words;
        self.counts = counts;
        proof {
            let ws1 = self.word_seq();
            assert forall|a: int, b: int| 0 <= a < b < ws1.len() implies ws1[a] != ws1[b] by {
                assert(ws0[src[a]] == ws1[a]);
                assert(ws0[src[b]] == ws1[b]);
            }
            let target = old_map.restrict(old_map.dom().filter(|w: Seq<char>| old_map[w] >= min_freq));
            assert forall|w: Seq<char>| #[trigger] ws1.contains(w) <==> target.contains_key(w) by {
                if ws1.contains(w) {
                    let k = choose|k: int| 0 <= k < ws1.len() && ws1[k] == w;
                    assert(ws0[src[k]] == w);
                    assert(ws0.index_of(w) == src[k]);
                }
                if target.contains_key(w) {
                    let j = ws0.index_of(w);
                    assert(ws0[j] == w);
                    let k = choose|k: int| 0 <= k < src.len() && #[trigger] src[k] == j;
                    assert(ws1[k] == w);
                }
            }
            assert forall|w: Seq<char>| ws1.contains(w) implies self.counts@[ws1.index_of(w)]
                == old_map[w] by {
                let k = ws1.index_of(w);
                assert(ws1[k] == w);
                assert(ws0[src[k]] == w);
                assert(ws0.index_of(w) == src[k]);
            }
            assert(self@ =~= target);
        }
    }

    /// The number of distinct words.
    pub fn len(&self) -> (r: usize)
        requires
            self.wf(),
        ensures
            r == self@.len(),
    {
        proof {
            let ws = self.word_seq();
            ws.unique_seq_to_set();
            assert(self@.dom() =~= ws.to_set());
        }
        self.words.len()
    }
}

} // verus!
