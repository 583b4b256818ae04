use crate::sequence::min_nat;
use crate::stringmap::{add_step, Stringmap};
use std::collections::{BTreeMap, VecDeque};
use vstd::std_specs::btree::{increasing_seq, spec_btree_map_iter};
use vstd::prelude::*;

verus! {

/// How often `k` has been counted in `m` (absent keys count 0).
pub open spec fn count_of(m: Map<(usize, usize), usize>, k: (usize, usize)) -> nat {
    if m.contains_key(k) {
        m[k] as nat
    } else {
        0
    }
}

/// The distinct codes held in every slot of `w` but the target slot `b`.
pub open spec fn context_of(w: Seq<usize>, b: nat) -> Set<usize> {
    Set::new(|c: usize| exists|k: int| 0 <= k < w.len() && k != b && w[k] == c)
}

/// `m` with one more count for `(t, c)`, once for each `c` in `cs`.
pub open spec fn bump(m: Map<(usize, usize), usize>, t: usize, cs: Set<usize>) -> Map<
    (usize, usize),
    usize,
> {
    Map::new(
        |k: (usize, usize)| m.contains_key(k) || (k.0 == t && cs.contains(k.1)),
        |k: (usize, usize)|
            if k.0 == t && cs.contains(k.1) {
                (count_of(m, k) + 1) as usize
            } else {
                m[k]
            },
    )
}

/// Key `(t1, c1)` sorts strictly before key `(t2, c2)`.
pub open spec fn key_lt(t1: usize, c1: usize, t2: usize, c2: usize) -> bool {
    t1 < t2 || (t1 == t2 && c1 < c2)
}

/// `es` lists the entries of `m` as (target, context, frequency), each key
/// once, in strictly increasing key order.
pub open spec fn lists_table(m: Map<(usize, usize), usize>, es: Seq<(usize, usize, usize)>) -> bool {
    &&& es.len() == m.dom().len()
    &&& forall|i: int|
        0 <= i < es.len() ==> m.contains_key(((#[trigger] es[i]).0, es[i].1)) && m[(es[i].0, es[i].1)]
            == es[i].2
    &&& forall|k: (usize, usize)| #[trigger]
        m.contains_key(k) ==> exists|i: int| 0 <= i < es.len() && es[i].0 == k.0 && es[i].1 == k.1
    &&& forall|i: int, j: int|
        0 <= i < j < es.len() ==> key_lt((#[trigger] es[i]).0, es[i].1, (#[trigger] es[j]).0, es[j].1)
}

/// The ASCII decimal digits of `n`, most significant first.
pub open spec fn decimal_of(n: nat) -> Seq<u8>
    decreases n,
{
    if n < 10 {
        seq![(48 + n) as u8]
    } else {
        decimal_of(n / 10).push((48 + n % 10) as u8)
    }
}

/// The bytes of one CSV record (target token, context token, frequency
/// digits), as the `csv` crate writes it.
pub uninterp spec fn csv_row_of(target: Seq<char>, context: Seq<char>, freq: Seq<u8>) -> Seq<u8>;

/// The CSV records of the entries `es`, one after another, with tokens
/// resolved through `toks`.
pub open spec fn csv_rows(toks: Seq<Seq<char>>, es: Seq<(usize, usize, usize)>) -> Seq<u8>
    decreases es.len(),
{
    if es.len() == 0 {
        Seq::empty()
    } else {
        csv_rows(toks, es.drop_last()) + csv_row_of(
            toks[es.last().0 as int],
            toks[es.last().1 as int],
            decimal_of(es.last().2 as nat),
        )
    }
}

/// Relies on `csv::Writer::from_writer`, `write_record` and `into_inner` over
/// an in-memory buffer: the bytes of one record, with the crate's standard
/// quoting and line terminator, depend on the three fields alone. Writing
/// one record into a `Vec<u8>` meets neither an I/O error nor a record-length
/// mismatch, so the writer always hands the bytes back.
#[verifier::external_body]
fn csv_row(target: &String, context: &String, freq: &Vec<u8>) -> (r: Option<Vec<u8>>)
    ensures
        r is Some,
        r matches Some(b) ==> b@ == csv_row_of(target@, context@, freq@),
{
    let mut w = csv::Writer::from_writer(Vec::new());
    match w.write_record([target.as_bytes(), context.as_bytes(), freq.as_slice()]) {
        Ok(()) => w.into_inner().ok(),
        Err(_) => None,
    }
}

/// The ASCII decimal digits of `n`.
pub fn decimal_digits(n: usize) -> (r: Vec<u8>)
    ensures
        r@ == decimal_of(n as nat),
    decreases n,
{
    if n < 10 {
        let d: u8 = 48 + n as u8;
        let mut v: Vec<u8> = Vec::new();
        v.push(d);
        proof {
            assert(v@ =~= seq![(48 + n) as u8]);
        }
        v
    } else {
        let mut v = decimal_digits(n / 10);
        let d: u8 = 48 + (n % 10) as u8;
        v.push(d);
        v
    }
}

/// The window after `x` arrives: strict FIFO, never longer than `cap`.
pub open spec fn slide(w: Seq<usize>, cap: nat, x: usize) -> Seq<usize> {
    if w.len() >= cap {
        w.drop_first().push(x)
    } else {
        w.push(x)
    }
}

/// The table after an arrival that left the window as `w`: a full window
/// counts its target once against each distinct context code; a window that
/// is still filling counts nothing.
pub open spec fn tally(m: Map<(usize, usize), usize>, w: Seq<usize>, b: nat, cap: nat) -> Map<
    (usize, usize),
    usize,
> {
    if w.len() == cap {
        bump(m, w[b as int], context_of(w, b))
    } else {
        m
    }
}

/// The window and table after registering the codes `xs`, in order, with a
/// fresh counter of `b` backward slots and capacity `cap`.
pub open spec fn replay(xs: Seq<usize>, b: nat, cap: nat) -> (Seq<usize>, Map<(usize, usize), usize>)
    decreases xs.len(),
{
    if xs.len() == 0 {
        (Seq::empty(), Map::empty())
    } else {
        let prev = replay(xs.drop_last(), b, cap);
        let w = slide(prev.0, cap, xs.last());
        (w, tally(prev.1, w, b, cap))
    }
}

/// The window holds the last `min(n, capacity)` of the `n` registered codes;
/// nothing is counted until `capacity` codes have arrived, and from then on
/// every arrival counts exactly one window: its target against its context.
pub proof fn lemma_window_gating(xs: Seq<usize>, b: nat, f: nat)
    ensures
        replay(xs, b, b + 1 + f).0 == xs.subrange(
            xs.len() - min_nat(xs.len(), b + 1 + f),
            xs.len() as int,
        ),
        xs.len() < b + 1 + f ==> replay(xs, b, b + 1 + f).1 == Map::<(usize, usize), usize>::empty(),
        xs.len() >= b + 1 + f ==> ({
            let w = replay(xs, b, b + 1 + f).0;
            replay(xs, b, b + 1 + f).1 == bump(
                replay(xs.drop_last(), b, b + 1 + f).1,
                w[b as int],
                context_of(w, b),
            )
        }),
    decreases xs.len(),
{
    let cap = b + 1 + f;
    if xs.len() == 0 {
        assert(xs.subrange(0, 0) =~= Seq::<usize>::empty());
    } else {
        let init = xs.drop_last();
        lemma_window_gating(init, b, f);
        let prev = replay(init, b, cap);
        if init.len() >= cap {
            assert(prev.0.drop_first().push(xs.last()) =~= xs.subrange(
                xs.len() - cap,
                xs.len() as int,
            ));
        } else {
            assert(prev.0.push(xs.last()) =~= xs.subrange(0, xs.len() as int));
        }
    }
}

/// A code that fills several context slots of one full window is counted
/// once for that window, and so is a code that fills one.
pub proof fn lemma_context_counted_once(
    m: Map<(usize, usize), usize>,
    w: Seq<usize>,
    b: nat,
    k: int,
)
    requires
        b < w.len(),
        0 <= k < w.len(),
        k != b,
        count_of(m, (w[b as int], w[k])) < usize::MAX,
    ensures
        count_of(bump(m, w[b as int], context_of(w, b)), (w[b as int], w[k])) == count_of(
            m,
            (w[b as int], w[k]),
        ) + 1,
{
    assert(context_of(w, b).contains(w[k]));
}

/// Codes outside the window's context, and pairs with another target, are
/// not counted for that window.
pub proof fn lemma_only_context_counted(
    m: Map<(usize, usize), usize>,
    w: Seq<usize>,
    b: nat,
    key: (usize, usize),
)
    requires
        b < w.len(),
        key.0 != w[b as int] || !context_of(w, b).contains(key.1),
    ensures
        count_of(bump(m, w[b as int], context_of(w, b)), key) == count_of(m, key),
{
}

/// Counts, for a stream of tokens, how often each target token has each
/// distinct token within `num_b` slots before it and `num_f` slots after it.
pub struct CoocCounter {
    freqs: BTreeMap<(usize, usize), usize>,
    num_b: usize,
    num_f: usize,
    vocabulary: Stringmap,
    window: VecDeque<usize>,
    window_size: usize,
    registered: usize,
    history: Ghost<Seq<usize>>,
}

impl CoocCounter {
    /// The frequency table, keyed by (target code, context code).
    pub closed spec fn table(&self) -> Map<(usize, usize), usize> {
        self.freqs@
    }

    /// The codes in the window, most distant past first.
    pub closed spec fn window_codes(&self) -> Seq<usize> {
        self.window@
    }

    /// The interned tokens, indexed by code.
    pub closed spec fn tokens(&self) -> Seq<Seq<char>> {
        self.vocabulary@
    }

    pub closed spec fn backward(&self) -> nat {
        self.num_b as nat
    }

    pub closed spec fn forward(&self) -> nat {
        self.num_f as nat
    }

    pub closed spec fn capacity(&self) -> nat {
        self.window_size as nat
    }

    /// The number of tokens registered since construction.
    pub closed spec fn registered_count(&self) -> nat {
        self.registered as nat
    }

    /// The codes registered so far, oldest first.
    pub closed spec fn history(&self) -> Seq<usize> {
        self.history@
    }

    /// What every counter reachable from `new` satisfies: its window and
    /// table are the replay of its history, and no count exceeds the number
    /// of registered tokens.
    pub open spec fn facts(&self) -> bool {
        &&& self.capacity() == self.backward() + 1 + self.forward()
        &&& self.registered_count() == self.history().len()
        &&& self.window_codes().len() == min_nat(self.history().len(), self.capacity())
        &&& self.window_codes().len() <= self.capacity()
        &&& replay(self.history(), self.backward(), self.capacity()) == (
            self.window_codes(),
            self.table(),
        )
        &&& forall|k: int|
            0 <= k < self.window_codes().len() ==> #[trigger] self.window_codes()[k]
                < self.tokens().len()
        &&& forall|k: (usize, usize)| #[trigger]
            self.table().contains_key(k) ==> self.table()[k] <= self.registered_count() && k.0
                < self.tokens().len() && k.1 < self.tokens().len()
    }

    pub closed spec fn wf(&self) -> bool {
        &&& self.wf_core()
        &&& self.history@.len() == self.registered
        &&& replay(self.history@, self.num_b as nat, self.window_size as nat) == (
            self.window@,
            self.freqs@,
        )
    }

    proof fn lemma_facts(&self)
        requires
            self.wf(),
        ensures
            self.facts(),
    {
        lemma_window_gating(self.history@, self.num_b as nat, self.num_f as nat);
    }

    closed spec fn wf_core(&self) -> bool {
        &&& self.window_size == self.num_b + 1 + self.num_f
        &&& self.window@.len() <= self.window_size
        &&& self.vocabulary.wf()
        &&& self.vocabulary@.len() <= self.registered
        &&& forall|k: int| 0 <= k < self.window@.len() ==> #[trigger] self.window@[k]
            < self.vocabulary@.len()
        &&& forall|k: (usize, usize)| #[trigger]
            self.freqs@.contains_key(k) ==> self.freqs@[k] <= self.registered && k.0
                < self.vocabulary@.len() && k.1 < self.vocabulary@.len()
    }

    pub fn new(num_b: usize, num_f: usize) -> (r: CoocCounter)
        requires
            num_b + 1 + num_f <= usize::MAX,
        ensures
            r.wf(),
            r.backward() == num_b,
            r.forward() == num_f,
            r.capacity() == num_b + 1 + num_f,
            r.table() == Map::<(usize, usize), usize>::empty(),
            r.window_codes() == Seq::<usize>::empty(),
            r.tokens() == Seq::<Seq<char>>::empty(),
            r.registered_count() == 0,
            r.history() == Seq::<usize>::empty(),
            r.facts(),
    {
        let r = CoocCounter {
            freqs: BTreeMap::new(),
            num_b,
            num_f,
            vocabulary: Stringmap::new(),
            window: VecDeque::new(),
            window_size: num_b + 1 + num_f,
            registered: 0,
            history: Ghost(Seq::empty()),
        };
        proof {
            assert(r.window@ =~= Seq::<usize>::empty());
            assert(r.freqs@ =~= Map::<(usize, usize), usize>::empty());
            r.lemma_facts();
        }
        r
    }

    /// The frequency table, keyed by (target code, context code).
    pub fn freqs(&self) -> (r: &BTreeMap<(usize, usize), usize>)
        ensures
            r@ == self.table(),
    {
        &self.freqs
    }

    /// The number of tokens registered since construction.
    pub fn registered(&self) -> (r: usize)
        ensures
            r == self.registered_count(),
    {
        self.registered
    }

    /// The code that the counter gave to `word`, if it has seen it.
    pub fn code_for(&self, word: &str) -> (r: Option<usize>)
        requires
            self.wf(),
        ensures
            r is None <==> !self.tokens().contains(word@),
            r matches Some(c) ==> Stringmap::code_in(self.tokens(), word@, c as nat),
    {
        let s = word.to_owned();
        self.vocabulary.get(&s)
    }

    /// Pushes `word` into the window, evicting the oldest token once the
    /// window is full; every arrival that leaves the window full counts the
    /// middle token once against each distinct token around it.
    pub fn register(&mut self, word: &str)
        requires
            old(self).wf(),
            old(self).registered_count() < usize::MAX,
        ensures
            final(self).wf(),
            final(self).facts(),
            final(self).history() == old(self).history().push(final(self).window_codes().last()),
            final(self).backward() == old(self).backward(),
            final(self).forward() == old(self).forward(),
            final(self).capacity() == old(self).capacity(),
            final(self).registered_count() == old(self).registered_count() + 1,
            final(self).tokens() == add_step(old(self).tokens(), word@),
            Stringmap::code_in(final(self).tokens(), word@, final(self).window_codes().last() as nat),
            final(self).window_codes() == slide(
                old(self).window_codes(),
                old(self).capacity(),
                final(self).window_codes().last(),
            ),
            final(self).table() == tally(
                old(self).table(),
                final(self).window_codes(),
                old(self).backward(),
                old(self).capacity(),
            ),
    {
        let s = word.to_owned();
        let code = self.vocabulary.add(&s);
        proof {
            assert(s@ == word@);
        }
        if self.window.len() >= self.window_size {
            self.window.pop_front();
        }
        self.window.push_back(code);
        self.registered = self.registered + 1;
        proof {
            assert(self.window@ == slide(old(self).window@, old(self).window_size as nat, code));
            assert forall|k: int| 0 <= k < self.window@.len() implies #[trigger] self.window@[k]
                < self.vocabulary@.len() by {
                if k < self.window@.len() - 1 {
                    if old(self).window@.len() >= old(self).window_size {
                        assert(self.window@[k] == old(self).window@[k + 1]);
                    } else {
                        assert(self.window@[k] == old(self).window@[k]);
                    }
                }
            }
        }
        if self.window.len() == self.window_size {
            let target = self.window[self.num_b];
            let events = self.context_codes();
            let ghost m0 = self.freqs@;
            proof {
                assert forall|j: int| 0 <= j < events@.len() implies #[trigger] events@[j] < self.vocabulary@.len() by {
                    assert(events@.to_set().contains(events@[j]));
                    assert(context_of(self.window@, self.num_b as nat).contains(events@[j]));
                }
            }
            let mut i: usize = 0;
            while i < events.len()
                invariant
                    self.wf_core(),
                    self.history == old(self).history,
                    self.num_b == old(self).num_b,
                    self.window@ == slide(old(self).window@, old(self).window_size as nat, code),
                    self.window@.len() == self.window_size,
                    target == self.window@[self.num_b as int],
                    self.registered == old(self).registered + 1,
                    self.vocabulary@ == add_step(old(self).vocabulary@, word@),
                    Stringmap::code_in(self.vocabulary@, word@, code as nat),
                    m0 == old(self).freqs@,
                    forall|k: (usize, usize)| #[trigger] m0.contains_key(k) ==> m0[k] < self.registered,
                    forall|j: int| 0 <= j < events@.len() ==> #[trigger] events@[j] < self.vocabulary@.len(),
                    events@.no_duplicates(),
                    i <= events@.len(),
                    self.freqs@ == bump(m0, target, events@.take(i as int).to_set()),
                decreases events@.len() - i,
            {
                let e = events[i];
                let key = (target, e);
                let cur: usize = match self.freqs.get(&key) {
                    Some(v) => *v,
                    None => 0,
                };
                proof {
                    assert(!events@.take(i as int).to_set().contains(e));
                    assert(cur as nat == count_of(m0, key));
                }
                self.freqs.insert(key, cur + 1);
                proof {
                    assert(events@.take(i + 1) =~= events@.take(i as int).push(e));
                    lemma_push_to_set(events@.take(i as int), e);
                    assert(self.freqs@ =~= bump(m0, target, events@.take(i + 1).to_set()));
                    assert forall|k: (usize, usize)| #[trigger]
                        self.freqs@.contains_key(k) implies self.freqs@[k] <= self.registered && k.0
                            < self.vocabulary@.len() && k.1 < self.vocabulary@.len() by {
                        if k != key && !m0.contains_key(k) {
                            assert(bump(m0, target, events@.take(i as int).to_set()).contains_key(k));
                        }
                    }
                }
                i = i + 1;
            }
            proof {
                assert(events@.take(events@.len() as int) =~= events@);
            }
        } else {
            proof {
                assert(self.freqs@ =~= tally(old(self).freqs@, self.window@, old(self).num_b as nat, old(self).window_size as nat));
            }
        }
        proof {
            let h = old(self).history@.push(code);
            self.history = Ghost(h);
            assert(h.drop_last() =~= old(self).history@);
            assert(self.freqs@ == tally(
                old(self).freqs@,
                self.window@,
                old(self).num_b as nat,
                old(self).window_size as nat,
            ));
            assert(replay(h, self.num_b as nat, self.window_size as nat) == (self.window@, self.freqs@));
            self.lemma_facts();
        }
    }

    /// The tokens in the window, most distant past first.
    pub fn window(&self) -> (r: Vec<String>)
        requires
            self.wf(),
        ensures
            r@.len() == self.window_codes().len(),
            forall|i: int|
                0 <= i < r@.len() ==> (#[trigger] r@[i])@ == self.tokens()[self.window_codes()[i] as int],
    {
        let mut out: Vec<String> = Vec::new();
        let mut k: usize = 0;
        while k < self.window.len()
            invariant
                self.wf(),
                k <= self.window@.len(),
                out@.len() == k,
                forall|i: int| 0 <= i < k ==> (#[trigger] out@[i])@ == self.vocabulary@[self.window@[i] as int],
            decreases self.window@.len() - k,
        {
            let c = self.window[k];
            out.push(self.vocabulary.token(c).clone());
            k = k + 1;
        }
        out
    }

    /// The table's entries as (target, context, frequency), in increasing
    /// order of (target, context).
    pub fn entries(&self) -> (r: Vec<(usize, usize, usize)>)
        ensures
            lists_table(self.table(), r@),
    {
        let mut out: Vec<(usize, usize, usize)> = Vec::new();
        let ghost v = vstd::std_specs::iter::IteratorSpec::remaining(&spec_btree_map_iter(&self.freqs));
        for kv in it: self.freqs.iter()
            invariant
                it.seq() == v,
                out@.len() == it.index(),
                forall|i: int| 0 <= i < it.index() ==> #[trigger] out@[i] == (it.seq()[i].0.0, it.seq()[i].0.1, *it.seq()[i].1),
        {
            out.push((kv.0.0, kv.0.1, *kv.1));
        }
        proof {
            assert(increasing_seq(v.map_values(|kv: (&(usize, usize), &usize)| *kv.0)));
            assert forall|i: int, j: int| 0 <= i < j < out@.len() implies key_lt((#[trigger] out@[i]).0, out@[i].1, (#[trigger] out@[j]).0, out@[j].1) by {
                let ks = v.map_values(|kv: (&(usize, usize), &usize)| *kv.0);
                assert(vstd::std_specs::cmp::OrdSpec::cmp_spec(&ks[i], &ks[j]) is Less);
            }
            assert forall|k: (usize, usize)| #[trigger] self.freqs@.contains_key(k) implies exists|i: int|
                0 <= i < out@.len() && out@[i].0 == k.0 && out@[i].1 == k.1 by {
                assert(v.contains((&k, &self.freqs@[k])));
                let i = choose|i: int| 0 <= i < v.len() && v[i] == (&k, &self.freqs@[k]);
                assert(out@[i].0 == k.0 && out@[i].1 == k.1);
            }
        }
        out
    }

    /// The table as CSV: one record per entry (target token, context token,
    /// frequency), in increasing order of (target code, context code).
    pub fn to_csv_bytes(&self) -> (r: Vec<u8>)
        requires
            self.wf(),
        ensures
            exists|es: Seq<(usize, usize, usize)>|
                lists_table(self.table(), es) && r@ == csv_rows(self.tokens(), es),
    {
        let es = self.entries();
        let mut out: Vec<u8> = Vec::new();
        let mut i: usize = 0;
        while i < es.len()
            invariant
                self.wf(),
                lists_table(self.freqs@, es@),
                i <= es@.len(),
                out@ == csv_rows(self.vocabulary@, es@.take(i as int)),
            decreases es@.len() - i,
        {
            let (t, c, f) = es[i];
            proof {
                assert(self.freqs@.contains_key((es@[i as int].0, es@[i as int].1)));
            }
            let digits = decimal_digits(f);
            if let Some(row) = csv_row(self.vocabulary.token(t), self.vocabulary.token(c), &digits) {
                let mut row = row;
                out.append(&mut row);
            }
            proof {
                assert(es@.take(i + 1).drop_last() =~= es@.take(i as int));
            }
            i = i + 1;
        }
        proof {
            assert(es@.take(es@.len() as int) =~= es@);
        }
        out
    }

    /// The distinct codes in every window slot but the target slot.
    fn context_codes(&self) -> (r: Vec<usize>)
        requires
            self.wf_core(),
        ensures
            r@.no_duplicates(),
            r@.to_set() == context_of(self.window@, self.num_b as nat),
    {
        let mut events: Vec<usize> = Vec::new();
        let mut k: usize = 0;
        while k < self.window.len()
            invariant
                self.wf_core(),
                k <= self.window@.len(),
                events@.no_duplicates(),
                events@.to_set() == context_of(self.window@.take(k as int), self.num_b as nat),
            decreases self.window@.len() - k,
        {
            let ghost before = events@;
            if k != self.num_b {
                let c = self.window[k];
                if !contains_code(&events, c) {
                    events.push(c);
                    proof {
                        lemma_push_to_set(before, c);
                    }
                } else {
                    proof {
                        assert(before.to_set().insert(c) =~= before.to_set());
                    }
                }
            }
            proof {
                let w0 = self.window@.take(k as int);
                assert(self.window@.take(k + 1) =~= w0.push(self.window@[k as int]));
                lemma_context_push(w0, self.window@[k as int], self.num_b as nat);
            }
            k = k + 1;
        }
        proof {
            assert(self.window@.take(self.window@.len() as int) =~= self.window@);
        }
        events
    }
}

proof fn lemma_push_to_set(s: Seq<usize>, e: usize)
    ensures
        s.push(e).to_set() == s.to_set().insert(e),
{
    assert forall|x: usize| s.push(e).to_set().contains(x) <==> s.to_set().insert(e).contains(x) by {
        if s.push(e).contains(x) {
            let j = choose|j: int| 0 <= j < s.push(e).len() && s.push(e)[j] == x;
            if j < s.len() {
                assert(s[j] == x);
            }
        }
        if s.contains(x) {
            let j = choose|j: int| 0 <= j < s.len() && s[j] == x;
            assert(s.push(e)[j] == x);
        }
        if x == e {
            assert(s.push(e)[s.len() as int] == e);
        }
    }
    assert(s.push(e).to_set() =~= s.to_set().insert(e));
}

proof fn lemma_context_push(w: Seq<usize>, x: usize, b: nat)
    ensures
        context_of(w.push(x), b) == (if w.len() != b {
            context_of(w, b).insert(x)
        } else {
            context_of(w, b)
        }),
{
    let w1 = w.push(x);
    assert forall|c: usize| #[trigger] context_of(w1, b).contains(c) <==> (if w.len() != b {
        context_of(w, b).insert(x)
    } else {
        context_of(w, b)
    }).contains(c) by {
        if context_of(w1, b).contains(c) {
            let j = choose|j: int| 0 <= j < w1.len() && j != b && w1[j] == c;
            if j < w.len() {
                assert(w[j] == c);
            }
        }
        if context_of(w, b).contains(c) {
            let j = choose|j: int| 0 <= j < w.len() && j != b && w[j] == c;
            assert(w1[j] == c);
        }
        if w.len() != b && c == x {
            assert(w1[w.len() as int] == c);
        }
    }
    assert(context_of(w1, b) =~= (if w.len() != b {
        context_of(w, b).insert(x)
    } else {
        context_of(w, b)
    }));
}

/// Whether `v` holds `c`.
fn contains_code(v: &Vec<usize>, c: usize) -> (r: bool)
    ensures
        r == v@.contains(c),
{
    let mut i: usize = 0;
    while i < v.len()
        invariant
            i <= v@.len(),
            forall|j: int| 0 <= j < i ==> v@[j] != c,
        decreases v@.len() - i,
    {
        if v[i] == c {
            proof {
                assert(v@[i as int] == c);
            }
            return true;
        }
        i = i + 1;
    }
    false
}

} // verus!
