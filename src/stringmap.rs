use vstd::prelude::*;

verus! {

/// An append-only interner: each distinct token gets the next dense code,
/// starting at 0, in the order in which tokens are first seen.
pub struct Stringmap {
    code_ctr: usize,
    tokens: Vec<String>,
}

impl View for Stringmap {
    /// The token that owns each code, indexed by code.
    type V = Seq<Seq<char>>;

    closed spec fn view(&self) -> Seq<Seq<char>> {
        self.tokens@.map_values(|t: String| t@)
    }
}

impl Stringmap {
    /// Every code below the counter has exactly one owning token.
    pub open spec fn wf(&self) -> bool {
        &&& self.counter_matches()
        &&& self@.no_duplicates()
    }

    /// The next-code counter equals the number of owned codes.
    pub closed spec fn counter_matches(&self) -> bool {
        self.code_ctr == self.tokens@.len()
    }

    /// The code of `t` in a table of distinct tokens, if it is there.
    pub open spec fn code_in(toks: Seq<Seq<char>>, t: Seq<char>, c: nat) -> bool {
        c < toks.len() && toks[c as int] == t
    }

    pub fn new() -> (r: Stringmap)
        ensures
            r.wf(),
            r@ == Seq::<Seq<char>>::empty(),
    {
        let r = Stringmap { code_ctr: 0, tokens: Vec::new() };
        proof {
            assert(r@ =~= Seq::<Seq<char>>::empty());
        }
        r
    }

    /// The number of codes handed out so far.
    pub fn len(&self) -> (r: usize)
        requires
            self.wf(),
        ensures
            r == self@.len(),
    {
        self.code_ctr
    }

    /// Looks `s` up without changing the table.
    pub fn get(&self, s: &String) -> (r: Option<usize>)
        requires
            self.wf(),
        ensures
            r is None <==> !self@.contains(s@),
            r matches Some(c) ==> Self::code_in(self@, s@, c as nat),
    {
        let mut i: usize = 0;
        while i < self.tokens.len()
            invariant
                i <= self.tokens@.len(),
                self@.len() == self.tokens@.len(),
                forall|k: int| 0 <= k < i ==> self@[k] != s@,
            decreases self.tokens@.len() - i,
        {
            if self.tokens[i] == *s {
                proof {
                    assert(self@[i as int] == s@);
                }
                return Some(i);
            }
            i = i + 1;
        }
        None
    }

    pub fn contains(&self, s: &String) -> (r: bool)
        requires
            self.wf(),
        ensures
            r == self@.contains(s@),
    {
        self.get(s).is_some()
    }

    /// Returns the code of `s`, giving it the next unused code if it is new.
    pub fn add(&mut self, s: &String) -> (r: usize)
        requires
            old(self).wf(),
            old(self)@.len() < usize::MAX,
        ensures
            final(self).wf(),
            final(self)@ == add_step(old(self)@, s@),
            Self::code_in(final(self)@, s@, r as nat),
    {
        match self.get(s) {
            Some(code_value) => code_value,
            None => {
                let code_value = self.code_ctr;
                self.tokens.push(s.clone());
                self.code_ctr = self.code_ctr + 1;
                proof {
                    assert(self@ =~= old(self)@.push(s@));
                }
                code_value
            },
        }
    }

    /// The token that owns `code`.
    pub fn token(&self, code: usize) -> (r: &String)
        requires
            self.wf(),
            code < self@.len(),
        ensures
            r@ == self@[code as int],
    {
        &self.tokens[code]
    }
}

/// The table after adding `t` to `m`.
pub open spec fn add_step(m: Seq<Seq<char>>, t: Seq<char>) -> Seq<Seq<char>> {
    if m.contains(t) {
        m
    } else {
        m.push(t)
    }
}

/// The table after adding each of `ts`, in order, to an empty interner.
pub open spec fn intern_all(ts: Seq<Seq<char>>) -> Seq<Seq<char>>
    decreases ts.len(),
{
    if ts.len() == 0 {
        Seq::empty()
    } else {
        add_step(intern_all(ts.drop_last()), ts.last())
    }
}

proof fn lemma_add_step_distinct(m: Seq<Seq<char>>, t: Seq<char>)
    requires
        m.no_duplicates(),
    ensures
        add_step(m, t).no_duplicates(),
        add_step(m, t).contains(t),
{
    if !m.contains(t) {
        assert(m.push(t)[m.len() as int] == t);
    }
}

/// Adding a token twice gives the same code both times, and the second call
/// leaves the table as the first one left it.
pub proof fn lemma_add_idempotent(m: Seq<Seq<char>>, t: Seq<char>, c1: nat, c2: nat)
    requires
        m.no_duplicates(),
        Stringmap::code_in(add_step(m, t), t, c1),
        Stringmap::code_in(add_step(add_step(m, t), t), t, c2),
    ensures
        add_step(add_step(m, t), t) == add_step(m, t),
        c1 == c2,
{
    lemma_add_step_distinct(m, t);
}

/// Interning any token stream gives a table without repeats that holds every
/// token of the stream; interning `n` distinct tokens gives them the codes
/// `0..n` in order of arrival.
pub proof fn lemma_dense_codes(ts: Seq<Seq<char>>)
    ensures
        intern_all(ts).no_duplicates(),
        forall|i: int| 0 <= i < ts.len() ==> intern_all(ts).contains(#[trigger] ts[i]),
        ts.no_duplicates() ==> intern_all(ts) == ts,
    decreases ts.len(),
{
    if ts.len() > 0 {
        let init = ts.drop_last();
        lemma_dense_codes(init);
        lemma_add_step_distinct(intern_all(init), ts.last());
        assert forall|i: int| 0 <= i < ts.len() implies intern_all(ts).contains(#[trigger] ts[i]) by {
            if i < ts.len() - 1 {
                assert(init[i] == ts[i]);
                let j = choose|j: int| 0 <= j < intern_all(init).len() && intern_all(init)[j] == init[i];
                assert(intern_all(ts)[j] == ts[i]);
            }
        }
        if ts.no_duplicates() {
            assert(init.no_duplicates());
            assert(!init.contains(ts.last()));
            assert(intern_all(ts) =~= ts);
        }
    }
}

} // verus!
