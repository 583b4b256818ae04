use crate::stringmap::{add_step, Stringmap};
use vstd::prelude::*;

verus! {

/// A two-way vocabulary: each registered string gets an id from 1 upward, in
/// order of registration; id 0 stands for an unknown string.
pub struct Vocabulary {
    items: Stringmap,
    idctr: usize,
}

impl View for Vocabulary {
    /// The registered strings; the one at index `i` has id `i + 1`.
    type V = Seq<Seq<char>>;

    closed spec fn view(&self) -> Seq<Seq<char>> {
        self.items@
    }
}

impl Vocabulary {
    pub closed spec fn wf(&self) -> bool {
        &&& self.items.wf()
        &&& self.idctr == self.items@.len()
    }

    pub fn new() -> (r: Vocabulary)
        ensures
            r.wf(),
            r@ == Seq::<Seq<char>>::empty(),
    {
        Vocabulary { items: Stringmap::new(), idctr: 0 }
    }

    /// The id of `string`, or 0 if it was never registered.
    pub fn code_for(&self, string: &str) -> (r: usize)
        requires
            self.wf(),
        ensures
            r == 0 <==> !self@.contains(string@),
            r != 0 ==> r <= self@.len() && self@[r - 1] == string@,
    {
        let s = string.to_owned();
        match self.items.get(&s) {
            Some(c) => c + 1,
            None => 0,
        }
    }

    /// Advances the id counter and returns the new id.
    fn next_id(&mut self) -> (r: usize)
        requires
            old(self).idctr < usize::MAX,
        ensures
            r == old(self).idctr + 1,
            final(self).idctr == r,
            final(self).items == old(self).items,
    {
        self.idctr = self.idctr + 1;
        self.idctr
    }

    /// Gives `string` the next id, unless it already has one.
    pub fn register(&mut self, string: &str)
        requires
            old(self).wf(),
            old(self)@.len() < usize::MAX - 1,
        ensures
            final(self).wf(),
            final(self)@ == add_step(old(self)@, string@),
    {
        let s = string.to_owned();
        if !self.items.contains(&s) {
            let id = self.next_id();
            let code = self.items.add(&s);
            proof {
                assert(code + 1 == id);
            }
        }
    }

    /// The string with id `code`, or `<UNKNOWN>` if no string has it.
    pub fn string_for(&self, code: usize) -> (r: String)
        requires
            self.wf(),
        ensures
            1 <= code <= self@.len() ==> r@ == self@[code - 1],
            !(1 <= code <= self@.len()) ==> r@ == "<UNKNOWN>"@,
    {
        if code >= 1 && code <= self.idctr {
            self.items.token(code - 1).clone()
        } else {
            "<UNKNOWN>".to_owned()
        }
    }
}

} // verus!
