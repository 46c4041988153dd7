//! The states that the search is in, each with the token that stands for it.

use std::collections::HashMap;
use vstd::prelude::*;

verus! {

/// States in the order in which they were first entered, each with one token.
pub struct Frontier {
    entries: Vec<(u32, usize)>,
    index: HashMap<u32, usize>,
}

impl Frontier {
    /// The index finds every entry, and nothing else.
    pub closed spec fn wf(self) -> bool {
        &&& forall|i: int|
            0 <= i < self.entries@.len() ==> self.index@.contains_key(#[trigger] self.entries@[i].0)
                && self.index@[self.entries@[i].0] == i
        &&& forall|s: u32| #[trigger]
            self.index@.contains_key(s) ==> self.index@[s] < self.entries@.len()
                && self.entries@[self.index@[s] as int].0 == s
    }

    /// The states, in order.
    pub closed spec fn states(self) -> Seq<u32> {
        Seq::new(self.entries@.len(), |i: int| self.entries@[i].0)
    }

    /// The token of each state.
    pub closed spec fn tokens(self) -> Map<u32, usize> {
        Map::new(
            |s: u32| self.index@.contains_key(s),
            |s: u32| self.entries@[self.index@[s] as int].1,
        )
    }

    /// No state yet.
    pub fn new() -> (f: Self)
        ensures
            f.wf(),
            f.tokens() == Map::<u32, usize>::empty(),
            f.states() == Seq::<u32>::empty(),
    {
        broadcast use vstd::std_specs::hash::group_hash_axioms;

        let f = Frontier { entries: Vec::new(), index: HashMap::new() };
        assert(f.tokens() =~= Map::<u32, usize>::empty());
        assert(f.states() =~= Seq::<u32>::empty());
        f
    }

    /// How many states there are.
    pub fn len(&self) -> (n: usize)
        ensures
            n == self.states().len(),
    {
        self.entries.len()
    }

    /// The state at place `i`, and its token.
    pub fn entry(&self, i: usize) -> (e: (u32, usize))
        requires
            self.wf(),
            i < self.states().len(),
        ensures
            e.0 == self.states()[i as int],
            self.tokens().contains_key(e.0),
            e.1 == self.tokens()[e.0],
    {
        self.entries[i]
    }

    /// The token of a state.
    pub fn get(&self, s: u32) -> (t: Option<usize>)
        requires
            self.wf(),
        ensures
            t == (if self.tokens().contains_key(s) {
                Some(self.tokens()[s])
            } else {
                None
            }),
    {
        broadcast use vstd::std_specs::hash::group_hash_axioms;

        match self.index.get(&s) {
            Some(i) => Some(self.entries[*i].1),
            None => None,
        }
    }

    /// Give a state a token, in place of the one it had.
    pub fn insert(&mut self, s: u32, t: usize)
        requires
            old(self).wf(),
        ensures
            final(self).wf(),
            final(self).tokens() == old(self).tokens().insert(s, t),
            final(self).states() == (if old(self).tokens().contains_key(s) {
                old(self).states()
            } else {
                old(self).states().push(s)
            }),
    {
        broadcast use vstd::std_specs::hash::group_hash_axioms;

        let ghost before = *self;
        let at: Option<usize> = match self.index.get(&s) {
            Some(i) => Some(*i),
            None => None,
        };
        match at {
            Some(i) => {
                self.entries.set(i, (s, t));
            },
            None => {
                let n: usize = self.entries.len();
                self.index.insert(s, n);
                self.entries.push((s, t));
            },
        }
        assert(self.tokens() =~= before.tokens().insert(s, t));
        assert(self.states() =~= (if before.tokens().contains_key(s) {
            before.states()
        } else {
            before.states().push(s)
        }));
    }

    /// Every state stands in the list once, and the list holds the states that have a token.
    pub proof fn lemma_states(self)
        requires
            self.wf(),
        ensures
            self.states().no_duplicates(),
            forall|s: u32| #[trigger] self.states().contains(s) <==> self.tokens().contains_key(s),
            self.states().to_set() == self.tokens().dom(),
            self.tokens().dom().finite(),
            self.tokens().dom().len() == self.states().len(),
    {
        let st = self.states();
        assert forall|s: u32| #[trigger] st.contains(s) <==> self.tokens().contains_key(s) by {
            if self.tokens().contains_key(s) {
                assert(st[self.index@[s] as int] == s);
            }
        }
        assert(st.no_duplicates()) by {
            assert forall|i: int, j: int| 0 <= i < st.len() && 0 <= j < st.len() && i != j implies st[i]
                != st[j] by {
                assert(self.index@[self.entries@[i].0] == i);
                assert(self.index@[self.entries@[j].0] == j);
            }
        }
        assert(st.to_set() =~= self.tokens().dom());
        st.unique_seq_to_set();
    }
}

} // verus!
