//! Things by name.

use vstd::prelude::*;

verus! {

/// Values under distinct names, in the order in which the names first came.
pub struct Table<V> {
    entries: Vec<(String, V)>,
}

impl<V: View> Table<V> {
    /// No name occurs twice.
    pub closed spec fn wf(self) -> bool {
        forall|i: int, j: int|
            0 <= i < j < self.entries@.len() ==> (#[trigger] self.entries@[i]).0@ != (
            #[trigger] self.entries@[j]).0@
    }

    spec fn holds(self, name: Seq<char>, i: int) -> bool {
        0 <= i < self.entries@.len() && self.entries@[i].0@ == name
    }

    spec fn place(self, name: Seq<char>) -> int {
        choose|i: int| #[trigger] self.holds(name, i)
    }

    /// How many names there are.
    pub closed spec fn spec_len(self) -> nat {
        self.entries@.len()
    }

    proof fn lemma_place(self, name: Seq<char>, i: int)
        requires
            self.wf(),
            self.holds(name, i),
        ensures
            self@.contains_key(name),
            self@[name] == self.entries@[i].1@,
            self.place(name) == i,
    {
        let j = self.place(name);
        assert(self.holds(name, j));
        if i < j {
            assert(self.entries@[i].0@ != self.entries@[j].0@);
        } else if j < i {
            assert(self.entries@[j].0@ != self.entries@[i].0@);
        }
    }

    /// There are as many names as entries.
    pub proof fn lemma_names(self)
        requires
            self.wf(),
        ensures
            self@.dom().finite(),
            self@.dom().len() == self.spec_len(),
    {
        let names = self.entries@.map_values(|e: (String, V)| e.0@);
        assert(names.no_duplicates()) by {
            assert forall|i: int, j: int|
                0 <= i < names.len() && 0 <= j < names.len() && i != j implies names[i]
                != names[j] by {
                if i < j {
                    assert(self.entries@[i].0@ != self.entries@[j].0@);
                } else {
                    assert(self.entries@[j].0@ != self.entries@[i].0@);
                }
            }
        }
        names.unique_seq_to_set();
        assert forall|n: Seq<char>| #[trigger] names.to_set().contains(n) <==> self@.dom().contains(
            n,
        ) by {
            if names.to_set().contains(n) {
                let i = choose|i: int| 0 <= i < names.len() && names[i] == n;
                assert(self.holds(n, i));
            }
            if self@.dom().contains(n) {
                let i = self.place(n);
                assert(self.holds(n, i));
                assert(names[i] == n);
            }
        }
        assert(names.to_set() =~= self@.dom());
    }

    /// An empty table.
    pub fn new() -> (t: Self)
        ensures
            t.wf(),
            t@ == Map::<Seq<char>, V::V>::empty(),
            t.spec_len() == 0,
    {
        let t = Table { entries: Vec::new() };
        assert(t@ =~= Map::<Seq<char>, V::V>::empty());
        t
    }

    /// How many names there are.
    pub fn len(&self) -> (n: usize)
        ensures
            n == self.spec_len(),
    {
        self.entries.len()
    }

    fn find(&self, name: &String) -> (r: Option<usize>)
        requires
            self.wf(),
        ensures
            match r {
                Some(i) => self.holds(name@, i as int),
                None => !self@.contains_key(name@),
            },
    {
        let mut i: usize = 0;
        while i < self.entries.len()
            invariant
                i <= self.entries@.len(),
                forall|j: int| 0 <= j < i ==> (#[trigger] self.entries@[j]).0@ != name@,
            decreases self.entries@.len() - i,
        {
            if self.entries[i].0 == *name {
                return Some(i);
            }
            i = i + 1;
        }
        None
    }

    /// The value under a name.
    pub fn get(&self, name: &String) -> (r: Option<&V>)
        requires
            self.wf(),
        ensures
            match r {
                Some(v) => self@.contains_key(name@) && v@ == self@[name@],
                None => !self@.contains_key(name@),
            },
    {
        match self.find(name) {
            Some(i) => {
                proof {
                    self.lemma_place(name@, i as int);
                }
                Some(&self.entries[i].1)
            },
            None => None,
        }
    }

    /// Put a value under a name, in place of the one that was there.
    pub fn insert(&mut self, name: String, v: V)
        requires
            old(self).wf(),
        ensures
            final(self).wf(),
            final(self)@ == old(self)@.insert(name@, v@),
            final(self).spec_len() == (if old(self)@.contains_key(name@) {
                old(self).spec_len()
            } else {
                old(self).spec_len() + 1
            }),
    {
        let ghost before = *self;
        let ghost key = name@;
        let ghost value = v@;
        let at: usize = match self.find(&name) {
            Some(i) => {
                proof {
                    self.lemma_place(key, i as int);
                }
                self.entries.set(i, (name, v));
                i
            },
            None => {
                let n: usize = self.entries.len();
                self.entries.push((name, v));
                n
            },
        };
        proof {
            assert forall|i: int, j: int| 0 <= i < j < self.entries@.len() implies (
            #[trigger] self.entries@[i]).0@ != (#[trigger] self.entries@[j]).0@ by {
                if i == at {
                    if before.holds(key, at as int) {
                        assert(before.entries@[i].0@ != before.entries@[j].0@);
                    }
                } else if j == at {
                    if before.holds(key, at as int) {
                        assert(before.entries@[i].0@ != before.entries@[j].0@);
                    } else {
                        assert(self.entries@[i] == before.entries@[i]);
                        if before.entries@[i].0@ == key {
                            assert(before.holds(key, i));
                            before.lemma_place(key, i);
                        }
                    }
                } else {
                    assert(before.entries@[i].0@ != before.entries@[j].0@);
                }
            }
            assert(self.holds(key, at as int));
            self.lemma_place(key, at as int);
            assert forall|n: Seq<char>| #[trigger]
                self@.contains_key(n) <==> before@.insert(key, value).contains_key(n) by {
                if n != key {
                    if before@.contains_key(n) {
                        let i = before.place(n);
                        assert(before.holds(n, i));
                        assert(self.holds(n, i));
                        self.lemma_place(n, i);
                    }
                    if self@.contains_key(n) {
                        let i = self.place(n);
                        assert(self.holds(n, i));
                        assert(before.holds(n, i));
                        before.lemma_place(n, i);
                    }
                }
            }
            assert forall|n: Seq<char>| #[trigger] self@.contains_key(n) implies self@[n]
                == before@.insert(key, value)[n] by {
                if n != key {
                    let i = self.place(n);
                    assert(self.holds(n, i));
                    assert(before.holds(n, i));
                    self.lemma_place(n, i);
                    before.lemma_place(n, i);
                }
            }
            assert(self@ =~= before@.insert(key, value));
        }
    }
}

impl<V: View> View for Table<V> {
    type V = Map<Seq<char>, V::V>;

    closed spec fn view(&self) -> Map<Seq<char>, V::V> {
        Map::new(
            |name: Seq<char>| exists|i: int| #[trigger] self.holds(name, i),
            |name: Seq<char>| self.entries@[self.place(name)].1@,
        )
    }
}

} // verus!
