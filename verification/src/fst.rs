//! Weighted transducers: states, and transitions between them with an input label, an output
//! label and a cost.

use vstd::prelude::*;

verus! {

/// A transition. Label 0 is the empty label; the weight is the bit pattern of a cost.
#[derive(Clone, Copy, PartialEq, Eq, Debug, Structural)]
pub struct Tr {
    pub ilabel: u32,
    pub olabel: u32,
    pub weight: u32,
    pub nextstate: u32,
}

/// A state: the transitions that leave it, and the cost of ending in it, if one may.
///
/// `trs` is absent where the table that the state came from points outside its transitions.
#[derive(Debug)]
pub struct FstState {
    pub trs: Option<Vec<Tr>>,
    pub final_weight: Option<u32>,
}

/// A transducer. A state is known by its place in `states`; a state past the end has no
/// transitions and may not end a path.
#[derive(Debug)]
pub struct Fst {
    pub start: Option<u32>,
    pub states: Vec<FstState>,
}

impl Fst {
    /// The transitions that leave state `s`.
    pub open spec fn trs_of(self, s: u32) -> Seq<Tr> {
        if s < self.states@.len() {
            match self.states@[s as int].trs {
                Some(v) => v@,
                None => Seq::empty(),
            }
        } else {
            Seq::empty()
        }
    }

    /// State `s` is listed, but its transitions are not.
    pub open spec fn broken(self, s: u32) -> bool {
        s < self.states@.len() && self.states@[s as int].trs is None
    }

    /// The cost of ending in state `s`.
    pub open spec fn final_of(self, s: u32) -> Option<u32> {
        if s < self.states@.len() {
            self.states@[s as int].final_weight
        } else {
            None
        }
    }

    /// The cost of ending in state `s`.
    pub fn final_weight(&self, s: u32) -> (w: Option<u32>)
        ensures
            w == self.final_of(s),
    {
        if (s as usize) < self.states.len() {
            self.states[s as usize].final_weight
        } else {
            None
        }
    }

    /// How many transitions leave state `s`, or `None` if they are missing.
    pub fn num_trs(&self, s: u32) -> (n: Option<usize>)
        ensures
            match n {
                Some(n) => !self.broken(s) && n == self.trs_of(s).len(),
                None => self.broken(s),
            },
    {
        if (s as usize) < self.states.len() {
            match &self.states[s as usize].trs {
                Some(v) => Some(v.len()),
                None => None,
            }
        } else {
            Some(0)
        }
    }

    /// The transition at place `i` of those that leave state `s`.
    pub fn tr(&self, s: u32, i: usize) -> (t: Tr)
        requires
            i < self.trs_of(s).len(),
        ensures
            t == self.trs_of(s)[i as int],
    {
        match &self.states[s as usize].trs {
            Some(v) => v[i],
            None => Tr { ilabel: 0, olabel: 0, weight: 0, nextstate: 0 },
        }
    }

    /// The largest input label, or `None` if the transitions of some state are missing.
    pub fn max_ilabel(&self) -> (r: Option<u32>)
        ensures
            match r {
                Some(m) => {
                    &&& forall|i: int|
                        0 <= i < self.states@.len() ==> (#[trigger] self.states@[i]).trs is Some
                    &&& forall|i: int, j: int|
                        0 <= i < self.states@.len() && 0 <= j < self.states@[i].trs->0@.len()
                            ==> (#[trigger] self.states@[i].trs->0@[j]).ilabel <= m
                    &&& m == 0 || exists|i: int, j: int|
                        0 <= i < self.states@.len() && 0 <= j < self.states@[i].trs->0@.len() && (
                        #[trigger] self.states@[i].trs->0@[j]).ilabel == m
                },
                None => exists|i: int|
                    0 <= i < self.states@.len() && (#[trigger] self.states@[i]).trs is None,
            },
    {
        let mut m: u32 = 0;
        let mut k: usize = 0;
        while k < self.states.len()
            invariant
                k <= self.states@.len(),
                forall|i: int| 0 <= i < k ==> (#[trigger] self.states@[i]).trs is Some,
                forall|i: int, j: int|
                    0 <= i < k && 0 <= j < self.states@[i].trs->0@.len()
                        ==> (#[trigger] self.states@[i].trs->0@[j]).ilabel <= m,
                m == 0 || exists|i: int, j: int|
                    0 <= i < k && 0 <= j < self.states@[i].trs->0@.len() && (
                    #[trigger] self.states@[i].trs->0@[j]).ilabel == m,
            decreases self.states@.len() - k,
        {
            let trs = match &self.states[k].trs {
                Some(v) => v,
                None => {
                    return None;
                },
            };
            let ghost before = m;
            let mut n: usize = 0;
            while n < trs.len()
                invariant
                    k < self.states@.len(),
                    self.states@[k as int].trs == Some(*trs),
                    n <= trs@.len(),
                    before <= m,
                    forall|j: int| 0 <= j < n ==> (#[trigger] trs@[j]).ilabel <= m,
                    m == before || exists|j: int| 0 <= j < n && (#[trigger] trs@[j]).ilabel == m,
                decreases trs@.len() - n,
            {
                if trs[n].ilabel > m {
                    m = trs[n].ilabel;
                }
                n = n + 1;
            }
            proof {
                if m != before {
                    let j = choose|j: int|
                        0 <= j < trs@.len() && (#[trigger] trs@[j]).ilabel == m;
                    assert(self.states@[k as int].trs->0@[j].ilabel == m);
                }
            }
            k = k + 1;
        }
        Some(m)
    }
}

} // verus!
