//! When the parts of a model fit together: the labels of the transducer, the transition model and
//! the width of the log-likelihoods.

use vstd::prelude::*;

use crate::fst::{Fst, Tr};
use crate::search::{
    fails, is_begun, is_fault, meets_unknown_pdf, meets_unknown_transition, DecodeError, Problem,
    Stage,
};
use crate::single::Arith;
use crate::transition_model::{count_pdfs, law_pdfs_in_range, pdfs_of, Tuple};

verus! {

/// Every input label of the transducer is below `n`.
pub open spec fn labels_below(f: Fst, n: nat) -> bool {
    forall|s: u32, t: Tr| #[trigger] f.trs_of(s).contains(t) ==> t.ilabel < n
}

/// The transitions and the final cost of a state are those that stand at its place.
pub proof fn law_states(f: Fst, s: u32)
    ensures
        s < f.states@.len() ==> f.final_of(s) == f.states@[s as int].final_weight,
        s < f.states@.len() && f.states@[s as int].trs is Some ==> f.trs_of(s)
            == f.states@[s as int].trs->0@,
        s < f.states@.len() ==> f.broken(s) == (f.states@[s as int].trs is None),
        s >= f.states@.len() ==> f.final_of(s) is None && f.trs_of(s).len() == 0 && !f.broken(s),
{
}

/// A transducer whose largest input label is `m` has labels below `m + 1`.
pub proof fn law_max_label(f: Fst, m: u32)
    requires
        forall|i: int, j: int|
            0 <= i < f.states@.len() && 0 <= j < f.states@[i].trs->0@.len() ==> (
            #[trigger] f.states@[i].trs->0@[j]).ilabel <= m,
    ensures
        labels_below(f, (m + 1) as nat),
{
    assert forall|s: u32, t: Tr| #[trigger] f.trs_of(s).contains(t) implies t.ilabel < m + 1 by {
        let j = choose|j: int| 0 <= j < f.trs_of(s).len() && f.trs_of(s)[j] == t;
        assert(f.states@[s as int].trs->0@[j].ilabel <= m);
    }
}

/// Where every input label is a transition-id, no search meets one that it does not know.
pub proof fn law_known_transitions<A: Arith>(p: Problem)
    requires
        labels_below(p.fst, p.tid2pdf.len()),
    ensures
        !is_fault::<A>(p, DecodeError::UnknownTransition),
{
    if is_fault::<A>(p, DecodeError::UnknownTransition) {
        let run = choose|run: Seq<Stage>| #[trigger]
            is_begun::<A>(p, run) && fails::<A>(p, run, DecodeError::UnknownTransition);
        let (s, tr) = choose|s: u32, tr: Tr| #[trigger] meets_unknown_transition(p, run, s, tr);
        assert(p.fst.trs_of(s).contains(tr));
    }
}

/// Where frames are as wide as the transition model has pdf-ids, and none of these is negative, no
/// search meets a pdf-id that a frame says nothing about.
pub proof fn law_known_pdfs<A: Arith>(p: Problem, ts: Seq<Tuple>)
    requires
        p.tid2pdf == pdfs_of(ts),
        forall|i: int|
            0 <= i < ts.len() ==> (#[trigger] ts[i]).forward >= 0 && ts[i].self_loop >= 0,
        forall|k: int| 0 <= k < p.frames.len() ==> (#[trigger] p.frames[k]).len() >= count_pdfs(ts),
    ensures
        !is_fault::<A>(p, DecodeError::UnknownPdf),
{
    if is_fault::<A>(p, DecodeError::UnknownPdf) {
        let run = choose|run: Seq<Stage>| #[trigger]
            is_begun::<A>(p, run) && fails::<A>(p, run, DecodeError::UnknownPdf);
        let (s, tr) = choose|s: u32, tr: Tr| #[trigger] meets_unknown_pdf(p, run, s, tr);
        law_pdfs_in_range(ts, tr.ilabel as int);
        assert(p.frames[run.len() - 1].len() >= count_pdfs(ts));
    }
}

} // verus!
