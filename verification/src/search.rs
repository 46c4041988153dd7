//! What a search through a transducer is asked for: paths, their costs, and the beam.
//!
//! The input labels of the transducer are transition-ids, 1-based. A transition with input label
//! 0 takes no time; any other takes one frame, and pays for it what the frame says about the
//! pdf-id that the transition-id stands for.

use vstd::prelude::*;

use crate::fst::{Fst, Tr};
use crate::single::{
    at_most, is_nan, less, negation, products, sums, Arith, INFINITY, ZERO,
};

verus! {

/// Everything that a search depends on.
pub ghost struct Problem {
    pub fst: Fst,
    /// The pdf-id of each transition-id.
    pub tid2pdf: Seq<i32>,
    /// The log-likelihood of each pdf-id, frame by frame.
    pub frames: Seq<Seq<u32>>,
    pub scale: u32,
    pub beam: u32,
    pub max_active: nat,
}

/// A transition taken, and the cost of the path up to and with it.
pub ghost struct Step {
    pub tr: Tr,
    pub cost: u32,
}

impl Problem {
    /// What frame `k` says about a transition-id, where both are known.
    pub open spec fn score(self, k: nat, ilabel: u32) -> Option<u32> {
        if ilabel < self.tid2pdf.len() && k < self.frames.len() && 0 <= self.tid2pdf[ilabel as int]
            < self.frames[k as int].len() {
            Some(self.frames[k as int][self.tid2pdf[ilabel as int] as int])
        } else {
            None
        }
    }
}

/// `c` is the cost of a transition of weight `w` out of a path of cost `base`, in a frame that
/// gives it the log-likelihood `ll`.
pub open spec fn emits<A: Arith>(base: u32, w: u32, ll: u32, scale: u32, c: u32) -> bool {
    exists|x: u32, y: u32|
        #![trigger sums::<A>(base, w, x), products::<A>(negation(ll), scale, y)]
        sums::<A>(base, w, x) && products::<A>(negation(ll), scale, y) && sums::<A>(x, y, c)
}

/// The state in which a path ends.
pub open spec fn end_state(p: Problem, path: Seq<Step>) -> u32 {
    if path.len() == 0 {
        p.fst.start->0
    } else {
        path.last().tr.nextstate
    }
}

/// The cost of a path.
pub open spec fn end_cost(path: Seq<Step>) -> u32 {
    if path.len() == 0 {
        ZERO
    } else {
        path.last().cost
    }
}

/// How many frames a path takes.
pub open spec fn frames_of(path: Seq<Step>) -> nat
    decreases path.len(),
{
    if path.len() == 0 {
        0
    } else {
        frames_of(path.drop_last()) + (if path.last().tr.ilabel == 0 {
            0nat
        } else {
            1nat
        })
    }
}

/// The output labels along a path, without the empty ones.
pub open spec fn words_of(path: Seq<Step>) -> Seq<u32>
    decreases path.len(),
{
    if path.len() == 0 {
        Seq::empty()
    } else if path.last().tr.olabel == 0 {
        words_of(path.drop_last())
    } else {
        words_of(path.drop_last()).push(path.last().tr.olabel)
    }
}

/// A path of cost `base` in state `s` after `k` frames may go on with `step`.
pub open spec fn may_step<A: Arith>(p: Problem, k: nat, s: u32, base: u32, step: Step) -> bool {
    &&& p.fst.trs_of(s).contains(step.tr)
    &&& if step.tr.ilabel == 0 {
        sums::<A>(base, step.tr.weight, step.cost)
    } else {
        &&& p.score(k, step.tr.ilabel) is Some
        &&& emits::<A>(
            base,
            step.tr.weight,
            p.score(k, step.tr.ilabel)->0,
            p.scale,
            step.cost,
        )
    }
}

/// A path from the start state.
pub open spec fn is_path<A: Arith>(p: Problem, path: Seq<Step>) -> bool
    decreases path.len(),
{
    if path.len() == 0 {
        p.fst.start is Some
    } else {
        let front = path.drop_last();
        &&& is_path::<A>(p, front)
        &&& may_step::<A>(p, frames_of(front), end_state(p, front), end_cost(front), path.last())
    }
}

/// A path of transitions that take no time, out of state `s` at cost `c`.
pub open spec fn is_idle<A: Arith>(p: Problem, s: u32, c: u32, q: Seq<Step>) -> bool
    decreases q.len(),
{
    if q.len() == 0 {
        true
    } else {
        let front = q.drop_last();
        &&& is_idle::<A>(p, s, c, front)
        &&& q.last().tr.ilabel == 0
        &&& p.fst.trs_of(idle_state(s, front)).contains(q.last().tr)
        &&& sums::<A>(idle_cost(c, front), q.last().tr.weight, q.last().cost)
    }
}

/// Where such a path ends.
pub open spec fn idle_state(s: u32, q: Seq<Step>) -> u32 {
    if q.len() == 0 {
        s
    } else {
        q.last().tr.nextstate
    }
}

/// What such a path comes to cost.
pub open spec fn idle_cost(c: u32, q: Seq<Step>) -> u32 {
    if q.len() == 0 {
        c
    } else {
        q.last().cost
    }
}

/// In frame `k`, out of the states and costs `f`, transition `tr` of state `s` comes to cost `c`.
pub open spec fn candidate<A: Arith>(
    p: Problem,
    k: nat,
    f: Map<u32, u32>,
    s: u32,
    tr: Tr,
    c: u32,
) -> bool {
    &&& f.contains_key(s)
    &&& tr.ilabel != 0
    &&& may_step::<A>(p, k, s, f[s], Step { tr, cost: c })
}

/// Some transition into `ns` comes to a cost that is no number.
#[verifier::opaque]
pub open spec fn spoiled<A: Arith>(p: Problem, k: nat, f: Map<u32, u32>, ns: u32) -> bool {
    exists|s: u32, tr: Tr, c: u32| #[trigger]
        candidate::<A>(p, k, f, s, tr, c) && tr.nextstate == ns && is_nan(c)
}

/// A transition is accounted for: the state that it leads to is in `n`, at its cost or less, and
/// its cost is no less than `best`.
#[verifier::opaque]
pub open spec fn offered<A: Arith>(
    p: Problem,
    k: nat,
    f: Map<u32, u32>,
    n: Map<u32, u32>,
    best: u32,
    s: u32,
    tr: Tr,
) -> bool {
    exists|c: u32| #[trigger]
        candidate::<A>(p, k, f, s, tr, c) && n.contains_key(tr.nextstate) && !less(c, best) && (
        at_most(n[tr.nextstate], c) || spoiled::<A>(p, k, f, tr.nextstate))
}

/// A state and cost that some transition leads to.
#[verifier::opaque]
pub open spec fn earned<A: Arith>(p: Problem, k: nat, f: Map<u32, u32>, ns: u32, c: u32) -> bool {
    exists|s: u32, tr: Tr| #[trigger]
        candidate::<A>(p, k, f, s, tr, c) && tr.nextstate == ns
}

/// One frame: `n` holds, for each state that a transition of frame `k` leads to out of `f`, the
/// least cost of such a transition, and `best` is the least cost of all.
pub open spec fn emission<A: Arith>(
    p: Problem,
    k: nat,
    f: Map<u32, u32>,
    n: Map<u32, u32>,
    best: u32,
) -> bool {
    &&& forall|ns: u32| #[trigger] n.contains_key(ns) ==> earned::<A>(p, k, f, ns, n[ns])
    &&& forall|s: u32, tr: Tr|
        f.contains_key(s) && #[trigger] p.fst.trs_of(s).contains(tr) && tr.ilabel != 0
            ==> offered::<A>(p, k, f, n, best, s, tr)
    &&& !is_nan(best)
    &&& best == INFINITY || exists|ns: u32| #[trigger] earned::<A>(p, k, f, ns, best)
}

/// The states of `n` whose cost is at most `cutoff`.
pub open spec fn within(n: Map<u32, u32>, cutoff: u32) -> Map<u32, u32> {
    Map::new(|s: u32| n.contains_key(s) && at_most(n[s], cutoff), |s: u32| n[s])
}

/// The beam: `b` keeps the states that cost at most `beam` more than `best`.
pub open spec fn pruned<A: Arith>(
    p: Problem,
    n: Map<u32, u32>,
    best: u32,
    b: Map<u32, u32>,
) -> bool {
    exists|cutoff: u32| #[trigger] sums::<A>(best, p.beam, cutoff) && b == within(n, cutoff)
}

/// `s` at cost `c` is reached out of `b` in no time.
#[verifier::opaque]
pub open spec fn drifts<A: Arith>(p: Problem, b: Map<u32, u32>, s: u32, c: u32) -> bool {
    exists|s0: u32, q: Seq<Step>|
        b.contains_key(s0) && #[trigger] is_idle::<A>(p, s0, b[s0], q) && idle_state(s0, q) == s
            && idle_cost(b[s0], q) == c
}

/// What is reached in no time leads on in no time.
pub proof fn lemma_drift_step<A: Arith>(p: Problem, b: Map<u32, u32>, s: u32, c: u32, tr: Tr, d: u32)
    requires
        drifts::<A>(p, b, s, c),
        p.fst.trs_of(s).contains(tr),
        tr.ilabel == 0,
        sums::<A>(c, tr.weight, d),
    ensures
        drifts::<A>(p, b, tr.nextstate, d),
{
    reveal(drifts);
    let (s0, q) = choose|s0: u32, q: Seq<Step>|
        b.contains_key(s0) && #[trigger] is_idle::<A>(p, s0, b[s0], q) && idle_state(s0, q) == s
            && idle_cost(b[s0], q) == c;
    let q2 = q.push(Step { tr, cost: d });
    assert(q2.drop_last() =~= q);
    assert(is_idle::<A>(p, s0, b[s0], q2));
}

/// What is there is reached in no time.
pub proof fn lemma_drift_start<A: Arith>(p: Problem, b: Map<u32, u32>, s: u32)
    requires
        b.contains_key(s),
    ensures
        drifts::<A>(p, b, s, b[s]),
{
    reveal(drifts);
    let q = Seq::<Step>::empty();
    assert(is_idle::<A>(p, s, b[s], q));
}

/// Some way to `s` out of `b` in no time comes to a cost that is no number.
#[verifier::opaque]
pub open spec fn tainted<A: Arith>(p: Problem, b: Map<u32, u32>, s: u32) -> bool {
    exists|c: u32| #[trigger] drifts::<A>(p, b, s, c) && is_nan(c)
}

/// `s` at cost `c` is reached out of `b` in no time, and not by a transition of `from`.
#[verifier::opaque]
pub open spec fn reached_past<A: Arith>(
    p: Problem,
    b: Map<u32, u32>,
    s: u32,
    c: u32,
    from: u32,
) -> bool {
    exists|s0: u32, q: Seq<Step>|
        {
            &&& b.contains_key(s0)
            &&& #[trigger] is_idle::<A>(p, s0, b[s0], q)
            &&& idle_state(s0, q) == s
            &&& idle_cost(b[s0], q) == c
            &&& q.len() == 0 || idle_state(s0, q.drop_last()) != from
        }
}

/// `ns` is reached out of `b` in no time, and leads on to `s` in no time: a transition from `s` to
/// `ns` that takes no time closes a cycle.
#[verifier::opaque]
pub open spec fn comes_round<A: Arith>(p: Problem, b: Map<u32, u32>, ns: u32, s: u32) -> bool {
    exists|c: u32, q: Seq<Step>|
        #![trigger drifts::<A>(p, b, ns, c), is_idle::<A>(p, ns, c, q)]
        drifts::<A>(p, b, ns, c) && is_idle::<A>(p, ns, c, q) && idle_state(ns, q) == s
}

/// Transition `i` of `s`, at cost `c` of `s`, comes after transition `j`, takes no time either,
/// leads to the same state, and comes to cost `d`.
pub open spec fn follows<A: Arith>(p: Problem, s: u32, c: u32, j: int, i: int, d: u32) -> bool {
    let trs = p.fst.trs_of(s);
    &&& j < i < trs.len()
    &&& trs[i].ilabel == 0
    &&& trs[i].nextstate == trs[j].nextstate
    &&& sums::<A>(c, trs[i].weight, d)
}

/// The state that transition `j` of `s` leads to is reached otherwise at a cost that is no number:
/// by a later transition of `s`, or by one of another state.
#[verifier::opaque]
pub open spec fn blotted<A: Arith>(
    p: Problem,
    b: Map<u32, u32>,
    s: u32,
    c: u32,
    j: int,
) -> bool {
    ||| exists|i: int, d: u32| #[trigger] follows::<A>(p, s, c, j, i, d) && is_nan(d)
    ||| exists|d: u32| #[trigger]
        reached_past::<A>(p, b, p.fst.trs_of(s)[j].nextstate, d, s) && is_nan(d)
}

/// The cost `x` is no more than that of a later transition of `s` than `j` to the same state.
pub open spec fn outdone<A: Arith>(p: Problem, s: u32, c: u32, j: int, x: u32) -> bool {
    exists|i: int, d: u32| #[trigger] follows::<A>(p, s, c, j, i, d) && at_most(x, d)
}

/// Transition `j` of `s`, at cost `c` of `s`, has been offered to the state that it leads to. A
/// cost that is a number has made that state cost no more; unless the state is reached otherwise at
/// a cost that is no number, which displaces any. A cost that is no number stands there; unless a
/// later transition of `s`, or one of another state, has put a number in its place, or it is turned
/// down because the transition closes a cycle.
#[verifier::opaque]
pub open spec fn heeded<A: Arith>(
    p: Problem,
    b: Map<u32, u32>,
    e: Map<u32, u32>,
    s: u32,
    c: u32,
    j: int,
) -> bool {
    let tr = p.fst.trs_of(s)[j];
    let ns = tr.nextstate;
    exists|d: u32| #[trigger]
        sums::<A>(c, tr.weight, d) && e.contains_key(ns) && if is_nan(d) {
            ||| is_nan(e[ns])
            ||| outdone::<A>(p, s, c, j, e[ns])
            ||| reached_past::<A>(p, b, ns, e[ns], s)
            ||| comes_round::<A>(p, b, ns, s)
        } else {
            at_most(e[ns], d) || blotted::<A>(p, b, s, c, j)
        }
}

/// The transitions of `s` are there, and those that take no time have been offered.
#[verifier::opaque]
pub open spec fn settled<A: Arith>(
    p: Problem,
    b: Map<u32, u32>,
    e: Map<u32, u32>,
    s: u32,
) -> bool {
    &&& !p.fst.broken(s)
    &&& forall|j: int|
        0 <= j < p.fst.trs_of(s).len() && (#[trigger] p.fst.trs_of(s)[j]).ilabel == 0
            ==> heeded::<A>(p, b, e, s, e[s], j)
}

/// Transitions that take no time, followed until nothing changes: `e` holds what `b` held, at no
/// greater cost, and what is reached from there.
pub open spec fn closed<A: Arith>(p: Problem, b: Map<u32, u32>, e: Map<u32, u32>) -> bool {
    &&& forall|s: u32| #[trigger]
        b.contains_key(s) ==> e.contains_key(s) && (at_most(e[s], b[s]) || tainted::<A>(p, b, s))
    &&& forall|s: u32| #[trigger] e.contains_key(s) ==> drifts::<A>(p, b, s, e[s])
    &&& forall|s: u32| #[trigger] e.contains_key(s) ==> settled::<A>(p, b, e, s)
}

/// Costs that can be put in order: all are numbers, or there is only one.
pub open spec fn in_order(e: Map<u32, u32>) -> bool {
    e.dom().len() <= 1 || forall|s: u32| #[trigger] e.contains_key(s) ==> !is_nan(e[s])
}

/// The cap on active states: `d` keeps `max` of the states of `e`, or all if there are no more
/// than that, and none that it keeps costs more than one that it drops.
pub open spec fn capped(e: Map<u32, u32>, max: nat, d: Map<u32, u32>) -> bool {
    &&& d.submap_of(e)
    &&& if e.dom().len() <= max {
        d == e
    } else {
        in_order(e) && d.dom().len() == max
    }
    &&& forall|s: u32, t: u32| #[trigger]
        d.contains_key(s) && #[trigger] e.contains_key(t) && !d.contains_key(t) ==> at_most(
            e[s],
            e[t],
        )
}

/// What a search holds after some frames: the states and costs that passed the beam, and those
/// that are kept once transitions that take no time have been followed.
pub ghost struct Stage {
    pub entered: Map<u32, u32>,
    pub kept: Map<u32, u32>,
}

/// The stage after `k` frames is done. The cap is for stages after a frame.
pub open spec fn finished<A: Arith>(p: Problem, k: int, st: Stage) -> bool {
    exists|e: Map<u32, u32>| #[trigger]
        closed::<A>(p, st.entered, e) && (if k == 0 {
            st.kept == e
        } else {
            capped(e, p.max_active, st.kept)
        })
}

/// Frame `k` leads from the states and costs `f` to those that pass the beam, `b`.
pub open spec fn passes<A: Arith>(
    p: Problem,
    k: nat,
    f: Map<u32, u32>,
    b: Map<u32, u32>,
) -> bool {
    exists|n: Map<u32, u32>, best: u32| #[trigger]
        emission::<A>(p, k, f, n, best) && pruned::<A>(p, n, best, b)
}

/// A search that has come to its last stage in `run` and may not be done with it.
pub open spec fn is_begun<A: Arith>(p: Problem, run: Seq<Stage>) -> bool {
    &&& 0 < run.len() <= p.frames.len() + 1
    &&& p.fst.start is Some
    &&& run[0].entered == map![p.fst.start->0 => ZERO]
    &&& forall|k: int|
        0 <= k < run.len() - 1 ==> finished::<A>(p, k, #[trigger] run[k]) && passes::<A>(
            p,
            k as nat,
            run[k].kept,
            run[k + 1].entered,
        )
}

/// A search through all frames.
pub open spec fn is_run<A: Arith>(p: Problem, run: Seq<Stage>) -> bool {
    &&& is_begun::<A>(p, run)
    &&& run.len() == p.frames.len() + 1
    &&& finished::<A>(p, run.len() - 1, run.last())
}

/// A path keeps to a search: whenever it takes a frame, the state that it leaves was kept before
/// that frame, at the cost that the path had there, and the state that it comes to passed the
/// beam, at the cost that it has there.
pub open spec fn keeps_to(p: Problem, run: Seq<Stage>, path: Seq<Step>) -> bool
    decreases path.len(),
{
    if path.len() == 0 {
        true
    } else {
        let front = path.drop_last();
        let k = frames_of(front) as int;
        &&& keeps_to(p, run, front)
        &&& path.last().tr.ilabel != 0 ==> {
            &&& k < run.len()
            &&& run[k].kept.contains_pair(end_state(p, front), end_cost(front))
            &&& k + 1 < run.len() ==> run[k + 1].entered.contains_pair(
                path.last().tr.nextstate,
                path.last().cost,
            )
        }
    }
}

/// `fc` holds the cost of ending in each state of `d` in which a path may end.
pub open spec fn final_costs<A: Arith>(
    p: Problem,
    d: Map<u32, u32>,
    fc: Map<u32, u32>,
) -> bool {
    &&& forall|s: u32| #[trigger]
        fc.contains_key(s) <==> d.contains_key(s) && p.fst.final_of(s) is Some
    &&& forall|s: u32| #[trigger]
        fc.contains_key(s) ==> sums::<A>(d[s], p.fst.final_of(s)->0, fc[s])
}

/// `s` has the least cost of `m`, and it is less than infinity.
pub open spec fn cheapest(m: Map<u32, u32>, s: u32) -> bool {
    &&& m.contains_key(s)
    &&& less(m[s], INFINITY)
    &&& forall|x: u32| #[trigger] m.contains_key(x) ==> !less(m[x], m[s])
}

/// No state of `m` costs less than infinity.
pub open spec fn hopeless(m: Map<u32, u32>) -> bool {
    forall|s: u32| #[trigger] m.contains_key(s) ==> !less(m[s], INFINITY)
}

/// The state in which the search ends: the cheapest one in which a path may end; if there is
/// none, the cheapest of all; if there is none either, nothing.
pub open spec fn ends_in<A: Arith>(p: Problem, d: Map<u32, u32>, s: Option<u32>) -> bool {
    exists|fc: Map<u32, u32>| #[trigger]
        final_costs::<A>(p, d, fc) && (match s {
            Some(s) => cheapest(fc, s) || (hopeless(fc) && cheapest(d, s)),
            None => hopeless(fc) && hopeless(d),
        })
}

/// `words` are those of a path through all frames that ends in state `s`, at the cost that the
/// search has for it, and keeps to the search on the way.
pub open spec fn spells<A: Arith>(
    p: Problem,
    run: Seq<Stage>,
    s: u32,
    words: Seq<u32>,
) -> bool {
    exists|path: Seq<Step>|
        {
            &&& #[trigger] is_path::<A>(p, path)
            &&& frames_of(path) == p.frames.len()
            &&& keeps_to(p, run, path)
            &&& end_state(p, path) == s
            &&& end_cost(path) == run.last().kept[s]
            &&& words_of(path) == words
        }
}

/// What the search may answer: the words of the path that a run of it ends with.
pub open spec fn is_answer<A: Arith>(p: Problem, words: Seq<u32>) -> bool {
    exists|run: Seq<Stage>, s: Option<u32>|
        #![trigger is_run::<A>(p, run), ends_in::<A>(p, run.last().kept, s)]
        is_run::<A>(p, run) && ends_in::<A>(p, run.last().kept, s) && (match s {
            Some(s) => spells::<A>(p, run, s, words),
            None => words.len() == 0,
        })
}

/// Why a search cannot go on.
#[derive(Clone, Copy, PartialEq, Eq, Debug, Structural)]
pub enum DecodeError {
    /// A state that was reached lacks its transitions.
    BrokenState,
    /// A transition that was reached has a transition-id that stands for no pdf-id.
    UnknownTransition,
    /// A transition that was reached has a pdf-id that the frame says nothing about.
    UnknownPdf,
    /// More states than may stay were reached, and a cost among theirs is no number.
    NotANumber,
}

/// A transition of a kept state is about to take the next frame, and its transition-id is none.
pub open spec fn meets_unknown_transition(p: Problem, run: Seq<Stage>, s: u32, tr: Tr) -> bool {
    &&& run.last().kept.contains_key(s)
    &&& p.fst.trs_of(s).contains(tr)
    &&& tr.ilabel != 0
    &&& tr.ilabel >= p.tid2pdf.len()
}

/// A transition of a kept state is about to take the next frame, which does not know its pdf-id.
pub open spec fn meets_unknown_pdf(p: Problem, run: Seq<Stage>, s: u32, tr: Tr) -> bool {
    &&& run.last().kept.contains_key(s)
    &&& p.fst.trs_of(s).contains(tr)
    &&& tr.ilabel != 0
    &&& tr.ilabel < p.tid2pdf.len()
    &&& p.score((run.len() - 1) as nat, tr.ilabel) is None
}

/// The states reached are too many, and their costs cannot be put in order.
pub open spec fn meets_no_order<A: Arith>(p: Problem, run: Seq<Stage>, e: Map<u32, u32>) -> bool {
    &&& run.len() > 1
    &&& closed::<A>(p, run.last().entered, e)
    &&& e.dom().len() > p.max_active
    &&& !in_order(e)
}

/// The last stage of a search that has come so far leads to what `e` reports: to a state reached
/// there in no time, or, once the stage is done, to a transition that takes the next frame.
pub open spec fn fails<A: Arith>(p: Problem, run: Seq<Stage>, e: DecodeError) -> bool {
    match e {
        DecodeError::BrokenState => exists|s: u32, c: u32| #[trigger]
            drifts::<A>(p, run.last().entered, s, c) && p.fst.broken(s),
        DecodeError::NotANumber => exists|e: Map<u32, u32>| #[trigger]
            meets_no_order::<A>(p, run, e),
        DecodeError::UnknownTransition => run.len() <= p.frames.len() && finished::<A>(
            p,
            run.len() - 1,
            run.last(),
        ) && exists|s: u32, tr: Tr| #[trigger] meets_unknown_transition(p, run, s, tr),
        DecodeError::UnknownPdf => run.len() <= p.frames.len() && finished::<A>(
            p,
            run.len() - 1,
            run.last(),
        ) && exists|s: u32, tr: Tr| #[trigger] meets_unknown_pdf(p, run, s, tr),
    }
}

/// Some search comes to what `e` reports.
pub open spec fn is_fault<A: Arith>(p: Problem, e: DecodeError) -> bool {
    exists|run: Seq<Stage>| #[trigger] is_begun::<A>(p, run) && fails::<A>(p, run, e)
}

} // verus!
