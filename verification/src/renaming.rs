//! What a search answers does not depend on how pdf-ids are numbered.

use vstd::prelude::*;

use crate::fst::Tr;
use crate::search::{
    blotted, candidate, capped, cheapest, closed, comes_round, drifts, earned, emission, end_cost,
    end_state, ends_in, fails, final_costs, finished, follows, frames_of, heeded, hopeless,
    idle_cost, idle_state, is_answer, is_begun, is_fault, is_idle, is_path, is_run, keeps_to,
    may_step, meets_no_order, meets_unknown_pdf, meets_unknown_transition, offered, outdone, passes,
    pruned, reached_past, settled, spells, spoiled, tainted, words_of, DecodeError, Problem, Stage,
    Step,
};
use crate::single::{at_most, is_nan, less, sums, Arith, INFINITY};

verus! {

/// Two searches that differ in nothing but the numbers of pdf-ids: frames say the same about every
/// transition-id.
pub open spec fn same_scores(p: Problem, q: Problem) -> bool {
    &&& p.fst == q.fst
    &&& p.tid2pdf.len() == q.tid2pdf.len()
    &&& p.frames.len() == q.frames.len()
    &&& p.scale == q.scale
    &&& p.beam == q.beam
    &&& p.max_active == q.max_active
    &&& forall|k: nat, l: u32| l != 0 ==> #[trigger] p.score(k, l) == q.score(k, l)
}

/// `q` is `p` with every pdf-id `j` renamed to `to(j)`, in the table of transition-ids and in the
/// frames. Entry 0 of the table stands for no transition-id.
pub open spec fn renames(p: Problem, q: Problem, to: spec_fn(int) -> int) -> bool {
    &&& p.fst == q.fst
    &&& p.tid2pdf.len() == q.tid2pdf.len()
    &&& p.frames.len() == q.frames.len()
    &&& p.scale == q.scale
    &&& p.beam == q.beam
    &&& p.max_active == q.max_active
    &&& forall|t: int|
        1 <= t < p.tid2pdf.len() ==> #[trigger] q.tid2pdf[t] == to(p.tid2pdf[t] as int)
    &&& forall|k: int|
        0 <= k < p.frames.len() ==> (#[trigger] q.frames[k]).len() == p.frames[k].len()
    &&& forall|k: int, j: int|
        0 <= k < p.frames.len() ==> (0 <= j < p.frames[k].len() <==> 0 <= to(j)
            < p.frames[k].len()) && (0 <= j < p.frames[k].len() ==> #[trigger] p.frames[k][j]
            == q.frames[k][to(j)])
}

proof fn lemma_renamed(p: Problem, q: Problem, to: spec_fn(int) -> int)
    requires
        renames(p, q, to),
    ensures
        same_scores(p, q),
{
    assert forall|k: nat, l: u32| l != 0 implies #[trigger] p.score(k, l) == q.score(k, l) by {
        if l < p.tid2pdf.len() && k < p.frames.len() {
            let j = p.tid2pdf[l as int] as int;
            assert(q.tid2pdf[l as int] == to(j));
            let x = p.frames[k as int][j];
            assert(q.frames[k as int].len() == p.frames[k as int].len());
        }
    }
}

proof fn lemma_candidates<A: Arith>(p: Problem, q: Problem)
    requires
        same_scores(p, q),
    ensures
        forall|k: nat, f: Map<u32, u32>, s: u32, tr: Tr, c: u32| #[trigger]
            candidate::<A>(p, k, f, s, tr, c) ==> candidate::<A>(q, k, f, s, tr, c),
{
    assert forall|k: nat, f: Map<u32, u32>, s: u32, tr: Tr, c: u32| #[trigger]
        candidate::<A>(p, k, f, s, tr, c) implies candidate::<A>(q, k, f, s, tr, c) by {
        assert(p.score(k, tr.ilabel) == q.score(k, tr.ilabel));
    }
}

proof fn lemma_emission<A: Arith>(
    p: Problem,
    q: Problem,
    k: nat,
    f: Map<u32, u32>,
    n: Map<u32, u32>,
    best: u32,
)
    requires
        same_scores(p, q),
        emission::<A>(p, k, f, n, best),
    ensures
        emission::<A>(q, k, f, n, best),
{
    reveal(offered);
    reveal(earned);
    reveal(spoiled);
    lemma_candidates::<A>(p, q);
    assert forall|ns: u32| #[trigger] spoiled::<A>(p, k, f, ns) implies spoiled::<A>(
        q,
        k,
        f,
        ns,
    ) by {
        let (s, tr, c) = choose|s: u32, tr: Tr, c: u32| #[trigger]
            candidate::<A>(p, k, f, s, tr, c) && tr.nextstate == ns && is_nan(c);
        assert(candidate::<A>(q, k, f, s, tr, c));
    }
    assert forall|ns: u32, c: u32| #[trigger] earned::<A>(p, k, f, ns, c) implies earned::<A>(
        q,
        k,
        f,
        ns,
        c,
    ) by {
        let (s, tr) = choose|s: u32, tr: Tr| #[trigger]
            candidate::<A>(p, k, f, s, tr, c) && tr.nextstate == ns;
        assert(candidate::<A>(q, k, f, s, tr, c));
    }
    assert forall|s: u32, tr: Tr|
        f.contains_key(s) && #[trigger] q.fst.trs_of(s).contains(tr) && tr.ilabel
            != 0 implies offered::<A>(q, k, f, n, best, s, tr) by {
        assert(p.fst.trs_of(s).contains(tr));
        assert(offered::<A>(p, k, f, n, best, s, tr));
        let c = choose|c: u32| #[trigger]
            candidate::<A>(p, k, f, s, tr, c) && n.contains_key(tr.nextstate) && !less(c, best) && (
            at_most(n[tr.nextstate], c) || spoiled::<A>(p, k, f, tr.nextstate));
        assert(candidate::<A>(q, k, f, s, tr, c));
        if spoiled::<A>(p, k, f, tr.nextstate) {
            assert(spoiled::<A>(q, k, f, tr.nextstate));
        }
    }
    if best != INFINITY {
        let ns = choose|ns: u32| #[trigger] earned::<A>(p, k, f, ns, best);
        assert(earned::<A>(q, k, f, ns, best));
    }
}

proof fn lemma_idle<A: Arith>(p: Problem, q: Problem, s: u32, c: u32, way: Seq<Step>)
    requires
        same_scores(p, q),
        is_idle::<A>(p, s, c, way),
    ensures
        is_idle::<A>(q, s, c, way),
    decreases way.len(),
{
    if way.len() > 0 {
        lemma_idle::<A>(p, q, s, c, way.drop_last());
    }
}

proof fn lemma_drifts<A: Arith>(p: Problem, q: Problem, b: Map<u32, u32>, s: u32, c: u32)
    requires
        same_scores(p, q),
        drifts::<A>(p, b, s, c),
    ensures
        drifts::<A>(q, b, s, c),
{
    reveal(drifts);
    let (s0, way) = choose|s0: u32, way: Seq<Step>|
        b.contains_key(s0) && #[trigger] is_idle::<A>(p, s0, b[s0], way) && idle_state(s0, way) == s
            && idle_cost(b[s0], way) == c;
    lemma_idle::<A>(p, q, s0, b[s0], way);
}

proof fn lemma_reached_past<A: Arith>(
    p: Problem,
    q: Problem,
    b: Map<u32, u32>,
    s: u32,
    c: u32,
    from: u32,
)
    requires
        same_scores(p, q),
        reached_past::<A>(p, b, s, c, from),
    ensures
        reached_past::<A>(q, b, s, c, from),
{
    reveal(reached_past);
    let (s0, way) = choose|s0: u32, way: Seq<Step>|
        {
            &&& b.contains_key(s0)
            &&& #[trigger] is_idle::<A>(p, s0, b[s0], way)
            &&& idle_state(s0, way) == s
            &&& idle_cost(b[s0], way) == c
            &&& way.len() == 0 || idle_state(s0, way.drop_last()) != from
        };
    lemma_idle::<A>(p, q, s0, b[s0], way);
}

proof fn lemma_heeded<A: Arith>(
    p: Problem,
    q: Problem,
    b: Map<u32, u32>,
    e: Map<u32, u32>,
    s: u32,
    c: u32,
    j: int,
)
    requires
        same_scores(p, q),
        heeded::<A>(p, b, e, s, c, j),
    ensures
        heeded::<A>(q, b, e, s, c, j),
{
    let tr = p.fst.trs_of(s)[j];
    let ns = tr.nextstate;
    assert forall|i: int, d: u32| #[trigger] follows::<A>(p, s, c, j, i, d) implies follows::<A>(
        q,
        s,
        c,
        j,
        i,
        d,
    ) by {}
    if blotted::<A>(p, b, s, c, j) {
        assert(blotted::<A>(q, b, s, c, j)) by {
            reveal(blotted);
            if exists|i: int, d: u32| #[trigger] follows::<A>(p, s, c, j, i, d) && is_nan(d) {
                let (i, d) = choose|i: int, d: u32| #[trigger]
                    follows::<A>(p, s, c, j, i, d) && is_nan(d);
                assert(follows::<A>(q, s, c, j, i, d));
            } else {
                let d = choose|d: u32| #[trigger] reached_past::<A>(p, b, ns, d, s) && is_nan(d);
                lemma_reached_past::<A>(p, q, b, ns, d, s);
            }
        }
    }
    if outdone::<A>(p, s, c, j, e[ns]) {
        let (i, d) = choose|i: int, d: u32| #[trigger]
            follows::<A>(p, s, c, j, i, d) && at_most(e[ns], d);
        assert(follows::<A>(q, s, c, j, i, d));
    }
    if reached_past::<A>(p, b, ns, e[ns], s) {
        lemma_reached_past::<A>(p, q, b, ns, e[ns], s);
    }
    if comes_round::<A>(p, b, ns, s) {
        assert(comes_round::<A>(q, b, ns, s)) by {
            reveal(comes_round);
            let (d, way) = choose|d: u32, way: Seq<Step>|
                #![trigger drifts::<A>(p, b, ns, d), is_idle::<A>(p, ns, d, way)]
                drifts::<A>(p, b, ns, d) && is_idle::<A>(p, ns, d, way) && idle_state(ns, way) == s;
            lemma_drifts::<A>(p, q, b, ns, d);
            lemma_idle::<A>(p, q, ns, d, way);
        }
    }
    reveal(heeded);
    let d = choose|d: u32| #[trigger]
        sums::<A>(c, tr.weight, d) && e.contains_key(ns) && if is_nan(d) {
            ||| is_nan(e[ns])
            ||| outdone::<A>(p, s, c, j, e[ns])
            ||| reached_past::<A>(p, b, ns, e[ns], s)
            ||| comes_round::<A>(p, b, ns, s)
        } else {
            at_most(e[ns], d) || blotted::<A>(p, b, s, c, j)
        };
    assert(sums::<A>(c, q.fst.trs_of(s)[j].weight, d));
}

proof fn lemma_closed<A: Arith>(p: Problem, q: Problem, b: Map<u32, u32>, e: Map<u32, u32>)
    requires
        same_scores(p, q),
        closed::<A>(p, b, e),
    ensures
        closed::<A>(q, b, e),
{
    assert forall|s: u32| #[trigger] tainted::<A>(p, b, s) implies tainted::<A>(q, b, s) by {
        reveal(tainted);
        let c = choose|c: u32| #[trigger] drifts::<A>(p, b, s, c) && is_nan(c);
        lemma_drifts::<A>(p, q, b, s, c);
    }
    assert forall|s: u32| #[trigger] e.contains_key(s) implies drifts::<A>(q, b, s, e[s]) by {
        lemma_drifts::<A>(p, q, b, s, e[s]);
    }
    assert forall|s: u32| #[trigger] e.contains_key(s) implies settled::<A>(q, b, e, s) by {
        assert(settled::<A>(p, b, e, s));
        reveal(settled);
        assert forall|j: int|
            0 <= j < q.fst.trs_of(s).len() && (#[trigger] q.fst.trs_of(s)[j]).ilabel
                == 0 implies heeded::<A>(q, b, e, s, e[s], j) by {
            assert(p.fst.trs_of(s)[j].ilabel == 0);
            lemma_heeded::<A>(p, q, b, e, s, e[s], j);
        }
    }
}

proof fn lemma_stage<A: Arith>(p: Problem, q: Problem, k: int, st: Stage)
    requires
        same_scores(p, q),
        finished::<A>(p, k, st),
    ensures
        finished::<A>(q, k, st),
{
    let e = choose|e: Map<u32, u32>| #[trigger]
        closed::<A>(p, st.entered, e) && (if k == 0 {
            st.kept == e
        } else {
            capped(e, p.max_active, st.kept)
        });
    lemma_closed::<A>(p, q, st.entered, e);
}

proof fn lemma_begun<A: Arith>(p: Problem, q: Problem, run: Seq<Stage>)
    requires
        same_scores(p, q),
        is_begun::<A>(p, run),
    ensures
        is_begun::<A>(q, run),
{
    assert forall|k: int| 0 <= k < run.len() - 1 implies finished::<A>(q, k, #[trigger] run[k])
        && passes::<A>(q, k as nat, run[k].kept, run[k + 1].entered) by {
        let f = run[k].kept;
        let b = run[k + 1].entered;
        lemma_stage::<A>(p, q, k, run[k]);
        assert(passes::<A>(p, k as nat, f, b));
        let (n, best) = choose|n: Map<u32, u32>, best: u32| #[trigger]
            emission::<A>(p, k as nat, f, n, best) && pruned::<A>(p, n, best, b);
        lemma_emission::<A>(p, q, k as nat, f, n, best);
        assert(pruned::<A>(q, n, best, b));
    }
}

proof fn lemma_path<A: Arith>(p: Problem, q: Problem, run: Seq<Stage>, path: Seq<Step>)
    requires
        same_scores(p, q),
        is_path::<A>(p, path),
        keeps_to(p, run, path),
    ensures
        is_path::<A>(q, path),
        keeps_to(q, run, path),
        end_state(q, path) == end_state(p, path),
    decreases path.len(),
{
    if path.len() > 0 {
        let front = path.drop_last();
        lemma_path::<A>(p, q, run, front);
        let step = path.last();
        assert(may_step::<A>(p, frames_of(front), end_state(p, front), end_cost(front), step));
        assert(p.score(frames_of(front), step.tr.ilabel) == q.score(
            frames_of(front),
            step.tr.ilabel,
        ) || step.tr.ilabel == 0);
    }
}

proof fn lemma_answer<A: Arith>(p: Problem, q: Problem, words: Seq<u32>)
    requires
        same_scores(p, q),
        is_answer::<A>(p, words),
    ensures
        is_answer::<A>(q, words),
{
    let (run, end) = choose|run: Seq<Stage>, s: Option<u32>|
        #![trigger is_run::<A>(p, run), ends_in::<A>(p, run.last().kept, s)]
        is_run::<A>(p, run) && ends_in::<A>(p, run.last().kept, s) && (match s {
            Some(s) => spells::<A>(p, run, s, words),
            None => words.len() == 0,
        });
    lemma_begun::<A>(p, q, run);
    lemma_stage::<A>(p, q, run.len() - 1, run.last());
    assert(is_run::<A>(q, run));
    let d = run.last().kept;
    let fc = choose|fc: Map<u32, u32>| #[trigger]
        final_costs::<A>(p, d, fc) && (match end {
            Some(s) => cheapest(fc, s) || (hopeless(fc) && cheapest(d, s)),
            None => hopeless(fc) && hopeless(d),
        });
    assert(final_costs::<A>(q, d, fc));
    assert(ends_in::<A>(q, d, end));
    if let Some(s) = end {
        let path = choose|path: Seq<Step>|
            {
                &&& #[trigger] is_path::<A>(p, path)
                &&& frames_of(path) == p.frames.len()
                &&& keeps_to(p, run, path)
                &&& end_state(p, path) == s
                &&& end_cost(path) == run.last().kept[s]
                &&& words_of(path) == words
            };
        lemma_path::<A>(p, q, run, path);
        assert(spells::<A>(q, run, s, words));
    }
}

proof fn lemma_fault<A: Arith>(p: Problem, q: Problem, e: DecodeError)
    requires
        same_scores(p, q),
        is_fault::<A>(p, e),
    ensures
        is_fault::<A>(q, e),
{
    let run = choose|run: Seq<Stage>| #[trigger]
        is_begun::<A>(p, run) && fails::<A>(p, run, e);
    lemma_begun::<A>(p, q, run);
    let b = run.last().entered;
    match e {
        DecodeError::BrokenState => {
            let (s, c) = choose|s: u32, c: u32| #[trigger]
                drifts::<A>(p, b, s, c) && p.fst.broken(s);
            lemma_drifts::<A>(p, q, b, s, c);
        },
        DecodeError::NotANumber => {
            let m = choose|m: Map<u32, u32>| #[trigger] meets_no_order::<A>(p, run, m);
            lemma_closed::<A>(p, q, b, m);
            assert(meets_no_order::<A>(q, run, m));
        },
        DecodeError::UnknownTransition => {
            lemma_stage::<A>(p, q, run.len() - 1, run.last());
            let (s, tr) = choose|s: u32, tr: Tr| #[trigger]
                meets_unknown_transition(p, run, s, tr);
            assert(meets_unknown_transition(q, run, s, tr));
        },
        DecodeError::UnknownPdf => {
            lemma_stage::<A>(p, q, run.len() - 1, run.last());
            let (s, tr) = choose|s: u32, tr: Tr| #[trigger] meets_unknown_pdf(p, run, s, tr);
            let k = (run.len() - 1) as nat;
            assert(p.score(k, tr.ilabel) == q.score(k, tr.ilabel));
            assert(meets_unknown_pdf(q, run, s, tr));
        },
    }
    assert(fails::<A>(q, run, e));
}

proof fn lemma_turned(p: Problem, q: Problem)
    requires
        same_scores(p, q),
    ensures
        same_scores(q, p),
{
    assert forall|k: nat, l: u32| l != 0 implies #[trigger] q.score(k, l) == p.score(k, l) by {
        assert(p.score(k, l) == q.score(k, l));
    }
}

/// Renaming the pdf-ids, in the table of transition-ids and in the frames alike, changes neither
/// what a search may answer nor what it may fail on.
pub proof fn law_renaming<A: Arith>(
    p: Problem,
    q: Problem,
    to: spec_fn(int) -> int,
    words: Seq<u32>,
    e: DecodeError,
)
    requires
        renames(p, q, to),
    ensures
        is_answer::<A>(p, words) <==> is_answer::<A>(q, words),
        is_fault::<A>(p, e) <==> is_fault::<A>(q, e),
{
    lemma_renamed(p, q, to);
    lemma_turned(p, q);
    if is_answer::<A>(p, words) {
        lemma_answer::<A>(p, q, words);
    }
    if is_answer::<A>(q, words) {
        lemma_answer::<A>(q, p, words);
    }
    if is_fault::<A>(p, e) {
        lemma_fault::<A>(p, q, e);
    }
    if is_fault::<A>(q, e) {
        lemma_fault::<A>(q, p, e);
    }
}

} // verus!
