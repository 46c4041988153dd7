//! What the search finds: where nothing is pruned, the best path there is.

use vstd::prelude::*;

use crate::fst::{Fst, Tr};
use crate::search::{
    blotted, candidate, capped, cheapest, closed, comes_round, drifts, earned, emission, emits,
    end_cost, end_state, ends_in, final_costs, finished, follows, frames_of, heeded, hopeless,
    idle_cost, idle_state, is_answer, is_idle, is_path, is_run, keeps_to, lemma_drift_step,
    may_step, offered, outdone, passes, pruned, reached_past, settled, spells, spoiled, tainted,
    words_of, Problem, Stage, Step,
};
use crate::single::{at_most, is_nan, less, negation, products, sums, Arith, INFINITY, ZERO};

verus! {

/// Arithmetic that respects order, as rounding does: a greater operand does not give a smaller
/// sum, an operand that is no number gives no number, and a product has one value if it has one.
pub open spec fn orderly<A: Arith>() -> bool {
    &&& forall|a: u32, b: u32, w: u32, r: u32, t: u32|
        at_most(a, b) && #[trigger] sums::<A>(a, w, r) && #[trigger] sums::<A>(b, w, t) && !is_nan(
            r,
        ) && !is_nan(t) ==> at_most(r, t)
    &&& forall|a: u32, b: u32, r: u32| #[trigger]
        sums::<A>(a, b, r) && (is_nan(a) || is_nan(b)) ==> is_nan(r)
    &&& forall|a: u32, b: u32, r: u32, t: u32| #[trigger]
        products::<A>(a, b, r) && #[trigger] products::<A>(a, b, t) ==> r == t || (is_nan(r)
            && is_nan(t))
}

/// Frame `k` leads from `f` to `b`, drops no state and meets no cost that is no number.
pub open spec fn passes_fully<A: Arith>(
    p: Problem,
    k: nat,
    f: Map<u32, u32>,
    b: Map<u32, u32>,
) -> bool {
    &&& exists|best: u32| #[trigger] emission::<A>(p, k, f, b, best)
    &&& forall|ns: u32| !#[trigger] spoiled::<A>(p, k, f, ns)
}

/// A stage drops no state, and no way in it comes to a cost that is no number.
pub open spec fn keeps_all<A: Arith>(p: Problem, st: Stage) -> bool {
    &&& closed::<A>(p, st.entered, st.kept)
    &&& forall|s: u32| !#[trigger] tainted::<A>(p, st.entered, s)
}

/// A run that drops no state and meets no cost that is no number.
pub open spec fn is_full_run<A: Arith>(p: Problem, run: Seq<Stage>) -> bool {
    &&& is_run::<A>(p, run)
    &&& forall|k: int| 0 <= k < run.len() ==> keeps_all::<A>(p, #[trigger] run[k])
    &&& forall|k: int|
        0 <= k < p.frames.len() ==> passes_fully::<A>(
            p,
            k as nat,
            (#[trigger] run[k]).kept,
            run[k + 1].entered,
        )
}

/// Every cost along a path is a number.
pub open spec fn numeric(path: Seq<Step>) -> bool {
    forall|i: int| 0 <= i < path.len() ==> !is_nan((#[trigger] path[i]).cost)
}

pub(crate) proof fn lemma_emits_orderly<A: Arith>(
    a: u32,
    b: u32,
    w: u32,
    ll: u32,
    scale: u32,
    c: u32,
    d: u32,
)
    requires
        orderly::<A>(),
        at_most(a, b),
        emits::<A>(a, w, ll, scale, c),
        emits::<A>(b, w, ll, scale, d),
        !is_nan(c),
        !is_nan(d),
    ensures
        at_most(c, d),
{
    let (x1, y1) = choose|x: u32, y: u32|
        #![trigger sums::<A>(a, w, x), products::<A>(negation(ll), scale, y)]
        sums::<A>(a, w, x) && products::<A>(negation(ll), scale, y) && sums::<A>(x, y, c);
    let (x2, y2) = choose|x: u32, y: u32|
        #![trigger sums::<A>(b, w, x), products::<A>(negation(ll), scale, y)]
        sums::<A>(b, w, x) && products::<A>(negation(ll), scale, y) && sums::<A>(x, y, d);
    assert(y1 == y2);
    assert(at_most(x1, x2));
}

/// Where no way comes to a cost that is no number, a transition that takes no time has made the
/// state that it leads to cost no more than it does.
pub(crate) proof fn lemma_idle_offer<A: Arith>(
    p: Problem,
    b: Map<u32, u32>,
    e: Map<u32, u32>,
    s: u32,
    tr: Tr,
) -> (d: u32)
    requires
        closed::<A>(p, b, e),
        e.contains_key(s),
        p.fst.trs_of(s).contains(tr),
        tr.ilabel == 0,
        !tainted::<A>(p, b, tr.nextstate),
    ensures
        sums::<A>(e[s], tr.weight, d),
        e.contains_key(tr.nextstate),
        at_most(e[tr.nextstate], d),
{
    let ns = tr.nextstate;
    let trs = p.fst.trs_of(s);
    let j = choose|j: int| 0 <= j < trs.len() && trs[j] == tr;
    assert(settled::<A>(p, b, e, s));
    reveal(settled);
    assert(trs[j].ilabel == 0);
    reveal(heeded);
    let d = choose|d: u32| #[trigger]
        sums::<A>(e[s], tr.weight, d) && e.contains_key(ns) && if is_nan(d) {
            ||| is_nan(e[ns])
            ||| outdone::<A>(p, s, e[s], j, e[ns])
            ||| reached_past::<A>(p, b, ns, e[ns], s)
            ||| comes_round::<A>(p, b, ns, s)
        } else {
            at_most(e[ns], d) || blotted::<A>(p, b, s, e[s], j)
        };
    reveal(tainted);
    lemma_drift_step::<A>(p, b, s, e[s], tr, d);
    if blotted::<A>(p, b, s, e[s], j) {
        reveal(blotted);
        if exists|i: int, x: u32| #[trigger] follows::<A>(p, s, e[s], j, i, x) && is_nan(x) {
            let (i, x) = choose|i: int, x: u32| #[trigger]
                follows::<A>(p, s, e[s], j, i, x) && is_nan(x);
            lemma_drift_step::<A>(p, b, s, e[s], trs[i], x);
        } else {
            let x = choose|x: u32| #[trigger] reached_past::<A>(p, b, ns, x, s) && is_nan(x);
            assert(drifts::<A>(p, b, ns, x)) by {
                reveal(reached_past);
                reveal(drifts);
            }
        }
    }
    d
}

/// After each frame of such a run every state that a path leads to is there, at no more than the
/// cost of that path.
pub proof fn law_no_path_is_cheaper<A: Arith>(
    p: Problem,
    run: Seq<Stage>,
    path: Seq<Step>,
)
    requires
        orderly::<A>(),
        is_full_run::<A>(p, run),
        is_path::<A>(p, path),
        numeric(path),
    ensures
        frames_of(path) <= p.frames.len(),
        run[frames_of(path) as int].kept.contains_key(end_state(p, path)),
        at_most(run[frames_of(path) as int].kept[end_state(p, path)], end_cost(path)),
    decreases path.len(),
{
    if path.len() == 0 {
        let b = map![p.fst.start->0 => ZERO];
        assert(keeps_all::<A>(p, run[0]));
        assert(b.contains_key(p.fst.start->0));
    } else {
        let front = path.drop_last();
        let k = frames_of(front);
        let s = end_state(p, front);
        let step = path.last();
        assert(numeric(front)) by {
            assert forall|i: int| 0 <= i < front.len() implies !is_nan((#[trigger] front[i]).cost) by {
                assert(front[i] == path[i]);
            }
        }
        assert(path[path.len() - 1] == step);
        law_no_path_is_cheaper::<A>(p, run, front);
        assert(may_step::<A>(p, k, s, end_cost(front), step));
        let e = run[k as int].kept;
        if step.tr.ilabel == 0 {
            let b = run[k as int].entered;
            assert(keeps_all::<A>(p, run[k as int]));
            assert(!tainted::<A>(p, b, step.tr.nextstate));
            let d = lemma_idle_offer::<A>(p, b, e, s, step.tr);
            assert(at_most(d, step.cost));
        } else {
            assert(p.score(k, step.tr.ilabel) is Some);
            assert(k < p.frames.len());
            let after = run[k as int + 1].kept;
            let n = run[k as int + 1].entered;
            assert(passes_fully::<A>(p, k, run[k as int].kept, run[k as int + 1].entered));
            assert(keeps_all::<A>(p, run[k as int + 1]));
            let best = choose|best: u32| #[trigger] emission::<A>(p, k, e, n, best);
            assert(!tainted::<A>(p, n, step.tr.nextstate));
            assert(p.fst.trs_of(s).contains(step.tr));
            assert(offered::<A>(p, k, e, n, best, s, step.tr));
            reveal(offered);
            assert(!spoiled::<A>(p, k, e, step.tr.nextstate));
            let c = choose|c: u32| #[trigger]
                candidate::<A>(p, k, e, s, step.tr, c) && n.contains_key(step.tr.nextstate)
                    && !less(c, best) && (at_most(n[step.tr.nextstate], c) || spoiled::<A>(
                    p,
                    k,
                    e,
                    step.tr.nextstate,
                ));
            lemma_emits_orderly::<A>(
                e[s],
                end_cost(front),
                step.tr.weight,
                p.score(k, step.tr.ilabel)->0,
                p.scale,
                c,
                step.cost,
            );
            assert(n.contains_key(step.tr.nextstate));
        }
    }
}

/// The search ends with the best path: where nothing was dropped and some path through all frames
/// may end at a cost below infinity, the state in which the search ends is one in which a path
/// may end, and no path costs less in all than the one that it ends with.
pub proof fn law_best_path<A: Arith>(
    p: Problem,
    run: Seq<Stage>,
    end: Option<u32>,
    path: Seq<Step>,
    total: u32,
)
    requires
        orderly::<A>(),
        is_full_run::<A>(p, run),
        ends_in::<A>(p, run.last().kept, end),
        is_path::<A>(p, path),
        numeric(path),
        frames_of(path) == p.frames.len(),
        p.fst.final_of(end_state(p, path)) is Some,
        sums::<A>(end_cost(path), p.fst.final_of(end_state(p, path))->0, total),
        less(total, INFINITY),
        // a sum in which an operand is a number other than this path's is a number too
        forall|r: u32| #[trigger]
            sums::<A>(
                run.last().kept[end_state(p, path)],
                p.fst.final_of(end_state(p, path))->0,
                r,
            ) ==> !is_nan(r),
    ensures
        end is Some,
        run.last().kept.contains_key(end->0),
        p.fst.final_of(end->0) is Some,
        exists|t: u32| #[trigger]
            sums::<A>(run.last().kept[end->0], p.fst.final_of(end->0)->0, t) && at_most(t, total),
{
    let d = run.last().kept;
    let x = end_state(p, path);
    law_no_path_is_cheaper::<A>(p, run, path);
    let fc = choose|fc: Map<u32, u32>| #[trigger]
        final_costs::<A>(p, d, fc) && (match end {
            Some(s) => cheapest(fc, s) || (hopeless(fc) && cheapest(d, s)),
            None => hopeless(fc) && hopeless(d),
        });
    assert(fc.contains_key(x));
    assert(at_most(fc[x], total));
    assert(less(fc[x], INFINITY));
    let s = end->0;
    assert(cheapest(fc, s));
    assert(fc.contains_key(s));
    assert(sums::<A>(d[s], p.fst.final_of(s)->0, fc[s]) && at_most(fc[s], total));
}

/// As many states stay after a frame as the limit allows, with the costs that they had.
pub proof fn law_cap(e: Map<u32, u32>, max: nat, d: Map<u32, u32>)
    requires
        capped(e, max, d),
    ensures
        d.dom().len() == (if e.dom().len() <= max {
            e.dom().len()
        } else {
            max
        }),
        forall|s: u32| #[trigger] d.contains_key(s) ==> e.contains_key(s) && d[s] == e[s],
{
    assert forall|s: u32| #[trigger] d.contains_key(s) implies e.contains_key(s) && d[s] == e[s] by {
        assert(d.dom().contains(s));
    }
}

/// A state that costs less than one that stays, stays too.
pub proof fn law_cap_order(e: Map<u32, u32>, max: nat, d: Map<u32, u32>, s: u32, t: u32)
    requires
        capped(e, max, d),
        d.contains_key(s),
        e.contains_key(t),
        less(e[t], e[s]),
    ensures
        d.contains_key(t),
{
}

/// Every state that a transducer can come to is one of `all`.
pub open spec fn covers(f: Fst, all: Set<u32>) -> bool {
    &&& f.start matches Some(s) ==> all.contains(s)
    &&& forall|s: u32, tr: Tr| #[trigger] f.trs_of(s).contains(tr) ==> all.contains(tr.nextstate)
}

/// A transducer whose start and transitions lead to listed states comes to these only, so that
/// room for as many states as it lists is room for all.
pub proof fn law_listed_states(f: Fst, n: u32) -> (all: Set<u32>)
    requires
        f.states@.len() == n,
        f.start matches Some(s) ==> s < n,
        forall|s: u32, tr: Tr| #[trigger] f.trs_of(s).contains(tr) ==> tr.nextstate < n,
    ensures
        covers(f, all),
        all.finite(),
        all.len() == f.states@.len(),
{
    broadcast use vstd::set_lib::range_set_properties;

    Set::<u32>::range(0, n)
}

proof fn lemma_few_states<A: Arith>(
    p: Problem,
    all: Set<u32>,
    k: nat,
    f: Map<u32, u32>,
    n: Map<u32, u32>,
    best: u32,
    e: Map<u32, u32>,
)
    requires
        covers(p.fst, all),
        all.finite(),
        emission::<A>(p, k, f, n, best),
        closed::<A>(p, n, e),
    ensures
        e.dom().len() <= all.len(),
{
    reveal(earned);
    reveal(drifts);
    assert forall|s: u32| e.dom().contains(s) implies all.contains(s) by {
        assert(e.contains_key(s));
        let (s0, q) = choose|s0: u32, q: Seq<Step>|
            n.contains_key(s0) && #[trigger] is_idle::<A>(p, s0, n[s0], q) && idle_state(s0, q) == s
                && idle_cost(n[s0], q) == e[s];
        if q.len() == 0 {
            let (s1, tr) = choose|s1: u32, tr: Tr| #[trigger]
                candidate::<A>(p, k, f, s1, tr, n[s]) && tr.nextstate == s;
            assert(p.fst.trs_of(s1).contains(tr));
        } else {
            assert(p.fst.trs_of(idle_state(s0, q.drop_last())).contains(q.last().tr));
        }
    }
    assert(e.dom().subset_of(all));
    vstd::set_lib::lemma_len_subset(e.dom(), all);
}

/// Whatever is not minus infinity comes to infinity with the beam.
pub open spec fn endless_beam<A: Arith>(p: Problem) -> bool {
    forall|best: u32, cutoff: u32|
        less(negation(INFINITY), best) && #[trigger] sums::<A>(best, p.beam, cutoff) ==> cutoff
            == INFINITY
}

/// Every transition that a run comes to costs a number, and one that takes a frame a number
/// greater than minus infinity.
pub open spec fn proper_costs<A: Arith>(p: Problem, run: Seq<Stage>) -> bool {
    &&& forall|k: int, s: u32, c: u32|
        0 <= k < run.len() && #[trigger] drifts::<A>(p, run[k].entered, s, c) ==> !is_nan(c)
    &&& forall|k: int, s: u32, tr: Tr, c: u32|
        0 <= k < p.frames.len() && #[trigger] candidate::<A>(
            p,
            k as nat,
            run[k].kept,
            s,
            tr,
            c,
        ) ==> less(
            negation(INFINITY),
            c,
        )
}

/// A search with an infinite beam and room for every state drops no state.
pub proof fn law_wide_search<A: Arith>(p: Problem, run: Seq<Stage>, all: Set<u32>)
    requires
        is_run::<A>(p, run),
        covers(p.fst, all),
        all.finite(),
        p.max_active >= all.len(),
        endless_beam::<A>(p),
        proper_costs::<A>(p, run),
    ensures
        is_full_run::<A>(p, run),
{
    assert forall|k: int| 0 <= k < p.frames.len() implies passes_fully::<A>(
        p,
        k as nat,
        (#[trigger] run[k]).kept,
        run[k + 1].entered,
    ) && closed::<A>(p, run[k + 1].entered, run[k + 1].kept) by {
        let f = run[k].kept;
        let b = run[k + 1].entered;
        let d = run[k + 1].kept;
        assert forall|ns: u32| !#[trigger] spoiled::<A>(p, k as nat, f, ns) by {
            reveal(spoiled);
            if spoiled::<A>(p, k as nat, f, ns) {
                let (s, tr, c) = choose|s: u32, tr: Tr, c: u32| #[trigger]
                    candidate::<A>(p, k as nat, f, s, tr, c) && tr.nextstate == ns && is_nan(c);
                assert(candidate::<A>(p, k as nat, run[k].kept, s, tr, c));
            }
        }
        assert(passes::<A>(p, k as nat, run[k].kept, run[k + 1].entered));
        assert(finished::<A>(p, k + 1, run[k + 1]));
        let (n, best) = choose|n: Map<u32, u32>, best: u32| #[trigger]
            emission::<A>(p, k as nat, f, n, best) && pruned::<A>(p, n, best, b);
        let e = choose|e: Map<u32, u32>| #[trigger]
            closed::<A>(p, b, e) && capped(e, p.max_active, d);
        assert(less(negation(INFINITY), best)) by {
            if best != INFINITY {
                reveal(earned);
                let ns = choose|ns: u32| #[trigger] earned::<A>(p, k as nat, f, ns, best);
                let (s, tr) = choose|s: u32, tr: Tr| #[trigger]
                    candidate::<A>(p, k as nat, f, s, tr, best) && tr.nextstate == ns;
                assert(candidate::<A>(p, k as nat, run[k].kept, s, tr, best));
            }
        }
        assert forall|ns: u32| #[trigger] n.contains_key(ns) implies at_most(n[ns], INFINITY) by {
            if is_nan(n[ns]) {
                assert(earned::<A>(p, k as nat, f, ns, n[ns]));
                assert(spoiled::<A>(p, k as nat, f, ns)) by {
                    reveal(earned);
                    reveal(spoiled);
                }
            }
        }
        assert(b =~= n);
        lemma_few_states::<A>(p, all, k as nat, f, n, best, e);
        assert(d == e);
        assert(emission::<A>(p, k as nat, f, b, best) && closed::<A>(p, b, d));
    }
    assert forall|k: int| 0 <= k < run.len() implies keeps_all::<A>(p, #[trigger] run[k]) by {
        if k == 0 {
            assert(finished::<A>(p, 0, run[0]));
        } else {
            assert(passes_fully::<A>(p, (k - 1) as nat, run[k - 1].kept, run[k - 1 + 1].entered));
            assert(closed::<A>(p, run[k - 1 + 1].entered, run[k - 1 + 1].kept));
        }
        assert forall|s: u32| !#[trigger] tainted::<A>(p, run[k].entered, s) by {
            reveal(tainted);
        }
    }
}

/// Every cost that a search can come to is a proper one, also that of ending.
pub open spec fn proper_search<A: Arith>(p: Problem) -> bool {
    forall|run: Seq<Stage>| #[trigger]
        is_run::<A>(p, run) ==> proper_costs::<A>(p, run) && proper_ends::<A>(p, run)
}

/// Every cost of ending is a number.
pub open spec fn proper_ends<A: Arith>(p: Problem, run: Seq<Stage>) -> bool {
    forall|s: u32, r: u32|
        run.last().kept.contains_key(s) && p.fst.final_of(s) is Some && #[trigger] sums::<A>(
            run.last().kept[s],
            p.fst.final_of(s)->0,
            r,
        ) ==> !is_nan(r)
}

/// A wide search answers with the words of a best path: it goes through all frames, ends where a
/// path may end, and costs no more in all than any path that does so at a cost below infinity.
pub proof fn law_best_words<A: Arith>(
    p: Problem,
    words: Seq<u32>,
    all: Set<u32>,
    path: Seq<Step>,
    total: u32,
) -> (best: Seq<Step>)
    requires
        orderly::<A>(),
        covers(p.fst, all),
        all.finite(),
        p.max_active >= all.len(),
        endless_beam::<A>(p),
        proper_search::<A>(p),
        is_answer::<A>(p, words),
        is_path::<A>(p, path),
        numeric(path),
        frames_of(path) == p.frames.len(),
        p.fst.final_of(end_state(p, path)) is Some,
        sums::<A>(end_cost(path), p.fst.final_of(end_state(p, path))->0, total),
        less(total, INFINITY),
    ensures
        is_path::<A>(p, best),
        frames_of(best) == p.frames.len(),
        words_of(best) == words,
        p.fst.final_of(end_state(p, best)) is Some,
        exists|t: u32| #[trigger]
            sums::<A>(end_cost(best), p.fst.final_of(end_state(p, best))->0, t) && at_most(
                t,
                total,
            ),
{
    let (run, end) = choose|run: Seq<Stage>, s: Option<u32>|
        #![trigger is_run::<A>(p, run), ends_in::<A>(p, run.last().kept, s)]
        is_run::<A>(p, run) && ends_in::<A>(p, run.last().kept, s) && (match s {
            Some(s) => spells::<A>(p, run, s, words),
            None => words.len() == 0,
        });
    law_wide_search::<A>(p, run, all);
    law_no_path_is_cheaper::<A>(p, run, path);
    law_best_path::<A>(p, run, end, path, total);
    let s = end->0;
    assert(spells::<A>(p, run, s, words));
    choose|best: Seq<Step>|
        {
            &&& #[trigger] is_path::<A>(p, best)
            &&& frames_of(best) == p.frames.len()
            &&& keeps_to(p, run, best)
            &&& end_state(p, best) == s
            &&& end_cost(best) == run.last().kept[s]
            &&& words_of(best) == words
        }
}

proof fn lemma_no_empty_label(path: Seq<Step>, i: int)
    requires
        0 <= i < words_of(path).len(),
    ensures
        words_of(path)[i] != 0,
    decreases path.len(),
{
    let front = path.drop_last();
    if i < words_of(front).len() {
        lemma_no_empty_label(front, i);
    }
}

/// No answer holds the empty label.
pub proof fn law_no_empty_label<A: Arith>(p: Problem, words: Seq<u32>, i: int)
    requires
        is_answer::<A>(p, words),
        0 <= i < words.len(),
    ensures
        words[i] != 0,
{
    let (run, end) = choose|run: Seq<Stage>, s: Option<u32>|
        #![trigger is_run::<A>(p, run), ends_in::<A>(p, run.last().kept, s)]
        is_run::<A>(p, run) && ends_in::<A>(p, run.last().kept, s) && (match s {
            Some(s) => spells::<A>(p, run, s, words),
            None => words.len() == 0,
        });
    let s = end->0;
    let path = choose|path: Seq<Step>|
        {
            &&& #[trigger] is_path::<A>(p, path)
            &&& frames_of(path) == p.frames.len()
            &&& keeps_to(p, run, path)
            &&& end_state(p, path) == s
            &&& end_cost(path) == run.last().kept[s]
            &&& words_of(path) == words
        };
    lemma_no_empty_label(path, i);
}

} // verus!
