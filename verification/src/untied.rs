//! A search has one answer where nothing is tied: where the arithmetic has one answer for each
//! operation, and no two things between which the search chooses cost the same.

use vstd::prelude::*;

use crate::best_path::{lemma_idle_offer, orderly, proper_costs, proper_search};
use crate::fst::Tr;
use crate::renaming::{law_renaming, renames};
use crate::search::{
    candidate, capped, cheapest, closed, drifts, earned, emission, emits, end_cost, end_state,
    ends_in, final_costs, finished, frames_of, hopeless, idle_cost, idle_state, is_answer, is_idle,
    is_path, is_run, keeps_to, may_step, offered, passes, pruned, spells, spoiled, tainted, within,
    words_of, DecodeError, Problem, Stage, Step,
};
use crate::single::{at_most, is_nan, less, negation, products, sums, Arith, INFINITY};

verus! {

/// Sums and products have one answer each.
pub open spec fn one_cost<A: Arith>() -> bool {
    &&& forall|a: u32, b: u32, r: u32, s: u32| #[trigger]
        sums::<A>(a, b, r) && #[trigger] sums::<A>(a, b, s) ==> r == s
    &&& forall|a: u32, b: u32, r: u32, s: u32| #[trigger]
        products::<A>(a, b, r) && #[trigger] products::<A>(a, b, s) ==> r == s
}

/// Neither cost is greater.
pub open spec fn tied(a: u32, b: u32) -> bool {
    at_most(a, b) && at_most(b, a)
}

/// No two paths through as many frames that end in the same state cost the same.
pub open spec fn untied_paths<A: Arith>(p: Problem) -> bool {
    forall|x: Seq<Step>, y: Seq<Step>| #[trigger]
        is_path::<A>(p, x) && #[trigger] is_path::<A>(p, y) && frames_of(x) == frames_of(y)
            && end_state(p, x) == end_state(p, y) && tied(end_cost(x), end_cost(y)) ==> x == y
}

/// However the cap picks the states that stay, none of them costs the same as one that is dropped.
pub open spec fn clear_cap(e: Map<u32, u32>, max: nat) -> bool {
    forall|d: Map<u32, u32>, s: u32, t: u32|
        #![trigger capped(e, max, d), d.contains_key(s), e.contains_key(t)]
        capped(e, max, d) && d.contains_key(s) && e.contains_key(t) && !d.contains_key(t) ==> !tied(
            e[s],
            e[t],
        )
}

/// Where the cap drops states, none of them costs the same as one that stays.
pub open spec fn untied_cap<A: Arith>(p: Problem) -> bool {
    forall|run: Seq<Stage>, k: int, e: Map<u32, u32>|
        #![trigger is_run::<A>(p, run), closed::<A>(p, run[k].entered, e)]
        is_run::<A>(p, run) && 0 < k < run.len() && closed::<A>(p, run[k].entered, e)
            ==> clear_cap(e, p.max_active)
}

/// One state at most is the cheapest.
pub open spec fn one_cheapest(m: Map<u32, u32>) -> bool {
    forall|s: u32, t: u32| #[trigger] cheapest(m, s) && #[trigger] cheapest(m, t) ==> s == t
}

/// No two states share the least cost of ending, nor the least cost, after the last frame.
pub open spec fn untied_ends<A: Arith>(p: Problem) -> bool {
    forall|run: Seq<Stage>, fc: Map<u32, u32>|
        #![trigger is_run::<A>(p, run), final_costs::<A>(p, run.last().kept, fc)]
        is_run::<A>(p, run) && final_costs::<A>(p, run.last().kept, fc) ==> one_cheapest(fc)
            && one_cheapest(run.last().kept)
}

/// The beam makes a number of every number that is not minus infinity.
pub open spec fn proper_beam<A: Arith>(p: Problem) -> bool {
    forall|best: u32, cutoff: u32|
        less(negation(INFINITY), best) && #[trigger] sums::<A>(best, p.beam, cutoff) ==> !is_nan(
            cutoff,
        )
}

/// The search never has to choose between things that cost the same.
pub open spec fn untied<A: Arith>(p: Problem) -> bool {
    &&& untied_paths::<A>(p)
    &&& untied_cap::<A>(p)
    &&& untied_ends::<A>(p)
}

/// Some path through `k` frames ends in `s` at cost `c`.
#[verifier::opaque]
pub(crate) open spec fn reached<A: Arith>(p: Problem, k: nat, s: u32, c: u32) -> bool {
    exists|path: Seq<Step>| #[trigger]
        is_path::<A>(p, path) && frames_of(path) == k && end_state(p, path) == s && end_cost(path)
            == c
}

/// Every state of `m` is reached at the cost that it has there.
pub(crate) open spec fn all_reached<A: Arith>(p: Problem, k: nat, m: Map<u32, u32>) -> bool {
    forall|s: u32| #[trigger] m.contains_key(s) ==> reached::<A>(p, k, s, m[s])
}

proof fn lemma_one_reached<A: Arith>(p: Problem, k: nat, s: u32, c: u32, d: u32)
    requires
        untied_paths::<A>(p),
        reached::<A>(p, k, s, c),
        reached::<A>(p, k, s, d),
        tied(c, d),
    ensures
        c == d,
{
    reveal(reached);
    let x = choose|path: Seq<Step>| #[trigger]
        is_path::<A>(p, path) && frames_of(path) == k && end_state(p, path) == s && end_cost(path)
            == c;
    let y = choose|path: Seq<Step>| #[trigger]
        is_path::<A>(p, path) && frames_of(path) == k && end_state(p, path) == s && end_cost(path)
            == d;
    assert(is_path::<A>(p, x) && is_path::<A>(p, y));
}

pub(crate) proof fn lemma_goes_on<A: Arith>(p: Problem, k: nat, s: u32, c: u32, step: Step)
    requires
        reached::<A>(p, k, s, c),
        may_step::<A>(p, k, s, c, step),
    ensures
        reached::<A>(
            p,
            (if step.tr.ilabel == 0 {
                k
            } else {
                k + 1
            }),
            step.tr.nextstate,
            step.cost,
        ),
{
    reveal(reached);
    let x = choose|path: Seq<Step>| #[trigger]
        is_path::<A>(p, path) && frames_of(path) == k && end_state(p, path) == s && end_cost(path)
            == c;
    let y = x.push(step);
    assert(y.drop_last() =~= x);
    assert(is_path::<A>(p, y));
}

pub(crate) proof fn lemma_idle_reached<A: Arith>(p: Problem, k: nat, s: u32, c: u32, q: Seq<Step>)
    requires
        reached::<A>(p, k, s, c),
        is_idle::<A>(p, s, c, q),
    ensures
        reached::<A>(p, k, idle_state(s, q), idle_cost(c, q)),
    decreases q.len(),
{
    if q.len() > 0 {
        let front = q.drop_last();
        lemma_idle_reached::<A>(p, k, s, c, front);
        lemma_goes_on::<A>(p, k, idle_state(s, front), idle_cost(c, front), q.last());
    }
}

/// No way out of `b` that takes no time comes to a cost that is no number.
spec fn clean<A: Arith>(p: Problem, b: Map<u32, u32>) -> bool {
    forall|s: u32, c: u32| #[trigger] drifts::<A>(p, b, s, c) ==> !is_nan(c)
}

proof fn lemma_not_tainted<A: Arith>(p: Problem, b: Map<u32, u32>, s: u32)
    requires
        clean::<A>(p, b),
    ensures
        !tainted::<A>(p, b, s),
{
    reveal(tainted);
}

/// What is closed holds the end of every way that takes no time, at no more than its cost.
proof fn lemma_way<A: Arith>(
    p: Problem,
    b: Map<u32, u32>,
    e: Map<u32, u32>,
    s: u32,
    q: Seq<Step>,
)
    requires
        orderly::<A>(),
        clean::<A>(p, b),
        closed::<A>(p, b, e),
        b.contains_key(s),
        is_idle::<A>(p, s, b[s], q),
    ensures
        e.contains_key(idle_state(s, q)),
        at_most(e[idle_state(s, q)], idle_cost(b[s], q)),
    decreases q.len(),
{
    lemma_not_tainted::<A>(p, b, idle_state(s, q));
    if q.len() > 0 {
        let front = q.drop_last();
        lemma_way::<A>(p, b, e, s, front);
        let x = idle_state(s, front);
        let step = q.last();
        let d = lemma_idle_offer::<A>(p, b, e, x, step.tr);
        assert(drifts::<A>(p, b, step.tr.nextstate, step.cost)) by {
            reveal(drifts);
        }
        assert(sums::<A>(e[x], step.tr.weight, d));
        assert(sums::<A>(idle_cost(b[s], front), step.tr.weight, step.cost));
        assert(at_most(d, step.cost));
    }
}

pub(crate) proof fn lemma_some_way<A: Arith>(p: Problem, b: Map<u32, u32>, s: u32, c: u32) -> (way: (
    u32,
    Seq<Step>,
))
    requires
        drifts::<A>(p, b, s, c),
    ensures
        b.contains_key(way.0),
        is_idle::<A>(p, way.0, b[way.0], way.1),
        idle_state(way.0, way.1) == s,
        idle_cost(b[way.0], way.1) == c,
{
    reveal(drifts);
    choose|s0: u32, q: Seq<Step>|
        b.contains_key(s0) && #[trigger] is_idle::<A>(p, s0, b[s0], q) && idle_state(s0, q) == s
            && idle_cost(b[s0], q) == c
}

pub(crate) proof fn lemma_closed_reached<A: Arith>(
    p: Problem,
    k: nat,
    b: Map<u32, u32>,
    e: Map<u32, u32>,
)
    requires
        closed::<A>(p, b, e),
        all_reached::<A>(p, k, b),
    ensures
        all_reached::<A>(p, k, e),
{
    assert forall|s: u32| #[trigger] e.contains_key(s) implies reached::<A>(p, k, s, e[s]) by {
        let (s0, q) = lemma_some_way::<A>(p, b, s, e[s]);
        lemma_idle_reached::<A>(p, k, s0, b[s0], q);
    }
}

proof fn lemma_no_more<A: Arith>(
    p: Problem,
    b: Map<u32, u32>,
    e: Map<u32, u32>,
    f: Map<u32, u32>,
    s: u32,
)
    requires
        orderly::<A>(),
        clean::<A>(p, b),
        closed::<A>(p, b, e),
        closed::<A>(p, b, f),
        e.contains_key(s),
    ensures
        f.contains_key(s),
        at_most(f[s], e[s]),
{
    let (s0, q) = lemma_some_way::<A>(p, b, s, e[s]);
    lemma_way::<A>(p, b, f, s0, q);
}

/// There is one way to follow transitions that take no time.
proof fn lemma_one_closure<A: Arith>(
    p: Problem,
    k: nat,
    b: Map<u32, u32>,
    e: Map<u32, u32>,
    f: Map<u32, u32>,
)
    requires
        orderly::<A>(),
        untied_paths::<A>(p),
        clean::<A>(p, b),
        all_reached::<A>(p, k, b),
        closed::<A>(p, b, e),
        closed::<A>(p, b, f),
    ensures
        e == f,
{
    lemma_closed_reached::<A>(p, k, b, e);
    lemma_closed_reached::<A>(p, k, b, f);
    assert forall|s: u32| e.contains_key(s) <==> f.contains_key(s) by {
        if e.contains_key(s) {
            lemma_no_more::<A>(p, b, e, f, s);
        }
        if f.contains_key(s) {
            lemma_no_more::<A>(p, b, f, e, s);
        }
    }
    assert forall|s: u32| e.contains_key(s) implies e[s] == f[s] by {
        lemma_no_more::<A>(p, b, e, f, s);
        lemma_no_more::<A>(p, b, f, e, s);
        lemma_one_reached::<A>(p, k, s, e[s], f[s]);
    }
    assert(e =~= f);
}

/// There is one way to cap states where none is tied.
proof fn lemma_one_cap(e: Map<u32, u32>, max: nat, c: Map<u32, u32>, d: Map<u32, u32>)
    requires
        capped(e, max, c),
        capped(e, max, d),
        forall|s: u32, t: u32| #[trigger]
            c.contains_key(s) && #[trigger] e.contains_key(t) && !c.contains_key(t) ==> !tied(
                e[s],
                e[t],
            ),
        e.dom().finite(),
    ensures
        c == d,
{
    if e.dom().len() > max {
        assert(c.dom().subset_of(e.dom()) && d.dom().subset_of(e.dom()));
        vstd::set_lib::lemma_len_subset(c.dom(), e.dom());
        vstd::set_lib::lemma_len_subset(d.dom(), e.dom());
        if !c.dom().subset_of(d.dom()) {
            let s = choose|s: u32| c.dom().contains(s) && !d.dom().contains(s);
            if d.dom().subset_of(c.dom()) {
                assert(d.dom().subset_of(c.dom().remove(s)));
                vstd::set_lib::lemma_len_subset(d.dom(), c.dom().remove(s));
            } else {
                let t = choose|t: u32| d.dom().contains(t) && !c.dom().contains(t);
                assert(c.contains_key(s) && e.contains_key(t) && !c.contains_key(t));
                assert(d.contains_key(t) && e.contains_key(s) && !d.contains_key(s));
                assert(at_most(e[s], e[t]) && at_most(e[t], e[s]));
            }
        } else {
            vstd::set_lib::lemma_subset_equality(c.dom(), d.dom());
        }
        assert forall|s: u32| c.dom().contains(s) implies c[s] == d[s] by {
            assert(d.dom().contains(s));
        }
        assert(c =~= d);
    }
}

proof fn lemma_one_candidate<A: Arith>(
    p: Problem,
    k: nat,
    f: Map<u32, u32>,
    s: u32,
    tr: Tr,
    c: u32,
    d: u32,
)
    requires
        one_cost::<A>(),
        candidate::<A>(p, k, f, s, tr, c),
        candidate::<A>(p, k, f, s, tr, d),
    ensures
        c == d,
{
    let ll = p.score(k, tr.ilabel)->0;
    let (a, w) = (f[s], tr.weight);
    assert(emits::<A>(a, w, ll, p.scale, c) && emits::<A>(a, w, ll, p.scale, d));
    let (x1, y1) = choose|x: u32, y: u32|
        #![trigger sums::<A>(a, w, x), products::<A>(negation(ll), p.scale, y)]
        sums::<A>(a, w, x) && products::<A>(negation(ll), p.scale, y) && sums::<A>(x, y, c);
    let (x2, y2) = choose|x: u32, y: u32|
        #![trigger sums::<A>(a, w, x), products::<A>(negation(ll), p.scale, y)]
        sums::<A>(a, w, x) && products::<A>(negation(ll), p.scale, y) && sums::<A>(x, y, d);
    assert(x1 == x2 && y1 == y2);
}

/// No transition of frame `k` out of `f` comes to a cost that is no number.
spec fn clean_frame<A: Arith>(p: Problem, k: nat, f: Map<u32, u32>) -> bool {
    forall|s: u32, tr: Tr, c: u32| #[trigger] candidate::<A>(p, k, f, s, tr, c) ==> !is_nan(c)
}

/// What one account of a frame earned is offered in another.
proof fn lemma_offered_too<A: Arith>(
    p: Problem,
    k: nat,
    f: Map<u32, u32>,
    n: Map<u32, u32>,
    best: u32,
    ns: u32,
    c: u32,
)
    requires
        one_cost::<A>(),
        clean_frame::<A>(p, k, f),
        emission::<A>(p, k, f, n, best),
        earned::<A>(p, k, f, ns, c),
    ensures
        n.contains_key(ns),
        at_most(n[ns], c),
        !less(c, best),
{
    reveal(earned);
    reveal(offered);
    let (s, tr) = choose|s: u32, tr: Tr| #[trigger]
        candidate::<A>(p, k, f, s, tr, c) && tr.nextstate == ns;
    assert(p.fst.trs_of(s).contains(tr));
    assert(offered::<A>(p, k, f, n, best, s, tr));
    assert(!spoiled::<A>(p, k, f, ns)) by {
        reveal(spoiled);
    }
    let d = choose|d: u32| #[trigger]
        candidate::<A>(p, k, f, s, tr, d) && n.contains_key(tr.nextstate) && !less(d, best) && (
        at_most(n[tr.nextstate], d) || spoiled::<A>(p, k, f, tr.nextstate));
    lemma_one_candidate::<A>(p, k, f, s, tr, c, d);
}

pub(crate) proof fn lemma_frame_reached<A: Arith>(
    p: Problem,
    k: nat,
    f: Map<u32, u32>,
    n: Map<u32, u32>,
    best: u32,
)
    requires
        all_reached::<A>(p, k, f),
        emission::<A>(p, k, f, n, best),
    ensures
        all_reached::<A>(p, k + 1, n),
{
    reveal(earned);
    assert forall|ns: u32| #[trigger] n.contains_key(ns) implies reached::<A>(
        p,
        k + 1,
        ns,
        n[ns],
    ) by {
        assert(earned::<A>(p, k, f, ns, n[ns]));
        let (s, tr) = choose|s: u32, tr: Tr| #[trigger]
            candidate::<A>(p, k, f, s, tr, n[ns]) && tr.nextstate == ns;
        lemma_goes_on::<A>(p, k, s, f[s], Step { tr, cost: n[ns] });
    }
}

proof fn lemma_best_no_less<A: Arith>(
    p: Problem,
    k: nat,
    f: Map<u32, u32>,
    m: Map<u32, u32>,
    n: Map<u32, u32>,
    b1: u32,
    b2: u32,
)
    requires
        one_cost::<A>(),
        clean_frame::<A>(p, k, f),
        emission::<A>(p, k, f, m, b1),
        emission::<A>(p, k, f, n, b2),
    ensures
        at_most(b2, b1),
{
    if b1 != INFINITY {
        let ns = choose|ns: u32| #[trigger] earned::<A>(p, k, f, ns, b1);
        lemma_offered_too::<A>(p, k, f, n, b2, ns, b1);
    }
}

/// There is one way to take a frame.
proof fn lemma_one_frame<A: Arith>(
    p: Problem,
    k: nat,
    f: Map<u32, u32>,
    m: Map<u32, u32>,
    n: Map<u32, u32>,
    b1: u32,
    b2: u32,
)
    requires
        one_cost::<A>(),
        untied_paths::<A>(p),
        clean_frame::<A>(p, k, f),
        all_reached::<A>(p, k, f),
        emission::<A>(p, k, f, m, b1),
        emission::<A>(p, k, f, n, b2),
    ensures
        m == n,
        tied(b1, b2),
{
    lemma_frame_reached::<A>(p, k, f, m, b1);
    lemma_frame_reached::<A>(p, k, f, n, b2);
    lemma_best_no_less::<A>(p, k, f, m, n, b1, b2);
    lemma_best_no_less::<A>(p, k, f, n, m, b2, b1);
    assert forall|s: u32| m.contains_key(s) <==> n.contains_key(s) by {
        if m.contains_key(s) {
            lemma_offered_too::<A>(p, k, f, n, b2, s, m[s]);
        }
        if n.contains_key(s) {
            lemma_offered_too::<A>(p, k, f, m, b1, s, n[s]);
        }
    }
    assert forall|s: u32| m.contains_key(s) implies m[s] == n[s] by {
        lemma_offered_too::<A>(p, k, f, n, b2, s, m[s]);
        lemma_offered_too::<A>(p, k, f, m, b1, s, n[s]);
        lemma_one_reached::<A>(p, k + 1, s, m[s], n[s]);
    }
    assert(m =~= n);
}

/// There is one set of states that passes the beam.
proof fn lemma_one_beam<A: Arith>(
    p: Problem,
    k: nat,
    f: Map<u32, u32>,
    a: Map<u32, u32>,
    b: Map<u32, u32>,
)
    requires
        orderly::<A>(),
        one_cost::<A>(),
        untied_paths::<A>(p),
        proper_beam::<A>(p),
        forall|s: u32, tr: Tr, c: u32| #[trigger]
            candidate::<A>(p, k, f, s, tr, c) ==> less(negation(INFINITY), c),
        all_reached::<A>(p, k, f),
        passes::<A>(p, k, f, a),
        passes::<A>(p, k, f, b),
    ensures
        a == b,
        all_reached::<A>(p, k + 1, a),
{
    let (m, b1) = choose|n: Map<u32, u32>, best: u32| #[trigger]
        emission::<A>(p, k, f, n, best) && pruned::<A>(p, n, best, a);
    let (n, b2) = choose|n: Map<u32, u32>, best: u32| #[trigger]
        emission::<A>(p, k, f, n, best) && pruned::<A>(p, n, best, b);
    lemma_one_frame::<A>(p, k, f, m, n, b1, b2);
    lemma_frame_reached::<A>(p, k, f, m, b1);
    lemma_best_proper::<A>(p, k, f, m, b1);
    lemma_best_proper::<A>(p, k, f, n, b2);
    let c1 = choose|cutoff: u32| #[trigger]
        sums::<A>(b1, p.beam, cutoff) && a == within(m, cutoff);
    let c2 = choose|cutoff: u32| #[trigger]
        sums::<A>(b2, p.beam, cutoff) && b == within(n, cutoff);
    assert(at_most(c1, c2) && at_most(c2, c1));
    assert(a =~= b);
    assert forall|s: u32| #[trigger] a.contains_key(s) implies reached::<A>(
        p,
        k + 1,
        s,
        a[s],
    ) by {
        assert(m.contains_key(s));
    }
}

proof fn lemma_best_proper<A: Arith>(
    p: Problem,
    k: nat,
    f: Map<u32, u32>,
    n: Map<u32, u32>,
    best: u32,
)
    requires
        forall|s: u32, tr: Tr, c: u32| #[trigger]
            candidate::<A>(p, k, f, s, tr, c) ==> less(negation(INFINITY), c),
        emission::<A>(p, k, f, n, best),
    ensures
        less(negation(INFINITY), best),
{
    if best != INFINITY {
        reveal(earned);
        let ns = choose|ns: u32| #[trigger] earned::<A>(p, k, f, ns, best);
        let (s, tr) = choose|s: u32, tr: Tr| #[trigger]
            candidate::<A>(p, k, f, s, tr, best) && tr.nextstate == ns;
    }
}

/// Two runs are in the same stage after as many frames.
proof fn lemma_one_stage<A: Arith>(p: Problem, r1: Seq<Stage>, r2: Seq<Stage>, k: int)
    requires
        orderly::<A>(),
        one_cost::<A>(),
        untied::<A>(p),
        proper_search::<A>(p),
        proper_beam::<A>(p),
        is_run::<A>(p, r1),
        is_run::<A>(p, r2),
        0 <= k < r1.len(),
    ensures
        r1[k] == r2[k],
        all_reached::<A>(p, k as nat, r1[k].kept),
    decreases k,
{
    let b = r1[k].entered;
    assert(proper_costs::<A>(p, r1));
    if k == 0 {
        assert(all_reached::<A>(p, 0, b)) by {
            reveal(reached);
            let none = Seq::<Step>::empty();
            assert(is_path::<A>(p, none));
        }
    } else {
        lemma_one_stage::<A>(p, r1, r2, k - 1);
        let f = r1[k - 1].kept;
        assert(passes::<A>(p, (k - 1) as nat, f, r1[k - 1 + 1].entered));
        assert(passes::<A>(p, (k - 1) as nat, r2[k - 1].kept, r2[k - 1 + 1].entered));
        assert forall|s: u32, tr: Tr, c: u32| #[trigger]
            candidate::<A>(p, (k - 1) as nat, f, s, tr, c) implies less(negation(INFINITY), c) by {
            assert(candidate::<A>(p, (k - 1) as nat, r1[k - 1].kept, s, tr, c));
        }
        lemma_one_beam::<A>(p, (k - 1) as nat, f, b, r2[k].entered);
    }
    assert(r2[k].entered == b);
    assert(clean::<A>(p, b)) by {
        assert forall|s: u32, c: u32| #[trigger] drifts::<A>(p, b, s, c) implies !is_nan(c) by {
            assert(drifts::<A>(p, r1[k].entered, s, c));
        }
    }
    assert(finished::<A>(p, k, r1[k]) && finished::<A>(p, k, r2[k]));
    let e = choose|e: Map<u32, u32>| #[trigger]
        closed::<A>(p, b, e) && (if k == 0 {
            r1[k].kept == e
        } else {
            capped(e, p.max_active, r1[k].kept)
        });
    let f = choose|e: Map<u32, u32>| #[trigger]
        closed::<A>(p, b, e) && (if k == 0 {
            r2[k].kept == e
        } else {
            capped(e, p.max_active, r2[k].kept)
        });
    lemma_one_closure::<A>(p, k as nat, b, e, f);
    lemma_closed_reached::<A>(p, k as nat, b, e);
    if k > 0 {
        let c = r1[k].kept;
        assert(closed::<A>(p, r1[k].entered, e));
        assert forall|s: u32, t: u32| #[trigger]
            c.contains_key(s) && #[trigger] e.contains_key(t) && !c.contains_key(t) implies !tied(
            e[s],
            e[t],
        ) by {
            assert(is_run::<A>(p, r1) && clear_cap(e, p.max_active));
            assert(capped(e, p.max_active, c));
        }
        lemma_finite_states(e);
        lemma_one_cap(e, p.max_active, c, r2[k].kept);
        assert forall|s: u32| #[trigger] c.contains_key(s) implies reached::<A>(
            p,
            k as nat,
            s,
            c[s],
        ) by {
            assert(c.dom().contains(s));
            assert(e.contains_key(s));
        }
    }
}

proof fn lemma_finite_states(m: Map<u32, u32>)
    ensures
        m.dom().finite(),
{
    broadcast use vstd::set_lib::range_set_properties;

    let all = Set::<u32>::range(0, u32::MAX).insert(u32::MAX);
    assert(m.dom().subset_of(all));
    vstd::set_lib::lemma_len_subset(m.dom(), all);
}

/// Two answers of one search are the same, where nothing is tied and every cost is a number.
pub proof fn law_one_answer<A: Arith>(p: Problem, words: Seq<u32>, others: Seq<u32>)
    requires
        orderly::<A>(),
        one_cost::<A>(),
        untied::<A>(p),
        proper_search::<A>(p),
        proper_beam::<A>(p),
        is_answer::<A>(p, words),
        is_answer::<A>(p, others),
    ensures
        words == others,
{
    let (r1, s1) = choose|run: Seq<Stage>, s: Option<u32>|
        #![trigger is_run::<A>(p, run), ends_in::<A>(p, run.last().kept, s)]
        is_run::<A>(p, run) && ends_in::<A>(p, run.last().kept, s) && (match s {
            Some(s) => spells::<A>(p, run, s, words),
            None => words.len() == 0,
        });
    let (r2, s2) = choose|run: Seq<Stage>, s: Option<u32>|
        #![trigger is_run::<A>(p, run), ends_in::<A>(p, run.last().kept, s)]
        is_run::<A>(p, run) && ends_in::<A>(p, run.last().kept, s) && (match s {
            Some(s) => spells::<A>(p, run, s, others),
            None => others.len() == 0,
        });
    lemma_one_stage::<A>(p, r1, r2, r1.len() - 1);
    let d = r1.last().kept;
    assert(r2.last().kept == d);
    let fc = choose|fc: Map<u32, u32>| #[trigger]
        final_costs::<A>(p, d, fc) && (match s1 {
            Some(s) => cheapest(fc, s) || (hopeless(fc) && cheapest(d, s)),
            None => hopeless(fc) && hopeless(d),
        });
    let gc = choose|fc: Map<u32, u32>| #[trigger]
        final_costs::<A>(p, d, fc) && (match s2 {
            Some(s) => cheapest(fc, s) || (hopeless(fc) && cheapest(d, s)),
            None => hopeless(fc) && hopeless(d),
        });
    assert(fc =~= gc) by {
        assert forall|s: u32| fc.contains_key(s) <==> gc.contains_key(s) by {}
        assert forall|s: u32| fc.contains_key(s) implies fc[s] == gc[s] by {
            assert(gc.contains_key(s));
            assert(sums::<A>(d[s], p.fst.final_of(s)->0, fc[s]));
            assert(sums::<A>(d[s], p.fst.final_of(s)->0, gc[s]));
        }
    }
    assert(one_cheapest(fc) && one_cheapest(d)) by {
        assert(is_run::<A>(p, r1) && final_costs::<A>(p, r1.last().kept, fc));
    }
    assert(s1 == s2);
    if let Some(s) = s1 {
        let x = choose|path: Seq<Step>|
            {
                &&& #[trigger] is_path::<A>(p, path)
                &&& frames_of(path) == p.frames.len()
                &&& keeps_to(p, r1, path)
                &&& end_state(p, path) == s
                &&& end_cost(path) == r1.last().kept[s]
                &&& words_of(path) == words
            };
        let y = choose|path: Seq<Step>|
            {
                &&& #[trigger] is_path::<A>(p, path)
                &&& frames_of(path) == p.frames.len()
                &&& keeps_to(p, r2, path)
                &&& end_state(p, path) == s
                &&& end_cost(path) == r2.last().kept[s]
                &&& words_of(path) == others
            };
        assert(!is_nan(d[s])) by {
            if cheapest(fc, s) {
                assert(fc.contains_key(s));
                assert(sums::<A>(d[s], p.fst.final_of(s)->0, fc[s]));
            }
        }
        assert(is_path::<A>(p, x) && is_path::<A>(p, y));
        assert(x == y);
    } else {
        assert(words =~= others);
    }
}

/// Renaming the pdf-ids, in the table of transition-ids and in the frames alike, leaves the answer
/// as it is, where nothing is tied and every cost is a number.
pub proof fn law_renamed_answer<A: Arith>(
    p: Problem,
    q: Problem,
    to: spec_fn(int) -> int,
    words: Seq<u32>,
    others: Seq<u32>,
)
    requires
        renames(p, q, to),
        orderly::<A>(),
        one_cost::<A>(),
        untied::<A>(p),
        proper_search::<A>(p),
        proper_beam::<A>(p),
        is_answer::<A>(p, words),
        is_answer::<A>(q, others),
    ensures
        words == others,
{
    law_renaming::<A>(p, q, to, others, DecodeError::BrokenState);
    law_one_answer::<A>(p, words, others);
}

} // verus!
