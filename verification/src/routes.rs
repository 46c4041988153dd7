//! What the search is for: of all ways through a transducer that take the frames of an utterance,
//! the one whose transitions cost least when they are added up.
//!
//! Costs are whole numbers here, so that the arithmetic does not round them.

use vstd::prelude::*;

use crate::best_path::{covers, lemma_emits_orderly, lemma_idle_offer, orderly};
use crate::fst::{Fst, Tr};
use crate::search::{
    candidate, capped, cheapest, closed, drifts, earned, emission, emits, end_cost, end_state,
    ends_in, fails, final_costs, finished, frames_of, hopeless, idle_state, is_answer, is_begun,
    is_fault, is_path, is_run, keeps_to, may_step, meets_no_order, meets_unknown_pdf,
    meets_unknown_transition, offered, passes, pruned, spells, spoiled, tainted, within, words_of,
    DecodeError, Problem, Stage, Step,
};
use crate::single::{at_most, is_nan, key, less, negation, products, sums, Arith, INFINITY, ZERO};
use crate::untied::{
    all_reached, lemma_closed_reached, lemma_frame_reached, lemma_goes_on, lemma_idle_reached,
    lemma_some_way, reached,
};
use crate::values::{
    faithful, finite, is_int, lemma_exact, lemma_order, lemma_power, lemma_whole, power, rounds,
    size_of, value, whole,
};

verus! {

/// The state from which transition `i` of a route goes on.
pub open spec fn place(f: Fst, route: Seq<Tr>, i: int) -> u32 {
    if i <= 0 {
        f.start->0
    } else {
        route[i - 1].nextstate
    }
}

/// Transitions one after the other, from the start state.
pub open spec fn is_route(f: Fst, route: Seq<Tr>) -> bool {
    &&& f.start is Some
    &&& forall|i: int|
        0 <= i < route.len() ==> f.trs_of(place(f, route, i)).contains(#[trigger] route[i])
}

/// How many of the first `i` transitions take a frame.
pub open spec fn frames_before(route: Seq<Tr>, i: int) -> nat
    decreases i,
{
    if i <= 0 {
        0
    } else if route[i - 1].ilabel == 0 {
        frames_before(route, i - 1)
    } else {
        frames_before(route, i - 1) + 1
    }
}

/// The frame that transition `i` takes, if it takes one, says something about its pdf-id.
pub open spec fn is_heard(p: Problem, route: Seq<Tr>, i: int) -> bool {
    let l = route[i].ilabel;
    let k = frames_before(route, i) as int;
    l != 0 ==> l < p.tid2pdf.len() && k < p.frames.len() && 0 <= p.tid2pdf[l as int]
        < p.frames[k].len()
}

/// What transition `i` costs: its weight, and, if it takes a frame, the negative log-likelihood of
/// its pdf-id in that frame, scaled.
pub open spec fn price(p: Problem, route: Seq<Tr>, i: int) -> real {
    let tr = route[i];
    let k = frames_before(route, i) as int;
    value(tr.weight) + (if tr.ilabel == 0 {
        0real
    } else {
        -(value(p.frames[k][p.tid2pdf[tr.ilabel as int] as int]) * value(p.scale))
    })
}

/// What the first `i` transitions cost together.
pub open spec fn total(p: Problem, route: Seq<Tr>, i: int) -> real
    decreases i,
{
    if i <= 0 {
        0real
    } else {
        total(p, route, i - 1) + price(p, route, i - 1)
    }
}

/// A route whose frames say what it costs.
pub open spec fn fits(p: Problem, route: Seq<Tr>) -> bool {
    is_route(p.fst, route) && forall|i: int|
        0 <= i < route.len() ==> #[trigger] is_heard(p, route, i)
}

/// A route that takes all frames.
pub open spec fn goes_through(p: Problem, route: Seq<Tr>) -> bool {
    fits(p, route) && frames_before(route, route.len() as int) == p.frames.len()
}

/// The cost of ending where a route ends.
pub open spec fn last_price(p: Problem, route: Seq<Tr>) -> Option<u32> {
    p.fst.final_of(place(p.fst, route, route.len() as int))
}

/// The words along a route.
pub open spec fn labels(route: Seq<Tr>) -> Seq<u32> {
    route.map_values(|tr: Tr| tr.olabel).filter(|w: u32| w != 0)
}

/// The largest whole number up to which there is a pattern for every one.
pub open spec fn limit() -> real {
    0x100_0000real
}

/// A whole number that is not below `least`, as a cost.
pub open spec fn plain(v: real, least: real) -> bool {
    whole(v) && least <= v <= limit()
}

/// All costs are whole numbers. Those of transitions that take no frame are not negative; others,
/// and those of frames and of ending, may be down to `-low`, of which the frames leave room for
/// enough.
pub open spec fn plain_costs(p: Problem, low: real) -> bool {
    &&& whole(low) && low >= 0real
    &&& 4real * low * ((p.frames.len() + 1) as real) <= limit()
    &&& forall|s: u32, tr: Tr| #[trigger]
        p.fst.trs_of(s).contains(tr) ==> finite(tr.weight) && plain(
            value(tr.weight),
            if tr.ilabel == 0 {
                0real
            } else {
                -low
            },
        )
    &&& forall|s: u32|
        (#[trigger] p.fst.final_of(s)) matches Some(w) ==> finite(w) && plain(value(w), -low)
    &&& finite(p.scale)
    &&& finite(p.beam) && plain(value(p.beam), 0real)
    &&& forall|k: int, j: int|
        0 <= k < p.frames.len() && 0 <= j < p.frames[k].len() ==> finite(
            #[trigger] p.frames[k][j],
        ) && plain(-(value(p.frames[k][j]) * value(p.scale)), -low)
}

/// Up to what costs are exact after `k` frames: what comes later may take `low` off twice a frame.
pub open spec fn bound(low: real, k: nat) -> real {
    limit() - 2real * low * (k as real)
}

proof fn lemma_bound(low: real, k: nat, n: nat)
    requires
        whole(low),
        low >= 0real,
        4real * low * ((n + 1) as real) <= limit(),
        k <= n,
    ensures
        bound(low, k + 1) == bound(low, k) - 2real * low,
        limit() / 2real + low <= bound(low, k) <= limit(),
        whole(bound(low, k)),
        whole(low),
        low <= limit() / 4real,
{
    let (kr, nr) = (k as real, n as real);
    assert((k + 1) as real == kr + 1real && (n + 1) as real == nr + 1real);
    assert(2real * low * (kr + 1real) == 2real * low * kr + 2real * low) by (nonlinear_arith);
    assert(2real * low * kr >= 0real) by (nonlinear_arith)
        requires
            low >= 0real,
            kr >= 0real,
    ;
    assert(2real * low * kr + low <= limit() / 2real) by (nonlinear_arith)
        requires
            4real * low * (nr + 1real) <= limit(),
            0real <= kr <= nr,
            low >= 0real,
    ;
    assert(low <= limit() / 4real) by (nonlinear_arith)
        requires
            4real * low * (nr + 1real) <= limit(),
            nr >= 0real,
            low >= 0real,
    ;
    let m = choose|m: int| #[trigger] is_int(low, m);
    let x = 0x100_0000 - 2 * m * k;
    assert(x as real == limit() - 2real * low * kr) by (nonlinear_arith)
        requires
            x == 0x100_0000 - 2 * m * k,
            low == m as real,
            kr == k as real,
            limit() == 0x100_0000real,
    ;
    assert(is_int(bound(low, k), x));
}

/// There is a sum of two numbers.
pub open spec fn has_sum<A: Arith>(a: u32, b: u32) -> bool {
    exists|r: u32| #[trigger] sums::<A>(a, b, r)
}

/// There is a product of two numbers.
pub open spec fn has_product<A: Arith>(a: u32, b: u32) -> bool {
    exists|r: u32| #[trigger] products::<A>(a, b, r)
}

/// The arithmetic answers.
pub open spec fn answers<A: Arith>() -> bool {
    &&& forall|a: u32, b: u32| #[trigger] has_sum::<A>(a, b)
    &&& forall|a: u32, b: u32| #[trigger] has_product::<A>(a, b)
}

/// After each frame that a route takes, it costs no more than the beam above any route through as
/// many frames.
pub open spec fn in_beam(p: Problem, route: Seq<Tr>) -> bool {
    forall|i: int, other: Seq<Tr>|
        #![trigger total(p, route, i + 1), fits(p, other)]
        0 <= i < route.len() && route[i].ilabel != 0 && fits(p, other) && frames_before(
            other,
            other.len() as int,
        ) == frames_before(route, i + 1) ==> total(p, route, i + 1) <= total(
            p,
            other,
            other.len() as int,
        ) + value(p.beam)
}

/// `c` is the pattern of the whole number `v`, or of a number no less than `l` where `v` is above
/// `l`.
spec fn counts(v: real, c: u32, l: real) -> bool {
    &&& whole(v) && v >= l - limit()
    &&& !is_nan(c)
    &&& v <= l ==> finite(c) && value(c) == v
    &&& v > l ==> c == INFINITY || (finite(c) && value(c) >= l)
}

proof fn lemma_limit()
    ensures
        finite(0x4b80_0000),
        value(0x4b80_0000) == limit(),
        finite(ZERO),
        value(ZERO) == 0real,
{
    lemma_power(0);
    assert(size_of(0x4b80_0000) == 0x80_0000real * power(1));
    assert(0real * power(-149) == 0real) by (nonlinear_arith);
}

proof fn lemma_whole_sum(a: real, b: real)
    requires
        whole(a),
        whole(b),
    ensures
        whole(a + b),
{
    let m = choose|m: int| #[trigger] is_int(a, m);
    let n = choose|n: int| #[trigger] is_int(b, n);
    assert(is_int(a + b, m + n));
}

proof fn lemma_held(v: real, r: u32)
    requires
        rounds(v, r),
        whole(v),
        -limit() <= v <= limit(),
    ensures
        finite(r),
        value(r) == v,
{
    let n = choose|n: int| #[trigger] is_int(v, n);
    lemma_whole(n);
    lemma_exact(v, r);
}

/// What rounds to a pattern is no less than a whole number that it is no less than.
proof fn lemma_no_less(v: real, r: u32, l: real)
    requires
        rounds(v, r),
        whole(l),
        0real <= l <= limit(),
        v >= l,
    ensures
        r == INFINITY || (finite(r) && value(r) >= l),
{
    let n = choose|n: int| #[trigger] is_int(l, n);
    lemma_whole(n);
    let c = choose|c: u32| #[trigger] finite(c) && value(c) == l;
    assert(key(c) <= key(r));
    if finite(r) {
        lemma_order(c, r);
    }
}

proof fn lemma_add<A: Arith>(v: real, c: u32, w: u32, r: u32, l: real, d: real)
    requires
        faithful::<A>(),
        counts(v, c, l),
        finite(w),
        plain(value(w), -d),
        d >= 0real,
        whole(l) && whole(d),
        d <= l <= limit(),
        sums::<A>(c, w, r),
    ensures
        counts(v + value(w), r, l - d),
{
    lemma_whole_sum(v, value(w));
    let n = choose|n: int| #[trigger] is_int(l, n);
    let m = choose|m: int| #[trigger] is_int(d, m);
    assert(is_int(l - d, n - m));
    let t = v + value(w);
    if finite(c) {
        assert(rounds(value(c) + value(w), r));
        if v <= l {
            if t <= l - d {
                lemma_held(t, r);
            } else {
                lemma_no_less(t, r, l - d);
            }
        } else {
            lemma_no_less(value(c) + value(w), r, l - d);
            if t <= l - d {
                assert(false);
            }
        }
    } else {
        assert(c == INFINITY);
        assert(r == INFINITY);
    }
}

proof fn lemma_negated(x: u32)
    requires
        finite(x),
    ensures
        finite(negation(x)),
        value(negation(x)) == -value(x),
{
    lemma_limit();
}

proof fn lemma_emits<A: Arith>(
    v: real,
    base: u32,
    w: u32,
    ll: u32,
    scale: u32,
    c: u32,
    l: real,
    low: real,
)
    requires
        faithful::<A>(),
        counts(v, base, l),
        finite(w),
        plain(value(w), -low),
        finite(ll),
        finite(scale),
        plain(-(value(ll) * value(scale)), -low),
        emits::<A>(base, w, ll, scale, c),
        whole(l) && whole(low),
        0real <= low,
        2real * low <= l <= limit(),
    ensures
        counts(v + value(w) - value(ll) * value(scale), c, l - 2real * low),
{
    let (x, y) = choose|x: u32, y: u32|
        #![trigger sums::<A>(base, w, x), products::<A>(negation(ll), scale, y)]
        sums::<A>(base, w, x) && products::<A>(negation(ll), scale, y) && sums::<A>(x, y, c);
    lemma_negated(ll);
    let (a, b) = (value(ll), value(scale));
    assert((-a) * b == -(a * b)) by (nonlinear_arith);
    lemma_held(-(a * b), y);
    lemma_add::<A>(v, base, w, x, l, low);
    let n = choose|n: int| #[trigger] is_int(l, n);
    let m = choose|m: int| #[trigger] is_int(low, m);
    assert(is_int(l - low, n - m));
    lemma_add::<A>(v + value(w), x, y, c, l - low, low);
}

/// The transitions of a path.
spec fn taken(path: Seq<Step>) -> Seq<Tr> {
    path.map_values(|s: Step| s.tr)
}

proof fn lemma_front(p: Problem, route: Seq<Tr>, front: Seq<Tr>, i: int)
    requires
        0 <= i <= front.len() <= route.len(),
        front == route.take(front.len() as int),
    ensures
        frames_before(front, i) == frames_before(route, i),
        total(p, front, i) == total(p, route, i),
        place(p.fst, front, i) == place(p.fst, route, i),
    decreases i,
{
    if i > 0 {
        lemma_front(p, route, front, i - 1);
        assert(front[i - 1] == route[i - 1]);
    }
}

proof fn lemma_fits_front(p: Problem, route: Seq<Tr>, n: int)
    requires
        fits(p, route),
        0 <= n <= route.len(),
    ensures
        fits(p, route.take(n)),
{
    let front = route.take(n);
    assert forall|i: int| 0 <= i < n implies p.fst.trs_of(place(p.fst, front, i)).contains(
        #[trigger] front[i],
    ) && is_heard(p, front, i) by {
        lemma_front(p, route, front, i);
        assert(front[i] == route[i]);
        assert(is_heard(p, route, i));
    }
}

proof fn lemma_fits_push(p: Problem, front: Seq<Tr>, tr: Tr)
    requires
        fits(p, front),
        p.fst.trs_of(place(p.fst, front, front.len() as int)).contains(tr),
        tr.ilabel != 0 ==> p.score(frames_before(front, front.len() as int), tr.ilabel) is Some,
    ensures
        fits(p, front.push(tr)),
{
    let route = front.push(tr);
    assert(front =~= route.take(front.len() as int));
    assert forall|i: int| 0 <= i < route.len() implies p.fst.trs_of(
        place(p.fst, route, i),
    ).contains(#[trigger] route[i]) && is_heard(p, route, i) by {
        lemma_front(p, route, front, i);
        if i < front.len() {
            assert(route[i] == front[i]);
            assert(is_heard(p, front, i));
        }
    }
}

/// A path is a route, and what its steps add up to is what it costs.
proof fn lemma_path<A: Arith>(p: Problem, low: real, path: Seq<Step>)
    requires
        faithful::<A>(),
        plain_costs(p, low),
        is_path::<A>(p, path),
    ensures
        fits(p, taken(path)),
        frames_before(taken(path), path.len() as int) == frames_of(path),
        place(p.fst, taken(path), path.len() as int) == end_state(p, path),
        frames_of(path) <= p.frames.len(),
        counts(
            total(p, taken(path), path.len() as int),
            end_cost(path),
            bound(low, frames_of(path)),
        ),
    decreases path.len(),
{
    let route = taken(path);
    if path.len() == 0 {
        lemma_limit();
        lemma_bound(low, 0, p.frames.len());
        assert(is_int(0real, 0));
    } else {
        let front = path.drop_last();
        let step = path.last();
        let n = front.len() as int;
        lemma_path::<A>(p, low, front);
        assert(taken(front) =~= route.take(n));
        assert(route =~= taken(front).push(step.tr));
        lemma_front(p, route, taken(front), n);
        let k = frames_of(front);
        lemma_bound(low, k, p.frames.len());
        assert(is_int(0real, 0));
        let s = end_state(p, front);
        let v = total(p, route, n);
        assert(may_step::<A>(p, k, s, end_cost(front), step));
        assert(p.fst.trs_of(s).contains(step.tr));
        lemma_fits_push(p, taken(front), step.tr);
        assert(route[n] == step.tr);
        if step.tr.ilabel == 0 {
            lemma_add::<A>(v, end_cost(front), step.tr.weight, step.cost, bound(low, k), 0real);
        } else {
            let ll = p.score(k, step.tr.ilabel)->0;
            let j = p.tid2pdf[step.tr.ilabel as int] as int;
            assert(p.frames[k as int][j] == ll);
            lemma_emits::<A>(
                v,
                end_cost(front),
                step.tr.weight,
                ll,
                p.scale,
                step.cost,
                bound(low, k),
                low,
            );
        }
    }
}

/// A transition that can be taken can be added to what a path costs.
proof fn lemma_some_cost<A: Arith>(p: Problem, k: nat, base: u32, tr: Tr) -> (cost: u32)
    requires
        answers::<A>(),
    ensures
        tr.ilabel == 0 ==> sums::<A>(base, tr.weight, cost),
        tr.ilabel != 0 ==> emits::<A>(base, tr.weight, p.score(k, tr.ilabel)->0, p.scale, cost),
{
    assert(has_sum::<A>(base, tr.weight));
    let x = choose|r: u32| #[trigger] sums::<A>(base, tr.weight, r);
    if tr.ilabel == 0 {
        x
    } else {
        let ll = p.score(k, tr.ilabel)->0;
        assert(has_product::<A>(negation(ll), p.scale));
        let y = choose|r: u32| #[trigger] products::<A>(negation(ll), p.scale, r);
        assert(has_sum::<A>(x, y));
        choose|r: u32| #[trigger] sums::<A>(x, y, r)
    }
}

/// A path goes on by a step that it may take.
proof fn lemma_path_push<A: Arith>(p: Problem, before: Seq<Step>, step: Step) -> (path: Seq<Step>)
    requires
        is_path::<A>(p, before),
        may_step::<A>(p, frames_of(before), end_state(p, before), end_cost(before), step),
    ensures
        is_path::<A>(p, path),
        taken(path) == taken(before).push(step.tr),
{
    let path = before.push(step);
    assert(path.drop_last() =~= before);
    assert(taken(path) =~= taken(before).push(step.tr));
    path
}

/// A route can be taken as a path.
proof fn lemma_route<A: Arith>(p: Problem, low: real, route: Seq<Tr>) -> (path: Seq<Step>)
    requires
        faithful::<A>(),
        answers::<A>(),
        plain_costs(p, low),
        fits(p, route),
    ensures
        is_path::<A>(p, path),
        taken(path) == route,
    decreases route.len(),
{
    if route.len() == 0 {
        let path = Seq::<Step>::empty();
        assert(is_path::<A>(p, path));
        assert(taken(path) =~= route);
        path
    } else {
        let n = route.len() - 1;
        let front = route.take(n);
        lemma_fits_front(p, route, n);
        let before = lemma_route::<A>(p, low, front);
        lemma_path::<A>(p, low, before);
        lemma_front(p, route, front, n);
        let tr = route[n];
        assert(is_heard(p, route, n));
        let base = end_cost(before);
        let cost = lemma_some_cost::<A>(p, frames_of(before), base, tr);
        assert(p.fst.trs_of(place(p.fst, route, n)).contains(route[n]));
        let path = lemma_path_push::<A>(p, before, Step { tr, cost });
        assert(taken(path) =~= route);
        path
    }
}

/// What is reached costs a number.
proof fn lemma_reached_counts<A: Arith>(
    p: Problem,
    low: real,
    k: nat,
    s: u32,
    c: u32,
) -> (route: Seq<Tr>)
    requires
        faithful::<A>(),
        plain_costs(p, low),
        reached::<A>(p, k, s, c),
    ensures
        fits(p, route),
        frames_before(route, route.len() as int) == k,
        place(p.fst, route, route.len() as int) == s,
        k <= p.frames.len(),
        counts(total(p, route, route.len() as int), c, bound(low, k)),
{
    reveal(reached);
    let path = choose|path: Seq<Step>| #[trigger]
        is_path::<A>(p, path) && frames_of(path) == k && end_state(p, path) == s && end_cost(path)
            == c;
    lemma_path::<A>(p, low, path);
    taken(path)
}

proof fn lemma_clean<A: Arith>(p: Problem, low: real, k: nat, b: Map<u32, u32>, s: u32)
    requires
        faithful::<A>(),
        plain_costs(p, low),
        all_reached::<A>(p, k, b),
    ensures
        !tainted::<A>(p, b, s),
{
    if tainted::<A>(p, b, s) {
        reveal(tainted);
        let c = choose|c: u32| #[trigger] drifts::<A>(p, b, s, c) && is_nan(c);
        let (s0, q) = lemma_some_way::<A>(p, b, s, c);
        lemma_idle_reached::<A>(p, k, s0, b[s0], q);
        let route = lemma_reached_counts::<A>(p, low, k, s, c);
    }
}

proof fn lemma_unspoiled<A: Arith>(p: Problem, low: real, k: nat, f: Map<u32, u32>, ns: u32)
    requires
        faithful::<A>(),
        plain_costs(p, low),
        all_reached::<A>(p, k, f),
    ensures
        !spoiled::<A>(p, k, f, ns),
{
    if spoiled::<A>(p, k, f, ns) {
        reveal(spoiled);
        let (s, tr, c) = choose|s: u32, tr: Tr, c: u32| #[trigger]
            candidate::<A>(p, k, f, s, tr, c) && tr.nextstate == ns && is_nan(c);
        lemma_goes_on::<A>(p, k, s, f[s], Step { tr, cost: c });
        let route = lemma_reached_counts::<A>(p, low, k + 1, ns, c);
    }
}

/// With room for every state, nothing is dropped once transitions that take no time have been
/// followed; and everything is reached.
proof fn lemma_stage<A: Arith>(p: Problem, low: real, run: Seq<Stage>, all: Set<u32>, k: int)
    requires
        faithful::<A>(),
        plain_costs(p, low),
        is_run::<A>(p, run),
        covers(p.fst, all),
        all.finite(),
        p.max_active >= all.len(),
        0 <= k < run.len(),
    ensures
        all_reached::<A>(p, k as nat, run[k].entered),
        all_reached::<A>(p, k as nat, run[k].kept),
        closed::<A>(p, run[k].entered, run[k].kept),
    decreases k,
{
    let b = run[k].entered;
    assert(finished::<A>(p, k, run[k]));
    let e = choose|e: Map<u32, u32>| #[trigger]
        closed::<A>(p, b, e) && (if k == 0 {
            run[k].kept == e
        } else {
            capped(e, p.max_active, run[k].kept)
        });
    if k == 0 {
        assert(all_reached::<A>(p, 0, b)) by {
            reveal(reached);
            let none = Seq::<Step>::empty();
            assert(is_path::<A>(p, none));
        }
    } else {
        let j = k - 1;
        lemma_stage::<A>(p, low, run, all, j);
        let f = run[j].kept;
        assert(passes::<A>(p, j as nat, run[j].kept, run[j + 1].entered));
        let (n, best) = choose|n: Map<u32, u32>, best: u32| #[trigger]
            emission::<A>(p, j as nat, f, n, best) && pruned::<A>(p, n, best, b);
        lemma_frame_reached::<A>(p, j as nat, f, n, best);
        let cutoff = choose|cutoff: u32| #[trigger]
            sums::<A>(best, p.beam, cutoff) && b == within(n, cutoff);
        assert forall|s: u32| #[trigger] b.contains_key(s) implies reached::<A>(
            p,
            k as nat,
            s,
            b[s],
        ) by {
            assert(n.contains_key(s));
        }
        lemma_few::<A>(p, all, j as nat, f, n, best, b, e);
    }
    lemma_closed_reached::<A>(p, k as nat, b, e);
}

proof fn lemma_few<A: Arith>(
    p: Problem,
    all: Set<u32>,
    k: nat,
    f: Map<u32, u32>,
    n: Map<u32, u32>,
    best: u32,
    b: Map<u32, u32>,
    e: Map<u32, u32>,
)
    requires
        covers(p.fst, all),
        all.finite(),
        emission::<A>(p, k, f, n, best),
        forall|s: u32| #[trigger] b.contains_key(s) ==> n.contains_key(s),
        closed::<A>(p, b, e),
    ensures
        e.dom().len() <= all.len(),
{
    reveal(earned);
    assert forall|s: u32| e.dom().contains(s) implies all.contains(s) by {
        assert(e.contains_key(s));
        let (s0, q) = lemma_some_way::<A>(p, b, s, e[s]);
        if q.len() == 0 {
            assert(earned::<A>(p, k, f, s, n[s]));
            let (s1, tr) = choose|s1: u32, tr: Tr| #[trigger]
                candidate::<A>(p, k, f, s1, tr, n[s]) && tr.nextstate == s;
            assert(p.fst.trs_of(s1).contains(tr));
        } else {
            assert(p.fst.trs_of(idle_state(s0, q.drop_last())).contains(q.last().tr));
        }
    }
    assert(e.dom().subset_of(all));
    vstd::set_lib::lemma_len_subset(e.dom(), all);
}

/// What a transition takes off the cost at most.
proof fn lemma_total_step(p: Problem, low: real, route: Seq<Tr>, i: int)
    requires
        plain_costs(p, low),
        fits(p, route),
        0 <= i < route.len(),
    ensures
        price(p, route, i) >= (if route[i].ilabel == 0 {
            0real
        } else {
            -(2real * low)
        }),
{
    let tr = route[i];
    assert(p.fst.trs_of(place(p.fst, route, i)).contains(route[i]));
    assert(is_heard(p, route, i));
    if tr.ilabel != 0 {
        let k = frames_before(route, i) as int;
        let x = p.frames[k][p.tid2pdf[tr.ilabel as int] as int];
    }
}

/// What passes the beam: a cost that is no more than the beam above the cost of some route.
proof fn lemma_passes_beam<A: Arith>(
    p: Problem,
    v: real,
    best: u32,
    cutoff: u32,
    t: real,
    c: u32,
    l: real,
)
    requires
        faithful::<A>(),
        finite(p.beam),
        plain(value(p.beam), 0real),
        counts(v, best, l),
        sums::<A>(best, p.beam, cutoff),
        counts(t, c, l),
        t <= l,
        t <= v + value(p.beam),
    ensures
        at_most(c, cutoff),
{
    if finite(best) {
        assert(rounds(value(best) + value(p.beam), cutoff));
        assert(finite(c));
        assert(value(c) <= value(best) + value(p.beam));
    } else {
        assert(best == INFINITY);
        assert(cutoff == INFINITY);
    }
}

/// A path that is never out of the beam is never dropped: its state is kept, at no more than its
/// cost.
#[verifier::rlimit(40)]
proof fn lemma_kept<A: Arith>(
    p: Problem,
    low: real,
    run: Seq<Stage>,
    all: Set<u32>,
    path: Seq<Step>,
    route: Seq<Tr>,
)
    requires
        faithful::<A>(),
        orderly::<A>(),
        plain_costs(p, low),
        is_run::<A>(p, run),
        covers(p.fst, all),
        all.finite(),
        p.max_active >= all.len(),
        is_path::<A>(p, path),
        path.len() <= route.len(),
        taken(path) == route.take(path.len() as int),
        fits(p, route),
        in_beam(p, route),
        total(p, route, path.len() as int) <= bound(low, frames_of(path)),
    ensures
        frames_of(path) < run.len(),
        run[frames_of(path) as int].kept.contains_key(end_state(p, path)),
        at_most(run[frames_of(path) as int].kept[end_state(p, path)], end_cost(path)),
    decreases path.len(),
{
    lemma_path::<A>(p, low, path);
    lemma_front(p, route, taken(path), path.len() as int);
    if path.len() == 0 {
        lemma_stage::<A>(p, low, run, all, 0);
        let b = run[0].entered;
        assert(b.contains_key(p.fst.start->0));
        lemma_clean::<A>(p, low, 0, b, p.fst.start->0);
    } else {
        let front = path.drop_last();
        let m = front.len() as int;
        let k = frames_of(front);
        let s = end_state(p, front);
        let step = path.last();
        let ns = step.tr.nextstate;
        assert(taken(front) =~= route.take(m));
        lemma_path::<A>(p, low, front);
        lemma_bound(low, k, p.frames.len());
        lemma_total_step(p, low, route, m);
        assert(taken(path)[m] == step.tr && route[m] == step.tr);
        lemma_kept::<A>(p, low, run, all, front, route);
        assert(may_step::<A>(p, k, s, end_cost(front), step));
        let e = run[k as int].kept;
        lemma_stage::<A>(p, low, run, all, k as int);
        assert(p.fst.trs_of(s).contains(step.tr));
        if step.tr.ilabel == 0 {
            lemma_kept_idle::<A>(p, low, k, run[k as int].entered, e, s, end_cost(front), step);
        } else {
            let b = run[k as int + 1].entered;
            assert(passes::<A>(p, k, run[k as int].kept, run[k as int + 1].entered));
            let t = total(p, route, m + 1);
            assert forall|other: Seq<Tr>|
                #[trigger] fits(p, other) && frames_before(other, other.len() as int) == k
                    + 1 implies t <= total(p, other, other.len() as int) + value(p.beam) by {}
            lemma_kept_frame::<A>(p, low, k, e, b, s, end_cost(front), step, t);
            lemma_stage::<A>(p, low, run, all, k as int + 1);
            lemma_kept_closed::<A>(p, low, k + 1, b, run[k as int + 1].kept, ns, step.cost);
        }
    }
}

/// What has been entered is still there, at no more, once transitions that take no time have been
/// followed.
proof fn lemma_kept_closed<A: Arith>(
    p: Problem,
    low: real,
    k: nat,
    b: Map<u32, u32>,
    e: Map<u32, u32>,
    s: u32,
    c: u32,
)
    requires
        faithful::<A>(),
        plain_costs(p, low),
        all_reached::<A>(p, k, b),
        closed::<A>(p, b, e),
        b.contains_key(s),
        at_most(b[s], c),
    ensures
        e.contains_key(s),
        at_most(e[s], c),
{
    lemma_clean::<A>(p, low, k, b, s);
}

/// A step that takes no frame goes on from what is kept to what is kept.
proof fn lemma_kept_idle<A: Arith>(
    p: Problem,
    low: real,
    k: nat,
    b: Map<u32, u32>,
    e: Map<u32, u32>,
    s: u32,
    base: u32,
    step: Step,
)
    requires
        faithful::<A>(),
        orderly::<A>(),
        plain_costs(p, low),
        all_reached::<A>(p, k, b),
        closed::<A>(p, b, e),
        e.contains_key(s),
        at_most(e[s], base),
        step.tr.ilabel == 0,
        may_step::<A>(p, k, s, base, step),
        !is_nan(step.cost),
    ensures
        e.contains_key(step.tr.nextstate),
        at_most(e[step.tr.nextstate], step.cost),
{
    let ns = step.tr.nextstate;
    lemma_clean::<A>(p, low, k, b, ns);
    assert(p.fst.trs_of(s).contains(step.tr));
    let d = lemma_idle_offer::<A>(p, b, e, s, step.tr);
    assert(at_most(d, step.cost));
}

/// A step that takes a frame, and stays in the beam, goes on from what is kept to what is entered.
proof fn lemma_kept_frame<A: Arith>(
    p: Problem,
    low: real,
    k: nat,
    e: Map<u32, u32>,
    after: Map<u32, u32>,
    s: u32,
    base: u32,
    step: Step,
    t: real,
)
    requires
        faithful::<A>(),
        orderly::<A>(),
        plain_costs(p, low),
        all_reached::<A>(p, k, e),
        passes::<A>(p, k, e, after),
        e.contains_key(s),
        at_most(e[s], base),
        step.tr.ilabel != 0,
        may_step::<A>(p, k, s, base, step),
        counts(t, step.cost, bound(low, k + 1)),
        t <= bound(low, k + 1),
        forall|other: Seq<Tr>| #[trigger]
            fits(p, other) && frames_before(other, other.len() as int) == k + 1 ==> t <= total(
                p,
                other,
                other.len() as int,
            ) + value(p.beam),
    ensures
        after.contains_key(step.tr.nextstate),
        at_most(after[step.tr.nextstate], step.cost),
{
    let (n, best) = choose|n: Map<u32, u32>, best: u32| #[trigger]
        emission::<A>(p, k, e, n, best) && pruned::<A>(p, n, best, after);
    let cutoff = choose|cutoff: u32| #[trigger]
        sums::<A>(best, p.beam, cutoff) && after == within(n, cutoff);
    let c = lemma_offered::<A>(p, low, k, e, n, best, s, base, step);
    let other = lemma_best::<A>(p, low, k, e, n, best, c, step.cost);
    let v = total(p, other, other.len() as int);
    assert(fits(p, other));
    lemma_passes_beam::<A>(p, v, best, cutoff, t, step.cost, bound(low, k + 1));
}

/// A transition of a kept state is offered at no more than it would cost a dearer path.
proof fn lemma_offered<A: Arith>(
    p: Problem,
    low: real,
    k: nat,
    e: Map<u32, u32>,
    n: Map<u32, u32>,
    best: u32,
    s: u32,
    base: u32,
    step: Step,
) -> (c: u32)
    requires
        faithful::<A>(),
        orderly::<A>(),
        plain_costs(p, low),
        all_reached::<A>(p, k, e),
        emission::<A>(p, k, e, n, best),
        e.contains_key(s),
        at_most(e[s], base),
        step.tr.ilabel != 0,
        may_step::<A>(p, k, s, base, step),
        !is_nan(step.cost),
    ensures
        n.contains_key(step.tr.nextstate),
        at_most(n[step.tr.nextstate], c),
        at_most(c, step.cost),
        !less(c, best),
{
    let ns = step.tr.nextstate;
    lemma_unspoiled::<A>(p, low, k, e, ns);
    assert(p.fst.trs_of(s).contains(step.tr));
    assert(offered::<A>(p, k, e, n, best, s, step.tr));
    reveal(offered);
    let c = choose|c: u32| #[trigger]
        candidate::<A>(p, k, e, s, step.tr, c) && n.contains_key(ns) && !less(c, best) && (at_most(
            n[ns],
            c,
        ) || spoiled::<A>(p, k, e, ns));
    lemma_emits_orderly::<A>(
        e[s],
        base,
        step.tr.weight,
        p.score(k, step.tr.ilabel)->0,
        p.scale,
        c,
        step.cost,
    );
    c
}

/// The least cost of a frame is that of some route.
proof fn lemma_best<A: Arith>(
    p: Problem,
    low: real,
    k: nat,
    e: Map<u32, u32>,
    n: Map<u32, u32>,
    best: u32,
    c: u32,
    d: u32,
) -> (other: Seq<Tr>)
    requires
        faithful::<A>(),
        plain_costs(p, low),
        all_reached::<A>(p, k, e),
        emission::<A>(p, k, e, n, best),
        !less(c, best),
        at_most(c, d),
        finite(d),
    ensures
        fits(p, other),
        frames_before(other, other.len() as int) == k + 1,
        counts(total(p, other, other.len() as int), best, bound(low, k + 1)),
        k < p.frames.len(),
{
    assert(best != INFINITY);
    let ns = choose|ns: u32| #[trigger] earned::<A>(p, k, e, ns, best);
    reveal(earned);
    let (s, tr) = choose|s: u32, tr: Tr| #[trigger]
        candidate::<A>(p, k, e, s, tr, best) && tr.nextstate == ns;
    lemma_goes_on::<A>(p, k, s, e[s], Step { tr, cost: best });
    lemma_reached_counts::<A>(p, low, k + 1, ns, best)
}

proof fn lemma_labels(path: Seq<Step>)
    ensures
        labels(taken(path)) == words_of(path),
    decreases path.len(),
{
    reveal(Seq::filter);
    let f = |w: u32| w != 0;
    let g = |tr: Tr| tr.olabel;
    let all = taken(path).map_values(g);
    if path.len() > 0 {
        let front = path.drop_last();
        lemma_labels(front);
        assert(all.drop_last() =~= taken(front).map_values(g));
        assert(all.last() == path.last().tr.olabel);
    }
}

/// The answer of a search is the words of a best way through the transducer: it takes all frames
/// and ends where a way may end, and its transitions and its end add up to no more than those of
/// any other such way that stays in the beam.
#[verifier::rlimit(40)]
pub proof fn law_best_route<A: Arith>(
    p: Problem,
    low: real,
    words: Seq<u32>,
    all: Set<u32>,
    route: Seq<Tr>,
) -> (best: Seq<Tr>)
    requires
        faithful::<A>(),
        orderly::<A>(),
        answers::<A>(),
        plain_costs(p, low),
        covers(p.fst, all),
        all.finite(),
        p.max_active >= all.len(),
        is_answer::<A>(p, words),
        goes_through(p, route),
        in_beam(p, route),
        last_price(p, route) is Some,
        total(p, route, route.len() as int) + value(last_price(p, route)->0) < bound(
            low,
            p.frames.len(),
        ) - low,
    ensures
        goes_through(p, best),
        last_price(p, best) is Some,
        labels(best) == words,
        total(p, best, best.len() as int) + value(last_price(p, best)->0) <= total(
            p,
            route,
            route.len() as int,
        ) + value(last_price(p, route)->0),
{
    let (run, end) = choose|run: Seq<Stage>, s: Option<u32>|
        #![trigger is_run::<A>(p, run), ends_in::<A>(p, run.last().kept, s)]
        is_run::<A>(p, run) && ends_in::<A>(p, run.last().kept, s) && (match s {
            Some(s) => spells::<A>(p, run, s, words),
            None => words.len() == 0,
        });
    let d = run.last().kept;
    let path = lemma_route::<A>(p, low, route);
    lemma_path::<A>(p, low, path);
    assert(taken(path).len() == path.len());
    let n = route.len() as int;
    assert(route.take(n) =~= route);
    let x = place(p.fst, route, n);
    let w = last_price(p, route)->0;
    assert(finite(w) && plain(value(w), -low));
    let l = bound(low, p.frames.len());
    lemma_bound(low, p.frames.len(), p.frames.len());
    lemma_kept::<A>(p, low, run, all, path, route);
    lemma_stage::<A>(p, low, run, all, run.len() - 1);
    let fc = choose|fc: Map<u32, u32>| #[trigger]
        final_costs::<A>(p, d, fc) && (match end {
            Some(s) => cheapest(fc, s) || (hopeless(fc) && cheapest(d, s)),
            None => hopeless(fc) && hopeless(d),
        });
    assert(d.contains_key(x));
    assert(fc.contains_key(x));
    assert(has_sum::<A>(end_cost(path), w));
    let sum = choose|r: u32| #[trigger] sums::<A>(end_cost(path), w, r);
    let v = total(p, route, n) + value(w);
    lemma_add::<A>(total(p, route, n), end_cost(path), w, sum, l, low);
    let r1 = lemma_reached_counts::<A>(p, low, p.frames.len(), x, d[x]);
    lemma_add::<A>(total(p, r1, r1.len() as int), d[x], w, fc[x], l, low);
    assert(at_most(fc[x], sum));
    assert(less(fc[x], INFINITY));
    let s = end->0;
    assert(cheapest(fc, s));
    assert(fc.contains_key(s));
    assert(spells::<A>(p, run, s, words));
    let best = lemma_spelled::<A>(p, low, run, s, words);
    let b = taken(best);
    let m = b.len() as int;
    let u = p.fst.final_of(s)->0;
    assert(finite(u) && plain(value(u), -low));
    lemma_add::<A>(total(p, b, m), d[s], u, fc[s], l, low);
    assert(at_most(fc[s], sum));
    assert(finite(fc[s]));
    lemma_order(fc[s], sum);
    b
}

/// Where no way through all frames ends where one may end, the answer of a search is the words of a
/// way that takes all frames, and its transitions add up to no more than those of any other that
/// stays in the beam.
#[verifier::rlimit(40)]
pub proof fn law_best_route_without_end<A: Arith>(
    p: Problem,
    low: real,
    words: Seq<u32>,
    all: Set<u32>,
    route: Seq<Tr>,
) -> (best: Seq<Tr>)
    requires
        faithful::<A>(),
        orderly::<A>(),
        answers::<A>(),
        plain_costs(p, low),
        covers(p.fst, all),
        all.finite(),
        p.max_active >= all.len(),
        is_answer::<A>(p, words),
        forall|o: Seq<Tr>| #[trigger] goes_through(p, o) ==> last_price(p, o) is None,
        goes_through(p, route),
        in_beam(p, route),
        total(p, route, route.len() as int) < bound(low, p.frames.len()),
    ensures
        goes_through(p, best),
        labels(best) == words,
        total(p, best, best.len() as int) <= total(p, route, route.len() as int),
{
    let (run, end) = choose|run: Seq<Stage>, s: Option<u32>|
        #![trigger is_run::<A>(p, run), ends_in::<A>(p, run.last().kept, s)]
        is_run::<A>(p, run) && ends_in::<A>(p, run.last().kept, s) && (match s {
            Some(s) => spells::<A>(p, run, s, words),
            None => words.len() == 0,
        });
    let d = run.last().kept;
    let path = lemma_route::<A>(p, low, route);
    lemma_path::<A>(p, low, path);
    assert(taken(path).len() == path.len());
    let n = route.len() as int;
    assert(route.take(n) =~= route);
    let x = place(p.fst, route, n);
    lemma_kept::<A>(p, low, run, all, path, route);
    let fc = choose|fc: Map<u32, u32>| #[trigger]
        final_costs::<A>(p, d, fc) && (match end {
            Some(s) => cheapest(fc, s) || (hopeless(fc) && cheapest(d, s)),
            None => hopeless(fc) && hopeless(d),
        });
    assert(d.contains_key(x));
    assert(less(d[x], INFINITY));
    let s = end->0;
    lemma_stage::<A>(p, low, run, all, run.len() - 1);
    assert(hopeless(fc)) by {
        assert forall|z: u32| #[trigger] fc.contains_key(z) implies !less(fc[z], INFINITY) by {
            let o = lemma_reached_counts::<A>(p, low, p.frames.len(), z, d[z]);
            assert(goes_through(p, o));
        }
    }
    assert(!cheapest(fc, s)) by {
        assert(fc.contains_key(s) ==> !less(fc[s], INFINITY));
    }
    assert(cheapest(d, s));
    let best = lemma_spelled::<A>(p, low, run, s, words);
    let b = taken(best);
    let m = b.len() as int;
    assert(finite(d[s]));
    lemma_order(d[s], end_cost(path));
    b
}

/// Where no way takes all frames, the answer of a search has no words.
pub proof fn law_no_way<A: Arith>(p: Problem, low: real, words: Seq<u32>)
    requires
        faithful::<A>(),
        plain_costs(p, low),
        is_answer::<A>(p, words),
        forall|o: Seq<Tr>| !#[trigger] goes_through(p, o),
    ensures
        words.len() == 0,
{
    let (run, end) = choose|run: Seq<Stage>, s: Option<u32>|
        #![trigger is_run::<A>(p, run), ends_in::<A>(p, run.last().kept, s)]
        is_run::<A>(p, run) && ends_in::<A>(p, run.last().kept, s) && (match s {
            Some(s) => spells::<A>(p, run, s, words),
            None => words.len() == 0,
        });
    if let Some(s) = end {
        let path = lemma_spelled::<A>(p, low, run, s, words);
        assert(goes_through(p, taken(path)));
    }
}

/// The path whose words are the answer.
proof fn lemma_spelled<A: Arith>(
    p: Problem,
    low: real,
    run: Seq<Stage>,
    s: u32,
    words: Seq<u32>,
) -> (path: Seq<Step>)
    requires
        faithful::<A>(),
        plain_costs(p, low),
        spells::<A>(p, run, s, words),
    ensures
        is_path::<A>(p, path),
        keeps_to(p, run, path),
        goes_through(p, taken(path)),
        place(p.fst, taken(path), path.len() as int) == s,
        counts(
            total(p, taken(path), path.len() as int),
            run.last().kept[s],
            bound(low, p.frames.len()),
        ),
        end_cost(path) == run.last().kept[s],
        labels(taken(path)) == words,
{
    let path = choose|path: Seq<Step>|
        {
            &&& #[trigger] is_path::<A>(p, path)
            &&& frames_of(path) == p.frames.len()
            &&& keeps_to(p, run, path)
            &&& end_state(p, path) == s
            &&& end_cost(path) == run.last().kept[s]
            &&& words_of(path) == words
        };
    lemma_path::<A>(p, low, path);
    lemma_labels(path);
    assert(taken(path).len() == path.len());
    path
}

proof fn lemma_path_front<A: Arith>(p: Problem, run: Seq<Stage>, path: Seq<Step>, n: int)
    requires
        is_path::<A>(p, path),
        keeps_to(p, run, path),
        0 <= n <= path.len(),
    ensures
        is_path::<A>(p, path.take(n)),
        keeps_to(p, run, path.take(n)),
    decreases path.len() - n,
{
    if n == path.len() {
        assert(path.take(n) =~= path);
    } else {
        lemma_path_front::<A>(p, run, path, n + 1);
        assert(path.take(n + 1).drop_last() =~= path.take(n));
    }
}

/// What passes a frame costs no more than the beam above what can be come to.
proof fn lemma_cut<A: Arith>(
    p: Problem,
    low: real,
    k: nat,
    e: Map<u32, u32>,
    after: Map<u32, u32>,
    s: u32,
    base: u32,
    step: Step,
    t: real,
    x: u32,
    v: real,
)
    requires
        faithful::<A>(),
        orderly::<A>(),
        plain_costs(p, low),
        all_reached::<A>(p, k, e),
        passes::<A>(p, k, e, after),
        e.contains_key(s),
        at_most(e[s], base),
        step.tr.ilabel != 0,
        may_step::<A>(p, k, s, base, step),
        counts(t, step.cost, bound(low, k + 1)),
        t + value(p.beam) < bound(low, k + 1),
        after.contains_key(x),
        counts(v, after[x], bound(low, k + 1)),
    ensures
        v <= t + value(p.beam),
{
    let (n, best) = choose|n: Map<u32, u32>, best: u32| #[trigger]
        emission::<A>(p, k, e, n, best) && pruned::<A>(p, n, best, after);
    let cutoff = choose|cutoff: u32| #[trigger]
        sums::<A>(best, p.beam, cutoff) && after == within(n, cutoff);
    let c = lemma_offered::<A>(p, low, k, e, n, best, s, base, step);
    let other = lemma_best::<A>(p, low, k, e, n, best, c, step.cost);
    let u = total(p, other, other.len() as int);
    lemma_bound(low, k + 1, p.frames.len());
    assert(is_int(0real, 0));
    assert(finite(step.cost));
    assert(finite(best));
    lemma_order(best, step.cost);
    lemma_add::<A>(u, best, p.beam, cutoff, bound(low, k + 1), 0real);
    assert(finite(after[x]));
    lemma_order(after[x], cutoff);
}

/// The way whose words are the answer of a search is nowhere out of the beam: after each frame, it
/// costs no more than the beam above any way through as many frames that has been in the beam
/// so far.
#[verifier::rlimit(40)]
pub proof fn law_in_beam<A: Arith>(
    p: Problem,
    low: real,
    words: Seq<u32>,
    all: Set<u32>,
    others: Set<Seq<Tr>>,
) -> (best: Seq<Tr>)
    requires
        faithful::<A>(),
        orderly::<A>(),
        answers::<A>(),
        plain_costs(p, low),
        covers(p.fst, all),
        all.finite(),
        p.max_active >= all.len(),
        is_answer::<A>(p, words),
        words.len() > 0,
        forall|o: Seq<Tr>| #[trigger]
            others.contains(o) ==> fits(p, o) && in_beam(p, o) && o.len() > 0 && o.last().ilabel
                != 0 && total(p, o, o.len() as int) + value(p.beam) < bound(
                low,
                frames_before(o, o.len() as int),
            ),
    ensures
        goes_through(p, best),
        labels(best) == words,
        forall|i: int, o: Seq<Tr>|
            #![trigger total(p, best, i + 1), others.contains(o)]
            0 <= i < best.len() && best[i].ilabel != 0 && others.contains(o) && frames_before(
                o,
                o.len() as int,
            ) == frames_before(best, i + 1) ==> total(p, best, i + 1) <= total(
                p,
                o,
                o.len() as int,
            ) + value(p.beam),
{
    let (run, end) = choose|run: Seq<Stage>, s: Option<u32>|
        #![trigger is_run::<A>(p, run), ends_in::<A>(p, run.last().kept, s)]
        is_run::<A>(p, run) && ends_in::<A>(p, run.last().kept, s) && (match s {
            Some(s) => spells::<A>(p, run, s, words),
            None => words.len() == 0,
        });
    let best = lemma_spelled::<A>(p, low, run, end->0, words);
    let b = taken(best);
    assert forall|i: int, o: Seq<Tr>|
        #![trigger total(p, b, i + 1), others.contains(o)]
        0 <= i < b.len() && b[i].ilabel != 0 && others.contains(o) && frames_before(
            o,
            o.len() as int,
        ) == frames_before(b, i + 1) implies total(p, b, i + 1) <= total(p, o, o.len() as int)
        + value(p.beam) by {
        lemma_path_front::<A>(p, run, best, i + 1);
        let front = best.take(i + 1);
        assert(taken(front) =~= b.take(i + 1));
        lemma_path::<A>(p, low, front);
        lemma_front(p, b, taken(front), i + 1);
        assert(front.last() == best[i] && b[i] == best[i].tr);
        lemma_one_cut::<A>(p, low, run, all, front, o);
    }
    b
}

#[verifier::rlimit(40)]
proof fn lemma_one_cut<A: Arith>(
    p: Problem,
    low: real,
    run: Seq<Stage>,
    all: Set<u32>,
    path: Seq<Step>,
    o: Seq<Tr>,
)
    requires
        faithful::<A>(),
        orderly::<A>(),
        answers::<A>(),
        plain_costs(p, low),
        is_run::<A>(p, run),
        covers(p.fst, all),
        all.finite(),
        p.max_active >= all.len(),
        is_path::<A>(p, path),
        keeps_to(p, run, path),
        path.len() > 0,
        path.last().tr.ilabel != 0,
        fits(p, o),
        in_beam(p, o),
        o.len() > 0,
        o.last().ilabel != 0,
        frames_before(o, o.len() as int) == frames_of(path),
        total(p, o, o.len() as int) + value(p.beam) < bound(low, frames_of(path)),
    ensures
        total(p, taken(path), path.len() as int) <= total(p, o, o.len() as int) + value(p.beam),
{
    lemma_path::<A>(p, low, path);
    let k = frames_of(path.drop_last());
    let way = lemma_route::<A>(p, low, o);
    lemma_path::<A>(p, low, way);
    assert(taken(way).len() == way.len());
    let front = way.drop_last();
    let n = front.len() as int;
    assert(taken(front) =~= o.take(n));
    lemma_path::<A>(p, low, front);
    lemma_bound(low, k, p.frames.len());
    lemma_front(p, o, taken(front), n);
    lemma_total_step(p, low, o, n);
    assert(o[n] == o.last());
    lemma_kept::<A>(p, low, run, all, front, o);
    assert(o.last() == way.last().tr);
    let step = way.last();
    assert(may_step::<A>(p, k, end_state(p, front), end_cost(front), step));
    assert(p.score(k, step.tr.ilabel) is Some);
    assert(k < p.frames.len());
    lemma_stage::<A>(p, low, run, all, k as int);
    assert(passes::<A>(p, k, run[k as int].kept, run[k as int + 1].entered));
    let t = total(p, o, o.len() as int);
    lemma_cut::<A>(
        p, low,
        k,
        run[k as int].kept,
        run[k as int + 1].entered,
        end_state(p, front),
        end_cost(front),
        step,
        t,
        path.last().tr.nextstate,
        total(p, taken(path), path.len() as int),
    );
}

/// Everything that a search comes to is reached by a path.
proof fn lemma_begun<A: Arith>(p: Problem, run: Seq<Stage>, k: int)
    requires
        is_begun::<A>(p, run),
        0 <= k < run.len(),
    ensures
        all_reached::<A>(p, k as nat, run[k].entered),
        finished::<A>(p, k, run[k]) ==> all_reached::<A>(p, k as nat, run[k].kept),
    decreases k,
{
    let b = run[k].entered;
    if k == 0 {
        assert(all_reached::<A>(p, 0, b)) by {
            reveal(reached);
            let none = Seq::<Step>::empty();
            assert(is_path::<A>(p, none));
        }
    } else {
        let j = k - 1;
        assert(finished::<A>(p, j, run[j]));
        lemma_begun::<A>(p, run, j);
        let f = run[j].kept;
        assert(passes::<A>(p, j as nat, run[j].kept, run[j + 1].entered));
        let (n, best) = choose|n: Map<u32, u32>, best: u32| #[trigger]
            emission::<A>(p, j as nat, f, n, best) && pruned::<A>(p, n, best, b);
        lemma_frame_reached::<A>(p, j as nat, f, n, best);
        let cutoff = choose|cutoff: u32| #[trigger]
            sums::<A>(best, p.beam, cutoff) && b == within(n, cutoff);
        assert forall|s: u32| #[trigger] b.contains_key(s) implies reached::<A>(
            p,
            k as nat,
            s,
            b[s],
        ) by {
            assert(n.contains_key(s));
        }
    }
    if finished::<A>(p, k, run[k]) {
        let e = choose|e: Map<u32, u32>| #[trigger]
            closed::<A>(p, b, e) && (if k == 0 {
                run[k].kept == e
            } else {
                capped(e, p.max_active, run[k].kept)
            });
        lemma_closed_reached::<A>(p, k as nat, b, e);
        let d = run[k].kept;
        assert forall|s: u32| #[trigger] d.contains_key(s) implies reached::<A>(
            p,
            k as nat,
            s,
            d[s],
        ) by {
            assert(d.dom().contains(s));
            assert(e.contains_key(s));
        }
    }
}

/// A search that fails for a transition has come to it: some route ends where the transition
/// begins. It has a transition-id that the table of pdf-ids does not hold, or the next frame says
/// nothing about its pdf-id.
pub proof fn law_fault<A: Arith>(p: Problem, low: real, e: DecodeError) -> (found: (Seq<Tr>, Tr))
    requires
        faithful::<A>(),
        plain_costs(p, low),
        is_fault::<A>(p, e),
        e == DecodeError::UnknownTransition || e == DecodeError::UnknownPdf,
    ensures
        fits(p, found.0),
        p.fst.trs_of(place(p.fst, found.0, found.0.len() as int)).contains(found.1),
        found.1.ilabel != 0,
        e == DecodeError::UnknownTransition <==> found.1.ilabel >= p.tid2pdf.len(),
        frames_before(found.0, found.0.len() as int) < p.frames.len(),
        e == DecodeError::UnknownPdf ==> {
            let frame = p.frames[frames_before(found.0, found.0.len() as int) as int];
            let pdf = p.tid2pdf[found.1.ilabel as int];
            pdf < 0 || pdf >= frame.len()
        },
{
    let run = choose|run: Seq<Stage>| #[trigger] is_begun::<A>(p, run) && fails::<A>(p, run, e);
    let k = run.len() - 1;
    lemma_begun::<A>(p, run, k);
    let (s, tr) = if e == DecodeError::UnknownTransition {
        choose|s: u32, tr: Tr| #[trigger] meets_unknown_transition(p, run, s, tr)
    } else {
        choose|s: u32, tr: Tr| #[trigger] meets_unknown_pdf(p, run, s, tr)
    };
    let route = lemma_reached_counts::<A>(p, low, k as nat, s, run.last().kept[s]);
    (route, tr)
}

/// A search does not fail where every state lists its transitions and every frame says something
/// about every pdf-id that a transition stands for.
pub proof fn law_search_succeeds<A: Arith>(p: Problem, low: real, e: DecodeError)
    requires
        faithful::<A>(),
        plain_costs(p, low),
        forall|s: u32| !#[trigger] p.fst.broken(s),
        forall|s: u32, tr: Tr, k: int|
            #![trigger p.fst.trs_of(s).contains(tr), p.frames[k]]
            p.fst.trs_of(s).contains(tr) && tr.ilabel != 0 && 0 <= k < p.frames.len() ==> tr.ilabel
                < p.tid2pdf.len() && 0 <= p.tid2pdf[tr.ilabel as int] < p.frames[k].len(),
    ensures
        !is_fault::<A>(p, e),
{
    if is_fault::<A>(p, e) {
        if e == DecodeError::UnknownTransition || e == DecodeError::UnknownPdf {
            let (route, tr) = law_fault::<A>(p, low, e);
            let k = frames_before(route, route.len() as int) as int;
            let s = place(p.fst, route, route.len() as int);
            assert(p.fst.trs_of(s).contains(tr));
            assert(p.frames[k].len() >= 0);
        } else if e == DecodeError::NotANumber {
            let run = choose|run: Seq<Stage>| #[trigger]
                is_begun::<A>(p, run) && fails::<A>(p, run, e);
            let all = choose|e: Map<u32, u32>| #[trigger] meets_no_order::<A>(p, run, e);
            let k = run.len() - 1;
            lemma_begun::<A>(p, run, k);
            lemma_closed_reached::<A>(p, k as nat, run.last().entered, all);
            assert forall|s: u32| #[trigger] all.contains_key(s) implies !is_nan(all[s]) by {
                let route = lemma_reached_counts::<A>(p, low, k as nat, s, all[s]);
            }
        } else {
            let run = choose|run: Seq<Stage>| #[trigger]
                is_begun::<A>(p, run) && fails::<A>(p, run, e);
            let (s, c) = choose|s: u32, c: u32| #[trigger]
                drifts::<A>(p, run.last().entered, s, c) && p.fst.broken(s);
        }
    }
}

/// No more states than the limit allows are kept after a frame. They are all that are come to, or
/// the cheapest of these.
pub proof fn law_few_kept<A: Arith>(p: Problem, run: Seq<Stage>, k: int)
    requires
        is_run::<A>(p, run),
        0 < k < run.len(),
    ensures
        run[k].kept.dom().len() <= p.max_active,
        exists|e: Map<u32, u32>|
            {
                &&& #[trigger] closed::<A>(p, run[k].entered, e)
                &&& forall|s: u32| #[trigger]
                    run[k].kept.contains_key(s) ==> e.contains_key(s) && run[k].kept[s] == e[s]
                &&& e.dom().len() <= p.max_active ==> run[k].kept == e
                &&& e.dom().len() > p.max_active ==> run[k].kept.dom().len() == p.max_active
                &&& forall|s: u32, t: u32|
                    #![trigger run[k].kept.contains_key(s), e.contains_key(t)]
                    run[k].kept.contains_key(s) && e.contains_key(t) && !run[k].kept.contains_key(t)
                        ==> key(e[s]) <= key(e[t])
            },
{
    assert(finished::<A>(p, k, run[k]));
    let e = choose|e: Map<u32, u32>| #[trigger]
        closed::<A>(p, run[k].entered, e) && capped(e, p.max_active, run[k].kept);
    let d = run[k].kept;
    assert forall|s: u32| #[trigger] d.contains_key(s) implies e.contains_key(s) && d[s] == e[s] by {
        assert(d.dom().contains(s));
    }
}

} // verus!
