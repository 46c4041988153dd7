//! Token-passing Viterbi search for the best path through a transducer.

use vstd::prelude::*;

use crate::frontier::Frontier;
use crate::fst::{Fst, Tr};
use crate::search::{
    blotted, candidate, capped, cheapest, closed, comes_round, drifts, earned, emission, emits,
    end_cost, end_state, ends_in, fails, final_costs, finished, follows, frames_of, heeded,
    hopeless, idle_cost, idle_state, is_answer, in_order, is_begun, is_fault, is_idle, is_path,
    is_run, keeps_to, lemma_drift_start, lemma_drift_step, may_step, meets_no_order,
    meets_unknown_pdf, meets_unknown_transition, offered, outdone, passes, pruned, reached_past,
    settled, spells, spoiled, tainted, within, words_of, DecodeError, Problem, Stage, Step,
};
use crate::single::{
    at_most, is_nan, key, le, less, lt, neg, negation, not_a_number, order_key, products, sums,
    Arith, INFINITY, ZERO,
};

verus! {

/// A path, by its cost, its last output label and the token of the path that it goes on from.
#[derive(Clone, Copy)]
struct Tok {
    cost: u32,
    back: Option<usize>,
    word: u32,
}

/// All tokens made so far. Tokens are added and never changed.
struct Arena {
    toks: Vec<Tok>,
    /// The state in which the path of each token ends.
    ends: Vec<u32>,
    paths: Ghost<Seq<Seq<Step>>>,
}

impl Arena {
    spec fn path(self, i: usize) -> Seq<Step> {
        self.paths@[i as int]
    }

    spec fn describes<A: Arith>(self, p: Problem, i: usize) -> bool {
        let tok = self.toks@[i as int];
        let path = self.path(i);
        &&& is_path::<A>(p, path)
        &&& tok.cost == end_cost(path)
        &&& self.ends@[i as int] == end_state(p, path)
        &&& match tok.back {
            None => path.len() == 0 && tok.word == 0,
            Some(b) => b < i && path.len() > 0 && path.drop_last() == self.path(b) && tok.word
                == path.last().tr.olabel,
        }
    }

    /// Every token stands for a path.
    spec fn wf<A: Arith>(self, p: Problem) -> bool {
        &&& self.paths@.len() == self.toks@.len()
        &&& self.ends@.len() == self.toks@.len()
        &&& forall|i: usize| i < self.toks@.len() ==> #[trigger] self.describes::<A>(p, i)
    }

    /// `self` holds the tokens of `old`, and perhaps more.
    spec fn grown_from(self, old: Arena) -> bool {
        &&& old.toks@.len() <= self.toks@.len()
        &&& old.paths@.len() == old.toks@.len()
        &&& self.paths@.len() == self.toks@.len()
        &&& forall|i: int|
            0 <= i < old.toks@.len() ==> #[trigger] self.toks@[i] == old.toks@[i] && self.paths@[i]
                == old.paths@[i]
    }
}

proof fn lemma_grown(a: Arena, b: Arena, c: Arena)
    requires
        b.grown_from(a),
        c.grown_from(b),
    ensures
        c.grown_from(a),
{
    assert forall|i: int| 0 <= i < a.toks@.len() implies #[trigger] c.toks@[i] == a.toks@[i]
        && c.paths@[i] == a.paths@[i] by {
        assert(b.toks@[i] == a.toks@[i]);
    }
}

/// The cost of each state of a frontier.
spec fn costs(a: Arena, f: Frontier) -> Map<u32, u32> {
    Map::new(
        |s: u32| f.tokens().contains_key(s),
        |s: u32| a.toks@[f.tokens()[s] as int].cost,
    )
}

/// The token of each state stands for a path of `k` frames to that state.
spec fn live(p: Problem, a: Arena, f: Frontier, k: nat) -> bool {
    &&& f.wf()
    &&& forall|s: u32| #[trigger]
        f.tokens().contains_key(s) ==> f.tokens()[s] < a.toks@.len() && end_state(
            p,
            a.path(f.tokens()[s]),
        ) == s && frames_of(a.path(f.tokens()[s])) == k
}

/// The token of each state stands for a path that keeps to the search.
#[verifier::opaque]
spec fn held(p: Problem, run: Seq<Stage>, a: Arena, f: Frontier) -> bool {
    forall|s: u32| #[trigger]
        f.tokens().contains_key(s) ==> keeps_to(p, run, a.path(f.tokens()[s]))
}

/// The token of each state stands for a path that has just taken a frame.
#[verifier::opaque]
spec fn arrived(a: Arena, f: Frontier) -> bool {
    forall|s: u32| #[trigger]
        f.tokens().contains_key(s) ==> {
            let path = a.path(f.tokens()[s]);
            path.len() > 0 && path.last().tr.ilabel != 0
        }
}

/// What a path keeps to is not changed by what comes after it in the search.
proof fn lemma_keeps(p: Problem, r1: Seq<Stage>, r2: Seq<Stage>, path: Seq<Step>, m: int)
    requires
        frames_of(path) <= m,
        m < r1.len(),
        m < r2.len(),
        forall|k: int| 0 <= k < m ==> #[trigger] r1[k] == r2[k],
        r1[m].entered == r2[m].entered,
        keeps_to(p, r1, path),
    ensures
        keeps_to(p, r2, path),
    decreases path.len(),
{
    if path.len() > 0 {
        let front = path.drop_last();
        let k = frames_of(front) as int;
        lemma_keeps(p, r1, r2, front, m);
        if path.last().tr.ilabel != 0 {
            assert(r1[k] == r2[k]);
            if k + 1 < m {
                assert(r1[k + 1] == r2[k + 1]);
            }
        }
    }
}

/// Tokens that have just taken a frame, and passed the beam, keep to the search with its new stage.
proof fn lemma_enter(p: Problem, run: Seq<Stage>, st: Stage, a: Arena, f: Frontier)
    requires
        run.len() > 0,
        live(p, a, f, run.len()),
        held(p, run, a, f),
        arrived(a, f),
        st.entered == costs(a, f),
        a.paths@.len() == a.toks@.len(),
        forall|i: usize| i < a.toks@.len() ==> a.toks@[i as int].cost == end_cost(
            #[trigger] a.path(i),
        ),
    ensures
        held(p, run.push(st), a, f),
{
    reveal(held);
    reveal(arrived);
    let longer = run.push(st);
    assert forall|s: u32| #[trigger] f.tokens().contains_key(s) implies keeps_to(
        p,
        longer,
        a.path(f.tokens()[s]),
    ) by {
        let path = a.path(f.tokens()[s]);
        let front = path.drop_last();
        assert(frames_of(path) == run.len());
        assert(frames_of(front) == run.len() - 1);
        assert(keeps_to(p, run, path));
        lemma_keeps(p, run, longer, front, run.len() - 1);
        assert(longer[run.len() - 1] == run[run.len() - 1]);
        assert(costs(a, f).contains_key(s));
    }
}

/// A new token leaves those that keep to the search doing so, if its own path does.
proof fn lemma_held_on(
    p: Problem,
    run: Seq<Stage>,
    a: Arena,
    f: Frontier,
    a2: Arena,
    f2: Frontier,
    s: u32,
    path: Seq<Step>,
    k: nat,
)
    requires
        held(p, run, a, f),
        live(p, a, f, k),
        a2.grown_from(a),
        keeps_to(p, run, path),
        (f2 == f && a2 == a) || (a2.paths@ == a.paths@.push(path) && f2.tokens()
            == f.tokens().insert(s, a.toks@.len() as usize) && a.toks@.len() <= usize::MAX),
    ensures
        held(p, run, a2, f2),
{
    reveal(held);
    assert forall|x: u32| #[trigger] f2.tokens().contains_key(x) implies keeps_to(
        p,
        run,
        a2.path(f2.tokens()[x]),
    ) by {
        if f2 != f && x == s {
            assert(a2.path(f2.tokens()[x]) == path);
        } else {
            assert(f.tokens().contains_key(x));
            assert(a2.toks@[f.tokens()[x] as int] == a.toks@[f.tokens()[x] as int]);
        }
    }
}

spec fn all_numbers(m: Map<u32, u32>) -> bool {
    forall|s: u32| #[trigger] m.contains_key(s) ==> !is_nan(m[s])
}

/// Offer the path that goes on from token `back` with `tr` to the state that it leads to: it is
/// taken unless that state has one that costs no more.
fn relax<A: Arith>(
    arena: &mut Arena,
    map: &mut Frontier,
    back: usize,
    tr: Tr,
    cost: u32,
    Ghost(p): Ghost<Problem>,
    Ghost(k): Ghost<nat>,
) -> (r: bool)
    requires
        old(arena).wf::<A>(p),
        live(p, *old(arena), *old(map), k),
        back < old(arena).toks@.len(),
        may_step::<A>(
            p,
            frames_of(old(arena).path(back)),
            end_state(p, old(arena).path(back)),
            end_cost(old(arena).path(back)),
            (Step { tr, cost }),
        ),
        k == frames_of(old(arena).path(back)) + (if tr.ilabel == 0 {
            0nat
        } else {
            1nat
        }),
    ensures
        final(arena).wf::<A>(p),
        final(arena).grown_from(*old(arena)),
        live(p, *final(arena), *final(map), k),
        r == !(old(map).tokens().contains_key(tr.nextstate) && at_most(
            costs(*old(arena), *old(map))[tr.nextstate],
            cost,
        )),
        costs(*final(arena), *final(map)) == (if r {
            costs(*old(arena), *old(map)).insert(tr.nextstate, cost)
        } else {
            costs(*old(arena), *old(map))
        }),
        !r ==> *final(map) == *old(map) && *final(arena) == *old(arena),
        r ==> {
            &&& old(arena).toks@.len() <= usize::MAX
            &&& final(arena).toks@ == old(arena).toks@.push(
                (Tok { cost, back: Some(back), word: tr.olabel }),
            )
            &&& final(arena).paths@ == old(arena).paths@.push(
                old(arena).path(back).push((Step { tr, cost })),
            )
            &&& final(map).tokens() == old(map).tokens().insert(
                tr.nextstate,
                old(arena).toks@.len() as usize,
            )
        },
{
    match map.get(tr.nextstate) {
        Some(i) => {
            if le(arena.toks[i].cost, cost) {
                return false;
            }
        },
        None => {},
    }
    let ghost a = *arena;
    let ghost m = *map;
    let idx: usize = arena.toks.len();
    let ghost path = arena.path(back).push(Step { tr, cost });
    arena.toks.push(Tok { cost, back: Some(back), word: tr.olabel });
    arena.ends.push(tr.nextstate);
    arena.paths = Ghost(arena.paths@.push(path));
    map.insert(tr.nextstate, idx);
    proof {
        assert(path.drop_last() =~= a.path(back));
        assert(a.describes::<A>(p, back));
        assert(is_path::<A>(p, path));
        assert(arena.describes::<A>(p, idx));
        assert forall|i: usize| i < arena.toks@.len() implies #[trigger] arena.describes::<A>(
            p,
            i,
        ) by {
            if i < idx {
                assert(a.describes::<A>(p, i));
            }
        }
        assert(arena.grown_from(a));
        assert(costs(*arena, *map) =~= costs(a, m).insert(tr.nextstate, cost));
    }
    true
}

/// How far the cost of state `s` can still fall. One that is no number falls to any that is.
spec fn room(m: Map<u32, u32>, s: u32) -> nat {
    if m.contains_key(s) && !is_nan(m[s]) {
        (key(m[s]) + 0x8000_0000) as nat
    } else {
        0x1_0000_0000
    }
}

/// How far the costs of the states below `n` can still fall, taken together.
spec fn total_room(m: Map<u32, u32>, n: nat) -> nat
    decreases n,
{
    if n == 0 {
        0
    } else {
        total_room(m, (n - 1) as nat) + room(m, (n - 1) as u32)
    }
}

proof fn lemma_room_shrinks(m: Map<u32, u32>, s: u32, c: u32, n: nat)
    requires
        n <= 0x1_0000_0000,
        !is_nan(c),
        m.contains_key(s) ==> is_nan(m[s]) || key(c) < key(m[s]),
    ensures
        s < n ==> total_room(m.insert(s, c), n) < total_room(m, n),
        s >= n ==> total_room(m.insert(s, c), n) == total_room(m, n),
    decreases n,
{
    if n > 0 {
        lemma_room_shrinks(m, s, c, (n - 1) as nat);
    }
}

/// `e` has the states of `m`, at no greater cost, but for states that some way out of `b` leads to
/// at a cost that is no number.
spec fn no_dearer<A: Arith>(
    p: Problem,
    b: Map<u32, u32>,
    m: Map<u32, u32>,
    e: Map<u32, u32>,
) -> bool {
    forall|s: u32| #[trigger]
        m.contains_key(s) ==> e.contains_key(s) && (at_most(e[s], m[s]) || tainted::<A>(p, b, s))
}

/// What transition `j` of `s` left true when it was offered stays true when transition `i` of `t`
/// is taken: one of another state, or a later one of the same.
proof fn lemma_heeded_stays<A: Arith>(
    p: Problem,
    b: Map<u32, u32>,
    e: Map<u32, u32>,
    f: Map<u32, u32>,
    s: u32,
    c: u32,
    j: int,
    t: u32,
    base: u32,
    i: int,
    cost: u32,
)
    requires
        heeded::<A>(p, b, e, s, c, j),
        drifts::<A>(p, b, t, base),
        0 <= i < p.fst.trs_of(t).len(),
        p.fst.trs_of(t)[i].ilabel == 0,
        sums::<A>(base, p.fst.trs_of(t)[i].weight, cost),
        f == e.insert(p.fst.trs_of(t)[i].nextstate, cost),
        e.contains_key(p.fst.trs_of(t)[i].nextstate) ==> !at_most(
            e[p.fst.trs_of(t)[i].nextstate],
            cost,
        ),
        s != t || (c == base && j < i),
    ensures
        heeded::<A>(p, b, f, s, c, j),
{
    reveal(heeded);
    let tr = p.fst.trs_of(s)[j];
    let ns = tr.nextstate;
    let d = choose|d: u32| #[trigger]
        sums::<A>(c, tr.weight, d) && e.contains_key(ns) && if is_nan(d) {
            ||| is_nan(e[ns])
            ||| outdone::<A>(p, s, c, j, e[ns])
            ||| reached_past::<A>(p, b, ns, e[ns], s)
            ||| comes_round::<A>(p, b, ns, s)
        } else {
            at_most(e[ns], d) || blotted::<A>(p, b, s, c, j)
        };
    assert(sums::<A>(c, tr.weight, d));
    if p.fst.trs_of(t)[i].nextstate == ns {
        if s != t {
            lemma_step_past::<A>(p, b, t, base, p.fst.trs_of(t)[i], cost, s);
        } else {
            assert(follows::<A>(p, s, c, j, i, cost));
        }
        if is_nan(d) {
            if !is_nan(cost) && s == t {
                assert(outdone::<A>(p, s, c, j, cost));
            }
        } else if is_nan(cost) {
            assert(blotted::<A>(p, b, s, c, j)) by {
                reveal(blotted);
            }
        }
    }
}

proof fn lemma_step_past<A: Arith>(
    p: Problem,
    b: Map<u32, u32>,
    s: u32,
    c: u32,
    tr: Tr,
    d: u32,
    from: u32,
)
    requires
        drifts::<A>(p, b, s, c),
        p.fst.trs_of(s).contains(tr),
        tr.ilabel == 0,
        sums::<A>(c, tr.weight, d),
        from != s,
    ensures
        reached_past::<A>(p, b, tr.nextstate, d, from),
{
    reveal(drifts);
    reveal(reached_past);
    let (s0, q) = choose|s0: u32, q: Seq<Step>|
        b.contains_key(s0) && #[trigger] is_idle::<A>(p, s0, b[s0], q) && idle_state(s0, q) == s
            && idle_cost(b[s0], q) == c;
    let q2 = q.push(Step { tr, cost: d });
    assert(q2.drop_last() =~= q);
    assert(is_idle::<A>(p, s0, b[s0], q2));
}

/// The arena and the frontier are in order, and the frontier holds what is reached in no time from
/// what entered the last stage of the search, at no more than the cost it had there.
#[verifier::opaque]
spec fn sound<A: Arith>(p: Problem, run: Seq<Stage>, a: Arena, f: Frontier) -> bool {
    &&& run.len() > 0
    &&& a.wf::<A>(p)
    &&& live(p, a, f, (run.len() - 1) as nat)
    &&& held(p, run, a, f)
    &&& no_dearer::<A>(p, run.last().entered, run.last().entered, costs(a, f))
    &&& forall|s: u32| #[trigger]
        costs(a, f).contains_key(s) ==> drifts::<A>(p, run.last().entered, s, costs(a, f)[s])
}

/// Every state but those in `q`, and but `s`, is settled.
#[verifier::opaque]
spec fn quiet<A: Arith>(
    p: Problem,
    b: Map<u32, u32>,
    e: Map<u32, u32>,
    q: Seq<u32>,
    s: Option<u32>,
) -> bool {
    forall|x: u32| #[trigger]
        e.contains_key(x) && !q.contains(x) && s != Some(x) ==> settled::<A>(p, b, e, x)
}

/// The first `i` transitions of `s` have been offered at cost `base`.
#[verifier::opaque]
spec fn tried<A: Arith>(
    p: Problem,
    b: Map<u32, u32>,
    s: u32,
    i: int,
    base: u32,
    e: Map<u32, u32>,
) -> bool {
    forall|j: int|
        0 <= j < i && (#[trigger] p.fst.trs_of(s)[j]).ilabel == 0 ==> heeded::<A>(
            p,
            b,
            e,
            s,
            base,
            j,
        )
}

proof fn lemma_pop_quiet<A: Arith>(
    p: Problem,
    b: Map<u32, u32>,
    e: Map<u32, u32>,
    q: Seq<u32>,
)
    requires
        q.len() > 0,
        quiet::<A>(p, b, e, q, None),
    ensures
        quiet::<A>(p, b, e, q.drop_last(), Some(q.last())),
        !e.contains_key(q.last()) ==> quiet::<A>(p, b, e, q.drop_last(), None),
{
    reveal(quiet);
    assert forall|x: u32| #[trigger]
        e.contains_key(x) && !q.drop_last().contains(x) && x != q.last() implies settled::<A>(
        p,
        b,
        e,
        x,
    ) by {
        lemma_pop(q, x);
    }
}

proof fn lemma_finish_quiet<A: Arith>(
    p: Problem,
    b: Map<u32, u32>,
    e: Map<u32, u32>,
    q: Seq<u32>,
    s: u32,
    base: u32,
)
    requires
        quiet::<A>(p, b, e, q, Some(s)),
        tried::<A>(p, b, s, p.fst.trs_of(s).len() as int, base, e),
        e[s] == base || q.contains(s),
        !p.fst.broken(s),
    ensures
        quiet::<A>(p, b, e, q, None),
{
    reveal(quiet);
    reveal(tried);
    if !q.contains(s) {
        assert(settled::<A>(p, b, e, s)) by {
            reveal(settled);
        }
    }
}

proof fn lemma_push_contains(q: Seq<u32>, s: u32)
    ensures
        q.push(s).contains(s),
        forall|x: u32| q.contains(x) ==> #[trigger] q.push(s).contains(x),
{
    assert(q.push(s)[q.len() as int] == s);
    assert forall|x: u32| q.contains(x) implies #[trigger] q.push(s).contains(x) by {
        let j = choose|j: int| 0 <= j < q.len() && q[j] == x;
        assert(q.push(s)[j] == x);
    }
}

/// One transition that takes no time, offered: what that leaves true. It is turned down where the
/// state that it leads to costs no more, or where its cost is no number and it closes a cycle.
proof fn lemma_offer<A: Arith>(
    p: Problem,
    b: Map<u32, u32>,
    e: Map<u32, u32>,
    f: Map<u32, u32>,
    q: Seq<u32>,
    q2: Seq<u32>,
    s: u32,
    base: u32,
    i: int,
    cost: u32,
)
    requires
        0 <= i < p.fst.trs_of(s).len(),
        p.fst.trs_of(s)[i].ilabel == 0,
        drifts::<A>(p, b, s, base),
        sums::<A>(base, p.fst.trs_of(s)[i].weight, cost),
        ({
            let ns = p.fst.trs_of(s)[i].nextstate;
            ||| {
                &&& f == e
                &&& q2 == q
                &&& e.contains_key(ns)
                &&& at_most(e[ns], cost) || (is_nan(cost) && comes_round::<A>(p, b, ns, s))
            }
            ||| {
                &&& f == e.insert(ns, cost)
                &&& q2 == q.push(ns)
                &&& e.contains_key(ns) ==> !at_most(e[ns], cost)
            }
        }),
        forall|x: u32| #[trigger] e.contains_key(x) ==> drifts::<A>(p, b, x, e[x]),
        quiet::<A>(p, b, e, q, Some(s)),
        tried::<A>(p, b, s, i, base, e),
        e.contains_key(s),
        e[s] == base || q.contains(s),
    ensures
        quiet::<A>(p, b, f, q2, Some(s)),
        tried::<A>(p, b, s, i + 1, base, f),
        f.contains_key(s),
        f[s] == base || q2.contains(s),
        no_dearer::<A>(p, b, e, f),
        (q2 == q && f == e) || is_nan(cost) || total_room(f, 0x1_0000_0000) < total_room(
            e,
            0x1_0000_0000,
        ),
{
    let trs = p.fst.trs_of(s);
    let ns = trs[i].nextstate;
    lemma_push_contains(q, ns);
    lemma_drift_step::<A>(p, b, s, base, trs[i], cost);
    assert(no_dearer::<A>(p, b, e, f)) by {
        reveal(tainted);
    }
    if q2 != q && !is_nan(cost) {
        lemma_room_shrinks(e, ns, cost, 0x1_0000_0000);
    }
    assert(heeded::<A>(p, b, f, s, base, i)) by {
        reveal(heeded);
    }
    assert(tried::<A>(p, b, s, i + 1, base, f)) by {
        reveal(tried);
        assert forall|j: int|
            0 <= j < i + 1 && (#[trigger] p.fst.trs_of(s)[j]).ilabel == 0 implies heeded::<A>(
            p,
            b,
            f,
            s,
            base,
            j,
        ) by {
            if j < i && f != e {
                lemma_heeded_stays::<A>(p, b, e, f, s, base, j, s, base, i, cost);
            }
        }
    }
    assert(quiet::<A>(p, b, f, q2, Some(s))) by {
        reveal(quiet);
        assert forall|x: u32| #[trigger]
            f.contains_key(x) && !q2.contains(x) && Some(s) != Some(x) implies settled::<A>(
            p,
            b,
            f,
            x,
        ) by {
            assert(!q.contains(x));
            assert(e.contains_key(x));
            assert(settled::<A>(p, b, e, x));
            reveal(settled);
            assert forall|j: int|
                0 <= j < p.fst.trs_of(x).len() && (#[trigger] p.fst.trs_of(x)[j]).ilabel
                    == 0 implies heeded::<A>(p, b, f, x, f[x], j) by {
                assert(heeded::<A>(p, b, e, x, e[x], j));
                if f != e {
                    lemma_heeded_stays::<A>(p, b, e, f, x, e[x], j, s, base, i, cost);
                }
            }
        }
    }
}

/// Token `t` was made in the stage: its path goes on, in no time, from one that ends in a state
/// reached in no time out of `b`.
#[verifier::opaque]
spec fn made_here<A: Arith>(p: Problem, b: Map<u32, u32>, a: Arena, t: usize) -> bool {
    &&& a.path(t).last().tr.ilabel == 0
    &&& a.toks@[t as int].back matches Some(k) && drifts::<A>(
        p,
        b,
        end_state(p, a.path(k)),
        end_cost(a.path(k)),
    )
}

/// The tokens from `entry` on were made in the stage.
#[verifier::opaque]
spec fn staged<A: Arith>(p: Problem, b: Map<u32, u32>, a: Arena, entry: usize) -> bool {
    forall|t: usize| entry <= t < a.toks@.len() ==> #[trigger] made_here::<A>(p, b, a, t)
}

/// A new token leaves true what is true of those there were.
proof fn lemma_staged_on<A: Arith>(
    p: Problem,
    b: Map<u32, u32>,
    a: Arena,
    a2: Arena,
    entry: usize,
    back: usize,
    step: Step,
)
    requires
        staged::<A>(p, b, a, entry),
        a.wf::<A>(p),
        a2.grown_from(a),
        back < a.toks@.len(),
        step.tr.ilabel == 0,
        drifts::<A>(p, b, end_state(p, a.path(back)), end_cost(a.path(back))),
        a2 == a || (a2.paths@ == a.paths@.push(a.path(back).push(step)) && a2.toks@ == a.toks@.push(
            (Tok { cost: step.cost, back: Some(back), word: step.tr.olabel }),
        )),
    ensures
        staged::<A>(p, b, a2, entry),
{
    reveal(staged);
    reveal(made_here);
    assert forall|t: usize| entry <= t < a2.toks@.len() implies #[trigger] made_here::<A>(
        p,
        b,
        a2,
        t,
    ) by {
        if t < a.toks@.len() {
            assert(made_here::<A>(p, b, a, t));
            assert(a.describes::<A>(p, t));
            assert(a2.toks@[t as int] == a.toks@[t as int]);
            let k = a.toks@[t as int].back->0;
            assert(a2.toks@[k as int] == a.toks@[k as int]);
        } else {
            assert(a2.toks@[back as int] == a.toks@[back as int]);
        }
    }
}

/// A step in front of a path that takes no time.
proof fn lemma_idle_before<A: Arith>(p: Problem, s: u32, c: u32, step: Step, q: Seq<Step>)
    requires
        step.tr.ilabel == 0,
        p.fst.trs_of(s).contains(step.tr),
        sums::<A>(c, step.tr.weight, step.cost),
        is_idle::<A>(p, step.tr.nextstate, step.cost, q),
    ensures
        is_idle::<A>(p, s, c, seq![step] + q),
        idle_state(s, seq![step] + q) == idle_state(step.tr.nextstate, q),
        idle_cost(c, seq![step] + q) == idle_cost(step.cost, q),
    decreases q.len(),
{
    let whole = seq![step] + q;
    if q.len() == 0 {
        assert(whole =~= seq![step]);
        assert(whole.drop_last() =~= Seq::<Step>::empty());
        assert(is_idle::<A>(p, s, c, whole.drop_last()));
    } else {
        lemma_idle_before::<A>(p, s, c, step, q.drop_last());
        assert(whole.drop_last() =~= seq![step] + q.drop_last());
        assert(whole.last() == q.last());
    }
}

/// Whether the path of a token has come through state `ns` in this stage, to whose tokens those
/// from `entry` on belong.
fn comes_back<A: Arith>(
    arena: &Arena,
    ti: usize,
    entry: usize,
    ns: u32,
    Ghost(p): Ghost<Problem>,
    Ghost(b): Ghost<Map<u32, u32>>,
) -> (r: bool)
    requires
        arena.wf::<A>(p),
        ti < arena.toks@.len(),
        staged::<A>(p, b, *arena, entry),
        drifts::<A>(p, b, end_state(p, arena.path(ti)), end_cost(arena.path(ti))),
    ensures
        r ==> comes_round::<A>(p, b, ns, end_state(p, arena.path(ti))),
{
    let ghost s = end_state(p, arena.path(ti));
    let ghost mut q = Seq::<Step>::empty();
    let mut t: usize = ti;
    proof {
        assert(is_idle::<A>(p, s, end_cost(arena.path(ti)), q));
    }
    loop
        invariant
            arena.wf::<A>(p),
            t < arena.toks@.len(),
            staged::<A>(p, b, *arena, entry),
            drifts::<A>(p, b, end_state(p, arena.path(t)), end_cost(arena.path(t))),
            is_idle::<A>(p, end_state(p, arena.path(t)), end_cost(arena.path(t)), q),
            idle_state(end_state(p, arena.path(t)), q) == s,
            s == end_state(p, arena.path(ti)),
        decreases t,
    {
        assert(arena.describes::<A>(p, t));
        if arena.ends[t] == ns {
            proof {
                reveal(comes_round);
            }
            return true;
        }
        if t < entry {
            return false;
        }
        match arena.toks[t].back {
            Some(k) => {
                proof {
                    reveal(staged);
                    assert(made_here::<A>(p, b, *arena, t));
                    reveal(made_here);
                    let step = arena.path(t).last();
                    lemma_idle_before::<A>(
                        p,
                        end_state(p, arena.path(k)),
                        end_cost(arena.path(k)),
                        step,
                        q,
                    );
                    q = seq![step] + q;
                }
                t = k;
            },
            None => {
                return false;
            },
        }
    }
}

/// How many tokens cost no number.
spec fn blots(toks: Seq<Tok>) -> nat
    decreases toks.len(),
{
    if toks.len() == 0 {
        0
    } else {
        blots(toks.drop_last()) + (if is_nan(toks.last().cost) {
            1nat
        } else {
            0nat
        })
    }
}

proof fn lemma_blots(toks: Seq<Tok>)
    ensures
        blots(toks) <= toks.len(),
    decreases toks.len(),
{
    if toks.len() > 0 {
        lemma_blots(toks.drop_last());
    }
}

/// What a step of the search for ways that take no time comes nearer to its end by: a new token
/// whose cost is no number, of which there is room for so many; or else nothing at all, or a cost
/// that falls.
spec fn nearer(
    t: Seq<Tok>,
    e: Map<u32, u32>,
    q: Seq<u32>,
    t2: Seq<Tok>,
    e2: Map<u32, u32>,
    q2: Seq<u32>,
) -> bool {
    ||| blots(t2) > blots(t)
    ||| blots(t2) == blots(t) && ((q2 == q && e2 == e) || total_room(e2, 0x1_0000_0000)
        < total_room(e, 0x1_0000_0000))
}

/// Offer every transition of state `s` that takes no time; queue the states whose cost changes. A
/// cost that is no number is not taken round a cycle, where it would never come to an end.
fn expand_idle<A: Arith>(
    fst: &Fst,
    arena: &mut Arena,
    active: &mut Frontier,
    queue: &mut Vec<u32>,
    s: u32,
    ti: usize,
    entry: usize,
    Ghost(p): Ghost<Problem>,
    Ghost(run): Ghost<Seq<Stage>>,
) -> (r: Result<(), DecodeError>)
    requires
        p.fst == *fst,
        sound::<A>(p, run, *old(arena), *old(active)),
        staged::<A>(p, run.last().entered, *old(arena), entry),
        quiet::<A>(
            p,
            run.last().entered,
            costs(*old(arena), *old(active)),
            old(queue)@,
            Some(s),
        ),
        old(active).tokens().contains_key(s),
        old(active).tokens()[s] == ti,
    ensures
        match r {
            Ok(_) => {
                &&& sound::<A>(p, run, *final(arena), *final(active))
                &&& final(arena).grown_from(*old(arena))
                &&& staged::<A>(p, run.last().entered, *final(arena), entry)
                &&& quiet::<A>(
                    p,
                    run.last().entered,
                    costs(*final(arena), *final(active)),
                    final(queue)@,
                    None,
                )
                &&& nearer(
                    old(arena).toks@,
                    costs(*old(arena), *old(active)),
                    old(queue)@,
                    final(arena).toks@,
                    costs(*final(arena), *final(active)),
                    final(queue)@,
                )
            },
            Err(e) => fails::<A>(p, run, e),
        },
{
    proof {
        reveal(sound);
        reveal(tried);
        reveal(held);
    }
    let ghost b = run.last().entered;
    let ghost k = (run.len() - 1) as nat;
    let ghost a0 = *arena;
    let ghost e0 = costs(*arena, *active);
    let base: u32 = arena.toks[ti].cost;
    let ghost path = arena.path(ti);
    assert(arena.describes::<A>(p, ti));
    assert(e0.contains_key(s));
    let n = match fst.num_trs(s) {
        Some(n) => n,
        None => {
            assert(drifts::<A>(p, run.last().entered, s, e0[s]));
            return Err(DecodeError::BrokenState);
        },
    };
    let mut i: usize = 0;
    while i < n
        invariant
            p.fst == *fst,
            n == p.fst.trs_of(s).len(),
            !p.fst.broken(s),
            run.len() > 0,
            b == run.last().entered,
            k == run.len() - 1,
            keeps_to(p, run, path),
            i <= n,
            sound::<A>(p, run, *arena, *active),
            staged::<A>(p, b, *arena, entry),
            a0 == *old(arena),
            e0 == costs(*old(arena), *old(active)),
            arena.grown_from(a0),
            drifts::<A>(p, b, s, base),
            ti < a0.toks@.len(),
            a0.path(ti) == path,
            end_state(p, path) == s,
            end_cost(path) == base,
            frames_of(path) == k,
            is_path::<A>(p, path),
            costs(*arena, *active).contains_key(s),
            costs(*arena, *active)[s] == base || queue@.contains(s),
            quiet::<A>(p, b, costs(*arena, *active), queue@, Some(s)),
            tried::<A>(p, b, s, i as int, base, costs(*arena, *active)),
            nearer(a0.toks@, e0, old(queue)@, arena.toks@, costs(*arena, *active), queue@),
        decreases n - i,
    {
        let tr = fst.tr(s, i);
        assert(p.fst.trs_of(s).contains(tr));
        if tr.ilabel != 0 {
            assert(tried::<A>(p, b, s, i + 1, base, costs(*arena, *active))) by {
                reveal(tried);
            }
            i = i + 1;
            continue;
        }
        let cost: u32 = A::add(base, tr.weight);
        let ghost a1 = *arena;
        let ghost f1 = *active;
        let ghost e1 = costs(*arena, *active);
        let ghost q1 = queue@;
        proof {
            assert(sums::<A>(base, tr.weight, cost));
            lemma_drift_step::<A>(p, b, s, base, tr, cost);
            assert(a1.toks@[ti as int] == a0.toks@[ti as int]);
            reveal(sound);
            assert forall|x: u32| #[trigger] e1.contains_key(x) implies drifts::<A>(
                p,
                b,
                x,
                e1[x],
            ) by {}
        }
        if not_a_number(cost) && active.get(tr.nextstate).is_some() && comes_back::<A>(
            arena,
            ti,
            entry,
            tr.nextstate,
            Ghost(p),
            Ghost(b),
        ) {
            proof {
                lemma_offer::<A>(p, b, e1, e1, q1, q1, s, base, i as int, cost);
            }
            i = i + 1;
            continue;
        }
        let better = relax::<A>(arena, active, ti, tr, cost, Ghost(p), Ghost(k));
        if better {
            queue.push(tr.nextstate);
        }
        proof {
            let e2 = costs(*arena, *active);
            lemma_offer::<A>(p, b, e1, e2, q1, queue@, s, base, i as int, cost);
            let path2 = path.push(Step { tr, cost });
            assert(path2.drop_last() =~= path);
            assert(keeps_to(p, run, path2));
            lemma_held_on(p, run, a1, f1, *arena, *active, tr.nextstate, path2, k);
            assert(sound::<A>(p, run, *arena, *active)) by {
                assert forall|x: u32| #[trigger] e2.contains_key(x) implies drifts::<A>(
                    p,
                    b,
                    x,
                    e2[x],
                ) by {
                    if better && x == tr.nextstate {
                    } else {
                        assert(e1.contains_key(x));
                    }
                }
                assert(no_dearer::<A>(p, b, b, e2)) by {
                    assert forall|x: u32| #[trigger] b.contains_key(x) implies e2.contains_key(x)
                        && (at_most(e2[x], b[x]) || tainted::<A>(p, b, x)) by {
                        assert(e1.contains_key(x));
                    }
                }
            }
            lemma_staged_on::<A>(p, b, a1, *arena, entry, ti, Step { tr, cost });
            if better {
                assert(arena.toks@.drop_last() =~= a1.toks@);
            }
            lemma_grown(a0, a1, *arena);
        }
        i = i + 1;
    }
    proof {
        lemma_finish_quiet::<A>(p, b, costs(*arena, *active), queue@, s, base);
    }
    Ok(())
}

/// Expand non-emitting (ilabel==0) arcs to a fixpoint, relaxing costs.
fn epsilon_closure<A: Arith>(
    fst: &Fst,
    arena: &mut Arena,
    active: &mut Frontier,
    Ghost(p): Ghost<Problem>,
    Ghost(run): Ghost<Seq<Stage>>,
) -> (r: Result<(), DecodeError>)
    requires
        p.fst == *fst,
        run.len() > 0,
        run.last().entered == costs(*old(arena), *old(active)),
        old(arena).wf::<A>(p),
        live(p, *old(arena), *old(active), (run.len() - 1) as nat),
        held(p, run, *old(arena), *old(active)),
        all_numbers(costs(*old(arena), *old(active))),
    ensures
        match r {
            Ok(_) => {
                &&& final(arena).wf::<A>(p)
                &&& final(arena).grown_from(*old(arena))
                &&& live(p, *final(arena), *final(active), (run.len() - 1) as nat)
                &&& held(p, run, *final(arena), *final(active))
                &&& closed::<A>(
                    p,
                    run.last().entered,
                    costs(*final(arena), *final(active)),
                )
            },
            Err(e) => fails::<A>(p, run, e),
        },
{
    let ghost b = costs(*arena, *active);
    let entry: usize = arena.toks.len();
    let mut queue: Vec<u32> = Vec::new();
    let mut n: usize = 0;
    while n < active.len()
        invariant
            n <= active.states().len(),
            active.wf(),
            queue@ == active.states().take(n as int),
        decreases active.states().len() - n,
    {
        let (s, _) = active.entry(n);
        queue.push(s);
        n = n + 1;
        assert(queue@ =~= active.states().take(n as int));
    }
    proof {
        reveal(sound);
        reveal(quiet);
        reveal(staged);
        active.lemma_states();
        assert(queue@ =~= active.states());
        assert forall|s: u32| #[trigger] b.contains_key(s) implies drifts::<A>(p, b, s, b[s]) by {
            lemma_drift_start::<A>(p, b, s);
        }
        assert(sound::<A>(p, run, *arena, *active));
        assert forall|x: u32| #[trigger] b.contains_key(x) implies queue@.contains(x) by {
            assert(active.states().contains(x));
        }
        assert(quiet::<A>(p, b, b, queue@, None));
    }
    while queue.len() > 0
        invariant
            p.fst == *fst,
            sound::<A>(p, run, *arena, *active),
            arena.grown_from(*old(arena)),
            run.len() > 0,
            b == run.last().entered,
            staged::<A>(p, b, *arena, entry),
            quiet::<A>(p, b, costs(*arena, *active), queue@, None),
        ensures
            queue@.len() == 0,
        decreases
            usize::MAX - blots(arena.toks@),
            total_room(costs(*arena, *active), 0x1_0000_0000),
            queue@.len(),
    {
        let ghost q0 = queue@;
        let ghost a0 = *arena;
        let s = match queue.pop() {
            Some(s) => s,
            None => {
                break;
            },
        };
        proof {
            assert(queue@ =~= q0.drop_last());
            lemma_pop_quiet::<A>(p, b, costs(*arena, *active), q0);
            assert(active.wf()) by {
                reveal(sound);
            }
        }
        match active.get(s) {
            Some(ti) => {
                match expand_idle::<A>(
                    fst,
                    arena,
                    active,
                    &mut queue,
                    s,
                    ti,
                    entry,
                    Ghost(p),
                    Ghost(run),
                ) {
                    Ok(_) => {
                        proof {
                            assert(arena.toks.len() <= usize::MAX);
                            lemma_blots(arena.toks@);
                            lemma_grown(*old(arena), a0, *arena);
                        }
                    },
                    Err(e) => {
                        return Err(e);
                    },
                }
            },
            None => {},
        }
    }
    proof {
        reveal(sound);
        reveal(quiet);
        let e = costs(*arena, *active);
        assert forall|s: u32| #[trigger] e.contains_key(s) implies settled::<A>(p, b, e, s) by {
            assert(!queue@.contains(s));
        }
    }
    Ok(())
}

proof fn lemma_pop(q: Seq<u32>, x: u32)
    requires
        q.len() > 0,
        !q.drop_last().contains(x),
        x != q.last(),
    ensures
        !q.contains(x),
{
    if q.contains(x) {
        let j = choose|j: int| 0 <= j < q.len() && q[j] == x;
        assert(q.drop_last()[j] == x);
    }
}

/// The transitions that have been offered: all of the first `i` states of `st`, and the first `j`
/// of the state after them.
#[verifier::opaque]
spec fn shown<A: Arith>(
    p: Problem,
    k: nat,
    f: Map<u32, u32>,
    n: Map<u32, u32>,
    best: u32,
    st: Seq<u32>,
    i: int,
    j: int,
) -> bool {
    forall|x: int, y: int|
        0 <= x < st.len() && 0 <= y < p.fst.trs_of(st[x]).len() && (x < i || (x == i && y < j)) && (
        #[trigger] p.fst.trs_of(st[x])[y]).ilabel != 0 ==> offered::<A>(
            p,
            k,
            f,
            n,
            best,
            st[x],
            p.fst.trs_of(st[x])[y],
        )
}

/// Every state of `n` is there through some transition, and so is `best`.
#[verifier::opaque]
spec fn backed<A: Arith>(
    p: Problem,
    k: nat,
    f: Map<u32, u32>,
    n: Map<u32, u32>,
    best: u32,
) -> bool {
    &&& forall|ns: u32| #[trigger] n.contains_key(ns) ==> earned::<A>(p, k, f, ns, n[ns])
    &&& !is_nan(best)
    &&& best == INFINITY || exists|ns: u32| #[trigger] earned::<A>(p, k, f, ns, best)
}

proof fn lemma_offered_stays<A: Arith>(
    p: Problem,
    k: nat,
    f: Map<u32, u32>,
    n: Map<u32, u32>,
    best: u32,
    n2: Map<u32, u32>,
    best2: u32,
    ns: u32,
    c: u32,
    s: u32,
    tr: Tr,
)
    requires
        offered::<A>(p, k, f, n, best, s, tr),
        n2 == n || n2 == n.insert(ns, c),
        n.contains_key(ns) ==> earned::<A>(p, k, f, ns, n[ns]),
        earned::<A>(p, k, f, ns, c),
        n2 != n && n.contains_key(ns) ==> !at_most(n[ns], c),
        at_most(best2, best),
    ensures
        offered::<A>(p, k, f, n2, best2, s, tr),
{
    reveal(offered);
    reveal(earned);
    reveal(spoiled);
    let d = choose|d: u32| #[trigger]
        candidate::<A>(p, k, f, s, tr, d) && n.contains_key(tr.nextstate) && !less(d, best) && (
        at_most(n[tr.nextstate], d) || spoiled::<A>(p, k, f, tr.nextstate));
    assert(candidate::<A>(p, k, f, s, tr, d));
    assert(!less(d, best2));
}

/// One transition of a frame, offered: what that leaves true.
proof fn lemma_shown<A: Arith>(
    p: Problem,
    k: nat,
    f: Map<u32, u32>,
    n: Map<u32, u32>,
    best: u32,
    st: Seq<u32>,
    i: int,
    j: int,
    c: u32,
    n2: Map<u32, u32>,
    best2: u32,
)
    requires
        0 <= i < st.len(),
        0 <= j < p.fst.trs_of(st[i]).len(),
        candidate::<A>(p, k, f, st[i], p.fst.trs_of(st[i])[j], c),
        shown::<A>(p, k, f, n, best, st, i, j),
        backed::<A>(p, k, f, n, best),
        best2 == (if less(c, best) {
            c
        } else {
            best
        }),
        ({
            let ns = p.fst.trs_of(st[i])[j].nextstate;
            if n.contains_key(ns) && at_most(n[ns], c) {
                n2 == n
            } else {
                n2 == n.insert(ns, c)
            }
        }),
    ensures
        shown::<A>(p, k, f, n2, best2, st, i, j + 1),
        backed::<A>(p, k, f, n2, best2),
{
    reveal(shown);
    reveal(backed);
    let tr = p.fst.trs_of(st[i])[j];
    let ns = tr.nextstate;
    assert(earned::<A>(p, k, f, ns, c)) by {
        reveal(earned);
    }
    assert(at_most(best2, best));
    assert forall|x: int, y: int|
        0 <= x < st.len() && 0 <= y < p.fst.trs_of(st[x]).len() && (x < i || (x == i && y < j + 1))
            && (#[trigger] p.fst.trs_of(st[x])[y]).ilabel != 0 implies offered::<A>(
        p,
        k,
        f,
        n2,
        best2,
        st[x],
        p.fst.trs_of(st[x])[y],
    ) by {
        if x == i && y == j {
            reveal(offered);
            reveal(spoiled);
            assert(candidate::<A>(p, k, f, st[i], tr, c));
            if is_nan(c) {
                assert(spoiled::<A>(p, k, f, ns));
            }
        } else {
            lemma_offered_stays::<A>(
                p,
                k,
                f,
                n,
                best,
                n2,
                best2,
                ns,
                c,
                st[x],
                p.fst.trs_of(st[x])[y],
            );
        }
    }
}

/// Everything has been offered: that is the frame.
proof fn lemma_emission<A: Arith>(
    p: Problem,
    k: nat,
    f: Map<u32, u32>,
    n: Map<u32, u32>,
    best: u32,
    st: Seq<u32>,
)
    requires
        forall|s: u32| #[trigger] f.contains_key(s) ==> st.contains(s),
        shown::<A>(p, k, f, n, best, st, st.len() as int, 0),
        backed::<A>(p, k, f, n, best),
    ensures
        emission::<A>(p, k, f, n, best),
{
    reveal(shown);
    reveal(backed);
    assert forall|s: u32, tr: Tr|
        f.contains_key(s) && #[trigger] p.fst.trs_of(s).contains(tr) && tr.ilabel
            != 0 implies offered::<A>(p, k, f, n, best, s, tr) by {
        let x = choose|x: int| 0 <= x < st.len() && st[x] == s;
        let y = choose|y: int| 0 <= y < p.fst.trs_of(s).len() && p.fst.trs_of(s)[y] == tr;
        assert(p.fst.trs_of(st[x])[y] == tr);
    }
}

/// A state that a finished stage keeps has its transitions.
proof fn lemma_kept_whole<A: Arith>(p: Problem, run: Seq<Stage>, s: u32)
    requires
        run.len() > 0,
        finished::<A>(p, run.len() - 1, run.last()),
        run.last().kept.contains_key(s),
    ensures
        !p.fst.broken(s),
{
    let st = run.last();
    let e = choose|e: Map<u32, u32>| #[trigger]
        closed::<A>(p, st.entered, e) && (if run.len() - 1 == 0 {
            st.kept == e
        } else {
            capped(e, p.max_active, st.kept)
        });
    assert(st.kept.dom().contains(s));
    assert(e.contains_key(s));
    reveal(settled);
}

/// A new token that has just taken a frame joins those that have.
proof fn lemma_arrived_on(
    p: Problem,
    a: Arena,
    f: Frontier,
    a2: Arena,
    f2: Frontier,
    s: u32,
    path: Seq<Step>,
    k: nat,
)
    requires
        arrived(a, f),
        live(p, a, f, k),
        a2.grown_from(a),
        path.len() > 0,
        path.last().tr.ilabel != 0,
        (f2 == f && a2 == a) || (a2.paths@ == a.paths@.push(path) && f2.tokens()
            == f.tokens().insert(s, a.toks@.len() as usize) && a.toks@.len() <= usize::MAX),
    ensures
        arrived(a2, f2),
{
    reveal(arrived);
    assert forall|x: u32| #[trigger] f2.tokens().contains_key(x) implies ({
        let q = a2.path(f2.tokens()[x]);
        q.len() > 0 && q.last().tr.ilabel != 0
    }) by {
        if f2 != f && x == s {
            assert(a2.path(f2.tokens()[x]) == path);
        } else {
            assert(f.tokens().contains_key(x));
            assert(a2.toks@[f.tokens()[x] as int] == a.toks@[f.tokens()[x] as int]);
        }
    }
}

/// Follow every transition that takes frame `k` out of the active states. Returns the states
/// reached, and the least cost met.
fn emit_frame<A: Arith>(
    fst: &Fst,
    tid2pdf: &[i32],
    frame: &Vec<u32>,
    scale: u32,
    arena: &mut Arena,
    active: &Frontier,
    Ghost(p): Ghost<Problem>,
    Ghost(run): Ghost<Seq<Stage>>,
) -> (r: Result<(Frontier, u32), DecodeError>)
    requires
        p.fst == *fst,
        p.tid2pdf == tid2pdf@,
        0 < run.len() <= p.frames.len(),
        p.frames[run.len() - 1] == frame@,
        p.scale == scale,
        old(arena).wf::<A>(p),
        live(p, *old(arena), *active, (run.len() - 1) as nat),
        held(p, run, *old(arena), *active),
        finished::<A>(p, run.len() - 1, run.last()),
        run.last().kept == costs(*old(arena), *active),
    ensures
        match r {
            Ok((next, best)) => {
                &&& final(arena).wf::<A>(p)
                &&& final(arena).grown_from(*old(arena))
                &&& live(p, *final(arena), next, run.len())
                &&& held(p, run, *final(arena), next)
                &&& arrived(*final(arena), next)
                &&& emission::<A>(
                    p,
                    (run.len() - 1) as nat,
                    run.last().kept,
                    costs(*final(arena), next),
                    best,
                )
            },
            Err(e) => fails::<A>(p, run, e),
        },
{
    let ghost k = (run.len() - 1) as nat;
    let ghost a0 = *arena;
    let ghost f = costs(*arena, *active);
    let ghost st = active.states();
    let mut next = Frontier::new();
    let mut best: u32 = INFINITY;
    proof {
        reveal(shown);
        reveal(backed);
        reveal(held);
        reveal(arrived);
        assert(costs(*arena, next) =~= Map::<u32, u32>::empty());
        assert(shown::<A>(p, k, f, costs(*arena, next), best, st, 0, 0));
        assert(backed::<A>(p, k, f, costs(*arena, next), best));
    }
    let mut i: usize = 0;
    while i < active.len()
        invariant
            p.fst == *fst,
            p.tid2pdf == tid2pdf@,
            k < p.frames.len(),
            p.frames[k as int] == frame@,
            p.scale == scale,
            a0 == *old(arena),
            a0.wf::<A>(p),
            live(p, a0, *active, k),
            f == costs(a0, *active),
            f == run.last().kept,
            k == run.len() - 1,
            0 < run.len() <= p.frames.len(),
            held(p, run, a0, *active),
            finished::<A>(p, run.len() - 1, run.last()),
            st == active.states(),
            i <= st.len(),
            arena.wf::<A>(p),
            arena.grown_from(a0),
            live(p, *arena, next, k + 1),
            held(p, run, *arena, next),
            arrived(*arena, next),
            shown::<A>(p, k, f, costs(*arena, next), best, st, i as int, 0),
            backed::<A>(p, k, f, costs(*arena, next), best),
        decreases st.len() - i,
    {
        let (s, ti) = active.entry(i);
        let ghost path = a0.path(ti);
        assert(a0.describes::<A>(p, ti));
        assert(arena.toks@[ti as int] == a0.toks@[ti as int]);
        let base: u32 = arena.toks[ti].cost;
        proof {
            reveal(held);
            assert(keeps_to(p, run, path));
            lemma_kept_whole::<A>(p, run, s);
        }
        let n = match fst.num_trs(s) {
            Some(n) => n,
            None => {
                return Err(DecodeError::BrokenState);
            },
        };
        let mut j: usize = 0;
        while j < n
            invariant
                p.fst == *fst,
                p.tid2pdf == tid2pdf@,
                k < p.frames.len(),
                p.frames[k as int] == frame@,
                p.scale == scale,
                f == run.last().kept,
                k == run.len() - 1,
                0 < run.len() <= p.frames.len(),
                finished::<A>(p, run.len() - 1, run.last()),
                keeps_to(p, run, path),
                i < st.len(),
                st[i as int] == s,
                n == p.fst.trs_of(s).len(),
                j <= n,
                f.contains_key(s),
                f[s] == base,
                ti < a0.toks@.len(),
                a0.path(ti) == path,
                is_path::<A>(p, path),
                end_state(p, path) == s,
                end_cost(path) == base,
                frames_of(path) == k,
                arena.wf::<A>(p),
                arena.grown_from(a0),
                live(p, *arena, next, k + 1),
                held(p, run, *arena, next),
                arrived(*arena, next),
                shown::<A>(p, k, f, costs(*arena, next), best, st, i as int, j as int),
                backed::<A>(p, k, f, costs(*arena, next), best),
            decreases n - j,
        {
            let tr = fst.tr(s, j);
            assert(p.fst.trs_of(s).contains(tr));
            if tr.ilabel == 0 {
                assert(shown::<A>(p, k, f, costs(*arena, next), best, st, i as int, j + 1)) by {
                    reveal(shown);
                }
                j = j + 1;
                continue;
            }
            if tr.ilabel as usize >= tid2pdf.len() {
                assert(meets_unknown_transition(p, run, s, tr));
                return Err(DecodeError::UnknownTransition);
            }
            let pdf: i32 = tid2pdf[tr.ilabel as usize];
            if pdf < 0 || pdf as usize >= frame.len() {
                assert(p.score(k, tr.ilabel) is None);
                assert(meets_unknown_pdf(p, run, s, tr));
                return Err(DecodeError::UnknownPdf);
            }
            let ll: u32 = frame[pdf as usize];
            let x: u32 = A::add(base, tr.weight);
            let y: u32 = A::mul(neg(ll), scale);
            let cost: u32 = A::add(x, y);
            let ghost n1 = costs(*arena, next);
            let ghost best1 = best;
            let ghost a1 = *arena;
            let ghost next1 = next;
            proof {
                assert(p.score(k, tr.ilabel) == Some(ll));
                assert(sums::<A>(base, tr.weight, x));
                assert(products::<A>(negation(ll), scale, y));
                assert(sums::<A>(x, y, cost));
                assert(emits::<A>(base, tr.weight, ll, scale, cost));
                assert(candidate::<A>(p, k, f, s, tr, cost));
                assert(a1.toks@[ti as int] == a0.toks@[ti as int]);
            }
            if lt(cost, best) {
                best = cost;
            }
            relax::<A>(arena, &mut next, ti, tr, cost, Ghost(p), Ghost((k + 1) as nat));
            proof {
                let path2 = path.push(Step { tr, cost });
                assert(path2.drop_last() =~= path);
                assert(keeps_to(p, run, path2));
                lemma_held_on(p, run, a1, next1, *arena, next, tr.nextstate, path2, k + 1);
                lemma_arrived_on(p, a1, next1, *arena, next, tr.nextstate, path2, k + 1);
                lemma_shown::<A>(
                    p,
                    k,
                    f,
                    n1,
                    best1,
                    st,
                    i as int,
                    j as int,
                    cost,
                    costs(*arena, next),
                    best,
                );
                lemma_grown(a0, a1, *arena);
            }
            j = j + 1;
        }
        assert(shown::<A>(p, k, f, costs(*arena, next), best, st, i + 1, 0)) by {
            reveal(shown);
        }
        i = i + 1;
    }
    proof {
        active.lemma_states();
        assert forall|s: u32| #[trigger] f.contains_key(s) implies st.contains(s) by {
            assert(active.tokens().contains_key(s));
        }
        lemma_emission::<A>(p, k, f, costs(*arena, next), best, st);
    }
    Ok((next, best))
}

/// The states of a frontier whose cost is at most `cutoff`.
fn prune(
    arena: &Arena,
    next: &Frontier,
    cutoff: u32,
    Ghost(p): Ghost<Problem>,
    Ghost(k): Ghost<nat>,
) -> (kept: Frontier)
    requires
        live(p, *arena, *next, k),
    ensures
        live(p, *arena, kept, k),
        kept.tokens().submap_of(next.tokens()),
        costs(*arena, kept) == within(costs(*arena, *next), cutoff),
{
    let ghost n = costs(*arena, *next);
    let ghost st = next.states();
    let mut kept = Frontier::new();
    let mut i: usize = 0;
    while i < next.len()
        invariant
            live(p, *arena, *next, k),
            live(p, *arena, kept, k),
            n == costs(*arena, *next),
            st == next.states(),
            i <= st.len(),
            forall|s: u32| #[trigger]
                kept.tokens().contains_key(s) ==> next.tokens().contains_key(s)
                    && kept.tokens()[s] == next.tokens()[s] && at_most(n[s], cutoff),
            forall|x: int|
                0 <= x < i && at_most(n[#[trigger] st[x]], cutoff) ==> kept.tokens().contains_key(
                    st[x],
                ),
        decreases st.len() - i,
    {
        let (s, ti) = next.entry(i);
        if le(arena.toks[ti].cost, cutoff) {
            kept.insert(s, ti);
        }
        i = i + 1;
    }
    proof {
        next.lemma_states();
        assert forall|s: u32| within(n, cutoff).contains_key(s) implies #[trigger] costs(
            *arena,
            kept,
        ).contains_key(s) by {
            assert(st.contains(s));
            let x = choose|x: int| 0 <= x < st.len() && st[x] == s;
            assert(st[x] == s);
        }
        assert(costs(*arena, kept) =~= within(n, cutoff));
    }
    kept
}

/// The states of `e` whose place in the order is below `t`.
spec fn below(e: Map<u32, u32>, t: int) -> Map<u32, u32> {
    Map::new(|s: u32| e.contains_key(s) && key(e[s]) < t, |s: u32| e[s])
}

/// How many active states have a place in the order of costs below `t`.
fn count_below(
    arena: &Arena,
    active: &Frontier,
    t: i64,
    Ghost(p): Ghost<Problem>,
    Ghost(k): Ghost<nat>,
) -> (n: usize)
    requires
        live(p, *arena, *active, k),
    ensures
        n == below(costs(*arena, *active), t as int).dom().len(),
        below(costs(*arena, *active), t as int).dom().finite(),
{
    let ghost e = costs(*arena, *active);
    let ghost st = active.states();
    let ghost mut seen: Set<u32> = Set::empty();
    proof {
        active.lemma_states();
    }
    let mut n: usize = 0;
    let mut i: usize = 0;
    while i < active.len()
        invariant
            live(p, *arena, *active, k),
            e == costs(*arena, *active),
            st == active.states(),
            st.no_duplicates(),
            i <= st.len(),
            n <= i,
            seen.finite(),
            seen.len() == n,
            forall|s: u32| #[trigger]
                seen.contains(s) ==> e.contains_key(s) && key(e[s]) < t && st.take(
                    i as int,
                ).contains(s),
            forall|x: int| 0 <= x < i && key(e[#[trigger] st[x]]) < t ==> seen.contains(st[x]),
        decreases st.len() - i,
    {
        let (s, ti) = active.entry(i);
        proof {
            assert(st.take(i + 1)[i as int] == s);
            assert forall|x: u32| st.take(i as int).contains(x) implies #[trigger] st.take(
                i + 1,
            ).contains(x) by {
                let y = choose|y: int| 0 <= y < i && st.take(i as int)[y] == x;
                assert(st.take(i + 1)[y] == x);
            }
        }
        if order_key(arena.toks[ti].cost) < t {
            proof {
                if seen.contains(s) {
                    let y = choose|y: int| 0 <= y < i && st.take(i as int)[y] == s;
                    assert(st[y] == st[i as int]);
                }
                seen = seen.insert(s);
            }
            n = n + 1;
        }
        i = i + 1;
    }
    proof {
        assert forall|s: u32| below(e, t as int).contains_key(s) implies seen.contains(s) by {
            assert(st.contains(s));
            let x = choose|x: int| 0 <= x < st.len() && st[x] == s;
            assert(st[x] == s);
        }
        assert(seen =~= below(e, t as int).dom());
    }
    n
}

/// Whether every cost is a number.
fn only_numbers(
    arena: &Arena,
    active: &Frontier,
    Ghost(p): Ghost<Problem>,
    Ghost(k): Ghost<nat>,
) -> (r: bool)
    requires
        live(p, *arena, *active, k),
    ensures
        r == all_numbers(costs(*arena, *active)),
{
    let ghost e = costs(*arena, *active);
    let ghost st = active.states();
    proof {
        active.lemma_states();
    }
    let mut i: usize = 0;
    while i < active.len()
        invariant
            live(p, *arena, *active, k),
            e == costs(*arena, *active),
            st == active.states(),
            i <= st.len(),
            forall|x: int| 0 <= x < i ==> !is_nan(e[#[trigger] st[x]]),
        decreases st.len() - i,
    {
        let (s, ti) = active.entry(i);
        if not_a_number(arena.toks[ti].cost) {
            assert(e.contains_key(s) && is_nan(e[s]));
            return false;
        }
        i = i + 1;
    }
    proof {
        assert forall|s: u32| #[trigger] e.contains_key(s) implies !is_nan(e[s]) by {
            assert(st.contains(s));
            let x = choose|x: int| 0 <= x < st.len() && st[x] == s;
            assert(st[x] == s);
        }
    }
    true
}

/// Keep only the `max_active` lowest-cost states. That takes costs that can be put in order.
fn cap_active(
    arena: &Arena,
    active: Frontier,
    max_active: usize,
    Ghost(p): Ghost<Problem>,
    Ghost(k): Ghost<nat>,
) -> (r: Option<Frontier>)
    requires
        live(p, *arena, active, k),
    ensures
        match r {
            Some(kept) => {
                &&& live(p, *arena, kept, k)
                &&& kept.tokens().submap_of(active.tokens())
                &&& capped(costs(*arena, active), max_active as nat, costs(*arena, kept))
            },
            None => costs(*arena, active).dom().len() > max_active && !in_order(
                costs(*arena, active),
            ),
        },
{
    let ghost e = costs(*arena, active);
    proof {
        active.lemma_states();
        assert(e.dom() =~= active.tokens().dom());
    }
    if active.len() <= max_active {
        return Some(active);
    }
    if active.len() > 1 && !only_numbers(arena, &active, Ghost(p), Ghost(k)) {
        return None;
    }
    let mut lo: i64 = -0x8000_0000;
    let mut hi: i64 = 0x8000_0000;
    proof {
        assert(below(e, lo as int).dom() =~= Set::<u32>::empty());
        assert(below(e, hi as int).dom() =~= e.dom());
    }
    while hi - lo > 1
        invariant
            -0x8000_0000 <= lo < hi <= 0x8000_0000,
            live(p, *arena, active, k),
            e == costs(*arena, active),
            below(e, lo as int).dom().len() <= max_active,
            below(e, hi as int).dom().len() > max_active,
        decreases hi - lo,
    {
        let mid: i64 = lo + (hi - lo) / 2;
        if count_below(arena, &active, mid, Ghost(p), Ghost(k)) <= max_active {
            lo = mid;
        } else {
            hi = mid;
        }
    }
    let mut kept = keep_below(arena, &active, lo, Ghost(p), Ghost(k));
    proof {
        kept.lemma_states();
        assert(costs(*arena, kept).dom() =~= kept.tokens().dom());
    }
    let ghost st = active.states();
    let mut i: usize = 0;
    while i < active.len()
        invariant
            live(p, *arena, active, k),
            live(p, *arena, kept, k),
            e == costs(*arena, active),
            st == active.states(),
            i <= st.len(),
            kept.states().len() <= max_active,
            kept.tokens().submap_of(active.tokens()),
            forall|s: u32| #[trigger] kept.tokens().contains_key(s) ==> key(e[s]) <= lo,
            forall|s: u32| #[trigger]
                below(e, lo as int).contains_key(s) ==> kept.tokens().contains_key(s),
            kept.states().len() < max_active ==> forall|x: int|
                0 <= x < i && key(e[#[trigger] st[x]]) <= lo ==> kept.tokens().contains_key(st[x]),
        decreases st.len() - i,
    {
        let (s, ti) = active.entry(i);
        if kept.len() < max_active && order_key(arena.toks[ti].cost) == lo {
            kept.insert(s, ti);
        }
        proof {
            if key(e[s]) < lo {
                assert(below(e, lo as int).contains_key(s));
            }
        }
        i = i + 1;
    }
    proof {
        kept.lemma_states();
        active.lemma_states();
        let d = costs(*arena, kept);
        assert(d.dom() =~= kept.tokens().dom());
        if kept.states().len() < max_active {
            assert forall|s: u32| below(e, hi as int).contains_key(
                s,
            ) implies kept.tokens().contains_key(s) by {
                assert(st.contains(s));
                let x = choose|x: int| 0 <= x < st.len() && st[x] == s;
                assert(st[x] == s);
            }
            assert(below(e, hi as int).dom().subset_of(kept.tokens().dom()));
            vstd::set_lib::lemma_len_subset(below(e, hi as int).dom(), kept.tokens().dom());
        }
        assert forall|s: u32| #[trigger] d.contains_key(s) implies e.contains_key(s) && d[s]
            == e[s] by {
            assert(kept.tokens().dom().contains(s));
            assert(active.tokens().contains_key(s));
            assert(e.contains_key(s));
        }
        assert(d.submap_of(e));
        assert forall|s: u32, t: u32| #[trigger]
            d.contains_key(s) && #[trigger] e.contains_key(t) && !d.contains_key(t) implies at_most(
            e[s],
            e[t],
        ) by {
            assert(kept.tokens().contains_key(s));
            assert(!below(e, lo as int).contains_key(t));
            assert(e.contains_key(s));
            if active.states().len() == 1 {
                assert(d.dom().contains(s));
            }
        }
    }
    Some(kept)
}

/// The states of a frontier whose place in the order of costs is below `t`.
fn keep_below(
    arena: &Arena,
    active: &Frontier,
    t: i64,
    Ghost(p): Ghost<Problem>,
    Ghost(k): Ghost<nat>,
) -> (kept: Frontier)
    requires
        live(p, *arena, *active, k),
    ensures
        live(p, *arena, kept, k),
        kept.tokens().submap_of(active.tokens()),
        costs(*arena, kept) == below(costs(*arena, *active), t as int),
{
    let ghost e = costs(*arena, *active);
    let ghost st = active.states();
    let mut kept = Frontier::new();
    let mut i: usize = 0;
    while i < active.len()
        invariant
            live(p, *arena, *active, k),
            live(p, *arena, kept, k),
            e == costs(*arena, *active),
            st == active.states(),
            i <= st.len(),
            forall|s: u32| #[trigger]
                kept.tokens().contains_key(s) ==> active.tokens().contains_key(s)
                    && kept.tokens()[s] == active.tokens()[s] && key(e[s]) < t,
            forall|x: int|
                0 <= x < i && key(e[#[trigger] st[x]]) < t ==> kept.tokens().contains_key(st[x]),
        decreases st.len() - i,
    {
        let (s, ti) = active.entry(i);
        if order_key(arena.toks[ti].cost) < t {
            kept.insert(s, ti);
        }
        i = i + 1;
    }
    proof {
        active.lemma_states();
        let d = costs(*arena, kept);
        assert forall|s: u32| below(e, t as int).contains_key(s) implies #[trigger] d.contains_key(
            s,
        ) by {
            assert(st.contains(s));
            let x = choose|x: int| 0 <= x < st.len() && st[x] == s;
            assert(st[x] == s);
        }
        assert(d =~= below(e, t as int));
    }
    kept
}

/// The token in which the search ends.
fn choose_end<A: Arith>(
    fst: &Fst,
    arena: &Arena,
    active: &Frontier,
    Ghost(p): Ghost<Problem>,
    Ghost(k): Ghost<nat>,
) -> (r: Option<(u32, usize)>)
    requires
        p.fst == *fst,
        live(p, *arena, *active, k),
    ensures
        match r {
            Some((s, ti)) => active.tokens().contains_key(s) && active.tokens()[s] == ti
                && ends_in::<A>(p, costs(*arena, *active), Some(s)),
            None => ends_in::<A>(p, costs(*arena, *active), None),
        },
{
    let ghost d = costs(*arena, *active);
    let ghost st = active.states();
    let ghost mut fc: Map<u32, u32> = Map::empty();
    proof {
        active.lemma_states();
    }
    let mut end: Option<(u32, usize)> = None;
    let mut best: u32 = INFINITY;
    let mut i: usize = 0;
    while i < active.len()
        invariant
            p.fst == *fst,
            live(p, *arena, *active, k),
            d == costs(*arena, *active),
            st == active.states(),
            st.no_duplicates(),
            i <= st.len(),
            !is_nan(best),
            forall|s: u32| #[trigger]
                fc.contains_key(s) ==> d.contains_key(s) && p.fst.final_of(s) is Some && sums::<A>(
                    d[s],
                    p.fst.final_of(s)->0,
                    fc[s],
                ) && !less(fc[s], best) && st.take(i as int).contains(s),
            forall|x: int|
                0 <= x < i && p.fst.final_of(#[trigger] st[x]) is Some ==> fc.contains_key(st[x]),
            match end {
                Some((s, ti)) => fc.contains_key(s) && fc[s] == best && less(best, INFINITY)
                    && active.tokens().contains_key(s) && active.tokens()[s] == ti,
                None => best == INFINITY,
            },
        decreases st.len() - i,
    {
        let (s, ti) = active.entry(i);
        proof {
            assert(st.take(i + 1)[i as int] == s);
            assert forall|x: u32| st.take(i as int).contains(x) implies #[trigger] st.take(
                i + 1,
            ).contains(x) by {
                let y = choose|y: int| 0 <= y < i && st.take(i as int)[y] == x;
                assert(st.take(i + 1)[y] == x);
            }
        }
        match fst.final_weight(s) {
            Some(w) => {
                let c: u32 = A::add(arena.toks[ti].cost, w);
                proof {
                    assert(sums::<A>(d[s], w, c));
                    if fc.contains_key(s) {
                        let y = choose|y: int| 0 <= y < i && st.take(i as int)[y] == s;
                        assert(st[y] == st[i as int]);
                    }
                    fc = fc.insert(s, c);
                }
                if lt(c, best) {
                    best = c;
                    end = Some((s, ti));
                }
            },
            None => {},
        }
        i = i + 1;
    }
    proof {
        assert forall|s: u32| #[trigger]
            fc.contains_key(s) <==> d.contains_key(s) && p.fst.final_of(s) is Some by {
            if d.contains_key(s) && p.fst.final_of(s) is Some {
                assert(st.contains(s));
                let x = choose|x: int| 0 <= x < st.len() && st[x] == s;
                assert(p.fst.final_of(st[x]) is Some);
            }
        }
        assert(final_costs::<A>(p, d, fc));
    }
    match end {
        Some((s, ti)) => {
            assert(cheapest(fc, s));
            return Some((s, ti));
        },
        None => {},
    }
    assert(hopeless(fc));
    let mut i: usize = 0;
    while i < active.len()
        invariant
            live(p, *arena, *active, k),
            d == costs(*arena, *active),
            st == active.states(),
            i <= st.len(),
            !is_nan(best),
            forall|x: int| 0 <= x < i ==> !less(d[#[trigger] st[x]], best),
            match end {
                Some((s, ti)) => d.contains_key(s) && d[s] == best && less(best, INFINITY)
                    && active.tokens().contains_key(s) && active.tokens()[s] == ti,
                None => best == INFINITY,
            },
        decreases st.len() - i,
    {
        let (s, ti) = active.entry(i);
        let c: u32 = arena.toks[ti].cost;
        if lt(c, best) {
            best = c;
            end = Some((s, ti));
        }
        i = i + 1;
    }
    proof {
        assert forall|s: u32| #[trigger] d.contains_key(s) implies !less(d[s], best) by {
            assert(st.contains(s));
            let x = choose|x: int| 0 <= x < st.len() && st[x] == s;
            assert(st[x] == s);
        }
        match end {
            Some((s, ti)) => {
                assert(cheapest(d, s));
            },
            None => {
                assert(hopeless(d));
            },
        }
    }
    end
}

/// The words along the path of a token.
fn trace_back<A: Arith>(arena: &Arena, end: usize, Ghost(p): Ghost<Problem>) -> (words: Vec<u32>)
    requires
        arena.wf::<A>(p),
        end < arena.toks@.len(),
    ensures
        words@ == words_of(arena.path(end)),
{
    let ghost whole = words_of(arena.path(end));
    let mut back: Vec<u32> = Vec::new();
    let mut t: usize = end;
    loop
        invariant_except_break
            arena.wf::<A>(p),
            t < arena.toks@.len(),
            whole == words_of(arena.path(t)) + back@.reverse(),
        ensures
            whole == back@.reverse(),
        decreases t,
    {
        assert(arena.describes::<A>(p, t));
        let tok = arena.toks[t];
        let ghost before = back@;
        if tok.word != 0 {
            back.push(tok.word);
        }
        match tok.back {
            Some(b) => {
                proof {
                    let path = arena.path(t);
                    if tok.word != 0 {
                        assert(back@.reverse() =~= seq![tok.word] + before.reverse());
                        assert(words_of(path) + before.reverse() =~= words_of(path.drop_last())
                            + back@.reverse());
                    }
                }
                t = b;
            },
            None => {
                proof {
                    assert(words_of(arena.path(t)) + back@.reverse() =~= back@.reverse());
                }
                break;
            },
        }
    }
    let mut words: Vec<u32> = Vec::new();
    let mut i: usize = back.len();
    while i > 0
        invariant
            i <= back@.len(),
            words@ == back@.reverse().take(back@.len() - i),
        decreases i,
    {
        i = i - 1;
        words.push(back[i]);
        assert(words@ =~= back@.reverse().take(back@.len() - i));
    }
    assert(words@ =~= back@.reverse());
    words
}

/// Fewer states, with the tokens that they had.
proof fn lemma_fewer_held(p: Problem, run: Seq<Stage>, a: Arena, f: Frontier, g: Frontier)
    requires
        held(p, run, a, f),
        g.tokens().submap_of(f.tokens()),
    ensures
        held(p, run, a, g),
{
    reveal(held);
    assert forall|s: u32| #[trigger] g.tokens().contains_key(s) implies keeps_to(
        p,
        run,
        a.path(g.tokens()[s]),
    ) by {
        assert(g.tokens().dom().contains(s));
        assert(f.tokens().contains_key(s));
    }
}

/// Fewer states, with the tokens that they had, just after a frame.
proof fn lemma_fewer(p: Problem, run: Seq<Stage>, a: Arena, f: Frontier, g: Frontier)
    requires
        held(p, run, a, f),
        arrived(a, f),
        g.tokens().submap_of(f.tokens()),
    ensures
        held(p, run, a, g),
        arrived(a, g),
{
    lemma_fewer_held(p, run, a, f, g);
    reveal(arrived);
    assert forall|s: u32| #[trigger] g.tokens().contains_key(s) implies ({
        let path = a.path(g.tokens()[s]);
        path.len() > 0 && path.last().tr.ilabel != 0
    }) by {
        assert(g.tokens().dom().contains(s));
        assert(f.tokens().contains_key(s));
    }
}

proof fn lemma_token_costs<A: Arith>(p: Problem, a: Arena)
    requires
        a.wf::<A>(p),
    ensures
        forall|i: usize| i < a.toks@.len() ==> a.toks@[i as int].cost == end_cost(
            #[trigger] a.path(i),
        ),
{
    assert forall|i: usize| i < a.toks@.len() implies a.toks@[i as int].cost == end_cost(
        #[trigger] a.path(i),
    ) by {
        assert(a.describes::<A>(p, i));
    }
}

/// What is kept at the end of the last stage makes no difference to paths that end there.
proof fn lemma_end_stage(p: Problem, run: Seq<Stage>, ended: Stage, a: Arena, f: Frontier)
    requires
        run.len() > 0,
        ended.entered == run.last().entered,
        live(p, a, f, (run.len() - 1) as nat),
        held(p, run, a, f),
    ensures
        held(p, run.drop_last().push(ended), a, f),
{
    reveal(held);
    let other = run.drop_last().push(ended);
    assert forall|s: u32| #[trigger] f.tokens().contains_key(s) implies keeps_to(
        p,
        other,
        a.path(f.tokens()[s]),
    ) by {
        lemma_keeps(p, run, other, a.path(f.tokens()[s]), run.len() - 1);
    }
}

/// A Viterbi decoder: how wide it searches, and what a frame counts for.
pub struct Decoder {
    beam: u32,
    acoustic_scale: u32,
    max_active: usize,
}

impl Decoder {
    /// How much dearer than the cheapest a state may be after a frame.
    pub closed spec fn spec_beam(self) -> u32 {
        self.beam
    }

    /// What a log-likelihood is multiplied with.
    pub closed spec fn spec_acoustic_scale(self) -> u32 {
        self.acoustic_scale
    }

    /// How many states may stay after a frame.
    pub closed spec fn spec_max_active(self) -> usize {
        self.max_active
    }

    /// A decoder that keeps up to 7000 states.
    pub fn new(beam: u32, acoustic_scale: u32) -> (d: Self)
        ensures
            d.spec_beam() == beam,
            d.spec_acoustic_scale() == acoustic_scale,
            d.spec_max_active() == 7000,
    {
        Decoder { beam, acoustic_scale, max_active: 7000 }
    }

    /// The same decoder with another limit on the states that stay.
    pub fn with_max_active(self, max_active: usize) -> (d: Self)
        ensures
            d.spec_beam() == self.spec_beam(),
            d.spec_acoustic_scale() == self.spec_acoustic_scale(),
            d.spec_max_active() == max_active,
    {
        Decoder { beam: self.beam, acoustic_scale: self.acoustic_scale, max_active }
    }

    /// The search that decoding is.
    pub open spec fn problem(
        self,
        fst: Fst,
        tid2pdf: Seq<i32>,
        loglikes: Seq<Vec<u32>>,
    ) -> Problem {
        Problem {
            fst,
            tid2pdf,
            frames: Seq::new(loglikes.len(), |i: int| loglikes[i]@),
            scale: self.spec_acoustic_scale(),
            beam: self.spec_beam(),
            max_active: self.spec_max_active() as nat,
        }
    }

    /// Decode `loglikes` (T frames x n_pdf) over `fst`. `tid2pdf[tid]` maps transition-id to
    /// pdf-id. Returns the 1-best word-id sequence (non-zero olabels).
    ///
    /// A transducer without a start state gives no words. The search fails only where it comes to a
    /// state or a transition that it cannot use, or to costs that it cannot put in order.
    pub fn decode<A: Arith>(&self, fst: &Fst, tid2pdf: &[i32], loglikes: &[Vec<u32>]) -> (r: Result<
        Vec<u32>,
        DecodeError,
    >)
        ensures
            match r {
                Ok(words) => if fst.start is None {
                    words@.len() == 0
                } else {
                    is_answer::<A>(self.problem(*fst, tid2pdf@, loglikes@), words@)
                },
                Err(e) => is_fault::<A>(self.problem(*fst, tid2pdf@, loglikes@), e),
            },
    {
        let ghost p = self.problem(*fst, tid2pdf@, loglikes@);
        let start: u32 = match fst.start {
            Some(s) => s,
            None => {
                return Ok(Vec::new());
            },
        };
        let mut toks: Vec<Tok> = Vec::new();
        toks.push(Tok { cost: ZERO, back: None, word: 0 });
        let mut ends: Vec<u32> = Vec::new();
        ends.push(start);
        let ghost paths = seq![Seq::<Step>::empty()];
        let mut arena = Arena { toks, ends, paths: Ghost(paths) };
        assert(arena.describes::<A>(p, 0));
        let mut active = Frontier::new();
        active.insert(start, 0);
        let ghost first = Stage { entered: map![start => ZERO], kept: Map::empty() };
        let ghost mut run: Seq<Stage> = seq![first];
        proof {
            assert(costs(arena, active) =~= map![start => ZERO]);
            assert(live(p, arena, active, 0));
            assert(held(p, run, arena, active)) by {
                reveal(held);
            }
            assert(is_begun::<A>(p, run));
        }
        match epsilon_closure::<A>(fst, &mut arena, &mut active, Ghost(p), Ghost(run)) {
            Ok(_) => {},
            Err(e) => {
                return Err(e);
            },
        }
        proof {
            let ended = Stage { entered: first.entered, kept: costs(arena, active) };
            lemma_end_stage(p, run, ended, arena, active);
            assert(closed::<A>(p, ended.entered, ended.kept));
            assert(finished::<A>(p, 0, ended));
            run = run.drop_last().push(ended);
        }
        let mut k: usize = 0;
        while k < loglikes.len()
            invariant
                p == self.problem(*fst, tid2pdf@, loglikes@),
                fst.start == Some(start),
                k <= loglikes@.len(),
                arena.wf::<A>(p),
                live(p, arena, active, k as nat),
                held(p, run, arena, active),
                run.len() == k + 1,
                is_begun::<A>(p, run),
                finished::<A>(p, k as int, run.last()),
                run.last().kept == costs(arena, active),
            decreases loglikes@.len() - k,
        {
            let (next, best) = match emit_frame::<A>(
                fst,
                tid2pdf,
                &loglikes[k],
                self.acoustic_scale,
                &mut arena,
                &active,
                Ghost(p),
                Ghost(run),
            ) {
                Ok(r) => r,
                Err(e) => {
                    return Err(e);
                },
            };
            let ghost n = costs(arena, next);
            let cutoff: u32 = A::add(best, self.beam);
            active = prune(&arena, &next, cutoff, Ghost(p), Ghost((k + 1) as nat));
            let ghost open = Stage { entered: costs(arena, active), kept: Map::empty() };
            let ghost before = run;
            proof {
                assert(sums::<A>(best, p.beam, cutoff));
                assert(pruned::<A>(p, n, best, open.entered));
                assert(emission::<A>(p, k as nat, run.last().kept, n, best));
                assert(passes::<A>(p, k as nat, run.last().kept, open.entered));
                lemma_fewer(p, run, arena, next, active);
                lemma_token_costs::<A>(p, arena);
                lemma_enter(p, run, open, arena, active);
                run = run.push(open);
                assert(is_begun::<A>(p, run)) by {
                    assert forall|j: int| 0 <= j < run.len() - 1 implies finished::<A>(
                        p,
                        j,
                        #[trigger] run[j],
                    ) && passes::<A>(p, j as nat, run[j].kept, run[j + 1].entered) by {
                        assert(run[j] == before[j]);
                        if j < k {
                            assert(run[j + 1] == before[j + 1]);
                        }
                    }
                }
            }
            match epsilon_closure::<A>(fst, &mut arena, &mut active, Ghost(p), Ghost(run)) {
                Ok(_) => {},
                Err(e) => {
                    return Err(e);
                },
            }
            let ghost e = costs(arena, active);
            let ghost whole = active;
            active = match cap_active(
                &arena,
                active,
                self.max_active,
                Ghost(p),
                Ghost((k + 1) as nat),
            ) {
                Some(kept) => kept,
                None => {
                    assert(meets_no_order::<A>(p, run, e));
                    return Err(DecodeError::NotANumber);
                },
            };
            proof {
                let ended = Stage { entered: open.entered, kept: costs(arena, active) };
                lemma_fewer_held(p, run, arena, whole, active);
                lemma_end_stage(p, run, ended, arena, active);
                assert(closed::<A>(p, ended.entered, e));
                assert(finished::<A>(p, k + 1, ended));
                run = run.drop_last().push(ended);
                assert(run.drop_last() =~= before);
                assert(is_begun::<A>(p, run)) by {
                    assert forall|j: int| 0 <= j < run.len() - 1 implies finished::<A>(
                        p,
                        j,
                        #[trigger] run[j],
                    ) && passes::<A>(p, j as nat, run[j].kept, run[j + 1].entered) by {
                        assert(run[j] == before[j]);
                        if j < k {
                            assert(run[j + 1] == before[j + 1]);
                        }
                    }
                }
            }
            k = k + 1;
        }
        proof {
            assert(is_run::<A>(p, run));
        }
        match choose_end::<A>(fst, &arena, &active, Ghost(p), Ghost(k as nat)) {
            Some((s, ti)) => {
                let words = trace_back::<A>(&arena, ti, Ghost(p));
                proof {
                    assert(arena.describes::<A>(p, ti));
                    assert(is_path::<A>(p, arena.path(ti)));
                    reveal(held);
                    assert(spells::<A>(p, run, s, words@));
                    assert(ends_in::<A>(p, run.last().kept, Some(s)));
                }
                Ok(words)
            },
            None => {
                let words: Vec<u32> = Vec::new();
                assert(ends_in::<A>(p, run.last().kept, None));
                Ok(words)
            },
        }
    }
}

} // verus!
