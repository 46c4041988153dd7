//! What a record of an evaluation holds, and that it holds one value for each node where the
//! arithmetic has one answer for each operation.

use vstd::prelude::*;

use crate::components::CompView;
use crate::descriptor::DescView;
use crate::evaluation::{
    applied, depends, desc_value, follows, is_trace, lemma_desc_grows, lemma_vals_push, mentions,
    node_value, same_within, tdnn_bias, vals, Task, Trace,
};
use crate::graph::NodeView;
use crate::mat::{
    added, affine_image, can_join, centred, norm_factor, normalised, repeated, scaled,
    shifted, side_by_side, spliced, MatView,
};
use crate::single::{differences, gemms, products, quotients, roots, sums, Arith};

verus! {

/// The arithmetic has one answer for each operation of a network.
pub open spec fn one_answer<A: Arith>() -> bool {
    &&& forall|a: u32, b: u32, r: u32, s: u32| #[trigger]
        sums::<A>(a, b, r) && #[trigger] sums::<A>(a, b, s) ==> r == s
    &&& forall|a: u32, b: u32, r: u32, s: u32| #[trigger]
        differences::<A>(a, b, r) && #[trigger] differences::<A>(a, b, s) ==> r == s
    &&& forall|a: u32, b: u32, r: u32, s: u32| #[trigger]
        products::<A>(a, b, r) && #[trigger] products::<A>(a, b, s) ==> r == s
    &&& forall|a: u32, b: u32, r: u32, s: u32| #[trigger]
        quotients::<A>(a, b, r) && #[trigger] quotients::<A>(a, b, s) ==> r == s
    &&& forall|a: u32, r: u32, s: u32| #[trigger]
        roots::<A>(a, r) && #[trigger] roots::<A>(a, s) ==> r == s
    &&& forall|n: usize, i: usize, o: usize, x: Seq<u32>, w: Seq<u32>, y: Seq<u32>, z: Seq<u32>|
     #[trigger]
        gemms::<A>(n, i, o, x, w, y) && #[trigger] gemms::<A>(n, i, o, x, w, z) ==> y == z
}

proof fn lemma_scaled<A: Arith>(m: MatView, f: u32, y: MatView, z: MatView)
    requires
        one_answer::<A>(),
        scaled::<A>(m, f, y),
        scaled::<A>(m, f, z),
    ensures
        y == z,
{
    assert forall|k: int| 0 <= k < y.d.len() implies y.d[k] == z.d[k] by {
        assert(products::<A>(m.d[k], f, y.d[k]));
        assert(products::<A>(m.d[k], f, z.d[k]));
    }
    assert(y.d =~= z.d);
}

proof fn lemma_added<A: Arith>(m: MatView, n: MatView, y: MatView, z: MatView)
    requires
        one_answer::<A>(),
        added::<A>(m, n, y),
        added::<A>(m, n, z),
    ensures
        y == z,
{
    assert forall|k: int| 0 <= k < y.d.len() implies y.d[k] == z.d[k] by {
        if k < n.d.len() {
            assert(sums::<A>(m.d[k], n.d[k], y.d[k]));
            assert(sums::<A>(m.d[k], n.d[k], z.d[k]));
        } else {
            assert(y.d[k] == m.d[k] && z.d[k] == m.d[k]);
        }
    }
    assert(y.d =~= z.d);
}

proof fn lemma_factor<A: Arith>(var: u32, eps: u32, trms: u32, s: u32, t: u32)
    requires
        one_answer::<A>(),
        norm_factor::<A>(var, eps, trms, s),
        norm_factor::<A>(var, eps, trms, t),
    ensures
        s == t,
{
    let (a, q) = choose|a: u32, q: u32|
        #![trigger sums::<A>(var, eps, a), roots::<A>(a, q)]
        sums::<A>(var, eps, a) && roots::<A>(a, q) && quotients::<A>(trms, q, s);
    let (b, p) = choose|b: u32, p: u32|
        #![trigger sums::<A>(var, eps, b), roots::<A>(b, p)]
        sums::<A>(var, eps, b) && roots::<A>(b, p) && quotients::<A>(trms, p, t);
    assert(a == b);
    assert(q == p);
}

proof fn lemma_centred<A: Arith>(x: u32, mean: u32, s: u32, y: u32, z: u32)
    requires
        one_answer::<A>(),
        centred::<A>(x, mean, s, y),
        centred::<A>(x, mean, s, z),
    ensures
        y == z,
{
    let d = choose|d: u32| #[trigger] differences::<A>(x, mean, d) && products::<A>(d, s, y);
    let e = choose|e: u32| #[trigger] differences::<A>(x, mean, e) && products::<A>(e, s, z);
    assert(d == e);
}

proof fn lemma_normalised<A: Arith>(
    m: MatView,
    mean: Seq<u32>,
    var: Seq<u32>,
    eps: u32,
    trms: u32,
    y: MatView,
    z: MatView,
)
    requires
        one_answer::<A>(),
        normalised::<A>(m, mean, var, eps, trms, y),
        normalised::<A>(m, mean, var, eps, trms, z),
    ensures
        y == z,
{
    let s = choose|s: Seq<u32>|
        {
            &&& s.len() == var.len()
            &&& forall|j: int|
                0 <= j < var.len() ==> norm_factor::<A>(var[j], eps, trms, #[trigger] s[j])
            &&& forall|k: int|
                0 <= k < m.d.len() ==> centred::<A>(
                    m.d[k],
                    mean[k % (m.c as int)],
                    s[k % (m.c as int)],
                    #[trigger] y.d[k],
                )
        };
    let t = choose|t: Seq<u32>|
        {
            &&& t.len() == var.len()
            &&& forall|j: int|
                0 <= j < var.len() ==> norm_factor::<A>(var[j], eps, trms, #[trigger] t[j])
            &&& forall|k: int|
                0 <= k < m.d.len() ==> centred::<A>(
                    m.d[k],
                    mean[k % (m.c as int)],
                    t[k % (m.c as int)],
                    #[trigger] z.d[k],
                )
        };
    assert forall|j: int| 0 <= j < s.len() implies s[j] == t[j] by {
        lemma_factor::<A>(var[j], eps, trms, s[j], t[j]);
    }
    assert(s =~= t);
    assert forall|k: int| 0 <= k < y.d.len() implies y.d[k] == z.d[k] by {
        assert(centred::<A>(m.d[k], mean[k % (m.c as int)], s[k % (m.c as int)], y.d[k]));
        assert(centred::<A>(m.d[k], mean[k % (m.c as int)], t[k % (m.c as int)], z.d[k]));
        lemma_centred::<A>(
            m.d[k],
            mean[k % (m.c as int)],
            s[k % (m.c as int)],
            y.d[k],
            z.d[k],
        );
    }
    assert(y.d =~= z.d);
}

proof fn lemma_affine<A: Arith>(
    m: MatView,
    w: MatView,
    bias: Option<Seq<u32>>,
    y: MatView,
    z: MatView,
)
    requires
        one_answer::<A>(),
        affine_image::<A>(m, w, bias, y),
        affine_image::<A>(m, w, bias, z),
    ensures
        y == z,
{
    let (n, i, o) = (m.r as usize, m.c as usize, w.r as usize);
    let g = choose|g: Seq<u32>|
        {
            &&& #[trigger] gemms::<A>(m.r as usize, m.c as usize, w.r as usize, m.d, w.d, g)
            &&& g.len() == y.d.len()
            &&& match bias {
                None => y.d == g,
                Some(b) => forall|k: int|
                    0 <= k < g.len() ==> sums::<A>(
                        g[k],
                        b[k % (w.r as int)],
                        #[trigger] y.d[k],
                    ),
            }
        };
    let h = choose|h: Seq<u32>|
        {
            &&& #[trigger] gemms::<A>(m.r as usize, m.c as usize, w.r as usize, m.d, w.d, h)
            &&& h.len() == z.d.len()
            &&& match bias {
                None => z.d == h,
                Some(b) => forall|k: int|
                    0 <= k < h.len() ==> sums::<A>(
                        h[k],
                        b[k % (w.r as int)],
                        #[trigger] z.d[k],
                    ),
            }
        };
    assert(gemms::<A>(n, i, o, m.d, w.d, g) && gemms::<A>(n, i, o, m.d, w.d, h));
    assert(g == h);
    if let Some(b) = bias {
        assert forall|k: int| 0 <= k < y.d.len() implies y.d[k] == z.d[k] by {
            assert(sums::<A>(g[k], b[k % (w.r as int)], y.d[k]));
            assert(sums::<A>(h[k], b[k % (w.r as int)], z.d[k]));
        }
        assert(y.d =~= z.d);
    }
}

proof fn lemma_applied<A: Arith>(c: CompView, x: MatView, y: MatView, z: MatView)
    requires
        one_answer::<A>(),
        applied::<A>(c, x, y),
        applied::<A>(c, x, z),
    ensures
        y == z,
{
    match c {
        CompView::Identity => {},
        CompView::Relu => {},
        CompView::BatchNorm { mean, var, eps, trms } => {
            lemma_normalised::<A>(x, mean, var, eps, trms, y, z);
        },
        CompView::Affine { w, b } => {
            lemma_affine::<A>(x, w, Some(b), y, z);
        },
        CompView::Linear { w } => {
            lemma_affine::<A>(x, w, None, y, z);
        },
        CompView::Tdnn { offsets, w, b } => {
            lemma_affine::<A>(spliced(x, offsets), w, tdnn_bias(b), y, z);
        },
    }
}

/// Where both know a name in `live`, they know the same.
pub open spec fn agree(
    v1: Map<Seq<char>, MatView>,
    v2: Map<Seq<char>, MatView>,
    live: Set<Seq<char>>,
) -> bool {
    forall|n: Seq<char>|
        live.contains(n) && #[trigger] v1.contains_key(n) && #[trigger] v2.contains_key(n) ==> v1[n]
            == v2[n]
}

pub(crate) proof fn lemma_desc<A: Arith>(
    v1: Map<Seq<char>, MatView>,
    v2: Map<Seq<char>, MatView>,
    live: Set<Seq<char>>,
    t: nat,
    d: DescView,
    y: MatView,
    z: MatView,
)
    requires
        one_answer::<A>(),
        agree(v1, v2, live),
        forall|n: Seq<char>| #[trigger] mentions(d, n) ==> live.contains(n),
        desc_value::<A>(v1, t, d, y),
        desc_value::<A>(v2, t, d, z),
    ensures
        y == z,
    decreases d,
{
    reveal_with_fuel(mentions, 2);
    match d {
        DescView::Ref(n) => {
            assert(mentions(d, n));
            assert(v1.contains_key(n) && v2.contains_key(n));
        },
        DescView::Offset(a, n) => {
            let m1 = choose|m: MatView|
                desc_value::<A>(v1, t, *a, m) && y == #[trigger] shifted(m, n as int);
            let m2 = choose|m: MatView|
                desc_value::<A>(v2, t, *a, m) && z == #[trigger] shifted(m, n as int);
            assert forall|n: Seq<char>| #[trigger] mentions(*a, n) implies live.contains(n) by {
                assert(mentions(d, n));
            }
            lemma_desc::<A>(v1, v2, live, t, *a, m1, m2);
        },
        DescView::Scale(f, a) => {
            let m1 = choose|m: MatView|
                desc_value::<A>(v1, t, *a, m) && #[trigger] scaled::<A>(m, f, y);
            let m2 = choose|m: MatView|
                desc_value::<A>(v2, t, *a, m) && #[trigger] scaled::<A>(m, f, z);
            assert forall|n: Seq<char>| #[trigger] mentions(*a, n) implies live.contains(n) by {
                assert(mentions(d, n));
            }
            lemma_desc::<A>(v1, v2, live, t, *a, m1, m2);
            lemma_scaled::<A>(m1, f, y, z);
        },
        DescView::Sum(a, b) => {
            let (m1, n1) = choose|m: MatView, n: MatView|
                desc_value::<A>(v1, t, *a, m) && desc_value::<A>(v1, t, *b, n)
                    && #[trigger] added::<A>(m, n, y);
            let (m2, n2) = choose|m: MatView, n: MatView|
                desc_value::<A>(v2, t, *a, m) && desc_value::<A>(v2, t, *b, n)
                    && #[trigger] added::<A>(m, n, z);
            assert forall|n: Seq<char>| #[trigger] mentions(*a, n) implies live.contains(n) by {
                assert(mentions(d, n));
            }
            lemma_desc::<A>(v1, v2, live, t, *a, m1, m2);
            assert forall|n: Seq<char>| #[trigger] mentions(*b, n) implies live.contains(n) by {
                assert(mentions(d, n));
            }
            lemma_desc::<A>(v1, v2, live, t, *b, n1, n2);
            lemma_added::<A>(m1, n1, y, z);
        },
        DescView::Append(parts) => {
            let ms = choose|ms: Seq<MatView>|
                {
                    &&& ms.len() == parts.len()
                    &&& forall|i: int|
                        0 <= i < parts.len() ==> desc_value::<A>(v1, t, parts[i], #[trigger] ms[i])
                    &&& can_join(ms)
                    &&& y == #[trigger] side_by_side(ms)
                };
            let ns = choose|ms: Seq<MatView>|
                {
                    &&& ms.len() == parts.len()
                    &&& forall|i: int|
                        0 <= i < parts.len() ==> desc_value::<A>(v2, t, parts[i], #[trigger] ms[i])
                    &&& can_join(ms)
                    &&& z == #[trigger] side_by_side(ms)
                };
            assert forall|i: int| 0 <= i < parts.len() implies ms[i] == ns[i] by {
                assert forall|n: Seq<char>| #[trigger] mentions(parts[i], n) implies live.contains(
                    n,
                ) by {
                    assert(mentions(d->Append_0[i], n));
                    assert(mentions(d, n));
                }
                lemma_desc::<A>(v1, v2, live, t, parts[i], ms[i], ns[i]);
            }
            assert(ms =~= ns);
        },
        DescView::ReplaceIndex(a) => {
            let m1 = choose|m: MatView|
                desc_value::<A>(v1, t, *a, m) && (t == 0 || m.r > 0 || m.c == 0) && y
                    == #[trigger] repeated(m, t);
            let m2 = choose|m: MatView|
                desc_value::<A>(v2, t, *a, m) && (t == 0 || m.r > 0 || m.c == 0) && z
                    == #[trigger] repeated(m, t);
            assert forall|n: Seq<char>| #[trigger] mentions(*a, n) implies live.contains(n) by {
                assert(mentions(d, n));
            }
            lemma_desc::<A>(v1, v2, live, t, *a, m1, m2);
        },
    }
}

proof fn lemma_node<A: Arith>(
    t1: Task,
    t2: Task,
    live: Set<Seq<char>>,
    v1: Map<Seq<char>, MatView>,
    v2: Map<Seq<char>, MatView>,
    name: Seq<char>,
    y: MatView,
    z: MatView,
)
    requires
        one_answer::<A>(),
        same_within(t1, t2, live),
        live.contains(name),
        t1.given(name) is None,
        agree(v1, v2, live),
        node_value::<A>(t1, v1, name, y),
        node_value::<A>(t2, v2, name, z),
    ensures
        y == z,
{
    match t1.nodes[name] {
        NodeView::Input => {},
        NodeView::DimRange { src, off, dim } => {
            assert(depends(t1, name, src));
            assert(v1.contains_key(src) && v2.contains_key(src));
        },
        NodeView::Component { comp, desc } => {
            let x1 = choose|x: MatView| #[trigger]
                desc_value::<A>(v1, t1.feats.r, desc, x) && applied::<A>(t1.comps[comp], x, y);
            let x2 = choose|x: MatView| #[trigger]
                desc_value::<A>(v2, t1.feats.r, desc, x) && applied::<A>(t1.comps[comp], x, z);
            assert forall|n: Seq<char>| #[trigger] mentions(desc, n) implies live.contains(n) by {
                assert(depends(t1, name, n));
            }
            lemma_desc::<A>(v1, v2, live, t1.feats.r, desc, x1, x2);
            lemma_applied::<A>(t1.comps[comp], x1, y, z);
        },
        NodeView::Output { desc } => {
            assert forall|n: Seq<char>| #[trigger] mentions(desc, n) implies live.contains(n) by {
                assert(depends(t1, name, n));
            }
            lemma_desc::<A>(v1, v2, live, t1.feats.r, desc, y, z);
        },
    }
}

/// A name in a record stands in one of its entries, and has that entry's value from there on.
proof fn lemma_entry<A: Arith>(task: Task, tr: Trace, n: Seq<char>, k: int) -> (i: int)
    requires
        is_trace::<A>(task, tr),
        2 <= k <= tr.len(),
        vals(tr.take(k)).contains_key(n),
    ensures
        0 <= i < k,
        tr[i].0 == n,
        vals(tr.take(k))[n] == tr[i].1,
    decreases k,
{
    let front = tr.take(k);
    assert(front.drop_last() =~= tr.take(k - 1));
    if tr[k - 1].0 == n {
        k - 1
    } else if k > 2 {
        lemma_entry::<A>(task, tr, n, k - 1)
    } else {
        lemma_first_two::<A>(task, tr);
        0
    }
}

/// What stands earlier in a record is still there later.
proof fn lemma_earlier<A: Arith>(task: Task, tr: Trace, i: int, k: int)
    requires
        is_trace::<A>(task, tr),
        2 <= i <= k <= tr.len(),
    ensures
        vals(tr.take(i)).submap_of(vals(tr.take(k))),
    decreases k,
{
    if i < k {
        lemma_earlier::<A>(task, tr, i, k - 1);
        assert(tr.take(k).drop_last() =~= tr.take(k - 1));
        assert(follows::<A>(task, tr, k - 1));
        let a = vals(tr.take(i));
        let b = vals(tr.take(k - 1));
        let c = vals(tr.take(k));
        assert forall|n: Seq<char>| #[trigger] a.dom().contains(n) implies #[trigger] c.dom(
        ).contains(n) && a[n] == c[n] by {
            assert(b.dom().contains(n));
        }
    }
}

proof fn lemma_first_two<A: Arith>(task: Task, tr: Trace)
    requires
        is_trace::<A>(task, tr),
    ensures
        vals(tr.take(2)) == Map::<Seq<char>, MatView>::empty().insert("input"@, task.feats).insert(
            "ivector"@,
            task.ivector,
        ),
{
    let none: Trace = Seq::empty();
    let one = none.push(("input"@, task.feats));
    lemma_vals_push(none, "input"@, task.feats);
    lemma_vals_push(one, "ivector"@, task.ivector);
    assert(tr.take(2) =~= one.push(("ivector"@, task.ivector)));
}

/// The inputs keep their values in every record of an evaluation.
pub proof fn law_inputs<A: Arith>(task: Task, tr: Trace)
    requires
        is_trace::<A>(task, tr),
    ensures
        vals(tr).contains_pair("input"@, task.feats),
        vals(tr).contains_pair("ivector"@, task.ivector),
{
    reveal_strlit("input");
    reveal_strlit("ivector");
    assert("input"@.len() != "ivector"@.len());
    let whole = tr.len() as int;
    assert(tr.take(whole) =~= tr);
    lemma_first_two::<A>(task, tr);
    lemma_earlier::<A>(task, tr, 2, whole);
    let first = vals(tr.take(2));
    assert(first.dom().contains("input"@) && first.dom().contains("ivector"@));
    assert(vals(tr).dom().contains("input"@) && vals(tr).dom().contains("ivector"@));
}

/// The value of every node in a record comes of the values in that record.
pub proof fn law_record<A: Arith>(task: Task, tr: Trace, name: Seq<char>)
    requires
        is_trace::<A>(task, tr),
        vals(tr).contains_key(name),
        task.given(name) is None,
    ensures
        node_value::<A>(task, vals(tr), name, vals(tr)[name]),
{
    let whole = tr.len() as int;
    assert(tr.take(whole) =~= tr);
    let i = lemma_entry::<A>(task, tr, name, whole);
    assert(follows::<A>(task, tr, i));
    let some = vals(tr.take(i));
    let all = vals(tr);
    let y = tr[i].1;
    lemma_earlier::<A>(task, tr, i, whole);
    match task.nodes[name] {
        NodeView::Input => {},
        NodeView::DimRange { src, off, dim } => {
            assert(some.dom().contains(src));
            assert(all.dom().contains(src));
        },
        NodeView::Component { comp, desc } => {
            let x = choose|x: MatView| #[trigger]
                desc_value::<A>(some, task.feats.r, desc, x) && applied::<A>(
                    task.comps[comp],
                    x,
                    y,
                );
            lemma_desc_grows::<A>(some, all, task.feats.r, desc, x);
        },
        NodeView::Output { desc } => {
            lemma_desc_grows::<A>(some, all, task.feats.r, desc, y);
        },
    }
}

pub(crate) proof fn lemma_agree<A: Arith>(
    t1: Task,
    t2: Task,
    live: Set<Seq<char>>,
    tr1: Trace,
    tr2: Trace,
    k: int,
)
    requires
        one_answer::<A>(),
        same_within(t1, t2, live),
        is_trace::<A>(t1, tr1),
        is_trace::<A>(t2, tr2),
        2 <= k <= tr1.len(),
    ensures
        agree(vals(tr1.take(k)), vals(tr2), live),
    decreases k,
{
    let whole = tr2.len() as int;
    assert(tr2.take(whole) =~= tr2);
    if k == 2 {
        lemma_first_two::<A>(t1, tr1);
        lemma_first_two::<A>(t2, tr2);
        lemma_earlier::<A>(t2, tr2, 2, whole);
        let v1 = vals(tr1.take(2));
        let v2 = vals(tr2);
        assert forall|n: Seq<char>|
            live.contains(n) && #[trigger] v1.contains_key(n) && #[trigger] v2.contains_key(
                n,
            ) implies v1[n] == v2[n] by {
            assert(vals(tr2.take(2)).dom().contains(n));
            assert(v2.dom().contains(n));
        }
    } else {
        lemma_agree::<A>(t1, t2, live, tr1, tr2, k - 1);
        assert(tr1.take(k).drop_last() =~= tr1.take(k - 1));
        assert(follows::<A>(t1, tr1, k - 1));
        let before = vals(tr1.take(k - 1));
        let v1 = vals(tr1.take(k));
        let v2 = vals(tr2);
        let name = tr1[k - 1].0;
        assert forall|n: Seq<char>|
            live.contains(n) && #[trigger] v1.contains_key(n) && #[trigger] v2.contains_key(
                n,
            ) implies v1[n] == v2[n] by {
            if n == name {
                let j = lemma_entry::<A>(t2, tr2, n, whole);
                lemma_first_two::<A>(t1, tr1);
                lemma_earlier::<A>(t1, tr1, 2, k - 1);
                assert(!before.contains_key(n));
                if t1.given(n) is Some {
                    assert(vals(tr1.take(2)).dom().contains(n));
                    assert(before.dom().contains(n));
                }
                if j < 2 {
                    assert(vals(tr1.take(2)).dom().contains(n));
                    assert(before.dom().contains(n));
                } else {
                    assert(follows::<A>(t2, tr2, j));
                    let some = vals(tr2.take(j));
                    lemma_earlier::<A>(t2, tr2, j, whole);
                    assert(agree(before, some, live)) by {
                        assert forall|x: Seq<char>|
                            live.contains(x) && #[trigger] before.contains_key(x)
                                && #[trigger] some.contains_key(x) implies before[x] == some[x] by {
                            assert(some.dom().contains(x));
                            assert(v2.dom().contains(x));
                            assert(v2.contains_key(x));
                        }
                    }
                    lemma_node::<A>(t1, t2, live, before, some, n, tr1[k - 1].1, tr2[j].1);
                }
            } else {
                assert(before.contains_key(n));
            }
        }
    }
}

/// Nodes that a node does not need do not change its value: two networks that have the same nodes
/// in `live`, which need only nodes there, give every one of these that both evaluate the same
/// value, if the arithmetic has one answer for each operation.
pub proof fn law_unused_values<A: Arith>(
    t1: Task,
    t2: Task,
    live: Set<Seq<char>>,
    tr1: Trace,
    tr2: Trace,
    name: Seq<char>,
)
    requires
        one_answer::<A>(),
        same_within(t1, t2, live),
        is_trace::<A>(t1, tr1),
        is_trace::<A>(t2, tr2),
        live.contains(name),
        vals(tr1).contains_key(name),
        vals(tr2).contains_key(name),
    ensures
        vals(tr1)[name] == vals(tr2)[name],
{
    let k = tr1.len() as int;
    assert(tr1.take(k) =~= tr1);
    lemma_agree::<A>(t1, t2, live, tr1, tr2, k);
    assert(vals(tr1).contains_key(name) && vals(tr2).contains_key(name));
}

/// Two evaluations of one network on the same inputs give every node that both evaluate the same
/// value, if the arithmetic has one answer for each operation.
pub proof fn law_one_output<A: Arith>(task: Task, tr1: Trace, tr2: Trace, name: Seq<char>)
    requires
        one_answer::<A>(),
        is_trace::<A>(task, tr1),
        is_trace::<A>(task, tr2),
        vals(tr1).contains_key(name),
        vals(tr2).contains_key(name),
    ensures
        vals(tr1)[name] == vals(tr2)[name],
{
    let live = Set::<Seq<char>>::full();
    law_unused_values::<A>(task, task, live, tr1, tr2, name);
}

} // verus!
