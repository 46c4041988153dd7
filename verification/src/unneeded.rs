//! What an evaluation gives does not depend on nodes that the output does not need, and is one
//! thing only where the arithmetic has one answer for each operation.

use vstd::prelude::*;

use crate::components::CompView;
use crate::descriptor::DescView;
use crate::determinism::{
    law_inputs, law_one_output, law_record, lemma_agree, lemma_desc, one_answer,
};
use crate::evaluation::{
    applied, chain, dead, depends, desc_value, fails_at, follows, has_shape, is_trace,
    law_unused, layer_fault, lemma_desc_within, lemma_trace_push, lemma_vals_push, mentions, needs,
    node_shape, node_value, same_within, shape, tdnn_bias, vals, Task, Trace,
};
use crate::graph::NodeView;
use crate::mat::{
    added, affine_image, can_join, every_third, repeated, scaled, shifted, short_product,
    side_by_side, spliced, EvalError, Mat, MatView,
};
use crate::nnet3::{forwarded, outcome};
use crate::single::{gemms, sums, Arith};

verus! {

/// What the nodes in `live` need is the same in both networks.
proof fn lemma_turned(t1: Task, t2: Task, live: Set<Seq<char>>)
    requires
        same_within(t1, t2, live),
    ensures
        same_within(t2, t1, live),
        forall|a: Seq<char>, b: Seq<char>|
            live.contains(a) && #[trigger] depends(t1, a, b) ==> depends(t2, a, b),
{
    assert forall|a: Seq<char>, b: Seq<char>|
        live.contains(a) && #[trigger] depends(t2, a, b) implies live.contains(b) by {
        assert(depends(t1, a, b));
    }
}

/// Chains out of a node in `live` stay there.
proof fn lemma_stays(t1: Task, t2: Task, live: Set<Seq<char>>, way: Seq<Seq<char>>, i: int)
    requires
        same_within(t1, t2, live),
        chain(t1, way),
        0 <= i < way.len(),
        live.contains(way[0]),
    ensures
        live.contains(way[i]),
    decreases i,
{
    if i > 0 {
        lemma_stays(t1, t2, live, way, i - 1);
        assert(depends(t1, way[i - 1], way[i - 1 + 1]));
    }
}

proof fn lemma_needs(t1: Task, t2: Task, live: Set<Seq<char>>, a: Seq<char>, b: Seq<char>)
    requires
        same_within(t1, t2, live),
        needs(t1, a, b),
        live.contains(a),
    ensures
        live.contains(b),
        needs(t2, a, b),
{
    let way = choose|way: Seq<Seq<char>>| #[trigger]
        chain(t1, way) && way.len() > 0 && way[0] == a && way.last() == b;
    lemma_stays(t1, t2, live, way, way.len() - 1);
    lemma_turned(t1, t2, live);
    assert(chain(t2, way)) by {
        assert forall|i: int| 0 <= i < way.len() - 1 implies depends(
            t2,
            #[trigger] way[i],
            way[i + 1],
        ) by {
            lemma_stays(t1, t2, live, way, i);
            assert(depends(t1, way[i], way[i + 1]));
        }
    }
}

/// `v2` knows of `v1` what stands in `live`, and the inputs.
spec fn thinned(
    task: Task,
    v1: Map<Seq<char>, MatView>,
    v2: Map<Seq<char>, MatView>,
    live: Set<Seq<char>>,
) -> bool {
    &&& forall|n: Seq<char>| #[trigger]
        v2.contains_key(n) <==> v1.contains_key(n) && (live.contains(n) || task.given(n) is Some)
    &&& forall|n: Seq<char>| #[trigger] v2.contains_key(n) ==> v2[n] == v1[n]
}

proof fn lemma_desc_thinned<A: Arith>(
    t1: Task,
    t2: Task,
    live: Set<Seq<char>>,
    v1: Map<Seq<char>, MatView>,
    v2: Map<Seq<char>, MatView>,
    name: Seq<char>,
    desc: DescView,
    x: MatView,
)
    requires
        same_within(t1, t2, live),
        thinned(t1, v1, v2, live),
        live.contains(name),
        forall|n: Seq<char>| #[trigger] mentions(desc, n) ==> depends(t1, name, n),
        desc_value::<A>(v1, t1.feats.r, desc, x),
    ensures
        desc_value::<A>(v2, t2.feats.r, desc, x),
{
    assert forall|n: Seq<char>| #[trigger] mentions(desc, n) implies live.contains(n) by {
        assert(depends(t1, name, n));
    }
    assert forall|n: Seq<char>| live.contains(n) && #[trigger] v1.contains_key(
        n,
    ) implies v2.contains_key(n) && v2[n] == v1[n] by {
        assert(v2.contains_key(n) <==> v1.contains_key(n) && (live.contains(n) || t1.given(
            n,
        ) is Some));
    }
    lemma_desc_within::<A>(v1, v2, live, t1.feats.r, desc, x);
}

proof fn lemma_node_thinned<A: Arith>(
    t1: Task,
    t2: Task,
    live: Set<Seq<char>>,
    v1: Map<Seq<char>, MatView>,
    v2: Map<Seq<char>, MatView>,
    name: Seq<char>,
    y: MatView,
)
    requires
        same_within(t1, t2, live),
        thinned(t1, v1, v2, live),
        live.contains(name),
        t1.given(name) is None,
        node_value::<A>(t1, v1, name, y),
    ensures
        node_value::<A>(t2, v2, name, y),
{
    match t1.nodes[name] {
        NodeView::Input => {},
        NodeView::DimRange { src, off, dim } => {
            assert(depends(t1, name, src));
            assert(v1.contains_key(src));
        },
        NodeView::Component { comp, desc } => {
            let x = choose|x: MatView| #[trigger]
                desc_value::<A>(v1, t1.feats.r, desc, x) && applied::<A>(t1.comps[comp], x, y);
            assert forall|n: Seq<char>| #[trigger] mentions(desc, n) implies depends(
                t1,
                name,
                n,
            ) by {}
            lemma_desc_thinned::<A>(t1, t2, live, v1, v2, name, desc, x);
        },
        NodeView::Output { desc } => {
            assert forall|n: Seq<char>| #[trigger] mentions(desc, n) implies depends(
                t1,
                name,
                n,
            ) by {}
            lemma_desc_thinned::<A>(t1, t2, live, v1, v2, name, desc, y);
        },
    }
}

/// The first `k` entries of a record, without those of nodes outside `live`, are a record of the
/// other network.
proof fn lemma_thinned<A: Arith>(
    t1: Task,
    t2: Task,
    live: Set<Seq<char>>,
    tr: Trace,
    k: int,
) -> (out: Trace)
    requires
        same_within(t1, t2, live),
        is_trace::<A>(t1, tr),
        2 <= k <= tr.len(),
    ensures
        is_trace::<A>(t2, out),
        thinned(t1, vals(tr.take(k)), vals(out), live),
    decreases k,
{
    if k == 2 {
        let out = tr.take(2);
        let none: Trace = Seq::empty();
        let one = none.push(("input"@, t1.feats));
        lemma_vals_push(none, "input"@, t1.feats);
        lemma_vals_push(one, "ivector"@, t1.ivector);
        assert(out =~= one.push(("ivector"@, t1.ivector)));
        assert(is_trace::<A>(t2, out));
        out
    } else {
        let before = lemma_thinned::<A>(t1, t2, live, tr, k - 1);
        let v1 = vals(tr.take(k - 1));
        let (name, y) = tr[k - 1];
        assert(tr.take(k).drop_last() =~= tr.take(k - 1));
        assert(vals(tr.take(k)) == v1.insert(name, y));
        assert(follows::<A>(t1, tr, k - 1));
        assert(t1.given(name) is None) by {
            let front = tr.take(k - 1);
            assert(is_trace::<A>(t1, front)) by {
                assert forall|i: int| 2 <= i < front.len() implies #[trigger] follows::<A>(
                    t1,
                    front,
                    i,
                ) by {
                    assert(front.take(i) =~= tr.take(i));
                    assert(follows::<A>(t1, tr, i));
                }
            }
            law_inputs::<A>(t1, front);
            assert(v1.dom().contains("input"@) && v1.dom().contains("ivector"@));
        }
        if live.contains(name) {
            lemma_node_thinned::<A>(t1, t2, live, v1, vals(before), name, y);
            assert(!vals(before).contains_key(name));
            lemma_trace_push::<A>(t2, before, name, y);
            lemma_vals_push(before, name, y);
            before.push((name, y))
        } else {
            before
        }
    }
}

proof fn lemma_forwarded<A: Arith>(
    t1: Task,
    t2: Task,
    live: Set<Seq<char>>,
    r: Result<Mat, EvalError>,
)
    requires
        same_within(t1, t2, live),
        live.contains("output"@),
        forwarded::<A>(t1, r),
    ensures
        forwarded::<A>(t2, r),
{
    match r {
        Ok(y) => {
            let tr = choose|tr: Trace|
                {
                    &&& #[trigger] is_trace::<A>(t1, tr)
                    &&& vals(tr).contains_key("output"@)
                    &&& has_shape(t1, "output"@, shape(vals(tr)["output"@]))
                    &&& y@ == every_third(vals(tr)["output"@])
                };
            let whole = tr.len() as int;
            assert(tr.take(whole) =~= tr);
            let out = lemma_thinned::<A>(t1, t2, live, tr, whole);
            assert(vals(out).contains_key("output"@));
            let s = shape(vals(tr)["output"@]);
            let fuel = choose|fuel: nat| #[trigger] node_shape(t1, "output"@, fuel) == Some(s);
            law_unused(t1, t2, live, "output"@, fuel);
            assert(has_shape(t2, "output"@, s));
        },
        Err(EvalError::Mismatch) => {
            assert forall|fuel: nat| #[trigger] node_shape(t2, "output"@, fuel) is None by {
                law_unused(t1, t2, live, "output"@, fuel);
            }
            assert(dead(t2, "output"@));
        },
        Err(EvalError::Kernel) => {
            let (tr, name, x) = choose|tr: Trace, name: Seq<char>, x: MatView|
                {
                    &&& is_trace::<A>(t1, tr)
                    &&& #[trigger] fails_at::<A>(t1, tr, name, x)
                    &&& needs(t1, "output"@, name)
                    &&& !vals(tr).contains_key(name)
                };
            let whole = tr.len() as int;
            assert(tr.take(whole) =~= tr);
            let out = lemma_thinned::<A>(t1, t2, live, tr, whole);
            lemma_needs(t1, t2, live, "output"@, name);
            if let NodeView::Component { comp, desc } = t1.nodes[name] {
                assert forall|n: Seq<char>| #[trigger] mentions(desc, n) implies depends(
                    t1,
                    name,
                    n,
                ) by {}
                lemma_desc_thinned::<A>(t1, t2, live, vals(tr), vals(out), name, desc, x);
            }
            assert(fails_at::<A>(t2, out, name, x));
        },
    }
}

/// Nodes that the output does not need do not change what an evaluation may give: two networks
/// with the same nodes in `live`, which need only nodes there, and the output among them, may give
/// the same matrices and fail in the same ways.
pub proof fn law_unused_forward<A: Arith>(
    t1: Task,
    t2: Task,
    live: Set<Seq<char>>,
    r: Result<Mat, EvalError>,
)
    requires
        same_within(t1, t2, live),
        live.contains("output"@),
    ensures
        forwarded::<A>(t1, r) <==> forwarded::<A>(t2, r),
{
    lemma_turned(t1, t2, live);
    if forwarded::<A>(t1, r) {
        lemma_forwarded::<A>(t1, t2, live, r);
    }
    if forwarded::<A>(t2, r) {
        lemma_forwarded::<A>(t2, t1, live, r);
    }
}

/// What an expression needs is known where it has a value.
proof fn lemma_known<A: Arith>(
    v: Map<Seq<char>, MatView>,
    t: nat,
    d: DescView,
    y: MatView,
    n: Seq<char>,
)
    requires
        desc_value::<A>(v, t, d, y),
        mentions(d, n),
    ensures
        v.contains_key(n),
    decreases d,
{
    match d {
        DescView::Ref(m) => {},
        DescView::Offset(a, k) => {
            let m = choose|m: MatView|
                desc_value::<A>(v, t, *a, m) && y == #[trigger] shifted(m, k as int);
            lemma_known::<A>(v, t, *a, m, n);
        },
        DescView::Scale(f, a) => {
            let m = choose|m: MatView|
                desc_value::<A>(v, t, *a, m) && #[trigger] scaled::<A>(m, f, y);
            lemma_known::<A>(v, t, *a, m, n);
        },
        DescView::Sum(a, b) => {
            let (m, l) = choose|m: MatView, l: MatView|
                desc_value::<A>(v, t, *a, m) && desc_value::<A>(v, t, *b, l)
                    && #[trigger] added::<A>(m, l, y);
            if mentions(*a, n) {
                lemma_known::<A>(v, t, *a, m, n);
            } else {
                lemma_known::<A>(v, t, *b, l, n);
            }
        },
        DescView::Append(parts) => {
            let ms = choose|ms: Seq<MatView>|
                {
                    &&& ms.len() == parts.len()
                    &&& forall|i: int|
                        0 <= i < parts.len() ==> desc_value::<A>(v, t, parts[i], #[trigger] ms[i])
                    &&& can_join(ms)
                    &&& y == #[trigger] side_by_side(ms)
                };
            let i = choose|i: int| 0 <= i < parts.len() && mentions(#[trigger] parts[i], n);
            assert(desc_value::<A>(v, t, parts[i], ms[i]));
            lemma_known::<A>(v, t, parts[i], ms[i], n);
        },
        DescView::ReplaceIndex(a) => {
            let m = choose|m: MatView|
                desc_value::<A>(v, t, *a, m) && (t == 0 || m.r > 0 || m.c == 0) && y
                    == #[trigger] repeated(m, t);
            lemma_known::<A>(v, t, *a, m, n);
        },
    }
}

/// A record that has a node has all that it needs.
proof fn lemma_has_needed<A: Arith>(task: Task, tr: Trace, way: Seq<Seq<char>>, i: int)
    requires
        is_trace::<A>(task, tr),
        chain(task, way),
        0 <= i < way.len(),
        vals(tr).contains_key(way[0]),
    ensures
        vals(tr).contains_key(way[i]),
    decreases i,
{
    if i > 0 {
        lemma_has_needed::<A>(task, tr, way, i - 1);
        let a = way[i - 1];
        assert(depends(task, a, way[i - 1 + 1]));
        law_record::<A>(task, tr, a);
        let y = vals(tr)[a];
        match task.nodes[a] {
            NodeView::Input => {},
            NodeView::DimRange { src, off, dim } => {},
            NodeView::Component { comp, desc } => {
                let x = choose|x: MatView| #[trigger]
                    desc_value::<A>(vals(tr), task.feats.r, desc, x) && applied::<A>(
                        task.comps[comp],
                        x,
                        y,
                    );
                lemma_known::<A>(vals(tr), task.feats.r, desc, x, way[i]);
            },
            NodeView::Output { desc } => {
                lemma_known::<A>(vals(tr), task.feats.r, desc, y, way[i]);
            },
        }
    }
}

proof fn lemma_no_short_product<A: Arith>(
    m: MatView,
    w: MatView,
    bias: Option<Seq<u32>>,
    y: MatView,
)
    requires
        one_answer::<A>(),
        affine_image::<A>(m, w, bias, y),
    ensures
        !short_product::<A>(m, w),
{
    let (n, i, o) = (m.r as usize, m.c as usize, w.r as usize);
    let g = choose|g: Seq<u32>|
        {
            &&& #[trigger] gemms::<A>(m.r as usize, m.c as usize, w.r as usize, m.d, w.d, g)
            &&& g.len() == y.d.len()
            &&& match bias {
                None => y.d == g,
                Some(b) => forall|k: int|
                    0 <= k < g.len() ==> sums::<A>(
                        g[k],
                        b[k % (w.r as int)],
                        #[trigger] y.d[k],
                    ),
            }
        };
    if short_product::<A>(m, w) {
        let h = choose|h: Seq<u32>| #[trigger]
            gemms::<A>(m.r as usize, m.c as usize, w.r as usize, m.d, w.d, h) && h.len() != m.r
                * w.r;
        assert(gemms::<A>(n, i, o, m.d, w.d, g) && gemms::<A>(n, i, o, m.d, w.d, h));
        assert(g == h);
    }
}

proof fn lemma_no_fault<A: Arith>(c: CompView, x: MatView, y: MatView)
    requires
        one_answer::<A>(),
        applied::<A>(c, x, y),
    ensures
        !layer_fault::<A>(c, x),
{
    match c {
        CompView::Affine { w, b } => {
            lemma_no_short_product::<A>(x, w, Some(b), y);
        },
        CompView::Linear { w } => {
            lemma_no_short_product::<A>(x, w, None, y);
        },
        CompView::Tdnn { offsets, w, b } => {
            lemma_no_short_product::<A>(spliced(x, offsets), w, tdnn_bias(b), y);
        },
        _ => {},
    }
}

/// If the arithmetic has one answer for each operation, an evaluation that may give a matrix gives
/// no other one and does not fail.
pub proof fn law_one_forward<A: Arith>(
    task: Task,
    r: Result<Mat, EvalError>,
    q: Result<Mat, EvalError>,
)
    requires
        one_answer::<A>(),
        forwarded::<A>(task, r),
        forwarded::<A>(task, q),
        r is Ok,
    ensures
        outcome(q) == outcome(r),
{
    let y = r->Ok_0;
    let tr = choose|tr: Trace|
        {
            &&& #[trigger] is_trace::<A>(task, tr)
            &&& vals(tr).contains_key("output"@)
            &&& has_shape(task, "output"@, shape(vals(tr)["output"@]))
            &&& y@ == every_third(vals(tr)["output"@])
        };
    match q {
        Ok(z) => {
            let tr2 = choose|tr: Trace|
                {
                    &&& #[trigger] is_trace::<A>(task, tr)
                    &&& vals(tr).contains_key("output"@)
                    &&& has_shape(task, "output"@, shape(vals(tr)["output"@]))
                    &&& z@ == every_third(vals(tr)["output"@])
                };
            law_one_output::<A>(task, tr, tr2, "output"@);
        },
        Err(EvalError::Mismatch) => {
            let s = shape(vals(tr)["output"@]);
            let fuel = choose|fuel: nat| #[trigger] node_shape(task, "output"@, fuel) == Some(s);
            assert(node_shape(task, "output"@, fuel) is None);
        },
        Err(EvalError::Kernel) => {
            let (tr2, name, x) = choose|tr: Trace, name: Seq<char>, x: MatView|
                {
                    &&& is_trace::<A>(task, tr)
                    &&& #[trigger] fails_at::<A>(task, tr, name, x)
                    &&& needs(task, "output"@, name)
                    &&& !vals(tr).contains_key(name)
                };
            let way = choose|way: Seq<Seq<char>>| #[trigger]
                chain(task, way) && way.len() > 0 && way[0] == "output"@ && way.last() == name;
            lemma_has_needed::<A>(task, tr, way, way.len() - 1);
            law_record::<A>(task, tr, name);
            let all = Set::<Seq<char>>::full();
            assert(same_within(task, task, all));
            let whole = tr.len() as int;
            assert(tr.take(whole) =~= tr);
            lemma_agree::<A>(task, task, all, tr, tr2, whole);
            if let NodeView::Component { comp, desc } = task.nodes[name] {
                let x1 = choose|x: MatView| #[trigger]
                    desc_value::<A>(vals(tr), task.feats.r, desc, x) && applied::<A>(
                        task.comps[comp],
                        x,
                        vals(tr)[name],
                    );
                lemma_desc::<A>(vals(tr), vals(tr2), all, task.feats.r, desc, x1, x);
                lemma_no_fault::<A>(task.comps[comp], x, vals(tr)[name]);
            }
        },
    }
}

/// Removing nodes that the output does not need, or adding some, leaves the result as it is: if
/// the arithmetic has one answer for each operation, and one of the two networks gives a matrix,
/// the other gives the same.
pub proof fn law_unneeded_nodes<A: Arith>(
    t1: Task,
    t2: Task,
    live: Set<Seq<char>>,
    r: Result<Mat, EvalError>,
    q: Result<Mat, EvalError>,
)
    requires
        one_answer::<A>(),
        same_within(t1, t2, live),
        live.contains("output"@),
        forwarded::<A>(t1, r),
        forwarded::<A>(t2, q),
        r is Ok || q is Ok,
    ensures
        outcome(q) == outcome(r),
{
    law_unused_forward::<A>(t1, t2, live, q);
    if r is Ok {
        law_one_forward::<A>(t1, r, q);
    } else {
        law_one_forward::<A>(t1, q, r);
    }
}

} // verus!
