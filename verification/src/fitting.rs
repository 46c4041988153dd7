//! Networks whose nodes fit together, and that these can be evaluated.

use vstd::prelude::*;

use crate::components::CompView;
use crate::descriptor::DescView;
use crate::evaluation::{
    all_there, contents, dead, desc_shape, fails_at, fault, has_shape, is_trace, join_shape,
    law_fuel, law_one_shape, lemma_part_shapes, needs, node_shape, part_shapes, shape, total, vals,
    Shape, Task, Trace,
};
use crate::graph::NodeView;
use crate::mat::{short_product, spliced, EvalError, Mat, MatView};
use crate::nnet3::forwarded;
use crate::single::{gemms, Arith};

verus! {

/// How wide each node is, and in which order they come.
pub ghost struct Plan {
    pub wide: Map<Seq<char>, nat>,
    pub rank: spec_fn(Seq<char>) -> nat,
}

/// The sum of numbers.
pub open spec fn sum(ns: Seq<nat>) -> nat
    decreases ns.len(),
{
    if ns.len() == 0 {
        0
    } else {
        sum(ns.drop_last()) + ns.last()
    }
}

/// An expression of nodes before rank `k` is `c` columns wide: a name is as wide as its node, parts
/// that are appended are as wide as all together, and nothing else changes the width.
pub open spec fn is_wide(plan: Plan, k: nat, d: DescView, c: nat) -> bool
    decreases d,
{
    match d {
        DescView::Ref(n) => plan.wide.contains_key(n) && plan.wide[n] == c && (plan.rank)(n) < k,
        DescView::Offset(a, n) => is_wide(plan, k, *a, c),
        DescView::Scale(f, a) => is_wide(plan, k, *a, c),
        DescView::Sum(a, b) => is_wide(plan, k, *a, c) && is_wide(plan, k, *b, c),
        DescView::Append(parts) => parts.len() > 0 && exists|cs: Seq<nat>|
            #![trigger sum(cs)]
            {
                &&& cs.len() == parts.len()
                &&& forall|i: int|
                    0 <= i < parts.len() ==> is_wide(plan, k, parts[i], #[trigger] cs[i])
                &&& sum(cs) == c
                &&& c <= usize::MAX
            },
        DescView::ReplaceIndex(a) => is_wide(plan, k, *a, c),
    }
}

/// A layer takes `t` rows of `a` columns to rows of `b` columns.
pub open spec fn takes(layer: CompView, t: nat, a: nat, b: nat) -> bool {
    match layer {
        CompView::Identity => a == b,
        CompView::Relu => a == b,
        CompView::BatchNorm { mean, var, eps, trms } => a == b && mean.len() == a && var.len() == a,
        CompView::Affine { w, b: bias } => w.c == a && w.r == b && bias.len() == b && t * b
            <= usize::MAX,
        CompView::Linear { w } => w.c == a && w.r == b && t * b <= usize::MAX,
        CompView::Tdnn { offsets, w, b: bias } => w.c == a * offsets.len() && w.c <= usize::MAX
            && w.r == b && (bias.len() == 0 || bias.len() == b) && t * b <= usize::MAX,
    }
}

/// A node fits into the plan.
pub open spec fn node_fits(task: Task, plan: Plan, name: Seq<char>) -> bool {
    let k = (plan.rank)(name);
    let c = plan.wide[name];
    if name == "input"@ {
        c == task.feats.c
    } else if name == "ivector"@ {
        c == task.ivector.c && task.ivector.r == task.feats.r
    } else {
        task.nodes.contains_key(name) && match task.nodes[name] {
            NodeView::Input => false,
            NodeView::DimRange { src, off, dim } => plan.wide.contains_key(src) && (plan.rank)(src)
                < k && off + dim <= plan.wide[src] && c == dim,
            NodeView::Component { comp, desc } => task.comps.contains_key(comp) && exists|a: nat|
                #[trigger] is_wide(plan, k, desc, a) && takes(task.comps[comp], task.feats.r, a, c),
            NodeView::Output { desc } => is_wide(plan, k, desc, c),
        }
    }
}

/// Every node of the plan fits into it.
pub open spec fn all_fit(task: Task, plan: Plan) -> bool {
    forall|name: Seq<char>| #[trigger]
        plan.wide.contains_key(name) ==> node_fits(task, plan, name)
}

proof fn lemma_sum(ss: Seq<Shape>, cs: Seq<nat>)
    requires
        ss.len() == cs.len(),
        forall|i: int| 0 <= i < ss.len() ==> (#[trigger] ss[i]).1 == cs[i],
    ensures
        total(ss) == sum(cs),
    decreases ss.len(),
{
    if ss.len() > 0 {
        assert forall|i: int| 0 <= i < ss.drop_last().len() implies (#[trigger] ss.drop_last()[i]).1
            == cs.drop_last()[i] by {
            assert(ss[i].1 == cs[i]);
        }
        lemma_sum(ss.drop_last(), cs.drop_last());
        assert(ss[ss.len() - 1].1 == cs[cs.len() - 1]);
    }
}

proof fn lemma_desc(task: Task, plan: Plan, k: nat, d: DescView, c: nat)
    requires
        all_fit(task, plan),
        task.feats.r > 0,
        is_wide(plan, k, d, c),
    ensures
        desc_shape(task, d, k) == Some((task.feats.r, c)),
    decreases k, 1nat, d,
{
    let t = task.feats.r;
    match d {
        DescView::Ref(n) => {
            lemma_node(task, plan, n);
            law_fuel(task, n, (plan.rank)(n) + 1, k);
        },
        DescView::Offset(a, n) => {
            lemma_desc(task, plan, k, *a, c);
        },
        DescView::Scale(f, a) => {
            lemma_desc(task, plan, k, *a, c);
        },
        DescView::Sum(a, b) => {
            lemma_desc(task, plan, k, *a, c);
            lemma_desc(task, plan, k, *b, c);
        },
        DescView::Append(parts) => {
            let cs = choose|cs: Seq<nat>|
                #![trigger sum(cs)]
                {
                    &&& cs.len() == parts.len()
                    &&& forall|i: int|
                        0 <= i < parts.len() ==> is_wide(plan, k, parts[i], #[trigger] cs[i])
                    &&& sum(cs) == c
                    &&& c <= usize::MAX
                };
            let ps = part_shapes(task, parts, k);
            lemma_part_shapes(task, parts, k);
            assert forall|i: int| 0 <= i < parts.len() implies #[trigger] ps[i] == Some(
                (t, cs[i]),
            ) by {
                assert(is_wide(plan, k, parts[i], cs[i]));
                lemma_desc(task, plan, k, parts[i], cs[i]);
            }
            assert(all_there(ps));
            let ss = contents(ps);
            assert forall|i: int| 0 <= i < ss.len() implies (#[trigger] ss[i]).1 == cs[i] && ss[i].0
                == t by {
                assert(ps[i] == Some((t, cs[i])));
            }
            lemma_sum(ss, cs);
            assert(join_shape(ss) == Some((t, c)));
        },
        DescView::ReplaceIndex(a) => {
            lemma_desc(task, plan, k, *a, c);
        },
    }
}

proof fn lemma_node(task: Task, plan: Plan, name: Seq<char>)
    requires
        all_fit(task, plan),
        task.feats.r > 0,
        plan.wide.contains_key(name),
    ensures
        node_shape(task, name, (plan.rank)(name) + 1) == Some((task.feats.r, plan.wide[name])),
    decreases (plan.rank)(name), 2nat, DescView::Ref(name),
{
    reveal_strlit("input");
    reveal_strlit("ivector");
    assert("input"@.len() != "ivector"@.len());
    let k = (plan.rank)(name);
    let c = plan.wide[name];
    assert(node_fits(task, plan, name));
    if task.given(name) is None {
        match task.nodes[name] {
            NodeView::Input => {},
            NodeView::DimRange { src, off, dim } => {
                lemma_node(task, plan, src);
                law_fuel(task, src, (plan.rank)(src) + 1, k);
            },
            NodeView::Component { comp, desc } => {
                let a = choose|a: nat| #[trigger]
                    is_wide(plan, k, desc, a) && takes(task.comps[comp], task.feats.r, a, c);
                lemma_desc(task, plan, k, desc, a);
            },
            NodeView::Output { desc } => {
                lemma_desc(task, plan, k, desc, c);
            },
        }
    }
}

/// A network whose nodes fit together is evaluated: it is not turned down, and unless the
/// arithmetic fails, there is a row for every three rows of the features, as wide as the output.
pub proof fn law_fitting_network<A: Arith>(task: Task, plan: Plan, r: Result<Mat, EvalError>)
    requires
        forwarded::<A>(task, r),
        all_fit(task, plan),
        task.feats.r > 0,
        plan.wide.contains_key("output"@),
    ensures
        r is Err ==> r->Err_0 == EvalError::Kernel,
        r matches Ok(y) ==> y@.c == plan.wide["output"@] && task.feats.r <= 3 * y@.r
            < task.feats.r + 3,
{
    lemma_node(task, plan, "output"@);
    let s = (task.feats.r, plan.wide["output"@]);
    assert(has_shape(task, "output"@, s));
    if let Ok(y) = r {
        let tr = choose|tr: Trace|
            {
                &&& #[trigger] is_trace::<A>(task, tr)
                &&& vals(tr).contains_key("output"@)
                &&& has_shape(task, "output"@, shape(vals(tr)["output"@]))
                &&& y@ == crate::mat::every_third(vals(tr)["output"@])
            };
        law_one_shape(task, "output"@, s, shape(vals(tr)["output"@]));
    } else {
        assert(!dead(task, "output"@));
    }
}

/// The arithmetic gives matrix products of the right size.
pub open spec fn sized_products<A: Arith>() -> bool {
    forall|rows: usize, ins: usize, outs: usize, x: Seq<u32>, w: Seq<u32>, g: Seq<u32>| #[trigger]
        gemms::<A>(rows, ins, outs, x, w, g) ==> g.len() == rows * outs
}

/// A network whose nodes fit together gives a matrix where matrix products have the right size.
pub proof fn law_fitting_network_succeeds<A: Arith>(
    task: Task,
    plan: Plan,
    r: Result<Mat, EvalError>,
)
    requires
        forwarded::<A>(task, r),
        all_fit(task, plan),
        task.feats.r > 0,
        plan.wide.contains_key("output"@),
        sized_products::<A>(),
    ensures
        r is Ok,
{
    law_fitting_network::<A>(task, plan, r);
    if r is Err {
        assert(fault::<A>(task, "output"@));
        let (tr, name, x) = choose|tr: Trace, name: Seq<char>, x: MatView|
            {
                &&& is_trace::<A>(task, tr)
                &&& #[trigger] fails_at::<A>(task, tr, name, x)
                &&& needs(task, "output"@, name)
                &&& !vals(tr).contains_key(name)
            };
        let comp = match task.nodes[name] {
            NodeView::Component { comp, desc } => comp,
            _ => name,
        };
        match task.comps[comp] {
            CompView::Affine { w, b } => {
                lemma_product::<A>(x, w);
            },
            CompView::Linear { w } => {
                lemma_product::<A>(x, w);
            },
            CompView::Tdnn { offsets, w, b } => {
                lemma_product::<A>(spliced(x, offsets), w);
            },
            _ => {},
        }
    }
}

proof fn lemma_product<A: Arith>(x: MatView, w: MatView)
    requires
        sized_products::<A>(),
        x.r * w.r <= usize::MAX,
    ensures
        !short_product::<A>(x, w),
{
    if short_product::<A>(x, w) {
        let g = choose|g: Seq<u32>| #[trigger]
            gemms::<A>(x.r as usize, x.c as usize, w.r as usize, x.d, w.d, g) && g.len() != x.r
                * w.r;
        let (a, b) = (x.r as int, w.r as int);
        assert(b > 0 ==> a <= a * b) by (nonlinear_arith)
            requires
                a >= 0,
                b >= 0,
        ;
        assert(a > 0 ==> b <= a * b) by (nonlinear_arith)
            requires
                a >= 0,
                b >= 0,
        ;
        let (c, d) = (x.r as usize as int, w.r as usize as int);
        assert(c * d == a * b) by {
            if a == 0 {
                assert(0 * d == 0 && 0 * b == 0) by (nonlinear_arith);
            } else if b == 0 {
                assert(c * 0 == 0 && a * 0 == 0) by (nonlinear_arith);
            }
        }
    }
}

} // verus!
