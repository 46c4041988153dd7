//! What it means to evaluate a network: the sizes of its matrices, and their values.
//!
//! Sizes are a function of the network and its inputs. Values are related to the values they are
//! computed from, by the relations of [`crate::mat`].

use vstd::prelude::*;

use crate::components::CompView;
use crate::descriptor::DescView;
use crate::graph::NodeView;
use crate::mat::{
    added, affine_image, can_apply, can_join, can_normalise, columns, normalised, rectified,
    repeated, scaled, shifted, short_product, side_by_side, spliced, width, MatView,
};
use crate::single::Arith;

verus! {

/// A network and its inputs.
pub ghost struct Task {
    pub comps: Map<Seq<char>, CompView>,
    pub nodes: Map<Seq<char>, NodeView>,
    pub feats: MatView,
    pub ivector: MatView,
}

/// Rows and columns.
pub type Shape = (nat, nat);

/// The shape of a matrix.
pub open spec fn shape(m: MatView) -> Shape {
    (m.r, m.c)
}

/// The shapes of matrices.
pub open spec fn shapes(ms: Seq<MatView>) -> Seq<Shape> {
    Seq::new(ms.len(), |i: int| shape(ms[i]))
}

impl Task {
    /// The matrix that is given under a name.
    pub open spec fn given(self, name: Seq<char>) -> Option<MatView> {
        if name == "ivector"@ {
            Some(self.ivector)
        } else if name == "input"@ {
            Some(self.feats)
        } else {
            None
        }
    }

    /// The component is there.
    pub open spec fn has_comp(self, name: Seq<char>) -> bool {
        self.comps.contains_key(name)
    }
}

/// The shape of a product with `w`, if it can be taken.
pub open spec fn affine_shape(s: Shape, w: MatView, bias: Option<Seq<u32>>) -> Option<Shape> {
    if s.1 == w.c && s.0 * w.r <= usize::MAX && (bias is Some && s.0 > 0 ==> w.r
        <= bias->0.len()) {
        Some((s.0, w.r))
    } else {
        None
    }
}

/// The bias of a time-delay layer: an empty one is none.
pub open spec fn tdnn_bias(b: Seq<u32>) -> Option<Seq<u32>> {
    if b.len() == 0 {
        None
    } else {
        Some(b)
    }
}

/// The shape that a layer gives, if it can be applied.
pub open spec fn layer_shape(c: CompView, s: Shape) -> Option<Shape> {
    match c {
        CompView::Identity => Some(s),
        CompView::Relu => Some(s),
        CompView::BatchNorm { mean, var, eps, trms } => if s.0 == 0 || (s.1 <= mean.len() && s.1
            <= var.len()) {
            Some(s)
        } else {
            None
        },
        CompView::Affine { w, b } => affine_shape(s, w, Some(b)),
        CompView::Linear { w } => affine_shape(s, w, None),
        CompView::Tdnn { offsets, w, b } => if s.1 * offsets.len() <= usize::MAX {
            affine_shape((s.0, s.1 * offsets.len()), w, tdnn_bias(b))
        } else {
            None
        },
    }
}

/// `y` is what a layer gives for `x`.
pub open spec fn applied<A: Arith>(c: CompView, x: MatView, y: MatView) -> bool {
    match c {
        CompView::Identity => y == x,
        CompView::Relu => y == rectified(x),
        CompView::BatchNorm { mean, var, eps, trms } => can_normalise(x, mean, var) && normalised::<
            A,
        >(x, mean, var, eps, trms, y),
        CompView::Affine { w, b } => can_apply(x, w, Some(b)) && affine_image::<A>(
            x,
            w,
            Some(b),
            y,
        ),
        CompView::Linear { w } => can_apply(x, w, None) && affine_image::<A>(x, w, None, y),
        CompView::Tdnn { offsets, w, b } => can_apply(spliced(x, offsets), w, tdnn_bias(b))
            && affine_image::<A>(spliced(x, offsets), w, tdnn_bias(b), y),
    }
}

/// All columns together.
pub open spec fn total(ss: Seq<Shape>) -> nat
    decreases ss.len(),
{
    if ss.len() == 0 {
        0
    } else {
        total(ss.drop_last()) + ss.last().1
    }
}

/// The shape of matrices side by side, if they can stand so.
pub open spec fn join_shape(ss: Seq<Shape>) -> Option<Shape> {
    if ss.len() > 0 && (forall|k: int|
        0 <= k < ss.len() ==> (#[trigger] ss[k]).0 >= ss[0].0 || ss[k].1 == 0) && total(ss)
        <= usize::MAX {
        Some((ss[0].0, total(ss)))
    } else {
        None
    }
}

/// Every one is there.
pub open spec fn all_there(ss: Seq<Option<Shape>>) -> bool {
    forall|i: int| 0 <= i < ss.len() ==> (#[trigger] ss[i]) is Some
}

/// What is there.
pub open spec fn contents(ss: Seq<Option<Shape>>) -> Seq<Shape> {
    Seq::new(ss.len(), |i: int| ss[i]->0)
}

/// The shape of a node, looking no more than `fuel` nodes deep.
pub open spec fn node_shape(task: Task, name: Seq<char>, fuel: nat) -> Option<Shape>
    decreases fuel, 0nat, DescView::Ref(name),
{
    if let Some(m) = task.given(name) {
        Some(shape(m))
    } else if fuel == 0 || !task.nodes.contains_key(name) {
        None
    } else {
        match task.nodes[name] {
            NodeView::Input => None,
            NodeView::DimRange { src, off, dim } => match node_shape(
                task,
                src,
                (fuel - 1) as nat,
            ) {
                None => None,
                Some(s) => if s.0 == 0 || off + dim <= s.1 {
                    Some((s.0, dim))
                } else {
                    None
                },
            },
            NodeView::Component { comp, desc } => match desc_shape(
                task,
                desc,
                (fuel - 1) as nat,
            ) {
                None => None,
                Some(s) => if task.has_comp(comp) {
                    layer_shape(task.comps[comp], s)
                } else {
                    None
                },
            },
            NodeView::Output { desc } => desc_shape(task, desc, (fuel - 1) as nat),
        }
    }
}

/// The shape of an expression, looking no more than `fuel` nodes deep.
pub open spec fn desc_shape(task: Task, d: DescView, fuel: nat) -> Option<Shape>
    decreases fuel, 1nat, d,
{
    match d {
        DescView::Ref(n) => node_shape(task, n, fuel),
        DescView::Offset(a, n) => desc_shape(task, *a, fuel),
        DescView::Scale(s, a) => desc_shape(task, *a, fuel),
        DescView::Sum(a, b) => match desc_shape(task, *a, fuel) {
            None => None,
            Some(s) => match desc_shape(task, *b, fuel) {
                None => None,
                Some(s2) => Some(s),
            },
        },
        DescView::Append(parts) => {
            let ss = part_shapes(task, parts, fuel);
            if all_there(ss) {
                join_shape(contents(ss))
            } else {
                None
            }
        },
        DescView::ReplaceIndex(a) => match desc_shape(task, *a, fuel) {
            None => None,
            Some(s) => if task.feats.r == 0 || s.0 > 0 || s.1 == 0 {
                Some((task.feats.r, s.1))
            } else {
                None
            },
        },
    }
}

/// The shapes of expressions.
pub open spec fn part_shapes(task: Task, parts: Seq<DescView>, fuel: nat) -> Seq<Option<Shape>>
    decreases fuel, 1nat, parts,
{
    if parts.len() == 0 {
        Seq::empty()
    } else {
        part_shapes(task, parts.drop_last(), fuel).push(desc_shape(task, parts.last(), fuel))
    }
}

/// A node can be evaluated, and gives a matrix of shape `s`.
pub open spec fn has_shape(task: Task, name: Seq<char>, s: Shape) -> bool {
    exists|fuel: nat| #[trigger] node_shape(task, name, fuel) == Some(s)
}

/// A node cannot be evaluated: something is missing or does not fit, or it needs itself.
pub open spec fn dead(task: Task, name: Seq<char>) -> bool {
    forall|fuel: nat| #[trigger] node_shape(task, name, fuel) is None
}

/// An expression can be evaluated, and gives a matrix of shape `s`.
pub open spec fn desc_has_shape(task: Task, d: DescView, s: Shape) -> bool {
    exists|fuel: nat| #[trigger] desc_shape(task, d, fuel) == Some(s)
}

/// An expression cannot be evaluated.
pub open spec fn desc_dead(task: Task, d: DescView) -> bool {
    forall|fuel: nat| #[trigger] desc_shape(task, d, fuel) is None
}

/// `y` is the value of an expression where `vals` are the values of nodes.
pub open spec fn desc_value<A: Arith>(
    vals: Map<Seq<char>, MatView>,
    t: nat,
    d: DescView,
    y: MatView,
) -> bool
    decreases d,
{
    match d {
        DescView::Ref(n) => vals.contains_key(n) && y == vals[n],
        DescView::Offset(a, n) => exists|m: MatView|
            desc_value::<A>(vals, t, *a, m) && y == #[trigger] shifted(m, n as int),
        DescView::Scale(f, a) => exists|m: MatView|
            desc_value::<A>(vals, t, *a, m) && #[trigger] scaled::<A>(m, f, y),
        DescView::Sum(a, b) => exists|m: MatView, n: MatView|
            desc_value::<A>(vals, t, *a, m) && desc_value::<A>(vals, t, *b, n)
                && #[trigger] added::<A>(m, n, y),
        DescView::Append(parts) => exists|ms: Seq<MatView>|
            {
                &&& ms.len() == parts.len()
                &&& forall|i: int|
                    0 <= i < parts.len() ==> desc_value::<A>(vals, t, parts[i], #[trigger] ms[i])
                &&& can_join(ms)
                &&& y == #[trigger] side_by_side(ms)
            },
        DescView::ReplaceIndex(a) => exists|m: MatView|
            desc_value::<A>(vals, t, *a, m) && (t == 0 || m.r > 0 || m.c == 0) && y
                == #[trigger] repeated(m, t),
    }
}

/// `y` is the value of a node where `vals` are the values of others.
pub open spec fn node_value<A: Arith>(
    task: Task,
    vals: Map<Seq<char>, MatView>,
    name: Seq<char>,
    y: MatView,
) -> bool {
    task.nodes.contains_key(name) && match task.nodes[name] {
        NodeView::Input => false,
        NodeView::DimRange { src, off, dim } => {
            &&& vals.contains_key(src)
            &&& vals[src].r == 0 || off + dim <= vals[src].c
            &&& y == columns(vals[src], off, dim)
        },
        NodeView::Component { comp, desc } => task.has_comp(comp) && exists|x: MatView| #[trigger]
            desc_value::<A>(vals, task.feats.r, desc, x) && applied::<A>(task.comps[comp], x, y),
        NodeView::Output { desc } => desc_value::<A>(vals, task.feats.r, desc, y),
    }
}

/// A record of an evaluation: names and their matrices, in the order in which they came.
pub type Trace = Seq<(Seq<char>, MatView)>;

/// The values in a record.
pub open spec fn vals(tr: Trace) -> Map<Seq<char>, MatView>
    decreases tr.len(),
{
    if tr.len() == 0 {
        Map::empty()
    } else {
        vals(tr.drop_last()).insert(tr.last().0, tr.last().1)
    }
}

/// Entry `i` is a node that was not there before, and its value comes of those before it.
pub open spec fn follows<A: Arith>(task: Task, tr: Trace, i: int) -> bool {
    &&& !vals(tr.take(i)).contains_key(tr[i].0)
    &&& node_value::<A>(task, vals(tr.take(i)), tr[i].0, tr[i].1)
}

/// A record of an evaluation: the two inputs, and then each node from those before it.
pub open spec fn is_trace<A: Arith>(task: Task, tr: Trace) -> bool {
    &&& tr.len() >= 2
    &&& tr[0] == ("input"@, task.feats)
    &&& tr[1] == ("ivector"@, task.ivector)
    &&& forall|i: int| 2 <= i < tr.len() ==> #[trigger] follows::<A>(task, tr, i)
}

/// The arithmetic fails on a layer applied to `x`: its matrix product has the wrong size.
pub open spec fn layer_fault<A: Arith>(c: CompView, x: MatView) -> bool {
    match c {
        CompView::Affine { w, b } => can_apply(x, w, Some(b)) && short_product::<A>(x, w),
        CompView::Linear { w } => can_apply(x, w, None) && short_product::<A>(x, w),
        CompView::Tdnn { offsets, w, b } => can_apply(spliced(x, offsets), w, tdnn_bias(b))
            && short_product::<A>(spliced(x, offsets), w),
        _ => false,
    }
}

/// After what is recorded the node comes to apply its layer to `x`, and there the arithmetic fails.
pub open spec fn fails_at<A: Arith>(task: Task, tr: Trace, name: Seq<char>, x: MatView) -> bool {
    task.nodes.contains_key(name) && task.given(name) is None && match task.nodes[name] {
        NodeView::Component { comp, desc } => {
            &&& task.has_comp(comp)
            &&& desc_value::<A>(vals(tr), task.feats.r, desc, x)
            &&& layer_fault::<A>(task.comps[comp], x)
        },
        _ => false,
    }
}

/// The arithmetic fails on the way to node `root`: some evaluation comes to a node that it needs
/// and has not evaluated yet, and the matrix product of its layer has the wrong size.
pub open spec fn fault<A: Arith>(task: Task, root: Seq<char>) -> bool {
    exists|tr: Trace, name: Seq<char>, x: MatView|
        {
            &&& is_trace::<A>(task, tr)
            &&& #[trigger] fails_at::<A>(task, tr, name, x)
            &&& needs(task, root, name)
            &&& !vals(tr).contains_key(name)
        }
}

/// With more fuel a shape stays what it is.
pub proof fn law_fuel(task: Task, name: Seq<char>, f: nat, g: nat)
    requires
        f <= g,
        node_shape(task, name, f) is Some,
    ensures
        node_shape(task, name, g) == node_shape(task, name, f),
    decreases f, 0nat, DescView::Ref(name),
{
    if task.given(name) is None {
        match task.nodes[name] {
            NodeView::Input => {},
            NodeView::DimRange { src, off, dim } => {
                law_fuel(task, src, (f - 1) as nat, (g - 1) as nat);
            },
            NodeView::Component { comp, desc } => {
                lemma_desc_fuel(task, desc, (f - 1) as nat, (g - 1) as nat);
            },
            NodeView::Output { desc } => {
                lemma_desc_fuel(task, desc, (f - 1) as nat, (g - 1) as nat);
            },
        }
    }
}

/// With more fuel the shape of an expression stays what it is.
pub proof fn lemma_desc_fuel(task: Task, d: DescView, f: nat, g: nat)
    requires
        f <= g,
        desc_shape(task, d, f) is Some,
    ensures
        desc_shape(task, d, g) == desc_shape(task, d, f),
    decreases f, 1nat, d,
{
    match d {
        DescView::Ref(n) => {
            law_fuel(task, n, f, g);
        },
        DescView::Offset(a, n) => {
            lemma_desc_fuel(task, *a, f, g);
        },
        DescView::Scale(s, a) => {
            lemma_desc_fuel(task, *a, f, g);
        },
        DescView::Sum(a, b) => {
            lemma_desc_fuel(task, *a, f, g);
            lemma_desc_fuel(task, *b, f, g);
        },
        DescView::Append(parts) => {
            let sf = part_shapes(task, parts, f);
            let sg = part_shapes(task, parts, g);
            lemma_part_shapes(task, parts, f);
            lemma_part_shapes(task, parts, g);
            assert forall|i: int| 0 <= i < parts.len() implies sf[i] == sg[i] by {
                assert(sf[i] is Some);
                lemma_desc_fuel(task, parts[i], f, g);
            }
            assert(sf =~= sg);
        },
        DescView::ReplaceIndex(a) => {
            lemma_desc_fuel(task, *a, f, g);
        },
    }
}

/// The shapes of expressions, one by one.
pub proof fn lemma_part_shapes(task: Task, parts: Seq<DescView>, fuel: nat)
    ensures
        part_shapes(task, parts, fuel).len() == parts.len(),
        forall|i: int|
            0 <= i < parts.len() ==> #[trigger] part_shapes(task, parts, fuel)[i] == desc_shape(
                task,
                parts[i],
                fuel,
            ),
    decreases parts.len(),
{
    if parts.len() > 0 {
        let front = parts.drop_last();
        lemma_part_shapes(task, front, fuel);
        let ss = part_shapes(task, parts, fuel);
        assert forall|i: int| 0 <= i < parts.len() implies #[trigger] ss[i] == desc_shape(
            task,
            parts[i],
            fuel,
        ) by {
            if i < front.len() {
                assert(ss[i] == part_shapes(task, front, fuel)[i]);
                assert(front[i] == parts[i]);
            }
        }
    }
}

/// A node has one shape only.
pub proof fn law_one_shape(task: Task, name: Seq<char>, s1: Shape, s2: Shape)
    requires
        has_shape(task, name, s1),
        has_shape(task, name, s2),
    ensures
        s1 == s2,
{
    let f = choose|f: nat| #[trigger] node_shape(task, name, f) == Some(s1);
    let g = choose|g: nat| #[trigger] node_shape(task, name, g) == Some(s2);
    if f <= g {
        law_fuel(task, name, f, g);
    } else {
        law_fuel(task, name, g, f);
    }
}

/// The expression needs the node `n`.
pub open spec fn mentions(d: DescView, n: Seq<char>) -> bool
    decreases d,
{
    match d {
        DescView::Ref(m) => m == n,
        DescView::Offset(a, k) => mentions(*a, n),
        DescView::Scale(s, a) => mentions(*a, n),
        DescView::Sum(a, b) => mentions(*a, n) || mentions(*b, n),
        DescView::Append(parts) => exists|i: int|
            0 <= i < parts.len() && mentions(#[trigger] parts[i], n),
        DescView::ReplaceIndex(a) => mentions(*a, n),
    }
}

/// The node `a` needs the node `b`.
pub open spec fn depends(task: Task, a: Seq<char>, b: Seq<char>) -> bool {
    task.nodes.contains_key(a) && task.given(a) is None && match task.nodes[a] {
        NodeView::Input => false,
        NodeView::DimRange { src, off, dim } => src == b,
        NodeView::Component { comp, desc } => mentions(desc, b),
        NodeView::Output { desc } => mentions(desc, b),
    }
}

proof fn lemma_mentions(task: Task, d: DescView, n: Seq<char>, fuel: nat)
    requires
        mentions(d, n),
        desc_shape(task, d, fuel) is Some,
    ensures
        node_shape(task, n, fuel) is Some,
    decreases d,
{
    match d {
        DescView::Ref(m) => {},
        DescView::Offset(a, k) => {
            lemma_mentions(task, *a, n, fuel);
        },
        DescView::Scale(s, a) => {
            lemma_mentions(task, *a, n, fuel);
        },
        DescView::Sum(a, b) => {
            if mentions(*a, n) {
                lemma_mentions(task, *a, n, fuel);
            } else {
                lemma_mentions(task, *b, n, fuel);
            }
        },
        DescView::Append(parts) => {
            let i = choose|i: int| 0 <= i < parts.len() && mentions(#[trigger] parts[i], n);
            lemma_part_shapes(task, parts, fuel);
            assert(part_shapes(task, parts, fuel)[i] is Some);
            lemma_mentions(task, parts[i], n, fuel);
        },
        DescView::ReplaceIndex(a) => {
            lemma_mentions(task, *a, n, fuel);
        },
    }
}

/// A node that can be evaluated needs only nodes that can be, and they lie less deep.
pub proof fn law_depends(task: Task, a: Seq<char>, b: Seq<char>, fuel: nat)
    requires
        depends(task, a, b),
        node_shape(task, a, fuel) is Some,
    ensures
        fuel > 0,
        node_shape(task, b, (fuel - 1) as nat) is Some,
{
    match task.nodes[a] {
        NodeView::Input => {},
        NodeView::DimRange { src, off, dim } => {},
        NodeView::Component { comp, desc } => {
            lemma_mentions(task, desc, b, (fuel - 1) as nat);
        },
        NodeView::Output { desc } => {
            lemma_mentions(task, desc, b, (fuel - 1) as nat);
        },
    }
}

/// Each node needs the next one.
pub open spec fn chain(task: Task, path: Seq<Seq<char>>) -> bool {
    forall|i: int| 0 <= i < path.len() - 1 ==> depends(task, #[trigger] path[i], path[i + 1])
}

/// The node `a` needs the node `b`, at whatever remove, or is that node.
pub open spec fn needs(task: Task, a: Seq<char>, b: Seq<char>) -> bool {
    exists|way: Seq<Seq<char>>| #[trigger]
        chain(task, way) && way.len() > 0 && way[0] == a && way.last() == b
}

/// Some node cannot be evaluated.
pub open spec fn stuck(task: Task, path: Seq<Seq<char>>) -> bool {
    exists|i: int| 0 <= i < path.len() && dead(task, #[trigger] path[i])
}

proof fn lemma_chain(task: Task, path: Seq<Seq<char>>, i: int, j: int, fuel: nat)
    requires
        chain(task, path),
        0 <= i <= j < path.len(),
        node_shape(task, path[i], fuel) is Some,
    ensures
        fuel >= j - i,
        node_shape(task, path[j], (fuel - (j - i)) as nat) is Some,
    decreases j - i,
{
    if i < j {
        assert(depends(task, path[i], path[i + 1]));
        law_depends(task, path[i], path[i + 1], fuel);
        lemma_chain(task, path, i + 1, j, (fuel - 1) as nat);
    }
}

proof fn lemma_cycle(task: Task, path: Seq<Seq<char>>, i: int, j: int, fuel: nat)
    requires
        chain(task, path),
        0 <= i < j < path.len(),
        path[i] == path[j],
    ensures
        node_shape(task, path[i], fuel) is None,
    decreases fuel,
{
    if node_shape(task, path[i], fuel) is Some {
        lemma_chain(task, path, i, j, fuel);
        lemma_cycle(task, path, i, j, (fuel - (j - i)) as nat);
    }
}

/// A node that needs itself, at whatever remove, cannot be evaluated.
pub proof fn law_cycle(task: Task, path: Seq<Seq<char>>, i: int, j: int)
    requires
        chain(task, path),
        0 <= i < j < path.len(),
        path[i] == path[j],
    ensures
        dead(task, path[i]),
{
    assert forall|fuel: nat| #[trigger] node_shape(task, path[i], fuel) is None by {
        lemma_cycle(task, path, i, j, fuel);
    }
}

/// A chain longer than there are nodes does not end well.
pub proof fn lemma_exhausted(task: Task, path: Seq<Seq<char>>)
    requires
        chain(task, path),
        forall|i: int| 0 <= i < path.len() ==> task.nodes.contains_key(#[trigger] path[i]),
        task.nodes.dom().finite(),
        path.len() > task.nodes.dom().len(),
    ensures
        stuck(task, path),
{
    if path.no_duplicates() {
        path.unique_seq_to_set();
        assert(path.to_set().subset_of(task.nodes.dom()));
        vstd::set_lib::lemma_len_subset(path.to_set(), task.nodes.dom());
    } else {
        let (i, j) = choose|i: int, j: int|
            0 <= i < path.len() && 0 <= j < path.len() && i != j && path[i] == path[j];
        if i < j {
            law_cycle(task, path, i, j);
        } else {
            law_cycle(task, path, j, i);
        }
        assert(dead(task, path[i]));
    }
}

/// Where the next node of a chain is stuck, so is the chain.
pub proof fn lemma_stuck(task: Task, path: Seq<Seq<char>>, next: Seq<char>)
    requires
        path.len() > 0,
        depends(task, path.last(), next),
        stuck(task, path.push(next)),
    ensures
        stuck(task, path),
{
    let longer = path.push(next);
    let k = choose|k: int| 0 <= k < longer.len() && dead(task, #[trigger] longer[k]);
    if k < path.len() {
        assert(longer[k] == path[k]);
    } else {
        let last = path.len() - 1;
        assert forall|fuel: nat| #[trigger] node_shape(task, path[last], fuel) is None by {
            if node_shape(task, path[last], fuel) is Some {
                law_depends(task, path[last], next, fuel);
            }
        }
        assert(dead(task, path[last]));
    }
}

/// What is known of the nodes in `live` is enough for an expression that needs no others.
pub proof fn lemma_desc_within<A: Arith>(
    v1: Map<Seq<char>, MatView>,
    v2: Map<Seq<char>, MatView>,
    live: Set<Seq<char>>,
    t: nat,
    d: DescView,
    y: MatView,
)
    requires
        forall|n: Seq<char>|
            live.contains(n) && #[trigger] v1.contains_key(n) ==> v2.contains_key(n) && v2[n]
                == v1[n],
        forall|n: Seq<char>| #[trigger] mentions(d, n) ==> live.contains(n),
        desc_value::<A>(v1, t, d, y),
    ensures
        desc_value::<A>(v2, t, d, y),
    decreases d,
{
    reveal_with_fuel(mentions, 2);
    match d {
        DescView::Ref(n) => {
            assert(mentions(d, n));
        },
        DescView::Offset(a, n) => {
            let m = choose|m: MatView|
                desc_value::<A>(v1, t, *a, m) && y == #[trigger] shifted(m, n as int);
            assert forall|x: Seq<char>| #[trigger] mentions(*a, x) implies live.contains(x) by {
                assert(mentions(d, x));
            }
            lemma_desc_within::<A>(v1, v2, live, t, *a, m);
            assert(y == shifted(m, n as int));
        },
        DescView::Scale(f, a) => {
            let m = choose|m: MatView|
                desc_value::<A>(v1, t, *a, m) && #[trigger] scaled::<A>(m, f, y);
            assert forall|x: Seq<char>| #[trigger] mentions(*a, x) implies live.contains(x) by {
                assert(mentions(d, x));
            }
            lemma_desc_within::<A>(v1, v2, live, t, *a, m);
        },
        DescView::Sum(a, b) => {
            let (m, n) = choose|m: MatView, n: MatView|
                desc_value::<A>(v1, t, *a, m) && desc_value::<A>(v1, t, *b, n)
                    && #[trigger] added::<A>(m, n, y);
            assert forall|x: Seq<char>| #[trigger] mentions(*a, x) implies live.contains(x) by {
                assert(mentions(d, x));
            }
            lemma_desc_within::<A>(v1, v2, live, t, *a, m);
            assert forall|x: Seq<char>| #[trigger] mentions(*b, x) implies live.contains(x) by {
                assert(mentions(d, x));
            }
            lemma_desc_within::<A>(v1, v2, live, t, *b, n);
        },
        DescView::Append(parts) => {
            let ms = choose|ms: Seq<MatView>|
                {
                    &&& ms.len() == parts.len()
                    &&& forall|i: int|
                        0 <= i < parts.len() ==> desc_value::<A>(v1, t, parts[i], #[trigger] ms[i])
                    &&& can_join(ms)
                    &&& y == #[trigger] side_by_side(ms)
                };
            assert forall|i: int| 0 <= i < parts.len() implies desc_value::<A>(
                v2,
                t,
                parts[i],
                #[trigger] ms[i],
            ) by {
                assert forall|x: Seq<char>| #[trigger] mentions(parts[i], x) implies live.contains(
                    x,
                ) by {
                    assert(mentions(d->Append_0[i], x));
                    assert(mentions(d, x));
                }
                lemma_desc_within::<A>(v1, v2, live, t, parts[i], ms[i]);
            }
            assert(y == side_by_side(ms));
        },
        DescView::ReplaceIndex(a) => {
            let m = choose|m: MatView|
                desc_value::<A>(v1, t, *a, m) && (t == 0 || m.r > 0 || m.c == 0) && y
                    == #[trigger] repeated(m, t);
            assert forall|x: Seq<char>| #[trigger] mentions(*a, x) implies live.contains(x) by {
                assert(mentions(d, x));
            }
            lemma_desc_within::<A>(v1, v2, live, t, *a, m);
            assert(y == repeated(m, t));
        },
    }
}

/// Where more is known, a value stays a value.
pub proof fn lemma_desc_grows<A: Arith>(
    v1: Map<Seq<char>, MatView>,
    v2: Map<Seq<char>, MatView>,
    t: nat,
    d: DescView,
    y: MatView,
)
    requires
        v1.submap_of(v2),
        desc_value::<A>(v1, t, d, y),
    ensures
        desc_value::<A>(v2, t, d, y),
{
    let all = Set::<Seq<char>>::full();
    assert forall|n: Seq<char>| all.contains(n) && #[trigger] v1.contains_key(
        n,
    ) implies v2.contains_key(n) && v2[n] == v1[n] by {
        assert(v1.dom().contains(n));
    }
    lemma_desc_within::<A>(v1, v2, all, t, d, y);
}

/// The columns of matrices are those of their shapes.
pub proof fn lemma_total(ms: Seq<MatView>)
    ensures
        total(shapes(ms)) == width(ms),
    decreases ms.len(),
{
    if ms.len() > 0 {
        lemma_total(ms.drop_last());
        assert(shapes(ms).drop_last() =~= shapes(ms.drop_last()));
    }
}

/// Matrices can stand side by side where their shapes can.
pub proof fn lemma_join(ms: Seq<MatView>)
    ensures
        can_join(ms) <==> join_shape(shapes(ms)) is Some,
        can_join(ms) ==> join_shape(shapes(ms)) == Some(shape(side_by_side(ms))),
{
    lemma_total(ms);
    let ss = shapes(ms);
    if can_join(ms) {
        assert forall|k: int| 0 <= k < ss.len() implies (#[trigger] ss[k]).0 >= ss[0].0 || ss[k].1
            == 0 by {
            assert(ms[k].r >= ms[0].r || ms[k].c == 0);
        }
    }
    if join_shape(ss) is Some {
        assert forall|k: int| 0 <= k < ms.len() implies (#[trigger] ms[k]).r >= ms[0].r || ms[k].c
            == 0 by {
            assert(ss[k].0 >= ss[0].0 || ss[k].1 == 0);
        }
    }
}

/// Shapes of parts make the shape of the whole, whatever fuel each of them took.
pub proof fn lemma_common_fuel(task: Task, parts: Seq<DescView>, ms: Seq<MatView>) -> (fuel: nat)
    requires
        ms.len() == parts.len(),
        forall|i: int|
            0 <= i < parts.len() ==> desc_has_shape(task, parts[i], shape(#[trigger] ms[i])),
    ensures
        forall|i: int|
            0 <= i < parts.len() ==> desc_shape(task, parts[i], fuel) == Some(
                shape(#[trigger] ms[i]),
            ),
    decreases parts.len(),
{
    if parts.len() == 0 {
        0
    } else {
        let front = parts.drop_last();
        let some = ms.drop_last();
        assert forall|i: int| 0 <= i < front.len() implies desc_has_shape(
            task,
            front[i],
            shape(#[trigger] some[i]),
        ) by {
            assert(some[i] == ms[i]);
        }
        let f = lemma_common_fuel(task, front, some);
        let last = parts.len() - 1;
        assert(desc_has_shape(task, parts[last], shape(ms[last])));
        let g = choose|g: nat| #[trigger]
            desc_shape(task, parts[last], g) == Some(shape(ms[last]));
        let top = if f <= g {
            g
        } else {
            f
        };
        assert forall|i: int| 0 <= i < parts.len() implies desc_shape(task, parts[i], top) == Some(
            shape(#[trigger] ms[i]),
        ) by {
            if i < last {
                assert(some[i] == ms[i]);
                assert(front[i] == parts[i]);
                lemma_desc_fuel(task, parts[i], f, top);
            } else {
                lemma_desc_fuel(task, parts[i], g, top);
            }
        }
        top
    }
}

/// Matrices side by side have the shape of the expression that asks for them, if they can stand
/// so, and the expression has none if they cannot.
pub proof fn lemma_append(task: Task, parts: Seq<DescView>, ms: Seq<MatView>)
    requires
        ms.len() == parts.len(),
        forall|i: int|
            0 <= i < parts.len() ==> desc_has_shape(task, parts[i], shape(#[trigger] ms[i])),
    ensures
        can_join(ms) ==> desc_has_shape(task, DescView::Append(parts), shape(side_by_side(ms))),
        !can_join(ms) ==> desc_dead(task, DescView::Append(parts)),
{
    lemma_join(ms);
    let f = lemma_common_fuel(task, parts, ms);
    if can_join(ms) {
        lemma_part_shapes(task, parts, f);
        let ss = part_shapes(task, parts, f);
        assert forall|i: int| 0 <= i < ss.len() implies #[trigger] ss[i] == Some(shape(ms[i])) by {
            assert(desc_shape(task, parts[i], f) == Some(shape(ms[i])));
        }
        assert(contents(ss) =~= shapes(ms));
        assert(desc_shape(task, DescView::Append(parts), f) == Some(shape(side_by_side(ms))));
    } else {
        assert forall|g: nat| #[trigger]
            desc_shape(task, DescView::Append(parts), g) is None by {
            lemma_part_shapes(task, parts, g);
            let ss = part_shapes(task, parts, g);
            if all_there(ss) {
                assert forall|i: int| 0 <= i < ss.len() implies #[trigger] contents(ss)[i]
                    == shapes(ms)[i] by {
                    assert(ss[i] is Some);
                    assert(desc_shape(task, parts[i], f) == Some(shape(ms[i])));
                    if f <= g {
                        lemma_desc_fuel(task, parts[i], f, g);
                    } else {
                        lemma_desc_fuel(task, parts[i], g, f);
                    }
                }
                assert(contents(ss) =~= shapes(ms));
            }
        }
    }
}

/// One dead part makes the whole dead.
pub proof fn lemma_dead_part(task: Task, parts: Seq<DescView>, i: int)
    requires
        0 <= i < parts.len(),
        desc_dead(task, parts[i]),
    ensures
        desc_dead(task, DescView::Append(parts)),
{
    assert forall|g: nat| #[trigger] desc_shape(task, DescView::Append(parts), g) is None by {
        lemma_part_shapes(task, parts, g);
        assert(part_shapes(task, parts, g)[i] == desc_shape(task, parts[i], g));
    }
}

/// A node further on in a record is found under its name.
pub proof fn lemma_vals_push(tr: Trace, name: Seq<char>, m: MatView)
    ensures
        vals(tr.push((name, m))) == vals(tr).insert(name, m),
{
    assert(tr.push((name, m)).drop_last() =~= tr);
}

/// A record with one more node in it.
pub proof fn lemma_trace_push<A: Arith>(task: Task, tr: Trace, name: Seq<char>, m: MatView)
    requires
        is_trace::<A>(task, tr),
        !vals(tr).contains_key(name),
        node_value::<A>(task, vals(tr), name, m),
    ensures
        is_trace::<A>(task, tr.push((name, m))),
{
    let longer = tr.push((name, m));
    assert forall|i: int| 2 <= i < longer.len() implies #[trigger] follows::<A>(
        task,
        longer,
        i,
    ) by {
        if i < tr.len() {
            assert(follows::<A>(task, tr, i));
            assert(longer.take(i) =~= tr.take(i));
        } else {
            assert(longer.take(i) =~= tr);
        }
    }
}

proof fn lemma_same_shape(task: Task, d: DescView, s: Shape, fuel: nat)
    requires
        desc_has_shape(task, d, s),
        desc_shape(task, d, fuel) is Some,
    ensures
        desc_shape(task, d, fuel) == Some(s),
{
    let f = choose|f: nat| #[trigger] desc_shape(task, d, f) == Some(s);
    if f <= fuel {
        lemma_desc_fuel(task, d, f, fuel);
    } else {
        lemma_desc_fuel(task, d, fuel, f);
    }
}

/// A reference has the shape of its node.
pub proof fn lemma_ref(task: Task, n: Seq<char>, s: Shape)
    requires
        has_shape(task, n, s),
    ensures
        desc_has_shape(task, DescView::Ref(n), s),
{
    let f = choose|f: nat| #[trigger] node_shape(task, n, f) == Some(s);
    assert(desc_shape(task, DescView::Ref(n), f) == Some(s));
}

/// The shape of an expression moved in time.
pub proof fn lemma_offset(task: Task, a: DescView, n: i32)
    ensures
        forall|s: Shape| #[trigger]
            desc_has_shape(task, a, s) ==> desc_has_shape(
                task,
                DescView::Offset(Box::new(a), n),
                s,
            ),
        desc_dead(task, a) ==> desc_dead(task, DescView::Offset(Box::new(a), n)),
{
    let d = DescView::Offset(Box::new(a), n);
    assert forall|s: Shape| #[trigger] desc_has_shape(task, a, s) implies desc_has_shape(
        task,
        d,
        s,
    ) by {
        let f = choose|f: nat| #[trigger] desc_shape(task, a, f) == Some(s);
        assert(desc_shape(task, d, f) == Some(s));
    }
    if desc_dead(task, a) {
        assert forall|f: nat| #[trigger] desc_shape(task, d, f) is None by {
            assert(desc_shape(task, a, f) is None);
        }
    }
}

/// The shape of a scaled expression.
pub proof fn lemma_scale(task: Task, f: u32, a: DescView)
    ensures
        forall|s: Shape| #[trigger]
            desc_has_shape(task, a, s) ==> desc_has_shape(
                task,
                DescView::Scale(f, Box::new(a)),
                s,
            ),
        desc_dead(task, a) ==> desc_dead(task, DescView::Scale(f, Box::new(a))),
{
    let d = DescView::Scale(f, Box::new(a));
    assert forall|s: Shape| #[trigger] desc_has_shape(task, a, s) implies desc_has_shape(
        task,
        d,
        s,
    ) by {
        let g = choose|g: nat| #[trigger] desc_shape(task, a, g) == Some(s);
        assert(desc_shape(task, d, g) == Some(s));
    }
    if desc_dead(task, a) {
        assert forall|g: nat| #[trigger] desc_shape(task, d, g) is None by {
            assert(desc_shape(task, a, g) is None);
        }
    }
}

/// The shape of a sum.
pub proof fn lemma_sum(task: Task, a: DescView, b: DescView)
    ensures
        forall|s: Shape, s2: Shape| #[trigger]
            desc_has_shape(task, a, s) && #[trigger] desc_has_shape(task, b, s2) ==> desc_has_shape(
                task,
                DescView::Sum(Box::new(a), Box::new(b)),
                s,
            ),
        desc_dead(task, a) || desc_dead(task, b) ==> desc_dead(
            task,
            DescView::Sum(Box::new(a), Box::new(b)),
        ),
{
    let d = DescView::Sum(Box::new(a), Box::new(b));
    assert forall|s: Shape, s2: Shape| #[trigger]
        desc_has_shape(task, a, s) && #[trigger] desc_has_shape(
            task,
            b,
            s2,
        ) implies desc_has_shape(task, d, s) by {
        let f = choose|f: nat| #[trigger] desc_shape(task, a, f) == Some(s);
        let g = choose|g: nat| #[trigger] desc_shape(task, b, g) == Some(s2);
        let top = if f <= g {
            g
        } else {
            f
        };
        lemma_desc_fuel(task, a, f, top);
        lemma_desc_fuel(task, b, g, top);
        assert(desc_shape(task, d, top) == Some(s));
    }
    if desc_dead(task, a) || desc_dead(task, b) {
        assert forall|f: nat| #[trigger] desc_shape(task, d, f) is None by {
            assert(desc_shape(task, a, f) is None || desc_shape(task, b, f) is None);
        }
    }
}

/// The shape of a repeated first row.
pub proof fn lemma_replace(task: Task, a: DescView)
    ensures
        forall|s: Shape| #[trigger]
            desc_has_shape(task, a, s) ==> (if task.feats.r == 0 || s.0 > 0 || s.1 == 0 {
                desc_has_shape(
                    task,
                    DescView::ReplaceIndex(Box::new(a)),
                    (task.feats.r, s.1),
                )
            } else {
                desc_dead(task, DescView::ReplaceIndex(Box::new(a)))
            }),
        desc_dead(task, a) ==> desc_dead(task, DescView::ReplaceIndex(Box::new(a))),
{
    let d = DescView::ReplaceIndex(Box::new(a));
    assert forall|s: Shape| #[trigger] desc_has_shape(task, a, s) implies (if task.feats.r == 0
        || s.0 > 0 || s.1 == 0 {
        desc_has_shape(task, d, (task.feats.r, s.1))
    } else {
        desc_dead(task, d)
    }) by {
        let f = choose|f: nat| #[trigger] desc_shape(task, a, f) == Some(s);
        if task.feats.r == 0 || s.0 > 0 || s.1 == 0 {
            assert(desc_shape(task, d, f) == Some((task.feats.r, s.1)));
        } else {
            assert forall|g: nat| #[trigger] desc_shape(task, d, g) is None by {
                if desc_shape(task, a, g) is Some {
                    lemma_same_shape(task, a, s, g);
                }
            }
        }
    }
    if desc_dead(task, a) {
        assert forall|f: nat| #[trigger] desc_shape(task, d, f) is None by {
            assert(desc_shape(task, a, f) is None);
        }
    }
}

/// The shape of a node that takes columns of another.
pub proof fn lemma_range(
    task: Task,
    name: Seq<char>,
    src: Seq<char>,
    off: nat,
    dim: nat,
    s: Shape,
)
    requires
        task.nodes.contains_key(name),
        task.given(name) is None,
        task.nodes[name] == (NodeView::DimRange { src, off, dim }),
        has_shape(task, src, s),
    ensures
        if s.0 == 0 || off + dim <= s.1 {
            has_shape(task, name, (s.0, dim))
        } else {
            dead(task, name)
        },
{
    if s.0 == 0 || off + dim <= s.1 {
        let f = choose|f: nat| #[trigger] node_shape(task, src, f) == Some(s);
        assert(node_shape(task, name, f + 1) == Some((s.0, dim)));
    } else {
        assert forall|g: nat| #[trigger] node_shape(task, name, g) is None by {
            if g > 0 {
                if let Some(s2) = node_shape(task, src, (g - 1) as nat) {
                    law_one_shape(task, src, s, s2);
                }
            }
        }
    }
}

/// The shape of a node that applies a component.
pub proof fn lemma_layer(
    task: Task,
    name: Seq<char>,
    comp: Seq<char>,
    desc: DescView,
    s: Shape,
)
    requires
        task.nodes.contains_key(name),
        task.given(name) is None,
        task.nodes[name] == (NodeView::Component { comp, desc }),
        desc_has_shape(task, desc, s),
    ensures
        if task.has_comp(comp) && layer_shape(task.comps[comp], s) is Some {
            has_shape(task, name, layer_shape(task.comps[comp], s)->0)
        } else {
            dead(task, name)
        },
{
    if task.has_comp(comp) && layer_shape(task.comps[comp], s) is Some {
        let f = choose|f: nat| #[trigger] desc_shape(task, desc, f) == Some(s);
        assert(node_shape(task, name, f + 1) == layer_shape(task.comps[comp], s));
    } else {
        assert forall|g: nat| #[trigger] node_shape(task, name, g) is None by {
            if g > 0 && desc_shape(task, desc, (g - 1) as nat) is Some {
                lemma_same_shape(task, desc, s, (g - 1) as nat);
            }
        }
    }
}

/// The shape of an output node.
pub proof fn lemma_output(task: Task, name: Seq<char>, desc: DescView, s: Shape)
    requires
        task.nodes.contains_key(name),
        task.given(name) is None,
        task.nodes[name] == (NodeView::Output { desc }),
        desc_has_shape(task, desc, s),
    ensures
        has_shape(task, name, s),
{
    let f = choose|f: nat| #[trigger] desc_shape(task, desc, f) == Some(s);
    assert(node_shape(task, name, f + 1) == Some(s));
}

/// A node whose expression cannot be evaluated cannot be either.
pub proof fn lemma_dead_node(task: Task, name: Seq<char>, desc: DescView)
    requires
        task.nodes.contains_key(name),
        task.given(name) is None,
        match task.nodes[name] {
            NodeView::Component { comp, desc: x } => x == desc,
            NodeView::Output { desc: x } => x == desc,
            _ => false,
        },
        desc_dead(task, desc),
    ensures
        dead(task, name),
{
    assert forall|g: nat| #[trigger] node_shape(task, name, g) is None by {
        if g > 0 {
            assert(desc_shape(task, desc, (g - 1) as nat) is None);
        }
    }
}

/// Two networks with the same inputs and components have the same nodes in `live`, and nodes there
/// need only nodes there.
pub open spec fn same_within(t1: Task, t2: Task, live: Set<Seq<char>>) -> bool {
    &&& t1.comps == t2.comps
    &&& t1.feats == t2.feats
    &&& t1.ivector == t2.ivector
    &&& forall|n: Seq<char>| #[trigger]
        live.contains(n) ==> t1.nodes.contains_key(n) == t2.nodes.contains_key(n) && (
        t1.nodes.contains_key(n) ==> t1.nodes[n] == t2.nodes[n])
    &&& forall|a: Seq<char>, b: Seq<char>|
        live.contains(a) && #[trigger] depends(t1, a, b) ==> live.contains(b)
}

/// Nodes that the output does not need, such as a second branch that only training uses, do not
/// matter: whether a node can be evaluated, and what shape it has, is decided by the nodes it
/// needs.
pub proof fn law_unused(
    t1: Task,
    t2: Task,
    live: Set<Seq<char>>,
    name: Seq<char>,
    fuel: nat,
)
    requires
        same_within(t1, t2, live),
        live.contains(name),
    ensures
        node_shape(t1, name, fuel) == node_shape(t2, name, fuel),
    decreases fuel, 0nat, DescView::Ref(name),
{
    if t1.given(name) is None && fuel > 0 && t1.nodes.contains_key(name) {
        match t1.nodes[name] {
            NodeView::Input => {},
            NodeView::DimRange { src, off, dim } => {
                assert(depends(t1, name, src));
                law_unused(t1, t2, live, src, (fuel - 1) as nat);
            },
            NodeView::Component { comp, desc } => {
                assert forall|n: Seq<char>| #[trigger] mentions(desc, n) implies live.contains(
                    n,
                ) by {
                    assert(depends(t1, name, n));
                }
                lemma_unused_desc(t1, t2, live, desc, (fuel - 1) as nat);
            },
            NodeView::Output { desc } => {
                assert forall|n: Seq<char>| #[trigger] mentions(desc, n) implies live.contains(
                    n,
                ) by {
                    assert(depends(t1, name, n));
                }
                lemma_unused_desc(t1, t2, live, desc, (fuel - 1) as nat);
            },
        }
    }
}

proof fn lemma_unused_desc(t1: Task, t2: Task, live: Set<Seq<char>>, d: DescView, fuel: nat)
    requires
        same_within(t1, t2, live),
        forall|n: Seq<char>| #[trigger] mentions(d, n) ==> live.contains(n),
    ensures
        desc_shape(t1, d, fuel) == desc_shape(t2, d, fuel),
    decreases fuel, 1nat, d,
{
    reveal_with_fuel(mentions, 2);
    match d {
        DescView::Ref(n) => {
            assert(mentions(d, n));
            law_unused(t1, t2, live, n, fuel);
        },
        DescView::Offset(a, n) => {
            assert forall|x: Seq<char>| #[trigger] mentions(*a, x) implies live.contains(x) by {
                assert(mentions(d, x));
            }
            lemma_unused_desc(t1, t2, live, *a, fuel);
        },
        DescView::Scale(s, a) => {
            assert forall|x: Seq<char>| #[trigger] mentions(*a, x) implies live.contains(x) by {
                assert(mentions(d, x));
            }
            lemma_unused_desc(t1, t2, live, *a, fuel);
        },
        DescView::Sum(a, b) => {
            assert forall|x: Seq<char>| #[trigger] mentions(*a, x) implies live.contains(x) by {
                assert(mentions(d, x));
            }
            assert forall|x: Seq<char>| #[trigger] mentions(*b, x) implies live.contains(x) by {
                assert(mentions(d, x));
            }
            lemma_unused_desc(t1, t2, live, *a, fuel);
            lemma_unused_desc(t1, t2, live, *b, fuel);
        },
        DescView::Append(parts) => {
            lemma_part_shapes(t1, parts, fuel);
            lemma_part_shapes(t2, parts, fuel);
            assert forall|i: int| 0 <= i < parts.len() implies #[trigger] part_shapes(
                t1,
                parts,
                fuel,
            )[i] == part_shapes(t2, parts, fuel)[i] by {
                assert forall|x: Seq<char>| #[trigger] mentions(parts[i], x) implies live.contains(
                    x,
                ) by {
                    assert(mentions(d->Append_0[i], x));
                    assert(mentions(d, x));
                }
                lemma_unused_desc(t1, t2, live, parts[i], fuel);
            }
            assert(part_shapes(t1, parts, fuel) =~= part_shapes(t2, parts, fuel));
        },
        DescView::ReplaceIndex(a) => {
            assert forall|x: Seq<char>| #[trigger] mentions(*a, x) implies live.contains(x) by {
                assert(mentions(d, x));
            }
            lemma_unused_desc(t1, t2, live, *a, fuel);
        },
    }
}

/// Layers of kinds that only matter in training pass their input through.
pub proof fn law_pass_through<A: Arith>(x: MatView, y: MatView)
    ensures
        applied::<A>(CompView::Identity, x, y) <==> y == x,
        layer_shape(CompView::Identity, shape(x)) == Some(shape(x)),
{
}

} // verus!
