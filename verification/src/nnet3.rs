//! Forward pass of an nnet3 network.
//!
//! The network is read from `final.mdl` as it stands. Its graph is evaluated over matrices with
//! one row per frame of the utterance, each node at most once, and every third row of the output
//! is kept. Components that only matter in training (dropout, no-op, spectral augmentation) pass
//! their input through.

use vstd::prelude::*;
use vstd::utf8::{decode_utf8, valid_utf8};

use crate::components::{
    all_components, layers_wf, parse_components, CompView, LoadError,
};
use crate::descriptor::{said, DescView};
use crate::evaluation::{
    applied, chain, dead, depends, desc_dead, desc_has_shape, desc_value, fails_at, fault,
    has_shape, is_trace, law_cycle, layer_fault, layer_shape, lemma_append, lemma_dead_node,
    lemma_dead_part, lemma_desc_grows, lemma_exhausted, lemma_layer, lemma_offset, lemma_output,
    lemma_range, lemma_ref, lemma_replace, lemma_scale, lemma_stuck, lemma_sum, lemma_trace_push,
    lemma_vals_push, mentions, node_shape, node_value, shape, stuck, vals, Task, Trace,
};
use crate::graph::{
    graph_bytes, graph_read, ivector_dim, lossy_text, parse_graph, text_input_dim, Node, NodeView,
};
use crate::mat::{
    add_to, added, affine, batch_norm, can_join, clamp_offset, dim_range, every_third, join_columns,
    relu, repeat_first, repeated, scale, scaled, shifted, side_by_side, splice, subsample, views,
    EvalError, MatView,
};
use crate::single::Arith;
use crate::table::Table;

pub use crate::components::Comp;
pub use crate::descriptor::Desc;
pub use crate::mat::Mat;

verus! {

/// A network: its components and its nodes, by name.
pub struct Nnet3 {
    comps: Table<Comp>,
    nodes: Table<Node>,
    ivector_dim: usize,
}

/// What has been evaluated so far.
struct Cache {
    table: Table<Mat>,
    trace: Ghost<Trace>,
}

impl Cache {
    /// The record and the table agree, and the record is one of an evaluation.
    spec fn ok<A: Arith>(self, task: Task) -> bool {
        &&& self.table.wf()
        &&& self.table@ == vals(self.trace@)
        &&& is_trace::<A>(task, self.trace@)
        &&& forall|n: Seq<char>| #[trigger]
            self.table@.contains_key(n) ==> self.table@[n].wf() && has_shape(
                task,
                n,
                shape(self.table@[n]),
            )
        &&& forall|n: Seq<char>| #[trigger]
            task.given(n) is Some ==> self.table@.contains_key(n) && self.table@[n]
                == task.given(n)->0
    }

    /// None of these nodes has been evaluated.
    spec fn lacks(self, path: Seq<Seq<char>>) -> bool {
        forall|i: int| 0 <= i < path.len() ==> !self.table@.contains_key(#[trigger] path[i])
    }

    /// Nothing that was known has changed.
    spec fn grew(self, later: Cache) -> bool {
        self.table@.submap_of(later.table@)
    }
}

impl Nnet3 {
    #[verifier::type_invariant]
    spec fn well_formed(self) -> bool {
        &&& self.comps.wf()
        &&& self.nodes.wf()
        &&& layers_wf(self.comps@)
    }

    /// The components.
    pub closed spec fn comps(self) -> Map<Seq<char>, CompView> {
        self.comps@
    }

    /// The nodes.
    pub closed spec fn nodes(self) -> Map<Seq<char>, NodeView> {
        self.nodes@
    }

    /// The columns of the speaker's vector.
    pub closed spec fn vector_dim(self) -> usize {
        self.ivector_dim
    }

    /// The columns of the speaker's vector.
    pub fn ivector_dim(&self) -> (n: usize)
        ensures
            n == self.vector_dim(),
    {
        self.ivector_dim
    }

    /// The network and its inputs.
    pub open spec fn task(self, feats: MatView, ivector: MatView) -> Task {
        Task { comps: self.comps(), nodes: self.nodes(), feats, ivector }
    }

    /// Read a network from the bytes of its file.
    pub fn load<A: Arith>(buf: &[u8]) -> (r: Result<Nnet3, LoadError>)
        ensures
            loaded::<A>(buf@, r),
    {
        let comps = match parse_components(buf) {
            Ok(c) => c,
            Err(x) => {
                return Err(x);
            },
        };
        match parse_graph::<A>(buf) {
            Ok(nodes) => {
                let net = Nnet3 { comps, nodes, ivector_dim: ivector_dim(buf) };
                assert(graph_bytes(buf@) is Some);
                Ok(net)
            },
            Err(x) => Err(x),
        }
    }

    /// Evaluate the network on features (one row per frame) and the speaker's vector (rows
    /// likewise), and keep every third row of its output.
    pub fn forward<A: Arith>(&self, feats: Mat, ivector: Mat) -> (r: Result<Mat, EvalError>)
        requires
            feats@.wf(),
            ivector@.wf(),
        ensures
            forwarded::<A>(self.task(feats@, ivector@), r),
    {
        proof {
            use_type_invariant(self);
            self.nodes.lemma_names();
            reveal_strlit("input");
            reveal_strlit("ivector");
        }
        let t: usize = feats.r;
        let ghost task = self.task(feats@, ivector@);
        let ghost first: Trace = Seq::empty().push(("input"@, feats@));
        let ghost both: Trace = first.push(("ivector"@, ivector@));
        let mut table: Table<Mat> = Table::new();
        proof {
            assert("input"@.len() != "ivector"@.len());
            lemma_vals_push(Seq::empty(), "input"@, feats@);
            lemma_vals_push(first, "ivector"@, ivector@);
            assert(node_shape(task, "input"@, 0) == Some(shape(feats@)));
            assert(node_shape(task, "ivector"@, 0) == Some(shape(ivector@)));
        }
        table.insert("input".to_owned(), feats);
        table.insert("ivector".to_owned(), ivector);
        let mut cache = Cache { table, trace: Ghost(both) };
        let ghost none: Seq<Seq<char>> = Seq::empty();
        let out = match self.eval_node::<A>(
            &"output".to_owned(),
            &mut cache,
            t,
            self.nodes.len(),
            Ghost(task),
            Ghost(none),
        ) {
            Ok(m) => m,
            Err(e) => {
                proof {
                    if e == EvalError::Mismatch {
                        let path = none.push("output"@);
                        let k = choose|k: int| 0 <= k < path.len() && dead(task, #[trigger] path[k]);
                        assert(path[k] == "output"@);
                    }
                }
                return Err(e);
            },
        };
        let y = subsample(&out);
        proof {
            assert(is_trace::<A>(task, cache.trace@));
            assert(has_shape(task, "output"@, shape(out@)));
        }
        Ok(y)
    }

    /// A component applied to a matrix.
    fn apply<A: Arith>(&self, comp: &String, x: Mat) -> (r: Result<Mat, EvalError>)
        requires
            x@.wf(),
        ensures
            match r {
                Ok(y) => {
                    &&& self.comps().contains_key(comp@)
                    &&& applied::<A>(self.comps()[comp@], x@, y@)
                    &&& layer_shape(self.comps()[comp@], shape(x@)) == Some(shape(y@))
                    &&& y@.wf()
                },
                Err(EvalError::Mismatch) => !self.comps().contains_key(comp@) || layer_shape(
                    self.comps()[comp@],
                    shape(x@),
                ) is None,
                Err(EvalError::Kernel) => self.comps().contains_key(comp@) && layer_fault::<A>(
                    self.comps()[comp@],
                    x@,
                ),
            },
    {
        proof {
            use_type_invariant(self);
        }
        let c = match self.comps.get(comp) {
            Some(c) => c,
            None => {
                return Err(EvalError::Mismatch);
            },
        };
        assert(self.comps@[comp@].wf());
        match c {
            Comp::Identity => Ok(x),
            Comp::Relu => Ok(relu(&x)),
            Comp::BatchNorm { mean, var, eps, trms } => match batch_norm::<A>(
                &x,
                mean,
                var,
                *eps,
                *trms,
            ) {
                Some(y) => Ok(y),
                None => Err(EvalError::Mismatch),
            },
            Comp::Affine { w, b } => affine::<A>(&x, w, Some(b)),
            Comp::Linear { w } => affine::<A>(&x, w, None),
            Comp::Tdnn { offsets, w, b } => match splice(&x, offsets) {
                None => Err(EvalError::Mismatch),
                Some(s) => {
                    let bias = if b.len() == 0 {
                        None
                    } else {
                        Some(b)
                    };
                    affine::<A>(&s, w, bias)
                },
            },
        }
    }

    /// The value of a node. `fuel` is how many more nodes a chain of nodes can hold.
    fn eval_node<A: Arith>(
        &self,
        name: &String,
        cache: &mut Cache,
        t: usize,
        fuel: usize,
        Ghost(task): Ghost<Task>,
        Ghost(path): Ghost<Seq<Seq<char>>>,
    ) -> (r: Result<Mat, EvalError>)
        requires
            old(cache).ok::<A>(task),
            task == self.task(task.feats, task.ivector),
            task.feats.r == t,
            path.len() + fuel == task.nodes.dom().len(),
            task.nodes.dom().finite(),
            chain(task, path),
            forall|i: int| 0 <= i < path.len() ==> task.nodes.contains_key(#[trigger] path[i]),
            path.len() > 0 ==> depends(task, path.last(), name@),
            old(cache).lacks(path),
        ensures
            match r {
                Ok(m) => {
                    &&& final(cache).ok::<A>(task)
                    &&& old(cache).grew(*final(cache))
                    &&& final(cache).table@.contains_key(name@)
                    &&& final(cache).table@[name@] == m@
                    &&& final(cache).lacks(path)
                },
                Err(EvalError::Mismatch) => stuck(task, path.push(name@)),
                Err(EvalError::Kernel) => fault::<A>(task, path.push(name@)[0]),
            },
            looked_up(old(cache).table@, name@, outcome(r), final(cache).table@),
        decreases fuel, 0nat, Desc::Ref(*name),
    {
        proof {
            use_type_invariant(self);
        }
        if let Some(m) = cache.table.get(name) {
            return Ok(m.copied());
        }
        let ghost longer = path.push(name@);
        let ghost here = path.len() as int;
        assert(longer[here] == name@);
        assert(task.given(name@) is None);
        let node = match self.nodes.get(name) {
            Some(n) => n,
            None => {
                assert(dead(task, longer[here]));
                return Err(EvalError::Mismatch);
            },
        };
        proof {
            assert forall|i: int| 0 <= i < longer.len() - 1 implies depends(
                task,
                #[trigger] longer[i],
                longer[i + 1],
            ) by {
                assert(longer[i] == path[i]);
                if i + 1 < path.len() {
                    assert(longer[i + 1] == path[i + 1]);
                }
            }
        }
        if fuel == 0 {
            proof {
                lemma_exhausted(task, longer);
            }
            return Err(EvalError::Mismatch);
        }
        let ghost known = *cache;
        let y = match node {
            Node::Input => {
                assert(dead(task, longer[here]));
                return Err(EvalError::Mismatch);
            },
            Node::DimRange { src, off, dim } => {
                let s = match self.eval_node::<A>(
                    src,
                    cache,
                    t,
                    fuel - 1,
                    Ghost(task),
                    Ghost(longer),
                ) {
                    Ok(s) => s,
                    Err(e) => {
                        proof {
                            if e == EvalError::Mismatch {
                                lemma_stuck(task, longer, src@);
                            }
                        }
                        return Err(e);
                    },
                };
                proof {
                    assert(has_shape(task, src@, shape(s@)));
                    lemma_range(task, name@, src@, *off as nat, *dim as nat, shape(s@));
                }
                match dim_range(&s, *off, *dim) {
                    Some(y) => y,
                    None => {
                        assert(dead(task, longer[here]));
                        return Err(EvalError::Mismatch);
                    },
                }
            },
            Node::Component { comp, desc } => {
                let x = match self.eval_desc::<A>(
                    desc,
                    cache,
                    t,
                    fuel - 1,
                    Ghost(task),
                    Ghost(longer),
                ) {
                    Ok(x) => x,
                    Err(e) => {
                        proof {
                            if e == EvalError::Mismatch && !stuck(task, longer) {
                                lemma_dead_node(task, name@, desc@);
                                assert(dead(task, longer[here]));
                            }
                        }
                        return Err(e);
                    },
                };
                let ghost xv = x@;
                match self.apply::<A>(comp, x) {
                    Ok(y) => {
                        proof {
                            lemma_layer(task, name@, comp@, desc@, shape(xv));
                            assert(desc_value::<A>(cache.table@, t as nat, desc@, xv));
                        }
                        y
                    },
                    Err(e) => {
                        proof {
                            if e == EvalError::Mismatch {
                                lemma_layer(task, name@, comp@, desc@, shape(xv));
                                assert(dead(task, longer[here]));
                            } else {
                                assert(fails_at::<A>(task, cache.trace@, name@, xv));
                                assert(chain(task, longer) && longer.last() == name@);
                                assert(!cache.table@.contains_key(longer[here]));
                            }
                        }
                        return Err(e);
                    },
                }
            },
            Node::Output { desc } => {
                match self.eval_desc::<A>(desc, cache, t, fuel - 1, Ghost(task), Ghost(longer)) {
                    Ok(y) => {
                        proof {
                            lemma_output(task, name@, desc@, shape(y@));
                        }
                        y
                    },
                    Err(e) => {
                        proof {
                            if e == EvalError::Mismatch && !stuck(task, longer) {
                                lemma_dead_node(task, name@, desc@);
                                assert(dead(task, longer[here]));
                            }
                        }
                        return Err(e);
                    },
                }
            },
        };
        assert(has_shape(task, name@, shape(y@)));
        assert(y@.wf());
        let ghost before = *cache;
        proof {
            assert(!cache.table@.contains_key(longer[here]));
            assert(node_value::<A>(task, cache.table@, name@, y@));
            lemma_trace_push::<A>(task, cache.trace@, name@, y@);
            lemma_vals_push(cache.trace@, name@, y@);
            assert forall|i: int| 0 <= i < path.len() implies path[i] != name@ by {
                if path[i] == name@ {
                    assert(longer[i] == path[i]);
                    law_cycle(task, longer, i, here);
                }
            }
        }
        cache.table.insert(name.clone(), y.copied());
        cache.trace = Ghost(before.trace@.push((name@, y@)));
        proof {
            assert(cache.lacks(path)) by {
                assert forall|i: int| 0 <= i < path.len() implies !cache.table@.contains_key(
                    #[trigger] path[i],
                ) by {
                    assert(longer[i] == path[i]);
                    assert(!before.table@.contains_key(longer[i]));
                }
            }
        }
        Ok(y)
    }

    /// The value of an expression.
    fn eval_desc<A: Arith>(
        &self,
        d: &Desc,
        cache: &mut Cache,
        t: usize,
        fuel: usize,
        Ghost(task): Ghost<Task>,
        Ghost(path): Ghost<Seq<Seq<char>>>,
    ) -> (r: Result<Mat, EvalError>)
        requires
            old(cache).ok::<A>(task),
            task == self.task(task.feats, task.ivector),
            task.feats.r == t,
            path.len() > 0,
            path.len() + fuel == task.nodes.dom().len(),
            task.nodes.dom().finite(),
            chain(task, path),
            forall|i: int| 0 <= i < path.len() ==> task.nodes.contains_key(#[trigger] path[i]),
            forall|n: Seq<char>| #[trigger] mentions(d@, n) ==> depends(task, path.last(), n),
            old(cache).lacks(path),
        ensures
            match r {
                Ok(m) => {
                    &&& final(cache).ok::<A>(task)
                    &&& old(cache).grew(*final(cache))
                    &&& desc_value::<A>(final(cache).table@, t as nat, d@, m@)
                    &&& desc_has_shape(task, d@, shape(m@))
                    &&& m@.wf()
                    &&& final(cache).lacks(path)
                },
                Err(EvalError::Mismatch) => stuck(task, path) || desc_dead(task, d@),
                Err(EvalError::Kernel) => fault::<A>(task, path[0]),
            },
        decreases fuel, 1nat, *d,
    {
        proof {
            reveal_with_fuel(mentions, 2);
        }
        match d {
            Desc::Ref(n) => {
                assert(mentions(d@, n@));
                match self.eval_node::<A>(n, cache, t, fuel, Ghost(task), Ghost(path)) {
                    Ok(m) => {
                        proof {
                            lemma_ref(task, n@, shape(m@));
                        }
                        Ok(m)
                    },
                    Err(e) => {
                        proof {
                            if e == EvalError::Mismatch {
                                lemma_stuck(task, path, n@);
                            }
                        }
                        Err(e)
                    },
                }
            },
            Desc::Offset(a, n) => {
                proof {
                    lemma_offset(task, a@, *n);
                    assert forall|x: Seq<char>| #[trigger] mentions(a@, x) implies depends(
                        task,
                        path.last(),
                        x,
                    ) by {
                        assert(mentions(d@, x));
                    }
                }
                match self.eval_desc::<A>(a, cache, t, fuel, Ghost(task), Ghost(path)) {
                    Ok(m) => {
                        proof {
                            lemma_offset_value::<A>(cache.table@, t as nat, a@, *n, m@);
                        }
                        Ok(clamp_offset(&m, *n))
                    },
                    Err(e) => Err(e),
                }
            },
            Desc::Scale(f, a) => {
                proof {
                    lemma_scale(task, *f, a@);
                    assert forall|x: Seq<char>| #[trigger] mentions(a@, x) implies depends(
                        task,
                        path.last(),
                        x,
                    ) by {
                        assert(mentions(d@, x));
                    }
                }
                match self.eval_desc::<A>(a, cache, t, fuel, Ghost(task), Ghost(path)) {
                    Ok(m) => {
                        let y = scale::<A>(&m, *f);
                        proof {
                            lemma_scale_value::<A>(cache.table@, t as nat, *f, a@, m@, y@);
                        }
                        Ok(y)
                    },
                    Err(e) => Err(e),
                }
            },
            Desc::Sum(a, b) => {
                proof {
                    lemma_sum(task, a@, b@);
                    assert forall|x: Seq<char>| #[trigger] mentions(a@, x) implies depends(
                        task,
                        path.last(),
                        x,
                    ) by {
                        assert(mentions(d@, x));
                    }
                    assert forall|x: Seq<char>| #[trigger] mentions(b@, x) implies depends(
                        task,
                        path.last(),
                        x,
                    ) by {
                        assert(mentions(d@, x));
                    }
                }
                let m = match self.eval_desc::<A>(a, cache, t, fuel, Ghost(task), Ghost(path)) {
                    Ok(m) => m,
                    Err(e) => {
                        return Err(e);
                    },
                };
                let ghost middle = cache.table@;
                match self.eval_desc::<A>(b, cache, t, fuel, Ghost(task), Ghost(path)) {
                    Ok(n) => {
                        proof {
                            lemma_grew(old(cache).table@, middle, cache.table@);
                            lemma_desc_grows::<A>(middle, cache.table@, t as nat, a@, m@);
                        }
                        let y = add_to::<A>(&m, &n);
                        proof {
                            lemma_sum_value::<A>(
                                cache.table@,
                                t as nat,
                                a@,
                                b@,
                                m@,
                                n@,
                                y@,
                            );
                        }
                        Ok(y)
                    },
                    Err(e) => Err(e),
                }
            },
            Desc::Append(parts) => self.eval_append::<A>(
                parts,
                cache,
                t,
                fuel,
                Ghost(task),
                Ghost(path),
                Ghost(*d),
            ),
            Desc::ReplaceIndex(a) => {
                proof {
                    lemma_replace(task, a@);
                    assert forall|x: Seq<char>| #[trigger] mentions(a@, x) implies depends(
                        task,
                        path.last(),
                        x,
                    ) by {
                        assert(mentions(d@, x));
                    }
                }
                match self.eval_desc::<A>(a, cache, t, fuel, Ghost(task), Ghost(path)) {
                    Ok(m) => match repeat_first(&m, t) {
                        Some(y) => {
                            proof {
                                lemma_replace_value::<A>(cache.table@, t as nat, a@, m@);
                            }
                            Ok(y)
                        },
                        None => Err(EvalError::Mismatch),
                    },
                    Err(e) => Err(e),
                }
            },
        }
    }

    /// The values of expressions, side by side.
    fn eval_append<A: Arith>(
        &self,
        parts: &Vec<Desc>,
        cache: &mut Cache,
        t: usize,
        fuel: usize,
        Ghost(task): Ghost<Task>,
        Ghost(path): Ghost<Seq<Seq<char>>>,
        Ghost(whole): Ghost<Desc>,
    ) -> (r: Result<Mat, EvalError>)
        requires
            whole == Desc::Append(*parts),
            old(cache).ok::<A>(task),
            task == self.task(task.feats, task.ivector),
            task.feats.r == t,
            path.len() > 0,
            path.len() + fuel == task.nodes.dom().len(),
            task.nodes.dom().finite(),
            chain(task, path),
            forall|i: int| 0 <= i < path.len() ==> task.nodes.contains_key(#[trigger] path[i]),
            forall|n: Seq<char>| #[trigger] mentions(whole@, n) ==> depends(task, path.last(), n),
            old(cache).lacks(path),
        ensures
            match r {
                Ok(m) => {
                    &&& final(cache).ok::<A>(task)
                    &&& old(cache).grew(*final(cache))
                    &&& desc_value::<A>(final(cache).table@, t as nat, whole@, m@)
                    &&& desc_has_shape(task, whole@, shape(m@))
                    &&& m@.wf()
                    &&& final(cache).lacks(path)
                },
                Err(EvalError::Mismatch) => stuck(task, path) || desc_dead(task, whole@),
                Err(EvalError::Kernel) => fault::<A>(task, path[0]),
            },
        decreases fuel, 1nat, *parts,
    {
        let ghost ds = whole@->Append_0;
        let ghost start = cache.table@;
        let mut mats: Vec<Mat> = Vec::new();
        let mut i: usize = 0;
        while i < parts.len()
            invariant
                whole == Desc::Append(*parts),
                whole@ == DescView::Append(ds),
                ds.len() == parts@.len(),
                forall|j: int| 0 <= j < ds.len() ==> #[trigger] ds[j] == said(parts@[j]),
                cache.ok::<A>(task),
                start.submap_of(cache.table@),
                cache.lacks(path),
                task == self.task(task.feats, task.ivector),
                task.feats.r == t,
                path.len() > 0,
                path.len() + fuel == task.nodes.dom().len(),
                task.nodes.dom().finite(),
                chain(task, path),
                forall|i: int| 0 <= i < path.len() ==> task.nodes.contains_key(#[trigger] path[i]),
                forall|n: Seq<char>| #[trigger]
                    mentions(whole@, n) ==> depends(task, path.last(), n),
                i <= parts@.len(),
                mats@.len() == i,
                forall|j: int| 0 <= j < i ==> (#[trigger] mats@[j])@.wf(),
                forall|j: int|
                    0 <= j < i ==> desc_has_shape(task, ds[j], shape((#[trigger] mats@[j])@)),
                forall|j: int|
                    0 <= j < i ==> desc_value::<A>(
                        cache.table@,
                        t as nat,
                        ds[j],
                        (#[trigger] mats@[j])@,
                    ),
            decreases parts@.len() - i,
        {
            let ghost before = cache.table@;
            let ghost old_mats = mats@;
            proof {
                assert(ds[i as int] == parts@[i as int]@);
                assert forall|x: Seq<char>| #[trigger]
                    mentions(parts@[i as int]@, x) implies depends(task, path.last(), x) by {
                    lemma_mentions_part(ds, i as int, x);
                }
            }
            match self.eval_desc::<A>(&parts[i], cache, t, fuel, Ghost(task), Ghost(path)) {
                Ok(m) => {
                    mats.push(m);
                },
                Err(e) => {
                    proof {
                        if e == EvalError::Mismatch && !stuck(task, path) {
                            lemma_dead_part(task, ds, i as int);
                        }
                    }
                    return Err(e);
                },
            }
            proof {
                lemma_grew(start, before, cache.table@);
                assert forall|j: int| 0 <= j < i implies desc_value::<A>(
                    cache.table@,
                    t as nat,
                    ds[j],
                    (#[trigger] mats@[j])@,
                ) by {
                    assert(mats@[j] == old_mats[j]);
                    lemma_desc_grows::<A>(before, cache.table@, t as nat, ds[j], mats@[j]@);
                }
            }
            i = i + 1;
        }
        let ghost ms = views(mats@);
        proof {
            assert forall|j: int| 0 <= j < ds.len() implies desc_has_shape(
                task,
                ds[j],
                shape(#[trigger] ms[j]),
            ) by {
                assert(ms[j] == mats@[j]@);
            }
            lemma_append(task, ds, ms);
        }
        match join_columns(&mats) {
            Some(y) => {
                proof {
                    assert forall|j: int| 0 <= j < ds.len() implies desc_value::<A>(
                        cache.table@,
                        t as nat,
                        ds[j],
                        #[trigger] ms[j],
                    ) by {
                        assert(ms[j] == mats@[j]@);
                    }
                    lemma_joined::<A>(cache.table@, t as nat, ds, ms);
                }
                Ok(y)
            },
            None => Err(EvalError::Mismatch),
        }
    }
}

proof fn lemma_grew(
    a: Map<Seq<char>, MatView>,
    b: Map<Seq<char>, MatView>,
    c: Map<Seq<char>, MatView>,
)
    requires
        a.submap_of(b),
        b.submap_of(c),
    ensures
        a.submap_of(c),
{
    assert forall|n: Seq<char>| #[trigger] a.dom().contains(n) implies c.dom().contains(n) && a[n]
        == c[n] by {
        assert(b.dom().contains(n));
        assert(c.dom().contains(n));
        assert(a[n] == b[n]);
    }
}

proof fn lemma_offset_value<A: Arith>(
    known: Map<Seq<char>, MatView>,
    t: nat,
    a: DescView,
    n: i32,
    m: MatView,
)
    requires
        desc_value::<A>(known, t, a, m),
    ensures
        desc_value::<A>(known, t, DescView::Offset(Box::new(a), n), shifted(m, n as int)),
{
    reveal_with_fuel(desc_value, 2);
    let d = DescView::Offset(Box::new(a), n);
    let y = shifted(m, n as int);
    assert(d->Offset_1 == n && *d->Offset_0 == a);
    assert(desc_value::<A>(known, t, *d->Offset_0, m) && y == shifted(m, d->Offset_1 as int));
    assert(desc_value::<A>(known, t, d, y));
}

proof fn lemma_scale_value<A: Arith>(
    known: Map<Seq<char>, MatView>,
    t: nat,
    f: u32,
    a: DescView,
    m: MatView,
    y: MatView,
)
    requires
        desc_value::<A>(known, t, a, m),
        scaled::<A>(m, f, y),
    ensures
        desc_value::<A>(known, t, DescView::Scale(f, Box::new(a)), y),
{
    reveal_with_fuel(desc_value, 2);
    let d = DescView::Scale(f, Box::new(a));
    assert(d->Scale_0 == f && *d->Scale_1 == a);
    assert(desc_value::<A>(known, t, *d->Scale_1, m) && scaled::<A>(m, d->Scale_0, y));
}

proof fn lemma_sum_value<A: Arith>(
    known: Map<Seq<char>, MatView>,
    t: nat,
    a: DescView,
    b: DescView,
    m: MatView,
    n: MatView,
    y: MatView,
)
    requires
        desc_value::<A>(known, t, a, m),
        desc_value::<A>(known, t, b, n),
        added::<A>(m, n, y),
    ensures
        desc_value::<A>(known, t, DescView::Sum(Box::new(a), Box::new(b)), y),
{
    reveal_with_fuel(desc_value, 2);
}

proof fn lemma_replace_value<A: Arith>(
    known: Map<Seq<char>, MatView>,
    t: nat,
    a: DescView,
    m: MatView,
)
    requires
        desc_value::<A>(known, t, a, m),
        t == 0 || m.r > 0 || m.c == 0,
    ensures
        desc_value::<A>(known, t, DescView::ReplaceIndex(Box::new(a)), repeated(m, t)),
{
    reveal_with_fuel(desc_value, 2);
    let y = repeated(m, t);
    assert(y == repeated(m, t));
}

proof fn lemma_mentions_part(parts: Seq<DescView>, i: int, n: Seq<char>)
    requires
        0 <= i < parts.len(),
        mentions(parts[i], n),
    ensures
        mentions(DescView::Append(parts), n),
{
    reveal_with_fuel(mentions, 2);
    let d = DescView::Append(parts);
    assert(mentions(d->Append_0[i], n));
}

proof fn lemma_joined<A: Arith>(
    known: Map<Seq<char>, MatView>,
    t: nat,
    parts: Seq<DescView>,
    ms: Seq<MatView>,
)
    requires
        ms.len() == parts.len(),
        forall|i: int|
            0 <= i < parts.len() ==> desc_value::<A>(known, t, parts[i], #[trigger] ms[i]),
        can_join(ms),
    ensures
        desc_value::<A>(known, t, DescView::Append(parts), side_by_side(ms)),
{
    reveal_with_fuel(desc_value, 2);
    let y = side_by_side(ms);
    assert(y == side_by_side(ms));
}

/// What came of an evaluation, as a matrix of the model.
pub open spec fn outcome(r: Result<Mat, EvalError>) -> Result<MatView, EvalError> {
    match r {
        Ok(m) => Ok(m@),
        Err(e) => Err(e),
    }
}

/// A node was asked for where the values `known` were known, and `later` are known afterwards: its
/// value is among them, and nothing is lost. One that was known is not evaluated again.
pub open spec fn looked_up(
    known: Map<Seq<char>, MatView>,
    name: Seq<char>,
    r: Result<MatView, EvalError>,
    later: Map<Seq<char>, MatView>,
) -> bool {
    &&& r matches Ok(m) ==> known.submap_of(later) && later.contains_key(name) && later[name] == m
    &&& known.contains_key(name) ==> r is Ok && later == known
}

/// A node that is asked for twice has the same value both times, and the second time nothing is
/// evaluated.
pub proof fn law_evaluated_once(
    known: Map<Seq<char>, MatView>,
    name: Seq<char>,
    m: MatView,
    later: Map<Seq<char>, MatView>,
    again: Result<MatView, EvalError>,
    last: Map<Seq<char>, MatView>,
)
    requires
        looked_up(known, name, Ok(m), later),
        looked_up(later, name, again, last),
    ensures
        again == Ok::<MatView, EvalError>(m),
        last == later,
{
}

/// The network was evaluated: some record of an evaluation ends in an output, and every third of
/// its rows is the result. It cannot be evaluated where something is missing or does not fit, or
/// where a node needs itself; or the arithmetic failed on a layer that it came to.
pub open spec fn forwarded<A: Arith>(task: Task, r: Result<Mat, EvalError>) -> bool {
    match r {
        Ok(y) => {
            &&& y@.wf()
            &&& exists|tr: Trace|
                {
                    &&& #[trigger] is_trace::<A>(task, tr)
                    &&& vals(tr).contains_key("output"@)
                    &&& has_shape(task, "output"@, shape(vals(tr)["output"@]))
                    &&& y@ == every_third(vals(tr)["output"@])
                }
        },
        Err(EvalError::Mismatch) => dead(task, "output"@),
        Err(EvalError::Kernel) => fault::<A>(task, "output"@),
    }
}

/// A network was read: it is what the file holds, or the error is one that the file calls for.
/// Components are read first.
pub open spec fn loaded<A: Arith>(buf: Seq<u8>, r: Result<Nnet3, LoadError>) -> bool {
    match all_components(buf) {
        Err(x) => r matches Err(y) && x == y,
        Ok(comps) => match graph_bytes(buf) {
            None => r matches Err(y) && y == LoadError::NoGraph,
            Some(bytes) => {
                &&& r matches Ok(net) ==> net.comps() == comps
                &&& text_read::<A>(lossy_text(bytes), r)
                &&& valid_utf8(bytes) ==> text_read::<A>(decode_utf8(bytes), r)
            },
        },
    }
}

/// The graph of a network was read from a text: its nodes, and the columns of the speaker's vector.
pub open spec fn text_read<A: Arith>(text: Seq<char>, r: Result<Nnet3, LoadError>) -> bool {
    &&& graph_read::<A>(text, nodes_in(r))
    &&& r matches Ok(net) ==> net.vector_dim() == text_input_dim(text, "ivector"@)
}

/// The nodes of a network, or the error that came instead.
pub open spec fn nodes_in(r: Result<Nnet3, LoadError>) -> Result<
    Map<Seq<char>, NodeView>,
    LoadError,
> {
    match r {
        Ok(net) => Ok(net.nodes()),
        Err(x) => Err(x),
    }
}

} // verus!
