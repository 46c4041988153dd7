//! What the layers and expressions of a network compute, entry by entry, in numbers.

use vstd::prelude::*;

use crate::components::CompView;
use crate::descriptor::DescView;
use crate::evaluation::{applied, desc_value, node_value, Task};
use crate::graph::NodeView;
use crate::mat::{
    added, affine_image, can_join, centred, clamped, columns, joined_row, law_rows,
    lemma_joined_len, lemma_row_len, lemma_spliced_len, lemma_within, mat_of, norm_factor, repeated,
    scaled, shifted, side_by_side, spliced, spliced_row, width, MatView,
};
use crate::single::{differences, gemms, larger, products, quotients, roots, sums, Arith, ZERO};
use crate::values::{faithful, finite, held, lemma_exact, lemma_order, power, rounds, value, whole};

verus! {

/// The entry in row `i` and column `j`, where rows stand one after the other.
pub open spec fn at(m: MatView, i: int, j: int) -> u32 {
    m.d[i * m.c + j]
}

/// The row that stands `n` rows after row `i`; the first stands for those before it, and the last
/// of `r` for those after it.
pub open spec fn row_after(i: int, n: int, r: int) -> int {
    if i + n < 0 {
        0
    } else if i + n > r - 1 {
        r - 1
    } else {
        i + n
    }
}

pub(crate) proof fn lemma_at(m: MatView, i: int, j: int)
    requires
        m.wf(),
        0 <= i < m.r,
        0 <= j < m.c,
    ensures
        0 <= i * m.c + j < m.d.len(),
        at(m, i, j) == m.row(i)[j],
        (i * m.c + j) % (m.c as int) == j,
{
    lemma_within(i, m.r as int, m.c as int);
    vstd::arithmetic::div_mod::lemma_fundamental_div_mod_converse(
        i * m.c + j,
        m.c as int,
        i,
        j,
    );
}

proof fn lemma_mat_at(r: nat, c: nat, f: spec_fn(int) -> Seq<u32>, i: int, j: int)
    requires
        forall|k: int| 0 <= k < r ==> (#[trigger] f(k)).len() == c,
        0 <= i < r,
        0 <= j < c,
    ensures
        at(mat_of(r, c, f), i, j) == f(i)[j],
{
    law_rows(r, c, f, i);
    lemma_at(mat_of(r, c, f), i, j);
}

/// A normalised entry, times the root of the variance and epsilon of its column, is what the entry
/// lies above the mean of the column, times the target; below the mean it is negative. This holds
/// of every entry for which the steps can be taken without rounding.
pub proof fn law_batch_norm<A: Arith>(
    mean: Seq<u32>,
    var: Seq<u32>,
    eps: u32,
    trms: u32,
    x: MatView,
    y: MatView,
    i: int,
    j: int,
    q: real,
)
    requires
        faithful::<A>(),
        x.wf(),
        applied::<A>(CompView::BatchNorm { mean, var, eps, trms }, x, y),
        0 <= i < x.r,
        0 <= j < x.c,
        finite(at(x, i, j)) && finite(mean[j]) && finite(var[j]) && finite(eps) && finite(trms),
        q > 0real,
        q * q == value(var[j]) + value(eps),
        held(value(var[j]) + value(eps)) && held(q) && held(value(trms) / q),
        held(value(at(x, i, j)) - value(mean[j])),
        held((value(at(x, i, j)) - value(mean[j])) * (value(trms) / q)),
    ensures
        y.r == x.r && y.c == x.c,
        finite(at(y, i, j)),
        value(at(y, i, j)) * q == (value(at(x, i, j)) - value(mean[j])) * value(trms),
{
    let c = x.c as int;
    let k = i * c + j;
    lemma_at(x, i, j);
    assert(j < var.len());
    let s = choose|s: Seq<u32>|
        {
            &&& s.len() == var.len()
            &&& forall|j: int|
                0 <= j < var.len() ==> norm_factor::<A>(var[j], eps, trms, #[trigger] s[j])
            &&& forall|k: int|
                0 <= k < x.d.len() ==> centred::<A>(
                    x.d[k],
                    mean[k % (x.c as int)],
                    s[k % (x.c as int)],
                    #[trigger] y.d[k],
                )
        };
    assert(norm_factor::<A>(var[j], eps, trms, s[j]));
    let (a, r) = choose|a: u32, r: u32|
        #![trigger sums::<A>(var[j], eps, a), roots::<A>(a, r)]
        sums::<A>(var[j], eps, a) && roots::<A>(a, r) && quotients::<A>(trms, r, s[j]);
    lemma_exact(value(var[j]) + value(eps), a);
    assert(rounds(q, r));
    lemma_exact(q, r);
    lemma_exact(value(trms) / q, s[j]);
    assert(centred::<A>(x.d[k], mean[k % c], s[k % c], y.d[k]));
    let d = choose|d: u32| #[trigger]
        differences::<A>(x.d[k], mean[j], d) && products::<A>(d, s[j], y.d[k]);
    lemma_exact(value(x.d[k]) - value(mean[j]), d);
    let u = value(x.d[k]) - value(mean[j]);
    lemma_exact(u * (value(trms) / q), y.d[k]);
    let t = value(trms);
    assert(u * (t / q) * q == u * t) by (nonlinear_arith)
        requires
            q > 0real,
    ;
}

/// A rectified entry is the entry itself where it is above zero, and else zero.
pub proof fn law_relu<A: Arith>(x: MatView, y: MatView, i: int, j: int)
    requires
        x.wf(),
        applied::<A>(CompView::Relu, x, y),
        0 <= i < x.r,
        0 <= j < x.c,
        finite(at(x, i, j)),
    ensures
        y.r == x.r && y.c == x.c,
        finite(at(y, i, j)),
        value(at(x, i, j)) >= 0real ==> value(at(y, i, j)) == value(at(x, i, j)),
        value(at(x, i, j)) <= 0real ==> value(at(y, i, j)) == 0real,
{
    lemma_at(x, i, j);
    let v = at(x, i, j);
    assert(at(y, i, j) == larger(v, ZERO));
    assert(value(ZERO) == 0real) by {
        assert(0real * power(-149) == 0real) by (nonlinear_arith);
    }
    lemma_order(v, ZERO);
}

/// The sum of `n` products of entries of `x` from place `a` on and of `w` from place `b` on.
pub open spec fn dot(x: Seq<u32>, a: int, w: Seq<u32>, b: int, n: nat) -> real
    decreases n,
{
    if n == 0 {
        0real
    } else {
        dot(x, a, w, b, (n - 1) as nat) + value(x[a + n - 1]) * value(w[b + n - 1])
    }
}

/// `n` products of whole numbers, whose sizes come to no more than `limit` together.
pub open spec fn small_dot(
    x: Seq<u32>,
    a: int,
    w: Seq<u32>,
    b: int,
    n: nat,
    limit: real,
) -> bool
    decreases n,
{
    if n == 0 {
        0real <= limit
    } else {
        let (u, v) = (x[a + n - 1], w[b + n - 1]);
        let s = if value(u) * value(v) < 0real {
            -(value(u) * value(v))
        } else {
            value(u) * value(v)
        };
        &&& finite(u) && finite(v) && whole(value(u)) && whole(value(v))
        &&& small_dot(x, a, w, b, (n - 1) as nat, limit - s)
    }
}

/// The arithmetic multiplies matrices: entry `o` of row `t` of a product is the sum of the products
/// of row `t` of the first matrix and row `o` of the second, where these are whole numbers that
/// come to no more than two to the power 24, so that the order of summing does not matter.
pub open spec fn multiplies<A: Arith>() -> bool {
    forall|rows: usize, ins: usize, outs: usize, x: Seq<u32>, w: Seq<u32>, g: Seq<u32>, t: int,
        o: int|
        #![trigger gemms::<A>(rows, ins, outs, x, w, g), g[t * outs + o]]
        gemms::<A>(rows, ins, outs, x, w, g) && 0 <= t < rows && 0 <= o < outs && small_dot(
            x,
            t * ins,
            w,
            o * ins,
            ins as nat,
            0x100_0000real,
        ) ==> finite(g[t * outs + o]) && value(g[t * outs + o]) == dot(
            x,
            t * ins,
            w,
            o * ins,
            ins as nat,
        )
}

/// Sizes of matrices that an index can count.
spec fn indexed(x: MatView, w: MatView) -> bool {
    x.r <= usize::MAX && x.c <= usize::MAX && w.r <= usize::MAX
}

proof fn lemma_affine<A: Arith>(
    x: MatView,
    w: MatView,
    bias: Option<Seq<u32>>,
    y: MatView,
    i: int,
    o: int,
)
    requires
        faithful::<A>(),
        multiplies::<A>(),
        indexed(x, w),
        affine_image::<A>(x, w, bias, y),
        0 <= i < x.r,
        0 <= o < w.r,
        small_dot(x.d, i * x.c, w.d, o * x.c, x.c, 0x100_0000real),
        bias matches Some(b) ==> finite(b[o]) && held(
            dot(x.d, i * x.c, w.d, o * x.c, x.c) + value(b[o]),
        ),
    ensures
        finite(at(y, i, o)),
        value(at(y, i, o)) == dot(x.d, i * x.c, w.d, o * x.c, x.c) + (match bias {
            Some(b) => value(b[o]),
            None => 0real,
        }),
{
    let (r, n, m) = (x.r as usize, x.c as usize, w.r as usize);
    let g = choose|g: Seq<u32>|
        {
            &&& #[trigger] gemms::<A>(x.r as usize, x.c as usize, w.r as usize, x.d, w.d, g)
            &&& g.len() == y.d.len()
            &&& match bias {
                None => y.d == g,
                Some(b) => forall|k: int|
                    0 <= k < g.len() ==> sums::<A>(
                        g[k],
                        b[k % (w.r as int)],
                        #[trigger] y.d[k],
                    ),
            }
        };
    lemma_at(y, i, o);
    let k = i * w.r + o;
    assert(gemms::<A>(r, n, m, x.d, w.d, g));
    let e = g[i * m + o];
    assert(finite(g[k]) && value(g[k]) == dot(x.d, i * x.c, w.d, o * x.c, x.c));
    if let Some(b) = bias {
        assert(sums::<A>(g[k], b[k % (w.r as int)], y.d[k]));
        lemma_exact(value(g[k]) + value(b[o]), y.d[k]);
    }
}

/// Entry `o` of a row of an affine layer is the inner product of that row of the input with row
/// `o` of the weights, plus entry `o` of the bias; a linear layer has no bias.
pub proof fn law_affine<A: Arith>(
    w: MatView,
    b: Seq<u32>,
    x: MatView,
    y: MatView,
    z: MatView,
    i: int,
    o: int,
)
    requires
        faithful::<A>(),
        multiplies::<A>(),
        x.r <= usize::MAX && x.c <= usize::MAX && w.r <= usize::MAX,
        applied::<A>(CompView::Affine { w, b }, x, y),
        applied::<A>(CompView::Linear { w }, x, z),
        0 <= i < x.r,
        0 <= o < w.r,
        small_dot(x.d, i * x.c, w.d, o * w.c, x.c, 0x100_0000real),
        finite(b[o]),
        held(dot(x.d, i * x.c, w.d, o * w.c, x.c) + value(b[o])),
    ensures
        y.r == x.r && y.c == w.r && z.r == x.r && z.c == w.r,
        value(at(y, i, o)) == dot(x.d, i * x.c, w.d, o * w.c, x.c) + value(b[o]),
        value(at(z, i, o)) == dot(x.d, i * x.c, w.d, o * w.c, x.c),
{
    lemma_affine::<A>(x, w, Some(b), y, i, o);
    lemma_affine::<A>(x, w, None, z, i, o);
}

/// The input of a time-delay layer: row `i` holds, for each offset, the row of `x` that stands so
/// much later, one after the other.
pub open spec fn delayed(x: MatView, offsets: Seq<i32>, s: MatView) -> bool {
    &&& s.r == x.r && s.c == x.c * offsets.len() && s.wf()
    &&& forall|i: int, k: int, j: int|
        0 <= i < x.r && 0 <= k < offsets.len() && 0 <= j < x.c ==> #[trigger] at(
            s,
            i,
            k * x.c + j,
        ) == at(x, row_after(i, offsets[k] as int, x.r as int), j)
}

proof fn lemma_spliced_at(x: MatView, offsets: Seq<i32>, i: int, k: int, j: int)
    requires
        x.wf(),
        0 <= i < x.r,
        0 <= k < offsets.len(),
        0 <= j < x.c,
    ensures
        0 <= k * x.c + j < x.c * offsets.len(),
        spliced_row(x, offsets, i)[k * x.c + j] == at(
            x,
            row_after(i, offsets[k] as int, x.r as int),
            j,
        ),
    decreases offsets.len(),
{
    let front = offsets.drop_last();
    let c = x.c as int;
    lemma_spliced_len(x, front, i);
    lemma_within(k, offsets.len() as int, c);
    assert(c * offsets.len() == offsets.len() * c) by (nonlinear_arith);
    assert(c * front.len() == front.len() * c) by (nonlinear_arith);
    let last = row_after(i, offsets.last() as int, x.r as int);
    lemma_row_len(x, last);
    if k < front.len() {
        lemma_within(k, front.len() as int, c);
        lemma_spliced_at(x, front, i, k, j);
    } else {
        lemma_at(x, last, j);
    }
}

proof fn lemma_delayed(x: MatView, offsets: Seq<i32>)
    requires
        x.wf(),
    ensures
        delayed(x, offsets, spliced(x, offsets)),
{
    let f = |i: int| spliced_row(x, offsets, i);
    let s = spliced(x, offsets);
    let c = x.c * offsets.len();
    assert forall|i: int| 0 <= i < x.r implies (#[trigger] f(i)).len() == c by {
        lemma_spliced_len(x, offsets, i);
    }
    if x.r > 0 {
        law_rows(x.r, c, f, 0);
    } else {
        assert(0 * c == 0) by (nonlinear_arith);
    }
    assert forall|i: int, k: int, j: int|
        0 <= i < x.r && 0 <= k < offsets.len() && 0 <= j < x.c implies #[trigger] at(
        s,
        i,
        k * x.c + j,
    ) == at(x, row_after(i, offsets[k] as int, x.r as int), j) by {
        lemma_spliced_at(x, offsets, i, k, j);
        lemma_mat_at(x.r, c, f, i, k * x.c + j);
    }
}

/// A time-delay layer is an affine layer on rows put together from the rows that stand at its
/// offsets.
pub proof fn law_time_delay<A: Arith>(
    offsets: Seq<i32>,
    w: MatView,
    b: Seq<u32>,
    x: MatView,
    y: MatView,
    i: int,
    o: int,
) -> (s: MatView)
    requires
        faithful::<A>(),
        multiplies::<A>(),
        x.wf(),
        x.r <= usize::MAX && w.c <= usize::MAX && w.r <= usize::MAX,
        applied::<A>(CompView::Tdnn { offsets, w, b }, x, y),
        0 <= i < x.r,
        0 <= o < w.r,
    ensures
        delayed(x, offsets, s),
        y.r == x.r && y.c == w.r,
        small_dot(s.d, i * w.c, w.d, o * w.c, w.c, 0x100_0000real) && b.len() == 0 ==> value(
            at(y, i, o),
        ) == dot(s.d, i * w.c, w.d, o * w.c, w.c),
        small_dot(s.d, i * w.c, w.d, o * w.c, w.c, 0x100_0000real) && b.len() > 0 && finite(b[o])
            && held(dot(s.d, i * w.c, w.d, o * w.c, w.c) + value(b[o])) ==> value(at(y, i, o))
            == dot(s.d, i * w.c, w.d, o * w.c, w.c) + value(b[o]),
{
    let s = spliced(x, offsets);
    lemma_delayed(x, offsets);
    if small_dot(s.d, i * w.c, w.d, o * w.c, w.c, 0x100_0000real) {
        if b.len() == 0 {
            lemma_affine::<A>(s, w, None, y, i, o);
        } else if finite(b[o]) && held(dot(s.d, i * w.c, w.d, o * w.c, w.c) + value(b[o])) {
            lemma_affine::<A>(s, w, Some(b), y, i, o);
        }
    }
    s
}

/// `Offset(a, n)` is `a` with every row taken from `n` rows later.
pub proof fn law_offset<A: Arith>(
    vals: Map<Seq<char>, MatView>,
    t: nat,
    a: DescView,
    n: i32,
    y: MatView,
) -> (m: MatView)
    requires
        desc_value::<A>(vals, t, DescView::Offset(Box::new(a), n), y),
    ensures
        desc_value::<A>(vals, t, a, m),
        y.r == m.r && y.c == m.c,
        m.wf() ==> forall|i: int, j: int|
            0 <= i < m.r && 0 <= j < m.c ==> #[trigger] at(y, i, j) == at(
                m,
                row_after(i, n as int, m.r as int),
                j,
            ),
{
    let m = choose|m: MatView|
        desc_value::<A>(vals, t, a, m) && y == #[trigger] shifted(m, n as int);
    let f = |i: int| m.row(clamped(i, n as int, m.r));
    if m.wf() {
        assert forall|k: int| 0 <= k < m.r implies (#[trigger] f(k)).len() == m.c by {
            lemma_row_len(m, clamped(k, n as int, m.r));
        }
        assert forall|i: int, j: int| 0 <= i < m.r && 0 <= j < m.c implies #[trigger] at(y, i, j)
            == at(m, row_after(i, n as int, m.r as int), j) by {
            lemma_mat_at(m.r, m.c, f, i, j);
            lemma_at(m, clamped(i, n as int, m.r), j);
        }
    }
    m
}

/// `Scale(f, a)` is `a` times `f`, entry by entry.
pub proof fn law_scale<A: Arith>(
    vals: Map<Seq<char>, MatView>,
    t: nat,
    f: u32,
    a: DescView,
    y: MatView,
) -> (m: MatView)
    requires
        faithful::<A>(),
        desc_value::<A>(vals, t, DescView::Scale(f, Box::new(a)), y),
    ensures
        desc_value::<A>(vals, t, a, m),
        y.r == m.r && y.c == m.c,
        m.wf() ==> forall|i: int, j: int|
            0 <= i < m.r && 0 <= j < m.c && finite(f) && finite(at(m, i, j)) && held(
                value(at(m, i, j)) * value(f),
            ) ==> value(#[trigger] at(y, i, j)) == value(at(m, i, j)) * value(f),
{
    let m = choose|m: MatView| desc_value::<A>(vals, t, a, m) && #[trigger] scaled::<A>(m, f, y);
    if m.wf() {
        assert forall|i: int, j: int|
            0 <= i < m.r && 0 <= j < m.c && finite(f) && finite(at(m, i, j)) && held(
                value(at(m, i, j)) * value(f),
            ) implies value(#[trigger] at(y, i, j)) == value(at(m, i, j)) * value(f) by {
            lemma_at(m, i, j);
            let k = i * m.c + j;
            assert(products::<A>(m.d[k], f, y.d[k]));
            lemma_exact(value(m.d[k]) * value(f), y.d[k]);
        }
    }
    m
}

/// `Sum(a, b)` is `a` plus `b`, entry by entry.
pub proof fn law_sum<A: Arith>(
    vals: Map<Seq<char>, MatView>,
    t: nat,
    a: DescView,
    b: DescView,
    y: MatView,
) -> (parts: (MatView, MatView))
    requires
        faithful::<A>(),
        desc_value::<A>(vals, t, DescView::Sum(Box::new(a), Box::new(b)), y),
    ensures
        desc_value::<A>(vals, t, a, parts.0),
        desc_value::<A>(vals, t, b, parts.1),
        y.r == parts.0.r && y.c == parts.0.c,
        parts.0.wf() && parts.1.wf() && parts.0.r == parts.1.r && parts.0.c == parts.1.c
            ==> forall|i: int, j: int|
            0 <= i < y.r && 0 <= j < y.c && finite(at(parts.0, i, j)) && finite(at(parts.1, i, j))
                && held(value(at(parts.0, i, j)) + value(at(parts.1, i, j))) ==> value(
                #[trigger] at(y, i, j),
            ) == value(at(parts.0, i, j)) + value(at(parts.1, i, j)),
{
    let (m, n) = choose|m: MatView, n: MatView|
        desc_value::<A>(vals, t, a, m) && desc_value::<A>(vals, t, b, n) && #[trigger] added::<A>(
            m,
            n,
            y,
        );
    if m.wf() && n.wf() && m.r == n.r && m.c == n.c {
        assert forall|i: int, j: int|
            0 <= i < y.r && 0 <= j < y.c && finite(at(m, i, j)) && finite(at(n, i, j)) && held(
                value(at(m, i, j)) + value(at(n, i, j)),
            ) implies value(#[trigger] at(y, i, j)) == value(at(m, i, j)) + value(at(n, i, j)) by {
            lemma_at(m, i, j);
            lemma_at(n, i, j);
            let k = i * m.c + j;
            assert(sums::<A>(m.d[k], n.d[k], y.d[k]));
            lemma_exact(value(m.d[k]) + value(n.d[k]), y.d[k]);
        }
    }
    (m, n)
}

/// How many columns the first `k` matrices have.
pub open spec fn columns_before(ms: Seq<MatView>, k: int) -> int
    decreases k,
{
    if k <= 0 {
        0
    } else {
        columns_before(ms, k - 1) + ms[k - 1].c
    }
}

proof fn lemma_before(ms: Seq<MatView>, k: int)
    requires
        0 <= k <= ms.len(),
    ensures
        columns_before(ms, k) == width(ms.take(k)),
    decreases k,
{
    if k > 0 {
        lemma_before(ms, k - 1);
        assert(ms.take(k).drop_last() =~= ms.take(k - 1));
    } else {
        assert(ms.take(0).len() == 0);
    }
}

proof fn lemma_joined_at(ms: Seq<MatView>, i: int, k: int, j: int)
    requires
        0 <= i,
        forall|l: int| 0 <= l < ms.len() ==> (#[trigger] ms[l]).wf(),
        forall|l: int| 0 <= l < ms.len() ==> i < (#[trigger] ms[l]).r || ms[l].c == 0,
        0 <= k < ms.len(),
        0 <= j < ms[k].c,
    ensures
        0 <= columns_before(ms, k) + j < width(ms),
        joined_row(ms, i)[columns_before(ms, k) + j] == ms[k].row(i)[j],
    decreases ms.len(),
{
    let front = ms.drop_last();
    assert forall|l: int| 0 <= l < front.len() implies (#[trigger] front[l]).wf() && (i
        < front[l].r || front[l].c == 0) by {
        assert(front[l] == ms[l]);
    }
    lemma_joined_len(front, i);
    lemma_row_len(ms[ms.len() - 1], i);
    lemma_before(ms, k);
    if k < front.len() {
        lemma_before(front, k);
        assert(front.take(k) =~= ms.take(k));
        lemma_joined_at(front, i, k, j);
        assert(front[k] == ms[k]);
    } else {
        assert(ms.take(k) =~= front);
    }
}

/// `Append(a, b, ...)` stands the columns of its parts side by side, in their order.
pub proof fn law_append<A: Arith>(
    vals: Map<Seq<char>, MatView>,
    t: nat,
    parts: Seq<DescView>,
    y: MatView,
) -> (ms: Seq<MatView>)
    requires
        desc_value::<A>(vals, t, DescView::Append(parts), y),
    ensures
        ms.len() == parts.len() && ms.len() > 0,
        forall|l: int| 0 <= l < ms.len() ==> desc_value::<A>(vals, t, parts[l], #[trigger] ms[l]),
        y.r == ms[0].r && y.c == columns_before(ms, ms.len() as int),
        (forall|l: int| 0 <= l < ms.len() ==> (#[trigger] ms[l]).wf() && ms[l].r == ms[0].r)
            ==> forall|i: int, k: int, j: int|
            0 <= i < y.r && 0 <= k < ms.len() && 0 <= j < ms[k].c ==> at(
                y,
                i,
                columns_before(ms, k) + j,
            ) == #[trigger] at(ms[k], i, j),
{
    let ms = choose|ms: Seq<MatView>|
        {
            &&& ms.len() == parts.len()
            &&& forall|i: int|
                0 <= i < parts.len() ==> desc_value::<A>(vals, t, parts[i], #[trigger] ms[i])
            &&& can_join(ms)
            &&& y == #[trigger] side_by_side(ms)
        };
    lemma_before(ms, ms.len() as int);
    assert(ms.take(ms.len() as int) =~= ms);
    if forall|l: int| 0 <= l < ms.len() ==> (#[trigger] ms[l]).wf() && ms[l].r == ms[0].r {
        let f = |i: int| joined_row(ms, i);
        assert forall|a: int| 0 <= a < ms[0].r implies (#[trigger] f(a)).len() == width(ms) by {
            lemma_joined_len(ms, a);
        }
        assert forall|i: int, k: int, j: int|
            0 <= i < y.r && 0 <= k < ms.len() && 0 <= j < ms[k].c implies at(
            y,
            i,
            columns_before(ms, k) + j,
        ) == #[trigger] at(ms[k], i, j) by {
            lemma_joined_at(ms, i, k, j);
            lemma_mat_at(ms[0].r, width(ms), f, i, columns_before(ms, k) + j);
            assert(ms[k].wf() && ms[k].r == ms[0].r);
            lemma_at(ms[k], i, j);
        }
    }
    ms
}

/// `ReplaceIndex(a, t, 0)` is the first row of `a`, for every row of the utterance.
pub proof fn law_replace_index<A: Arith>(
    vals: Map<Seq<char>, MatView>,
    t: nat,
    a: DescView,
    y: MatView,
) -> (m: MatView)
    requires
        desc_value::<A>(vals, t, DescView::ReplaceIndex(Box::new(a)), y),
    ensures
        desc_value::<A>(vals, t, a, m),
        y.r == t && y.c == m.c,
        m.wf() ==> forall|i: int, j: int|
            0 <= i < t && 0 <= j < m.c ==> #[trigger] at(y, i, j) == at(m, 0, j),
{
    let m = choose|m: MatView|
        desc_value::<A>(vals, t, a, m) && (t == 0 || m.r > 0 || m.c == 0) && y
            == #[trigger] repeated(m, t);
    let f = |i: int| m.row(0);
    if m.wf() && t > 0 && m.c > 0 {
        assert forall|k: int| 0 <= k < t implies (#[trigger] f(k)).len() == m.c by {
            lemma_row_len(m, 0);
        }
        assert forall|i: int, j: int| 0 <= i < t && 0 <= j < m.c implies #[trigger] at(y, i, j)
            == at(m, 0, j) by {
            lemma_mat_at(t, m.c, f, i, j);
            lemma_at(m, 0, j);
        }
    }
    m
}

/// A component node is its component applied to its expression, an output node is its expression,
/// and a name in an expression is the node of that name.
pub proof fn law_node<A: Arith>(
    task: Task,
    vals: Map<Seq<char>, MatView>,
    name: Seq<char>,
    y: MatView,
) -> (x: MatView)
    requires
        node_value::<A>(task, vals, name, y),
    ensures
        task.nodes[name] matches NodeView::Component { comp, desc } ==> desc_value::<A>(
            vals,
            task.feats.r,
            desc,
            x,
        ) && task.comps.contains_key(comp) && applied::<A>(task.comps[comp], x, y),
        task.nodes[name] matches NodeView::Output { desc } ==> desc_value::<A>(
            vals,
            task.feats.r,
            desc,
            y,
        ),
        forall|n: Seq<char>, z: MatView| #[trigger]
            desc_value::<A>(vals, task.feats.r, DescView::Ref(n), z) ==> vals.contains_key(n) && z
                == vals[n],
{
    match task.nodes[name] {
        NodeView::Component { comp, desc } => choose|x: MatView| #[trigger]
            desc_value::<A>(vals, task.feats.r, desc, x) && applied::<A>(task.comps[comp], x, y),
        _ => y,
    }
}

/// A dim-range node is the columns of its source from its offset on.
pub proof fn law_dim_range<A: Arith>(
    task: Task,
    vals: Map<Seq<char>, MatView>,
    name: Seq<char>,
    src: Seq<char>,
    off: nat,
    dim: nat,
    y: MatView,
    i: int,
    j: int,
)
    requires
        task.nodes.contains_key(name),
        task.nodes[name] == (NodeView::DimRange { src, off, dim }),
        node_value::<A>(task, vals, name, y),
        vals[src].wf(),
        0 <= i < vals[src].r,
        0 <= j < dim,
    ensures
        y.r == vals[src].r && y.c == dim,
        off + j < vals[src].c,
        at(y, i, j) == at(vals[src], i, off + j),
{
    let m = vals[src];
    let f = |i: int| m.row(i).subrange(off as int, (off + dim) as int);
    assert(y == columns(m, off, dim));
    assert forall|k: int| 0 <= k < m.r implies (#[trigger] f(k)).len() == dim by {
        lemma_row_len(m, k);
    }
    lemma_mat_at(m.r, dim, f, i, j);
    lemma_row_len(m, i);
    lemma_at(m, i, off + j);
}

} // verus!
