//! What a normalising layer computes of any numbers, but for errors of the arithmetic.

use vstd::prelude::*;

use crate::components::CompView;
use crate::cosines::{accurate, gap, lemma_powers, near, Circle};
use crate::evaluation::applied;
use crate::layers::{at, lemma_at};
use crate::mat::{centred, norm_factor, MatView};
use crate::single::{differences, products, quotients, roots, sums, Arith};
use crate::tables::lemma_step;
use crate::values::{finite, value};

verus! {

/// The root of a number, from its square.
proof fn lemma_root(t: real, g: real, v: real, q: real)
    requires
        0real <= t <= 1real / 100real,
        g >= 0real,
        q > 0real,
        q * q == v,
        gap(g * g, v, 5real * t * v),
    ensures
        gap(g, q, 5real * t * q),
{
    let e = 5real * t * q;
    assert(e >= 0real) by (nonlinear_arith)
        requires
            e == 5real * t * q,
            t >= 0real,
            q > 0real,
    ;
    assert(5real * t * v == e * q) by (nonlinear_arith)
        requires
            e == 5real * t * q,
            v == q * q,
    ;
    if g - q > e {
        assert(g * g - q * q > e * q) by (nonlinear_arith)
            requires
                g - q > e,
                e >= 0real,
                q > 0real,
        ;
    }
    if q - g > e {
        assert(q * q - g * g > e * q) by (nonlinear_arith)
            requires
                q - g > e,
                e >= 0real,
                q > 0real,
                g >= 0real,
        ;
    }
}

/// The factor of a column, times the root of its variance and epsilon, is the target.
proof fn lemma_factor<A: Arith>(
    t: real,
    o: Circle,
    var: u32,
    eps: u32,
    trms: u32,
    s: u32,
    q: real,
    m: real,
)
    requires
        accurate::<A>(t, o),
        finite(var) && finite(eps) && finite(trms),
        norm_factor::<A>(var, eps, trms, s),
        1real / 1000real <= q <= 1000real,
        q * q == value(var) + value(eps),
        -m <= value(trms) <= m,
        0real <= m <= 1000000real,
    ensures
        finite(s),
        gap(value(s) * q, value(trms), t * (q + 7real * m)),
{
    lemma_powers();
    let (a, r) = choose|a: u32, r: u32|
        #![trigger sums::<A>(var, eps, a), roots::<A>(a, r)]
        sums::<A>(var, eps, a) && roots::<A>(a, r) && quotients::<A>(trms, r, s);
    let v = q * q;
    assert(1real / 1000000real <= v <= 1000000real) by (nonlinear_arith)
        requires
            v == q * q,
            1real / 1000real <= q <= 1000real,
    ;
    assert(near(v, a, t));
    let av = value(a);
    assert(gap(av, v, t * v));
    assert(v / 2real <= av <= 2real * v) by (nonlinear_arith)
        requires
            -(t * v) <= av - v <= t * v,
            0real <= t <= 1real / 100real,
            v > 0real,
    ;
    let g = value(r);
    assert(gap(g * g, av, 3real * t * av));
    assert(-(5real * t * v) <= g * g - v <= 5real * t * v) by (nonlinear_arith)
        requires
            -(3real * t * av) <= g * g - av <= 3real * t * av,
            -(t * v) <= av - v <= t * v,
            0real <= t <= 1real / 100real,
            v > 0real,
    ;
    lemma_root(t, g, v, q);
    let e = 5real * t * q;
    assert(0real <= e <= q / 20real) by (nonlinear_arith)
        requires
            e == 5real * t * q,
            0real <= t <= 1real / 100real,
            q > 0real,
    ;
    assert(95real / 100real * q <= g <= 105real / 100real * q);
    let w = value(trms);
    let z = w / g;
    let n = m / (95real / 100real * q);
    assert(-n <= z <= n) by (nonlinear_arith)
        requires
            z == w / g,
            n == m / (95real / 100real * q),
            -m <= w <= m,
            g >= 95real / 100real * q,
            q > 0real,
            m >= 0real,
    ;
    assert(0real <= n <= 2000000000real) by (nonlinear_arith)
        requires
            n == m / (95real / 100real * q),
            q >= 1real / 1000real,
            0real <= m <= 1000000real,
    ;
    assert(n * q <= 106real / 100real * m) by (nonlinear_arith)
        requires
            n == m / (95real / 100real * q),
            q > 0real,
            m >= 0real,
    ;
    assert(g != 0real);
    lemma_step(z, s, t, n);
    let sv = value(s);
    let f = t * (1real + n);
    assert(-(t * (q + 106real / 100real * m)) <= sv * q - z * q <= t * (q + 106real / 100real * m))
        by (nonlinear_arith)
        requires
            -f <= sv - z <= f,
            f == t * (1real + n),
            n * q <= 106real / 100real * m,
            q > 0real,
            t >= 0real,
    ;
    assert(-(53real / 10real * (t * m)) <= z * q - w <= 53real / 10real * (t * m))
        by (nonlinear_arith)
        requires
            z == w / g,
            -(5real * t * q) <= g - q <= 5real * t * q,
            g >= 95real / 100real * q,
            q > 0real,
            -m <= w <= m,
            t >= 0real,
    ;
    assert(t * (q + 106real / 100real * m) + 53real / 10real * (t * m) <= t * (q + 7real * m))
        by (nonlinear_arith)
        requires
            t >= 0real,
            m >= 0real,
    ;
}

/// A normalised entry, times the root of the variance and epsilon of its column, is what the entry
/// lies above the mean of the column, times the target, but for errors of the arithmetic; below the
/// mean as well as above. Numbers are no larger than `b` in size, and the target than `m`.
pub proof fn law_batch_norm_near<A: Arith>(
    t: real,
    o: Circle,
    mean: Seq<u32>,
    var: Seq<u32>,
    eps: u32,
    trms: u32,
    x: MatView,
    y: MatView,
    i: int,
    j: int,
    q: real,
    b: real,
    m: real,
)
    requires
        accurate::<A>(t, o),
        x.wf(),
        applied::<A>(CompView::BatchNorm { mean, var, eps, trms }, x, y),
        0 <= i < x.r,
        0 <= j < x.c,
        finite(at(x, i, j)) && finite(mean[j]) && finite(var[j]) && finite(eps) && finite(trms),
        1real / 1000real <= q <= 1000real,
        q * q == value(var[j]) + value(eps),
        1real <= b <= 1000000real,
        -b <= value(at(x, i, j)) <= b,
        -b <= value(mean[j]) <= b,
        1real <= m <= 1000real,
        -m <= value(trms) <= m,
    ensures
        y.r == x.r && y.c == x.c,
        finite(at(y, i, j)),
        gap(
            value(at(y, i, j)) * q,
            (value(at(x, i, j)) - value(mean[j])) * value(trms),
            t * b * (4real * q + 24real * m),
        ),
{
    lemma_powers();
    let c = x.c as int;
    let k = i * c + j;
    lemma_at(x, i, j);
    let s = choose|s: Seq<u32>|
        {
            &&& s.len() == var.len()
            &&& forall|j: int|
                0 <= j < var.len() ==> norm_factor::<A>(var[j], eps, trms, #[trigger] s[j])
            &&& forall|k: int|
                0 <= k < x.d.len() ==> centred::<A>(
                    x.d[k],
                    mean[k % (x.c as int)],
                    s[k % (x.c as int)],
                    #[trigger] y.d[k],
                )
        };
    assert(j < var.len());
    assert(norm_factor::<A>(var[j], eps, trms, s[j]));
    lemma_factor::<A>(t, o, var[j], eps, trms, s[j], q, m);
    assert(centred::<A>(x.d[k], mean[k % c], s[k % c], y.d[k]));
    let d = choose|d: u32| #[trigger]
        differences::<A>(x.d[k], mean[j], d) && products::<A>(d, s[j], y.d[k]);
    let (exact, w) = (value(x.d[k]) - value(mean[j]), value(trms));
    lemma_step(exact, d, t, 2real * b);
    let (dv, sv, yv) = (value(d), value(s[j]), value(y.d[k]));
    let e = t * (1real + 2real * b);
    assert(0real <= e <= 3real * (t * b) && e <= 3real / 100real * b) by (nonlinear_arith)
        requires
            e == t * (1real + 2real * b),
            0real <= t <= 1real / 100real,
            b >= 1real,
    ;
    let u = sv * q;
    let f = t * (q + 7real * m);
    assert(0real <= f <= q / 100real + 7real / 100real * m) by (nonlinear_arith)
        requires
            f == t * (q + 7real * m),
            0real <= t <= 1real / 100real,
            q > 0real,
            m >= 1real,
    ;
    let h = 107real / 100real * m + q / 100real;
    assert(-h <= u <= h);
    assert(-(1000real * h) <= sv <= 1000real * h) by (nonlinear_arith)
        requires
            u == sv * q,
            -h <= u <= h,
            q >= 1real / 1000real,
            h >= 0real,
    ;
    let p = dv * sv;
    let pb = 203real / 100real * b * (1000real * h);
    assert(-pb <= p <= pb) by (nonlinear_arith)
        requires
            p == dv * sv,
            -(203real / 100real * b) <= dv <= 203real / 100real * b,
            -(1000real * h) <= sv <= 1000real * h,
            pb == 203real / 100real * b * (1000real * h),
            b >= 1real,
            h >= 0real,
    ;
    assert(pb <= 1000000000000000real) by (nonlinear_arith)
        requires
            pb == 203real / 100real * b * (1000real * h),
            1real <= b <= 1000000real,
            0real <= h <= 1080real,
    ;
    let size = if p < 0real {
        -p
    } else {
        p
    };
    lemma_step(p, y.d[k], t, size);
    // times q
    assert(size * q <= 203real / 100real * (b * h)) by (nonlinear_arith)
        requires
            size == p || size == -p,
            p == dv * sv,
            u == sv * q,
            -(203real / 100real * b) <= dv <= 203real / 100real * b,
            -h <= u <= h,
            b >= 1real,
            h >= 0real,
            q > 0real,
    ;
    let g = t * (1real + size);
    assert(-(t * (q + 203real / 100real * (b * h))) <= yv * q - p * q <= t * (q + 203real / 100real
        * (b * h))) by (nonlinear_arith)
        requires
            -g <= yv - p <= g,
            g == t * (1real + size),
            size * q <= 203real / 100real * (b * h),
            q > 0real,
            t >= 0real,
    ;
    assert(p * q == dv * u) by (nonlinear_arith)
        requires
            p == dv * sv,
            u == sv * q,
    ;
    assert(-(203real / 100real * (b * f)) <= dv * u - dv * w <= 203real / 100real * (b * f))
        by (nonlinear_arith)
        requires
            -f <= u - w <= f,
            -(203real / 100real * b) <= dv <= 203real / 100real * b,
            f >= 0real,
            b >= 1real,
    ;
    assert(-(e * m) <= dv * w - exact * w <= e * m) by (nonlinear_arith)
        requires
            -e <= dv - exact <= e,
            -m <= w <= m,
            e >= 0real,
    ;
    lemma_sum(t, q, b, h, f, e, m);
}

/// The errors together.
proof fn lemma_sum(t: real, q: real, b: real, h: real, f: real, e: real, m: real)
    requires
        0real <= t <= 1real / 100real,
        q > 0real,
        b >= 1real,
        m >= 1real,
        h == 107real / 100real * m + q / 100real,
        f == t * (q + 7real * m),
        0real <= e <= 3real * (t * b),
    ensures
        t * (q + 203real / 100real * (b * h)) + 203real / 100real * (b * f) + e * m <= t * b * (
        4real * q + 24real * m),
{
    let x = t * b;
    assert(t * q <= x * q) by (nonlinear_arith)
        requires
            x == t * b,
            t >= 0real,
            b >= 1real,
            q > 0real,
    ;
    assert(t * (b * h) == 107real / 100real * (x * m) + x * q / 100real) by (nonlinear_arith)
        requires
            x == t * b,
            h == 107real / 100real * m + q / 100real,
    ;
    assert(t * (q + 203real / 100real * (b * h)) == t * q + 203real / 100real * (t * (b * h)))
        by (nonlinear_arith);
    assert(b * f == x * q + 7real * (x * m)) by (nonlinear_arith)
        requires
            x == t * b,
            f == t * (q + 7real * m),
    ;
    assert(e * m <= 3real * (x * m)) by (nonlinear_arith)
        requires
            e <= 3real * x,
            m >= 1real,
    ;
    assert(x * q >= 0real && x * m >= 0real) by (nonlinear_arith)
        requires
            x == t * b,
            t >= 0real,
            b >= 1real,
            q > 0real,
            m >= 1real,
    ;
    assert(x * (4real * q + 24real * m) == 4real * (x * q) + 24real * (x * m)) by (nonlinear_arith);
}

} // verus!
