//! How near the tables of the front end come to the functions that they hold.

use vstd::prelude::*;

use crate::mfcc::{is_dct, is_dct_angle, is_dct_row, is_dct_scale, is_front_end, MfccView};
use crate::single::{
    cosines, differences, numbers, products, quotients, roots, sines, sums, Arith, HALF, ONE, PI,
    TWO,
};
use crate::values::{
    faithful, finite, lemma_exact, lemma_half, lemma_power, lemma_power_less, lemma_whole, power,
    size_of, value,
};

verus! {

/// The circle: half its circumference for radius 1, and the cosine and sine of angles.
pub ghost struct Circle {
    pub pi: real,
    pub cos: spec_fn(real) -> real,
    pub sin: spec_fn(real) -> real,
}

/// What is used of the circle: where pi lies, and that a cosine or sine is at most 1 in size and
/// changes by no more than its angle.
pub open spec fn round(o: Circle) -> bool {
    &&& 3real < o.pi < 4real
    &&& forall|x: real| -1real <= #[trigger] (o.cos)(x) <= 1real
    &&& forall|x: real, y: real|
        #![trigger (o.cos)(x), (o.cos)(y)]
        x <= y ==> x - y <= (o.cos)(x) - (o.cos)(y) <= y - x
    &&& forall|x: real| -1real <= #[trigger] (o.sin)(x) <= 1real
    &&& forall|x: real, y: real|
        #![trigger (o.sin)(x), (o.sin)(y)]
        x <= y ==> x - y <= (o.sin)(x) - (o.sin)(y) <= y - x
}

/// The two numbers are no further apart than `e`.
pub open spec fn gap(a: real, b: real, e: real) -> bool {
    -e <= a - b <= e
}

/// `r` stands for a number that is `v` but for the part `t` of its size, or for `t` where it is
/// next to nothing.
pub open spec fn near(v: real, r: u32, t: real) -> bool {
    &&& finite(r)
    &&& v >= power(-100) ==> gap(value(r), v, t * v)
    &&& v <= -power(-100) ==> gap(value(r), v, -t * v)
    &&& -power(-100) < v < power(-100) ==> gap(value(r), v, t)
}

/// The arithmetic errs by no more than the part `t` of each result, as that of machines does.
pub open spec fn accurate<A: Arith>(t: real, o: Circle) -> bool {
    &&& 0real <= t <= 1real / 100real
    &&& faithful::<A>()
    &&& gap(value(PI), o.pi, t * o.pi)
    &&& forall|a: u32, b: u32, r: u32| #[trigger]
        sums::<A>(a, b, r) && finite(a) && finite(b) && -power(100) < value(a) + value(b)
            < power(100) ==> near(value(a) + value(b), r, t)
    &&& forall|a: u32, b: u32, r: u32| #[trigger]
        differences::<A>(a, b, r) && finite(a) && finite(b) && -power(100) < value(a) - value(b)
            < power(100) ==> near(value(a) - value(b), r, t)
    &&& forall|a: u32, b: u32, r: u32| #[trigger]
        products::<A>(a, b, r) && finite(a) && finite(b) && -power(100) < value(a) * value(b)
            < power(100) ==> near(value(a) * value(b), r, t)
    &&& forall|a: u32, b: u32, r: u32| #[trigger]
        quotients::<A>(a, b, r) && finite(a) && finite(b) && value(b) != 0real && -power(100)
            < value(a) / value(b) < power(100) ==> near(value(a) / value(b), r, t)
    &&& forall|a: u32, r: u32| #[trigger]
        roots::<A>(a, r) && finite(a) && power(-100) < value(a) < power(100) ==> finite(r) && value(
            r,
        ) >= 0real && gap(value(r) * value(r), value(a), 3real * t * value(a))
    &&& forall|a: u32, r: u32| #[trigger]
        cosines::<A>(a, r) && finite(a) ==> finite(r) && gap(value(r), (o.cos)(value(a)), t)
    &&& forall|a: u32, r: u32| #[trigger]
        sines::<A>(a, r) && finite(a) ==> finite(r) && gap(value(r), (o.sin)(value(a)), t)
}

/// An error grows by a further step.
pub(crate) proof fn lemma_grows(a: real, exact: real, e: real, m: real, r: real, t: real)
    requires
        exact >= 0real,
        m >= 0real,
        0real <= e <= 1real,
        0real <= t <= 1real,
        gap(a, exact, e * exact),
        gap(r, a * m, t * (a * m)),
    ensures
        gap(r, exact * m, (e + t + t * e) * (exact * m)),
        0real <= a * m <= (1real + e) * (exact * m),
{
    let p = exact * m;
    assert(p >= 0real) by (nonlinear_arith)
        requires
            exact >= 0real,
            m >= 0real,
            p == exact * m,
    ;
    let q = a * m;
    assert(-(e * p) <= q - p <= e * p) by (nonlinear_arith)
        requires
            m >= 0real,
            -(e * exact) <= a - exact <= e * exact,
            p == exact * m,
            q == a * m,
    ;
    assert(q <= (1real + e) * p && q >= (1real - e) * p) by (nonlinear_arith)
        requires
            -(e * p) <= q - p <= e * p,
    ;
    assert((1real - e) * p >= 0real) by (nonlinear_arith)
        requires
            e <= 1real,
            p >= 0real,
    ;
    assert(t * q <= t * ((1real + e) * p)) by (nonlinear_arith)
        requires
            0real <= t,
            q <= (1real + e) * p,
    ;
    assert(t * ((1real + e) * p) + e * p == (e + t + t * e) * p) by (nonlinear_arith);
    assert(-(t * q) <= r - q <= t * q);
    assert(r - p <= (e + t + t * e) * p && p - r <= (e + t + t * e) * p);
}

pub(crate) proof fn lemma_powers()
    ensures
        power(-100) < 1real / 0x1_0000_0000real,
        power(100) > 0x1_0000_0000_0000_0000real,
        power(-100) > 0real,
{
    lemma_power(-100);
    assert(power(-32) == 1real / 0x1_0000_0000real) by {
        reveal_with_fuel(power, 33);
    }
    assert(power(64) == 0x1_0000_0000_0000_0000real) by {
        reveal_with_fuel(power, 65);
    }
    lemma_power_less(-100, -32);
    lemma_power_less(64, 100);
}

pub(crate) proof fn lemma_number<A: Arith>(n: usize, r: u32)
    requires
        faithful::<A>(),
        numbers::<A>(n, r),
        n <= 0x80_0000,
    ensures
        finite(r),
        value(r) == n as int as real,
{
    lemma_whole(n as int);
    lemma_exact(n as int as real, r);
}

pub(crate) proof fn lemma_constants()
    ensures
        finite(ONE) && value(ONE) == 1real,
        finite(TWO) && value(TWO) == 2real,
        finite(HALF) && value(HALF) == 1real / 2real,
        finite(PI),
{
    reveal_with_fuel(power, 25);
    assert(size_of(0x3f80_0000) == 0x80_0000real * power(-23));
    assert(size_of(0x4000_0000) == 0x80_0000real * power(-22));
    assert(size_of(0x3f00_0000) == 0x80_0000real * power(-24));
}

pub(crate) proof fn lemma_inverse(n: int)
    requires
        0 < n <= 0x80_0000,
    ensures
        1real / 0x80_0000real <= 1real / (n as real) <= 1real,
{
    let x = n as real;
    let y = 1real / x;
    assert(1real / 0x80_0000real <= y <= 1real) by (nonlinear_arith)
        requires
            1real <= x <= 0x80_0000real,
            y == 1real / x,
    ;
}

/// The next step is neither next to nothing nor out of reach.
pub(crate) proof fn lemma_range(a: real, exact: real, e: real, m: real)
    requires
        1real / 0x80_0000real <= exact <= 0x200_0000real,
        1real / 2real <= m <= 0x80_0000real,
        0real <= e <= 1real / 10real,
        gap(a, exact, e * exact),
    ensures
        power(-100) <= a * m < power(100),
{
    lemma_powers();
    assert(exact / 2real <= a <= 2real * exact) by (nonlinear_arith)
        requires
            -(e * exact) <= a - exact <= e * exact,
            0real <= e <= 1real / 10real,
            exact > 0real,
    ;
    assert(1real / 0x200_0000real <= a * m <= 0x400_0000real * 0x80_0000real) by (nonlinear_arith)
        requires
            1real / 0x100_0000real <= a <= 0x400_0000real,
            1real / 2real <= m <= 0x80_0000real,
    ;
}

/// The root of a number over the bins, from its square.
proof fn lemma_root<A: Arith>(
    t: real,
    o: Circle,
    a: u32,
    c: real,
    n: int,
    x: u32,
    q: u32,
    s: u32,
    root: real,
)
    requires
        accurate::<A>(t, o),
        0 < n <= 0x80_0000,
        finite(x) && value(x) == n as real,
        finite(a) && value(a) == c && 1real <= c <= 2real,
        quotients::<A>(a, x, q),
        roots::<A>(q, s),
        root > 0real,
        root * root * (n as real) == c,
    ensures
        finite(s),
        value(s) >= 0real,
        gap(value(s), root, 5real * t * root),
{
    lemma_powers();
    lemma_inverse(n);
    let m = 1real / (n as real);
    let v = c / (n as real);
    assert(v == c * m && m <= v <= 2real * m) by (nonlinear_arith)
        requires
            m == 1real / (n as real),
            v == c / (n as real),
            n > 0,
            1real <= c <= 2real,
            m > 0real,
    ;
    assert(near(v, q, t));
    let w = value(q);
    assert(gap(w, v, t * v));
    assert((1real - t) * v <= w <= (1real + t) * v) by (nonlinear_arith)
        requires
            -(t * v) <= w - v <= t * v,
    ;
    assert(w >= v / 2real && w <= 2real * v) by (nonlinear_arith)
        requires
            (1real - t) * v <= w <= (1real + t) * v,
            0real <= t <= 1real / 100real,
            v > 0real,
    ;
    let g = value(s);
    assert(gap(g * g, w, 3real * t * w));
    assert(root * root == v) by (nonlinear_arith)
        requires
            root * root * (n as real) == c,
            v == c / (n as real),
            n > 0,
    ;
    assert(-(5real * t * v) <= g * g - v <= 5real * t * v) by (nonlinear_arith)
        requires
            -(3real * t * w) <= g * g - w <= 3real * t * w,
            -(t * v) <= w - v <= t * v,
            w <= (1real + t) * v,
            0real <= t <= 1real / 100real,
            v > 0real,
    ;
    let e = 5real * t * root;
    assert(e >= 0real) by (nonlinear_arith)
        requires
            e == 5real * t * root,
            t >= 0real,
            root > 0real,
    ;
    assert(5real * t * v == e * root) by (nonlinear_arith)
        requires
            e == 5real * t * root,
            v == root * root,
    ;
    if g - root > e {
        assert(g * g - root * root > e * root) by (nonlinear_arith)
            requires
                g - root > e,
                e >= 0real,
                root > 0real,
        ;
    }
    if root - g > e {
        assert(root * root - g * g > e * root) by (nonlinear_arith)
            requires
                root - g > e,
                e >= 0real,
                root > 0real,
                g >= 0real,
        ;
    }
}

/// The angle of an entry.
proof fn lemma_angle<A: Arith>(
    t: real,
    o: Circle,
    n: int,
    x: u32,
    k: usize,
    i: usize,
    z: u32,
    exact: real,
)
    requires
        accurate::<A>(t, o),
        round(o),
        0 < n <= 0x80_0000,
        0 < k <= 0x80_0000,
        i < n,
        finite(x) && value(x) == n as real,
        is_dct_angle::<A>(x, k, i, z),
        exact * (n as real) == o.pi * (k as int as real) * (i as int as real + 1real / 2real),
    ensures
        finite(z),
        exact >= 0real,
        gap(value(z), exact, 5real * t * exact),
{
    lemma_powers();
    lemma_constants();
    lemma_inverse(n);
    let (u, kx, v, nx, w) = choose|u: u32, kx: u32, v: u32, nx: u32, w: u32|
        #![trigger quotients::<A>(PI, x, u), numbers::<A>(k, kx), products::<A>(u, kx, v),
            numbers::<A>(i, nx), sums::<A>(nx, HALF, w)]
        quotients::<A>(PI, x, u) && numbers::<A>(k, kx) && products::<A>(u, kx, v) && numbers::<A>(
            i,
            nx,
        ) && sums::<A>(nx, HALF, w) && products::<A>(v, w, z);
    lemma_number::<A>(k, kx);
    lemma_number::<A>(i, nx);
    let (kr, hr) = (k as int as real, i as int as real + 1real / 2real);
    lemma_half(2 * i as int + 1);
    assert((2 * i as int + 1) as real / 2real == hr);
    lemma_exact(hr, w);
    let m = 1real / (n as real);
    let pv = value(PI);
    assert(2real <= pv <= 5real) by (nonlinear_arith)
        requires
            -(t * o.pi) <= pv - o.pi <= t * o.pi,
            3real < o.pi < 4real,
            0real <= t <= 1real / 100real,
    ;
    assert(pv / (n as real) == pv * m) by (nonlinear_arith)
        requires
            m == 1real / (n as real),
            n > 0,
    ;
    assert(2real * m <= pv * m <= 5real) by (nonlinear_arith)
        requires
            2real <= pv <= 5real,
            0real < m <= 1real,
    ;
    assert(near(pv * m, u, t));
    lemma_grows(pv, o.pi, t, m, value(u), t);
    let a1 = o.pi * m;
    let e1 = t + t + t * t;
    assert(0real <= e1 <= 3real * t) by (nonlinear_arith)
        requires
            e1 == t + t + t * t,
            0real <= t <= 1real / 100real,
    ;
    assert(0real <= e1 <= 2real * t + t / 50real) by (nonlinear_arith)
        requires
            e1 == t + t + t * t,
            0real <= t <= 1real / 100real,
    ;
    assert(m <= a1 && a1 <= 4real) by (nonlinear_arith)
        requires
            a1 == o.pi * m,
            3real < o.pi < 4real,
            0real < m <= 1real,
    ;
    let uv = value(u);
    lemma_range(uv, a1, e1, kr);
    lemma_grows(uv, a1, e1, kr, value(v), t);
    let a2 = a1 * kr;
    let e2 = e1 + t + t * e1;
    assert(0real <= e2 <= 3real * t + t / 10real) by (nonlinear_arith)
        requires
            e2 == e1 + t + t * e1,
            0real <= e1 <= 2real * t + t / 50real,
            0real <= t <= 1real / 100real,
    ;
    assert(a1 <= a2 <= 0x200_0000real) by (nonlinear_arith)
        requires
            a2 == a1 * kr,
            0real < a1 <= 4real,
            1real <= kr <= 0x80_0000real,
    ;
    lemma_range(value(v), a2, e2, hr);
    lemma_grows(value(v), a2, e2, hr, value(z), t);
    let a3 = a2 * hr;
    let e3 = e2 + t + t * e2;
    assert(0real <= e3 <= 5real * t) by (nonlinear_arith)
        requires
            e3 == e2 + t + t * e2,
            0real <= e2 <= 3real * t + t / 10real,
            0real <= t <= 1real / 100real,
    ;
    assert(a3 == exact) by (nonlinear_arith)
        requires
            a3 == o.pi * m * kr * hr,
            m == 1real / (n as real),
            n > 0,
            exact * (n as real) == o.pi * kr * hr,
    ;
    assert(a3 >= 0real) by (nonlinear_arith)
        requires
            a3 == a2 * hr,
            a2 >= 0real,
            hr >= 0real,
    ;
    assert(e3 * a3 <= 5real * t * a3) by (nonlinear_arith)
        requires
            e3 <= 5real * t,
            a3 >= 0real,
    ;
}

/// Entry `i` of row `k > 0` of the cosine transform of a front end with `n` mel bins is the root of
/// 2 / n times the cosine of pi / n * k * (i + 1/2), and every entry of row 0 is the root of 1 / n,
/// but for errors of the arithmetic.
pub proof fn law_cosine_transform<A: Arith>(
    t: real,
    o: Circle,
    sr: u32,
    bins: usize,
    ceps: usize,
    v: MfccView,
    k: int,
    i: int,
    root: real,
    angle: real,
)
    requires
        accurate::<A>(t, o),
        round(o),
        is_front_end::<A>(sr, bins, ceps, v),
        0 < bins <= 0x80_0000,
        0 <= k < ceps && k <= 0x80_0000,
        0 <= i < bins,
        root > 0real,
        root * root * (bins as int as real) == (if k == 0 {
            1real
        } else {
            2real
        }),
        angle * (bins as int as real) == o.pi * (k as real) * (i as real + 1real / 2real),
    ensures
        v.dct.len() == ceps && v.dct[k].len() == bins,
        finite(v.dct[k][i]),
        k == 0 ==> gap(value(v.dct[k][i]), root, 5real * t * root),
        k > 0 ==> gap(
            value(v.dct[k][i]),
            root * (o.cos)(angle),
            t * (1real + root * (8real + 5real * angle)),
        ),
{
    let (ku, iu) = (k as usize, i as usize);
    let y = v.dct[k][i];
    assert(is_dct_row::<A>(bins, ku, v.dct[k]));
    assert(is_dct::<A>(bins, ku, iu, y));
    lemma_constants();
    if k == 0 {
        let (x, q) = choose|x: u32, q: u32|
            #![trigger numbers::<A>(bins, x), quotients::<A>(ONE, x, q)]
            numbers::<A>(bins, x) && quotients::<A>(ONE, x, q) && roots::<A>(q, y);
        lemma_number::<A>(bins, x);
        lemma_root::<A>(t, o, ONE, 1real, bins as int, x, q, y, root);
    } else {
        let (x, s, z, c) = choose|x: u32, s: u32, z: u32, c: u32|
            #![trigger numbers::<A>(bins, x), is_dct_scale::<A>(x, s),
                is_dct_angle::<A>(x, ku, iu, z), cosines::<A>(z, c)]
            numbers::<A>(bins, x) && is_dct_scale::<A>(x, s) && is_dct_angle::<A>(x, ku, iu, z)
                && cosines::<A>(z, c) && products::<A>(s, c, y);
        lemma_number::<A>(bins, x);
        let q = choose|q: u32| #[trigger] quotients::<A>(TWO, x, q) && roots::<A>(q, s);
        lemma_root::<A>(t, o, TWO, 2real, bins as int, x, q, s, root);
        lemma_angle::<A>(t, o, bins as int, x, ku, iu, z, angle);
        lemma_product::<A>(t, o, s, c, y, value(z), root, angle, bins as int);
    }
}

proof fn lemma_product<A: Arith>(
    t: real,
    o: Circle,
    s: u32,
    c: u32,
    y: u32,
    z: real,
    root: real,
    angle: real,
    n: int,
)
    requires
        accurate::<A>(t, o),
        round(o),
        products::<A>(s, c, y),
        finite(s) && finite(c),
        value(s) >= 0real,
        n > 0,
        root > 0real && root * root * (n as real) == 2real,
        gap(value(s), root, 5real * t * root),
        gap(z, angle, 5real * t * angle),
        angle >= 0real,
        gap(value(c), (o.cos)(z), t),
    ensures
        finite(y),
        gap(
            value(y),
            root * (o.cos)(angle),
            t * (1real + root * (8real + 5real * angle)),
        ),
{
    lemma_powers();
    let (sv, cv, yv) = (value(s), value(c), value(y));
    let (cz, ca) = ((o.cos)(z), (o.cos)(angle));
    let e = 5real * t * angle;
    assert(gap(cz, ca, e));
    assert(root <= 2real) by (nonlinear_arith)
        requires
            root > 0real,
            root * root * (n as real) == 2real,
            n >= 1,
    ;
    let d = 5real * t * root;
    assert(0real <= d <= root / 20real) by (nonlinear_arith)
        requires
            d == 5real * t * root,
            0real <= t <= 1real / 100real,
            root > 0real,
    ;
    assert(-101real / 100real <= cv <= 101real / 100real);
    let p = sv * cv;
    assert(-(3real / 2real * root) <= p <= 3real / 2real * root) by (nonlinear_arith)
        requires
            0real <= sv <= 105real / 100real * root,
            -101real / 100real <= cv <= 101real / 100real,
            root > 0real,
            p == sv * cv,
    ;
    let f = t * (1real + 3real / 2real * root);
    assert(near(p, y, t));
    assert(gap(yv, p, f)) by {
        assert(t * (1real + 3real / 2real * root) >= t * (3real / 2real * root)) by (nonlinear_arith)
            requires
                t >= 0real,
        ;
        assert(t * (1real + 3real / 2real * root) >= t) by (nonlinear_arith)
            requires
                t >= 0real,
                root > 0real,
        ;
        if p >= power(-100) {
            assert(t * p <= t * (3real / 2real * root)) by (nonlinear_arith)
                requires
                    t >= 0real,
                    p <= 3real / 2real * root,
            ;
        } else if p <= -power(-100) {
            assert(-t * p <= t * (3real / 2real * root)) by (nonlinear_arith)
                requires
                    t >= 0real,
                    p >= -(3real / 2real * root),
            ;
        }
    }
    // p - root * ca == (sv - root) * cv + root * (cv - ca)
    let (a, b) = (sv - root, cv - ca);
    assert(p - root * ca == a * cv + root * b) by (nonlinear_arith)
        requires
            p == sv * cv,
            a == sv - root,
            b == cv - ca,
    ;
    assert(-(101real / 100real * d) <= a * cv <= 101real / 100real * d) by (nonlinear_arith)
        requires
            -d <= a <= d,
            -101real / 100real <= cv <= 101real / 100real,
            d >= 0real,
    ;
    assert(-(root * (t + e)) <= root * b <= root * (t + e)) by (nonlinear_arith)
        requires
            -(t + e) <= b <= t + e,
            root > 0real,
    ;
    assert(f + 101real / 100real * d + root * (t + e) <= t * (1real + root * (8real + 5real
        * angle))) by (nonlinear_arith)
        requires
            f == t * (1real + 3real / 2real * root),
            d == 5real * t * root,
            e == 5real * t * angle,
            t >= 0real,
            root > 0real,
    ;
}

} // verus!
