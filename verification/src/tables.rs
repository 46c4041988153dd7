//! What the lifter, the window and the sizes of a front end are, but for errors of the arithmetic.

use vstd::arithmetic::power2::{lemma_pow2_unfold, pow2};
use vstd::prelude::*;

use crate::cosines::{
    accurate, gap, lemma_constants, lemma_grows, lemma_inverse, lemma_number, lemma_powers,
    lemma_range, near, round, Circle,
};
use crate::mfcc::{
    is_angle, is_front_end, is_lift, is_window, lasts, no_front_end, MfccView, FRAME_SECONDS,
    LIFTER, POVEY, SHIFT_SECONDS,
};
use crate::single::{
    cosines, differences, indices, numbers, powers, products, quotients, rounded, sines, sums,
    Arith, HALF, ONE, PI, TWO,
};
use crate::values::{finite, lemma_exact, lemma_whole, power, size_of, value, whole};

verus! {

/// The error of one step, from the size of its result.
pub(crate) proof fn lemma_step(v: real, r: u32, t: real, m: real)
    requires
        near(v, r, t),
        -m <= v <= m,
        0real <= t,
    ensures
        finite(r),
        gap(value(r), v, t * (1real + m)),
{
    lemma_powers();
    assert(t * (1real + m) >= t * v && t * (1real + m) >= t && t * (1real + m) >= -t * v)
        by (nonlinear_arith)
        requires
            -m <= v <= m,
            0real <= t,
    ;
}

proof fn lemma_22()
    ensures
        finite(LIFTER) && value(LIFTER) == 22real,
{
    reveal_with_fuel(power, 25);
    assert(size_of(0x41b0_0000) == 0xb0_0000real * power(-19));
}

/// An angle in parts of half a circle: pi times `k`, over `n`.
proof fn lemma_part<A: Arith>(
    t: real,
    o: Circle,
    k: int,
    n: real,
    p: u32,
    q: u32,
    x: u32,
    y: u32,
    exact: real,
)
    requires
        accurate::<A>(t, o),
        round(o),
        0 <= k <= 0x80_0000,
        1real <= n <= 0x80_0000real,
        finite(x) && value(x) == k as real,
        finite(y) && value(y) == n,
        products::<A>(PI, x, p),
        quotients::<A>(p, y, q),
        exact * n == o.pi * (k as real),
    ensures
        finite(q),
        exact >= 0real,
        gap(value(q), exact, 4real * t * exact),
{
    lemma_powers();
    lemma_constants();
    let pv = value(PI);
    let kr = k as real;
    assert(exact == o.pi * kr / n) by (nonlinear_arith)
        requires
            exact * n == o.pi * kr,
            n >= 1real,
    ;
    if k == 0 {
        assert(pv * 0real == 0real) by (nonlinear_arith);
        lemma_whole(0);
        lemma_exact(0real, p);
        assert(0real / n == 0real) by (nonlinear_arith)
            requires
                n >= 1real,
        ;
        lemma_exact(0real, q);
        assert(exact == 0real) by (nonlinear_arith)
            requires
                exact * n == o.pi * kr,
                kr == 0real,
                n >= 1real,
        ;
        assert(4real * t * exact == 0real) by (nonlinear_arith)
            requires
                exact == 0real,
        ;
    } else {
        lemma_range(pv, o.pi, t, kr);
        assert(near(pv * kr, p, t));
        lemma_grows(pv, o.pi, t, kr, value(p), t);
        let a1 = o.pi * kr;
        let e1 = t + t + t * t;
        assert(0real <= e1 <= 2real * t + t / 50real) by (nonlinear_arith)
            requires
                e1 == t + t + t * t,
                0real <= t <= 1real / 100real,
        ;
        let w = value(p);
        let m = 1real / n;
        assert(a1 >= 3real && a1 <= 0x200_0000real) by (nonlinear_arith)
            requires
                a1 == o.pi * kr,
                3real < o.pi < 4real,
                1real <= kr <= 0x80_0000real,
        ;
        assert(1real / 0x80_0000real <= m <= 1real) by (nonlinear_arith)
            requires
                m == 1real / n,
                1real <= n <= 0x80_0000real,
        ;
        assert(a1 / 2real <= w <= 2real * a1) by (nonlinear_arith)
            requires
                -(e1 * a1) <= w - a1 <= e1 * a1,
                0real <= e1 <= 1real / 10real,
                a1 >= 3real,
        ;
        assert(w / n == w * m) by (nonlinear_arith)
            requires
                m == 1real / n,
                n >= 1real,
        ;
        assert(1real / 0x80_0000real <= w * m <= 0x400_0000real) by (nonlinear_arith)
            requires
                1real <= w <= 0x400_0000real,
                1real / 0x80_0000real <= m <= 1real,
        ;
        assert(near(w * m, q, t));
        lemma_grows(w, a1, e1, m, value(q), t);
        let e2 = e1 + t + t * e1;
        assert(0real <= e2 <= 4real * t) by (nonlinear_arith)
            requires
                e2 == e1 + t + t * e1,
                0real <= e1 <= 2real * t + t / 50real,
                0real <= t <= 1real / 100real,
        ;
        assert(a1 * m == exact && exact >= 0real) by (nonlinear_arith)
            requires
                exact * n == a1,
                m == 1real / n,
                n >= 1real,
                a1 >= 3real,
        ;
        assert(e2 * exact <= 4real * t * exact) by (nonlinear_arith)
            requires
                e2 <= 4real * t,
                exact >= 0real,
        ;
    }
}

/// Cepstrum `k` of a front end is lifted by 1 + 11 sin(pi k / 22), but for errors of the
/// arithmetic.
pub proof fn law_lifter<A: Arith>(
    t: real,
    o: Circle,
    sr: u32,
    bins: usize,
    ceps: usize,
    v: MfccView,
    k: int,
    angle: real,
)
    requires
        accurate::<A>(t, o),
        round(o),
        is_front_end::<A>(sr, bins, ceps, v),
        0 <= k < ceps && k <= 0x80_0000,
        angle * 22real == o.pi * (k as real),
    ensures
        v.lift.len() == ceps,
        finite(v.lift[k]),
        gap(
            value(v.lift[k]),
            1real + 11real * (o.sin)(angle),
            t * (40real + 44real * angle),
        ),
{
    let y = v.lift[k];
    let ku = k as usize;
    assert(is_lift::<A>(ku, y));
    let (g, x, p, q, s, h) = choose|g: u32, x: u32, p: u32, q: u32, s: u32, h: u32|
        #![trigger products::<A>(HALF, LIFTER, g), numbers::<A>(ku, x), products::<A>(PI, x, p),
            quotients::<A>(p, LIFTER, q), sines::<A>(q, s), products::<A>(g, s, h)]
        products::<A>(HALF, LIFTER, g) && numbers::<A>(ku, x) && products::<A>(PI, x, p)
            && quotients::<A>(p, LIFTER, q) && sines::<A>(q, s) && products::<A>(g, s, h)
            && sums::<A>(ONE, h, y);
    lemma_constants();
    lemma_powers();
    lemma_22();
    assert(1real / 2real * 22real == 11real) by (nonlinear_arith);
    lemma_whole(11);
    lemma_exact(11real, g);
    lemma_number::<A>(ku, x);
    lemma_part::<A>(t, o, k, 22real, p, q, x, LIFTER, angle);
    let (sv, e) = (value(s), 4real * t * angle);
    assert(gap((o.sin)(value(q)), (o.sin)(angle), e));
    let hv = 11real * sv;
    assert(-12real <= hv <= 12real);
    lemma_step(hv, h, t, 12real);
    let yv = 1real + value(h);
    assert(t * 13real <= 1real);
    lemma_step(yv, y, t, 14real);
    assert(t * 15real + t * 13real + 11real * (t + e) <= t * (40real + 44real * angle))
        by (nonlinear_arith)
        requires
            e == 4real * t * angle,
            t >= 0real,
    ;
}

proof fn lemma_window<A: Arith>(t: real, o: Circle, p: u32, c: u32, h: u32, d: u32, angle: real)
    requires
        accurate::<A>(t, o),
        round(o),
        finite(p),
        0real <= angle <= 8real,
        gap(value(p), angle, 5real * t * angle),
        cosines::<A>(p, c),
        products::<A>(HALF, c, h),
        differences::<A>(HALF, h, d),
    ensures
        finite(d),
        gap(value(d), 1real / 2real - (o.cos)(angle) / 2real, 26real * t),
{
    lemma_constants();
    lemma_powers();
    let e = 5real * t * angle;
    assert(0real <= e <= 40real * t) by (nonlinear_arith)
        requires
            e == 5real * t * angle,
            0real <= angle <= 8real,
            t >= 0real,
    ;
    assert(gap((o.cos)(value(p)), (o.cos)(angle), e));
    let cv = value(c);
    assert(gap(cv, (o.cos)(angle), 41real * t));
    let hv = 1real / 2real * cv;
    assert(hv == cv / 2real);
    assert(-3real / 4real <= hv <= 3real / 4real);
    lemma_step(hv, h, t, 3real / 4real);
    assert(t * (1real + 3real / 4real) <= 1real / 20real && t * (1real + 3real / 4real) == 7real
        / 4real * t);
    let dv = 1real / 2real - value(h);
    lemma_step(dv, d, t, 2real);
    assert(t * (1real + 2real) == 3real * t);
}

/// Entry `i` of the window of a front end is 1/2 - 1/2 cos(2 pi i / (n - 1)) to the power 0.85,
/// where the frame holds `n` samples: but for errors of the arithmetic, that is what the power is
/// taken of.
pub proof fn law_window_table<A: Arith>(
    t: real,
    o: Circle,
    sr: u32,
    bins: usize,
    ceps: usize,
    v: MfccView,
    i: int,
    angle: real,
) -> (taken: (u32, u32))
    requires
        accurate::<A>(t, o),
        round(o),
        is_front_end::<A>(sr, bins, ceps, v),
        2 <= v.frame_len <= 0x80_0000,
        0 <= i < v.frame_len,
        angle * ((v.frame_len - 1) as real) == 2real * o.pi * (i as real),
    ensures
        v.win.len() == v.frame_len,
        finite(taken.0),
        gap(value(taken.0), 1real / 2real - (o.cos)(angle) / 2real, 26real * t),
        gap(value(taken.1), 85real / 100real, 1real / 1000000real),
        powers::<A>(taken.0, taken.1, v.win[i]),
{
    let n = v.frame_len;
    let y = v.win[i];
    let iu = i as usize;
    let a = choose|a: u32| #[trigger]
        is_angle::<A>(n, a) && forall|i: int|
            0 <= i < n ==> is_window::<A>(a, i as usize, #[trigger] v.win[i]);
    assert(is_window::<A>(a, iu, v.win[i]));
    let (u, nx, d) = choose|t: u32, x: u32, d: u32|
        #![trigger products::<A>(TWO, PI, t), numbers::<A>(n, x), differences::<A>(x, ONE, d)]
        products::<A>(TWO, PI, t) && numbers::<A>(n, x) && differences::<A>(x, ONE, d)
            && quotients::<A>(t, d, a);
    let (x, p, c, h, b) = choose|x: u32, p: u32, c: u32, h: u32, d: u32|
        #![trigger numbers::<A>(iu, x), products::<A>(a, x, p), cosines::<A>(p, c),
            products::<A>(HALF, c, h), differences::<A>(HALF, h, d)]
        numbers::<A>(iu, x) && products::<A>(a, x, p) && cosines::<A>(p, c) && products::<A>(
            HALF,
            c,
            h,
        ) && differences::<A>(HALF, h, d) && powers::<A>(d, POVEY, y);
    lemma_constants();
    lemma_number::<A>(n, nx);
    lemma_number::<A>(iu, x);
    lemma_whole(n - 1);
    assert((n - 1) as real == n as int as real - 1real);
    lemma_exact((n - 1) as real, d);
    lemma_turn::<A>(t, o, n - 1, i, u, d, a, x, p, angle);
    lemma_window::<A>(t, o, p, c, h, b, angle);
    assert(gap(value(POVEY), 85real / 100real, 1real / 1000000real)) by {
        reveal_with_fuel(power, 25);
        assert(size_of(0x3f59_999a) == 0xd9_999areal * power(-24));
    }
    (b, POVEY)
}

/// An angle in parts of a circle: 2 pi over `n`, times `i`.
proof fn lemma_turn<A: Arith>(
    t: real,
    o: Circle,
    n: int,
    i: int,
    u: u32,
    d: u32,
    a: u32,
    x: u32,
    p: u32,
    exact: real,
)
    requires
        accurate::<A>(t, o),
        round(o),
        1 <= n <= 0x80_0000,
        0 <= i <= n,
        products::<A>(TWO, PI, u),
        finite(d) && value(d) == n as real,
        quotients::<A>(u, d, a),
        finite(x) && value(x) == i as real,
        products::<A>(a, x, p),
        exact * (n as real) == 2real * o.pi * (i as real),
    ensures
        finite(p),
        0real <= exact <= 8real,
        gap(value(p), exact, 5real * t * exact),
{
    lemma_powers();
    lemma_constants();
    lemma_inverse(n);
    let pv = value(PI);
    assert(2real <= pv <= 5real) by (nonlinear_arith)
        requires
            -(t * o.pi) <= pv - o.pi <= t * o.pi,
            3real < o.pi < 4real,
            0real <= t <= 1real / 100real,
    ;
    assert(2real * pv == pv * 2real);
    assert(near(pv * 2real, u, t));
    lemma_grows(pv, o.pi, t, 2real, value(u), t);
    let (a1, e1) = (o.pi * 2real, t + t + t * t);
    assert(0real <= e1 <= 2real * t + t / 50real) by (nonlinear_arith)
        requires
            e1 == t + t + t * t,
            0real <= t <= 1real / 100real,
    ;
    let m = 1real / (n as real);
    let w = value(u);
    assert(5real <= w <= 10real) by (nonlinear_arith)
        requires
            -(e1 * a1) <= w - a1 <= e1 * a1,
            0real <= e1 <= 1real / 40real,
            6real < a1 < 8real,
    ;
    assert(w / (n as real) == w * m) by (nonlinear_arith)
        requires
            m == 1real / (n as real),
            n > 0,
    ;
    assert(5real * m <= w * m <= 10real) by (nonlinear_arith)
        requires
            5real <= w <= 10real,
            0real < m <= 1real,
    ;
    assert(near(w * m, a, t));
    lemma_grows(w, a1, e1, m, value(a), t);
    let (a2, e2) = (a1 * m, e1 + t + t * e1);
    assert(0real <= e2 <= 3real * t + t / 10real) by (nonlinear_arith)
        requires
            e2 == e1 + t + t * e1,
            0real <= e1 <= 2real * t + t / 50real,
            0real <= t <= 1real / 100real,
    ;
    assert(m <= a2 <= 8real) by (nonlinear_arith)
        requires
            a2 == a1 * m,
            6real < a1 < 8real,
            0real < m <= 1real,
    ;
    let ir = i as real;
    assert(a2 * ir == exact) by (nonlinear_arith)
        requires
            exact * (n as real) == a1 * ir,
            m == 1real / (n as real),
            n > 0,
            a2 == a1 * m,
    ;
    assert(0real <= exact <= 8real) by (nonlinear_arith)
        requires
            exact * (n as real) == a1 * ir,
            0real <= ir <= n as real,
            n > 0,
            0real < a1 < 8real,
    ;
    let av = value(a);
    if i == 0 {
        assert(av * ir == 0real) by (nonlinear_arith)
            requires
                ir == 0real,
        ;
        lemma_whole(0);
        lemma_exact(0real, p);
        assert(exact == 0real) by (nonlinear_arith)
            requires
                a2 * ir == exact,
                ir == 0real,
        ;
        assert(5real * t * exact == 0real) by (nonlinear_arith)
            requires
                exact == 0real,
        ;
    } else {
        lemma_range(av, a2, e2, ir);
        assert(near(av * ir, p, t));
        lemma_grows(av, a2, e2, ir, value(p), t);
        let e3 = e2 + t + t * e2;
        assert(0real <= e3 <= 5real * t) by (nonlinear_arith)
            requires
                e3 == e2 + t + t * e2,
                0real <= e2 <= 3real * t + t / 10real,
                0real <= t <= 1real / 100real,
        ;
        assert(e3 * exact <= 5real * t * exact) by (nonlinear_arith)
            requires
                e3 <= 5real * t,
                exact >= 0real,
        ;
    }
}

/// The arithmetic rounds to whole numbers that are next, and reads whole numbers as they are.
pub open spec fn counts_well<A: Arith>() -> bool {
    &&& forall|a: u32, r: u32| #[trigger]
        rounded::<A>(a, r) && finite(a) && 0real <= value(a) <= 0x40_0000real ==> finite(r)
            && whole(value(r)) && value(r) >= 0real && gap(value(r), value(a), 1real / 2real)
    &&& forall|a: u32, n: usize| #[trigger]
        indices::<A>(a, n) && finite(a) && whole(value(a)) && 0real <= value(a) <= 0x80_0000real
            ==> n as int as real == value(a)
}

proof fn lemma_lasts<A: Arith>(t: real, o: Circle, seconds: u32, s: real, sr: u32, n: usize)
    requires
        accurate::<A>(t, o),
        counts_well::<A>(),
        lasts::<A>(seconds, sr, n),
        finite(seconds) && gap(value(seconds), s, 1real / 1000000000real),
        1real / 1000real <= s <= 1real,
        finite(sr) && 1real <= value(sr) <= 0x20_0000real,
    ensures
        gap(
            n as int as real,
            value(sr) * s,
            1real / 2real + t * (1real + value(sr)) + value(sr) / 1000000000real,
        ),
{
    lemma_powers();
    let (p, q) = choose|p: u32, q: u32|
        #![trigger products::<A>(seconds, sr, p), rounded::<A>(p, q)]
        products::<A>(seconds, sr, p) && rounded::<A>(p, q) && indices::<A>(q, n);
    let (f, r) = (value(seconds), value(sr));
    assert(0real <= f * r <= r * (1real + 1real / 1000000000real)) by (nonlinear_arith)
        requires
            0real <= f <= 1real + 1real / 1000000000real,
            r >= 1real,
    ;
    assert(1real / 2000real <= f * r) by (nonlinear_arith)
        requires
            1real / 2000real <= f,
            r >= 1real,
    ;
    assert(near(f * r, p, t));
    assert(gap(value(p), f * r, t * (f * r)));
    assert(t * (f * r) <= t * (1real + r) && t * (f * r) <= f * r / 100real) by (nonlinear_arith)
        requires
            0real <= t <= 1real / 100real,
            0real <= f * r <= r * (1real + 1real / 1000000000real),
            1real <= r <= 0x20_0000real,
    ;
    assert(gap(f * r, r * s, r / 1000000000real)) by (nonlinear_arith)
        requires
            -(1real / 1000000000real) <= f - s <= 1real / 1000000000real,
            r >= 1real,
    ;
}

/// There is a front end for every rate from 1 to 0x20_0000 samples per second.
pub proof fn law_front_end_made<A: Arith>(t: real, o: Circle, sr: u32, bins: usize)
    requires
        accurate::<A>(t, o),
        counts_well::<A>(),
        finite(sr) && 1real <= value(sr) <= 0x20_0000real,
        bins <= 0x80_0000,
    ensures
        !no_front_end::<A>(sr, bins),
{
    if no_front_end::<A>(sr, bins) {
        let n = choose|n: usize| #[trigger]
            lasts::<A>(FRAME_SECONDS, sr, n) && forall|j: nat| #[trigger]
                pow2(j) >= n ==> pow2(j) > usize::MAX;
        reveal_with_fuel(power, 31);
        assert(size_of(0x3ccc_cccd) == 0xcc_cccdreal * power(-29));
        lemma_lasts::<A>(t, o, FRAME_SECONDS, 25real / 1000real, sr, n);
        let r = value(sr);
        assert(t * (1real + r) <= (1real + r) / 100real) by (nonlinear_arith)
            requires
                t <= 1real / 100real,
                r >= 1real,
        ;
        assert((n as int as real) <= 0x40_0000real);
        vstd::arithmetic::power2::lemma2_to64();
        assert(pow2(23) == 0x80_0000);
    }
}

/// A frame of a front end lasts 25 milliseconds and the next begins 10 milliseconds after it, to
/// the nearest sample, but for errors of the arithmetic. The transform is as long as the frame, up
/// to the next power of two.
pub proof fn law_sizes<A: Arith>(
    t: real,
    o: Circle,
    sr: u32,
    bins: usize,
    ceps: usize,
    v: MfccView,
)
    requires
        accurate::<A>(t, o),
        counts_well::<A>(),
        is_front_end::<A>(sr, bins, ceps, v),
        finite(sr) && 1real <= value(sr) <= 0x20_0000real,
    ensures
        gap(
            v.frame_len as int as real,
            value(sr) * 25real / 1000real,
            1real / 2real + t * (1real + value(sr)) + value(sr) / 1000000000real,
        ),
        gap(
            v.frame_shift as int as real,
            value(sr) * 10real / 1000real,
            1real / 2real + t * (1real + value(sr)) + value(sr) / 1000000000real,
        ),
        v.fft_size >= v.frame_len,
        exists|k: nat| #[trigger] pow2(k) == v.fft_size,
        v.frame_len > 1 ==> v.fft_size < 2 * v.frame_len,
{
    reveal_with_fuel(power, 31);
    assert(size_of(0x3ccc_cccd) == 0xcc_cccdreal * power(-29));
    assert(size_of(0x3c23_d70a) == 0xa3_d70areal * power(-30));
    lemma_lasts::<A>(t, o, FRAME_SECONDS, 25real / 1000real, sr, v.frame_len);
    lemma_lasts::<A>(t, o, SHIFT_SECONDS, 10real / 1000real, sr, v.frame_shift);
    if v.frame_len > 1 && v.fft_size >= 2 * v.frame_len {
        let k = choose|k: nat| #[trigger] pow2(k) == v.fft_size;
        vstd::arithmetic::power2::lemma2_to64();
        if k == 0 {
            assert(false);
        }
        lemma_pow2_unfold(k);
        let j = (k - 1) as nat;
        assert(pow2(j) >= v.frame_len);
    }
}

} // verus!
