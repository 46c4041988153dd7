//! What the cepstra of a frame are, step by step, in numbers.

use vstd::prelude::*;

use crate::cosines::{accurate, gap, lemma_number, lemma_powers, near, Circle};
use crate::layers::dot;
use crate::mat::MatView;
use crate::mfcc::{
    are_cepstra, emphasised, frame_at, is_cepstrum, is_conditioned, is_dot, is_emphasis, is_energy,
    is_frame, is_front_end, is_log_energy, is_log_mel, is_mean, is_mfcc, is_power, is_total,
    lowered, padded, pairwise, running, windowed, MfccView, FLOOR,
};
use crate::single::{
    differences, larger, logarithms, numbers, products, quotients, sums, transforms, Arith, ZERO,
};
use crate::tables::lemma_step;
use crate::values::{
    faithful, finite, is_int, lemma_exact, lemma_order, lemma_power, lemma_whole, power, rounds,
    size_of, value, whole,
};

verus! {

/// The sum of the first `n` numbers.
pub open spec fn sum_of(xs: Seq<u32>, n: int) -> real
    decreases n,
{
    if n <= 0 {
        0real
    } else {
        sum_of(xs, n - 1) + value(xs[n - 1])
    }
}

/// Whole numbers, none of them larger than `b` in size.
pub open spec fn all_whole(xs: Seq<u32>, b: real) -> bool {
    forall|i: int|
        0 <= i < xs.len() ==> finite(#[trigger] xs[i]) && whole(value(xs[i])) && -b <= value(xs[i])
            <= b
}

proof fn lemma_zero()
    ensures
        finite(ZERO) && value(ZERO) == 0real,
{
    assert(0real * power(-149) == 0real) by (nonlinear_arith);
}

proof fn lemma_whole_sum(a: real, b: real)
    requires
        whole(a),
        whole(b),
    ensures
        whole(a + b),
{
    let m = choose|m: int| #[trigger] is_int(a, m);
    let n = choose|n: int| #[trigger] is_int(b, n);
    assert(is_int(a + b, m + n));
}

proof fn lemma_small_whole(v: real, r: u32)
    requires
        rounds(v, r),
        whole(v),
        -0x100_0000real <= v <= 0x100_0000real,
    ensures
        finite(r),
        value(r) == v,
{
    let n = choose|n: int| #[trigger] is_int(v, n);
    lemma_whole(n);
    lemma_exact(v, r);
}

/// Whole numbers are added up exactly as long as the sums are not too large.
proof fn lemma_sum<A: Arith>(xs: Seq<u32>, ps: Seq<u32>, b: real, i: int)
    requires
        faithful::<A>(),
        running::<A>(xs, ps),
        all_whole(xs, b),
        b >= 0real,
        0 <= i <= xs.len(),
        (xs.len() as int as real) * b <= 0x100_0000real,
    ensures
        finite(ps[i]),
        value(ps[i]) == sum_of(xs, i),
        whole(value(ps[i])),
        -((i as real) * b) <= value(ps[i]) <= (i as real) * b,
    decreases i,
{
    if i == 0 {
        lemma_zero();
        assert(is_int(0real, 0));
        assert(0real * b == 0real) by (nonlinear_arith);
    } else {
        let j = i - 1;
        lemma_sum::<A>(xs, ps, b, j);
        assert(sums::<A>(ps[j], xs[j], ps[j + 1]));
        lemma_whole_sum(value(ps[j]), value(xs[j]));
        let (jr, ir, nr) = (j as real, i as real, xs.len() as int as real);
        assert(ir == jr + 1real);
        assert(jr * b + b == ir * b && ir * b <= nr * b) by (nonlinear_arith)
            requires
                ir == jr + 1real,
                ir <= nr,
                b >= 0real,
        ;
        lemma_small_whole(value(ps[j]) + value(xs[j]), ps[i]);
    }
}

/// The sizes of the first `n` products, added up.
pub open spec fn size_dot(a: Seq<u32>, b: Seq<u32>, n: nat) -> real
    decreases n,
{
    if n == 0 {
        0real
    } else {
        let p = value(a[n - 1]) * value(b[n - 1]);
        size_dot(a, b, (n - 1) as nat) + (if p < 0real {
            -p
        } else {
            p
        })
    }
}

/// Finite numbers, and sums of products of which the arithmetic is not at its limits.
pub open spec fn good_dot(t: real, a: Seq<u32>, b: Seq<u32>, n: nat) -> bool {
    &&& forall|i: int| 0 <= i < n ==> finite(#[trigger] a[i]) && finite(b[i])
    &&& size_dot(a, b, n) <= 0x1_0000_0000_0000real
    &&& 6real * t * (n as real) <= 1real
}

proof fn lemma_size_grows(a: Seq<u32>, b: Seq<u32>, i: nat, n: nat)
    requires
        i <= n,
    ensures
        0real <= size_dot(a, b, i) <= size_dot(a, b, n),
    decreases n,
{
    if i < n {
        lemma_size_grows(a, b, i, (n - 1) as nat);
    } else if n > 0 {
        lemma_size_grows(a, b, (n - 1) as nat, (n - 1) as nat);
    }
}

/// The error of a sum of `n` products: three parts of each.
proof fn lemma_dot_step<A: Arith>(
    t: real,
    o: Circle,
    a: Seq<u32>,
    b: Seq<u32>,
    xs: Seq<u32>,
    ps: Seq<u32>,
    n: nat,
    all: nat,
)
    requires
        accurate::<A>(t, o),
        pairwise::<A>(a, b, xs),
        running::<A>(xs, ps),
        n <= all <= xs.len(),
        good_dot(t, a, b, all),
    ensures
        finite(ps[n as int]),
        gap(
            value(ps[n as int]),
            dot(a, 0, b, 0, n),
            3real * t * (n as real) * (1real + size_dot(a, b, n)),
        ),
        -size_dot(a, b, n) <= dot(a, 0, b, 0, n) <= size_dot(a, b, n),
    decreases n,
{
    lemma_powers();
    if n == 0 {
        lemma_zero();
        assert(3real * t * 0real * (1real + size_dot(a, b, n)) == 0real) by (nonlinear_arith);
    } else {
        let j = n - 1;
        lemma_dot_step::<A>(t, o, a, b, xs, ps, j as nat, all);
        lemma_size_grows(a, b, j as nat, n);
        lemma_size_grows(a, b, n, all);
        let p = value(a[j]) * value(b[j]);
        let s = if p < 0real {
            -p
        } else {
            p
        };
        assert(products::<A>(a[j], b[j], xs[j]));
        lemma_step(p, xs[j], t, s);
        assert(sums::<A>(ps[j], xs[j], ps[j + 1]));
        let (jr, nr, size) = (j as real, n as real, size_dot(a, b, j as nat));
        let e = 3real * t * jr * (1real + size);
        let f = t * (1real + s);
        assert(nr == jr + 1real);
        assert(3real * t * jr <= 1real / 2real && 3real * t * jr >= 0real) by (nonlinear_arith)
            requires
                6real * t * (all as real) <= 1real,
                0real <= jr <= all as real,
                t >= 0real,
        ;
        assert(0real <= e <= (1real + size) / 2real) by (nonlinear_arith)
            requires
                e == 3real * t * jr * (1real + size),
                0real <= 3real * t * jr <= 1real / 2real,
                size >= 0real,
        ;
        assert(0real <= f <= (1real + s) / 100real) by (nonlinear_arith)
            requires
                f == t * (1real + s),
                0real <= t <= 1real / 100real,
                s >= 0real,
        ;
        let v = value(ps[j]) + value(xs[j]);
        let m = size + e + s + f;
        lemma_step(v, ps[n as int], t, m);
        let g = t * (1real + m);
        let u = 1real + size + s;
        assert(g <= 152real / 100real * (t * u)) by (nonlinear_arith)
            requires
                g == t * (1real + m),
                m == size + e + s + f,
                e <= (1real + size) / 2real,
                f <= (1real + s) / 100real,
                u == 1real + size + s,
                size >= 0real,
                s >= 0real,
                t >= 0real,
        ;
        assert(f <= t * u) by (nonlinear_arith)
            requires
                f == t * (1real + s),
                u == 1real + size + s,
                size >= 0real,
                t >= 0real,
        ;
        assert(e <= 3real * t * jr * u) by (nonlinear_arith)
            requires
                e == 3real * t * jr * (1real + size),
                3real * t * jr >= 0real,
                u == 1real + size + s,
                s >= 0real,
        ;
        assert(3real * t * jr * u + 3real * (t * u) == 3real * t * nr * u) by (nonlinear_arith)
            requires
                nr == jr + 1real,
        ;
        assert(t * u >= 0real) by (nonlinear_arith)
            requires
                t >= 0real,
                u >= 0real,
        ;
    }
}

/// As many numbers as both sequences hold.
pub open spec fn shorter(a: Seq<u32>, b: Seq<u32>) -> nat {
    if a.len() <= b.len() {
        a.len()
    } else {
        b.len()
    }
}

proof fn lemma_dot<A: Arith>(t: real, o: Circle, a: Seq<u32>, b: Seq<u32>, y: u32)
    requires
        accurate::<A>(t, o),
        is_dot::<A>(a, b, y),
        good_dot(t, a, b, shorter(a, b)),
    ensures
        finite(y),
        gap(
            value(y),
            dot(a, 0, b, 0, shorter(a, b)),
            3real * t * (shorter(a, b) as real) * (1real + size_dot(a, b, shorter(a, b))),
        ),
        -size_dot(a, b, shorter(a, b)) <= dot(a, 0, b, 0, shorter(a, b)) <= size_dot(
            a,
            b,
            shorter(a, b),
        ),
{
    let xs = choose|ps: Seq<u32>| #[trigger] pairwise::<A>(a, b, ps) && is_total::<A>(ps, y);
    let ps = choose|ps: Seq<u32>| #[trigger] running::<A>(xs, ps) && y == ps.last();
    lemma_dot_step::<A>(t, o, a, b, xs, ps, shorter(a, b), shorter(a, b));
}

/// The part of a frame that is left when its mean `mean` has been taken off each sample, and 0.97
/// of the sample before from each; before the first stands the first.
pub open spec fn high_part(frame: Seq<u32>, mean: real, i: int) -> real {
    let before = if i == 0 {
        0int
    } else {
        i - 1
    };
    (value(frame[i]) - mean) - 97real / 100real * (value(frame[before]) - mean)
}

/// The preemphasis is 0.97.
pub open spec fn emphasises(v: MfccView) -> bool {
    finite(v.preemph) && gap(value(v.preemph), 97real / 100real, 1real / 1000000real)
}

/// The preemphasis of every front end is 0.97.
pub proof fn law_preemphasis<A: Arith>(sr: u32, bins: usize, ceps: usize, v: MfccView)
    requires
        is_front_end::<A>(sr, bins, ceps, v),
    ensures
        emphasises(v),
{
    reveal_with_fuel(power, 25);
    assert(size_of(0x3f78_51ec) == 0xf8_51ecreal * power(-24));
}

/// One step of a signal: a number of size up to `m * b`.
proof fn lemma_signal(v: real, r: u32, t: real, m: real, b: real)
    requires
        near(v, r, t),
        -(m * b) <= v <= m * b,
        0real <= t,
        b >= 1real,
        m >= 0real,
    ensures
        finite(r),
        gap(value(r), v, (m + 1real) * (t * b)),
{
    let c = m * b;
    lemma_step(v, r, t, c);
    assert(t * (1real + c) <= (m + 1real) * (t * b)) by (nonlinear_arith)
        requires
            c == m * b,
            b >= 1real,
            t >= 0real,
    ;
}

proof fn lemma_lowered<A: Arith>(
    t: real,
    o: Circle,
    b: real,
    frame: Seq<u32>,
    avg: u32,
    mean: real,
    x: Seq<u32>,
    i: int,
)
    requires
        accurate::<A>(t, o),
        b >= 1real,
        b <= 0x100_0000real,
        all_whole(frame, b),
        finite(avg),
        gap(value(avg), mean, 2real * (t * b)),
        -b <= mean <= b,
        lowered::<A>(frame, avg, x),
        0 <= i < frame.len(),
    ensures
        finite(x[i]),
        gap(value(x[i]), value(frame[i]) - mean, 6real * (t * b)),
        -(21real / 10real * b) <= value(x[i]) <= 21real / 10real * b,
{
    lemma_powers();
    let e = t * b;
    assert(0real <= e <= b / 100real) by (nonlinear_arith)
        requires
            e == t * b,
            0real <= t <= 1real / 100real,
            b >= 1real,
    ;
    assert(differences::<A>(frame[i], avg, x[i]));
    let d = value(frame[i]) - value(avg);
    assert(-(203real / 100real * b) <= d <= 203real / 100real * b);
    lemma_signal(d, x[i], t, 203real / 100real, b);
    assert((203real / 100real + 1real) * e <= 4real * e) by (nonlinear_arith)
        requires
            e >= 0real,
    ;
}

proof fn lemma_emphasised<A: Arith>(
    t: real,
    o: Circle,
    b: real,
    v: MfccView,
    frame: Seq<u32>,
    mean: real,
    x: Seq<u32>,
    y: Seq<u32>,
    i: int,
)
    requires
        accurate::<A>(t, o),
        emphasises(v),
        b >= 1real,
        b <= 0x100_0000real,
        0 <= i < frame.len(),
        x.len() == frame.len(),
        emphasised::<A>(v.preemph, x, y),
        forall|j: int|
            0 <= j < x.len() ==> finite(#[trigger] x[j]) && gap(
                value(x[j]),
                value(frame[j]) - mean,
                6real * (t * b),
            ) && -(21real / 10real * b) <= value(x[j]) <= 21real / 10real * b,
    ensures
        finite(y[i]),
        gap(value(y[i]), high_part(frame, mean, i), 22real * (t * b) + b / 400000real),
        -(5real * b) <= value(y[i]) <= 5real * b,
{
    lemma_powers();
    let e = t * b;
    assert(0real <= e <= b / 100real) by (nonlinear_arith)
        requires
            e == t * b,
            0real <= t <= 1real / 100real,
            b >= 1real,
    ;
    let before = if i == 0 {
        0int
    } else {
        i - 1
    };
    let u = x[before];
    assert(is_emphasis::<A>(v.preemph, x[i], x[if i == 0 {
        0
    } else {
        i - 1
    }], y[i]));
    let p = choose|p: u32| #[trigger]
        products::<A>(v.preemph, u, p) && differences::<A>(x[i], p, y[i]);
    let (k, uv) = (value(v.preemph), value(u));
    let pv = k * uv;
    assert(-(21real / 10real * b) <= pv <= 21real / 10real * b) by (nonlinear_arith)
        requires
            0real <= k <= 1real,
            -(21real / 10real * b) <= uv <= 21real / 10real * b,
            b >= 1real,
            pv == k * uv,
    ;
    lemma_signal(pv, p, t, 21real / 10real, b);
    assert((21real / 10real + 1real) * e <= 4real * e) by (nonlinear_arith)
        requires
            e >= 0real,
    ;
    let d = value(x[i]) - value(p);
    assert(-(43real / 10real * b) <= d <= 43real / 10real * b);
    lemma_signal(d, y[i], t, 43real / 10real, b);
    assert((43real / 10real + 1real) * e <= 6real * e) by (nonlinear_arith)
        requires
            e >= 0real,
    ;
    let w = value(frame[before]) - mean;
    assert(gap(pv, 97real / 100real * uv, b / 400000real)) by (nonlinear_arith)
        requires
            pv == k * uv,
            -(1real / 1000000real) <= k - 97real / 100real <= 1real / 1000000real,
            -(21real / 10real * b) <= uv <= 21real / 10real * b,
            b >= 1real,
    ;
    assert(gap(97real / 100real * uv, 97real / 100real * w, 6real * e));
}

proof fn lemma_conditioned<A: Arith>(
    t: real,
    o: Circle,
    b: real,
    v: MfccView,
    frame: Seq<u32>,
    w: Seq<u32>,
    mean: real,
    i: int,
)
    requires
        accurate::<A>(t, o),
        emphasises(v),
        is_conditioned::<A>(v, frame, w),
        frame.len() == v.frame_len,
        0 < frame.len() <= 0x80_0000,
        b >= 1real,
        all_whole(frame, b),
        (frame.len() as int as real) * b <= 0x100_0000real,
        mean * (frame.len() as int as real) == sum_of(frame, frame.len() as int),
        0 <= i < frame.len(),
        finite(v.win[i]),
        -2real <= value(v.win[i]) <= 2real,
    ensures
        w.len() == frame.len(),
        finite(w[i]),
        gap(
            value(w[i]),
            value(v.win[i]) * high_part(frame, mean, i),
            60real * (t * b) + b / 100000real,
        ),
{
    lemma_powers();
    let n = v.frame_len;
    let nr = frame.len() as int as real;
    let e = t * b;
    assert(0real <= e <= b / 100real) by (nonlinear_arith)
        requires
            e == t * b,
            0real <= t <= 1real / 100real,
            b >= 1real,
    ;
    assert(b <= 0x100_0000real) by (nonlinear_arith)
        requires
            nr * b <= 0x100_0000real,
            nr >= 1real,
            b >= 1real,
    ;
    let (avg, x, y) = choose|mean: u32, x: Seq<u32>, y: Seq<u32>|
        #![trigger is_mean::<A>(frame, v.frame_len, mean), lowered::<A>(frame, mean, x),
            emphasised::<A>(v.preemph, x, y)]
        is_mean::<A>(frame, v.frame_len, mean) && lowered::<A>(frame, mean, x) && emphasised::<A>(
            v.preemph,
            x,
            y,
        ) && windowed::<A>(y, v.win, w);
    let (s, nx) = choose|s: u32, x: u32|
        #![trigger is_total::<A>(frame, s), numbers::<A>(n, x)]
        is_total::<A>(frame, s) && numbers::<A>(n, x) && quotients::<A>(s, x, avg);
    let ps = choose|ps: Seq<u32>| #[trigger] running::<A>(frame, ps) && s == ps.last();
    lemma_sum::<A>(frame, ps, b, frame.len() as int);
    lemma_number::<A>(n, nx);
    let sv = value(s);
    assert(sv / nr == mean && -b <= mean <= b) by (nonlinear_arith)
        requires
            mean * nr == sv,
            -(nr * b) <= sv <= nr * b,
            nr >= 1real,
    ;
    assert(1real * b == b);
    lemma_signal(mean, avg, t, 1real, b);
    assert forall|j: int| 0 <= j < x.len() implies finite(#[trigger] x[j]) && gap(
        value(x[j]),
        value(frame[j]) - mean,
        6real * (t * b),
    ) && -(21real / 10real * b) <= value(x[j]) <= 21real / 10real * b by {
        lemma_lowered::<A>(t, o, b, frame, avg, mean, x, j);
    }
    lemma_emphasised::<A>(t, o, b, v, frame, mean, x, y, i);
    assert(products::<A>(y[i], v.win[i], w[i]));
    let (yv, g, h) = (value(y[i]), value(v.win[i]), high_part(frame, mean, i));
    let p = yv * g;
    assert(-(10real * b) <= p <= 10real * b) by (nonlinear_arith)
        requires
            -(5real * b) <= yv <= 5real * b,
            -2real <= g <= 2real,
            b >= 1real,
            p == yv * g,
    ;
    lemma_signal(p, w[i], t, 10real, b);
    let d = 22real * e + b / 400000real;
    assert(gap(p, g * h, 2real * d)) by (nonlinear_arith)
        requires
            p == yv * g,
            -d <= yv - h <= d,
            -2real <= g <= 2real,
            d >= 0real,
    ;
}

/// The steps from the samples of a frame to its cepstra.
pub ghost struct Steps {
    /// Samples under the window.
    pub shaped: Seq<u32>,
    /// Their Fourier transform.
    pub spectrum: Seq<(u32, u32)>,
    /// The power of each bin of the transform.
    pub power: Seq<u32>,
    /// The energy in each mel filter.
    pub energy: Seq<u32>,
    /// What the logarithm is taken of.
    pub floored: Seq<u32>,
    /// The logarithm of each energy.
    pub log: Seq<u32>,
}

/// The steps of a frame: its mean is taken off, and 0.97 of the sample before off each sample; the
/// rest is multiplied by the window, filled up with zeros and transformed. The squared real and
/// imaginary part of a bin add up to its power. The power, weighted by a mel filter, adds up to an
/// energy, of which the logarithm is taken, or that of 2 to the power -23 where it is less. The
/// logarithms, weighted by a row of the cosine transform, add up to a cepstrum, which is lifted.
/// All this but for errors of the arithmetic. Samples are whole numbers.
pub proof fn law_steps<A: Arith>(
    t: real,
    o: Circle,
    v: MfccView,
    frame: Seq<u32>,
    out: Seq<u32>,
    b: real,
    mean: real,
) -> (st: Steps)
    requires
        accurate::<A>(t, o),
        emphasises(v),
        is_frame::<A>(v, frame, out),
        frame.len() == v.frame_len,
        0 < frame.len() <= 0x80_0000,
        b >= 1real,
        mean * (frame.len() as int as real) == sum_of(frame, frame.len() as int),
    ensures
        st.shaped.len() == frame.len(),
        all_whole(frame, b) && (frame.len() as int as real) * b <= 0x100_0000real ==> forall|i: int|
            0 <= i < frame.len() && finite(v.win[i]) && -2real <= value(v.win[i]) <= 2real ==> gap(
                value(#[trigger] st.shaped[i]),
                value(v.win[i]) * high_part(frame, mean, i),
                60real * (t * b) + b / 100000real,
            ),
        st.spectrum.len() == v.fft_size,
        transforms::<A>(
            Seq::new(
                v.fft_size as nat,
                |i: int|
                    if i < frame.len() {
                        (st.shaped[i], 0u32)
                    } else {
                        (0u32, 0u32)
                    },
            ),
            st.spectrum,
        ),
        st.power.len() == v.fft_size / 2 + 1,
        forall|i: int|
            #![trigger st.power[i]]
            0 <= i < st.power.len() ==> {
                let (re, im) = (value(st.spectrum[i].0), value(st.spectrum[i].1));
                let q = re * re + im * im;
                finite(st.spectrum[i].0) && finite(st.spectrum[i].1) && q
                    <= 0x1_0000_0000_0000real ==> finite(st.power[i]) && gap(
                    value(st.power[i]),
                    q,
                    t * (4real + 3real * q),
                )
            },
        st.energy.len() == v.filt.len(),
        forall|m: int|
            #![trigger st.energy[m]]
            0 <= m < v.filt.len() ==> {
                let n = shorter(v.filt[m], st.power);
                good_dot(t, v.filt[m], st.power, n) ==> finite(st.energy[m]) && gap(
                    value(st.energy[m]),
                    dot(v.filt[m], 0, st.power, 0, n),
                    3real * t * (n as real) * (1real + size_dot(v.filt[m], st.power, n)),
                )
            },
        st.floored.len() == v.filt.len(),
        forall|m: int|
            #![trigger st.floored[m]]
            0 <= m < v.filt.len() && finite(st.energy[m]) ==> finite(st.floored[m]) && value(
                st.floored[m],
            ) == (if value(st.energy[m]) >= power(-23) {
                value(st.energy[m])
            } else {
                power(-23)
            }),
        st.log.len() == v.filt.len(),
        forall|m: int|
            0 <= m < v.filt.len() ==> logarithms::<A>(st.floored[m], #[trigger] st.log[m]),
        out.len() == v.num_ceps,
        forall|k: int|
            #![trigger out[k]]
            0 <= k < v.num_ceps ==> {
                let n = shorter(v.dct[k], st.log);
                good_dot(t, v.dct[k], st.log, n) && finite(v.lift[k]) && -16real <= value(v.lift[k])
                    <= 16real && n > 0 ==> finite(out[k]) && gap(
                    value(out[k]),
                    dot(v.dct[k], 0, st.log, 0, n) * value(v.lift[k]),
                    80real * t * (n as real) * (1real + size_dot(v.dct[k], st.log, n)),
                )
            },
{
    let size = v.fft_size as nat;
    let n = (v.fft_size / 2 + 1) as nat;
    let bins = v.filt.len();
    let (w, s, p, lm) = choose|w: Seq<u32>, s: Seq<(u32, u32)>, p: Seq<u32>, lm: Seq<u32>|
        #![trigger is_conditioned::<A>(v, frame, w), transforms::<A>(padded(w, size), s),
            is_power::<A>(s, n, p), is_log_mel::<A>(v.filt, p, lm)]
        {
            &&& is_conditioned::<A>(v, frame, w)
            &&& transforms::<A>(padded(w, size), s)
            &&& s.len() == v.fft_size
            &&& is_power::<A>(s, n, p)
            &&& is_log_mel::<A>(v.filt, p, lm)
            &&& are_cepstra::<A>(v, lm, out)
        };
    assert(w.len() == frame.len());
    if all_whole(frame, b) && (frame.len() as int as real) * b <= 0x100_0000real {
        assert forall|i: int|
            0 <= i < frame.len() && finite(v.win[i]) && -2real <= value(v.win[i])
                <= 2real implies gap(
            value(#[trigger] w[i]),
            value(v.win[i]) * high_part(frame, mean, i),
            60real * (t * b) + b / 100000real,
        ) by {
            lemma_conditioned::<A>(t, o, b, v, frame, w, mean, i);
        }
    }
    assert(padded(w, size) =~= Seq::new(
        size,
        |i: int|
            if i < frame.len() {
                (w[i], 0u32)
            } else {
                (0u32, 0u32)
            },
    ));
    assert forall|i: int| #![trigger p[i]] 0 <= i < p.len() implies is_energy::<A>(s[i], p[i]) by {}
    let e = Seq::new(
        bins,
        |m: int|
            choose|e: u32| #[trigger]
                is_dot::<A>(v.filt[m], p, e) && logarithms::<A>(larger(e, FLOOR), lm[m]),
    );
    let f = Seq::new(bins, |m: int| larger(e[m], FLOOR));
    assert forall|m: int| 0 <= m < bins implies is_dot::<A>(v.filt[m], p, #[trigger] e[m])
        && logarithms::<A>(f[m], lm[m]) by {
        assert(is_log_energy::<A>(v.filt[m], p, lm[m]));
    }
    let st = Steps { shaped: w, spectrum: s, power: p, energy: e, floored: f, log: lm };
    assert forall|i: int| #![trigger st.power[i]] 0 <= i < st.power.len() implies ({
        let (re, im) = (value(st.spectrum[i].0), value(st.spectrum[i].1));
        let q = re * re + im * im;
        finite(st.spectrum[i].0) && finite(st.spectrum[i].1) && q <= 0x1_0000_0000_0000real
            ==> finite(st.power[i]) && gap(value(st.power[i]), q, t * (4real + 3real * q))
    }) by {
        lemma_energy::<A>(t, o, s[i], p[i]);
    }
    assert forall|m: int| #![trigger st.energy[m]] 0 <= m < bins implies ({
        let n = shorter(v.filt[m], st.power);
        good_dot(t, v.filt[m], st.power, n) ==> finite(st.energy[m]) && gap(
            value(st.energy[m]),
            dot(v.filt[m], 0, st.power, 0, n),
            3real * t * (n as real) * (1real + size_dot(v.filt[m], st.power, n)),
        )
    }) by {
        assert(is_dot::<A>(v.filt[m], p, e[m]));
        if good_dot(t, v.filt[m], p, shorter(v.filt[m], p)) {
            lemma_dot::<A>(t, o, v.filt[m], p, e[m]);
        }
    }
    assert forall|m: int|
        #![trigger st.floored[m]]
        0 <= m < bins && finite(st.energy[m]) implies finite(st.floored[m]) && value(st.floored[m])
        == (if value(st.energy[m]) >= power(-23) {
        value(st.energy[m])
    } else {
        power(-23)
    }) by {
        lemma_floor(e[m]);
    }
    assert forall|m: int| 0 <= m < bins implies logarithms::<A>(f[m], #[trigger] lm[m]) by {
        assert(is_dot::<A>(v.filt[m], p, e[m]));
    }
    assert forall|k: int| #![trigger out[k]] 0 <= k < v.num_ceps implies ({
        let n = shorter(v.dct[k], st.log);
        good_dot(t, v.dct[k], st.log, n) && finite(v.lift[k]) && -16real <= value(v.lift[k])
            <= 16real && n > 0 ==> finite(out[k]) && gap(
            value(out[k]),
            dot(v.dct[k], 0, st.log, 0, n) * value(v.lift[k]),
            80real * t * (n as real) * (1real + size_dot(v.dct[k], st.log, n)),
        )
    }) by {
        assert(is_cepstrum::<A>(v.dct[k], lm, v.lift[k], out[k]));
        lemma_cepstrum::<A>(t, o, v.dct[k], lm, v.lift[k], out[k]);
    }
    st
}

/// Row `i` of the cepstra of an utterance is that of the frame that begins `i` shifts after the
/// first sample. There are as many rows as frames that end with the utterance or before.
pub proof fn law_row_of_frame<A: Arith>(
    v: MfccView,
    samples: Seq<u32>,
    y: MatView,
    i: int,
    frame: Seq<u32>,
)
    requires
        is_mfcc::<A>(v, samples, y),
        v.frame_shift > 0,
    ensures
        y.c == v.num_ceps,
        samples.len() < v.frame_len ==> y.r == 0,
        samples.len() >= v.frame_len ==> y.r > 0 && (y.r - 1) * v.frame_shift + v.frame_len
            <= samples.len() < y.r * v.frame_shift + v.frame_len,
        0 <= i < y.r && frame.len() == v.frame_len && (forall|j: int|
            0 <= j < frame.len() ==> #[trigger] frame[j] == samples[i * v.frame_shift + j])
            ==> is_frame::<A>(v, frame, y.d.subrange(i * y.c, i * y.c + y.c)),
{
    let (n, l, s) = (samples.len() as int, v.frame_len as int, v.frame_shift as int);
    if n >= l {
        vstd::arithmetic::div_mod::lemma_fundamental_div_mod(n - l, s);
        vstd::arithmetic::div_mod::lemma_mod_bound(n - l, s);
        vstd::arithmetic::div_mod::lemma_div_pos_is_pos(n - l, s);
        let q = (n - l) / s;
        assert(y.r == q + 1);
        assert(q * s <= n - l < (q + 1) * s) by (nonlinear_arith)
            requires
                n - l == s * q + (n - l) % s,
                0 <= (n - l) % s < s,
        ;
    }
    if 0 <= i < y.r && frame.len() == v.frame_len && (forall|j: int|
        0 <= j < frame.len() ==> #[trigger] frame[j] == samples[i * v.frame_shift + j]) {
        assert(is_frame::<A>(v, frame_at(v, samples, i), y.row(i)));
        assert((i * s) + l <= n) by (nonlinear_arith)
            requires
                i <= y.r - 1,
                (y.r - 1) * s + l <= n,
                s > 0,
        ;
        assert(0 <= i * s) by (nonlinear_arith)
            requires
                i >= 0,
                s > 0,
        ;
        assert(frame_at(v, samples, i) =~= frame);
    }
}

proof fn lemma_cepstrum<A: Arith>(
    t: real,
    o: Circle,
    row: Seq<u32>,
    lm: Seq<u32>,
    lift: u32,
    y: u32,
)
    requires
        accurate::<A>(t, o),
        is_cepstrum::<A>(row, lm, lift, y),
    ensures
        ({
            let n = shorter(row, lm);
            good_dot(t, row, lm, n) && finite(lift) && -16real <= value(lift) <= 16real && n > 0
                ==> finite(y) && gap(
                value(y),
                dot(row, 0, lm, 0, n) * value(lift),
                80real * t * (n as real) * (1real + size_dot(row, lm, n)),
            )
        }),
{
    let n = shorter(row, lm);
    let c = choose|c: u32| #[trigger] is_dot::<A>(row, lm, c) && products::<A>(c, lift, y);
    if good_dot(t, row, lm, n) && finite(lift) && -16real <= value(lift) <= 16real && n > 0 {
        lemma_powers();
        lemma_dot::<A>(t, o, row, lm, c);
        lemma_size_grows(row, lm, 0, n);
        let (d, s, l, cv, nr) = (
            dot(row, 0, lm, 0, n),
            size_dot(row, lm, n),
            value(lift),
            value(c),
            n as real,
        );
        let e = 3real * t * nr * (1real + s);
        assert(0real <= e <= (1real + s) / 2real) by (nonlinear_arith)
            requires
                e == 3real * t * nr * (1real + s),
                6real * t * nr <= 1real,
                t >= 0real,
                nr >= 1real,
                s >= 0real,
        ;
        let p = cv * l;
        let m = 24real * (1real + s);
        assert(-m <= p <= m) by (nonlinear_arith)
            requires
                p == cv * l,
                -(3real / 2real * (1real + s)) <= cv <= 3real / 2real * (1real + s),
                -16real <= l <= 16real,
                m == 24real * (1real + s),
                s >= 0real,
        ;
        lemma_step(p, y, t, m);
        assert(gap(p, d * l, 16real * e)) by (nonlinear_arith)
            requires
                p == cv * l,
                -e <= cv - d <= e,
                -16real <= l <= 16real,
                e >= 0real,
        ;
        assert(t * (1real + m) + 16real * e <= 80real * t * nr * (1real + s)) by (nonlinear_arith)
            requires
                m == 24real * (1real + s),
                e == 3real * t * nr * (1real + s),
                t >= 0real,
                nr >= 1real,
                s >= 0real,
        ;
    }
}

proof fn lemma_floor(e: u32)
    requires
        finite(e),
    ensures
        finite(larger(e, FLOOR)),
        value(larger(e, FLOOR)) == (if value(e) >= power(-23) {
            value(e)
        } else {
            power(-23)
        }),
{
    lemma_power(-23);
    assert(size_of(0x3400_0000) == 0x80_0000real * power(-46));
    crate::values::lemma_power_sum(-46, 23);
    assert(power(23) == 0x80_0000real) by {
        reveal_with_fuel(power, 24);
    }
    assert(value(FLOOR) == power(-23)) by (nonlinear_arith)
        requires
            value(FLOOR) == 0x80_0000real * power(-46),
            power(-23) == power(-46) * power(23),
            power(23) == 0x80_0000real,
    ;
    lemma_order(e, FLOOR);
    lemma_order(FLOOR, e);
}

proof fn lemma_energy<A: Arith>(t: real, o: Circle, z: (u32, u32), y: u32)
    requires
        accurate::<A>(t, o),
        is_energy::<A>(z, y),
    ensures
        ({
            let (re, im) = (value(z.0), value(z.1));
            let q = re * re + im * im;
            finite(z.0) && finite(z.1) && q <= 0x1_0000_0000_0000real ==> finite(y) && gap(
                value(y),
                q,
                t * (4real + 3real * q),
            )
        }),
{
    let (a, b) = choose|a: u32, b: u32|
        #![trigger products::<A>(z.0, z.0, a), products::<A>(z.1, z.1, b)]
        products::<A>(z.0, z.0, a) && products::<A>(z.1, z.1, b) && sums::<A>(a, b, y);
    let (re, im) = (value(z.0), value(z.1));
    let (c, d) = (re * re, im * im);
    let q = c + d;
    if finite(z.0) && finite(z.1) && q <= 0x1_0000_0000_0000real {
        lemma_powers();
        assert(c >= 0real && d >= 0real) by (nonlinear_arith)
            requires
                c == re * re,
                d == im * im,
        ;
        lemma_step(c, a, t, c);
        lemma_step(d, b, t, d);
        let e = t * (1real + c) + t * (1real + d);
        assert(e == t * (2real + q) && 0real <= e <= (2real + q) / 100real) by (nonlinear_arith)
            requires
                e == t * (1real + c) + t * (1real + d),
                q == c + d,
                c >= 0real,
                d >= 0real,
                0real <= t <= 1real / 100real,
        ;
        let m = q + e;
        lemma_step(value(a) + value(b), y, t, m);
        assert(t * (1real + m) + e <= t * (4real + 3real * q)) by (nonlinear_arith)
            requires
                m == q + e,
                e == t * (2real + q),
                e <= (2real + q) / 100real,
                q >= 0real,
                t >= 0real,
        ;
    }
}

} // verus!
