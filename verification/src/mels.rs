//! What the mel filters of a front end are, but for errors of the arithmetic: triangles of equal
//! width on the mel scale.

use vstd::prelude::*;

use crate::cosines::{accurate, gap, lemma_constants, lemma_number, lemma_powers, near, Circle};
use crate::mfcc::{
    bin_weight, is_bin, is_edge, is_filter, is_front_end, is_mel, is_spacing, is_weight, MfccView,
    HIGH, LOW, MEL_CORNER, MEL_FACTOR,
};
use crate::single::{differences, logarithms, numbers, products, quotients, sums, Arith, ONE, ZERO};
use crate::tables::lemma_step;
use crate::values::{finite, lemma_exact, lemma_order, lemma_whole, power, size_of, value};

verus! {

/// Logarithms of numbers that are neither small nor huge are not large.
pub open spec fn tame_logarithms<A: Arith>() -> bool {
    forall|a: u32, r: u32| #[trigger]
        logarithms::<A>(a, r) && finite(a) && 1real / 2real <= value(a) <= 0x100_0000real
            ==> finite(r) && -1real <= value(r) <= 24real
}

/// `y` is 1127 times the logarithm of 1 + f / 700, the mel frequency of `f` hertz, but for errors
/// of the arithmetic.
pub open spec fn on_mel_scale<A: Arith>(t: real, f: real, y: u32) -> bool {
    exists|s: u32, g: u32|
        {
            &&& finite(s)
            &&& gap(value(s), 1real + f / 700real, t * (4real + f / 100real))
            &&& #[trigger] logarithms::<A>(s, g)
            &&& finite(g)
            &&& finite(y)
            &&& gap(value(y), 1127real * value(g), 30000real * t)
        }
}

proof fn lemma_mel_constants()
    ensures
        finite(MEL_FACTOR) && value(MEL_FACTOR) == 1127real,
        finite(MEL_CORNER) && value(MEL_CORNER) == 700real,
        finite(LOW) && value(LOW) == 20real,
        finite(HIGH) && value(HIGH) == 7600real,
        finite(ZERO) && value(ZERO) == 0real,
{
    reveal_with_fuel(power, 25);
    assert(size_of(0x448c_e000) == 0x8c_e000real * power(-13));
    assert(size_of(0x442f_0000) == 0xaf_0000real * power(-14));
    assert(size_of(0x41a0_0000) == 0xa0_0000real * power(-19));
    assert(size_of(0x45ed_8000) == 0xed_8000real * power(-11));
    assert(0real * power(-149) == 0real) by (nonlinear_arith);
}

/// A frequency on the mel scale, from a pattern that stands for it but for the error `d`.
proof fn lemma_mel<A: Arith>(t: real, o: Circle, x: u32, f: real, y: u32)
    requires
        accurate::<A>(t, o),
        tame_logarithms::<A>(),
        is_mel::<A>(x, y),
        0real <= f <= 0x100_0000real,
        finite(x),
        value(x) >= 0real,
        gap(value(x), f, 3real * t * (1real + f)),
    ensures
        on_mel_scale::<A>(t, f, y),
        finite(y),
        -30000real <= value(y) <= 30000real,
{
    lemma_powers();
    lemma_constants();
    lemma_mel_constants();
    let (q, s, l) = choose|q: u32, s: u32, l: u32|
        #![trigger quotients::<A>(x, MEL_CORNER, q), sums::<A>(ONE, q, s), logarithms::<A>(s, l)]
        quotients::<A>(x, MEL_CORNER, q) && sums::<A>(ONE, q, s) && logarithms::<A>(s, l)
            && products::<A>(MEL_FACTOR, l, y);
    let xv = value(x);
    let e = 3real * t * (1real + f);
    assert(0real <= e <= (3real + 3real * f) / 100real) by (nonlinear_arith)
        requires
            e == 3real * t * (1real + f),
            0real <= t <= 1real / 100real,
            f >= 0real,
    ;
    let a = xv / 700real;
    let m = (f + e) / 700real;
    lemma_step(a, q, t, m);
    let d = t * (1real + m);
    assert(0real <= d <= (1real + m) / 100real) by (nonlinear_arith)
        requires
            d == t * (1real + m),
            0real <= t <= 1real / 100real,
            m >= 0real,
    ;
    let b = 1real + value(q);
    let n = 1real + m + d;
    assert(-n <= b <= n);
    lemma_step(b, s, t, n);
    let g = t * (1real + n);
    assert(0real <= g <= (1real + n) / 100real) by (nonlinear_arith)
        requires
            g == t * (1real + n),
            0real <= t <= 1real / 100real,
            n >= 0real,
    ;
    assert(e / 700real + d + g <= t * (4real + f / 100real)) by (nonlinear_arith)
        requires
            e == 3real * t * (1real + f),
            m == (f + e) / 700real,
            d == t * (1real + m),
            n == 1real + m + d,
            g == t * (1real + n),
            0real <= t <= 1real / 100real,
            0real <= f,
            e <= (3real + 3real * f) / 100real,
            d <= (1real + m) / 100real,
    ;
    assert(gap(value(s), 1real + f / 700real, t * (4real + f / 100real)));
    assert(1real / 2real <= value(s) <= 0x100_0000real);
    let lv = value(l);
    let z = 1127real * lv;
    lemma_step(z, y, t, 27048real);
    assert(t * (1real + 27048real) <= 30000real * t);
    assert(logarithms::<A>(s, l));
}

/// Edge `j` of the filters, between `low` and `high` on the mel scale.
pub open spec fn edge_of(low: real, high: real, bins: int, j: int) -> real {
    low + (j as real) * (high - low) / ((bins + 1) as real)
}

proof fn lemma_edge<A: Arith>(
    t: real,
    o: Circle,
    low: u32,
    high: u32,
    bins: usize,
    delta: u32,
    j: usize,
    y: u32,
)
    requires
        accurate::<A>(t, o),
        finite(low) && -30000real <= value(low) <= 30000real,
        finite(high) && -30000real <= value(high) <= 30000real,
        is_spacing::<A>(low, high, bins, delta),
        is_edge::<A>(low, delta, j, y),
        bins < 0x80_0000,
        j <= bins + 1,
    ensures
        finite(y),
        gap(
            value(y),
            edge_of(value(low), value(high), bins as int, j as int),
            t * 500000real * ((j + 1) as real),
        ),
        -1000000000000real <= value(y) <= 1000000000000real,
{
    lemma_powers();
    lemma_constants();
    let (d, x, n) = choose|d: u32, x: u32, n: u32|
        #![trigger differences::<A>(high, low, d), numbers::<A>(bins, x), sums::<A>(x, ONE, n)]
        differences::<A>(high, low, d) && numbers::<A>(bins, x) && sums::<A>(x, ONE, n)
            && quotients::<A>(d, n, delta);
    let (u, p) = choose|x: u32, p: u32|
        #![trigger numbers::<A>(j, x), products::<A>(x, delta, p)]
        numbers::<A>(j, x) && products::<A>(x, delta, p) && sums::<A>(low, p, y);
    lemma_number::<A>(bins, x);
    lemma_number::<A>(j, u);
    let nr = (bins + 1) as real;
    assert(nr == bins as int as real + 1real);
    lemma_whole(bins + 1);
    lemma_exact(nr, n);
    let (lv, hv) = (value(low), value(high));
    let dv = hv - lv;
    lemma_step(dv, d, t, 60000real);
    let e1 = t * 60001real;
    assert(e1 <= 601real);
    let qv = value(d) / nr;
    assert(-60601real <= qv <= 60601real) by (nonlinear_arith)
        requires
            -60601real <= value(d) <= 60601real,
            qv == value(d) / nr,
            nr >= 1real,
    ;
    lemma_step(qv, delta, t, 60601real);
    let e2 = t * 60602real;
    let exact = dv / nr;
    assert(gap(qv, exact, e1)) by (nonlinear_arith)
        requires
            -e1 <= value(d) - dv <= e1,
            qv == value(d) / nr,
            exact == dv / nr,
            nr >= 1real,
            e1 >= 0real,
    ;
    let jr = j as int as real;
    let w = value(delta);
    assert(-(60001real + e2 + e1) <= w <= 60001real + e1 + e2) by {
        assert(-60000real <= exact <= 60000real) by (nonlinear_arith)
            requires
                -60000real <= dv <= 60000real,
                exact == dv / nr,
                nr >= 1real,
        ;
    }
    let pv = jr * w;
    let m = jr * 70000real;
    assert(-m <= pv <= m) by (nonlinear_arith)
        requires
            -70000real <= w <= 70000real,
            jr >= 0real,
            pv == jr * w,
            m == jr * 70000real,
    ;
    assert(products::<A>(u, delta, p));
    lemma_step(pv, p, t, m);
    let e3 = t * (1real + m);
    assert(0real <= e3 <= (1real + m) / 100real) by (nonlinear_arith)
        requires
            e3 == t * (1real + m),
            0real <= t <= 1real / 100real,
            m >= 0real,
    ;
    let sv = lv + value(p);
    let k = 30000real + m + e3;
    lemma_step(sv, y, t, k);
    let e4 = t * (1real + k);
    let all = edge_of(lv, hv, bins as int, j as int);
    assert(all == lv + jr * exact) by (nonlinear_arith)
        requires
            all == lv + jr * dv / nr,
            exact == dv / nr,
            nr >= 1real,
    ;
    let je = jr * (e1 + e2);
    assert(-je <= jr * w - jr * exact <= je) by (nonlinear_arith)
        requires
            -(e1 + e2) <= w - exact <= e1 + e2,
            jr >= 0real,
            je == jr * (e1 + e2),
    ;
    assert(je + e3 + e4 <= t * 500000real * (jr + 1real)) by (nonlinear_arith)
        requires
            je == jr * (e1 + e2),
            e1 == t * 60001real,
            e2 == t * 60602real,
            e3 == t * (1real + m),
            e4 == t * (1real + k),
            k == 30000real + m + e3,
            e3 <= (1real + m) / 100real,
            m == jr * 70000real,
            t >= 0real,
            jr >= 0real,
    ;
    assert((j + 1) as real == jr + 1real);
    assert(-60000real <= jr * exact <= 60000real) by (nonlinear_arith)
        requires
            exact == dv / nr,
            -60000real <= dv <= 60000real,
            0real <= jr <= nr,
            nr >= 1real,
    ;
    assert(t * 500000real * (jr + 1real) <= 5000real * (jr + 1real)) by (nonlinear_arith)
        requires
            t <= 1real / 100real,
            jr >= 0real,
    ;
}

/// The part of a way, of length at least 1, that has been gone.
proof fn lemma_part<A: Arith>(t: real, o: Circle, p: u32, q: u32, y: u32, a: real, b: real)
    requires
        accurate::<A>(t, o),
        quotients::<A>(p, q, y),
        near(a, p, t),
        near(b, q, t),
        0real <= a <= b,
        1real <= b <= 1000000000000000real,
    ensures
        finite(y),
        gap(value(y), a / b, 8real * t),
{
    lemma_powers();
    let (pv, qv) = (value(p), value(q));
    assert(gap(qv, b, t * b));
    assert(t * b <= b / 100real && t * a <= t * b && t <= t * b) by (nonlinear_arith)
        requires
            0real <= t <= 1real / 100real,
            1real <= b,
            a <= b,
    ;
    assert(gap(pv, a, t * b));
    let r = pv / qv;
    assert(-2real <= r <= 2real) by (nonlinear_arith)
        requires
            r == pv / qv,
            qv >= 99real / 100real * b,
            -(b / 100real) <= pv <= 101real / 100real * b,
            b >= 1real,
    ;
    lemma_step(r, y, t, 2real);
    let x = a / b;
    assert(gap(r, x, 4real * t)) by (nonlinear_arith)
        requires
            r == pv / qv,
            x == a / b,
            -(t * b) <= pv - a <= t * b,
            -(t * b) <= qv - b <= t * b,
            qv >= 99real / 100real * b,
            0real <= a <= b,
            b >= 1real,
            0real <= t <= 1real / 100real,
    ;
    assert(t * (1real + 2real) + 4real * t <= 8real * t);
}

/// The weight of bin `i` of the transform in mel filter `m` of a front end with `bins` filters:
/// with edges `m`, `m + 1` and `m + 2` out of `bins + 2` at equal distances from 20 Hz to 7600 Hz on
/// the mel scale, it rises from 0 at the first to 1 at the second and falls to 0 at the third, at the
/// mel frequency of the bin, which is that of `i` times the rate over the size of the transform.
pub proof fn law_mel_filter<A: Arith>(
    t: real,
    o: Circle,
    sr: u32,
    bins: usize,
    ceps: usize,
    v: MfccView,
    m: int,
    i: int,
) -> (at: (u32, u32, u32, u32, u32, u32))
    requires
        accurate::<A>(t, o),
        tame_logarithms::<A>(),
        is_front_end::<A>(sr, bins, ceps, v),
        finite(sr) && 1real <= value(sr) <= 0x80_0000real,
        bins < 0x80_0000,
        0 < v.fft_size <= 0x80_0000,
        0 <= m < bins,
        0 <= i <= v.fft_size / 2,
    ensures
        v.filt.len() == bins && v.filt[m].len() == v.fft_size / 2 + 1,
        ({
            let (low, high, l, c, r, f) = at;
            let y = v.filt[m][i];
            &&& on_mel_scale::<A>(t, 20real, low)
            &&& on_mel_scale::<A>(t, 7600real, high)
            &&& on_mel_scale::<A>(
                t,
                (i as real) * value(sr) / (v.fft_size as int as real),
                f,
            )
            &&& gap(
                value(l),
                edge_of(value(low), value(high), bins as int, m),
                t * 500000real * ((m + 1) as real),
            )
            &&& gap(
                value(c),
                edge_of(value(low), value(high), bins as int, m + 1),
                t * 500000real * ((m + 2) as real),
            )
            &&& gap(
                value(r),
                edge_of(value(low), value(high), bins as int, m + 2),
                t * 500000real * ((m + 3) as real),
            )
            &&& value(f) <= value(l) ==> value(y) == 0real
            &&& value(f) >= value(r) ==> value(y) == 0real
            &&& value(l) < value(f) < value(r) && value(f) <= value(c) && value(c) - value(l)
                >= 1real ==> gap(
                value(y),
                (value(f) - value(l)) / (value(c) - value(l)),
                8real * t,
            )
            &&& value(l) < value(f) < value(r) && value(f) > value(c) && value(r) - value(c)
                >= 1real ==> gap(
                value(y),
                (value(r) - value(f)) / (value(r) - value(c)),
                8real * t,
            )
        }),
{
    lemma_mel_constants();
    let size = v.fft_size;
    let (low, high, delta) = choose|low: u32, high: u32, delta: u32|
        #![trigger is_mel::<A>(LOW, low), is_mel::<A>(HIGH, high),
            is_spacing::<A>(low, high, bins, delta)]
        {
            &&& is_mel::<A>(LOW, low)
            &&& is_mel::<A>(HIGH, high)
            &&& is_spacing::<A>(low, high, bins, delta)
            &&& forall|m: int|
                0 <= m < bins ==> is_filter::<A>(
                    sr,
                    size,
                    low,
                    delta,
                    m as usize,
                    #[trigger] v.filt[m],
                )
        };
    let mu = m as usize;
    let row = v.filt[m];
    assert(is_filter::<A>(sr, size, low, delta, mu, v.filt[m]));
    let (l, c, r) = choose|l: u32, c: u32, r: u32|
        #![trigger is_edge::<A>(low, delta, mu, l), is_edge::<A>(low, delta, (mu + 1) as usize, c),
            is_edge::<A>(low, delta, (mu + 2) as usize, r)]
        {
            &&& is_edge::<A>(low, delta, mu, l)
            &&& is_edge::<A>(low, delta, (mu + 1) as usize, c)
            &&& is_edge::<A>(low, delta, (mu + 2) as usize, r)
            &&& forall|i: int|
                0 <= i < row.len() ==> bin_weight::<A>(
                    sr,
                    size,
                    l,
                    c,
                    r,
                    i as usize,
                    #[trigger] row[i],
                )
        };
    let iu = i as usize;
    assert(bin_weight::<A>(sr, size, l, c, r, iu, row[i]));
    let f = choose|ml: u32| #[trigger]
        is_bin::<A>(sr, size, iu, ml) && is_weight::<A>(l, c, r, ml, row[i]);
    assert(3real * t * 21real >= 0real && 3real * t * 7601real >= 0real);
    lemma_mel::<A>(t, o, LOW, 20real, low);
    lemma_mel::<A>(t, o, HIGH, 7600real, high);
    lemma_edge::<A>(t, o, low, high, bins, delta, mu, l);
    lemma_edge::<A>(t, o, low, high, bins, delta, (mu + 1) as usize, c);
    lemma_edge::<A>(t, o, low, high, bins, delta, (mu + 2) as usize, r);
    lemma_bin::<A>(t, o, sr, size, iu, f);
    lemma_weight::<A>(t, o, l, c, r, f, row[i]);
    (low, high, l, c, r, f)
}

proof fn lemma_bin<A: Arith>(t: real, o: Circle, sr: u32, size: usize, i: usize, y: u32)
    requires
        accurate::<A>(t, o),
        tame_logarithms::<A>(),
        finite(sr) && 1real <= value(sr) <= 0x80_0000real,
        0 < size <= 0x80_0000,
        i <= size / 2,
        is_bin::<A>(sr, size, i, y),
    ensures
        on_mel_scale::<A>(t, (i as int as real) * value(sr) / (size as int as real), y),
        finite(y),
        -30000real <= value(y) <= 30000real,
{
    lemma_powers();
    let (n, q, x, p) = choose|n: u32, q: u32, x: u32, p: u32|
        #![trigger numbers::<A>(size, n), quotients::<A>(sr, n, q), numbers::<A>(i, x),
            products::<A>(q, x, p)]
        numbers::<A>(size, n) && quotients::<A>(sr, n, q) && numbers::<A>(i, x) && products::<A>(
            q,
            x,
            p,
        ) && is_mel::<A>(p, y);
    lemma_number::<A>(size, n);
    lemma_number::<A>(i, x);
    let (r, nr, ir) = (value(sr), size as int as real, i as int as real);
    let a = r / nr;
    assert(1real / 0x80_0000real <= a <= 0x80_0000real) by (nonlinear_arith)
        requires
            a == r / nr,
            1real <= r <= 0x80_0000real,
            1real <= nr <= 0x80_0000real,
    ;
    assert(near(a, q, t));
    let qv = value(q);
    assert(gap(qv, a, t * a));
    let f = ir * r / nr;
    assert(f == a * ir && 0real <= f <= r) by (nonlinear_arith)
        requires
            f == ir * r / nr,
            a == r / nr,
            nr >= 1real,
            0real <= ir <= nr,
            r >= 1real,
    ;
    let b = qv * ir;
    assert(-(t * f) <= b - f <= t * f) by (nonlinear_arith)
        requires
            -(t * a) <= qv - a <= t * a,
            f == a * ir,
            b == qv * ir,
            ir >= 0real,
    ;
    assert(0real <= t * f <= f / 100real) by (nonlinear_arith)
        requires
            0real <= t <= 1real / 100real,
            f >= 0real,
    ;
    if i == 0 {
        assert(b == 0real) by (nonlinear_arith)
            requires
                ir == 0real,
                b == qv * ir,
        ;
        lemma_whole(0);
        lemma_exact(0real, p);
        assert(f == 0real) by (nonlinear_arith)
            requires
                f == a * ir,
                ir == 0real,
        ;
    } else {
        assert(f >= a) by (nonlinear_arith)
            requires
                f == a * ir,
                ir >= 1real,
                a >= 0real,
        ;
        assert(near(b, p, t));
        assert(gap(value(p), b, t * b));
        assert(0real <= t * b <= b / 100real && t * b <= 2real * (t * f)) by (nonlinear_arith)
            requires
                0real <= t <= 1real / 100real,
                0real <= b <= 101real / 100real * f,
                f >= 0real,
        ;
    }
    assert(3real * t * (1real + f) >= 3real * (t * f)) by (nonlinear_arith)
        requires
            t >= 0real,
            f >= 0real,
    ;
    lemma_mel::<A>(t, o, p, f, y);
}

proof fn lemma_weight<A: Arith>(t: real, o: Circle, l: u32, c: u32, r: u32, f: u32, y: u32)
    requires
        accurate::<A>(t, o),
        finite(l) && finite(c) && finite(r) && finite(f),
        -30000real <= value(f) <= 30000real,
        is_weight::<A>(l, c, r, f, y),
    ensures
        value(f) <= value(l) ==> value(y) == 0real,
        value(f) >= value(r) ==> value(y) == 0real,
        value(l) < value(f) < value(r) && value(f) <= value(c) && value(c) - value(l) >= 1real
            && value(c) - value(l) <= 1000000000000000real ==> gap(
            value(y),
            (value(f) - value(l)) / (value(c) - value(l)),
            8real * t,
        ),
        value(l) < value(f) < value(r) && value(f) > value(c) && value(r) - value(c) >= 1real
            && value(r) - value(c) <= 1000000000000000real ==> gap(
            value(y),
            (value(r) - value(f)) / (value(r) - value(c)),
            8real * t,
        ),
{
    lemma_powers();
    lemma_mel_constants();
    lemma_order(l, f);
    lemma_order(f, r);
    lemma_order(f, c);
    lemma_order(f, l);
    lemma_order(r, f);
    if value(l) < value(f) < value(r) {
        if value(f) <= value(c) && 1real <= value(c) - value(l) <= 1000000000000000real {
            let (p, q) = choose|p: u32, q: u32|
                #![trigger differences::<A>(f, l, p), differences::<A>(c, l, q)]
                differences::<A>(f, l, p) && differences::<A>(c, l, q) && quotients::<A>(p, q, y);
            lemma_part::<A>(t, o, p, q, y, value(f) - value(l), value(c) - value(l));
        }
        if value(f) > value(c) && 1real <= value(r) - value(c) <= 1000000000000000real {
            let (p, q) = choose|p: u32, q: u32|
                #![trigger differences::<A>(r, f, p), differences::<A>(r, c, q)]
                differences::<A>(r, f, p) && differences::<A>(r, c, q) && quotients::<A>(p, q, y);
            lemma_part::<A>(t, o, p, q, y, value(r) - value(f), value(r) - value(c));
        }
    }
}

} // verus!
