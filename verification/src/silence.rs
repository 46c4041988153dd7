//! The cepstra of silence are finite numbers, in arithmetic that keeps sizes as rounding does.

use vstd::prelude::*;

use crate::cepstra::is_level;
use crate::mat::MatView;
use crate::mfcc::{
    are_cepstra, emphasised, frame_at, is_cepstrum, is_conditioned, is_dot, is_emphasis, is_energy,
    is_frame, is_log_energy, is_log_mel, is_mean, is_mfcc, is_power, is_total, lowered, padded,
    pairwise, running, windowed, MfccView, FLOOR,
};
use crate::single::{
    differences, is_nan, key, larger, less, logarithms, negation, products, sums, transforms, Arith,
    INFINITY, ZERO,
};

verus! {

/// A number that is not infinite.
pub open spec fn finite(x: u32) -> bool {
    less(x, INFINITY) && less(negation(INFINITY), x)
}

/// Zero, with either sign.
pub open spec fn is_zero(x: u32) -> bool {
    !is_nan(x) && key(x) == 0
}

/// A number whose size is at most two to the power `i`, which is the pattern `127 + i` in the bits
/// of the exponent.
pub open spec fn sized(x: u32, i: int) -> bool {
    !is_nan(x) && -0x80_0000 * (127 + i) <= key(x) <= 0x80_0000 * (127 + i)
}

/// Rounding does not lead beyond a power of two: the product of two numbers is no greater than the
/// product of the bounds on their sizes, and their sum is no greater than twice the bound on both.
pub open spec fn keeps_size<A: Arith>() -> bool {
    &&& forall|a: u32, b: u32, r: u32, i: int, j: int|
        #![trigger products::<A>(a, b, r), sized(a, i), sized(b, j)]
        products::<A>(a, b, r) && sized(a, i) && sized(b, j) && 0 <= i && 0 <= j && i + j <= 127
            ==> sized(r, i + j)
    &&& forall|a: u32, b: u32, r: u32, i: int|
        #![trigger sums::<A>(a, b, r), sized(a, i), sized(b, i)]
        sums::<A>(a, b, r) && sized(a, i) && sized(b, i) && 0 <= i < 127 ==> sized(r, i + 1)
}

/// Nothing comes of nothing: a product in which one number is zero and the other finite is zero,
/// the sum and the difference of zeros are, and so is the Fourier transform of zeros.
pub open spec fn keeps_zero<A: Arith>() -> bool {
    &&& forall|a: u32, b: u32, r: u32| #[trigger]
        products::<A>(a, b, r) && ((is_zero(a) && finite(b)) || (finite(a) && is_zero(b)))
            ==> is_zero(r)
    &&& forall|a: u32, b: u32, r: u32| #[trigger]
        sums::<A>(a, b, r) && is_zero(a) && is_zero(b) ==> is_zero(r)
    &&& forall|a: u32, b: u32, r: u32| #[trigger]
        differences::<A>(a, b, r) && is_zero(a) && is_zero(b) ==> is_zero(r)
    &&& forall|x: Seq<(u32, u32)>, y: Seq<(u32, u32)>| #[trigger]
        transforms::<A>(x, y) && all_zero(x) ==> all_zero(y)
}

/// Complex numbers that are all zero.
pub open spec fn all_zero(x: Seq<(u32, u32)>) -> bool {
    forall|i: int| 0 <= i < x.len() ==> is_zero((#[trigger] x[i]).0) && is_zero(x[i].1)
}

/// Numbers that are all zero.
spec fn zeros(x: Seq<u32>) -> bool {
    forall|i: int| 0 <= i < x.len() ==> is_zero(#[trigger] x[i])
}

/// The size of the logarithm of the floor is at most 32; it is about -16.
pub open spec fn small_floor<A: Arith>() -> bool {
    forall|l: u32| #[trigger] logarithms::<A>(FLOOR, l) ==> sized(l, 5)
}

/// A front end with tables of ordinary numbers: the window and the filters are finite, there are
/// no more than a hundred filters, the entries of the cosine transform are at most 1 in size, and
/// the factors of the lifter at most 32.
pub open spec fn ordinary(v: MfccView) -> bool {
    &&& v.fft_size > 0
    &&& finite(v.preemph)
    &&& v.win.len() >= v.frame_len
    &&& forall|i: int| 0 <= i < v.win.len() ==> finite(#[trigger] v.win[i])
    &&& v.filt.len() <= 100
    &&& forall|m: int, i: int|
        0 <= m < v.filt.len() && 0 <= i < v.filt[m].len() ==> finite(#[trigger] v.filt[m][i])
    &&& forall|k: int, i: int|
        0 <= k < v.num_ceps && 0 <= i < v.dct[k].len() ==> sized(#[trigger] v.dct[k][i], 0)
    &&& forall|k: int| 0 <= k < v.num_ceps ==> sized(#[trigger] v.lift[k], 5)
}

proof fn lemma_zero_total<A: Arith>(xs: Seq<u32>, ps: Seq<u32>, i: int)
    requires
        keeps_zero::<A>(),
        zeros(xs),
        running::<A>(xs, ps),
        0 <= i <= xs.len(),
    ensures
        is_zero(ps[i]),
    decreases i,
{
    if i > 0 {
        lemma_zero_total::<A>(xs, ps, i - 1);
        assert(sums::<A>(ps[i - 1], xs[i - 1], ps[i - 1 + 1]));
        assert(is_zero(xs[i - 1]));
    }
}

/// A filter hears nothing in nothing.
proof fn lemma_zero_dot<A: Arith>(a: Seq<u32>, b: Seq<u32>, y: u32)
    requires
        keeps_zero::<A>(),
        forall|i: int| 0 <= i < a.len() ==> finite(#[trigger] a[i]),
        zeros(b),
        is_dot::<A>(a, b, y),
    ensures
        is_zero(y),
{
    let ps = choose|ps: Seq<u32>| #[trigger] pairwise::<A>(a, b, ps) && is_total::<A>(ps, y);
    assert(zeros(ps)) by {
        assert forall|i: int| 0 <= i < ps.len() implies is_zero(#[trigger] ps[i]) by {
            assert(products::<A>(a[i], b[i], ps[i]));
            assert(finite(a[i]) && is_zero(b[i]));
        }
    }
    let qs = choose|qs: Seq<u32>| #[trigger] running::<A>(ps, qs) && y == qs.last();
    lemma_zero_total::<A>(ps, qs, ps.len() as int);
}

proof fn lemma_sized_total<A: Arith>(xs: Seq<u32>, ps: Seq<u32>, i: int)
    requires
        keeps_size::<A>(),
        forall|k: int| 0 <= k < xs.len() ==> sized(#[trigger] xs[k], 5),
        xs.len() <= 100,
        running::<A>(xs, ps),
        0 <= i <= xs.len(),
    ensures
        sized(ps[i], 5 + i),
    decreases i,
{
    if i > 0 {
        lemma_sized_total::<A>(xs, ps, i - 1);
        assert(sums::<A>(ps[i - 1], xs[i - 1], ps[i - 1 + 1]));
        assert(sized(xs[i - 1], 5));
        assert(sized(ps[i - 1], 4 + i) && sized(xs[i - 1], 4 + i));
    }
}

/// A cepstrum of logarithms of ordinary size is finite.
proof fn lemma_cepstrum<A: Arith>(row: Seq<u32>, lm: Seq<u32>, lift: u32, y: u32)
    requires
        keeps_size::<A>(),
        forall|i: int| 0 <= i < row.len() ==> sized(#[trigger] row[i], 0),
        forall|i: int| 0 <= i < lm.len() ==> sized(#[trigger] lm[i], 5),
        lm.len() <= 100,
        sized(lift, 5),
        is_cepstrum::<A>(row, lm, lift, y),
    ensures
        finite(y),
{
    let c = choose|c: u32| #[trigger] is_dot::<A>(row, lm, c) && products::<A>(c, lift, y);
    let ps = choose|ps: Seq<u32>| #[trigger] pairwise::<A>(row, lm, ps) && is_total::<A>(ps, c);
    assert forall|i: int| 0 <= i < ps.len() implies sized(#[trigger] ps[i], 5) by {
        assert(products::<A>(row[i], lm[i], ps[i]));
        assert(sized(row[i], 0) && sized(lm[i], 5));
    }
    let qs = choose|qs: Seq<u32>| #[trigger] running::<A>(ps, qs) && c == qs.last();
    let n = ps.len() as int;
    lemma_sized_total::<A>(ps, qs, n);
    assert(sized(c, 5 + n) && sized(lift, 5));
    assert(sized(y, 5 + n + 5));
}

/// A level frame comes to nothing under the window.
proof fn lemma_conditioned<A: Arith>(v: MfccView, f: Seq<u32>, c: u32, w: Seq<u32>)
    requires
        keeps_zero::<A>(),
        ordinary(v),
        is_level::<A>(v, f, c),
        is_conditioned::<A>(v, f, w),
    ensures
        zeros(w),
        w.len() == f.len(),
{
    let (mean, x, y) = choose|mean: u32, x: Seq<u32>, y: Seq<u32>|
        #![trigger is_mean::<A>(f, v.frame_len, mean), lowered::<A>(f, mean, x),
            emphasised::<A>(v.preemph, x, y)]
        is_mean::<A>(f, v.frame_len, mean) && lowered::<A>(f, mean, x) && emphasised::<A>(
            v.preemph,
            x,
            y,
        ) && windowed::<A>(y, v.win, w);
    assert(mean == c);
    assert forall|i: int| 0 <= i < x.len() implies #[trigger] x[i] == ZERO by {
        assert(f[i] == c);
        assert(differences::<A>(f[i], mean, x[i]));
    }
    assert forall|i: int| 0 <= i < w.len() implies is_zero(#[trigger] w[i]) by {
        let before = x[if i == 0 {
            0
        } else {
            i - 1
        }];
        assert(before == ZERO && x[i] == ZERO);
        assert(is_emphasis::<A>(v.preemph, x[i], before, y[i]));
        let q = choose|q: u32| #[trigger]
            products::<A>(v.preemph, before, q) && differences::<A>(x[i], q, y[i]);
        assert(is_zero(q));
        assert(is_zero(y[i]));
        assert(products::<A>(y[i], v.win[i], w[i]));
        assert(finite(v.win[i]));
    }
}

/// Silence has finite cepstra, and so has any frame whose samples are all the same, if the
/// arithmetic takes their mean exactly: nothing is left of it but the floor under the energies.
pub proof fn law_silence<A: Arith>(
    v: MfccView,
    samples: Seq<u32>,
    y: MatView,
    t: int,
    c: u32,
    k: int,
)
    requires
        keeps_size::<A>(),
        keeps_zero::<A>(),
        small_floor::<A>(),
        ordinary(v),
        is_mfcc::<A>(v, samples, y),
        0 <= t < y.r,
        is_level::<A>(v, frame_at(v, samples, t), c),
        0 <= k < v.num_ceps,
    ensures
        finite(y.row(t)[k]),
{
    let f = frame_at(v, samples, t);
    let out = y.row(t);
    let size = v.fft_size as nat;
    let n = (v.fft_size / 2 + 1) as nat;
    assert(is_frame::<A>(v, f, out));
    let (w, s, p, lm) = choose|w: Seq<u32>, s: Seq<(u32, u32)>, p: Seq<u32>, lm: Seq<u32>|
        #![trigger is_conditioned::<A>(v, f, w), transforms::<A>(padded(w, size), s),
            is_power::<A>(s, n, p), is_log_mel::<A>(v.filt, p, lm)]
        {
            &&& is_conditioned::<A>(v, f, w)
            &&& transforms::<A>(padded(w, size), s)
            &&& s.len() == v.fft_size
            &&& is_power::<A>(s, n, p)
            &&& is_log_mel::<A>(v.filt, p, lm)
            &&& are_cepstra::<A>(v, lm, out)
        };
    lemma_conditioned::<A>(v, f, c, w);
    assert(all_zero(padded(w, size)));
    assert(all_zero(s));
    assert(zeros(p)) by {
        assert forall|i: int| 0 <= i < p.len() implies is_zero(#[trigger] p[i]) by {
            let z = s[i];
            assert(is_energy::<A>(s[i], p[i]));
            let (a, b) = choose|a: u32, b: u32|
                #![trigger products::<A>(z.0, z.0, a), products::<A>(z.1, z.1, b)]
                products::<A>(z.0, z.0, a) && products::<A>(z.1, z.1, b) && sums::<A>(a, b, p[i]);
            assert(is_zero(z.0) && is_zero(z.1));
            assert(finite(z.0) && finite(z.1));
        }
    }
    assert forall|m: int| 0 <= m < lm.len() implies sized(#[trigger] lm[m], 5) by {
        assert(is_log_energy::<A>(v.filt[m], p, lm[m]));
        let e = choose|e: u32| #[trigger]
            is_dot::<A>(v.filt[m], p, e) && logarithms::<A>(larger(e, FLOOR), lm[m]);
        assert forall|i: int| 0 <= i < v.filt[m].len() implies finite(
            #[trigger] v.filt[m][i],
        ) by {}
        lemma_zero_dot::<A>(v.filt[m], p, e);
        assert(larger(e, FLOOR) == FLOOR);
    }
    let row = v.dct[k];
    assert(is_cepstrum::<A>(v.dct[k], lm, v.lift[k], out[k]));
    assert forall|i: int| 0 <= i < row.len() implies sized(#[trigger] row[i], 0) by {
        assert(sized(v.dct[k][i], 0));
    }
    lemma_cepstrum::<A>(row, lm, v.lift[k], out[k]);
}

} // verus!
