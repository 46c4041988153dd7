//! Kaldi-compatible MFCC front end.
//!
//! No energy, low 20 / high 7600 Hz, povey window, preemphasis 0.97, cepstral lifter 22, edges
//! snipped, DC removed, no dither, transform size a power of two. How many mel bins and cepstra
//! there are a model's settings say; where they do not, there are 40 of each. Samples are in
//! Kaldi's 16-bit range.

use vstd::arithmetic::power2::{lemma_pow2_strictly_increases, lemma_pow2_unfold, pow2};
use vstd::prelude::*;
use vstd::slice::slice_subrange;

use crate::conf::{get_count, is_count};
use crate::mat::{append, lemma_within, EvalError, Mat, MatView};
use crate::single::{
    at_most, cosines, differences, indices, larger, le, less, logarithms, lt, max, numbers, powers,
    products, quotients, roots, rounded, sines, sums, transforms, Arith, HALF, ONE, PI, TWO, ZERO,
};

verus! {

/// Mel bins, and cepstra, where settings do not say how many.
pub const USUAL: usize = 40;

/// The same as a number.
pub const USUAL_NUMBER: u32 = 0x4220_0000;

/// The lowest frequency, 20 Hz.
pub const LOW: u32 = 0x41a0_0000;

/// The highest frequency, 7600 Hz.
pub const HIGH: u32 = 0x45ed_8000;

/// The preemphasis, 0.97.
pub const PREEMPH: u32 = 0x3f78_51ec;

/// The cepstral lifter, 22.
pub const LIFTER: u32 = 0x41b0_0000;

/// The length of a frame, 0.025 seconds.
pub const FRAME_SECONDS: u32 = 0x3ccc_cccd;

/// The distance of two frames, 0.010 seconds.
pub const SHIFT_SECONDS: u32 = 0x3c23_d70a;

/// The exponent of the window, 0.85.
pub const POVEY: u32 = 0x3f59_999a;

/// The smallest energy, 2 to the power -23.
pub const FLOOR: u32 = 0x3400_0000;

/// 1127.
pub const MEL_FACTOR: u32 = 0x448c_e000;

/// 700.
pub const MEL_CORNER: u32 = 0x442f_0000;

/// `y` is the mel frequency of `f`: 1127 ln(1 + f / 700).
pub open spec fn is_mel<A: Arith>(f: u32, y: u32) -> bool {
    exists|q: u32, s: u32, l: u32|
        #![trigger quotients::<A>(f, MEL_CORNER, q), sums::<A>(ONE, q, s), logarithms::<A>(s, l)]
        quotients::<A>(f, MEL_CORNER, q) && sums::<A>(ONE, q, s) && logarithms::<A>(s, l)
            && products::<A>(MEL_FACTOR, l, y)
}

fn mel<A: Arith>(f: u32) -> (y: u32)
    ensures
        is_mel::<A>(f, y),
{
    let q: u32 = A::div(f, MEL_CORNER);
    let s: u32 = A::add(ONE, q);
    let l: u32 = A::ln(s);
    assert(quotients::<A>(f, MEL_CORNER, q) && sums::<A>(ONE, q, s) && logarithms::<A>(s, l));
    A::mul(MEL_FACTOR, l)
}

/// `n` samples last `seconds` at the rate `sr`, rounded.
pub open spec fn lasts<A: Arith>(seconds: u32, sr: u32, n: usize) -> bool {
    exists|p: u32, q: u32|
        #![trigger products::<A>(seconds, sr, p), rounded::<A>(p, q)]
        products::<A>(seconds, sr, p) && rounded::<A>(p, q) && indices::<A>(q, n)
}

fn duration<A: Arith>(seconds: u32, sr: u32) -> (n: usize)
    ensures
        lasts::<A>(seconds, sr, n),
{
    let p: u32 = A::mul(seconds, sr);
    let q: u32 = A::round(p);
    assert(products::<A>(seconds, sr, p) && rounded::<A>(p, q));
    A::to_usize(q)
}

/// `size` is the least power of two that is no less than `n`.
pub open spec fn is_fft_size(n: nat, size: nat) -> bool {
    &&& n <= size
    &&& exists|k: nat| #[trigger] pow2(k) == size
    &&& forall|j: nat| #[trigger] pow2(j) >= n ==> pow2(j) >= size
}

/// The least power of two that is no less than `n`, if it is an index.
fn fft_size_for(n: usize) -> (r: Option<usize>)
    ensures
        match r {
            Some(size) => is_fft_size(n as nat, size as nat) && size > 0,
            None => forall|j: nat| #[trigger] pow2(j) >= n ==> pow2(j) > usize::MAX,
        },
{
    let mut size: usize = 1;
    let ghost mut k: nat = 0;
    proof {
        vstd::arithmetic::power2::lemma2_to64();
    }
    assert forall|j: nat| #[trigger] pow2(j) >= n implies pow2(j) >= 1 by {
        vstd::arithmetic::power2::lemma_pow2_pos(j);
    }
    while size < n
        invariant
            size == pow2(k),
            size > 0,
            forall|j: nat| #[trigger] pow2(j) >= n ==> pow2(j) >= size,
        decreases usize::MAX - size,
    {
        proof {
            lemma_pow2_unfold(k + 1);
            assert forall|j: nat| #[trigger] pow2(j) >= n implies pow2(j) >= 2 * size by {
                if j <= k {
                    if j < k {
                        lemma_pow2_strictly_increases(j, k);
                    }
                } else if j > k + 1 {
                    lemma_pow2_strictly_increases(k + 1, j);
                }
            }
        }
        if size > usize::MAX / 2 {
            return None;
        }
        size = 2 * size;
        proof {
            k = k + 1;
        }
    }
    Some(size)
}

/// `a` is the angle between two samples of a window of `n`.
pub open spec fn is_angle<A: Arith>(n: usize, a: u32) -> bool {
    exists|t: u32, x: u32, d: u32|
        #![trigger products::<A>(TWO, PI, t), numbers::<A>(n, x), differences::<A>(x, ONE, d)]
        products::<A>(TWO, PI, t) && numbers::<A>(n, x) && differences::<A>(x, ONE, d)
            && quotients::<A>(t, d, a)
}

fn angle<A: Arith>(n: usize) -> (a: u32)
    ensures
        is_angle::<A>(n, a),
{
    let t: u32 = A::mul(TWO, PI);
    let x: u32 = A::from_usize(n);
    let d: u32 = A::sub(x, ONE);
    assert(products::<A>(TWO, PI, t) && numbers::<A>(n, x) && differences::<A>(x, ONE, d));
    A::div(t, d)
}

/// `y` is entry `i` of the window: (0.5 - 0.5 cos(a i)) to the power 0.85.
pub open spec fn is_window<A: Arith>(a: u32, i: usize, y: u32) -> bool {
    exists|x: u32, p: u32, c: u32, h: u32, d: u32|
        #![trigger numbers::<A>(i, x), products::<A>(a, x, p), cosines::<A>(p, c),
            products::<A>(HALF, c, h), differences::<A>(HALF, h, d)]
        numbers::<A>(i, x) && products::<A>(a, x, p) && cosines::<A>(p, c) && products::<A>(
            HALF,
            c,
            h,
        ) && differences::<A>(HALF, h, d) && powers::<A>(d, POVEY, y)
}

fn window_value<A: Arith>(a: u32, i: usize) -> (y: u32)
    ensures
        is_window::<A>(a, i, y),
{
    let x: u32 = A::from_usize(i);
    let p: u32 = A::mul(a, x);
    let c: u32 = A::cos(p);
    let h: u32 = A::mul(HALF, c);
    let d: u32 = A::sub(HALF, h);
    assert(numbers::<A>(i, x) && products::<A>(a, x, p) && cosines::<A>(p, c));
    assert(products::<A>(HALF, c, h) && differences::<A>(HALF, h, d));
    A::pow(d, POVEY)
}

/// The window of `n` samples.
pub open spec fn window_of<A: Arith>(n: usize, win: Seq<u32>) -> bool {
    &&& win.len() == n
    &&& exists|a: u32| #[trigger]
        is_angle::<A>(n, a) && forall|i: int|
            0 <= i < n ==> is_window::<A>(a, i as usize, #[trigger] win[i])
}

fn window<A: Arith>(n: usize) -> (win: Vec<u32>)
    ensures
        window_of::<A>(n, win@),
{
    let a: u32 = angle::<A>(n);
    let mut win: Vec<u32> = Vec::new();
    let mut i: usize = 0;
    while i < n
        invariant
            i <= n,
            win@.len() == i,
            forall|j: int| 0 <= j < i ==> is_window::<A>(a, j as usize, #[trigger] win@[j]),
        decreases n - i,
    {
        win.push(window_value::<A>(a, i));
        i = i + 1;
    }
    win
}

/// `y` is the mel frequency `m` steps above `low`.
pub open spec fn is_edge<A: Arith>(low: u32, delta: u32, m: usize, y: u32) -> bool {
    exists|x: u32, p: u32|
        #![trigger numbers::<A>(m, x), products::<A>(x, delta, p)]
        numbers::<A>(m, x) && products::<A>(x, delta, p) && sums::<A>(low, p, y)
}

fn edge<A: Arith>(low: u32, delta: u32, m: usize) -> (y: u32)
    ensures
        is_edge::<A>(low, delta, m, y),
{
    let x: u32 = A::from_usize(m);
    let p: u32 = A::mul(x, delta);
    assert(numbers::<A>(m, x) && products::<A>(x, delta, p));
    A::add(low, p)
}

/// `y` is the mel frequency of bin `i` of a transform of `size` samples at the rate `sr`.
pub open spec fn is_bin<A: Arith>(sr: u32, size: usize, i: usize, y: u32) -> bool {
    exists|n: u32, q: u32, x: u32, p: u32|
        #![trigger numbers::<A>(size, n), quotients::<A>(sr, n, q), numbers::<A>(i, x),
            products::<A>(q, x, p)]
        numbers::<A>(size, n) && quotients::<A>(sr, n, q) && numbers::<A>(i, x) && products::<A>(
            q,
            x,
            p,
        ) && is_mel::<A>(p, y)
}

fn bin<A: Arith>(sr: u32, size: usize, i: usize) -> (y: u32)
    ensures
        is_bin::<A>(sr, size, i, y),
{
    let n: u32 = A::from_usize(size);
    let q: u32 = A::div(sr, n);
    let x: u32 = A::from_usize(i);
    let p: u32 = A::mul(q, x);
    assert(numbers::<A>(size, n) && quotients::<A>(sr, n, q));
    assert(numbers::<A>(i, x) && products::<A>(q, x, p));
    mel::<A>(p)
}

/// `y` is how far `x` has come on the way from `a` to `b`.
pub open spec fn is_ratio<A: Arith>(x: u32, a: u32, b: u32, y: u32) -> bool {
    exists|p: u32, q: u32|
        #![trigger differences::<A>(x, a, p), differences::<A>(b, a, q)]
        differences::<A>(x, a, p) && differences::<A>(b, a, q) && quotients::<A>(p, q, y)
}

/// `y` is how far `x` still has to go on the way from `a` to `b`.
pub open spec fn is_rest<A: Arith>(x: u32, a: u32, b: u32, y: u32) -> bool {
    exists|p: u32, q: u32|
        #![trigger differences::<A>(b, x, p), differences::<A>(b, a, q)]
        differences::<A>(b, x, p) && differences::<A>(b, a, q) && quotients::<A>(p, q, y)
}

/// `y` is the weight at `ml` of a triangle over `l`, `c` and `r`.
pub open spec fn is_weight<A: Arith>(l: u32, c: u32, r: u32, ml: u32, y: u32) -> bool {
    if less(l, ml) && less(ml, r) {
        if at_most(ml, c) {
            is_ratio::<A>(ml, l, c, y)
        } else {
            is_rest::<A>(ml, c, r, y)
        }
    } else {
        y == ZERO
    }
}

fn weight<A: Arith>(l: u32, c: u32, r: u32, ml: u32) -> (y: u32)
    ensures
        is_weight::<A>(l, c, r, ml, y),
{
    if lt(l, ml) && lt(ml, r) {
        if le(ml, c) {
            let p: u32 = A::sub(ml, l);
            let q: u32 = A::sub(c, l);
            assert(differences::<A>(ml, l, p) && differences::<A>(c, l, q));
            A::div(p, q)
        } else {
            let p: u32 = A::sub(r, ml);
            let q: u32 = A::sub(r, c);
            assert(differences::<A>(r, ml, p) && differences::<A>(r, c, q));
            A::div(p, q)
        }
    } else {
        ZERO
    }
}

/// `y` is the weight of bin `i` in a triangle.
pub open spec fn bin_weight<A: Arith>(
    sr: u32,
    size: usize,
    l: u32,
    c: u32,
    r: u32,
    i: usize,
    y: u32,
) -> bool {
    exists|ml: u32| #[trigger] is_bin::<A>(sr, size, i, ml) && is_weight::<A>(l, c, r, ml, y)
}

/// `row` is mel filter `m`: the triangle over three edges, at the bins of the transform.
pub open spec fn is_filter<A: Arith>(
    sr: u32,
    size: usize,
    low: u32,
    delta: u32,
    m: usize,
    row: Seq<u32>,
) -> bool {
    &&& row.len() == size / 2 + 1
    &&& exists|l: u32, c: u32, r: u32|
        #![trigger is_edge::<A>(low, delta, m, l), is_edge::<A>(low, delta, (m + 1) as usize, c),
            is_edge::<A>(low, delta, (m + 2) as usize, r)]
        {
            &&& is_edge::<A>(low, delta, m, l)
            &&& is_edge::<A>(low, delta, (m + 1) as usize, c)
            &&& is_edge::<A>(low, delta, (m + 2) as usize, r)
            &&& forall|i: int|
                0 <= i < row.len() ==> bin_weight::<A>(
                    sr,
                    size,
                    l,
                    c,
                    r,
                    i as usize,
                    #[trigger] row[i],
                )
        }
}

fn filter<A: Arith>(sr: u32, size: usize, low: u32, delta: u32, m: usize) -> (row: Vec<u32>)
    requires
        m + 2 <= usize::MAX,
        size > 0,
    ensures
        is_filter::<A>(sr, size, low, delta, m, row@),
{
    let l: u32 = edge::<A>(low, delta, m);
    let c: u32 = edge::<A>(low, delta, m + 1);
    let r: u32 = edge::<A>(low, delta, m + 2);
    let nbins: usize = size / 2 + 1;
    let mut row: Vec<u32> = Vec::new();
    let mut i: usize = 0;
    while i < nbins
        invariant
            i <= nbins,
            row@.len() == i,
            forall|j: int|
                0 <= j < i ==> bin_weight::<A>(sr, size, l, c, r, j as usize, #[trigger] row@[j]),
        decreases nbins - i,
    {
        let ml: u32 = bin::<A>(sr, size, i);
        let y: u32 = weight::<A>(l, c, r, ml);
        assert(bin_weight::<A>(sr, size, l, c, r, i, y));
        row.push(y);
        i = i + 1;
    }
    assert(is_edge::<A>(low, delta, m, l) && is_edge::<A>(low, delta, (m + 1) as usize, c)
        && is_edge::<A>(low, delta, (m + 2) as usize, r));
    row
}

/// `delta` is the distance of the edges of `bins` mel bins between `low` and `high`.
pub open spec fn is_spacing<A: Arith>(low: u32, high: u32, bins: usize, delta: u32) -> bool {
    exists|d: u32, x: u32, n: u32|
        #![trigger differences::<A>(high, low, d), numbers::<A>(bins, x), sums::<A>(x, ONE, n)]
        differences::<A>(high, low, d) && numbers::<A>(bins, x) && sums::<A>(x, ONE, n)
            && quotients::<A>(d, n, delta)
}

fn spacing<A: Arith>(low: u32, high: u32, bins: usize) -> (delta: u32)
    ensures
        is_spacing::<A>(low, high, bins, delta),
{
    let d: u32 = A::sub(high, low);
    let x: u32 = A::from_usize(bins);
    let n: u32 = A::add(x, ONE);
    assert(differences::<A>(high, low, d) && numbers::<A>(bins, x) && sums::<A>(x, ONE, n));
    A::div(d, n)
}

/// What vectors hold, one by one.
pub open spec fn rows(vs: Seq<Vec<u32>>) -> Seq<Seq<u32>> {
    Seq::new(vs.len(), |i: int| vs[i]@)
}

/// `filt` are `bins` mel filters between the lowest and the highest frequency.
pub open spec fn filters_of<A: Arith>(
    sr: u32,
    size: usize,
    bins: usize,
    filt: Seq<Seq<u32>>,
) -> bool {
    &&& filt.len() == bins
    &&& exists|low: u32, high: u32, delta: u32|
        #![trigger is_mel::<A>(LOW, low), is_mel::<A>(HIGH, high),
            is_spacing::<A>(low, high, bins, delta)]
        {
            &&& is_mel::<A>(LOW, low)
            &&& is_mel::<A>(HIGH, high)
            &&& is_spacing::<A>(low, high, bins, delta)
            &&& forall|m: int|
                0 <= m < bins ==> is_filter::<A>(
                    sr,
                    size,
                    low,
                    delta,
                    m as usize,
                    #[trigger] filt[m],
                )
        }
}

fn filters<A: Arith>(sr: u32, size: usize, bins: usize) -> (filt: Vec<Vec<u32>>)
    requires
        size > 0,
        bins + 2 <= usize::MAX,
    ensures
        filters_of::<A>(sr, size, bins, rows(filt@)),
{
    let low: u32 = mel::<A>(LOW);
    let high: u32 = mel::<A>(HIGH);
    let delta: u32 = spacing::<A>(low, high, bins);
    let mut filt: Vec<Vec<u32>> = Vec::new();
    let mut m: usize = 0;
    while m < bins
        invariant
            size > 0,
            bins + 2 <= usize::MAX,
            m <= bins,
            filt@.len() == m,
            forall|j: int|
                0 <= j < m ==> is_filter::<A>(
                    sr,
                    size,
                    low,
                    delta,
                    j as usize,
                    (#[trigger] filt@[j])@,
                ),
        decreases bins - m,
    {
        filt.push(filter::<A>(sr, size, low, delta, m));
        m = m + 1;
    }
    proof {
        let all = rows(filt@);
        assert forall|j: int| 0 <= j < bins implies is_filter::<A>(
            sr,
            size,
            low,
            delta,
            j as usize,
            #[trigger] all[j],
        ) by {
            assert(all[j] == filt@[j]@);
        }
        assert(is_mel::<A>(LOW, low) && is_mel::<A>(HIGH, high) && is_spacing::<A>(
            low,
            high,
            bins,
            delta,
        ));
    }
    filt
}

/// `y` is the first entry of the cosine transform: the root of one over the mel bins.
pub open spec fn is_first_dct<A: Arith>(bins: usize, y: u32) -> bool {
    exists|x: u32, q: u32|
        #![trigger numbers::<A>(bins, x), quotients::<A>(ONE, x, q)]
        numbers::<A>(bins, x) && quotients::<A>(ONE, x, q) && roots::<A>(q, y)
}

/// `s` is the root of two over the mel bins.
pub open spec fn is_dct_scale<A: Arith>(x: u32, s: u32) -> bool {
    exists|q: u32| #[trigger] quotients::<A>(TWO, x, q) && roots::<A>(q, s)
}

/// `z` is the angle pi / bins * k * (n + 0.5).
pub open spec fn is_dct_angle<A: Arith>(x: u32, k: usize, n: usize, z: u32) -> bool {
    exists|u: u32, kx: u32, v: u32, nx: u32, w: u32|
        #![trigger quotients::<A>(PI, x, u), numbers::<A>(k, kx), products::<A>(u, kx, v),
            numbers::<A>(n, nx), sums::<A>(nx, HALF, w)]
        quotients::<A>(PI, x, u) && numbers::<A>(k, kx) && products::<A>(u, kx, v) && numbers::<A>(
            n,
            nx,
        ) && sums::<A>(nx, HALF, w) && products::<A>(v, w, z)
}

/// `y` is entry `n` of row `k > 0` of the cosine transform.
pub open spec fn is_later_dct<A: Arith>(bins: usize, k: usize, n: usize, y: u32) -> bool {
    exists|x: u32, s: u32, z: u32, c: u32|
        #![trigger numbers::<A>(bins, x), is_dct_scale::<A>(x, s),
            is_dct_angle::<A>(x, k, n, z), cosines::<A>(z, c)]
        numbers::<A>(bins, x) && is_dct_scale::<A>(x, s) && is_dct_angle::<A>(x, k, n, z)
            && cosines::<A>(z, c) && products::<A>(s, c, y)
}

/// `y` is entry `n` of row `k` of the cosine transform.
pub open spec fn is_dct<A: Arith>(bins: usize, k: usize, n: usize, y: u32) -> bool {
    if k == 0 {
        is_first_dct::<A>(bins, y)
    } else {
        is_later_dct::<A>(bins, k, n, y)
    }
}

fn dct_value<A: Arith>(bins: usize, k: usize, n: usize) -> (y: u32)
    ensures
        is_dct::<A>(bins, k, n, y),
{
    let x: u32 = A::from_usize(bins);
    if k == 0 {
        let q: u32 = A::div(ONE, x);
        assert(numbers::<A>(bins, x) && quotients::<A>(ONE, x, q));
        return A::sqrt(q);
    }
    let q: u32 = A::div(TWO, x);
    let s: u32 = A::sqrt(q);
    assert(quotients::<A>(TWO, x, q));
    let u: u32 = A::div(PI, x);
    let kx: u32 = A::from_usize(k);
    let v: u32 = A::mul(u, kx);
    let nx: u32 = A::from_usize(n);
    let w: u32 = A::add(nx, HALF);
    let z: u32 = A::mul(v, w);
    assert(quotients::<A>(PI, x, u) && numbers::<A>(k, kx) && products::<A>(u, kx, v));
    assert(numbers::<A>(n, nx) && sums::<A>(nx, HALF, w));
    let c: u32 = A::cos(z);
    assert(numbers::<A>(bins, x) && is_dct_scale::<A>(x, s) && is_dct_angle::<A>(x, k, n, z)
        && cosines::<A>(z, c));
    A::mul(s, c)
}

/// `row` is row `k` of the cosine transform.
pub open spec fn is_dct_row<A: Arith>(bins: usize, k: usize, row: Seq<u32>) -> bool {
    &&& row.len() == bins
    &&& forall|n: int| 0 <= n < bins ==> is_dct::<A>(bins, k, n as usize, #[trigger] row[n])
}

/// `dct` is the cosine transform.
pub open spec fn dct_of<A: Arith>(bins: usize, ceps: usize, dct: Seq<Seq<u32>>) -> bool {
    &&& dct.len() == ceps
    &&& forall|k: int| 0 <= k < ceps ==> is_dct_row::<A>(bins, k as usize, #[trigger] dct[k])
}

fn dct_rows<A: Arith>(bins: usize, ceps: usize) -> (dct: Vec<Vec<u32>>)
    ensures
        dct_of::<A>(bins, ceps, rows(dct@)),
{
    let mut dct: Vec<Vec<u32>> = Vec::new();
    let mut k: usize = 0;
    while k < ceps
        invariant
            k <= ceps,
            dct@.len() == k,
            forall|j: int| 0 <= j < k ==> is_dct_row::<A>(bins, j as usize, (#[trigger] dct@[j])@),
        decreases ceps - k,
    {
        let mut row: Vec<u32> = Vec::new();
        let mut n: usize = 0;
        while n < bins
            invariant
                n <= bins,
                row@.len() == n,
                forall|j: int| 0 <= j < n ==> is_dct::<A>(bins, k, j as usize, #[trigger] row@[j]),
            decreases bins - n,
        {
            row.push(dct_value::<A>(bins, k, n));
            n = n + 1;
        }
        dct.push(row);
        k = k + 1;
    }
    proof {
        let all = rows(dct@);
        assert forall|j: int| 0 <= j < ceps implies is_dct_row::<A>(
            bins,
            j as usize,
            #[trigger] all[j],
        ) by {
            assert(all[j] == dct@[j]@);
        }
    }
    dct
}

/// `y` is the lifter of cepstrum `k`: 1 + 0.5 * 22 * sin(pi k / 22).
pub open spec fn is_lift<A: Arith>(k: usize, y: u32) -> bool {
    exists|g: u32, x: u32, p: u32, q: u32, s: u32, h: u32|
        #![trigger products::<A>(HALF, LIFTER, g), numbers::<A>(k, x), products::<A>(PI, x, p),
            quotients::<A>(p, LIFTER, q), sines::<A>(q, s), products::<A>(g, s, h)]
        products::<A>(HALF, LIFTER, g) && numbers::<A>(k, x) && products::<A>(PI, x, p)
            && quotients::<A>(p, LIFTER, q) && sines::<A>(q, s) && products::<A>(g, s, h)
            && sums::<A>(ONE, h, y)
}

fn lift_value<A: Arith>(k: usize) -> (y: u32)
    ensures
        is_lift::<A>(k, y),
{
    let g: u32 = A::mul(HALF, LIFTER);
    let x: u32 = A::from_usize(k);
    let p: u32 = A::mul(PI, x);
    let q: u32 = A::div(p, LIFTER);
    let s: u32 = A::sin(q);
    let h: u32 = A::mul(g, s);
    assert(products::<A>(HALF, LIFTER, g) && numbers::<A>(k, x) && products::<A>(PI, x, p));
    assert(quotients::<A>(p, LIFTER, q) && sines::<A>(q, s) && products::<A>(g, s, h));
    A::add(ONE, h)
}

/// `lift` is the lifter of every cepstrum.
pub open spec fn lift_of<A: Arith>(ceps: usize, lift: Seq<u32>) -> bool {
    &&& lift.len() == ceps
    &&& forall|k: int| 0 <= k < ceps ==> is_lift::<A>(k as usize, #[trigger] lift[k])
}

fn lifter<A: Arith>(ceps: usize) -> (lift: Vec<u32>)
    ensures
        lift_of::<A>(ceps, lift@),
{
    let mut lift: Vec<u32> = Vec::new();
    let mut k: usize = 0;
    while k < ceps
        invariant
            k <= ceps,
            lift@.len() == k,
            forall|j: int| 0 <= j < k ==> is_lift::<A>(j as usize, #[trigger] lift@[j]),
        decreases ceps - k,
    {
        lift.push(lift_value::<A>(k));
        k = k + 1;
    }
    lift
}

/// A front end: sizes, window, mel filters, cosine transform and lifter.
#[derive(Debug)]
pub struct Mfcc {
    frame_len: usize,
    frame_shift: usize,
    fft_size: usize,
    num_ceps: usize,
    win: Vec<u32>,
    filt: Vec<Vec<u32>>,
    dct: Vec<Vec<u32>>,
    lift: Vec<u32>,
    preemph: u32,
}

/// What a front end holds.
pub ghost struct MfccView {
    pub frame_len: usize,
    pub frame_shift: usize,
    pub fft_size: usize,
    pub num_ceps: usize,
    pub win: Seq<u32>,
    pub filt: Seq<Seq<u32>>,
    pub dct: Seq<Seq<u32>>,
    pub lift: Seq<u32>,
    pub preemph: u32,
}

impl View for Mfcc {
    type V = MfccView;

    closed spec fn view(&self) -> MfccView {
        MfccView {
            frame_len: self.frame_len,
            frame_shift: self.frame_shift,
            fft_size: self.fft_size,
            num_ceps: self.num_ceps,
            win: self.win@,
            filt: rows(self.filt@),
            dct: rows(self.dct@),
            lift: self.lift@,
            preemph: self.preemph,
        }
    }
}

/// The front end for the rate `sr`, with `bins` mel bins and `ceps` cepstra.
pub open spec fn is_front_end<A: Arith>(sr: u32, bins: usize, ceps: usize, v: MfccView) -> bool {
    &&& lasts::<A>(FRAME_SECONDS, sr, v.frame_len)
    &&& lasts::<A>(SHIFT_SECONDS, sr, v.frame_shift)
    &&& is_fft_size(v.frame_len as nat, v.fft_size as nat)
    &&& v.num_ceps == ceps
    &&& v.preemph == PREEMPH
    &&& window_of::<A>(v.frame_len, v.win)
    &&& filters_of::<A>(sr, v.fft_size, bins, v.filt)
    &&& dct_of::<A>(bins, ceps, v.dct)
    &&& lift_of::<A>(ceps, v.lift)
}

/// A frame at the rate `sr` is longer than any power of two that is an index, or the edges of
/// `bins` mel bins have no index.
pub open spec fn no_front_end<A: Arith>(sr: u32, bins: usize) -> bool {
    ||| bins + 2 > usize::MAX
    ||| exists|n: usize| #[trigger]
        lasts::<A>(FRAME_SECONDS, sr, n) && forall|j: nat| #[trigger]
            pow2(j) >= n ==> pow2(j) > usize::MAX
}

/// The front end that settings ask for.
pub open spec fn is_conf_front_end<A: Arith>(conf: Seq<char>, sr: u32, v: MfccView) -> bool {
    &&& is_count::<A>(conf, "num-ceps"@, USUAL_NUMBER, v.num_ceps)
    &&& exists|bins: usize| #[trigger]
        is_count::<A>(conf, "num-mel-bins"@, USUAL_NUMBER, bins) && is_front_end::<A>(
            sr,
            bins,
            v.num_ceps,
            v,
        )
}

/// There is no front end of the kind that settings ask for.
pub open spec fn no_conf_front_end<A: Arith>(conf: Seq<char>, sr: u32) -> bool {
    exists|bins: usize| #[trigger]
        is_count::<A>(conf, "num-mel-bins"@, USUAL_NUMBER, bins) && no_front_end::<A>(sr, bins)
}

impl Mfcc {
    #[verifier::type_invariant]
    spec fn sized(self) -> bool {
        &&& self.win@.len() == self.frame_len
        &&& self.frame_len <= self.fft_size
        &&& self.fft_size > 0
        &&& self.dct@.len() == self.num_ceps
        &&& self.lift@.len() == self.num_ceps
    }

    /// The configuration of the large Vosk models, for samples at the rate `sr`: 40 mel bins and
    /// 40 cepstra. There is none where a frame is longer than any power of two that is an index.
    pub fn vosk<A: Arith>(sr: u32) -> (r: Option<Mfcc>)
        ensures
            match r {
                Some(m) => is_front_end::<A>(sr, USUAL, USUAL, m@),
                None => no_front_end::<A>(sr, USUAL),
            },
    {
        Mfcc::with_sizes::<A>(sr, USUAL, USUAL)
    }

    /// The configuration that settings ask for: `num-mel-bins` mel bins and `num-ceps` cepstra,
    /// 40 of each unless they say otherwise.
    pub fn from_conf<A: Arith>(conf: &str, sr: u32) -> (r: Option<Mfcc>)
        ensures
            match r {
                Some(m) => is_conf_front_end::<A>(conf@, sr, m@),
                None => no_conf_front_end::<A>(conf@, sr),
            },
    {
        let bins: usize = get_count::<A>(conf, "num-mel-bins", USUAL_NUMBER);
        let ceps: usize = get_count::<A>(conf, "num-ceps", USUAL_NUMBER);
        Mfcc::with_sizes::<A>(sr, bins, ceps)
    }

    /// A front end with `bins` mel bins and `ceps` cepstra.
    fn with_sizes<A: Arith>(sr: u32, bins: usize, ceps: usize) -> (r: Option<Mfcc>)
        ensures
            match r {
                Some(m) => is_front_end::<A>(sr, bins, ceps, m@),
                None => no_front_end::<A>(sr, bins),
            },
    {
        if bins > usize::MAX - 2 {
            return None;
        }
        let frame_len: usize = duration::<A>(FRAME_SECONDS, sr);
        let frame_shift: usize = duration::<A>(SHIFT_SECONDS, sr);
        let fft_size: usize = match fft_size_for(frame_len) {
            Some(size) => size,
            None => {
                return None;
            },
        };
        let win = window::<A>(frame_len);
        let filt = filters::<A>(sr, fft_size, bins);
        let dct = dct_rows::<A>(bins, ceps);
        let lift = lifter::<A>(ceps);
        Some(
            Mfcc {
                frame_len,
                frame_shift,
                fft_size,
                num_ceps: ceps,
                win,
                filt,
                dct,
                lift,
                preemph: PREEMPH,
            },
        )
    }
}

/// `ps` are the sums of the first entries of `xs`: of none, of one, and so on.
pub open spec fn running<A: Arith>(xs: Seq<u32>, ps: Seq<u32>) -> bool {
    &&& ps.len() == xs.len() + 1
    &&& ps[0] == ZERO
    &&& forall|i: int| 0 <= i < xs.len() ==> #[trigger] sums::<A>(ps[i], xs[i], ps[i + 1])
}

/// `y` is the sum of `xs`, added up from the first on.
pub open spec fn is_total<A: Arith>(xs: Seq<u32>, y: u32) -> bool {
    exists|ps: Seq<u32>| #[trigger] running::<A>(xs, ps) && y == ps.last()
}

/// `ps` are the products of the entries of `a` and `b`, as far as both reach.
pub open spec fn pairwise<A: Arith>(a: Seq<u32>, b: Seq<u32>, ps: Seq<u32>) -> bool {
    &&& ps.len() == (if a.len() <= b.len() {
        a.len()
    } else {
        b.len()
    })
    &&& forall|i: int| 0 <= i < ps.len() ==> #[trigger] products::<A>(a[i], b[i], ps[i])
}

/// `y` is the inner product of `a` and `b`.
pub open spec fn is_dot<A: Arith>(a: Seq<u32>, b: Seq<u32>, y: u32) -> bool {
    exists|ps: Seq<u32>| #[trigger] pairwise::<A>(a, b, ps) && is_total::<A>(ps, y)
}

proof fn lemma_running<A: Arith>(xs: Seq<u32>, ps: Seq<u32>, x: u32, y: u32)
    requires
        running::<A>(xs, ps),
        sums::<A>(ps.last(), x, y),
    ensures
        running::<A>(xs.push(x), ps.push(y)),
{
    let xs2 = xs.push(x);
    let ps2 = ps.push(y);
    assert forall|i: int| 0 <= i < xs2.len() implies #[trigger] sums::<A>(
        ps2[i],
        xs2[i],
        ps2[i + 1],
    ) by {
        if i < xs.len() {
            assert(sums::<A>(ps[i], xs[i], ps[i + 1]));
        }
    }
}

fn total<A: Arith>(xs: &[u32]) -> (y: u32)
    ensures
        is_total::<A>(xs@, y),
{
    let mut y: u32 = ZERO;
    let ghost mut ps: Seq<u32> = seq![ZERO];
    let mut i: usize = 0;
    proof {
        assert(running::<A>(xs@.take(0), ps));
    }
    while i < xs.len()
        invariant
            i <= xs@.len(),
            running::<A>(xs@.take(i as int), ps),
            y == ps.last(),
        decreases xs@.len() - i,
    {
        let next: u32 = A::add(y, xs[i]);
        proof {
            assert(sums::<A>(ps.last(), xs@[i as int], next));
            lemma_running::<A>(xs@.take(i as int), ps, xs@[i as int], next);
            assert(xs@.take(i as int).push(xs@[i as int]) =~= xs@.take(i + 1));
            ps = ps.push(next);
        }
        y = next;
        i = i + 1;
    }
    assert(xs@.take(i as int) =~= xs@);
    y
}

fn dot<A: Arith>(a: &[u32], b: &[u32]) -> (y: u32)
    ensures
        is_dot::<A>(a@, b@, y),
{
    let n: usize = if a.len() <= b.len() {
        a.len()
    } else {
        b.len()
    };
    let mut y: u32 = ZERO;
    let ghost mut ps: Seq<u32> = seq![ZERO];
    let ghost mut xs: Seq<u32> = Seq::empty();
    let mut i: usize = 0;
    while i < n
        invariant
            i <= n,
            n <= a@.len(),
            n <= b@.len(),
            xs.len() == i,
            forall|j: int| 0 <= j < i ==> #[trigger] products::<A>(a@[j], b@[j], xs[j]),
            running::<A>(xs, ps),
            y == ps.last(),
        decreases n - i,
    {
        let x: u32 = A::mul(a[i], b[i]);
        let next: u32 = A::add(y, x);
        proof {
            assert(products::<A>(a@[i as int], b@[i as int], x));
            assert(sums::<A>(ps.last(), x, next));
            lemma_running::<A>(xs, ps, x, next);
            let longer = xs.push(x);
            assert forall|j: int| 0 <= j < i + 1 implies #[trigger] products::<A>(
                a@[j],
                b@[j],
                longer[j],
            ) by {
                if j < i {
                    assert(products::<A>(a@[j], b@[j], xs[j]));
                }
            }
            ps = ps.push(next);
            xs = longer;
        }
        y = next;
        i = i + 1;
    }
    assert(pairwise::<A>(a@, b@, xs) && is_total::<A>(xs, y));
    y
}

/// `mean` is the mean of a frame of `n` samples.
pub open spec fn is_mean<A: Arith>(frame: Seq<u32>, n: usize, mean: u32) -> bool {
    exists|s: u32, x: u32|
        #![trigger is_total::<A>(frame, s), numbers::<A>(n, x)]
        is_total::<A>(frame, s) && numbers::<A>(n, x) && quotients::<A>(s, x, mean)
}

/// `x` is a frame less its mean.
pub open spec fn lowered<A: Arith>(frame: Seq<u32>, mean: u32, x: Seq<u32>) -> bool {
    &&& x.len() == frame.len()
    &&& forall|i: int| 0 <= i < x.len() ==> differences::<A>(frame[i], mean, #[trigger] x[i])
}

/// `y` is `x` less `k` times `prev`.
pub open spec fn is_emphasis<A: Arith>(k: u32, x: u32, prev: u32, y: u32) -> bool {
    exists|p: u32| #[trigger] products::<A>(k, prev, p) && differences::<A>(x, p, y)
}

/// `y` is `x` with `k` times the sample before taken off each; the first is its own forerunner.
pub open spec fn emphasised<A: Arith>(k: u32, x: Seq<u32>, y: Seq<u32>) -> bool {
    &&& y.len() == x.len()
    &&& forall|i: int|
        0 <= i < y.len() ==> is_emphasis::<A>(
            k,
            x[i],
            x[if i == 0 {
                0
            } else {
                i - 1
            }],
            #[trigger] y[i],
        )
}

/// `y` is `x` under a window.
pub open spec fn windowed<A: Arith>(x: Seq<u32>, win: Seq<u32>, y: Seq<u32>) -> bool {
    &&& y.len() == x.len()
    &&& forall|i: int| 0 <= i < y.len() ==> products::<A>(x[i], win[i], #[trigger] y[i])
}

/// `w` is a frame with its mean taken off, high frequencies raised, under the window.
pub open spec fn is_conditioned<A: Arith>(v: MfccView, frame: Seq<u32>, w: Seq<u32>) -> bool {
    exists|mean: u32, x: Seq<u32>, y: Seq<u32>|
        #![trigger is_mean::<A>(frame, v.frame_len, mean), lowered::<A>(frame, mean, x),
            emphasised::<A>(v.preemph, x, y)]
        is_mean::<A>(frame, v.frame_len, mean) && lowered::<A>(frame, mean, x) && emphasised::<A>(
            v.preemph,
            x,
            y,
        ) && windowed::<A>(y, v.win, w)
}

/// Samples as complex numbers, with zeros up to `size`.
pub open spec fn padded(w: Seq<u32>, size: nat) -> Seq<(u32, u32)> {
    Seq::new(
        size,
        |i: int|
            (
                if i < w.len() {
                    w[i]
                } else {
                    ZERO
                },
                ZERO,
            ),
    )
}

/// `y` is the squared size of a complex number.
pub open spec fn is_energy<A: Arith>(z: (u32, u32), y: u32) -> bool {
    exists|a: u32, b: u32|
        #![trigger products::<A>(z.0, z.0, a), products::<A>(z.1, z.1, b)]
        products::<A>(z.0, z.0, a) && products::<A>(z.1, z.1, b) && sums::<A>(a, b, y)
}

/// `p` is the power of the first `n` bins.
pub open spec fn is_power<A: Arith>(s: Seq<(u32, u32)>, n: nat, p: Seq<u32>) -> bool {
    &&& p.len() == n
    &&& forall|i: int| 0 <= i < n ==> is_energy::<A>(s[i], #[trigger] p[i])
}

/// `y` is the logarithm of the energy in a mel filter, which is held above the floor.
pub open spec fn is_log_energy<A: Arith>(row: Seq<u32>, p: Seq<u32>, y: u32) -> bool {
    exists|e: u32| #[trigger] is_dot::<A>(row, p, e) && logarithms::<A>(larger(e, FLOOR), y)
}

/// `lm` are the logarithms of the energies in all mel filters.
pub open spec fn is_log_mel<A: Arith>(filt: Seq<Seq<u32>>, p: Seq<u32>, lm: Seq<u32>) -> bool {
    &&& lm.len() == filt.len()
    &&& forall|m: int| 0 <= m < lm.len() ==> is_log_energy::<A>(filt[m], p, #[trigger] lm[m])
}

/// `y` is one cepstrum.
pub open spec fn is_cepstrum<A: Arith>(row: Seq<u32>, lm: Seq<u32>, lift: u32, y: u32) -> bool {
    exists|c: u32| #[trigger] is_dot::<A>(row, lm, c) && products::<A>(c, lift, y)
}

/// `out` are the cepstra.
pub open spec fn are_cepstra<A: Arith>(v: MfccView, lm: Seq<u32>, out: Seq<u32>) -> bool {
    &&& out.len() == v.num_ceps
    &&& forall|k: int|
        0 <= k < out.len() ==> is_cepstrum::<A>(v.dct[k], lm, v.lift[k], #[trigger] out[k])
}

/// `out` are the cepstra of one frame.
pub open spec fn is_frame<A: Arith>(v: MfccView, frame: Seq<u32>, out: Seq<u32>) -> bool {
    exists|w: Seq<u32>, s: Seq<(u32, u32)>, p: Seq<u32>, lm: Seq<u32>|
        #![trigger is_conditioned::<A>(v, frame, w),
            transforms::<A>(padded(w, v.fft_size as nat), s),
            is_power::<A>(s, (v.fft_size / 2 + 1) as nat, p), is_log_mel::<A>(v.filt, p, lm)]
        {
            &&& is_conditioned::<A>(v, frame, w)
            &&& transforms::<A>(padded(w, v.fft_size as nat), s)
            &&& s.len() == v.fft_size
            &&& is_power::<A>(s, (v.fft_size / 2 + 1) as nat, p)
            &&& is_log_mel::<A>(v.filt, p, lm)
            &&& are_cepstra::<A>(v, lm, out)
        }
}

/// How many whole frames fit into `n` samples.
pub open spec fn frame_count(v: MfccView, n: nat) -> nat {
    if n < v.frame_len {
        0
    } else {
        ((n - v.frame_len) / (v.frame_shift as int) + 1) as nat
    }
}

/// The samples of frame `t`.
pub open spec fn frame_at(v: MfccView, samples: Seq<u32>, t: int) -> Seq<u32> {
    samples.subrange(t * v.frame_shift, t * v.frame_shift + v.frame_len)
}

/// `y` holds the cepstra of every frame, one row each.
pub open spec fn is_mfcc<A: Arith>(v: MfccView, samples: Seq<u32>, y: MatView) -> bool {
    &&& y.wf()
    &&& y.r == frame_count(v, samples.len())
    &&& y.c == v.num_ceps
    &&& forall|t: int|
        0 <= t < y.r ==> is_frame::<A>(v, frame_at(v, samples, t), #[trigger] y.row(t))
}

/// The arithmetic gives a Fourier transform of the frame that has the wrong size.
pub open spec fn short_transform<A: Arith>(v: MfccView, frame: Seq<u32>) -> bool {
    exists|w: Seq<u32>, s: Seq<(u32, u32)>|
        #![trigger is_conditioned::<A>(v, frame, w), transforms::<A>(padded(w, v.fft_size as nat), s)]
        is_conditioned::<A>(v, frame, w) && transforms::<A>(padded(w, v.fft_size as nat), s)
            && s.len() != v.fft_size
}

/// The arithmetic fails on some frame.
pub open spec fn mfcc_fault<A: Arith>(v: MfccView, samples: Seq<u32>) -> bool {
    &&& v.frame_len > 0
    &&& v.frame_shift > 0
    &&& exists|t: int|
        0 <= t < frame_count(v, samples.len()) && short_transform::<A>(
            v,
            #[trigger] frame_at(v, samples, t),
        )
}

/// Every frame lies within the samples, and one more would not.
pub proof fn law_frames(v: MfccView, n: nat, t: int)
    requires
        0 < v.frame_shift,
        v.frame_len <= n,
    ensures
        0 <= t < frame_count(v, n) ==> 0 <= t * v.frame_shift && t * v.frame_shift + v.frame_len
            <= n,
        t == frame_count(v, n) ==> t * v.frame_shift + v.frame_len > n,
{
    let shift = v.frame_shift as int;
    let room = n - v.frame_len;
    let last = room / shift;
    vstd::arithmetic::div_mod::lemma_fundamental_div_mod(room, shift);
    vstd::arithmetic::div_mod::lemma_mod_bound(room, shift);
    assert(shift * last == last * shift) by (nonlinear_arith);
    if 0 <= t < frame_count(v, n) {
        assert(0 <= t * shift <= last * shift) by (nonlinear_arith)
            requires
                0 <= t <= last,
                0 < shift,
        ;
    }
    if t == frame_count(v, n) {
        assert(t * shift == last * shift + shift) by (nonlinear_arith)
            requires
                t == last + 1,
        ;
    }
}

impl Mfcc {
    /// A frame with its mean taken off, high frequencies raised, under the window.
    fn condition<A: Arith>(&self, frame: &[u32]) -> (w: Vec<u32>)
        requires
            frame@.len() == self@.frame_len,
            frame@.len() > 0,
        ensures
            is_conditioned::<A>(self@, frame@, w@),
            w@.len() == frame@.len(),
    {
        proof {
            use_type_invariant(self);
        }
        let s: u32 = total::<A>(frame);
        let nx: u32 = A::from_usize(self.frame_len);
        let mean: u32 = A::div(s, nx);
        assert(is_total::<A>(frame@, s) && numbers::<A>(self@.frame_len, nx));
        let n: usize = frame.len();
        let mut x: Vec<u32> = Vec::new();
        let mut i: usize = 0;
        while i < n
            invariant
                n == frame@.len(),
                i <= n,
                x@.len() == i,
                forall|j: int|
                    0 <= j < i ==> differences::<A>(frame@[j], mean, #[trigger] x@[j]),
            decreases n - i,
        {
            x.push(A::sub(frame[i], mean));
            i = i + 1;
        }
        let k: u32 = self.preemph;
        let mut y: Vec<u32> = Vec::new();
        let mut i: usize = 0;
        while i < n
            invariant
                n == x@.len(),
                i <= n,
                y@.len() == i,
                forall|j: int|
                    0 <= j < i ==> is_emphasis::<A>(
                        k,
                        x@[j],
                        x@[if j == 0 {
                            0
                        } else {
                            j - 1
                        }],
                        #[trigger] y@[j],
                    ),
            decreases n - i,
        {
            let before: usize = if i == 0 {
                0
            } else {
                i - 1
            };
            let p: u32 = A::mul(k, x[before]);
            assert(products::<A>(k, x@[before as int], p));
            y.push(A::sub(x[i], p));
            i = i + 1;
        }
        let mut w: Vec<u32> = Vec::new();
        let mut i: usize = 0;
        while i < n
            invariant
                n == y@.len(),
                n == self.win@.len(),
                i <= n,
                w@.len() == i,
                forall|j: int|
                    0 <= j < i ==> products::<A>(y@[j], self.win@[j], #[trigger] w@[j]),
            decreases n - i,
        {
            w.push(A::mul(y[i], self.win[i]));
            i = i + 1;
        }
        assert(is_mean::<A>(frame@, self@.frame_len, mean) && lowered::<A>(frame@, mean, x@)
            && emphasised::<A>(self@.preemph, x@, y@) && windowed::<A>(y@, self@.win, w@));
        w
    }

    /// The cepstra of one frame.
    fn frame<A: Arith>(&self, frame: &[u32]) -> (r: Result<Vec<u32>, EvalError>)
        requires
            frame@.len() == self@.frame_len,
            frame@.len() > 0,
        ensures
            match r {
                Ok(out) => is_frame::<A>(self@, frame@, out@) && out@.len() == self@.num_ceps,
                Err(e) => e == EvalError::Kernel && short_transform::<A>(self@, frame@),
            },
    {
        proof {
            use_type_invariant(self);
        }
        let w = self.condition::<A>(frame);
        let size: usize = self.fft_size;
        let nbins: usize = size / 2 + 1;
        let mut buf: Vec<(u32, u32)> = Vec::new();
        let mut i: usize = 0;
        while i < size
            invariant
                i <= size,
                buf@ == padded(w@, i as nat),
            decreases size - i,
        {
            let x: u32 = if i < w.len() {
                w[i]
            } else {
                ZERO
            };
            buf.push((x, ZERO));
            i = i + 1;
            assert(buf@ =~= padded(w@, i as nat));
        }
        let s = A::fft(&buf);
        assert(transforms::<A>(padded(w@, self@.fft_size as nat), s@));
        if s.len() != size {
            return Err(EvalError::Kernel);
        }
        let mut p: Vec<u32> = Vec::new();
        let mut i: usize = 0;
        while i < nbins
            invariant
                nbins <= s@.len(),
                i <= nbins,
                p@.len() == i,
                forall|j: int| 0 <= j < i ==> is_energy::<A>(s@[j], #[trigger] p@[j]),
            decreases nbins - i,
        {
            let (re, im) = s[i];
            let a: u32 = A::mul(re, re);
            let b: u32 = A::mul(im, im);
            assert(s@[i as int] == (re, im));
            assert(products::<A>(re, re, a) && products::<A>(im, im, b));
            let e: u32 = A::add(a, b);
            assert(is_energy::<A>(s@[i as int], e));
            p.push(e);
            i = i + 1;
        }
        let mut lm: Vec<u32> = Vec::new();
        let mut m: usize = 0;
        while m < self.filt.len()
            invariant
                m <= self.filt@.len(),
                lm@.len() == m,
                forall|j: int|
                    0 <= j < m ==> is_log_energy::<A>(self.filt@[j]@, p@, #[trigger] lm@[j]),
            decreases self.filt@.len() - m,
        {
            let e: u32 = dot::<A>(self.filt[m].as_slice(), p.as_slice());
            let y: u32 = A::ln(max(e, FLOOR));
            assert(is_dot::<A>(self.filt@[m as int]@, p@, e));
            assert(logarithms::<A>(larger(e, FLOOR), y));
            lm.push(y);
            m = m + 1;
        }
        let mut out: Vec<u32> = Vec::new();
        let mut k: usize = 0;
        while k < self.num_ceps
            invariant
                k <= self.num_ceps,
                self.dct@.len() == self.num_ceps,
                self.lift@.len() == self.num_ceps,
                out@.len() == k,
                forall|j: int|
                    0 <= j < k ==> is_cepstrum::<A>(
                        self.dct@[j]@,
                        lm@,
                        self.lift@[j],
                        #[trigger] out@[j],
                    ),
            decreases self.num_ceps - k,
        {
            let c: u32 = dot::<A>(self.dct[k].as_slice(), lm.as_slice());
            let y: u32 = A::mul(c, self.lift[k]);
            assert(is_dot::<A>(self.dct@[k as int]@, lm@, c));
            assert(products::<A>(c, self.lift@[k as int], y));
            out.push(y);
            k = k + 1;
        }
        proof {
            let v = self@;
            assert(is_power::<A>(s@, (v.fft_size / 2 + 1) as nat, p@));
            assert(is_log_mel::<A>(v.filt, p@, lm@)) by {
                assert forall|j: int| 0 <= j < lm@.len() implies is_log_energy::<A>(
                    v.filt[j],
                    p@,
                    #[trigger] lm@[j],
                ) by {
                    assert(v.filt[j] == self.filt@[j]@);
                }
            }
            assert(are_cepstra::<A>(v, lm@, out@)) by {
                assert forall|j: int| 0 <= j < out@.len() implies is_cepstrum::<A>(
                    v.dct[j],
                    lm@,
                    v.lift[j],
                    #[trigger] out@[j],
                ) by {
                    assert(v.dct[j] == self.dct@[j]@);
                }
            }
            assert(is_conditioned::<A>(v, frame@, w@));
        }
        Ok(out)
    }

    /// The cepstra of samples in the 16-bit range, one row per frame. There are none where frames
    /// have no length or no distance.
    pub fn compute<A: Arith>(&self, samples: &[u32]) -> (r: Result<Mat, EvalError>)
        ensures
            match r {
                Ok(y) => is_mfcc::<A>(self@, samples@, y@) && (samples@.len() < self@.frame_len || (
                self@.frame_len > 0 && self@.frame_shift > 0)),
                Err(EvalError::Mismatch) => samples@.len() >= self@.frame_len && (self@.frame_len
                    == 0 || self@.frame_shift == 0),
                Err(EvalError::Kernel) => mfcc_fault::<A>(self@, samples@),
            },
    {
        let n: usize = samples.len();
        let c: usize = self.num_ceps;
        if n < self.frame_len {
            assert(0 * c == 0) by (nonlinear_arith);
            return Ok(Mat { r: 0, c, d: Vec::new() });
        }
        if self.frame_len == 0 || self.frame_shift == 0 {
            return Err(EvalError::Mismatch);
        }
        let len: usize = self.frame_len;
        let shift: usize = self.frame_shift;
        let count: usize = (n - len) / shift + 1;
        let ghost v = self@;
        proof {
            assert((n - len) / (shift as int) + 1 == frame_count(v, n as nat));
        }
        let mut d: Vec<u32> = Vec::new();
        let mut t: usize = 0;
        assert(0 * c == 0) by (nonlinear_arith);
        while t < count
            invariant
                v == self@,
                n == samples@.len(),
                len == v.frame_len,
                0 < len <= n,
                shift == v.frame_shift,
                shift > 0,
                c == v.num_ceps,
                count == frame_count(v, n as nat),
                t <= count,
                d@.len() == t * c,
                forall|j: int|
                    0 <= j < t ==> is_frame::<A>(
                        v,
                        frame_at(v, samples@, j),
                        #[trigger] d@.subrange(j * c, j * c + c),
                    ),
            decreases count - t,
        {
            proof {
                law_frames(v, n as nat, t as int);
            }
            let start: usize = t * shift;
            let part = slice_subrange(samples, start, start + len);
            assert(part@ == frame_at(v, samples@, t as int));
            let row = match self.frame::<A>(part) {
                Ok(row) => row,
                Err(e) => {
                    return Err(e);
                },
            };
            let ghost before = d@;
            append(&mut d, row.as_slice());
            proof {
                assert((t + 1) * c == t * c + c) by (nonlinear_arith);
                assert forall|j: int| 0 <= j < t + 1 implies is_frame::<A>(
                    v,
                    frame_at(v, samples@, j),
                    #[trigger] d@.subrange(j * c, j * c + c),
                ) by {
                    if j < t {
                        lemma_within(j, t as int, c as int);
                        assert(d@.subrange(j * c, j * c + c) =~= before.subrange(j * c, j * c + c));
                    } else {
                        assert(d@.subrange(j * c, j * c + c) =~= row@);
                    }
                }
            }
            t = t + 1;
        }
        let y = Mat { r: count, c, d };
        proof {
            assert forall|t: int| 0 <= t < y@.r implies is_frame::<A>(
                v,
                frame_at(v, samples@, t),
                #[trigger] y@.row(t),
            ) by {
                assert(y@.row(t) == d@.subrange(t * c, t * c + c));
            }
        }
        Ok(y)
    }
}

} // verus!
