//! Where the arithmetic has one answer for each operation, a frame has one row of cepstra.

use vstd::prelude::*;

use crate::mat::MatView;
use crate::mfcc::{
    are_cepstra, emphasised, frame_at, is_cepstrum, is_conditioned, is_dot, is_emphasis, is_energy,
    is_frame, is_log_energy, is_log_mel, is_mean, is_mfcc, is_power, is_total, law_frames,
    lowered, padded, pairwise, running, windowed, MfccView, FLOOR,
};
use crate::single::{
    differences, larger, logarithms, numbers, products, quotients, sums, transforms, Arith, ZERO,
};

verus! {

/// The arithmetic has one answer for each operation of the front end.
pub open spec fn one_sound<A: Arith>() -> bool {
    &&& forall|a: u32, b: u32, r: u32, s: u32| #[trigger]
        sums::<A>(a, b, r) && #[trigger] sums::<A>(a, b, s) ==> r == s
    &&& forall|a: u32, b: u32, r: u32, s: u32| #[trigger]
        differences::<A>(a, b, r) && #[trigger] differences::<A>(a, b, s) ==> r == s
    &&& forall|a: u32, b: u32, r: u32, s: u32| #[trigger]
        products::<A>(a, b, r) && #[trigger] products::<A>(a, b, s) ==> r == s
    &&& forall|a: u32, b: u32, r: u32, s: u32| #[trigger]
        quotients::<A>(a, b, r) && #[trigger] quotients::<A>(a, b, s) ==> r == s
    &&& forall|a: u32, r: u32, s: u32| #[trigger]
        logarithms::<A>(a, r) && #[trigger] logarithms::<A>(a, s) ==> r == s
    &&& forall|n: usize, r: u32, s: u32| #[trigger]
        numbers::<A>(n, r) && #[trigger] numbers::<A>(n, s) ==> r == s
    &&& forall|x: Seq<(u32, u32)>, y: Seq<(u32, u32)>, z: Seq<(u32, u32)>| #[trigger]
        transforms::<A>(x, y) && #[trigger] transforms::<A>(x, z) ==> y == z
}

proof fn lemma_running<A: Arith>(xs: Seq<u32>, ps: Seq<u32>, qs: Seq<u32>, i: int)
    requires
        one_sound::<A>(),
        running::<A>(xs, ps),
        running::<A>(xs, qs),
        0 <= i <= xs.len(),
    ensures
        ps[i] == qs[i],
    decreases i,
{
    if i > 0 {
        lemma_running::<A>(xs, ps, qs, i - 1);
        assert(sums::<A>(ps[i - 1], xs[i - 1], ps[i - 1 + 1]));
        assert(sums::<A>(qs[i - 1], xs[i - 1], qs[i - 1 + 1]));
    }
}

proof fn lemma_total<A: Arith>(xs: Seq<u32>, y: u32, z: u32)
    requires
        one_sound::<A>(),
        is_total::<A>(xs, y),
        is_total::<A>(xs, z),
    ensures
        y == z,
{
    let ps = choose|ps: Seq<u32>| #[trigger] running::<A>(xs, ps) && y == ps.last();
    let qs = choose|qs: Seq<u32>| #[trigger] running::<A>(xs, qs) && z == qs.last();
    lemma_running::<A>(xs, ps, qs, xs.len() as int);
}

proof fn lemma_dot<A: Arith>(a: Seq<u32>, b: Seq<u32>, y: u32, z: u32)
    requires
        one_sound::<A>(),
        is_dot::<A>(a, b, y),
        is_dot::<A>(a, b, z),
    ensures
        y == z,
{
    let ps = choose|ps: Seq<u32>| #[trigger] pairwise::<A>(a, b, ps) && is_total::<A>(ps, y);
    let qs = choose|qs: Seq<u32>| #[trigger] pairwise::<A>(a, b, qs) && is_total::<A>(qs, z);
    assert forall|i: int| 0 <= i < ps.len() implies ps[i] == qs[i] by {
        assert(products::<A>(a[i], b[i], ps[i]) && products::<A>(a[i], b[i], qs[i]));
    }
    assert(ps =~= qs);
    lemma_total::<A>(ps, y, z);
}

proof fn lemma_lowered<A: Arith>(
    frame: Seq<u32>,
    n: usize,
    m1: u32,
    m2: u32,
    x1: Seq<u32>,
    x2: Seq<u32>,
)
    requires
        one_sound::<A>(),
        is_mean::<A>(frame, n, m1),
        is_mean::<A>(frame, n, m2),
        lowered::<A>(frame, m1, x1),
        lowered::<A>(frame, m2, x2),
    ensures
        x1 == x2,
{
    let (s1, k1) = choose|s: u32, x: u32|
        #![trigger is_total::<A>(frame, s), numbers::<A>(n, x)]
        is_total::<A>(frame, s) && numbers::<A>(n, x) && quotients::<A>(s, x, m1);
    let (s2, k2) = choose|s: u32, x: u32|
        #![trigger is_total::<A>(frame, s), numbers::<A>(n, x)]
        is_total::<A>(frame, s) && numbers::<A>(n, x) && quotients::<A>(s, x, m2);
    lemma_total::<A>(frame, s1, s2);
    assert(k1 == k2);
    assert(m1 == m2);
    assert forall|i: int| 0 <= i < x1.len() implies x1[i] == x2[i] by {
        assert(differences::<A>(frame[i], m1, x1[i]) && differences::<A>(frame[i], m1, x2[i]));
    }
    assert(x1 =~= x2);
}

proof fn lemma_shaped<A: Arith>(
    k: u32,
    win: Seq<u32>,
    x: Seq<u32>,
    y1: Seq<u32>,
    y2: Seq<u32>,
    w1: Seq<u32>,
    w2: Seq<u32>,
)
    requires
        one_sound::<A>(),
        emphasised::<A>(k, x, y1),
        emphasised::<A>(k, x, y2),
        windowed::<A>(y1, win, w1),
        windowed::<A>(y2, win, w2),
    ensures
        w1 == w2,
{
    assert forall|i: int| 0 <= i < y1.len() implies y1[i] == y2[i] by {
        let before = x[if i == 0 {
            0
        } else {
            i - 1
        }];
        assert(is_emphasis::<A>(k, x[i], before, y1[i]));
        assert(is_emphasis::<A>(k, x[i], before, y2[i]));
        let p1 = choose|p: u32| #[trigger]
            products::<A>(k, before, p) && differences::<A>(x[i], p, y1[i]);
        let p2 = choose|p: u32| #[trigger]
            products::<A>(k, before, p) && differences::<A>(x[i], p, y2[i]);
        assert(p1 == p2);
    }
    assert(y1 =~= y2);
    assert forall|i: int| 0 <= i < w1.len() implies w1[i] == w2[i] by {
        assert(products::<A>(y1[i], win[i], w1[i]) && products::<A>(y1[i], win[i], w2[i]));
    }
    assert(w1 =~= w2);
}

proof fn lemma_power<A: Arith>(s: Seq<(u32, u32)>, n: nat, p: Seq<u32>, q: Seq<u32>)
    requires
        one_sound::<A>(),
        is_power::<A>(s, n, p),
        is_power::<A>(s, n, q),
    ensures
        p == q,
{
    assert forall|i: int| 0 <= i < n implies p[i] == q[i] by {
        let z = s[i];
        assert(is_energy::<A>(s[i], p[i]) && is_energy::<A>(s[i], q[i]));
        let (a1, b1) = choose|a: u32, b: u32|
            #![trigger products::<A>(z.0, z.0, a), products::<A>(z.1, z.1, b)]
            products::<A>(z.0, z.0, a) && products::<A>(z.1, z.1, b) && sums::<A>(a, b, p[i]);
        let (a2, b2) = choose|a: u32, b: u32|
            #![trigger products::<A>(z.0, z.0, a), products::<A>(z.1, z.1, b)]
            products::<A>(z.0, z.0, a) && products::<A>(z.1, z.1, b) && sums::<A>(a, b, q[i]);
        assert(a1 == a2 && b1 == b2);
    }
    assert(p =~= q);
}

proof fn lemma_log_mel<A: Arith>(filt: Seq<Seq<u32>>, p: Seq<u32>, l1: Seq<u32>, l2: Seq<u32>)
    requires
        one_sound::<A>(),
        is_log_mel::<A>(filt, p, l1),
        is_log_mel::<A>(filt, p, l2),
    ensures
        l1 == l2,
{
    assert forall|m: int| 0 <= m < l1.len() implies l1[m] == l2[m] by {
        assert(is_log_energy::<A>(filt[m], p, l1[m]) && is_log_energy::<A>(filt[m], p, l2[m]));
        let e1 = choose|e: u32| #[trigger]
            is_dot::<A>(filt[m], p, e) && logarithms::<A>(larger(e, FLOOR), l1[m]);
        let e2 = choose|e: u32| #[trigger]
            is_dot::<A>(filt[m], p, e) && logarithms::<A>(larger(e, FLOOR), l2[m]);
        lemma_dot::<A>(filt[m], p, e1, e2);
    }
    assert(l1 =~= l2);
}

proof fn lemma_cepstra<A: Arith>(v: MfccView, lm: Seq<u32>, o1: Seq<u32>, o2: Seq<u32>)
    requires
        one_sound::<A>(),
        are_cepstra::<A>(v, lm, o1),
        are_cepstra::<A>(v, lm, o2),
    ensures
        o1 == o2,
{
    assert forall|k: int| 0 <= k < o1.len() implies o1[k] == o2[k] by {
        let row = v.dct[k];
        assert(is_cepstrum::<A>(row, lm, v.lift[k], o1[k]));
        assert(is_cepstrum::<A>(row, lm, v.lift[k], o2[k]));
        let c1 = choose|c: u32| #[trigger]
            is_dot::<A>(row, lm, c) && products::<A>(c, v.lift[k], o1[k]);
        let c2 = choose|c: u32| #[trigger]
            is_dot::<A>(row, lm, c) && products::<A>(c, v.lift[k], o2[k]);
        lemma_dot::<A>(row, lm, c1, c2);
    }
    assert(o1 =~= o2);
}

/// Two frames become the same once the mean is taken off.
pub open spec fn same_shape<A: Arith>(v: MfccView, f1: Seq<u32>, f2: Seq<u32>) -> bool {
    forall|m1: u32, m2: u32, x1: Seq<u32>, x2: Seq<u32>| #[trigger]
        is_mean::<A>(f1, v.frame_len, m1) && #[trigger] is_mean::<A>(f2, v.frame_len, m2)
            && #[trigger] lowered::<A>(f1, m1, x1) && #[trigger] lowered::<A>(f2, m2, x2) ==> x1
            == x2
}

proof fn lemma_frame<A: Arith>(
    v: MfccView,
    f1: Seq<u32>,
    f2: Seq<u32>,
    o1: Seq<u32>,
    o2: Seq<u32>,
)
    requires
        one_sound::<A>(),
        same_shape::<A>(v, f1, f2),
        is_frame::<A>(v, f1, o1),
        is_frame::<A>(v, f2, o2),
    ensures
        o1 == o2,
{
    let size = v.fft_size as nat;
    let n = (v.fft_size / 2 + 1) as nat;
    let (w1, s1, p1, l1) = choose|w: Seq<u32>, s: Seq<(u32, u32)>, p: Seq<u32>, lm: Seq<u32>|
        #![trigger is_conditioned::<A>(v, f1, w), transforms::<A>(padded(w, size), s),
            is_power::<A>(s, n, p), is_log_mel::<A>(v.filt, p, lm)]
        {
            &&& is_conditioned::<A>(v, f1, w)
            &&& transforms::<A>(padded(w, size), s)
            &&& s.len() == v.fft_size
            &&& is_power::<A>(s, n, p)
            &&& is_log_mel::<A>(v.filt, p, lm)
            &&& are_cepstra::<A>(v, lm, o1)
        };
    let (w2, s2, p2, l2) = choose|w: Seq<u32>, s: Seq<(u32, u32)>, p: Seq<u32>, lm: Seq<u32>|
        #![trigger is_conditioned::<A>(v, f2, w), transforms::<A>(padded(w, size), s),
            is_power::<A>(s, n, p), is_log_mel::<A>(v.filt, p, lm)]
        {
            &&& is_conditioned::<A>(v, f2, w)
            &&& transforms::<A>(padded(w, size), s)
            &&& s.len() == v.fft_size
            &&& is_power::<A>(s, n, p)
            &&& is_log_mel::<A>(v.filt, p, lm)
            &&& are_cepstra::<A>(v, lm, o2)
        };
    let (m1, x1, y1) = choose|mean: u32, x: Seq<u32>, y: Seq<u32>|
        #![trigger is_mean::<A>(f1, v.frame_len, mean), lowered::<A>(f1, mean, x),
            emphasised::<A>(v.preemph, x, y)]
        is_mean::<A>(f1, v.frame_len, mean) && lowered::<A>(f1, mean, x) && emphasised::<A>(
            v.preemph,
            x,
            y,
        ) && windowed::<A>(y, v.win, w1);
    let (m2, x2, y2) = choose|mean: u32, x: Seq<u32>, y: Seq<u32>|
        #![trigger is_mean::<A>(f2, v.frame_len, mean), lowered::<A>(f2, mean, x),
            emphasised::<A>(v.preemph, x, y)]
        is_mean::<A>(f2, v.frame_len, mean) && lowered::<A>(f2, mean, x) && emphasised::<A>(
            v.preemph,
            x,
            y,
        ) && windowed::<A>(y, v.win, w2);
    assert(x1 == x2);
    lemma_shaped::<A>(v.preemph, v.win, x1, y1, y2, w1, w2);
    assert(s1 == s2);
    lemma_power::<A>(s1, n, p1, p2);
    lemma_log_mel::<A>(v.filt, p1, l1, l2);
    lemma_cepstra::<A>(v, l1, o1, o2);
}

/// One frame, one row of cepstra: wherever the same samples stand, in one utterance or in two, the
/// same cepstra come of them, if the arithmetic has one answer for each operation.
pub proof fn law_one_row<A: Arith>(
    v: MfccView,
    a: Seq<u32>,
    b: Seq<u32>,
    y: MatView,
    z: MatView,
    i: int,
    j: int,
)
    requires
        one_sound::<A>(),
        is_mfcc::<A>(v, a, y),
        is_mfcc::<A>(v, b, z),
        0 <= i < y.r,
        0 <= j < z.r,
        frame_at(v, a, i) == frame_at(v, b, j),
    ensures
        y.row(i) == z.row(j),
{
    let f = frame_at(v, a, i);
    assert(is_frame::<A>(v, f, y.row(i)));
    assert(is_frame::<A>(v, frame_at(v, b, j), z.row(j)));
    assert(same_shape::<A>(v, f, f)) by {
        assert forall|m1: u32, m2: u32, x1: Seq<u32>, x2: Seq<u32>| #[trigger]
            is_mean::<A>(f, v.frame_len, m1) && #[trigger] is_mean::<A>(f, v.frame_len, m2)
                && #[trigger] lowered::<A>(f, m1, x1) && #[trigger] lowered::<A>(
                f,
                m2,
                x2,
            ) implies x1 == x2 by {
            lemma_lowered::<A>(f, v.frame_len, m1, m2, x1, x2);
        }
    }
    lemma_frame::<A>(v, f, f, y.row(i), z.row(j));
}

/// Row `t` of the cepstra is what the samples of frame `t` give by themselves.
pub proof fn law_window<A: Arith>(
    v: MfccView,
    samples: Seq<u32>,
    y: MatView,
    z: MatView,
    t: int,
)
    requires
        one_sound::<A>(),
        0 < v.frame_shift,
        is_mfcc::<A>(v, samples, y),
        is_mfcc::<A>(v, frame_at(v, samples, t), z),
        0 <= t < y.r,
    ensures
        z.r == 1,
        y.row(t) == z.row(0),
{
    law_frames(v, samples.len(), t);
    let f = frame_at(v, samples, t);
    assert(f.len() == v.frame_len);
    assert(z.r == 1) by {
        vstd::arithmetic::div_mod::lemma_div_basics(v.frame_shift as int);
    }
    assert(frame_at(v, f, 0) =~= f);
    law_one_row::<A>(v, samples, f, y, z, t, 0);
}

/// Samples that come later change no row that was there before.
pub proof fn law_more_samples<A: Arith>(
    v: MfccView,
    samples: Seq<u32>,
    more: Seq<u32>,
    y: MatView,
    z: MatView,
    t: int,
)
    requires
        one_sound::<A>(),
        0 < v.frame_shift,
        is_mfcc::<A>(v, samples, y),
        is_mfcc::<A>(v, samples + more, z),
        0 <= t < y.r,
    ensures
        y.r <= z.r,
        y.row(t) == z.row(t),
{
    let all = samples + more;
    law_frames(v, samples.len(), t);
    assert(frame_at(v, samples, t) =~= frame_at(v, all, t));
    vstd::arithmetic::div_mod::lemma_div_is_ordered(
        samples.len() - v.frame_len,
        all.len() - v.frame_len,
        v.frame_shift as int,
    );
    law_one_row::<A>(v, samples, all, y, z, t, t);
}

/// The samples of a frame are all `c`, and so is their mean, exactly.
pub open spec fn is_level<A: Arith>(v: MfccView, f: Seq<u32>, c: u32) -> bool {
    &&& f.len() == v.frame_len
    &&& forall|i: int| 0 <= i < f.len() ==> #[trigger] f[i] == c
    &&& forall|m: u32| #[trigger] is_mean::<A>(f, v.frame_len, m) ==> m == c
    &&& forall|d: u32| #[trigger] differences::<A>(c, c, d) ==> d == ZERO
}

/// A level frame sounds like silence: whatever its samples are, if they are all the same and the
/// arithmetic takes their mean exactly, the cepstra are those of any other such frame.
pub proof fn law_level<A: Arith>(
    v: MfccView,
    a: Seq<u32>,
    b: Seq<u32>,
    y: MatView,
    z: MatView,
    i: int,
    j: int,
    c: u32,
    d: u32,
)
    requires
        one_sound::<A>(),
        is_mfcc::<A>(v, a, y),
        is_mfcc::<A>(v, b, z),
        0 <= i < y.r,
        0 <= j < z.r,
        is_level::<A>(v, frame_at(v, a, i), c),
        is_level::<A>(v, frame_at(v, b, j), d),
    ensures
        y.row(i) == z.row(j),
{
    let f = frame_at(v, a, i);
    let g = frame_at(v, b, j);
    assert(is_frame::<A>(v, f, y.row(i)));
    assert(is_frame::<A>(v, g, z.row(j)));
    assert(same_shape::<A>(v, f, g)) by {
        assert forall|m1: u32, m2: u32, x1: Seq<u32>, x2: Seq<u32>| #[trigger]
            is_mean::<A>(f, v.frame_len, m1) && #[trigger] is_mean::<A>(g, v.frame_len, m2)
                && #[trigger] lowered::<A>(f, m1, x1) && #[trigger] lowered::<A>(
                g,
                m2,
                x2,
            ) implies x1 == x2 by {
            assert forall|k: int| 0 <= k < x1.len() implies x1[k] == x2[k] by {
                assert(f[k] == c && g[k] == d);
                assert(differences::<A>(f[k], m1, x1[k]));
                assert(differences::<A>(g[k], m2, x2[k]));
            }
            assert(x1 =~= x2);
        }
    }
    lemma_frame::<A>(v, f, g, y.row(i), z.row(j));
}

} // verus!
