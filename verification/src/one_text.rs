//! The same samples give the same text, where the arithmetic has one answer for each operation and
//! no search is tied.

use vstd::prelude::*;

use crate::best_path::{orderly, proper_search};
use crate::cepstra::{law_one_row, one_sound};
use crate::determinism::one_answer;
use crate::mat::{Mat, MatView};
use crate::mfcc::is_mfcc;
use crate::nnet3::forwarded;
use crate::recognizer::{
    evaluated, is_features, is_found, louder, recognized, search_of, transcribed, zeros, ModelView,
    FULL_SCALE,
};
use crate::search::Problem;
use crate::single::{products, Arith};
use crate::unneeded::law_one_forward;
use crate::untied::{law_one_answer, one_cost, proper_beam, untied};
use crate::words::{joined, spoken_words};

verus! {

/// Whatever log-likelihoods the samples lead to, the search through them is not tied and meets
/// proper costs only.
pub open spec fn clear<A: Arith>(v: ModelView, samples: Seq<u32>) -> bool {
    forall|feats: MatView, ll: Mat|
        #![trigger is_features::<A>(v, samples, feats), evaluated::<A>(v, feats, Ok(ll))]
        is_features::<A>(v, samples, feats) && evaluated::<A>(v, feats, Ok(ll)) ==> clear_search::<
            A,
        >(search_of(v, ll@))
}

/// A search that is not tied and meets proper costs only.
pub open spec fn clear_search<A: Arith>(p: Problem) -> bool {
    untied::<A>(p) && proper_search::<A>(p) && proper_beam::<A>(p)
}

/// Matrices of one shape with the same rows are the same.
proof fn lemma_same_rows(y: MatView, z: MatView)
    requires
        y.wf(),
        z.wf(),
        y.r == z.r,
        y.c == z.c,
        forall|t: int| 0 <= t < y.r ==> #[trigger] y.row(t) == z.row(t),
    ensures
        y == z,
{
    let c = y.c as int;
    assert forall|k: int| 0 <= k < y.d.len() implies y.d[k] == z.d[k] by {
        assert(c > 0) by {
            if c == 0 {
                assert(y.r * c == 0) by (nonlinear_arith)
                    requires
                        c == 0,
                ;
            }
        }
        let t = k / c;
        let j = k % c;
        vstd::arithmetic::div_mod::lemma_fundamental_div_mod(k, c);
        vstd::arithmetic::div_mod::lemma_mod_bound(k, c);
        vstd::arithmetic::div_mod::lemma_div_pos_is_pos(k, c);
        assert(t < y.r) by (nonlinear_arith)
            requires
                k == c * t + j,
                0 <= j,
                k < y.r * c,
                c > 0,
        ;
        assert(c * t == t * c) by (nonlinear_arith);
        assert(t * c + c <= y.r * c) by (nonlinear_arith)
            requires
                t < y.r,
                c > 0,
        ;
        assert(y.row(t) == z.row(t));
        assert(y.row(t)[j] == y.d[k]);
        assert(z.row(t)[j] == z.d[k]);
    }
    assert(y.d =~= z.d);
}

proof fn lemma_one_features<A: Arith>(
    v: ModelView,
    samples: Seq<u32>,
    y: MatView,
    z: MatView,
)
    requires
        one_sound::<A>(),
        is_features::<A>(v, samples, y),
        is_features::<A>(v, samples, z),
    ensures
        y == z,
{
    let a = choose|x: Seq<u32>| #[trigger] louder::<A>(samples, x) && is_mfcc::<A>(v.mfcc, x, y);
    let b = choose|x: Seq<u32>| #[trigger] louder::<A>(samples, x) && is_mfcc::<A>(v.mfcc, x, z);
    assert forall|i: int| 0 <= i < a.len() implies a[i] == b[i] by {
        assert(products::<A>(samples[i], FULL_SCALE, a[i]));
        assert(products::<A>(samples[i], FULL_SCALE, b[i]));
    }
    assert(a =~= b);
    assert forall|t: int| 0 <= t < y.r implies #[trigger] y.row(t) == z.row(t) by {
        law_one_row::<A>(v.mfcc, a, b, y, z, t, t);
    }
    lemma_same_rows(y, z);
}

/// An utterance that is recognized twice reads the same both times: if the arithmetic has one
/// answer for each operation and the order of numbers is kept, and nothing is tied in the search,
/// there is one text that the samples can give.
pub proof fn law_one_text<A: Arith>(
    v: ModelView,
    samples: Seq<u32>,
    text: String,
    other: String,
)
    requires
        one_sound::<A>(),
        one_answer::<A>(),
        orderly::<A>(),
        clear::<A>(v, samples),
        recognized::<A>(v, samples, Ok(text)),
        recognized::<A>(v, samples, Ok(other)),
    ensures
        text@ == other@,
{
    let (f1, l1) = choose|feats: MatView, ll: Mat|
        #![trigger is_features::<A>(v, samples, feats), evaluated::<A>(v, feats, Ok(ll))]
        {
            &&& is_features::<A>(v, samples, feats)
            &&& evaluated::<A>(v, feats, Ok(ll))
            &&& transcribed::<A>(v, ll@, Ok(text))
        };
    let (f2, l2) = choose|feats: MatView, ll: Mat|
        #![trigger is_features::<A>(v, samples, feats), evaluated::<A>(v, feats, Ok(ll))]
        {
            &&& is_features::<A>(v, samples, feats)
            &&& evaluated::<A>(v, feats, Ok(ll))
            &&& transcribed::<A>(v, ll@, Ok(other))
        };
    lemma_one_features::<A>(v, samples, f1, f2);
    let task = v.net.task(f1, zeros(f1.r, v.net.vector_dim() as nat));
    assert(forwarded::<A>(task, Ok(l1)) && forwarded::<A>(task, Ok(l2)));
    law_one_forward::<A>(task, Ok(l1), Ok(l2));
    assert(l1@ == l2@);
    let p = search_of(v, l1@);
    assert(clear_search::<A>(p));
    assert(one_cost::<A>());
    let a = choose|ids: Seq<u32>| #[trigger]
        is_found::<A>(p, ids) && text@ == joined(spoken_words(v.words, ids));
    let b = choose|ids: Seq<u32>| #[trigger]
        is_found::<A>(p, ids) && other@ == joined(spoken_words(v.words, ids));
    if p.fst.start is Some {
        law_one_answer::<A>(p, a, b);
    }
    assert(a =~= b);
}

} // verus!
