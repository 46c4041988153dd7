//! What calls of the library give, in terms of what they are given.

use vstd::prelude::*;

use crate::decoder::Decoder;
use crate::evaluation::{is_trace, vals, Trace};
use crate::fitting::{
    all_fit, law_fitting_network, law_fitting_network_succeeds, sized_products, Plan,
};
use crate::fst::Fst;
use crate::heard::{blank, thirds};
use crate::mat::{EvalError, Mat, MatView};
use crate::mfcc::{
    frame_at, frame_count, is_conditioned, is_front_end, is_mfcc, mfcc_fault, padded,
    short_transform, Mfcc, MfccView,
};
use crate::nnet3::Nnet3;
use crate::recognizer::{
    evaluated, is_features, louder, recognized, search_of, transcribed, zeros, ModelView,
    RecognizeError,
};
use crate::search::{is_answer, is_fault, DecodeError, Problem};
use crate::single::{transforms, Arith};
use crate::spectra::law_row_of_frame;

verus! {

/// A decoder that was made with a beam, an acoustic scale and a limit on states gives an answer of
/// the search with that beam, that scale and that limit, through the transducer, with the table of
/// pdf-ids, over the frames that it is given.
pub proof fn law_decode<A: Arith>(
    beam: u32,
    scale: u32,
    max_active: usize,
    made: Decoder,
    d: Decoder,
    fst: &Fst,
    tid2pdf: &[i32],
    loglikes: &[Vec<u32>],
    words: Vec<u32>,
    frames: Seq<Seq<u32>>,
)
    requires
        call_ensures(Decoder::new, (beam, scale), made),
        call_ensures(Decoder::with_max_active, (made, max_active), d),
        call_ensures(
            Decoder::decode::<A>,
            (&d, fst, tid2pdf, loglikes),
            Ok::<Vec<u32>, DecodeError>(words),
        ),
        frames.len() == loglikes@.len(),
        forall|k: int| 0 <= k < frames.len() ==> #[trigger] frames[k] == loglikes@[k]@,
    ensures
        fst.start is None ==> words@.len() == 0,
        fst.start is Some ==> is_answer::<A>(
            Problem {
                fst: *fst,
                tid2pdf: tid2pdf@,
                frames,
                scale,
                beam,
                max_active: max_active as nat,
            },
            words@,
        ),
{
    let p = d.problem(*fst, tid2pdf@, loglikes@);
    assert(p.frames =~= frames);
}

/// A decoder that was made without a limit on states keeps up to 7000.
pub proof fn law_usual_limit<A: Arith>(
    beam: u32,
    scale: u32,
    d: Decoder,
    fst: &Fst,
    tid2pdf: &[i32],
    loglikes: &[Vec<u32>],
    words: Vec<u32>,
    frames: Seq<Seq<u32>>,
)
    requires
        call_ensures(Decoder::new, (beam, scale), d),
        call_ensures(
            Decoder::decode::<A>,
            (&d, fst, tid2pdf, loglikes),
            Ok::<Vec<u32>, DecodeError>(words),
        ),
        fst.start is Some,
        frames.len() == loglikes@.len(),
        forall|k: int| 0 <= k < frames.len() ==> #[trigger] frames[k] == loglikes@[k]@,
    ensures
        is_answer::<A>(
            Problem { fst: *fst, tid2pdf: tid2pdf@, frames, scale, beam, max_active: 7000 },
            words@,
        ),
{
    let p = d.problem(*fst, tid2pdf@, loglikes@);
    assert(p.frames =~= frames);
}

/// The usual front end has 40 mel bins and 40 cepstra, for the rate that it is made for.
pub proof fn law_usual_front_end<A: Arith>(sr: u32, m: Mfcc)
    requires
        call_ensures(Mfcc::vosk::<A>, (sr,), Some(m)),
    ensures
        is_front_end::<A>(sr, 40, 40, m@),
        m@.filt.len() == 40 && m@.dct.len() == 40 && m@.lift.len() == 40 && m@.num_ceps == 40,
{
}

/// The arithmetic gives Fourier transforms that are as long as what is transformed.
pub open spec fn sized_transforms<A: Arith>() -> bool {
    forall|x: Seq<(u32, u32)>, y: Seq<(u32, u32)>| #[trigger]
        transforms::<A>(x, y) ==> y.len() == x.len()
}

/// A front end whose frames have a length and a distance gives the cepstra of any samples.
pub proof fn law_compute<A: Arith>(m: Mfcc, samples: &[u32], r: Result<Mat, EvalError>)
    requires
        call_ensures(Mfcc::compute::<A>, (&m, samples), r),
        sized_transforms::<A>(),
        m@.frame_len > 0,
        m@.frame_shift > 0,
    ensures
        r matches Ok(y) && is_mfcc::<A>(m@, samples@, y@),
{
    lemma_no_mfcc_fault::<A>(m@, samples@);
}

/// An evaluation of a network begins with the features under `input` and the speaker's vector under
/// `ivector`, and gives the rows 0, 3, 6 and so on of `output`.
pub proof fn law_forward<A: Arith>(net: Nnet3, feats: Mat, ivector: Mat, y: Mat) -> (tr: Trace)
    requires
        call_ensures(
            Nnet3::forward::<A>,
            (&net, feats, ivector),
            Ok::<Mat, EvalError>(y),
        ),
    ensures
        is_trace::<A>(net.task(feats@, ivector@), tr),
        vals(tr).contains_pair("input"@, feats@),
        vals(tr).contains_pair("ivector"@, ivector@),
        vals(tr).contains_key("output"@),
        vals(tr)["output"@].wf() ==> thirds(vals(tr)["output"@], y@),
{
    let task = net.task(feats@, ivector@);
    crate::heard::law_subsampled::<A>(task, y);
    let tr = choose|tr: Trace| #[trigger]
        is_trace::<A>(task, tr) && vals(tr).contains_key("output"@) && (
        vals(tr)["output"@].wf() ==> thirds(vals(tr)["output"@], y@));
    crate::determinism::law_inputs::<A>(task, tr);
    tr
}

/// The network of a model fits features of any length, and gives as many columns as `width`.
pub open spec fn always_fits(v: ModelView, width: nat) -> bool {
    forall|feats: MatView, speaker: MatView|
        #![trigger v.net.task(feats, speaker)]
        feats.c == v.mfcc.num_ceps && feats.r > 0 && blank(
            speaker,
            feats.r,
            v.net.vector_dim() as nat,
        ) ==> exists|plan: Plan| #[trigger]
            all_fit(v.net.task(feats, speaker), plan) && plan.wide.contains_key("output"@)
                && plan.wide["output"@] == width
}

/// The search of a model comes to an answer for all log-likelihoods of as many columns as `width`.
pub open spec fn always_found<A: Arith>(v: ModelView, width: nat) -> bool {
    forall|ll: MatView, e: DecodeError|
        ll.wf() && ll.c == width ==> !#[trigger] is_fault::<A>(search_of(v, ll), e)
}

/// An utterance that holds a frame is recognized, if the network of the model fits its front end,
/// the search fits the network, and the arithmetic gives transforms and products of the right size.
pub proof fn law_recognize<A: Arith>(
    v: ModelView,
    samples: Seq<u32>,
    r: Result<String, RecognizeError>,
    width: nat,
)
    requires
        recognized::<A>(v, samples, r),
        sized_transforms::<A>(),
        sized_products::<A>(),
        v.mfcc.frame_len > 0,
        v.mfcc.frame_shift > 0,
        samples.len() >= v.mfcc.frame_len,
        samples.len() * v.net.vector_dim() <= usize::MAX,
        always_fits(v, width),
        always_found::<A>(v, width),
    ensures
        r is Ok,
{
    match r {
        Ok(text) => {},
        Err(RecognizeError::FrontEnd(EvalError::Mismatch)) => {},
        Err(RecognizeError::FrontEnd(EvalError::Kernel)) => {
            let x = choose|x: Seq<u32>| #[trigger]
                louder::<A>(samples, x) && mfcc_fault::<A>(v.mfcc, x);
            lemma_no_mfcc_fault::<A>(v.mfcc, x);
        },
        Err(RecognizeError::Network(e)) => {
            let feats = choose|feats: MatView| #[trigger]
                is_features::<A>(v, samples, feats) && evaluated::<A>(v, feats, Err(e));
            lemma_evaluated::<A>(v, samples, feats, Err(e), width);
        },
        Err(RecognizeError::Search(e)) => {
            let (feats, ll) = choose|feats: MatView, ll: Mat|
                #![trigger is_features::<A>(v, samples, feats), evaluated::<A>(v, feats, Ok(ll))]
                {
                    &&& is_features::<A>(v, samples, feats)
                    &&& evaluated::<A>(v, feats, Ok(ll))
                    &&& transcribed::<A>(v, ll@, Err(e))
                };
            lemma_evaluated::<A>(v, samples, feats, Ok(ll), width);
            assert(is_fault::<A>(search_of(v, ll@), e));
        },
    }
}

proof fn lemma_evaluated<A: Arith>(
    v: ModelView,
    samples: Seq<u32>,
    feats: MatView,
    r: Result<Mat, EvalError>,
    width: nat,
)
    requires
        is_features::<A>(v, samples, feats),
        evaluated::<A>(v, feats, r),
        sized_products::<A>(),
        v.mfcc.frame_len > 0,
        v.mfcc.frame_shift > 0,
        samples.len() >= v.mfcc.frame_len,
        samples.len() * v.net.vector_dim() <= usize::MAX,
        always_fits(v, width),
    ensures
        r matches Ok(y) && y@.wf() && y@.c == width,
{
    let x = choose|x: Seq<u32>| #[trigger]
        louder::<A>(samples, x) && is_mfcc::<A>(v.mfcc, x, feats);
    law_row_of_frame::<A>(v.mfcc, x, feats, 0, Seq::empty());
    let (n, d, s) = (feats.r as int, v.net.vector_dim() as int, v.mfcc.frame_shift as int);
    assert(n <= samples.len()) by (nonlinear_arith)
        requires
            (n - 1) * s + v.mfcc.frame_len <= samples.len(),
            s >= 1,
            v.mfcc.frame_len >= 1,
            n >= 1,
    ;
    assert(n * d <= samples.len() * d) by (nonlinear_arith)
        requires
            n <= samples.len(),
            d >= 0,
    ;
    let speaker = zeros(feats.r, v.net.vector_dim() as nat);
    let task = v.net.task(feats, speaker);
    assert(blank(speaker, feats.r, v.net.vector_dim() as nat));
    let plan = choose|plan: Plan| #[trigger]
        all_fit(task, plan) && plan.wide.contains_key("output"@) && plan.wide["output"@] == width;
    law_fitting_network_succeeds::<A>(task, plan, r);
    law_fitting_network::<A>(task, plan, r);
}

proof fn lemma_no_mfcc_fault<A: Arith>(v: MfccView, samples: Seq<u32>)
    requires
        sized_transforms::<A>(),
    ensures
        !mfcc_fault::<A>(v, samples),
{
    if mfcc_fault::<A>(v, samples) {
        let t = choose|t: int|
            0 <= t < frame_count(v, samples.len()) && short_transform::<A>(
                v,
                #[trigger] frame_at(v, samples, t),
            );
        let f = frame_at(v, samples, t);
        let (w, s) = choose|w: Seq<u32>, s: Seq<(u32, u32)>|
            #![trigger is_conditioned::<A>(v, f, w),
                transforms::<A>(padded(w, v.fft_size as nat), s)]
            is_conditioned::<A>(v, f, w) && transforms::<A>(padded(w, v.fft_size as nat), s)
                && s.len() != v.fft_size;
    }
}

} // verus!
