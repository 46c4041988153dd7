//! High-level recognizer: 16 kHz audio to words.
//!
//! A model is its acoustic model, its transducer, its word table and its settings. An utterance
//! goes through the front end, the network and the search, and comes out as text.

use vstd::prelude::*;
use vstd::slice::slice_to_vec;
use vstd::utf8::{decode_utf8, valid_utf8};

use crate::components::LoadError;
use crate::conf::{get_count, getf, is_count, is_setting};
use crate::decoder::Decoder;
use crate::fst::Fst;
use crate::mat::{EvalError, Mat, MatView};
use crate::mfcc::{
    is_conf_front_end, is_mfcc, mfcc_fault, no_conf_front_end, Mfcc, MfccView,
};
use crate::nnet3::{forwarded, loaded, Nnet3};
use crate::openfst::{graph_loaded, load_fst, GraphError};
use crate::search::{is_answer, is_fault, DecodeError, Problem};
use crate::single::{products, Arith, ONE, ZERO};
use crate::stored::{read_maybe_gz, unpacked, utf8, Stored};
use crate::text::texts;
use crate::transition_model::{
    count_pdfs, pdfs_of, spec_model, TransitionError, TransitionModel, Tuple,
};
use crate::words::{joined, parse_words, spell_out, spoken_words, word_table};

verus! {

/// The rate of samples, 16000 per second.
pub const SAMPLE_RATE: u32 = 0x467a_0000;

/// The range of samples, 32768.
pub const FULL_SCALE: u32 = 0x4700_0000;

/// The beam where none is set, 13.
pub const DEFAULT_BEAM: u32 = 0x4150_0000;

/// The limit on states where none is set, 7000.
pub const DEFAULT_MAX_ACTIVE: u32 = 0x45da_c000;

/// Why a model could not be loaded.
#[derive(Clone, Copy, PartialEq, Eq, Debug, Structural)]
pub enum ModelError {
    /// The network could not be read.
    Network(LoadError),
    /// The transition model could not be read.
    Transitions(TransitionError),
    /// The transducer could not be unpacked.
    GraphPacking,
    /// The transducer could not be read.
    Graph(GraphError),
    /// The word table could not be unpacked.
    WordsPacking,
    /// The word table is no text.
    WordsEncoding,
    /// The word table holds a number that is too large.
    WordsNumber,
    /// There is no front end of the kind that the settings ask for.
    FrontEnd,
}

/// Why an utterance could not be recognized.
#[derive(Clone, Copy, PartialEq, Eq, Debug, Structural)]
pub enum RecognizeError {
    /// The front end failed.
    FrontEnd(EvalError),
    /// The network failed.
    Network(EvalError),
    /// The search failed.
    Search(DecodeError),
}

/// A model, ready to recognize.
pub struct Recognizer {
    net: Nnet3,
    tm: TransitionModel,
    fst: Fst,
    words: Vec<String>,
    mfcc: Mfcc,
    decoder: Decoder,
}

/// The text of a word table file.
pub open spec fn words_of(s: Stored) -> Result<Seq<Seq<char>>, ModelError> {
    match unpacked(s) {
        None => Err(ModelError::WordsPacking),
        Some(bytes) => if !valid_utf8(bytes) {
            Err(ModelError::WordsEncoding)
        } else {
            match word_table(decode_utf8(bytes)) {
                None => Err(ModelError::WordsNumber),
                Some(t) => Ok(t),
            }
        },
    }
}

/// The word table of its file.
pub fn load_words(s: Stored) -> (r: Result<Vec<String>, ModelError>)
    ensures
        match r {
            Ok(t) => words_of(s) == Ok::<Seq<Seq<char>>, ModelError>(texts(t@)),
            Err(e) => words_of(s) == Err::<Seq<Seq<char>>, ModelError>(e),
        },
{
    let bytes = match read_maybe_gz(s) {
        Some(b) => b,
        None => {
            return Err(ModelError::WordsPacking);
        },
    };
    let text = match utf8(bytes) {
        Some(t) => t,
        None => {
            return Err(ModelError::WordsEncoding);
        },
    };
    match parse_words(text.as_str()) {
        Some(t) => Ok(t),
        None => Err(ModelError::WordsNumber),
    }
}

/// A transducer was read from its file.
pub open spec fn graph_stored(s: Stored, r: Result<Fst, ModelError>) -> bool {
    match unpacked(s) {
        None => r matches Err(e) && e == ModelError::GraphPacking,
        Some(bytes) => match r {
            Ok(f) => graph_loaded(bytes, Ok(f)),
            Err(ModelError::Graph(x)) => graph_loaded(bytes, Err(x)),
            Err(_) => false,
        },
    }
}

/// The transducer of its file.
pub fn load_graph(s: Stored) -> (r: Result<Fst, ModelError>)
    ensures
        graph_stored(s, r),
{
    let bytes = match read_maybe_gz(s) {
        Some(b) => b,
        None => {
            return Err(ModelError::GraphPacking);
        },
    };
    match load_fst(bytes.as_slice()) {
        Ok(f) => Ok(f),
        Err(x) => Err(ModelError::Graph(x)),
    }
}

/// `d` is the decoder that settings ask for.
pub open spec fn is_decoder<A: Arith>(conf: Seq<char>, d: Decoder) -> bool {
    &&& is_setting::<A>(conf, "beam"@, DEFAULT_BEAM, d.spec_beam())
    &&& is_setting::<A>(conf, "acoustic-scale"@, ONE, d.spec_acoustic_scale())
    &&& is_count::<A>(conf, "max-active"@, DEFAULT_MAX_ACTIVE, d.spec_max_active())
}

/// The decoder that settings ask for: beam 13, acoustic scale 1 and 7000 states unless they say
/// otherwise.
pub fn configure<A: Arith>(conf: &str) -> (d: Decoder)
    ensures
        is_decoder::<A>(conf@, d),
{
    let beam: u32 = getf::<A>(conf, "beam", DEFAULT_BEAM);
    let scale: u32 = getf::<A>(conf, "acoustic-scale", ONE);
    let max_active: usize = get_count::<A>(conf, "max-active", DEFAULT_MAX_ACTIVE);
    Decoder::new(beam, scale).with_max_active(max_active)
}

/// What a model holds.
pub ghost struct ModelView {
    pub net: Nnet3,
    pub tid2pdf: Seq<i32>,
    pub num_pdfs: usize,
    pub num_transition_states: usize,
    pub fst: Fst,
    pub words: Seq<Seq<char>>,
    pub mfcc: MfccView,
    pub decoder: Decoder,
}

impl View for Recognizer {
    type V = ModelView;

    closed spec fn view(&self) -> ModelView {
        ModelView {
            net: self.net,
            tid2pdf: self.tm.tid2pdf@,
            num_pdfs: self.tm.num_pdfs,
            num_transition_states: self.tm.num_transition_states,
            fst: self.fst,
            words: texts(self.words@),
            mfcc: self.mfcc@,
            decoder: self.decoder,
        }
    }
}

/// `v` is the model that files describe.
pub open spec fn is_model<A: Arith>(
    mdl: Seq<u8>,
    graph: Stored,
    words: Stored,
    conf: Seq<char>,
    mfcc_conf: Seq<char>,
    v: ModelView,
) -> bool {
    &&& loaded::<A>(mdl, Ok(v.net))
    &&& spec_model(mdl) is Ok
    &&& v.tid2pdf == pdfs_of(spec_model(mdl)->Ok_0)
    &&& v.num_pdfs == count_pdfs(spec_model(mdl)->Ok_0)
    &&& v.num_transition_states == spec_model(mdl)->Ok_0.len()
    &&& graph_stored(graph, Ok(v.fst))
    &&& words_of(words) == Ok::<Seq<Seq<char>>, ModelError>(v.words)
    &&& is_decoder::<A>(conf, v.decoder)
    &&& is_conf_front_end::<A>(mfcc_conf, SAMPLE_RATE, v.mfcc)
}

/// The network and the transition model of a file can be read.
pub open spec fn acoustics_read<A: Arith>(mdl: Seq<u8>) -> bool {
    spec_model(mdl) is Ok && exists|net: Nnet3| #[trigger] loaded::<A>(mdl, Ok(net))
}

/// The transducer of a file can be read.
pub open spec fn graph_read(graph: Stored) -> bool {
    exists|f: Fst| #[trigger] graph_stored(graph, Ok(f))
}

/// `e` is why files describe no model: the first thing that cannot be read, in the order of the
/// network, the transition model, the transducer, the word table and the front end.
pub open spec fn is_model_error<A: Arith>(
    mdl: Seq<u8>,
    graph: Stored,
    words: Stored,
    mfcc_conf: Seq<char>,
    e: ModelError,
) -> bool {
    match e {
        ModelError::Network(x) => loaded::<A>(mdl, Err(x)),
        ModelError::Transitions(x) => {
            &&& spec_model(mdl) == Err::<Seq<Tuple>, TransitionError>(x)
            &&& exists|net: Nnet3| #[trigger] loaded::<A>(mdl, Ok(net))
        },
        ModelError::GraphPacking => acoustics_read::<A>(mdl) && graph_stored(graph, Err(e)),
        ModelError::Graph(x) => acoustics_read::<A>(mdl) && graph_stored(graph, Err(e)),
        ModelError::FrontEnd => {
            &&& acoustics_read::<A>(mdl)
            &&& graph_read(graph)
            &&& words_of(words) is Ok
            &&& no_conf_front_end::<A>(mfcc_conf, SAMPLE_RATE)
        },
        _ => {
            &&& acoustics_read::<A>(mdl)
            &&& graph_read(graph)
            &&& words_of(words) == Err::<Seq<Seq<char>>, ModelError>(e)
        },
    }
}

/// `x` are samples in the 16-bit range.
pub open spec fn louder<A: Arith>(samples: Seq<u32>, x: Seq<u32>) -> bool {
    &&& x.len() == samples.len()
    &&& forall|i: int|
        0 <= i < x.len() ==> products::<A>(samples[i], FULL_SCALE, #[trigger] x[i])
}

/// A matrix of zeros.
pub open spec fn zeros(r: nat, c: nat) -> MatView {
    MatView { r, c, d: Seq::new(r * c, |i: int| ZERO) }
}

/// The rows of a matrix.
pub open spec fn rows_of(m: MatView) -> Seq<Seq<u32>> {
    Seq::new(m.r, |i: int| m.row(i))
}

/// The search through the transducer of a model, for log-likelihoods.
pub open spec fn search_of(v: ModelView, ll: MatView) -> Problem {
    Problem {
        fst: v.fst,
        tid2pdf: v.tid2pdf,
        frames: rows_of(ll),
        scale: v.decoder.spec_acoustic_scale(),
        beam: v.decoder.spec_beam(),
        max_active: v.decoder.spec_max_active() as nat,
    }
}

/// `ids` is what a search finds.
pub open spec fn is_found<A: Arith>(p: Problem, ids: Seq<u32>) -> bool {
    if p.fst.start is None {
        ids.len() == 0
    } else {
        is_answer::<A>(p, ids)
    }
}

/// Log-likelihoods were turned into text: the spoken words among those that the search finds.
pub open spec fn transcribed<A: Arith>(
    v: ModelView,
    ll: MatView,
    r: Result<String, DecodeError>,
) -> bool {
    match r {
        Ok(text) => exists|ids: Seq<u32>| #[trigger]
            is_found::<A>(search_of(v, ll), ids) && text@ == joined(spoken_words(v.words, ids)),
        Err(e) => is_fault::<A>(search_of(v, ll), e),
    }
}

/// The features of an utterance.
pub open spec fn is_features<A: Arith>(v: ModelView, samples: Seq<u32>, feats: MatView) -> bool {
    exists|x: Seq<u32>| #[trigger] louder::<A>(samples, x) && is_mfcc::<A>(v.mfcc, x, feats)
}

/// The network of a model was evaluated on features and a speaker's vector of zeros.
pub open spec fn evaluated<A: Arith>(
    v: ModelView,
    feats: MatView,
    r: Result<Mat, EvalError>,
) -> bool {
    if feats.r * v.net.vector_dim() > usize::MAX {
        r matches Err(e) && e == EvalError::Mismatch
    } else {
        forwarded::<A>(v.net.task(feats, zeros(feats.r, v.net.vector_dim() as nat)), r)
    }
}

/// An utterance was recognized: features, log-likelihoods and text follow from one another; or one
/// of the steps failed.
pub open spec fn recognized<A: Arith>(
    v: ModelView,
    samples: Seq<u32>,
    r: Result<String, RecognizeError>,
) -> bool {
    match r {
        Ok(text) => exists|feats: MatView, ll: Mat|
            #![trigger is_features::<A>(v, samples, feats), evaluated::<A>(v, feats, Ok(ll))]
            {
                &&& is_features::<A>(v, samples, feats)
                &&& evaluated::<A>(v, feats, Ok(ll))
                &&& transcribed::<A>(v, ll@, Ok(text))
            },
        Err(RecognizeError::FrontEnd(EvalError::Mismatch)) => samples.len() >= v.mfcc.frame_len && (
        v.mfcc.frame_len == 0 || v.mfcc.frame_shift == 0),
        Err(RecognizeError::FrontEnd(EvalError::Kernel)) => exists|x: Seq<u32>| #[trigger]
            louder::<A>(samples, x) && mfcc_fault::<A>(v.mfcc, x),
        Err(RecognizeError::Network(e)) => exists|feats: MatView| #[trigger]
            is_features::<A>(v, samples, feats) && evaluated::<A>(v, feats, Err(e)),
        Err(RecognizeError::Search(e)) => exists|feats: MatView, ll: Mat|
            #![trigger is_features::<A>(v, samples, feats), evaluated::<A>(v, feats, Ok(ll))]
            {
                &&& is_features::<A>(v, samples, feats)
                &&& evaluated::<A>(v, feats, Ok(ll))
                &&& transcribed::<A>(v, ll@, Err(e))
            },
    }
}

impl Recognizer {
    /// Load a model from what its files hold: the acoustic model, the transducer, the word table,
    /// and the settings of the search and of the front end (none are as good as empty ones).
    pub fn load<A: Arith>(
        mdl: &[u8],
        graph: Stored,
        words: Stored,
        conf: &str,
        mfcc_conf: &str,
    ) -> (r: Result<Recognizer, ModelError>)
        ensures
            match r {
                Ok(rec) => is_model::<A>(mdl@, graph, words, conf@, mfcc_conf@, rec@),
                Err(e) => is_model_error::<A>(mdl@, graph, words, mfcc_conf@, e),
            },
    {
        let net = match Nnet3::load::<A>(mdl) {
            Ok(n) => n,
            Err(x) => {
                return Err(ModelError::Network(x));
            },
        };
        assert(loaded::<A>(mdl@, Ok(net)));
        let tm = match TransitionModel::load(mdl) {
            Ok(t) => t,
            Err(x) => {
                return Err(ModelError::Transitions(x));
            },
        };
        let fst = match load_graph(graph) {
            Ok(f) => f,
            Err(e) => {
                return Err(e);
            },
        };
        assert(graph_stored(graph, Ok(fst)));
        let table = match load_words(words) {
            Ok(t) => t,
            Err(e) => {
                return Err(e);
            },
        };
        let decoder = configure::<A>(conf);
        let mfcc = match Mfcc::from_conf::<A>(mfcc_conf, SAMPLE_RATE) {
            Some(m) => m,
            None => {
                return Err(ModelError::FrontEnd);
            },
        };
        Ok(Recognizer { net, tm, fst, words: table, mfcc, decoder })
    }

    /// Log-likelihoods (one row per frame) to text.
    pub fn transcribe<A: Arith>(&self, ll: &Mat) -> (r: Result<String, DecodeError>)
        requires
            ll@.wf(),
        ensures
            transcribed::<A>(self@, ll@, r),
    {
        let mut loglikes: Vec<Vec<u32>> = Vec::new();
        let mut i: usize = 0;
        while i < ll.r
            invariant
                ll@.wf(),
                i <= ll.r,
                loglikes@.len() == i,
                forall|j: int| 0 <= j < i ==> (#[trigger] loglikes@[j])@ == ll@.row(j),
            decreases ll.r - i,
        {
            let row = slice_to_vec(ll.row(i));
            assert(row@ =~= ll@.row(i as int));
            loglikes.push(row);
            i = i + 1;
        }
        let ghost p = self.decoder.problem(self.fst, self.tm.tid2pdf@, loglikes@);
        assert(p.frames =~= rows_of(ll@));
        assert(p == search_of(self@, ll@));
        match self.decoder.decode::<A>(
            &self.fst,
            self.tm.tid2pdf.as_slice(),
            loglikes.as_slice(),
        ) {
            Ok(ids) => {
                assert(is_found::<A>(p, ids@));
                Ok(spell_out(&self.words, ids.as_slice()))
            },
            Err(e) => Err(e),
        }
    }

    /// Recognize an utterance: mono samples at 16 kHz, normalized to roughly [-1, 1].
    pub fn recognize<A: Arith>(&self, samples: &[u32]) -> (r: Result<String, RecognizeError>)
        ensures
            recognized::<A>(self@, samples@, r),
    {
        let mut x: Vec<u32> = Vec::new();
        let mut i: usize = 0;
        while i < samples.len()
            invariant
                i <= samples@.len(),
                x@.len() == i,
                forall|j: int|
                    0 <= j < i ==> products::<A>(samples@[j], FULL_SCALE, #[trigger] x@[j]),
            decreases samples@.len() - i,
        {
            x.push(A::mul(samples[i], FULL_SCALE));
            i = i + 1;
        }
        assert(louder::<A>(samples@, x@));
        let feats = match self.mfcc.compute::<A>(x.as_slice()) {
            Ok(f) => f,
            Err(e) => {
                return Err(RecognizeError::FrontEnd(e));
            },
        };
        let ghost fv = feats@;
        assert(is_features::<A>(self@, samples@, fv));
        let dim: usize = self.net.ivector_dim();
        let ivector = match feats.r.checked_mul(dim) {
            Some(n) => Mat::new(feats.r, dim),
            None => {
                let e = EvalError::Mismatch;
                assert(evaluated::<A>(self@, fv, Err(e)));
                return Err(RecognizeError::Network(e));
            },
        };
        assert(ivector@ == zeros(fv.r, dim as nat));
        let ll = match self.net.forward::<A>(feats, ivector) {
            Ok(m) => m,
            Err(e) => {
                assert(evaluated::<A>(self@, fv, Err(e)));
                return Err(RecognizeError::Network(e));
            },
        };
        assert(evaluated::<A>(self@, fv, Ok(ll)));
        match self.transcribe::<A>(&ll) {
            Ok(text) => Ok(text),
            Err(e) => Err(RecognizeError::Search(e)),
        }
    }
}

} // verus!
