//! What is said of files that are not what they should be.

use vstd::prelude::*;
use vstd::utf8::valid_utf8;

use crate::components::{spec_layer, CompView, LoadError};
use crate::files::{is_front, number};
use crate::fst::Fst;
use crate::graph::graph_bytes;
use crate::kaldi_io::{
    is_separator, latin, law_i32, law_token, pattern, sized, spec_binary, spec_f32,
    spec_float_matrix, spec_float_vec, spec_i32, spec_i32_vec, written_token, ReadError,
};
use crate::layer_files::untagged;
use crate::openfst::{graph_loaded, GraphError};
use crate::recognizer::{graph_stored, is_model_error, words_of, ModelError};
use crate::scan::{ascii, first_match, law_first_match, occurs_at};
use crate::single::Arith;
use crate::stored::{gunzipped, Stored};
use crate::transition_model::{spec_model, TransitionError, TransitionModel, Tuple};

verus! {

/// `part` stands nowhere in the bytes.
pub open spec fn missing(data: Seq<u8>, part: Seq<u8>) -> bool {
    forall|q: int|
        #![trigger data.subrange(q, q + part.len())]
        0 <= q && q + part.len() <= data.len() ==> data.subrange(q, q + part.len()) != part
}

proof fn lemma_missing(data: Seq<u8>, part: Seq<u8>)
    requires
        missing(data, part),
        part.len() > 0,
    ensures
        first_match(data, part, 0) is None,
{
    law_first_match(data, part, 0);
    if let Some(p) = first_match(data, part, 0) {
        assert(occurs_at(data, part, p as int));
    }
}

/// A binary stream begins with a zero byte and `B`.
pub proof fn law_binary(s: Seq<u8>)
    ensures
        s.len() < 2 ==> spec_binary(s) == Err::<((), Seq<u8>), ReadError>(ReadError::UnexpectedEof),
        s.len() >= 2 && s.take(2) == seq![0x00u8, 0x42u8] ==> spec_binary(s) == Ok::<
            ((), Seq<u8>),
            ReadError,
        >(((), s.skip(2))),
        s.len() >= 2 && s.take(2) != seq![0x00u8, 0x42u8] ==> spec_binary(s) == Err::<
            ((), Seq<u8>),
            ReadError,
        >(ReadError::NotBinary),
{
    if s.len() >= 2 {
        let t = s.take(2);
        assert(t[0] == s[0] && t[1] == s[1]);
        if s[0] == 0 && s[1] == 0x42 {
            assert(t =~= seq![0x00u8, 0x42u8]);
        }
    }
}

/// A number whose size byte is not 4 is refused, and so is one that is cut short.
pub proof fn law_bad_number(s: Seq<u8>)
    ensures
        s.len() > 0 && s[0] != 4 ==> spec_i32(s) == Err::<(i32, Seq<u8>), ReadError>(
            ReadError::IntSize,
        ) && spec_f32(s) == Err::<(u32, Seq<u8>), ReadError>(ReadError::FloatSize),
        s.len() < 5 && (s.len() > 0 ==> s[0] == 4) ==> spec_i32(s) == Err::<
            (i32, Seq<u8>),
            ReadError,
        >(ReadError::UnexpectedEof) && spec_f32(s) == Err::<(u32, Seq<u8>), ReadError>(
            ReadError::UnexpectedEof,
        ),
        s.len() >= 5 && s[0] == 4 ==> spec_i32(s) is Ok && spec_f32(s) is Ok,
{
}

/// A vector with fewer than no entries is refused, and one that is cut short.
pub proof fn law_bad_count(n: i32, rest: Seq<u8>)
    ensures
        n < 0 ==> spec_i32_vec(sized(pattern(n)) + rest) == Err::<(Seq<i32>, Seq<u8>), ReadError>(
            ReadError::NegativeLength,
        ),
        n >= 0 && rest.len() < 4 * n ==> spec_i32_vec(sized(pattern(n)) + rest) == Err::<
            (Seq<i32>, Seq<u8>),
            ReadError,
        >(ReadError::UnexpectedEof),
{
    law_i32(n, rest);
}

/// Where a vector is to be read, a stream begins with the token `FV`, and where a matrix, with
/// `FM`.
pub proof fn law_bad_token(t: Seq<u8>, rest: Seq<u8>)
    requires
        t.len() > 0,
        forall|i: int| 0 <= i < t.len() ==> !is_separator(#[trigger] t[i]),
    ensures
        t != seq![0x46u8, 0x56u8] ==> spec_float_vec(t + seq![0x20u8] + rest) == Err::<
            (Seq<u32>, Seq<u8>),
            ReadError,
        >(ReadError::ExpectedVector),
        t != seq![0x46u8, 0x4du8] ==> spec_float_matrix(t + seq![0x20u8] + rest) == Err::<
            ((nat, nat, Seq<u32>), Seq<u8>),
            ReadError,
        >(ReadError::ExpectedMatrix),
{
    let none = Seq::<u8>::empty();
    let s = t + seq![0x20u8] + rest;
    assert(s =~= none + written_token(t) + rest);
    law_token(none, t, rest);
    reveal_strlit("FV");
    reveal_strlit("FM");
    assert(latin(t).len() == t.len());
    if latin(t) == "FV"@ {
        assert(t.len() == 2);
        assert(latin(t)[0] == 'F' && latin(t)[1] == 'V');
        assert(t =~= seq![0x46u8, 0x56u8]);
    }
    if latin(t) == "FM"@ {
        assert(t.len() == 2);
        assert(latin(t)[0] == 'F' && latin(t)[1] == 'M');
        assert(t =~= seq![0x46u8, 0x4du8]);
    }
}

/// A file without `<Tuples> ` has no transition model.
pub proof fn law_no_tuples(data: Seq<u8>)
    requires
        missing(data, ascii("<Tuples> "@)),
    ensures
        spec_model(data) == Err::<Seq<Tuple>, TransitionError>(TransitionError::NoTuples),
{
    reveal_strlit("<Tuples> ");
    lemma_missing(data, ascii("<Tuples> "@));
}

/// A layer that lacks its weights is refused: an affine or a time-delay layer without
/// `<LinearParams>`, a linear one without `<Params>`, a normalising one without `<StatsMean>`.
pub proof fn law_missing_item(buf: Seq<u8>, s: int, e: int)
    requires
        0 <= s <= e <= buf.len(),
    ensures
        untagged(buf, s, e, "<LinearParams> "@) ==> spec_layer(
            buf,
            s as nat,
            e as nat,
            "<FixedAffineComponent>"@,
        ) == Err::<CompView, LoadError>(LoadError::MissingItem) && spec_layer(
            buf,
            s as nat,
            e as nat,
            "<NaturalGradientAffineComponent>"@,
        ) == Err::<CompView, LoadError>(LoadError::MissingItem),
        untagged(buf, s, e, "<Params> "@) ==> spec_layer(
            buf,
            s as nat,
            e as nat,
            "<LinearComponent>"@,
        ) == Err::<CompView, LoadError>(LoadError::MissingItem),
        untagged(buf, s, e, "<TimeOffsets> "@) ==> spec_layer(
            buf,
            s as nat,
            e as nat,
            "<TdnnComponent>"@,
        ) == Err::<CompView, LoadError>(LoadError::MissingItem),
        untagged(buf, s, e, "<StatsMean> "@) ==> spec_layer(
            buf,
            s as nat,
            e as nat,
            "<BatchNormComponent>"@,
        ) == Err::<CompView, LoadError>(LoadError::MissingItem),
{
    crate::layer_files::lemma_kinds();
    reveal_strlit("<LinearParams> ");
    reveal_strlit("<Params> ");
    reveal_strlit("<TimeOffsets> ");
    reveal_strlit("<StatsMean> ");
    if untagged(buf, s, e, "<LinearParams> "@) {
        crate::layer_files::lemma_untagged(buf, s, e, "<LinearParams> "@);
    }
    if untagged(buf, s, e, "<Params> "@) {
        crate::layer_files::lemma_untagged(buf, s, e, "<Params> "@);
    }
    if untagged(buf, s, e, "<TimeOffsets> "@) {
        crate::layer_files::lemma_untagged(buf, s, e, "<TimeOffsets> "@);
    }
    if untagged(buf, s, e, "<StatsMean> "@) {
        crate::layer_files::lemma_untagged(buf, s, e, "<StatsMean> "@);
    }
}

/// A file without `<Nnet3>`, or without `<NumComponents>`, has no graph.
pub proof fn law_no_graph(buf: Seq<u8>)
    requires
        missing(buf, ascii("<Nnet3>"@)) || missing(buf, ascii("<NumComponents>"@)),
    ensures
        graph_bytes(buf) is None,
{
    reveal_strlit("<Nnet3>");
    reveal_strlit("<NumComponents>");
    if missing(buf, ascii("<Nnet3>"@)) {
        lemma_missing(buf, ascii("<Nnet3>"@));
    } else {
        lemma_missing(buf, ascii("<NumComponents>"@));
    }
}

/// A file that does not begin with the mark of transducers has no transducer; one whose front says
/// more states and transitions than it holds has none either.
pub proof fn law_bad_transducer(
    s: Seq<u8>,
    r: Result<Fst, GraphError>,
    start: Option<u32>,
    n: int,
    m: int,
)
    requires
        graph_loaded(s, r),
    ensures
        s.len() < 4 || number(s, 0, 4) != 2125659606 ==> r == Err::<Fst, GraphError>(
            GraphError::Header,
        ),
        is_front(s, start, n, m) && 0 <= n < 0x8000_0000_0000_0000 && 0 <= m
            < 0x8000_0000_0000_0000 && s.len() < 65 + 20 * n + 16 * m ==> r == Err::<
            Fst,
            GraphError,
        >(GraphError::Body),
{
    crate::files::lemma_four(s, 0);
    if is_front(s, start, n, m) && 0 <= n < 0x8000_0000_0000_0000 && 0 <= m
        < 0x8000_0000_0000_0000 && s.len() < 65 + 20 * n + 16 * m {
        crate::files::lemma_front(s, start, n, m);
    }
}

/// Files that cannot be unpacked, and a word table that is no UTF-8, are refused as such.
pub proof fn law_bad_files(v: Vec<u8>, r: Result<Fst, ModelError>)
    requires
        graph_stored(Stored::Gzip(v), r),
    ensures
        gunzipped(v@) is None ==> r == Err::<Fst, ModelError>(ModelError::GraphPacking),
        gunzipped(v@) is None ==> words_of(Stored::Gzip(v)) == Err::<Seq<Seq<char>>, ModelError>(
            ModelError::WordsPacking,
        ),
        !valid_utf8(v@) ==> words_of(Stored::Plain(v)) == Err::<Seq<Seq<char>>, ModelError>(
            ModelError::WordsEncoding,
        ),
{
}

/// The other form of a model holds, from byte 12 on, how many pdf-ids there are, how many
/// transition-ids, and the pdf-id of each.
pub proof fn law_int4_file(data: &[u8], r: Result<TransitionModel, TransitionError>, i: int)
    requires
        call_ensures(TransitionModel::load_int4, (data,), r),
        data@.len() >= 20,
    ensures
        r is Ok <==> data@.len() >= 20 + 4 * number(data@, 16, 4),
        r matches Ok(m) ==> m.num_pdfs == number(data@, 12, 4) && m.tid2pdf@.len() == number(
            data@,
            16,
            4,
        ) && m.num_transition_states == number(data@, 16, 4) / 2 && (0 <= i < m.tid2pdf@.len()
            && number(data@, 20 + 4 * i, 4) < 0x8000_0000 ==> m.tid2pdf@[i] == number(
            data@,
            20 + 4 * i,
            4,
        )),
{
    crate::files::lemma_four(data@, 12);
    crate::files::lemma_four(data@, 16);
    crate::files::lemma_four(data@, 20 + 4 * i);
}

/// A model is not refused for a part that is in order: not for a transition model or a word table
/// that can be read, not for the packing of a transducer that is not packed, and not for a
/// transducer whose file holds one.
pub proof fn law_no_blame<A: Arith>(
    mdl: Seq<u8>,
    graph: Vec<u8>,
    words: Stored,
    mfcc_conf: Seq<char>,
    e: ModelError,
    start: Option<u32>,
    n: int,
    m: int,
)
    requires
        is_model_error::<A>(mdl, Stored::Plain(graph), words, mfcc_conf, e),
    ensures
        spec_model(mdl) is Ok ==> !(e is Transitions),
        words_of(words) is Ok ==> e != ModelError::WordsPacking && e != ModelError::WordsEncoding
            && e != ModelError::WordsNumber,
        e != ModelError::GraphPacking,
        is_front(graph@, start, n, m) && 0 <= n <= u32::MAX && 0 <= m <= u32::MAX && graph@.len()
            >= 65 + 20 * n + 16 * m ==> !(e is Graph),
{
    if is_front(graph@, start, n, m) && 0 <= n <= u32::MAX && 0 <= m <= u32::MAX && graph@.len()
        >= 65 + 20 * n + 16 * m {
        crate::files::lemma_front(graph@, start, n, m);
        assert(n <= usize::MAX && m <= usize::MAX);
    }
}

} // verus!
