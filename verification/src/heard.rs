//! How an utterance goes through a model, from the samples to the text.

use vstd::prelude::*;

use crate::evaluation::{is_trace, vals, Task, Trace};
use crate::layers::at;
use crate::mat::{every_third, law_rows, lemma_row_len, lemma_within, Mat, MatView};
use crate::mfcc::is_mfcc;
use crate::nnet3::forwarded;
use crate::recognizer::{
    evaluated, is_features, is_found, louder, recognized, search_of, transcribed, zeros, ModelView,
};
use crate::search::is_answer;
use crate::single::{products, Arith};
use crate::values::{faithful, finite, held, lemma_exact, lemma_order, power, size_of, value};
use crate::words::{joined, marked_words, spoken_words};

verus! {

/// The two patterns stand for the same number: they are the same, or both are zero.
pub open spec fn same_number(a: u32, b: u32) -> bool {
    finite(a) && finite(b) && value(a) == value(b) && (value(a) != 0real ==> a == b)
}

/// Every entry of a matrix is zero.
pub open spec fn blank(m: MatView, r: nat, c: nat) -> bool {
    &&& m.r == r && m.c == c && m.wf()
    &&& forall|i: int| 0 <= i < m.d.len() ==> #[trigger] m.d[i] == 0
}

proof fn lemma_full_scale()
    ensures
        value(0x4700_0000) == 32768real,
        finite(0x4700_0000),
{
    reveal_with_fuel(power, 9);
    assert(size_of(0x4700_0000) == 0x80_0000real * power(-8));
}

/// Samples between -1 and 1 are heard as the 16-bit samples that they were divided from: the text
/// comes of the cepstra of the samples times 32768, from which the network, with a speaker's
/// vector of zeros, makes log-likelihoods, from which the search makes words.
pub proof fn law_sixteen_bits<A: Arith>(
    v: ModelView,
    samples: Seq<u32>,
    pcm: Seq<u32>,
    text: String,
)
    requires
        faithful::<A>(),
        recognized::<A>(v, samples, Ok(text)),
        samples.len() == pcm.len(),
        forall|i: int|
            0 <= i < pcm.len() ==> finite(#[trigger] pcm[i]) && finite(samples[i]) && value(pcm[i])
                == value(samples[i]) * 32768real,
    ensures
        exists|x: Seq<u32>, feats: MatView, speaker: MatView, ll: Mat|
            #![trigger is_mfcc::<A>(v.mfcc, x, feats),
                forwarded::<A>(v.net.task(feats, speaker), Ok(ll))]
            {
                &&& x.len() == pcm.len()
                &&& forall|i: int| 0 <= i < x.len() ==> same_number(#[trigger] x[i], pcm[i])
                &&& is_mfcc::<A>(v.mfcc, x, feats)
                &&& blank(speaker, feats.r, v.net.vector_dim() as nat)
                &&& forwarded::<A>(v.net.task(feats, speaker), Ok(ll))
                &&& transcribed::<A>(v, ll@, Ok(text))
            },
{
    let (feats, ll) = choose|feats: MatView, ll: Mat|
        #![trigger is_features::<A>(v, samples, feats), evaluated::<A>(v, feats, Ok(ll))]
        {
            &&& is_features::<A>(v, samples, feats)
            &&& evaluated::<A>(v, feats, Ok(ll))
            &&& transcribed::<A>(v, ll@, Ok(text))
        };
    let x = choose|x: Seq<u32>| #[trigger]
        louder::<A>(samples, x) && is_mfcc::<A>(v.mfcc, x, feats);
    lemma_full_scale();
    assert forall|i: int| 0 <= i < x.len() implies same_number(#[trigger] x[i], pcm[i]) by {
        assert(products::<A>(samples[i], 0x4700_0000, x[i]));
        assert(finite(pcm[i]));
        assert(held(value(samples[i]) * 32768real));
        lemma_exact(value(samples[i]) * 32768real, x[i]);
        lemma_order(x[i], pcm[i]);
        lemma_order(x[i], 0);
        assert(value(0) == 0real) by {
            assert(0real * power(-149) == 0real) by (nonlinear_arith);
        }
    }
    let speaker = zeros(feats.r, v.net.vector_dim() as nat);
    assert(blank(speaker, feats.r, v.net.vector_dim() as nat));
    assert(is_mfcc::<A>(v.mfcc, x, feats) && forwarded::<A>(v.net.task(feats, speaker), Ok(ll)));
}

/// `y` holds the rows 0, 3, 6 and so on of `out`.
pub open spec fn thirds(out: MatView, y: MatView) -> bool {
    &&& y.c == out.c
    &&& out.r <= 3 * y.r < out.r + 3
    &&& forall|i: int, j: int|
        0 <= i < y.r && 0 <= j < y.c ==> #[trigger] at(y, i, j) == at(out, 3 * i, j)
}

/// What an evaluation gives are the rows 0, 3, 6 and so on of the output node.
pub proof fn law_subsampled<A: Arith>(task: Task, y: Mat)
    requires
        forwarded::<A>(task, Ok(y)),
    ensures
        exists|tr: Trace| #[trigger]
            is_trace::<A>(task, tr) && vals(tr).contains_key("output"@) && (
            vals(tr)["output"@].wf() ==> thirds(vals(tr)["output"@], y@)),
{
    let tr = choose|tr: Trace|
        {
            &&& #[trigger] is_trace::<A>(task, tr)
            &&& vals(tr).contains_key("output"@)
            &&& crate::evaluation::has_shape(
                task,
                "output"@,
                crate::evaluation::shape(vals(tr)["output"@]),
            )
            &&& y@ == every_third(vals(tr)["output"@])
        };
    let m = vals(tr)["output"@];
    let r = (m.r + 2) / 3;
    let f = |i: int| m.row(3 * i);
    if m.wf() {
        assert forall|k: int| 0 <= k < r implies (#[trigger] f(k)).len() == m.c by {
            lemma_row_len(m, 3 * k);
        }
        assert forall|i: int, j: int| 0 <= i < r && 0 <= j < m.c implies #[trigger] at(y@, i, j)
            == at(m, 3 * i, j) by {
            law_rows(r, m.c, f, i);
            lemma_within(i, r as int, m.c as int);
            lemma_within(3 * i, m.r as int, m.c as int);
            assert(y@.row(i)[j] == m.row(3 * i)[j]);
        }
        assert(thirds(m, y@));
    }
}

/// A number of a word that is spoken: the word is there, and it is neither empty nor a mark of
/// silence.
pub open spec fn is_said(table: Seq<Seq<char>>, id: u32) -> bool {
    &&& 0 <= id < table.len()
    &&& table[id as int] != ""@
    &&& table[id as int] != "!SIL"@
    &&& table[id as int] != "<eps>"@
}

/// The words of an answer are those under its numbers, in their order, but for silence, the empty
/// word, and numbers that have no word.
pub proof fn law_all_words(table: Seq<Seq<char>>, ids: Seq<u32>)
    ensures
        spoken_words(table, ids) == ids.filter(|id: u32| is_said(table, id)).map_values(
            |id: u32| table[id as int],
        ),
    decreases ids.len(),
{
    let said = |id: u32| is_said(table, id);
    let word = |id: u32| table[id as int];
    reveal_strlit("");
    assert(""@ =~= Seq::<char>::empty());
    if ids.len() > 0 {
        let front = ids.drop_last();
        law_all_words(table, front);
        reveal(Seq::filter);
        assert(ids.filter(said) == (if said(ids.last()) {
            front.filter(said).push(ids.last())
        } else {
            front.filter(said)
        }));
        assert(table.len() > ids.last() && table[ids.last() as int].len() == 0
            ==> table[ids.last() as int] =~= ""@);
        assert(spoken_words(table, ids) =~= ids.filter(said).map_values(word));
    } else {
        reveal(Seq::filter);
        assert(spoken_words(table, ids) =~= ids.filter(said).map_values(word));
    }
}

/// The marked words of an answer are those under its numbers, in their order, but for silence and
/// the empty word, with `?` for numbers that have no word.
pub proof fn law_marked_words(table: Seq<Seq<char>>, ids: Seq<u32>)
    ensures
        marked_words(table, ids) == ids.filter(
            |id: u32| id >= table.len() || (table[id as int] != "!SIL"@ && table[id as int]
                != "<eps>"@),
        ).map_values(
            |id: u32|
                if id >= table.len() || table[id as int] == ""@ {
                    "?"@
                } else {
                    table[id as int]
                },
        ),
    decreases ids.len(),
{
    let heard = |id: u32|
        id >= table.len() || (table[id as int] != "!SIL"@ && table[id as int] != "<eps>"@);
    let word = |id: u32|
        if id >= table.len() || table[id as int] == ""@ {
            "?"@
        } else {
            table[id as int]
        };
    reveal(Seq::filter);
    if ids.len() > 0 {
        let (front, id) = (ids.drop_last(), ids.last());
        law_marked_words(table, front);
        assert(ids.filter(heard) == (if heard(id) {
            front.filter(heard).push(id)
        } else {
            front.filter(heard)
        }));
        if id < table.len() {
            let w = table[id as int];
            assert(w.len() == 0 <==> w == ""@) by {
                reveal_strlit("");
                if w.len() == 0 {
                    assert(w =~= ""@);
                }
            }
            assert(w == ""@ ==> w != "!SIL"@ && w != "<eps>"@) by {
                reveal_strlit("");
                reveal_strlit("!SIL");
                reveal_strlit("<eps>");
            }
        }
        assert(marked_words(table, ids) =~= ids.filter(heard).map_values(word));
    } else {
        assert(marked_words(table, ids) =~= ids.filter(heard).map_values(word));
    }
}

/// A text goes on with one space and the next word.
pub proof fn law_one_space(ws: Seq<Seq<char>>, w: Seq<char>)
    ensures
        joined(seq![w]) == w,
        ws.len() > 0 ==> joined(ws.push(w)) == joined(ws) + " "@ + w,
{
    reveal_strlit(" ");
    assert(" "@ =~= seq![' ']);
    assert(ws.push(w).drop_last() =~= ws);
}

/// The text of log-likelihoods is made of the words of an answer of the search through the model's
/// transducer, with its table of pdf-ids, over the rows of log-likelihoods.
pub proof fn law_transcribed<A: Arith>(v: ModelView, ll: MatView, text: String)
    requires
        transcribed::<A>(v, ll, Ok(text)),
        v.fst.start is Some,
        ll.wf(),
    ensures
        exists|ids: Seq<u32>| #[trigger]
            is_answer::<A>(search_of(v, ll), ids) && text@ == joined(spoken_words(v.words, ids)),
        search_of(v, ll).fst == v.fst,
        search_of(v, ll).tid2pdf == v.tid2pdf,
        search_of(v, ll).frames.len() == ll.r,
        forall|i: int, j: int|
            0 <= i < ll.r && 0 <= j < ll.c ==> #[trigger] search_of(v, ll).frames[i][j] == at(
                ll,
                i,
                j,
            ),
{
    let p = search_of(v, ll);
    let ids = choose|ids: Seq<u32>| #[trigger]
        is_found::<A>(p, ids) && text@ == joined(spoken_words(v.words, ids));
    assert(is_answer::<A>(p, ids));
    assert forall|i: int, j: int| 0 <= i < ll.r && 0 <= j < ll.c implies #[trigger] search_of(
        v,
        ll,
    ).frames[i][j] == at(ll, i, j) by {
        lemma_within(i, ll.r as int, ll.c as int);
    }
}

/// A transducer without a start state gives an empty text.
pub proof fn law_no_start<A: Arith>(v: ModelView, ll: MatView, text: String)
    requires
        transcribed::<A>(v, ll, Ok(text)),
        v.fst.start is None,
    ensures
        text@.len() == 0,
{
    let ids = choose|ids: Seq<u32>| #[trigger]
        is_found::<A>(search_of(v, ll), ids) && text@ == joined(spoken_words(v.words, ids));
    assert(spoken_words(v.words, ids).len() == 0);
}

} // verus!
