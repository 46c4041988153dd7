//! A loaded model is what its files hold.

use vstd::prelude::*;
use vstd::utf8::{decode_utf8, valid_utf8};

use crate::components::{CompView, LoadError};
use crate::files::{
    first_at, is_front, law_transducer_file, law_transition_file, number, written_rows, Row,
};
use crate::fst::Fst;
use crate::graph::{graph_read, line_dim, reads_line, text_input_dim, Line, NodeView};
use crate::kaldi_io::{is_separator, latin, pattern, sized, spec_token};
use crate::layer_files::{goes_to, law_component_file, starts_at};
use crate::node_files::{
    input_line, is_tail, is_word, law_count, law_dim_line, law_graph_part, law_last_dim, law_nodes,
    law_word_line,
};
use crate::openfst::GraphError;
use crate::recognizer::{is_model, ModelView};
use crate::scan::{ascii, occurs_at};
use crate::single::{is_nan, Arith};
use crate::stored::Stored;
use crate::text::{is_digit, lines, trimmed};
use crate::words::{entry, entry_id, entry_word, law_lookup, stands};
use crate::written::{digits, lemma_digits};

verus! {

/// The pdf-ids of a loaded model are those in its file: transition-id `2 i + 1` has that of the
/// self-loop of transition-state `i`, and `2 i + 2` that of its forward transition.
pub proof fn law_model_pdfs<A: Arith>(
    mdl: Seq<u8>,
    graph: Stored,
    words: Stored,
    conf: Seq<char>,
    mfcc_conf: Seq<char>,
    v: ModelView,
    p: int,
    rows: Seq<Row>,
    tail: Seq<u8>,
    i: int,
)
    requires
        is_model::<A>(mdl, graph, words, conf, mfcc_conf, v),
        first_at(mdl, ascii("<Tuples> "@), p),
        mdl.skip(p + 9) == sized(pattern(rows.len() as i32)) + (written_rows(rows) + tail),
        rows.len() <= i32::MAX,
        forall|i: int|
            0 <= i < rows.len() ==> (#[trigger] rows[i]).forward < i32::MAX && rows[i].self_loop
                < i32::MAX,
        0 <= i < rows.len(),
    ensures
        v.tid2pdf.len() == 2 * rows.len() + 1,
        v.tid2pdf[2 * i + 1] == rows[i].self_loop,
        v.tid2pdf[2 * i + 2] == rows[i].forward,
{
    let ts = law_transition_file(mdl, p, rows, tail, i);
}

/// The transducer of a loaded model is the one in its file.
pub proof fn law_model_transducer<A: Arith>(
    mdl: Seq<u8>,
    graph: Vec<u8>,
    words: Stored,
    conf: Seq<char>,
    mfcc_conf: Seq<char>,
    v: ModelView,
    start: Option<u32>,
    n: int,
    m: int,
    k: int,
    j: int,
)
    requires
        is_model::<A>(mdl, Stored::Plain(graph), words, conf, mfcc_conf, v),
        is_front(graph@, start, n, m),
        0 <= n <= u32::MAX,
        0 <= m <= u32::MAX,
        65 + 20 * n + 16 * m <= graph@.len(),
        forall|k: int|
            #![trigger number(graph@, 65 + 20 * k + 4, 4)]
            0 <= k < n ==> number(graph@, 65 + 20 * k + 4, 4) < 0x8000_0000 && number(
                graph@,
                65 + 20 * k + 8,
                4,
            ) < 0x8000_0000 && number(graph@, 65 + 20 * k + 4, 4) + number(
                graph@,
                65 + 20 * k + 8,
                4,
            ) <= m,
        0 <= k < n,
        0 <= j < number(graph@, 65 + 20 * k + 8, 4),
    ensures
        v.fst.start == start,
        v.fst.states@.len() == n,
        ({
            let bits = number(graph@, 65 + 20 * k, 4) as u32;
            &&& bits == 0x7f80_0000 ==> v.fst.final_of(k as u32) is None
            &&& bits != 0x7f80_0000 && !is_nan(bits) ==> v.fst.final_of(k as u32) == Some(bits)
        }),
        v.fst.trs_of(k as u32).len() == number(graph@, 65 + 20 * k + 8, 4),
        ({
            let at = 65 + 20 * n + 16 * (number(graph@, 65 + 20 * k + 4, 4) + j);
            let tr = v.fst.trs_of(k as u32)[j];
            let cost = number(graph@, at + 8, 4) as u32;
            &&& tr.ilabel == number(graph@, at, 4)
            &&& tr.olabel == number(graph@, at + 4, 4)
            &&& !is_nan(cost) ==> tr.weight == cost
            &&& tr.nextstate == number(graph@, at + 12, 4)
        }),
{
    law_transducer_file(graph@, Ok::<Fst, GraphError>(v.fst), start, n, m);
    let st = v.fst.states@[k];
    let ts = st.trs->0;
    let tr = ts@[j];
}

/// A line of a word table: a word and its number.
pub open spec fn is_word_line(line: Seq<char>, w: Seq<char>, n: usize) -> bool {
    exists|tail: Seq<char>|
        is_word(w) && is_tail(tail) && line == #[trigger] (w + seq![' '] + digits(n as nat) + tail)
}

/// A line that puts no word under the number `n`: it is empty, or has another number.
pub open spec fn other_line(line: Seq<char>, n: usize) -> bool {
    line.len() == 0 || exists|w: Seq<char>, k: usize| #[trigger] is_word_line(line, w, k) && k != n
}

proof fn lemma_word_line(line: Seq<char>, w: Seq<char>, n: usize)
    requires
        is_word_line(line, w, n),
    ensures
        entry(line) == Some((w, n)),
{
    let tail = choose|tail: Seq<char>|
        is_word(w) && is_tail(tail) && line == #[trigger] (w + seq![' '] + digits(n as nat) + tail);
    law_word_line(w, n, tail);
}

/// The words of a loaded model stand under the numbers that its word table gives them.
pub proof fn law_model_word<A: Arith>(
    mdl: Seq<u8>,
    graph: Stored,
    words: Vec<u8>,
    conf: Seq<char>,
    mfcc_conf: Seq<char>,
    v: ModelView,
    i: int,
    w: Seq<char>,
    n: usize,
)
    requires
        is_model::<A>(mdl, graph, Stored::Plain(words), conf, mfcc_conf, v),
        valid_utf8(words@),
        0 <= i < lines(decode_utf8(words@)).len(),
        is_word_line(lines(decode_utf8(words@))[i], w, n),
        forall|j: int|
            i < j < lines(decode_utf8(words@)).len() ==> other_line(
                #[trigger] lines(decode_utf8(words@))[j],
                n,
            ),
    ensures
        n < v.words.len(),
        v.words[n as int] == w,
{
    let ls = lines(decode_utf8(words@));
    lemma_word_line(ls[i], w, n);
    assert forall|j: int| i < j < ls.len() && (#[trigger] entry(ls[j])) is Some implies entry_id(
        ls[j],
    ) != entry_id(ls[i]) by {
        assert(other_line(ls[j], n));
        if ls[j].len() > 0 {
            let (u, k) = choose|w: Seq<char>, k: usize| #[trigger]
                is_word_line(ls[j], w, k) && k != n;
            lemma_word_line(ls[j], u, k);
        } else {
            crate::text::lemma_stretch(ls[j], true);
            assert(ls[j].skip(0).len() == 0);
        }
    }
    assert(stands(ls, i, ls.len()));
    law_lookup(ls, i, ls.len());
    assert(entry_word(ls[i]) == w && entry_id(ls[i]) == n);
}

/// The components of a loaded model are those in its file.
pub proof fn law_model_component<A: Arith>(
    mdl: Seq<u8>,
    graph: Stored,
    words: Stored,
    conf: Seq<char>,
    mfcc_conf: Seq<char>,
    v: ModelView,
    s: int,
    e: int,
    name: Seq<u8>,
    kind: Seq<u8>,
    rest: Seq<u8>,
    layer: CompView,
)
    requires
        is_model::<A>(mdl, graph, words, conf, mfcc_conf, v),
        starts_at(mdl, s),
        goes_to(mdl, s, e),
        mdl.skip(s + 16) == name + seq![0x20u8] + kind + seq![0x20u8] + rest,
        name.len() > 0 && forall|i: int|
            0 <= i < name.len() ==> !is_separator(#[trigger] name[i]),
        kind.len() > 0 && forall|i: int|
            0 <= i < kind.len() ==> !is_separator(#[trigger] kind[i]),
        crate::components::spec_layer(mdl, s as nat, e as nat, latin(kind)) == Ok::<
            CompView,
            LoadError,
        >(layer),
        forall|p: int| #[trigger]
            starts_at(mdl, p) && s < p ==> (spec_token(mdl.skip(p + 16)) matches Ok((other, _))
                ==> other != latin(name)),
    ensures
        v.net.comps().contains_pair(latin(name), layer),
{
    law_component_file(mdl, v.net.comps(), s, e, name, kind, rest, layer);
}

/// `text` is what stands between the first `<Nnet3>` and the first `<NumComponents>` of a file.
pub open spec fn is_graph_text(mdl: Seq<u8>, text: Seq<char>) -> bool {
    exists|p: int, q: int|
        {
            &&& #[trigger] first_at(mdl, ascii("<Nnet3>"@), p)
            &&& #[trigger] first_at(mdl, ascii("<NumComponents>"@), q)
            &&& p <= q
            &&& valid_utf8(mdl.subrange(p, q))
            &&& text == decode_utf8(mdl.subrange(p, q))
        }
}

proof fn lemma_graph_text<A: Arith>(
    mdl: Seq<u8>,
    graph: Stored,
    words: Stored,
    conf: Seq<char>,
    mfcc_conf: Seq<char>,
    v: ModelView,
    text: Seq<char>,
)
    requires
        is_model::<A>(mdl, graph, words, conf, mfcc_conf, v),
        is_graph_text(mdl, text),
    ensures
        graph_read::<A>(text, Ok(v.net.nodes())),
        v.net.vector_dim() == text_input_dim(text, "ivector"@),
{
    let (p, q) = choose|p: int, q: int|
        {
            &&& #[trigger] first_at(mdl, ascii("<Nnet3>"@), p)
            &&& #[trigger] first_at(mdl, ascii("<NumComponents>"@), q)
            &&& p <= q
            &&& valid_utf8(mdl.subrange(p, q))
            &&& text == decode_utf8(mdl.subrange(p, q))
        };
    law_graph_part(mdl, p, q);
}

/// The nodes of a loaded model are what the lines of its graph say.
pub proof fn law_model_nodes<A: Arith>(
    mdl: Seq<u8>,
    graph: Stored,
    words: Stored,
    conf: Seq<char>,
    mfcc_conf: Seq<char>,
    v: ModelView,
    text: Seq<char>,
) -> (rs: Seq<Line>)
    requires
        is_model::<A>(mdl, graph, words, conf, mfcc_conf, v),
        is_graph_text(mdl, text),
    ensures
        rs.len() == lines(text).len(),
        forall|i: int|
            0 <= i < rs.len() ==> reads_line::<A>(trimmed(lines(text)[i]), #[trigger] rs[i]),
        forall|i: int|
            #![trigger rs[i]]
            0 <= i < rs.len() ==> (rs[i] matches Ok(Some((name, node)))
                ==> v.net.nodes().contains_key(name) && (v.net.nodes()[name] == node || exists|
                j: int,
            |
                i < j < rs.len() && (#[trigger] rs[j] matches Ok(Some((other, _))) && other
                    == name))),
        forall|name: Seq<char>| #[trigger]
            v.net.nodes().contains_key(name) ==> exists|i: int|
                0 <= i < rs.len() && #[trigger] rs[i] == Ok::<
                    Option<(Seq<char>, NodeView)>,
                    LoadError,
                >(Some((name, v.net.nodes()[name]))),
{
    lemma_graph_text::<A>(mdl, graph, words, conf, mfcc_conf, v, text);
    law_nodes::<A>(text, v.net.nodes())
}

/// The speaker's vector of a loaded model is as long as the line of the input `ivector` says.
pub proof fn law_model_vector<A: Arith>(
    mdl: Seq<u8>,
    graph: Stored,
    words: Stored,
    conf: Seq<char>,
    mfcc_conf: Seq<char>,
    v: ModelView,
    text: Seq<char>,
    i: int,
    n: usize,
)
    requires
        is_model::<A>(mdl, graph, words, conf, mfcc_conf, v),
        is_graph_text(mdl, text),
        0 <= i < lines(text).len(),
        trimmed(lines(text)[i]) == input_line("ivector"@, " dim="@ + digits(n as nat)),
        forall|j: int|
            i < j < lines(text).len() ==> !occurs_at(
                trimmed(#[trigger] lines(text)[j]),
                "input-node"@,
                0,
            ),
    ensures
        v.net.vector_dim() == n,
{
    lemma_graph_text::<A>(mdl, graph, words, conf, mfcc_conf, v, text);
    let ls = lines(text);
    let d = digits(n as nat);
    lemma_digits(n as nat);
    assert forall|k: int| 0 <= k < d.len() implies '!' <= #[trigger] d[k] <= '~' by {
        assert(is_digit(d[k]));
    }
    law_count(n);
    assert(is_word("ivector"@)) by {
        reveal_strlit("ivector");
    }
    law_dim_line("ivector"@, d, n);
    assert forall|j: int| i < j < ls.len() implies line_dim(
        trimmed(#[trigger] ls[j]),
        "ivector"@,
    ) is None by {}
    law_last_dim(ls, "ivector"@, ls.len(), i, n);
}

} // verus!
