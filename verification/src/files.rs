//! What the files of a model hold, byte by byte, and that it is what is read from them.

use vstd::prelude::*;
use vstd::utf8::{partial_valid_utf8, partial_valid_utf8_extend_ascii_block, valid_utf8};

use crate::fst::Fst;
use crate::kaldi_io::{i32_at, law_i32, pattern, sized, u32_at};
use crate::openfst::{
    graph_loaded, header, i64_at, in_range, kinds_end, layout, row_is, state_row, string_end, tr_is,
    tr_rows, GraphError,
};
use crate::scan::{ascii, first_match, law_first_match, occurs_at};
use crate::single::is_nan;
use crate::transition_model::{
    law_tuple, pdfs_of, spec_model, spec_tuples, tuples_marker, written_tuple, TransitionError,
    Tuple,
};

verus! {

/// `part` stands in `data` at `p`, for the first time.
pub open spec fn first_at(data: Seq<u8>, part: Seq<u8>, p: int) -> bool {
    &&& 0 <= p && p + part.len() <= data.len()
    &&& forall|i: int| 0 <= i < part.len() ==> #[trigger] data[p + i] == part[i]
    &&& forall|q: int|
        #![trigger data.subrange(q, q + part.len())]
        0 <= q < p ==> data.subrange(q, q + part.len()) != part
}

pub(crate) proof fn lemma_first_at(data: Seq<u8>, part: Seq<u8>, p: int)
    requires
        first_at(data, part, p),
        part.len() > 0,
    ensures
        first_match(data, part, 0) == Some(p as nat),
{
    law_first_match(data, part, 0);
    assert(data.subrange(p, p + part.len()) =~= part) by {
        assert forall|i: int| 0 <= i < part.len() implies data.subrange(p, p + part.len())[i]
            == part[i] by {
            assert(data[p + i] == part[i]);
        }
    }
    assert(occurs_at(data, part, p));
}

/// A transition-state of a file: its phone and its state in the phone, and the pdf-ids of its
/// forward transition and of its self-loop.
pub ghost struct Row {
    pub phone: i32,
    pub hmm_state: i32,
    pub forward: i32,
    pub self_loop: i32,
}

/// Transition-states one after the other: four integers each.
pub open spec fn written_rows(rows: Seq<Row>) -> Seq<u8>
    decreases rows.len(),
{
    if rows.len() == 0 {
        Seq::empty()
    } else {
        let r = rows.last();
        written_rows(rows.drop_last()) + (sized(pattern(r.phone)) + sized(pattern(r.hmm_state))
            + sized(pattern(r.forward)) + sized(pattern(r.self_loop)))
    }
}

proof fn lemma_rows(rows: Seq<Row>, tail: Seq<u8>)
    requires
        forall|i: int|
            0 <= i < rows.len() ==> (#[trigger] rows[i]).forward < i32::MAX && rows[i].self_loop
                < i32::MAX,
    ensures
        spec_tuples(written_rows(rows) + tail, rows.len()) == Ok::<
            (Seq<Tuple>, Seq<u8>),
            TransitionError,
        >(
            (
                Seq::new(
                    rows.len(),
                    |i: int| Tuple { forward: rows[i].forward, self_loop: rows[i].self_loop },
                ),
                tail,
            ),
        ),
    decreases rows.len(),
{
    let s = written_rows(rows) + tail;
    let ts = Seq::new(
        rows.len(),
        |i: int| Tuple { forward: rows[i].forward, self_loop: rows[i].self_loop },
    );
    if rows.len() == 0 {
        assert(s =~= tail);
        assert(ts =~= Seq::empty());
    } else {
        let front = rows.drop_last();
        let r = rows.last();
        let t = Tuple { forward: r.forward, self_loop: r.self_loop };
        let one = written_tuple(r.phone, r.hmm_state, t);
        assert forall|i: int| 0 <= i < front.len() implies (#[trigger] front[i]).forward < i32::MAX
            && front[i].self_loop < i32::MAX by {
            assert(front[i] == rows[i]);
        }
        lemma_rows(front, one + tail);
        assert(s =~= written_rows(front) + (one + tail));
        law_tuple(r.phone, r.hmm_state, t, tail);
        let before = Seq::new(
            front.len(),
            |i: int| Tuple { forward: front[i].forward, self_loop: front[i].self_loop },
        );
        assert(rows[rows.len() - 1] == r);
        assert(before.push(t) =~= ts);
    }
}

/// A file that holds, behind the first `<Tuples> `, how many transition-states there are and then
/// these, gives transition-id `2 i + 1` the pdf-id of the self-loop of transition-state `i` and
/// `2 i + 2` that of its forward transition.
pub proof fn law_transition_file(
    data: Seq<u8>,
    p: int,
    rows: Seq<Row>,
    tail: Seq<u8>,
    i: int,
) -> (ts: Seq<Tuple>)
    requires
        first_at(data, ascii("<Tuples> "@), p),
        data.skip(p + 9) == sized(pattern(rows.len() as i32)) + (written_rows(rows) + tail),
        rows.len() <= i32::MAX,
        forall|i: int|
            0 <= i < rows.len() ==> (#[trigger] rows[i]).forward < i32::MAX && rows[i].self_loop
                < i32::MAX,
        0 <= i < rows.len(),
    ensures
        spec_model(data) == Ok::<Seq<Tuple>, TransitionError>(ts),
        pdfs_of(ts).len() == 2 * rows.len() + 1,
        pdfs_of(ts)[2 * i + 1] == rows[i].self_loop,
        pdfs_of(ts)[2 * i + 2] == rows[i].forward,
{
    reveal_strlit("<Tuples> ");
    lemma_first_at(data, tuples_marker(), p);
    law_i32(rows.len() as i32, written_rows(rows) + tail);
    lemma_rows(rows, tail);
    Seq::new(
        rows.len(),
        |i: int| Tuple { forward: rows[i].forward, self_loop: rows[i].self_loop },
    )
}

/// The number in `n` bytes from place `p` on, the lowest first.
pub open spec fn number(s: Seq<u8>, p: int, n: nat) -> int
    decreases n,
{
    if n == 0 {
        0
    } else {
        s[p] + 0x100 * number(s, p + 1, (n - 1) as nat)
    }
}

pub(crate) proof fn lemma_four(s: Seq<u8>, p: int)
    ensures
        number(s, p, 4) == u32_at(s, p),
        number(s, p, 4) < 0x8000_0000 ==> i32_at(s, p) == number(s, p, 4),
        0 <= number(s, p, 4) < 0x1_0000_0000,
{
    reveal_with_fuel(number, 5);
}

proof fn lemma_eight(s: Seq<u8>, p: int)
    ensures
        number(s, p, 8) == number(s, p, 4) + 0x1_0000_0000 * number(s, p + 4, 4),
        number(s, p, 8) < 0x8000_0000_0000_0000 ==> i64_at(s, p) == number(s, p, 8),
{
    reveal_with_fuel(number, 9);
    lemma_four(s, p);
    lemma_four(s, p + 4);
}

proof fn lemma_plain(s: Seq<u8>)
    requires
        forall|i: int| 0 <= i < s.len() ==> #[trigger] s[i] < 0x80,
    ensures
        valid_utf8(s),
{
    assert(s.subrange(0, 0) =~= Seq::empty());
    assert(partial_valid_utf8(s, 0)) by {
        reveal_with_fuel(valid_utf8, 2);
    }
    partial_valid_utf8_extend_ascii_block(s, 0, s.len() as int);
    assert(s.subrange(0, s.len() as int) =~= s);
}

/// The front of a file of a transducer without symbol tables: the mark, the kinds, a version other
/// than the first, flags, properties, the start state, and how many states and transitions follow.
pub open spec fn is_front(s: Seq<u8>, start: Option<u32>, n: int, m: int) -> bool {
    &&& s.len() >= 65
    &&& number(s, 0, 4) == 2125659606
    &&& number(s, 4, 4) == 5
    &&& s.subrange(8, 13) == seq![0x63u8, 0x6f, 0x6e, 0x73, 0x74]
    &&& number(s, 13, 4) == 8
    &&& s.subrange(17, 25) == seq![0x73u8, 0x74, 0x61, 0x6e, 0x64, 0x61, 0x72, 0x64]
    &&& 2 <= number(s, 25, 4) < 0x8000_0000
    &&& number(s, 29, 4) == 0 || number(s, 29, 4) == 4
    &&& match start {
        Some(x) => number(s, 41, 8) == x,
        None => number(s, 41, 8) == 0xffff_ffff_ffff_ffff,
    }
    &&& number(s, 49, 8) == n
    &&& number(s, 57, 8) == m
}

proof fn lemma_name(s: Seq<u8>, p: int, name: Seq<u8>)
    requires
        0 <= p,
        p + 4 + name.len() <= s.len(),
        number(s, p, 4) == name.len(),
        name.len() < 0x80,
        s.subrange(p + 4, p + 4 + name.len()) == name,
        forall|i: int| 0 <= i < name.len() ==> #[trigger] name[i] < 0x80,
    ensures
        string_end(s, p as nat) == Some((p + 4 + name.len()) as nat),
{
    lemma_four(s, p);
    lemma_plain(name);
}

proof fn lemma_kinds(s: Seq<u8>, start: Option<u32>, n: int, m: int)
    requires
        is_front(s, start, n, m),
    ensures
        kinds_end(s) == Some(25nat),
{
    let a = seq![0x63u8, 0x6f, 0x6e, 0x73, 0x74];
    let b = seq![0x73u8, 0x74, 0x61, 0x6e, 0x64, 0x61, 0x72, 0x64];
    lemma_four(s, 0);
    lemma_name(s, 4, a);
    lemma_name(s, 13, b);
    assert(a == ascii("const"@)) by {
        reveal_strlit("const");
        assert(a =~= ascii("const"@));
    }
    assert(b == ascii("standard"@)) by {
        reveal_strlit("standard");
        assert(b =~= ascii("standard"@));
    }
}

pub(crate) proof fn lemma_front(s: Seq<u8>, start: Option<u32>, n: int, m: int)
    requires
        is_front(s, start, n, m),
        0 <= n < 0x8000_0000_0000_0000,
        0 <= m < 0x8000_0000_0000_0000,
    ensures
        header(s) matches Some(l) && l.start == start && l.num_states == n && l.num_trs == m
            && l.table == 65 && l.trs_table == 65 + 20 * n && l.numbered,
{
    lemma_kinds(s, start, n, m);
    lemma_four(s, 25);
    lemma_four(s, 29);
    lemma_four(s, 41);
    lemma_four(s, 45);
    lemma_eight(s, 41);
    lemma_eight(s, 49);
    lemma_eight(s, 57);
    let flags = u32_at(s, 29);
    assert(flags % 2 == 0 && flags / 2 % 2 == 0);
    assert(header(s) == Some(layout(s, 25, 65, 65)));
}

/// A transducer is read as it stands in its file. Behind the front, 20 bytes tell of each state:
/// the cost of ending in it, infinite where no way ends, where its transitions begin in the list of
/// all, and how many it has. 16 bytes tell of each transition: input label, output label, cost and
/// next state.
pub proof fn law_transducer_file(
    s: Seq<u8>,
    r: Result<Fst, GraphError>,
    start: Option<u32>,
    n: int,
    m: int,
)
    requires
        graph_loaded(s, r),
        is_front(s, start, n, m),
        0 <= n <= u32::MAX,
        0 <= m <= u32::MAX,
        65 + 20 * n + 16 * m <= s.len(),
        forall|k: int|
            #![trigger number(s, 65 + 20 * k + 4, 4)]
            0 <= k < n ==> number(s, 65 + 20 * k + 4, 4) < 0x8000_0000 && number(
                s,
                65 + 20 * k + 8,
                4,
            ) < 0x8000_0000 && number(s, 65 + 20 * k + 4, 4) + number(s, 65 + 20 * k + 8, 4) <= m,
    ensures
        r matches Ok(f) && f.start == start && f.states@.len() == n && forall|k: int|
            #![trigger f.states@[k]]
            0 <= k < n ==> {
                let st = f.states@[k];
                let bits = number(s, 65 + 20 * k, 4) as u32;
                &&& bits == 0x7f80_0000 ==> st.final_weight is None
                &&& bits != 0x7f80_0000 && !is_nan(bits) ==> st.final_weight == Some(bits)
                &&& st.trs matches Some(ts) && ts@.len() == number(s, 65 + 20 * k + 8, 4)
                    && forall|j: int|
                    #![trigger ts@[j]]
                    0 <= j < ts@.len() ==> {
                        let at = 65 + 20 * n + 16 * (number(s, 65 + 20 * k + 4, 4) + j);
                        let cost = number(s, at + 8, 4) as u32;
                        &&& ts@[j].ilabel == number(s, at, 4)
                        &&& ts@[j].olabel == number(s, at + 4, 4)
                        &&& !is_nan(cost) ==> ts@[j].weight == cost
                        &&& ts@[j].nextstate == number(s, at + 12, 4)
                    }
            },
{
    lemma_front(s, start, n, m);
    let l = header(s)->0;
    assert(n <= usize::MAX && m <= usize::MAX);
    let f = r->Ok_0;
    assert forall|k: int| #![trigger f.states@[k]] 0 <= k < n implies ({
        let st = f.states@[k];
        let bits = number(s, 65 + 20 * k, 4) as u32;
        &&& bits == 0x7f80_0000 ==> st.final_weight is None
        &&& bits != 0x7f80_0000 && !is_nan(bits) ==> st.final_weight == Some(bits)
        &&& st.trs matches Some(ts) && ts@.len() == number(s, 65 + 20 * k + 8, 4) && forall|j: int|
            #![trigger ts@[j]]
            0 <= j < ts@.len() ==> {
                let at = 65 + 20 * n + 16 * (number(s, 65 + 20 * k + 4, 4) + j);
                let cost = number(s, at + 8, 4) as u32;
                &&& ts@[j].ilabel == number(s, at, 4)
                &&& ts@[j].olabel == number(s, at + 4, 4)
                &&& !is_nan(cost) ==> ts@[j].weight == cost
                &&& ts@[j].nextstate == number(s, at + 12, 4)
            }
    }) by {
        let st = f.states@[k];
        let row = state_row(st);
        assert(row_is(s, l, k, state_row(f.states@[k])));
        lemma_four(s, 65 + 20 * k);
        lemma_four(s, 65 + 20 * k + 4);
        lemma_four(s, 65 + 20 * k + 8);
        assert(in_range(s, l, k));
        let ts = st.trs->0;
        assert(row.0 == Some(tr_rows(ts@)));
        assert forall|j: int| #![trigger ts@[j]] 0 <= j < ts@.len() implies ({
            let at = 65 + 20 * n + 16 * (number(s, 65 + 20 * k + 4, 4) + j);
            let cost = number(s, at + 8, 4) as u32;
            &&& ts@[j].ilabel == number(s, at, 4)
            &&& ts@[j].olabel == number(s, at + 4, 4)
            &&& !is_nan(cost) ==> ts@[j].weight == cost
            &&& ts@[j].nextstate == number(s, at + 12, 4)
        }) by {
            let at = 65 + 20 * n + 16 * (number(s, 65 + 20 * k + 4, 4) + j);
            lemma_four(s, at);
            lemma_four(s, at + 4);
            lemma_four(s, at + 8);
            lemma_four(s, at + 12);
            assert(tr_is(s, at, tr_rows(ts@)[j]));
        }
    }
}

} // verus!
