//! Kaldi TransitionModel: `tid2pdf` for a **chain** model.
//!
//! Chain models store `<Tuples>` of `(phone, hmm_state, forward_pdf, self_loop_pdf)`. With the
//! standard chain topology (one emitting state, two transitions), each tuple is one
//! transition-state with exactly 2 transition-ids: `2*i+1` = self-loop (its self_loop_pdf) and
//! `2*i+2` = forward (its forward_pdf), numbered from 1. The tuples are reached by seeking the
//! `<Tuples>` token (the topology in between is pure binary with no tokens).

use vstd::prelude::*;
use vstd::slice::slice_subrange;

use crate::kaldi_io::{
    i32_at, law_i32, le_i32, le_u32, pattern, sized, spec_i32, u32_at, KaldiReader, Parsed,
    ReadError,
};
use crate::scan::{ascii, find, first_match, literal};

verus! {

/// Why a transition model could not be read.
#[derive(Clone, Copy, PartialEq, Eq, Debug, Structural)]
pub enum TransitionError {
    /// There is no `<Tuples>` token.
    NoTuples,
    /// The tuples cannot be read.
    Read(ReadError),
    /// A pdf-id is the largest integer, so that the number of pdf-ids is none.
    PdfTooLarge,
}

/// A tuple, as far as it matters here.
pub ghost struct Tuple {
    pub forward: i32,
    pub self_loop: i32,
}

/// The marker before the tuples.
pub open spec fn tuples_marker() -> Seq<u8> {
    ascii("<Tuples> "@)
}

/// One tuple: four integers, of which the last two are kept.
pub open spec fn spec_tuple(s: Seq<u8>) -> Parsed<Tuple> {
    match spec_i32(s) {
        Err(e) => Err(e),
        Ok((_, s)) => match spec_i32(s) {
            Err(e) => Err(e),
            Ok((_, s)) => match spec_i32(s) {
                Err(e) => Err(e),
                Ok((forward, s)) => match spec_i32(s) {
                    Err(e) => Err(e),
                    Ok((self_loop, s)) => Ok((Tuple { forward, self_loop }, s)),
                },
            },
        },
    }
}

/// The first `n` tuples of a stream, or the error met on the way: that of a read, or a pdf-id
/// that cannot be counted.
pub open spec fn spec_tuples(s: Seq<u8>, n: nat) -> Result<(Seq<Tuple>, Seq<u8>), TransitionError>
    decreases n,
{
    if n == 0 {
        Ok((Seq::empty(), s))
    } else {
        match spec_tuples(s, (n - 1) as nat) {
            Err(e) => Err(e),
            Ok((ts, r)) => match spec_tuple(r) {
                Err(e) => Err(TransitionError::Read(e)),
                Ok((t, r)) => if t.forward == i32::MAX || t.self_loop == i32::MAX {
                    Err(TransitionError::PdfTooLarge)
                } else {
                    Ok((ts.push(t), r))
                },
            },
        }
    }
}

/// The pdf-id of each transition-id; there is no transition-id 0.
pub open spec fn pdfs_of(ts: Seq<Tuple>) -> Seq<i32> {
    Seq::new(
        2 * ts.len() + 1,
        |k: int|
            if k == 0 {
                -1i32
            } else if k % 2 == 1 {
                ts[k / 2].self_loop
            } else {
                ts[k / 2 - 1].forward
            },
    )
}

/// One more than the largest pdf-id, and at least 0.
pub open spec fn count_pdfs(ts: Seq<Tuple>) -> int
    decreases ts.len(),
{
    if ts.len() == 0 {
        0
    } else {
        let before = count_pdfs(ts.drop_last());
        let a = ts.last().forward + 1;
        let b = ts.last().self_loop + 1;
        if before >= a && before >= b {
            before
        } else if a >= b {
            a
        } else {
            b
        }
    }
}

/// What a model file says about transitions: its tuples, or why there are none.
pub open spec fn spec_model(data: Seq<u8>) -> Result<Seq<Tuple>, TransitionError> {
    match first_match(data, tuples_marker(), 0) {
        None => Err(TransitionError::NoTuples),
        Some(p) => match spec_i32(data.skip((p + tuples_marker().len()) as int)) {
            Err(e) => Err(TransitionError::Read(e)),
            Ok((n, s)) => if n < 0 {
                Err(TransitionError::Read(ReadError::NegativeLength))
            } else {
                match spec_tuples(s, n as nat) {
                    Err(e) => Err(e),
                    Ok((ts, _)) => Ok(ts),
                }
            },
        },
    }
}

/// The mapping from transition-ids to pdf-ids.
#[derive(Debug)]
pub struct TransitionModel {
    /// tid2pdf[transition_id] = pdf_id; index 0 unused.
    pub tid2pdf: Vec<i32>,
    pub num_pdfs: usize,
    pub num_transition_states: usize,
}

proof fn lemma_tuples_fail(s: Seq<u8>, m: nat, n: nat)
    requires
        m <= n,
        spec_tuples(s, m) is Err,
    ensures
        spec_tuples(s, n) == spec_tuples(s, m),
    decreases n - m,
{
    if m < n {
        lemma_tuples_fail(s, m, (n - 1) as nat);
    }
}

proof fn lemma_tuples_len(s: Seq<u8>, n: nat)
    ensures
        spec_tuples(s, n) matches Ok((ts, _)) ==> ts.len() == n,
    decreases n,
{
    if n > 0 {
        lemma_tuples_len(s, (n - 1) as nat);
    }
}

impl TransitionModel {
    /// The model in the bytes of a `final.mdl` file.
    pub fn load(data: &[u8]) -> (r: Result<TransitionModel, TransitionError>)
        ensures
            match r {
                Ok(m) => {
                    &&& spec_model(data@) is Ok
                    &&& m.tid2pdf@ == pdfs_of(spec_model(data@)->Ok_0)
                    &&& m.num_pdfs == count_pdfs(spec_model(data@)->Ok_0)
                    &&& m.num_transition_states == spec_model(data@)->Ok_0.len()
                },
                Err(e) => spec_model(data@) == Err::<Seq<Tuple>, TransitionError>(e),
            },
    {
        proof {
            reveal_strlit("<Tuples> ");
        }
        let marker = literal("<Tuples> ");
        let end: usize = data.len();
        let pos: usize = match find(data, marker, 0) {
            Some(p) => {
                proof {
                    crate::scan::law_first_match(data@, marker@, 0);
                }
                p + marker.len()
            },
            None => {
                return Err(TransitionError::NoTuples);
            },
        };
        let body = slice_subrange(data, pos, end);
        assert(body@ =~= data@.skip(pos as int));
        let mut kr = KaldiReader::new(body);
        let n: i32 = match kr.read_i32() {
            Ok(n) => n,
            Err(e) => {
                return Err(TransitionError::Read(e));
            },
        };
        if n < 0 {
            return Err(TransitionError::Read(ReadError::NegativeLength));
        }
        let ghost s = kr.rest();
        let ghost mut ts: Seq<Tuple> = Seq::empty();
        let mut tid2pdf: Vec<i32> = Vec::new();
        tid2pdf.push(-1);
        let mut num_pdfs: i32 = 0;
        let mut i: i32 = 0;
        proof {
            assert(tid2pdf@ =~= pdfs_of(ts));
        }
        while i < n
            invariant
                0 <= i <= n,
                spec_model(data@) == (match spec_tuples(s, n as nat) {
                    Err(e) => Err(e),
                    Ok((ts, _)) => Ok::<Seq<Tuple>, TransitionError>(ts),
                }),
                spec_tuples(s, i as nat) == Ok::<(Seq<Tuple>, Seq<u8>), TransitionError>(
                    (ts, kr.rest()),
                ),
                ts.len() == i,
                tid2pdf@ == pdfs_of(ts),
                num_pdfs == count_pdfs(ts),
                num_pdfs >= 0,
            decreases n - i,
        {
            let ghost before = kr.rest();
            proof {
                lemma_step(s, i as nat, n as nat);
            }
            let _phone = match kr.read_i32() {
                Ok(v) => v,
                Err(e) => {
                    return Err(TransitionError::Read(e));
                },
            };
            let _hmm_state = match kr.read_i32() {
                Ok(v) => v,
                Err(e) => {
                    return Err(TransitionError::Read(e));
                },
            };
            let forward: i32 = match kr.read_i32() {
                Ok(v) => v,
                Err(e) => {
                    return Err(TransitionError::Read(e));
                },
            };
            let self_loop: i32 = match kr.read_i32() {
                Ok(v) => v,
                Err(e) => {
                    return Err(TransitionError::Read(e));
                },
            };
            if forward == i32::MAX || self_loop == i32::MAX {
                return Err(TransitionError::PdfTooLarge);
            }
            let ghost old_ts = ts;
            proof {
                ts = ts.push(Tuple { forward, self_loop });
                assert(ts.drop_last() =~= old_ts);
            }
            if forward + 1 > num_pdfs {
                num_pdfs = forward + 1;
            }
            if self_loop + 1 > num_pdfs {
                num_pdfs = self_loop + 1;
            }
            tid2pdf.push(self_loop);
            tid2pdf.push(forward);
            i = i + 1;
            assert(tid2pdf@ =~= pdfs_of(ts));
        }
        Ok(
            TransitionModel {
                tid2pdf,
                num_pdfs: num_pdfs as usize,
                num_transition_states: n as usize,
            },
        )
    }

    /// Read `tid2pdf` from the bytes of a `model.int4` file (header: "VRQ4" group ivd num_pdfs n
    /// tid2pdf...).
    pub fn load_int4(data: &[u8]) -> (r: Result<TransitionModel, TransitionError>)
        ensures
            match r {
                Ok(m) => {
                    let n = u32_at(data@, 16);
                    &&& data@.len() >= 20 + 4 * n
                    &&& m.tid2pdf@ == Seq::new(n as nat, |i: int| i32_at(data@, 20 + 4 * i))
                    &&& m.num_pdfs == u32_at(data@, 12)
                    &&& m.num_transition_states == n / 2
                },
                Err(e) => e == TransitionError::Read(ReadError::UnexpectedEof) && (data@.len() < 20
                    || data@.len() < 20 + 4 * u32_at(data@, 16)),
            },
    {
        if data.len() < 20 {
            return Err(TransitionError::Read(ReadError::UnexpectedEof));
        }
        let num_pdfs: u32 = le_u32(data, 12);
        let n: u32 = le_u32(data, 16);
        if (data.len() - 20) / 4 < n as usize {
            return Err(TransitionError::Read(ReadError::UnexpectedEof));
        }
        let n: usize = n as usize;
        let mut tid2pdf: Vec<i32> = Vec::new();
        let mut p: usize = 20;
        while tid2pdf.len() < n
            invariant
                tid2pdf@.len() <= n,
                p == 20 + 4 * tid2pdf@.len(),
                20 + 4 * n <= data@.len(),
                data@.len() <= usize::MAX,
                tid2pdf@ == Seq::new(tid2pdf@.len(), |i: int| i32_at(data@, 20 + 4 * i)),
            decreases n - tid2pdf@.len(),
        {
            let v: i32 = le_i32(data, p);
            let ghost before = tid2pdf@;
            tid2pdf.push(v);
            p = p + 4;
            assert(tid2pdf@ =~= Seq::new(tid2pdf@.len(), |i: int| i32_at(data@, 20 + 4 * i)));
        }
        Ok(TransitionModel { tid2pdf, num_pdfs: num_pdfs as usize, num_transition_states: n / 2 })
    }

    /// Max valid transition-id (== number of transition-ids).
    pub fn num_tids(&self) -> (n: usize)
        requires
            self.tid2pdf@.len() > 0,
        ensures
            n == self.tid2pdf@.len() - 1,
    {
        self.tid2pdf.len() - 1
    }
}

proof fn lemma_step(s: Seq<u8>, i: nat, n: nat)
    requires
        i < n,
    ensures
        spec_tuples(s, i + 1) is Err ==> spec_tuples(s, n) == spec_tuples(s, i + 1),
{
    if spec_tuples(s, i + 1) is Err {
        lemma_tuples_fail(s, i + 1, n);
    }
}

/// The two transition-ids of tuple `i` and their pdf-ids: `2*i+1` is its self-loop and `2*i+2` its
/// forward transition, and there are no others.
pub proof fn law_transition_ids(ts: Seq<Tuple>, i: int)
    requires
        0 <= i < ts.len(),
    ensures
        pdfs_of(ts)[2 * i + 1] == ts[i].self_loop,
        pdfs_of(ts)[2 * i + 2] == ts[i].forward,
        pdfs_of(ts).len() == 2 * ts.len() + 1,
{
}

/// Every transition-id maps to a pdf-id below the number of pdf-ids, and to a valid one where the
/// tuples hold no negative pdf-id.
pub proof fn law_pdfs_in_range(ts: Seq<Tuple>, tid: int)
    requires
        1 <= tid < pdfs_of(ts).len(),
    ensures
        pdfs_of(ts)[tid] < count_pdfs(ts),
        (forall|i: int|
            0 <= i < ts.len() ==> (#[trigger] ts[i]).forward >= 0 && ts[i].self_loop >= 0) ==> 0
            <= pdfs_of(ts)[tid],
{
    let i = if tid % 2 == 1 {
        tid / 2
    } else {
        tid / 2 - 1
    };
    lemma_count_pdfs(ts, i);
    assert(ts[i].forward == ts[i].forward);
}

proof fn lemma_count_pdfs(ts: Seq<Tuple>, i: int)
    requires
        0 <= i < ts.len(),
    ensures
        ts[i].forward < count_pdfs(ts),
        ts[i].self_loop < count_pdfs(ts),
    decreases ts.len(),
{
    if i < ts.len() - 1 {
        lemma_count_pdfs(ts.drop_last(), i);
        assert(ts.drop_last()[i] == ts[i]);
    }
}

/// The number of pdf-ids is one more than a pdf-id that occurs, or 0.
pub proof fn law_count_is_reached(ts: Seq<Tuple>)
    ensures
        count_pdfs(ts) >= 0,
        count_pdfs(ts) == 0 || exists|tid: int|
            1 <= tid < pdfs_of(ts).len() && #[trigger] pdfs_of(ts)[tid] + 1 == count_pdfs(ts),
    decreases ts.len(),
{
    if ts.len() > 0 {
        let front = ts.drop_last();
        law_count_is_reached(front);
        let n = ts.len() as int;
        if count_pdfs(ts) == count_pdfs(front) {
            if count_pdfs(front) != 0 {
                let tid = choose|tid: int|
                    1 <= tid < pdfs_of(front).len() && #[trigger] pdfs_of(front)[tid] + 1
                        == count_pdfs(front);
                assert(pdfs_of(ts)[tid] == pdfs_of(front)[tid]);
            }
        } else if count_pdfs(ts) == ts.last().forward + 1 {
            assert(pdfs_of(ts)[2 * n] == ts.last().forward);
        } else {
            assert(pdfs_of(ts)[2 * n - 1] == ts.last().self_loop);
        }
    }
}

/// A tuple as it is written.
pub open spec fn written_tuple(phone: i32, hmm_state: i32, t: Tuple) -> Seq<u8> {
    sized(pattern(phone)) + sized(pattern(hmm_state)) + sized(pattern(t.forward)) + sized(
        pattern(t.self_loop),
    )
}

/// A tuple reads back.
pub proof fn law_tuple(phone: i32, hmm_state: i32, t: Tuple, rest: Seq<u8>)
    ensures
        spec_tuple(written_tuple(phone, hmm_state, t) + rest) == Ok::<(Tuple, Seq<u8>), ReadError>(
            (t, rest),
        ),
{
    let a = sized(pattern(phone));
    let b = sized(pattern(hmm_state));
    let c = sized(pattern(t.forward));
    let d = sized(pattern(t.self_loop));
    let s = written_tuple(phone, hmm_state, t) + rest;
    assert(s =~= a + (b + (c + (d + rest))));
    law_i32(phone, b + (c + (d + rest)));
    law_i32(hmm_state, c + (d + rest));
    law_i32(t.forward, d + rest);
    law_i32(t.self_loop, rest);
}

} // verus!
