//! Transducers in the constant form of OpenFst files.
//!
//! The outside library `rustfst` reads the file. What is read from the bytes here is where the
//! table of states stands, so that a state whose transitions lie outside the file is found before
//! it is asked for.

use rustfst::prelude::{
    ConstFst, CoreFst, ExpandedFst, Semiring, SerializableFst, TropicalWeight, Trs,
};
use vstd::prelude::*;
use vstd::slice::{slice_subrange, slice_to_vec};
use vstd::utf8::valid_utf8;

use crate::fst::{Fst, FstState, Tr};
use crate::kaldi_io::{i32_at, le_i32, le_u32, u32_at};
use crate::scan::{ascii, literal};
use crate::single::{is_nan, INFINITY};
use crate::stored::utf8;

verus! {

/// A transducer of `rustfst` with constant states.
#[verifier::external_type_specification]
#[verifier::external_body]
#[verifier::reject_recursive_types(W)]
pub struct ExConstFst<W>(ConstFst<W>);

/// A cost of `rustfst`.
#[verifier::external_type_specification]
#[verifier::external_body]
pub struct ExTropicalWeight(TropicalWeight);

/// A transition: input label, output label, bit pattern of the cost, next state.
pub type TrRow = (u32, u32, u32, u32);

/// A state: its transitions, unless they lie outside the table of transitions, and the bit pattern
/// of the cost of ending in it, if one may.
pub type StateRow = (Option<Seq<TrRow>>, Option<u32>);

/// The states of a transducer.
pub uninterp spec fn fst_states(f: ConstFst<TropicalWeight>) -> Seq<StateRow>;

/// The start state of a transducer.
pub uninterp spec fn fst_first(f: ConstFst<TropicalWeight>) -> Option<u32>;

/// The mark at the front of a transducer.
pub const FST_MAGIC: i32 = 2_125_659_606;

/// The mark at the front of a symbol table.
pub const SYMBOLS_MAGIC: i32 = 2_125_658_996;

/// What the header of a file says: the start state, if there is one, how many states and
/// transitions there are, where the table of states and the table of transitions stand, and
/// whether the symbols of the symbol tables, if there are any, are numbered in order.
pub ghost struct Layout {
    pub start: Option<u32>,
    pub num_states: int,
    pub num_trs: int,
    pub table: nat,
    pub trs_table: int,
    pub numbered: bool,
}

/// The little-endian two's complement number in the eight bytes at `p`.
pub open spec fn i64_at(s: Seq<u8>, p: int) -> int {
    0x1_0000_0000 * i32_at(s, p + 4) + u32_at(s, p)
}

/// Where the string that starts at `p` ends: a length, and as many bytes of UTF-8.
pub open spec fn string_end(s: Seq<u8>, p: nat) -> Option<nat> {
    if p + 4 > s.len() || i32_at(s, p as int) < 0 {
        None
    } else {
        let end = p + 4 + i32_at(s, p as int);
        if end <= s.len() && valid_utf8(s.subrange(p as int + 4, end)) {
            Some(end as nat)
        } else {
            None
        }
    }
}

/// Where `k` symbols end that start at `p`: each a string and a number.
pub open spec fn rows_end(s: Seq<u8>, p: nat, k: nat) -> Option<nat>
    decreases k,
{
    if k == 0 {
        Some(p)
    } else {
        match string_end(s, p) {
            None => None,
            Some(q) => if q + 8 > s.len() {
                None
            } else {
                rows_end(s, q + 8, (k - 1) as nat)
            },
        }
    }
}

/// Where the symbol table ends that starts at `p`.
pub open spec fn symbols_end(s: Seq<u8>, p: nat) -> Option<nat> {
    if p + 4 > s.len() || i32_at(s, p as int) != SYMBOLS_MAGIC {
        None
    } else {
        match string_end(s, p + 4) {
            None => None,
            Some(q) => if q + 16 > s.len() || i64_at(s, q as int + 8) < 0 {
                None
            } else {
                rows_end(s, q + 16, i64_at(s, q as int + 8) as nat)
            },
        }
    }
}

/// The names of `k` symbols that start at `p`.
pub open spec fn row_names(s: Seq<u8>, p: nat, k: nat) -> Seq<Seq<u8>>
    decreases k,
{
    match string_end(s, p) {
        Some(q) => if k > 0 {
            seq![s.subrange(p as int + 4, q as int)] + row_names(s, q + 8, (k - 1) as nat)
        } else {
            Seq::empty()
        },
        None => Seq::empty(),
    }
}

/// The numbers of `k` symbols that start at `p`, in 32 bits.
pub open spec fn row_numbers(s: Seq<u8>, p: nat, k: nat) -> Seq<u32>
    decreases k,
{
    match string_end(s, p) {
        Some(q) => if k > 0 {
            seq![u32_at(s, q as int)] + row_numbers(s, q + 8, (k - 1) as nat)
        } else {
            Seq::empty()
        },
        None => Seq::empty(),
    }
}

/// Every symbol has the number of different ones before the first that is like it.
pub open spec fn in_turn(names: Seq<Seq<u8>>, numbers: Seq<u32>) -> bool {
    forall|i: int|
        0 <= i < numbers.len() ==> #[trigger] numbers[i] == names.take(
            names.index_of_first(names[i])->0,
        ).to_set().len() % 0x1_0000_0000
}

/// The symbols of the table that starts at `p`, if there is one, are numbered in order.
pub open spec fn symbols_in_turn(s: Seq<u8>, p: nat, there: bool) -> bool {
    there ==> (string_end(s, p + 4) matches Some(q) ==> {
        let k = i64_at(s, q as int + 8) as nat;
        in_turn(row_names(s, q + 16, k), row_numbers(s, q + 16, k))
    })
}

/// Where an optional symbol table ends.
pub open spec fn optional_end(s: Seq<u8>, p: nat, there: bool) -> Option<nat> {
    if there {
        symbols_end(s, p)
    } else {
        Some(p)
    }
}

/// The next place at a multiple of 16.
pub open spec fn aligned(p: nat) -> nat {
    if p % 16 == 0 {
        p
    } else {
        (p + 16 - p % 16) as nat
    }
}

/// Where the kinds of transducer and of transition end, if they are those that are read here.
pub open spec fn kinds_end(s: Seq<u8>) -> Option<nat> {
    if s.len() < 4 || i32_at(s, 0) != FST_MAGIC {
        None
    } else {
        match string_end(s, 4) {
            None => None,
            Some(a) => if s.subrange(8, a as int) != ascii("const"@) {
                None
            } else {
                match string_end(s, a) {
                    None => None,
                    Some(b) => if s.subrange(a as int + 4, b as int) != ascii("standard"@) {
                        None
                    } else {
                        Some(b)
                    },
                }
            },
        }
    }
}

/// What the header says whose numbers start at `b`, in a file whose symbol tables end at `p` and at
/// `q`. In the first version of the format a table that holds anything stands at a multiple of 16.
pub open spec fn layout(s: Seq<u8>, b: int, p: nat, q: nat) -> Layout {
    let flags = u32_at(s, b + 4);
    let first = i32_at(s, b) == 1;
    let num_states = i64_at(s, b + 24);
    let num_trs = i64_at(s, b + 32);
    let table = if first && num_states > 0 {
        aligned(q)
    } else {
        q
    };
    let end = table + 20 * num_states;
    Layout {
        start: if i64_at(s, b + 16) == -1 {
            None
        } else {
            Some(u32_at(s, b + 16))
        },
        num_states,
        num_trs,
        table,
        trs_table: if first && num_trs > 0 {
            aligned(end as nat) as int
        } else {
            end
        },
        numbered: symbols_in_turn(s, (b + 40) as nat, flags % 2 == 1) && symbols_in_turn(
            s,
            p,
            flags / 2 % 2 == 1,
        ),
    }
}

/// The header of a file, if it has one.
pub open spec fn header(s: Seq<u8>) -> Option<Layout> {
    match kinds_end(s) {
        None => None,
        Some(b) => if b + 40 > s.len() || i32_at(s, b as int) < 1 || u32_at(s, b as int + 4) >= 8 {
            None
        } else {
            let flags = u32_at(s, b as int + 4);
            match optional_end(s, b + 40, flags % 2 == 1) {
                None => None,
                Some(p) => match optional_end(s, p, flags / 2 % 2 == 1) {
                    None => None,
                    Some(q) => Some(layout(s, b as int, p, q)),
                },
            }
        },
    }
}

/// The transitions of state `k` lie within the table of transitions.
pub open spec fn in_range(s: Seq<u8>, l: Layout, k: int) -> bool {
    let pos = i32_at(s, l.table + 20 * k + 4);
    let n = i32_at(s, l.table + 20 * k + 8);
    0 <= pos && 0 <= n && pos + n <= l.num_trs
}

/// The two counts of the header are numbers of things that a machine can count.
pub open spec fn countable(l: Layout) -> bool {
    0 <= l.num_states <= usize::MAX && 0 <= l.num_trs <= usize::MAX
}

/// Both tables lie within the bytes: 20 for each state, 16 for each transition.
pub open spec fn tables_fit(s: Seq<u8>, l: Layout) -> bool {
    l.table + 20 * l.num_states <= s.len() && l.trs_table + 16 * l.num_trs <= s.len()
}

/// A cost is the one with these bits; of one that is no number, only that it is none.
pub open spec fn cost_is(bits: u32, cost: u32) -> bool {
    cost == bits || (is_nan(bits) && is_nan(cost))
}

/// A transition is the one that the record at `p` tells of.
pub open spec fn tr_is(s: Seq<u8>, p: int, t: TrRow) -> bool {
    &&& t.0 == u32_at(s, p)
    &&& t.1 == u32_at(s, p + 4)
    &&& cost_is(u32_at(s, p + 8), t.2)
    &&& t.3 == u32_at(s, p + 12)
}

/// A state is the one that record `k` tells of: one may end in it unless the cost of that is
/// infinite, and its transitions are as many of the table of transitions, from the place on, as the
/// record says, where these are there.
pub open spec fn row_is(s: Seq<u8>, l: Layout, k: int, row: StateRow) -> bool {
    let at = l.table + 20 * k;
    &&& match row.1 {
        Some(cost) => u32_at(s, at) != INFINITY && cost_is(u32_at(s, at), cost),
        None => u32_at(s, at) == INFINITY,
    }
    &&& match row.0 {
        Some(trs) => {
            &&& in_range(s, l, k)
            &&& trs.len() == i32_at(s, at + 8)
            &&& forall|j: int|
                0 <= j < trs.len() ==> tr_is(
                    s,
                    l.trs_table + 16 * (i32_at(s, at + 4) + j),
                    #[trigger] trs[j],
                )
        },
        None => !in_range(s, l, k),
    }
}

/// Read a transducer.
///
/// Calls `ConstFst::<TropicalWeight>::load`. It reads one where both tables lie within the bytes
/// and the symbols of every symbol table are numbered in order, and else none. What it reads is
/// what the header and the records of the two tables say. Bytes without a header are left out,
/// since strings in it that are no UTF-8 end in a panic; and so are counts that are no `usize`,
/// which a cast would change.
#[verifier::external_body]
fn load_const(data: &[u8]) -> (r: Option<ConstFst<TropicalWeight>>)
    requires
        header(data@) is Some,
        0 <= header(data@)->0.num_states <= usize::MAX,
        0 <= header(data@)->0.num_trs <= usize::MAX,
    ensures
        r is Some == (header(data@)->0.numbered && tables_fit(data@, header(data@)->0)),
        r matches Some(f) ==> {
            let l = header(data@)->0;
            &&& fst_first(f) == l.start
            &&& fst_states(f).len() == l.num_states
            &&& forall|k: int|
                0 <= k < fst_states(f).len() ==> row_is(
                    data@,
                    l,
                    k,
                    #[trigger] fst_states(f)[k],
                )
        },
{
    ConstFst::<TropicalWeight>::load(data).ok()
}

/// The start state.
///
/// Calls `CoreFst::start`, which gives the start state that the transducer holds.
#[verifier::external_body]
fn start_of(f: &ConstFst<TropicalWeight>) -> (r: Option<u32>)
    ensures
        r == fst_first(*f),
{
    f.start()
}

/// How many states there are.
///
/// Calls `ExpandedFst::num_states`, which gives the number of states that the transducer holds.
#[verifier::external_body]
fn num_states_of(f: &ConstFst<TropicalWeight>) -> (n: usize)
    ensures
        n == fst_states(*f).len(),
{
    f.num_states()
}

/// Transitions as rows.
pub open spec fn tr_rows(trs: Seq<Tr>) -> Seq<TrRow> {
    Seq::new(
        trs.len(),
        |i: int| (trs[i].ilabel, trs[i].olabel, trs[i].weight, trs[i].nextstate),
    )
}

/// The transitions of state `s`.
///
/// Calls `CoreFst::get_trs`, which gives the transitions of a state that the transducer holds, and
/// takes each as plain numbers. A state whose transitions lie outside the table is left out: asking
/// for them ends in a panic.
#[verifier::external_body]
fn trs_of(f: &ConstFst<TropicalWeight>, s: u32) -> (r: Vec<Tr>)
    requires
        s < fst_states(*f).len(),
        fst_states(*f)[s as int].0 is Some,
    ensures
        fst_states(*f)[s as int].0 == Some(tr_rows(r@)),
{
    let trs = f.get_trs(s).unwrap();
    trs.trs().iter().map(
        |t| Tr {
            ilabel: t.ilabel,
            olabel: t.olabel,
            weight: t.weight.value().to_bits(),
            nextstate: t.nextstate,
        },
    ).collect()
}

/// The cost of ending in state `s`.
///
/// Calls `CoreFst::final_weight`, which gives the cost of ending in a state that the transducer
/// holds, if one may.
#[verifier::external_body]
fn final_of(f: &ConstFst<TropicalWeight>, s: u32) -> (r: Option<u32>)
    requires
        s < fst_states(*f).len(),
    ensures
        r == fst_states(*f)[s as int].1,
{
    f.final_weight(s).unwrap().map(|w| w.value().to_bits())
}

/// Why a transducer could not be read.
#[derive(Clone, Copy, PartialEq, Eq, Debug, Structural)]
pub enum GraphError {
    /// The file has no header, or not that of a constant transducer over costs.
    Header,
    /// What follows the header is no transducer.
    Body,
}

/// The little-endian two's complement number in eight bytes of a slice.
fn le_i64(s: &[u8], p: usize) -> (r: i64)
    requires
        p + 8 <= s@.len(),
    ensures
        r == i64_at(s@, p as int),
{
    let end: usize = s.len();
    let hi: i64 = le_i32(s, p + 4) as i64;
    let lo: i64 = le_u32(s, p) as i64;
    0x1_0000_0000i64 * hi + lo
}

/// Where the string that starts at `p` ends.
fn skip_string(s: &[u8], p: usize) -> (r: Option<usize>)
    requires
        p <= s@.len(),
    ensures
        match r {
            Some(q) => string_end(s@, p as nat) == Some(q as nat) && p + 4 <= q <= s@.len(),
            None => string_end(s@, p as nat) is None,
        },
{
    let end: usize = s.len();
    if end - p < 4 {
        return None;
    }
    let n: i32 = le_i32(s, p);
    if n < 0 || (end - p - 4) < n as usize {
        return None;
    }
    let q: usize = p + 4 + n as usize;
    let part = slice_subrange(s, p + 4, q);
    let copy = slice_to_vec(part);
    assert(copy@ =~= part@);
    match utf8(copy) {
        Some(t) => Some(q),
        None => None,
    }
}

/// Where the symbol table ends that starts at `p`.
fn skip_symbols(s: &[u8], p: usize) -> (r: Option<usize>)
    requires
        p <= s@.len(),
    ensures
        match r {
            Some(q) => symbols_end(s@, p as nat) == Some(q as nat) && q <= s@.len(),
            None => symbols_end(s@, p as nat) is None,
        },
{
    let end: usize = s.len();
    if end - p < 4 || le_i32(s, p) != SYMBOLS_MAGIC {
        return None;
    }
    let q: usize = match skip_string(s, p + 4) {
        Some(q) => q,
        None => {
            return None;
        },
    };
    if end - q < 16 {
        return None;
    }
    let count: i64 = le_i64(s, q + 8);
    if count < 0 {
        return None;
    }
    let mut at: usize = q + 16;
    let mut left: u64 = count as u64;
    while left > 0
        invariant
            end == s@.len(),
            q + 16 <= end,
            count >= 0,
            at <= end,
            symbols_end(s@, p as nat) == rows_end(s@, at as nat, left as nat),
        decreases left,
    {
        match skip_string(s, at) {
            Some(e) => {
                if end - e < 8 {
                    return None;
                }
                at = e + 8;
            },
            None => {
                return None;
            },
        }
        left = left - 1;
    }
    Some(at)
}

/// Where an optional symbol table ends.
fn skip_optional(s: &[u8], p: usize, there: bool) -> (r: Option<usize>)
    requires
        p <= s@.len(),
    ensures
        match r {
            Some(q) => optional_end(s@, p as nat, there) == Some(q as nat) && q <= s@.len(),
            None => optional_end(s@, p as nat, there) is None,
        },
{
    if there {
        skip_symbols(s, p)
    } else {
        Some(p)
    }
}

/// Whether a part of a file reads `lit`.
fn part_is(s: &[u8], a: usize, b: usize, lit: &[u8]) -> (r: bool)
    requires
        a <= b <= s@.len(),
    ensures
        r == (s@.subrange(a as int, b as int) == lit@),
{
    let part = slice_subrange(s, a, b);
    if part.len() != lit.len() {
        return false;
    }
    let mut i: usize = 0;
    while i < part.len()
        invariant
            part@ == s@.subrange(a as int, b as int),
            part@.len() == lit@.len(),
            i <= part@.len(),
            forall|j: int| 0 <= j < i ==> part@[j] == #[trigger] lit@[j],
        decreases part@.len() - i,
    {
        if part[i] != lit[i] {
            return false;
        }
        i = i + 1;
    }
    assert(part@ =~= lit@);
    true
}

/// Where the kinds of transducer and of transition end.
fn skip_kinds(s: &[u8]) -> (r: Option<usize>)
    ensures
        match r {
            Some(q) => kinds_end(s@) == Some(q as nat) && q <= s@.len(),
            None => kinds_end(s@) is None,
        },
{
    proof {
        reveal_strlit("const");
        reveal_strlit("standard");
    }
    if s.len() < 4 || le_i32(s, 0) != FST_MAGIC {
        return None;
    }
    let a: usize = match skip_string(s, 4) {
        Some(a) => a,
        None => {
            return None;
        },
    };
    if !part_is(s, 8, a, literal("const")) {
        return None;
    }
    let b: usize = match skip_string(s, a) {
        Some(b) => b,
        None => {
            return None;
        },
    };
    if part_is(s, a + 4, b, literal("standard")) {
        Some(b)
    } else {
        None
    }
}

/// How many states and transitions the header tells of, and where the table of states stands; the
/// latter `None` where that is no index.
fn read_header(s: &[u8]) -> (r: Option<(i64, i64, Option<usize>)>)
    ensures
        match r {
            Some((num_states, num_trs, table)) => {
                &&& header(s@) is Some
                &&& header(s@)->0.num_states == num_states
                &&& header(s@)->0.num_trs == num_trs
                &&& match table {
                    Some(t) => header(s@)->0.table == t,
                    None => header(s@)->0.table > usize::MAX,
                }
            },
            None => header(s@) is None,
        },
{
    let end: usize = s.len();
    let b: usize = match skip_kinds(s) {
        Some(b) => b,
        None => {
            return None;
        },
    };
    if end - b < 40 || le_i32(s, b) < 1 || le_u32(s, b + 4) >= 8 {
        return None;
    }
    let flags: u32 = le_u32(s, b + 4);
    let p: usize = match skip_optional(s, b + 40, flags % 2 == 1) {
        Some(p) => p,
        None => {
            return None;
        },
    };
    let q: usize = match skip_optional(s, p, flags / 2 % 2 == 1) {
        Some(q) => q,
        None => {
            return None;
        },
    };
    let table: Option<usize> = if le_i32(s, b) == 1 && le_i64(s, b + 24) > 0 && q % 16 != 0 {
        q.checked_add(16 - q % 16)
    } else {
        Some(q)
    };
    Some((le_i64(s, b + 24), le_i64(s, b + 32), table))
}

/// A state of the library as a row.
pub open spec fn state_row(st: FstState) -> StateRow {
    let trs = match st.trs {
        Some(v) => Some(tr_rows(v@)),
        None => None,
    };
    (trs, st.final_weight)
}

/// A transducer was read: it is what the header and the tables of the bytes say. The bytes are
/// turned down where they have no header; where a count of the header is none that the machine has,
/// or there are more states than numbers of states; where the tables are cut short; and where the
/// symbols of a symbol table are not numbered in order.
pub open spec fn graph_loaded(data: Seq<u8>, r: Result<Fst, GraphError>) -> bool {
    match header(data) {
        None => r matches Err(e) && e == GraphError::Header,
        Some(l) => {
            let readable = countable(l) && l.num_states <= u32::MAX && tables_fit(data, l)
                && l.numbered;
            match r {
                Ok(f) => {
                    &&& readable
                    &&& f.start == l.start
                    &&& f.states@.len() == l.num_states
                    &&& forall|k: int|
                        0 <= k < f.states@.len() ==> row_is(
                            data,
                            l,
                            k,
                            state_row(#[trigger] f.states@[k]),
                        )
                },
                Err(e) => e == GraphError::Body && !readable,
            }
        },
    }
}

/// Read a transducer from the bytes of its file.
pub fn load_fst(data: &[u8]) -> (r: Result<Fst, GraphError>)
    ensures
        graph_loaded(data@, r),
{
    let (num_states, num_trs, table) = match read_header(data) {
        Some(h) => h,
        None => {
            return Err(GraphError::Header);
        },
    };
    let ghost l = header(data@)->0;
    if num_states < 0 || num_trs < 0 || num_states as u64 > usize::MAX as u64 || num_trs as u64
        > usize::MAX as u64 {
        return Err(GraphError::Body);
    }
    let f = match load_const(data) {
        Some(f) => f,
        None => {
            return Err(GraphError::Body);
        },
    };
    let n: usize = num_states_of(&f);
    let total: usize = data.len();
    let at: usize = match table {
        Some(at) => at,
        None => {
            return Err(GraphError::Body);
        },
    };
    if n > u32::MAX as usize {
        return Err(GraphError::Body);
    }
    let mut states: Vec<FstState> = Vec::new();
    let mut k: usize = 0;
    while k < n
        invariant
            k <= n,
            n <= u32::MAX,
            total == data@.len(),
            l == header(data@)->0,
            l.table == at,
            l.num_trs == num_trs,
            n == fst_states(f).len(),
            at + 20 * n <= total,
            forall|j: int|
                0 <= j < fst_states(f).len() ==> row_is(data@, l, j, #[trigger] fst_states(f)[j]),
            states@.len() == k,
            forall|j: int| 0 <= j < k ==> state_row(#[trigger] states@[j]) == fst_states(f)[j],
        decreases n - k,
    {
        let rec: usize = at + 20 * k;
        let pos: i64 = le_i32(data, rec + 4) as i64;
        let count: i64 = le_i32(data, rec + 8) as i64;
        let id: u32 = k as u32;
        let trs = if 0 <= pos && 0 <= count && pos + count <= num_trs {
            assert(row_is(data@, l, k as int, fst_states(f)[k as int]));
            Some(trs_of(&f, id))
        } else {
            assert(row_is(data@, l, k as int, fst_states(f)[k as int]));
            None
        };
        let st = FstState { trs, final_weight: final_of(&f, id) };
        assert(state_row(st) == fst_states(f)[k as int]);
        states.push(st);
        k = k + 1;
    }
    Ok(Fst { start: start_of(&f), states })
}

} // verus!
