//! Dense matrices of single-precision bit patterns, and the operations of a network on them.
//!
//! Moving rows and columns about is exact. Arithmetic is stated through the relations of
//! [`crate::single`].

use vstd::prelude::*;
use vstd::slice::slice_subrange;

use crate::single::{
    differences, gemms, larger, max, products, quotients, roots, sums, Arith, ZERO,
};

verus! {

/// A matrix: rows, columns, and the entries row by row.
pub ghost struct MatView {
    pub r: nat,
    pub c: nat,
    pub d: Seq<u32>,
}

/// Why a network could not be evaluated.
#[derive(Clone, Copy, PartialEq, Eq, Debug, Structural)]
pub enum EvalError {
    /// The network and its inputs do not fit together.
    Mismatch,
    /// The arithmetic gave a matrix product of the wrong size, or no number for a text.
    Kernel,
}

impl MatView {
    /// There are as many entries as rows times columns.
    pub open spec fn wf(self) -> bool {
        self.d.len() == self.r * self.c
    }

    /// The entries of row `i`.
    pub open spec fn row(self, i: int) -> Seq<u32> {
        self.d.subrange(i * self.c, i * self.c + self.c)
    }
}

/// The entries of `n` rows, one after the other.
pub open spec fn flat(n: nat, f: spec_fn(int) -> Seq<u32>) -> Seq<u32>
    decreases n,
{
    if n == 0 {
        Seq::empty()
    } else {
        flat((n - 1) as nat, f) + f(n - 1)
    }
}

/// The matrix of `r` rows of `c` entries each, row `i` being `f(i)`.
pub open spec fn mat_of(r: nat, c: nat, f: spec_fn(int) -> Seq<u32>) -> MatView {
    MatView { r, c, d: flat(r, f) }
}

/// A matrix put together from rows has those rows.
pub proof fn law_rows(r: nat, c: nat, f: spec_fn(int) -> Seq<u32>, i: int)
    requires
        forall|k: int| 0 <= k < r ==> (#[trigger] f(k)).len() == c,
        0 <= i < r,
    ensures
        mat_of(r, c, f).wf(),
        mat_of(r, c, f).row(i) == f(i),
    decreases r,
{
    let n = (r - 1) as nat;
    lemma_flat_len(n, c, f);
    lemma_flat_len(r, c, f);
    lemma_within(i, r as int, c as int);
    if i < n {
        law_rows(n, c, f, i);
        lemma_within(i, n as int, c as int);
        assert(mat_of(r, c, f).row(i) =~= mat_of(n, c, f).row(i));
    } else {
        assert(mat_of(r, c, f).row(i) =~= f(i));
    }
}

proof fn lemma_flat_len(n: nat, c: nat, f: spec_fn(int) -> Seq<u32>)
    requires
        forall|k: int| 0 <= k < n ==> (#[trigger] f(k)).len() == c,
    ensures
        flat(n, f).len() == n * c,
    decreases n,
{
    if n > 0 {
        lemma_flat_len((n - 1) as nat, c, f);
        assert((n - 1) * c + c == n * c) by (nonlinear_arith);
    } else {
        assert(0 * c == 0) by (nonlinear_arith);
    }
}

pub(crate) proof fn lemma_within(i: int, r: int, c: int)
    requires
        0 <= i < r,
        0 <= c,
    ensures
        0 <= i * c,
        i * c + c <= r * c,
        (i + 1) * c == i * c + c,
{
    assert(0 <= i * c && i * c + c <= r * c && (i + 1) * c == i * c + c) by (nonlinear_arith)
        requires
            0 <= i < r,
            0 <= c,
    ;
}

/// Row-major dense matrix [rows x cols].
#[derive(Debug)]
pub struct Mat {
    pub r: usize,
    pub c: usize,
    pub d: Vec<u32>,
}

impl View for Mat {
    type V = MatView;

    open spec fn view(&self) -> MatView {
        MatView { r: self.r as nat, c: self.c as nat, d: self.d@ }
    }
}

impl Mat {
    /// A matrix of zeros.
    pub fn new(r: usize, c: usize) -> (m: Self)
        requires
            r * c <= usize::MAX,
        ensures
            m@ == (MatView { r: r as nat, c: c as nat, d: Seq::new((r * c) as nat, |i: int| ZERO) }),
            m@.wf(),
    {
        let n: usize = r * c;
        let mut d: Vec<u32> = Vec::new();
        while d.len() < n
            invariant
                d@.len() <= n,
                d@ == Seq::new(d@.len(), |i: int| ZERO),
            decreases n - d@.len(),
        {
            d.push(ZERO);
            assert(d@ =~= Seq::new(d@.len(), |i: int| ZERO));
        }
        Mat { r, c, d }
    }

    /// A copy.
    pub fn copied(&self) -> (m: Self)
        ensures
            m@ == self@,
    {
        let d = self.d.clone();
        assert(d@ =~= self.d@);
        Mat { r: self.r, c: self.c, d }
    }

    /// The entries of row `i`.
    pub fn row(&self, i: usize) -> (s: &[u32])
        requires
            self@.wf(),
            i < self.r || self.c == 0,
        ensures
            s@ == self@.row(i as int),
    {
        if self.c == 0 {
            assert(i * self.c == 0) by (nonlinear_arith)
                requires
                    self.c == 0,
            ;
            let s = slice_subrange(self.d.as_slice(), 0, 0);
            assert(s@ =~= self@.row(i as int));
            return s;
        }
        proof {
            lemma_within(i as int, self.r as int, self.c as int);
        }
        let n: usize = self.d.len();
        let a: usize = i * self.c;
        slice_subrange(self.d.as_slice(), a, a + self.c)
    }
}

/// Put entries at the end of others.
pub(crate) fn append(out: &mut Vec<u32>, s: &[u32])
    ensures
        final(out)@ == old(out)@ + s@,
{
    let ghost before = out@;
    let mut i: usize = 0;
    while i < s.len()
        invariant
            i <= s@.len(),
            out@ == before + s@.take(i as int),
        decreases s@.len() - i,
    {
        out.push(s[i]);
        i = i + 1;
        assert(out@ =~= before + s@.take(i as int));
    }
    assert(s@.take(i as int) =~= s@);
}

proof fn lemma_mat_of_wf(r: nat, c: nat, f: spec_fn(int) -> Seq<u32>)
    requires
        forall|k: int| 0 <= k < r ==> (#[trigger] f(k)).len() == c,
    ensures
        mat_of(r, c, f).wf(),
{
    lemma_flat_len(r, c, f);
}

pub(crate) proof fn lemma_row_len(m: MatView, i: int)
    requires
        m.wf(),
        0 <= i < m.r || (m.c == 0 && 0 <= i),
    ensures
        m.row(i).len() == m.c,
{
    if m.c == 0 {
        assert(i * m.c == 0) by (nonlinear_arith)
            requires
                m.c == 0,
        ;
    } else {
        lemma_within(i, m.r as int, m.c as int);
    }
}

/// The row that stands `n` after row `i`, held within `r` rows.
pub open spec fn clamped(i: int, n: int, r: nat) -> int {
    if i + n < 0 {
        0
    } else if i + n >= r {
        r - 1
    } else {
        i + n
    }
}

/// `m` moved by `n` rows; the first and last row stand for those before and after them.
pub open spec fn shifted(m: MatView, n: int) -> MatView {
    mat_of(m.r, m.c, |i: int| m.row(clamped(i, n, m.r)))
}

/// `m` moved by `n` rows.
pub fn clamp_offset(m: &Mat, n: i32) -> (y: Mat)
    requires
        m@.wf(),
    ensures
        y@ == shifted(m@, n as int),
        y@.wf(),
{
    let ghost f = |i: int| m@.row(clamped(i, n as int, m@.r));
    let mut d: Vec<u32> = Vec::new();
    let mut i: usize = 0;
    while i < m.r
        invariant
            m@.wf(),
            i <= m.r,
            f == (|i: int| m@.row(clamped(i, n as int, m@.r))),
            d@ == flat(i as nat, f),
        decreases m.r - i,
    {
        let at: i128 = i as i128 + n as i128;
        let src: usize = if at < 0 {
            0
        } else if at >= m.r as i128 {
            m.r - 1
        } else {
            at as usize
        };
        assert(src == clamped(i as int, n as int, m@.r));
        append(&mut d, m.row(src));
        i = i + 1;
    }
    proof {
        assert forall|k: int| 0 <= k < m.r implies (#[trigger] f(k)).len() == m.c by {
            lemma_row_len(m@, clamped(k, n as int, m@.r));
        }
        lemma_mat_of_wf(m.r as nat, m.c as nat, f);
    }
    Mat { r: m.r, c: m.c, d }
}

/// Columns `off` up to `off + dim` of `m`.
pub open spec fn columns(m: MatView, off: nat, dim: nat) -> MatView {
    mat_of(m.r, dim, |i: int| m.row(i).subrange(off as int, (off + dim) as int))
}

/// Columns `off` up to `off + dim` of `m`, if it has them.
pub fn dim_range(m: &Mat, off: usize, dim: usize) -> (y: Option<Mat>)
    requires
        m@.wf(),
    ensures
        match y {
            Some(y) => (m.r == 0 || off + dim <= m.c) && y@ == columns(m@, off as nat, dim as nat)
                && y@.wf(),
            None => m.r > 0 && off + dim > m.c,
        },
{
    if m.r > 0 && (off > m.c || dim > m.c - off) {
        return None;
    }
    let ghost f = |i: int| m@.row(i).subrange(off as int, (off + dim) as int);
    let mut d: Vec<u32> = Vec::new();
    let mut i: usize = 0;
    while i < m.r
        invariant
            m@.wf(),
            i <= m.r,
            m.r > 0 ==> off + dim <= m.c,
            f == (|i: int| m@.row(i).subrange(off as int, (off + dim) as int)),
            d@ == flat(i as nat, f),
        decreases m.r - i,
    {
        proof {
            lemma_row_len(m@, i as int);
        }
        let row = m.row(i);
        append(&mut d, slice_subrange(row, off, off + dim));
        i = i + 1;
    }
    proof {
        assert forall|k: int| 0 <= k < m.r implies (#[trigger] f(k)).len() == dim by {
            lemma_row_len(m@, k);
        }
        lemma_mat_of_wf(m.r as nat, dim as nat, f);
    }
    Some(Mat { r: m.r, c: dim, d })
}

/// The first row of `m`, `t` times.
pub open spec fn repeated(m: MatView, t: nat) -> MatView {
    mat_of(t, m.c, |i: int| m.row(0))
}

/// The first row of `m`, `t` times, if there is one.
pub fn repeat_first(m: &Mat, t: usize) -> (y: Option<Mat>)
    requires
        m@.wf(),
    ensures
        match y {
            Some(y) => (t == 0 || m.r > 0 || m.c == 0) && y@ == repeated(m@, t as nat) && y@.wf(),
            None => t > 0 && m.r == 0 && m.c > 0,
        },
{
    if t > 0 && m.r == 0 && m.c > 0 {
        return None;
    }
    let ghost f = |i: int| m@.row(0);
    let mut d: Vec<u32> = Vec::new();
    let mut i: usize = 0;
    while i < t
        invariant
            m@.wf(),
            i <= t,
            t > 0 ==> m.r > 0 || m.c == 0,
            f == (|i: int| m@.row(0)),
            d@ == flat(i as nat, f),
        decreases t - i,
    {
        append(&mut d, m.row(0));
        i = i + 1;
    }
    proof {
        assert forall|k: int| 0 <= k < t implies (#[trigger] f(k)).len() == m.c by {
            lemma_row_len(m@, 0);
        }
        lemma_mat_of_wf(t as nat, m.c as nat, f);
    }
    Some(Mat { r: t, c: m.c, d })
}

/// Every third row of `m`, from the first.
pub open spec fn every_third(m: MatView) -> MatView {
    mat_of((m.r + 2) / 3, m.c, |i: int| m.row(3 * i))
}

/// Every third row of `m`, from the first.
pub fn subsample(m: &Mat) -> (y: Mat)
    requires
        m@.wf(),
    ensures
        y@ == every_third(m@),
        y@.wf(),
{
    let rows: usize = if m.r % 3 == 0 {
        m.r / 3
    } else {
        m.r / 3 + 1
    };
    let ghost f = |i: int| m@.row(3 * i);
    let mut d: Vec<u32> = Vec::new();
    let mut i: usize = 0;
    while i < rows
        invariant
            m@.wf(),
            i <= rows,
            rows == (m.r + 2) / 3,
            f == (|i: int| m@.row(3 * i)),
            d@ == flat(i as nat, f),
        decreases rows - i,
    {
        append(&mut d, m.row(3 * i));
        i = i + 1;
    }
    proof {
        assert forall|k: int| 0 <= k < rows implies (#[trigger] f(k)).len() == m.c by {
            lemma_row_len(m@, 3 * k);
        }
        lemma_mat_of_wf(rows as nat, m.c as nat, f);
    }
    Mat { r: rows, c: m.c, d }
}

/// The matrices that a list holds.
pub open spec fn views(ms: Seq<Mat>) -> Seq<MatView> {
    Seq::new(ms.len(), |k: int| ms[k]@)
}

/// The columns of all matrices together.
pub open spec fn width(ms: Seq<MatView>) -> nat
    decreases ms.len(),
{
    if ms.len() == 0 {
        0
    } else {
        width(ms.drop_last()) + ms.last().c
    }
}

/// Row `i` of all matrices, one after the other.
pub open spec fn joined_row(ms: Seq<MatView>, i: int) -> Seq<u32>
    decreases ms.len(),
{
    if ms.len() == 0 {
        Seq::empty()
    } else {
        joined_row(ms.drop_last(), i) + ms.last().row(i)
    }
}

/// Matrices side by side, as far down as the first reaches.
pub open spec fn side_by_side(ms: Seq<MatView>) -> MatView {
    mat_of(ms[0].r, width(ms), |i: int| joined_row(ms, i))
}

/// Matrices can stand side by side: there is one, none is shorter than the first, and there are
/// not too many columns.
pub open spec fn can_join(ms: Seq<MatView>) -> bool {
    &&& ms.len() > 0
    &&& forall|k: int| 0 <= k < ms.len() ==> (#[trigger] ms[k]).r >= ms[0].r || ms[k].c == 0
    &&& width(ms) <= usize::MAX
}

proof fn lemma_width_grows(ms: Seq<MatView>, n: int)
    requires
        0 <= n <= ms.len(),
    ensures
        width(ms.take(n)) <= width(ms),
    decreases ms.len(),
{
    if n < ms.len() {
        lemma_width_grows(ms.drop_last(), n);
        assert(ms.drop_last().take(n) =~= ms.take(n));
    } else {
        assert(ms.take(n) =~= ms);
    }
}

pub(crate) proof fn lemma_joined_len(ms: Seq<MatView>, i: int)
    requires
        0 <= i,
        forall|k: int| 0 <= k < ms.len() ==> (#[trigger] ms[k]).wf(),
        forall|k: int| 0 <= k < ms.len() ==> i < (#[trigger] ms[k]).r || ms[k].c == 0,
    ensures
        joined_row(ms, i).len() == width(ms),
    decreases ms.len(),
{
    if ms.len() > 0 {
        let front = ms.drop_last();
        assert forall|k: int| 0 <= k < front.len() implies (#[trigger] front[k]).wf() && (i
            < front[k].r || front[k].c == 0) by {
            assert(front[k] == ms[k]);
        }
        lemma_joined_len(front, i);
        lemma_row_len(ms[ms.len() - 1], i);
    }
}

/// Matrices side by side.
pub fn join_columns(mats: &Vec<Mat>) -> (y: Option<Mat>)
    requires
        forall|k: int| 0 <= k < mats@.len() ==> (#[trigger] mats@[k])@.wf(),
    ensures
        match y {
            Some(y) => can_join(views(mats@)) && y@ == side_by_side(views(mats@)) && y@.wf(),
            None => !can_join(views(mats@)),
        },
{
    let ghost ms = views(mats@);
    if mats.len() == 0 {
        return None;
    }
    let rows: usize = mats[0].r;
    let mut cols: usize = 0;
    let mut k: usize = 0;
    assert(ms.take(0) =~= Seq::<MatView>::empty());
    while k < mats.len()
        invariant
            ms == views(mats@),
            mats@.len() > 0,
            rows == mats@[0].r,
            k <= mats@.len(),
            cols == width(ms.take(k as int)),
            forall|j: int| 0 <= j < k ==> (#[trigger] ms[j]).r >= ms[0].r || ms[j].c == 0,
        decreases mats@.len() - k,
    {
        assert(ms[k as int] == mats@[k as int]@);
        if mats[k].r < rows && mats[k].c != 0 {
            return None;
        }
        proof {
            assert(ms.take(k + 1).drop_last() =~= ms.take(k as int));
            lemma_width_grows(ms, k + 1);
        }
        match cols.checked_add(mats[k].c) {
            Some(n) => {
                cols = n;
            },
            None => {
                return None;
            },
        }
        k = k + 1;
    }
    assert(ms.take(k as int) =~= ms);
    let ghost f = |i: int| joined_row(ms, i);
    let mut d: Vec<u32> = Vec::new();
    let mut i: usize = 0;
    while i < rows
        invariant
            ms == views(mats@),
            mats@.len() > 0,
            rows == mats@[0].r,
            i <= rows,
            forall|k: int| 0 <= k < mats@.len() ==> (#[trigger] mats@[k])@.wf(),
            forall|j: int| 0 <= j < ms.len() ==> (#[trigger] ms[j]).r >= ms[0].r || ms[j].c == 0,
            f == (|i: int| joined_row(ms, i)),
            d@ == flat(i as nat, f),
        decreases rows - i,
    {
        let ghost before = d@;
        let mut k: usize = 0;
        proof {
            assert(ms.take(0) =~= Seq::<MatView>::empty());
            assert(before + joined_row(ms.take(0), i as int) =~= before);
        }
        while k < mats.len()
            invariant
                ms == views(mats@),
                mats@.len() > 0,
                rows == mats@[0].r,
                i < rows,
                k <= mats@.len(),
                forall|k: int| 0 <= k < mats@.len() ==> (#[trigger] mats@[k])@.wf(),
                forall|j: int|
                    0 <= j < ms.len() ==> (#[trigger] ms[j]).r >= ms[0].r || ms[j].c == 0,
                d@ == before + joined_row(ms.take(k as int), i as int),
            decreases mats@.len() - k,
        {
            assert(ms[k as int] == mats@[k as int]@);
            append(&mut d, mats[k].row(i));
            proof {
                assert(ms.take(k + 1).drop_last() =~= ms.take(k as int));
                assert(d@ =~= before + joined_row(ms.take(k + 1), i as int));
            }
            k = k + 1;
        }
        assert(ms.take(k as int) =~= ms);
        i = i + 1;
    }
    proof {
        assert forall|k: int| 0 <= k < ms.len() implies (#[trigger] ms[k]).wf() by {
            assert(mats@[k]@.wf());
        }
        assert forall|k: int| 0 <= k < rows implies (#[trigger] f(k)).len() == cols by {
            lemma_joined_len(ms, k);
        }
        lemma_mat_of_wf(rows as nat, cols as nat, f);
    }
    Some(Mat { r: rows, c: cols, d })
}

/// Row `i` of `m` moved by each offset, one after the other.
pub open spec fn spliced_row(m: MatView, offsets: Seq<i32>, i: int) -> Seq<u32>
    decreases offsets.len(),
{
    if offsets.len() == 0 {
        Seq::empty()
    } else {
        spliced_row(m, offsets.drop_last(), i) + m.row(clamped(i, offsets.last() as int, m.r))
    }
}

/// `m` moved by each offset, side by side.
pub open spec fn spliced(m: MatView, offsets: Seq<i32>) -> MatView {
    mat_of(m.r, m.c * offsets.len(), |i: int| spliced_row(m, offsets, i))
}

pub(crate) proof fn lemma_spliced_len(m: MatView, offsets: Seq<i32>, i: int)
    requires
        m.wf(),
        0 <= i < m.r,
    ensures
        spliced_row(m, offsets, i).len() == m.c * offsets.len(),
    decreases offsets.len(),
{
    if offsets.len() > 0 {
        lemma_spliced_len(m, offsets.drop_last(), i);
        lemma_row_len(m, clamped(i, offsets.last() as int, m.r));
        assert(m.c * (offsets.len() - 1) + m.c == m.c * offsets.len()) by (nonlinear_arith);
    } else {
        assert(m.c * 0 == 0) by (nonlinear_arith);
    }
}

/// `m` moved by each offset, side by side, if there are not too many columns.
pub fn splice(m: &Mat, offsets: &Vec<i32>) -> (y: Option<Mat>)
    requires
        m@.wf(),
    ensures
        match y {
            Some(y) => m.c * offsets@.len() <= usize::MAX && y@ == spliced(m@, offsets@) && y@.wf(),
            None => m.c * offsets@.len() > usize::MAX,
        },
{
    let cols: usize = match m.c.checked_mul(offsets.len()) {
        Some(n) => n,
        None => {
            return None;
        },
    };
    let ghost f = |i: int| spliced_row(m@, offsets@, i);
    let mut d: Vec<u32> = Vec::new();
    let mut i: usize = 0;
    while i < m.r
        invariant
            m@.wf(),
            i <= m.r,
            f == (|i: int| spliced_row(m@, offsets@, i)),
            d@ == flat(i as nat, f),
        decreases m.r - i,
    {
        let ghost before = d@;
        let mut k: usize = 0;
        proof {
            assert(offsets@.take(0) =~= Seq::<i32>::empty());
            assert(before + spliced_row(m@, offsets@.take(0), i as int) =~= before);
        }
        while k < offsets.len()
            invariant
                m@.wf(),
                i < m.r,
                k <= offsets@.len(),
                d@ == before + spliced_row(m@, offsets@.take(k as int), i as int),
            decreases offsets@.len() - k,
        {
            let at: i128 = i as i128 + offsets[k] as i128;
            let src: usize = if at < 0 {
                0
            } else if at >= m.r as i128 {
                m.r - 1
            } else {
                at as usize
            };
            append(&mut d, m.row(src));
            proof {
                assert(src == clamped(i as int, offsets@[k as int] as int, m@.r));
                assert(offsets@.take(k + 1).drop_last() =~= offsets@.take(k as int));
                assert(d@ =~= before + spliced_row(m@, offsets@.take(k + 1), i as int));
            }
            k = k + 1;
        }
        assert(offsets@.take(k as int) =~= offsets@);
        i = i + 1;
    }
    proof {
        assert forall|k: int| 0 <= k < m.r implies (#[trigger] f(k)).len() == cols by {
            lemma_spliced_len(m@, offsets@, k);
        }
        lemma_mat_of_wf(m.r as nat, cols as nat, f);
    }
    Some(Mat { r: m.r, c: cols, d })
}

/// `y` is `m` with every entry multiplied with `f`.
pub open spec fn scaled<A: Arith>(m: MatView, f: u32, y: MatView) -> bool {
    &&& y.r == m.r && y.c == m.c && y.d.len() == m.d.len()
    &&& forall|k: int| 0 <= k < m.d.len() ==> #[trigger] products::<A>(m.d[k], f, y.d[k])
}

/// `m` with every entry multiplied with `f`.
pub fn scale<A: Arith>(m: &Mat, f: u32) -> (y: Mat)
    ensures
        scaled::<A>(m@, f, y@),
{
    let mut d: Vec<u32> = Vec::new();
    let mut k: usize = 0;
    while k < m.d.len()
        invariant
            k <= m.d@.len(),
            d@.len() == k,
            forall|j: int| 0 <= j < k ==> #[trigger] products::<A>(m.d@[j], f, d@[j]),
        decreases m.d@.len() - k,
    {
        let v: u32 = A::mul(m.d[k], f);
        assert(products::<A>(m.d@[k as int], f, v));
        d.push(v);
        k = k + 1;
    }
    Mat { r: m.r, c: m.c, d }
}

/// `y` is `m` with the entries of `n` added, as far as `n` has entries.
pub open spec fn added<A: Arith>(m: MatView, n: MatView, y: MatView) -> bool {
    &&& y.r == m.r && y.c == m.c && y.d.len() == m.d.len()
    &&& forall|k: int|
        0 <= k < m.d.len() && k < n.d.len() ==> #[trigger] sums::<A>(m.d[k], n.d[k], y.d[k])
    &&& forall|k: int| n.d.len() <= k < m.d.len() ==> #[trigger] y.d[k] == m.d[k]
}

/// `m` with the entries of `n` added.
pub fn add_to<A: Arith>(m: &Mat, n: &Mat) -> (y: Mat)
    ensures
        added::<A>(m@, n@, y@),
{
    let mut d: Vec<u32> = Vec::new();
    let mut k: usize = 0;
    while k < m.d.len()
        invariant
            k <= m.d@.len(),
            d@.len() == k,
            forall|j: int|
                0 <= j < k && j < n.d@.len() ==> #[trigger] sums::<A>(m.d@[j], n.d@[j], d@[j]),
            forall|j: int| n.d@.len() <= j < k ==> #[trigger] d@[j] == m.d@[j],
        decreases m.d@.len() - k,
    {
        if k < n.d.len() {
            let v: u32 = A::add(m.d[k], n.d[k]);
            assert(sums::<A>(m.d@[k as int], n.d@[k as int], v));
            d.push(v);
        } else {
            d.push(m.d[k]);
        }
        k = k + 1;
    }
    Mat { r: m.r, c: m.c, d }
}

/// `m` with every entry below zero, or no number, made zero.
pub open spec fn rectified(m: MatView) -> MatView {
    MatView { r: m.r, c: m.c, d: Seq::new(m.d.len(), |k: int| larger(m.d[k], ZERO)) }
}

/// `m` with every entry below zero made zero.
pub fn relu(m: &Mat) -> (y: Mat)
    ensures
        y@ == rectified(m@),
{
    let mut d: Vec<u32> = Vec::new();
    let mut k: usize = 0;
    while k < m.d.len()
        invariant
            k <= m.d@.len(),
            d@ == Seq::new(k as nat, |j: int| larger(m.d@[j], ZERO)),
        decreases m.d@.len() - k,
    {
        d.push(max(m.d[k], ZERO));
        k = k + 1;
        assert(d@ =~= Seq::new(k as nat, |j: int| larger(m.d@[j], ZERO)));
    }
    Mat { r: m.r, c: m.c, d }
}

/// `s` is the factor of a column with variance `var`: the target over the root of the variance
/// and `eps`.
pub open spec fn norm_factor<A: Arith>(var: u32, eps: u32, trms: u32, s: u32) -> bool {
    exists|a: u32, q: u32|
        #![trigger sums::<A>(var, eps, a), roots::<A>(a, q)]
        sums::<A>(var, eps, a) && roots::<A>(a, q) && quotients::<A>(trms, q, s)
}

/// `y` is `x` less `mean`, times `s`.
pub open spec fn centred<A: Arith>(x: u32, mean: u32, s: u32, y: u32) -> bool {
    exists|d: u32| #[trigger] differences::<A>(x, mean, d) && products::<A>(d, s, y)
}

/// There is a mean and a variance for every column that has entries.
pub open spec fn can_normalise(m: MatView, mean: Seq<u32>, var: Seq<u32>) -> bool {
    m.r == 0 || (m.c <= mean.len() && m.c <= var.len())
}

/// `y` is `m` with every column centred and scaled by its statistics.
pub open spec fn normalised<A: Arith>(
    m: MatView,
    mean: Seq<u32>,
    var: Seq<u32>,
    eps: u32,
    trms: u32,
    y: MatView,
) -> bool {
    &&& y.r == m.r && y.c == m.c && y.d.len() == m.d.len()
    &&& exists|s: Seq<u32>|
        {
            &&& s.len() == var.len()
            &&& forall|j: int|
                0 <= j < var.len() ==> norm_factor::<A>(var[j], eps, trms, #[trigger] s[j])
            &&& forall|k: int|
                0 <= k < m.d.len() ==> centred::<A>(
                    m.d[k],
                    mean[k % (m.c as int)],
                    s[k % (m.c as int)],
                    #[trigger] y.d[k],
                )
        }
}

proof fn lemma_next_column(k: int, c: int, j: int)
    requires
        0 <= k,
        0 < c,
        k % c == j,
    ensures
        (k + 1) % c == (if j + 1 == c {
            0
        } else {
            j + 1
        }),
        0 <= j < c,
{
    vstd::arithmetic::div_mod::lemma_add_mod_noop(k, 1, c);
    if c > 1 {
        vstd::arithmetic::div_mod::lemma_small_mod(1, c as nat);
    } else {
        assert((k + 1) % c == 0);
    }
    vstd::arithmetic::div_mod::lemma_mod_bound(k, c);
    if j + 1 < c {
        vstd::arithmetic::div_mod::lemma_small_mod((j + 1) as nat, c as nat);
    } else {
        vstd::arithmetic::div_mod::lemma_mod_self_0(c);
    }
}

/// `m` with every column centred and scaled by its statistics, if it has them.
pub fn batch_norm<A: Arith>(
    m: &Mat,
    mean: &Vec<u32>,
    var: &Vec<u32>,
    eps: u32,
    trms: u32,
) -> (y: Option<Mat>)
    requires
        m@.wf(),
    ensures
        match y {
            Some(y) => can_normalise(m@, mean@, var@) && normalised::<A>(
                m@,
                mean@,
                var@,
                eps,
                trms,
                y@,
            ),
            None => !can_normalise(m@, mean@, var@),
        },
{
    if m.r > 0 && (mean.len() < m.c || var.len() < m.c) {
        return None;
    }
    let mut s: Vec<u32> = Vec::new();
    let mut j: usize = 0;
    while j < var.len()
        invariant
            j <= var@.len(),
            s@.len() == j,
            forall|i: int|
                0 <= i < j ==> norm_factor::<A>(var@[i], eps, trms, #[trigger] s@[i]),
        decreases var@.len() - j,
    {
        let a: u32 = A::add(var[j], eps);
        let q: u32 = A::sqrt(a);
        let v: u32 = A::div(trms, q);
        proof {
            assert(sums::<A>(var@[j as int], eps, a));
            assert(roots::<A>(a, q));
            assert(quotients::<A>(trms, q, v));
            assert(norm_factor::<A>(var@[j as int], eps, trms, v));
        }
        s.push(v);
        j = j + 1;
    }
    let mut d: Vec<u32> = Vec::new();
    let mut k: usize = 0;
    let mut j: usize = 0;
    proof {
        if m.c > 0 {
            vstd::arithmetic::div_mod::lemma_small_mod(0, m.c as nat);
        } else {
            assert(m.r * m.c == 0) by (nonlinear_arith)
                requires
                    m.c == 0,
            ;
        }
        if m.r == 0 {
            assert(m.r * m.c == 0) by (nonlinear_arith)
                requires
                    m.r == 0,
            ;
        }
    }
    while k < m.d.len()
        invariant
            m.d@.len() > 0 ==> m.c > 0 && m.c <= mean@.len() && m.c <= s@.len(),
            k <= m.d@.len(),
            m.c > 0 ==> j == (k as int) % (m.c as int) && j < m.c,
            d@.len() == k,
            forall|i: int|
                0 <= i < k ==> centred::<A>(
                    m.d@[i],
                    mean@[i % (m.c as int)],
                    s@[i % (m.c as int)],
                    #[trigger] d@[i],
                ),
        decreases m.d@.len() - k,
    {
        let x: u32 = A::sub(m.d[k], mean[j]);
        let v: u32 = A::mul(x, s[j]);
        proof {
            assert(differences::<A>(m.d@[k as int], mean@[j as int], x));
            assert(products::<A>(x, s@[j as int], v));
            assert(centred::<A>(m.d@[k as int], mean@[j as int], s@[j as int], v));
            lemma_next_column(k as int, m.c as int, j as int);
        }
        d.push(v);
        k = k + 1;
        j = if j + 1 == m.c {
            0
        } else {
            j + 1
        };
    }
    let y = Mat { r: m.r, c: m.c, d };
    proof {
        assert(normalised::<A>(m@, mean@, var@, eps, trms, y@)) by {
            assert(s@.len() == var@.len());
        }
    }
    Some(y)
}

/// A product with `w`, and `bias` if there is one, can be taken of `m`.
pub open spec fn can_apply(m: MatView, w: MatView, bias: Option<Seq<u32>>) -> bool {
    &&& m.c == w.c
    &&& m.r * w.r <= usize::MAX
    &&& bias is Some && m.r > 0 ==> w.r <= bias->0.len()
}

/// `y` is the product of `m` with the transpose of `w`, plus `bias` if there is one.
pub open spec fn affine_image<A: Arith>(
    m: MatView,
    w: MatView,
    bias: Option<Seq<u32>>,
    y: MatView,
) -> bool {
    &&& y.r == m.r && y.c == w.r && y.wf()
    &&& exists|g: Seq<u32>|
        {
            &&& #[trigger] gemms::<A>(m.r as usize, m.c as usize, w.r as usize, m.d, w.d, g)
            &&& g.len() == y.d.len()
            &&& match bias {
                None => y.d == g,
                Some(b) => forall|k: int|
                    0 <= k < g.len() ==> sums::<A>(
                        g[k],
                        b[k % (w.r as int)],
                        #[trigger] y.d[k],
                    ),
            }
        }
}

/// The arithmetic gives a product of `m` with the transpose of `w` that has the wrong size.
pub open spec fn short_product<A: Arith>(m: MatView, w: MatView) -> bool {
    exists|g: Seq<u32>| #[trigger]
        gemms::<A>(m.r as usize, m.c as usize, w.r as usize, m.d, w.d, g) && g.len() != m.r * w.r
}

/// y[T, out] = m[T, in] . w[out, in] transposed (+ bias).
pub fn affine<A: Arith>(m: &Mat, w: &Mat, bias: Option<&Vec<u32>>) -> (y: Result<Mat, EvalError>)
    requires
        m@.wf(),
        w@.wf(),
    ensures
        ({
            let b = match bias {
                Some(b) => Some(b@),
                None => None,
            };
            match y {
                Ok(y) => can_apply(m@, w@, b) && affine_image::<A>(m@, w@, b, y@),
                Err(EvalError::Mismatch) => !can_apply(m@, w@, b),
                Err(EvalError::Kernel) => can_apply(m@, w@, b) && short_product::<A>(m@, w@),
            }
        }),
{
    if m.c != w.c {
        return Err(EvalError::Mismatch);
    }
    let size: usize = match m.r.checked_mul(w.r) {
        Some(n) => n,
        None => {
            return Err(EvalError::Mismatch);
        },
    };
    match bias {
        Some(b) => {
            if m.r > 0 && b.len() < w.r {
                return Err(EvalError::Mismatch);
            }
        },
        None => {},
    }
    let g = A::gemm(m.r, m.c, w.r, &m.d, &w.d);
    assert(m@.r as usize == m.r && m@.c as usize == m.c && w@.r as usize == w.r);
    assert(gemms::<A>(m@.r as usize, m@.c as usize, w@.r as usize, m@.d, w@.d, g@));
    if g.len() != size {
        return Err(EvalError::Kernel);
    }
    let b = match bias {
        Some(b) => b,
        None => {
            let y = Mat { r: m.r, c: w.r, d: g };
            assert(y@.wf());
            return Ok(y);
        },
    };
    let mut d: Vec<u32> = Vec::new();
    let mut k: usize = 0;
    let mut j: usize = 0;
    proof {
        if w.r > 0 {
            vstd::arithmetic::div_mod::lemma_small_mod(0, w.r as nat);
        } else {
            assert(m.r * w.r == 0) by (nonlinear_arith)
                requires
                    w.r == 0,
            ;
        }
        if m.r == 0 {
            assert(m.r * w.r == 0) by (nonlinear_arith)
                requires
                    m.r == 0,
            ;
        }
    }
    while k < g.len()
        invariant
            g@.len() > 0 ==> w.r > 0 && w.r <= b@.len(),
            k <= g@.len(),
            w.r > 0 ==> j == (k as int) % (w.r as int) && j < w.r,
            d@.len() == k,
            forall|i: int|
                0 <= i < k ==> sums::<A>(g@[i], b@[i % (w.r as int)], #[trigger] d@[i]),
        decreases g@.len() - k,
    {
        let v: u32 = A::add(g[k], b[j]);
        proof {
            assert(sums::<A>(g@[k as int], b@[j as int], v));
            lemma_next_column(k as int, w.r as int, j as int);
        }
        d.push(v);
        k = k + 1;
        j = if j + 1 == w.r {
            0
        } else {
            j + 1
        };
    }
    let y = Mat { r: m.r, c: w.r, d };
    assert(affine_image::<A>(m@, w@, Some(b@), y@)) by {
        assert(gemms::<A>(m@.r as usize, m@.c as usize, w@.r as usize, m@.d, w@.d, g@));
        assert(y@.wf());
    }
    Ok(y)
}

/// Every third row is kept: row `j` of the result is row `3 j`, there is one for each of them, and
/// no more.
pub proof fn law_every_third(m: MatView, j: int)
    requires
        m.wf(),
        0 <= j < every_third(m).r,
    ensures
        every_third(m).wf(),
        every_third(m).c == m.c,
        3 * j < m.r,
        every_third(m).row(j) == m.row(3 * j),
        m.r <= 3 * every_third(m).r < m.r + 3,
{
    let f = |i: int| m.row(3 * i);
    assert forall|k: int| 0 <= k < every_third(m).r implies (#[trigger] f(k)).len() == m.c by {
        lemma_row_len(m, 3 * k);
    }
    law_rows(every_third(m).r, m.c, f, j);
}

/// A matrix moved by no rows is the matrix itself.
pub proof fn law_no_shift(m: MatView, i: int)
    requires
        m.wf(),
        0 <= i < m.r,
    ensures
        shifted(m, 0).row(i) == m.row(i),
{
    let f = |k: int| m.row(clamped(k, 0, m.r));
    assert forall|k: int| 0 <= k < m.r implies (#[trigger] f(k)).len() == m.c by {
        lemma_row_len(m, k);
    }
    law_rows(m.r, m.c, f, i);
}

} // verus!
