//! Dumps of matrices and samples: rows and columns as 32-bit integers, and then the entries.

use vstd::prelude::*;

use crate::kaldi_io::{i32_at, le_bytes, le_i32, le_u32, pattern, raw, u32_at, ReadError};
use crate::mat::{Mat, MatView};

verus! {

/// The matrix of a dump. What stands behind it is ignored.
pub open spec fn spec_dump(s: Seq<u8>) -> Result<MatView, ReadError> {
    if s.len() < 8 {
        Err(ReadError::UnexpectedEof)
    } else {
        let (r, c) = (i32_at(s, 0), i32_at(s, 4));
        if r < 0 || c < 0 {
            Err(ReadError::NegativeLength)
        } else if s.len() < 8 + 4 * (r * c) {
            Err(ReadError::UnexpectedEof)
        } else {
            Ok(
                MatView {
                    r: r as nat,
                    c: c as nat,
                    d: Seq::new((r * c) as nat, |i: int| u32_at(s, 8 + 4 * i)),
                },
            )
        }
    }
}

/// The samples of a dump with one row, as many as it has columns.
pub open spec fn spec_samples(s: Seq<u8>) -> Result<Seq<u32>, ReadError> {
    if s.len() < 8 {
        Err(ReadError::UnexpectedEof)
    } else {
        let n = i32_at(s, 4);
        if n < 0 {
            Err(ReadError::NegativeLength)
        } else if s.len() < 8 + 4 * n {
            Err(ReadError::UnexpectedEof)
        } else {
            Ok(Seq::new(n as nat, |i: int| u32_at(s, 8 + 4 * i)))
        }
    }
}

/// The `n` patterns behind the two integers of a dump.
fn entries(s: &[u8], n: usize) -> (d: Vec<u32>)
    requires
        8 + 4 * n <= s@.len(),
    ensures
        d@ == Seq::new(n as nat, |i: int| u32_at(s@, 8 + 4 * i)),
{
    let end: usize = s.len();
    let mut d: Vec<u32> = Vec::new();
    let mut i: usize = 0;
    while i < n
        invariant
            end == s@.len(),
            8 + 4 * n <= end,
            i <= n,
            d@ == Seq::new(i as nat, |j: int| u32_at(s@, 8 + 4 * j)),
        decreases n - i,
    {
        d.push(le_u32(s, 8 + 4 * i));
        i = i + 1;
        assert(d@ =~= Seq::new(i as nat, |j: int| u32_at(s@, 8 + 4 * j)));
    }
    d
}

/// The matrix of a dump.
pub fn load_bin(s: &[u8]) -> (r: Result<Mat, ReadError>)
    ensures
        match r {
            Ok(m) => spec_dump(s@) == Ok::<MatView, ReadError>(m@) && m@.wf(),
            Err(e) => spec_dump(s@) == Err::<MatView, ReadError>(e),
        },
{
    if s.len() < 8 {
        return Err(ReadError::UnexpectedEof);
    }
    let rows: i32 = le_i32(s, 0);
    let cols: i32 = le_i32(s, 4);
    if rows < 0 || cols < 0 {
        return Err(ReadError::NegativeLength);
    }
    assert(0 <= rows * cols <= 0x7fff_ffff * 0x7fff_ffff) by (nonlinear_arith)
        requires
            0 <= rows <= 0x7fff_ffff,
            0 <= cols <= 0x7fff_ffff,
    ;
    let size: u64 = rows as u64 * cols as u64;
    if (((s.len() - 8) / 4) as u64) < size {
        return Err(ReadError::UnexpectedEof);
    }
    let d = entries(s, size as usize);
    Ok(Mat { r: rows as usize, c: cols as usize, d })
}

/// The samples of a dump.
pub fn load_samples(s: &[u8]) -> (r: Result<Vec<u32>, ReadError>)
    ensures
        match r {
            Ok(v) => spec_samples(s@) == Ok::<Seq<u32>, ReadError>(v@),
            Err(e) => spec_samples(s@) == Err::<Seq<u32>, ReadError>(e),
        },
{
    if s.len() < 8 {
        return Err(ReadError::UnexpectedEof);
    }
    let n: i32 = le_i32(s, 4);
    if n < 0 {
        return Err(ReadError::NegativeLength);
    }
    if (s.len() - 8) / 4 < n as usize {
        return Err(ReadError::UnexpectedEof);
    }
    Ok(entries(s, n as usize))
}

/// A dump with one row holds its entries as samples.
pub proof fn law_one_row(s: Seq<u8>)
    requires
        s.len() >= 8,
        i32_at(s, 0) == 1,
    ensures
        match spec_dump(s) {
            Ok(m) => spec_samples(s) == Ok::<Seq<u32>, ReadError>(m.d),
            Err(e) => spec_samples(s) == Err::<Seq<u32>, ReadError>(e),
        },
{
    let (r, c) = (i32_at(s, 0), i32_at(s, 4));
    assert(r * c == c) by (nonlinear_arith)
        requires
            r == 1,
    ;
}

/// A matrix that was dumped is read back.
pub proof fn law_dump(m: MatView, rest: Seq<u8>)
    requires
        m.wf(),
        m.r <= i32::MAX,
        m.c <= i32::MAX,
    ensures
        spec_dump(
            le_bytes(pattern(m.r as i32)) + le_bytes(pattern(m.c as i32)) + raw(m.d) + rest,
        ) == Ok::<MatView, ReadError>(m),
{
    let a = le_bytes(pattern(m.r as i32));
    let b = le_bytes(pattern(m.c as i32));
    let s = a + b + raw(m.d) + rest;
    assert(s.subrange(0, 4) =~= a);
    crate::kaldi_io::lemma_le_bytes(s, 0, pattern(m.r as i32));
    assert(s.subrange(4, 8) =~= b);
    crate::kaldi_io::lemma_le_bytes(s, 4, pattern(m.c as i32));
    let n = m.r * m.c;
    assert(m.r as int * m.c as int == n);
    let d = Seq::new(n, |i: int| u32_at(s, 8 + 4 * i));
    assert forall|i: int| 0 <= i < n implies d[i] == m.d[i] by {
        assert(s.subrange(8 + 4 * i, 8 + 4 * i + 4) =~= le_bytes(m.d[i]));
        crate::kaldi_io::lemma_le_bytes(s, 8 + 4 * i, m.d[i]);
    }
    assert(d =~= m.d);
}

} // verus!
