//! Reader for Kaldi's binary serialization (the `\0B` format).
//!
//! Tokens (`<Foo>`) are space-terminated ASCII even in binary mode. Basic types are written as
//! `[size-byte][little-endian bytes]` (int32/float have size-byte 4). Integer vectors are
//! `[i32 count][raw i32 x count]`. Float matrices are token `FM` then `[i32 rows][i32 cols]` then
//! `rows*cols` raw f32; float vectors are token `FV` then `[i32 dim]` then `dim` raw f32. Floats
//! are handed out as their bit patterns.

use vstd::prelude::*;
use vstd::slice::slice_subrange;

use crate::text::is_text;

verus! {

/// Why a read failed.
#[derive(Clone, Copy, PartialEq, Eq, Debug, Structural)]
pub enum ReadError {
    /// The stream ended inside the item.
    UnexpectedEof,
    /// The stream does not start with `\0B`.
    NotBinary,
    /// The size byte of an integer is not 4.
    IntSize,
    /// The size byte of a float is not 4.
    FloatSize,
    /// A count, dimension or row number is negative.
    NegativeLength,
    /// A float vector does not start with the token `FV`.
    ExpectedVector,
    /// A float matrix does not start with the token `FM`.
    ExpectedMatrix,
}

/// The text of an error.
pub fn err(e: ReadError) -> (msg: &'static str)
    ensures
        msg@ == (match e {
            ReadError::UnexpectedEof => "failed to fill whole buffer"@,
            ReadError::NotBinary => "not a binary Kaldi stream (missing \\0B)"@,
            ReadError::IntSize => "expected i32 size byte = 4"@,
            ReadError::FloatSize => "expected f32 size byte = 4"@,
            ReadError::NegativeLength => "negative vector length"@,
            ReadError::ExpectedVector => "expected FV"@,
            ReadError::ExpectedMatrix => "expected FM"@,
        }),
{
    match e {
        ReadError::UnexpectedEof => "failed to fill whole buffer",
        ReadError::NotBinary => "not a binary Kaldi stream (missing \\0B)",
        ReadError::IntSize => "expected i32 size byte = 4",
        ReadError::FloatSize => "expected f32 size byte = 4",
        ReadError::NegativeLength => "negative vector length",
        ReadError::ExpectedVector => "expected FV",
        ReadError::ExpectedMatrix => "expected FM",
    }
}

/// What reading a `T` off the front of a stream gives: the value and what is left, or an error.
pub type Parsed<T> = Result<(T, Seq<u8>), ReadError>;

/// The little-endian number in the four bytes at `p`.
pub open spec fn u32_at(s: Seq<u8>, p: int) -> u32 {
    (s[p] + 0x100 * s[p + 1] + 0x1_0000 * s[p + 2] + 0x100_0000 * s[p + 3]) as u32
}

/// The signed number that a 32-bit pattern stands for in two's complement.
pub open spec fn signed(v: u32) -> i32 {
    (if v >= 0x8000_0000 {
        v - 0x1_0000_0000
    } else {
        v as int
    }) as i32
}

/// The little-endian two's complement number in the four bytes at `p`.
pub open spec fn i32_at(s: Seq<u8>, p: int) -> i32 {
    signed(u32_at(s, p))
}

/// Space, newline and tab end a token.
pub open spec fn is_separator(b: u8) -> bool {
    b == 0x20 || b == 0x0a || b == 0x09
}

/// How many bytes at the front of `s` are separators (`sep`), or are not (`!sep`).
pub open spec fn run(s: Seq<u8>, sep: bool) -> nat
    decreases s.len(),
{
    if s.len() == 0 || is_separator(s[0]) != sep {
        0
    } else {
        1 + run(s.skip(1), sep)
    }
}

/// The characters that bytes stand for, one each.
pub open spec fn latin(s: Seq<u8>) -> Seq<char> {
    Seq::new(s.len(), |i: int| s[i] as char)
}

/// A single byte.
pub open spec fn spec_byte(s: Seq<u8>) -> Parsed<u8> {
    if s.len() < 1 {
        Err(ReadError::UnexpectedEof)
    } else {
        Ok((s[0], s.skip(1)))
    }
}

/// The binary marker.
pub open spec fn spec_binary(s: Seq<u8>) -> Parsed<()> {
    if s.len() < 2 {
        Err(ReadError::UnexpectedEof)
    } else if s[0] == 0 && s[1] == 0x42 {
        Ok(((), s.skip(2)))
    } else {
        Err(ReadError::NotBinary)
    }
}

/// A token: the first bytes that are no separators, and the one separator after them.
pub open spec fn spec_token(s: Seq<u8>) -> Parsed<Seq<char>> {
    let t = s.skip(run(s, true) as int);
    let n = run(t, false);
    if n == t.len() {
        Err(ReadError::UnexpectedEof)
    } else {
        Ok((latin(t.take(n as int)), t.skip(n as int + 1)))
    }
}

/// An integer behind its size byte.
pub open spec fn spec_i32(s: Seq<u8>) -> Parsed<i32> {
    if s.len() < 1 {
        Err(ReadError::UnexpectedEof)
    } else if s[0] != 4 {
        Err(ReadError::IntSize)
    } else if s.len() < 5 {
        Err(ReadError::UnexpectedEof)
    } else {
        Ok((i32_at(s, 1), s.skip(5)))
    }
}

/// The bit pattern of a float behind its size byte.
pub open spec fn spec_f32(s: Seq<u8>) -> Parsed<u32> {
    if s.len() < 1 {
        Err(ReadError::UnexpectedEof)
    } else if s[0] != 4 {
        Err(ReadError::FloatSize)
    } else if s.len() < 5 {
        Err(ReadError::UnexpectedEof)
    } else {
        Ok((u32_at(s, 1), s.skip(5)))
    }
}

/// `n` bit patterns of four bytes each.
pub open spec fn spec_f32_raw(s: Seq<u8>, n: nat) -> Parsed<Seq<u32>> {
    if s.len() < 4 * n {
        Err(ReadError::UnexpectedEof)
    } else {
        Ok((Seq::new(n, |i: int| u32_at(s, 4 * i)), s.skip(4 * n as int)))
    }
}

/// An integer vector behind its count.
pub open spec fn spec_i32_vec(s: Seq<u8>) -> Parsed<Seq<i32>> {
    match spec_i32(s) {
        Err(e) => Err(e),
        Ok((n, r)) => if n < 0 {
            Err(ReadError::NegativeLength)
        } else if r.len() < 4 * n {
            Err(ReadError::UnexpectedEof)
        } else {
            Ok((Seq::new(n as nat, |i: int| i32_at(r, 4 * i)), r.skip(4 * n)))
        },
    }
}

/// A float vector behind its token and dimension.
pub open spec fn spec_float_vec(s: Seq<u8>) -> Parsed<Seq<u32>> {
    match spec_token(s) {
        Err(e) => Err(e),
        Ok((tok, r)) => if tok != "FV"@ {
            Err(ReadError::ExpectedVector)
        } else {
            match spec_i32(r) {
                Err(e) => Err(e),
                Ok((dim, r)) => if dim < 0 {
                    Err(ReadError::NegativeLength)
                } else {
                    spec_f32_raw(r, dim as nat)
                },
            }
        },
    }
}

/// A float matrix behind its token, rows and columns: rows, columns, and the rows one by one.
pub open spec fn spec_float_matrix(s: Seq<u8>) -> Parsed<(nat, nat, Seq<u32>)> {
    match spec_token(s) {
        Err(e) => Err(e),
        Ok((tok, r)) => if tok != "FM"@ {
            Err(ReadError::ExpectedMatrix)
        } else {
            match spec_i32(r) {
                Err(e) => Err(e),
                Ok((rows, r)) => match spec_i32(r) {
                    Err(e) => Err(e),
                    Ok((cols, r)) => if rows < 0 || cols < 0 {
                        Err(ReadError::NegativeLength)
                    } else {
                        match spec_f32_raw(r, (rows * cols) as nat) {
                            Err(e) => Err(e),
                            Ok((d, r)) => Ok(((rows as nat, cols as nat, d), r)),
                        }
                    },
                },
            }
        },
    }
}

/// What is left where the binary marker is not there: up to two bytes are gone.
pub open spec fn left_binary(s: Seq<u8>) -> Seq<u8> {
    if s.len() < 2 {
        s.skip(s.len() as int)
    } else {
        s.skip(2)
    }
}

/// What is left where a number cannot be read: its size byte is gone.
pub open spec fn left_number(s: Seq<u8>) -> Seq<u8> {
    if s.len() < 1 {
        s
    } else {
        s.skip(1)
    }
}

/// What is left where an integer vector cannot be read.
pub open spec fn left_i32_vec(s: Seq<u8>) -> Seq<u8> {
    match spec_i32(s) {
        Err(e) => left_number(s),
        Ok((n, r)) => r,
    }
}

/// What is left where a float vector cannot be read. Where its token does not end, nothing is.
pub open spec fn left_float_vec(s: Seq<u8>) -> Seq<u8> {
    match spec_token(s) {
        Err(e) => Seq::empty(),
        Ok((tok, r)) => if tok != "FV"@ {
            r
        } else {
            left_i32_vec(r)
        },
    }
}

/// What is left where a float matrix cannot be read. Where its token does not end, nothing is.
pub open spec fn left_float_matrix(s: Seq<u8>) -> Seq<u8> {
    match spec_token(s) {
        Err(e) => Seq::empty(),
        Ok((tok, r)) => if tok != "FM"@ {
            r
        } else {
            match spec_i32(r) {
                Err(e) => left_number(r),
                Ok((rows, r)) => left_i32_vec(r),
            }
        },
    }
}

/// A read gave what the stream holds: a value, with `after` left behind it, or the error that the
/// stream calls for, with `stuck` left.
pub open spec fn reads<T, U>(
    p: Parsed<T>,
    r: Result<U, ReadError>,
    v: spec_fn(U) -> T,
    after: Seq<u8>,
    stuck: Seq<u8>,
) -> bool {
    match r {
        Ok(u) => p == Ok::<(T, Seq<u8>), ReadError>((v(u), after)),
        Err(e) => p == Err::<(T, Seq<u8>), ReadError>(e) && after == stuck,
    }
}

/// `after` is what is left of `before` once some bytes have been read.
pub open spec fn ends_with(before: Seq<u8>, after: Seq<u8>) -> bool {
    after.len() <= before.len() && after == before.skip(before.len() - after.len())
}

/// The little-endian number in four bytes of a slice.
pub fn le_u32(s: &[u8], p: usize) -> (r: u32)
    requires
        p + 4 <= s@.len(),
    ensures
        r == u32_at(s@, p as int),
{
    s[p] as u32 + 0x100 * s[p + 1] as u32 + 0x1_0000 * s[p + 2] as u32 + 0x100_0000 * s[p + 3] as u32
}

/// The little-endian two's complement number in four bytes of a slice.
pub fn le_i32(s: &[u8], p: usize) -> (r: i32)
    requires
        p + 4 <= s@.len(),
    ensures
        r == i32_at(s@, p as int),
{
    let v: u32 = le_u32(s, p);
    if v >= 0x8000_0000 {
        (v as i64 - 0x1_0000_0000) as i32
    } else {
        v as i32
    }
}

broadcast proof fn lemma_ends_with(a: Seq<u8>, b: Seq<u8>, c: Seq<u8>)
    requires
        #[trigger] ends_with(a, b),
        #[trigger] ends_with(b, c),
    ensures
        ends_with(a, c),
{
    assert(c =~= a.skip(a.len() - c.len()));
}

/// A stream of bytes and how far it has been read.
pub struct KaldiReader<'a> {
    data: &'a [u8],
    pos: usize,
}

impl<'a> KaldiReader<'a> {
    #[verifier::type_invariant]
    spec fn in_range(self) -> bool {
        self.pos <= self.data@.len()
    }

    /// The bytes still to be read.
    pub closed spec fn rest(self) -> Seq<u8> {
        self.data@.skip(self.pos as int)
    }

    /// A reader at the start of `data`.
    pub fn new(data: &'a [u8]) -> (r: Self)
        ensures
            r.rest() == data@,
    {
        let r = KaldiReader { data, pos: 0 };
        assert(data@.skip(0) =~= data@);
        r
    }

    /// How many bytes are left.
    fn remaining(&self) -> (n: usize)
        ensures
            n == self.rest().len(),
    {
        proof {
            use_type_invariant(self);
        }
        self.data.len() - self.pos
    }

    /// The next `n` bytes.
    fn take(&mut self, n: usize) -> (r: Result<&'a [u8], ReadError>)
        ensures
            match r {
                Ok(b) => n <= old(self).rest().len() && b@ == old(self).rest().take(n as int)
                    && final(self).rest() == old(self).rest().skip(n as int),
                Err(e) => e == ReadError::UnexpectedEof && n > old(self).rest().len()
                    && final(self).rest() == old(self).rest(),
            },
            ends_with(old(self).rest(), final(self).rest()),
    {
        proof {
            use_type_invariant(&*self);
        }
        if self.data.len() - self.pos < n {
            assert(self.rest() =~= self.rest().skip(0));
            return Err(ReadError::UnexpectedEof);
        }
        let b = slice_subrange(self.data, self.pos, self.pos + n);
        let ghost before = self.rest();
        self.pos = self.pos + n;
        assert(b@ =~= before.take(n as int));
        assert(self.rest() =~= before.skip(n as int));
        Ok(b)
    }

    /// The next byte.
    fn byte(&mut self) -> (r: Result<u8, ReadError>)
        ensures
            reads(
                spec_byte(old(self).rest()),
                r,
                |b: u8| b,
                final(self).rest(),
                old(self).rest(),
            ),
            ends_with(old(self).rest(), final(self).rest()),
    {
        match self.take(1) {
            Ok(b) => Ok(b[0]),
            Err(e) => Err(e),
        }
    }

    /// Consume the `\0B` binary marker.
    pub fn expect_binary(&mut self) -> (r: Result<(), ReadError>)
        ensures
            reads(
                spec_binary(old(self).rest()),
                r,
                |u: ()| u,
                final(self).rest(),
                left_binary(old(self).rest()),
            ),
            ends_with(old(self).rest(), final(self).rest()),
    {
        broadcast use lemma_ends_with;

        let ghost s = self.rest();
        let a = match self.byte() {
            Ok(a) => a,
            Err(e) => {
                return Err(e);
            },
        };
        let b = match self.byte() {
            Ok(b) => b,
            Err(e) => {
                return Err(e);
            },
        };
        if a != 0 || b != 0x42 {
            return Err(ReadError::NotBinary);
        }
        assert(self.rest() =~= s.skip(2));
        Ok(())
    }

    /// Read a size-prefixed i32 (`[4][LE i32]`).
    pub fn read_i32(&mut self) -> (r: Result<i32, ReadError>)
        ensures
            reads(
                spec_i32(old(self).rest()),
                r,
                |v: i32| v,
                final(self).rest(),
                left_number(old(self).rest()),
            ),
            ends_with(old(self).rest(), final(self).rest()),
    {
        broadcast use lemma_ends_with;

        let ghost s = self.rest();
        let size = match self.byte() {
            Ok(b) => b,
            Err(e) => {
                return Err(e);
            },
        };
        if size != 4 {
            return Err(ReadError::IntSize);
        }
        match self.take(4) {
            Ok(b) => {
                assert(self.rest() =~= s.skip(5));
                Ok(le_i32(b, 0))
            },
            Err(e) => Err(e),
        }
    }

    /// Read a size-prefixed f32, as its bit pattern.
    pub fn read_f32(&mut self) -> (r: Result<u32, ReadError>)
        ensures
            reads(
                spec_f32(old(self).rest()),
                r,
                |v: u32| v,
                final(self).rest(),
                left_number(old(self).rest()),
            ),
            ends_with(old(self).rest(), final(self).rest()),
    {
        broadcast use lemma_ends_with;

        let ghost s = self.rest();
        let size = match self.byte() {
            Ok(b) => b,
            Err(e) => {
                return Err(e);
            },
        };
        if size != 4 {
            return Err(ReadError::FloatSize);
        }
        match self.take(4) {
            Ok(b) => {
                assert(self.rest() =~= s.skip(5));
                Ok(le_u32(b, 0))
            },
            Err(e) => Err(e),
        }
    }

    /// Read one space-terminated token (skips leading spaces). e.g. `<Topology>`, `FM`, `[`.
    pub fn read_token(&mut self) -> (r: Result<String, ReadError>)
        ensures
            reads(
                spec_token(old(self).rest()),
                r,
                |t: String| t@,
                final(self).rest(),
                Seq::empty(),
            ),
            ends_with(old(self).rest(), final(self).rest()),
    {
        broadcast use lemma_ends_with;

        let ghost s = self.rest();
        let ghost a = run(s, true) as int;
        let ghost t = s.skip(a);
        let ghost mut k: int = 0;
        let mut tok = String::new();
        proof {
            lemma_run(s, true);
            assert(s.skip(0) =~= s);
            assert(tok@ =~= latin(s.subrange(a, a)));
        }
        loop
            invariant
                0 <= k <= s.len(),
                s == old(self).rest(),
                self.rest() == s.skip(k),
                ends_with(s, self.rest()),
                a == run(s, true),
                a <= s.len(),
                t == s.skip(a),
                tok@.len() == 0 ==> k <= a && a == k + run(self.rest(), true),
                tok@.len() > 0 ==> a < k && tok@ == latin(s.subrange(a, k)) && run(t, false) == k - a
                    + run(self.rest(), false),
            decreases s.len() - k,
        {
            broadcast use lemma_ends_with;

            let ghost before = self.rest();
            let c = match self.byte() {
                Ok(c) => c,
                Err(e) => {
                    assert(run(t, false) == t.len()) by {
                        lemma_run(t, false);
                    }
                    assert(self.rest() =~= Seq::<u8>::empty());
                    return Err(e);
                },
            };
            assert(before.skip(1) =~= s.skip(k + 1));
            assert(before[0] == s[k]);
            if c == 0x20 || c == 0x0a || c == 0x09 {
                if tok.as_str().is_empty() {
                    proof {
                        k = k + 1;
                    }
                    continue;
                }
                proof {
                    assert(t.take(k - a) =~= s.subrange(a, k));
                    assert(t.skip(k - a + 1) =~= s.skip(k + 1));
                }
                return Ok(tok);
            }
            proof {
                if tok@.len() == 0 {
                    assert(k == a);
                    assert(t =~= before);
                }
                assert(latin(s.subrange(a, k)).push(c as char) =~= latin(s.subrange(a, k + 1)));
                assert(latin(s.subrange(a, a)) =~= Seq::<char>::empty());
            }
            tok.push(c as char);
            proof {
                k = k + 1;
            }
        }
    }

    /// Read an integer vector: `[i32 count][raw i32 x count]`.
    pub fn read_i32_vec(&mut self) -> (r: Result<Vec<i32>, ReadError>)
        ensures
            reads(
                spec_i32_vec(old(self).rest()),
                r,
                |v: Vec<i32>| v@,
                final(self).rest(),
                left_i32_vec(old(self).rest()),
            ),
            ends_with(old(self).rest(), final(self).rest()),
    {
        broadcast use lemma_ends_with;

        let n = match self.read_i32() {
            Ok(n) => n,
            Err(e) => {
                return Err(e);
            },
        };
        if n < 0 {
            return Err(ReadError::NegativeLength);
        }
        if self.remaining() / 4 < n as usize {
            return Err(ReadError::UnexpectedEof);
        }
        let n: usize = n as usize;
        let ghost s = self.rest();
        let size: usize = 4 * n;
        let b = match self.take(size) {
            Ok(b) => b,
            Err(e) => {
                return Err(e);
            },
        };
        let mut out: Vec<i32> = Vec::new();
        let mut i: usize = 0;
        while i < n
            invariant
                i <= n,
                size == 4 * n,
                size <= s.len(),
                b@ == s.take(size as int),
                out@ == Seq::new(i as nat, |j: int| i32_at(s, 4 * j)),
            decreases n - i,
        {
            let v: i32 = le_i32(b, 4 * i);
            assert(v == i32_at(s, 4 * i as int));
            out.push(v);
            i = i + 1;
            assert(out@ =~= Seq::new(i as nat, |j: int| i32_at(s, 4 * j)));
        }
        Ok(out)
    }

    /// Read raw f32 data (`count` little-endian f32, no size bytes), as bit patterns.
    fn read_f32_raw(&mut self, count: usize) -> (r: Result<Vec<u32>, ReadError>)
        ensures
            reads(
                spec_f32_raw(old(self).rest(), count as nat),
                r,
                |v: Vec<u32>| v@,
                final(self).rest(),
                old(self).rest(),
            ),
            ends_with(old(self).rest(), final(self).rest()),
    {
        if self.remaining() / 4 < count {
            assert(self.rest() =~= self.rest().skip(0));
            return Err(ReadError::UnexpectedEof);
        }
        let ghost s = self.rest();
        let size: usize = 4 * count;
        let b = match self.take(size) {
            Ok(b) => b,
            Err(e) => {
                return Err(e);
            },
        };
        let mut out: Vec<u32> = Vec::new();
        let mut i: usize = 0;
        while i < count
            invariant
                i <= count,
                size == 4 * count,
                size <= s.len(),
                b@ == s.take(size as int),
                out@ == Seq::new(i as nat, |j: int| u32_at(s, 4 * j)),
            decreases count - i,
        {
            let v: u32 = le_u32(b, 4 * i);
            assert(v == u32_at(s, 4 * i as int));
            out.push(v);
            i = i + 1;
            assert(out@ =~= Seq::new(i as nat, |j: int| u32_at(s, 4 * j)));
        }
        Ok(out)
    }

    /// Read a float vector: token `FV` then `[i32 dim]` then `dim` raw f32.
    pub fn read_float_vec(&mut self) -> (r: Result<Vec<u32>, ReadError>)
        ensures
            reads(
                spec_float_vec(old(self).rest()),
                r,
                |v: Vec<u32>| v@,
                final(self).rest(),
                left_float_vec(old(self).rest()),
            ),
            ends_with(old(self).rest(), final(self).rest()),
    {
        broadcast use lemma_ends_with;

        let tok = match self.read_token() {
            Ok(tok) => tok,
            Err(e) => {
                return Err(e);
            },
        };
        if !is_text(&tok, "FV") {
            return Err(ReadError::ExpectedVector);
        }
        let dim = match self.read_i32() {
            Ok(n) => n,
            Err(e) => {
                return Err(e);
            },
        };
        if dim < 0 {
            return Err(ReadError::NegativeLength);
        }
        self.read_f32_raw(dim as usize)
    }

    /// Read a float matrix: token `FM` then `[i32 rows][i32 cols]` then `rows*cols` raw f32.
    /// Returns (rows, cols, row-major data).
    pub fn read_float_matrix(&mut self) -> (r: Result<(usize, usize, Vec<u32>), ReadError>)
        ensures
            reads(
                spec_float_matrix(old(self).rest()),
                r,
                |m: (usize, usize, Vec<u32>)| (m.0 as nat, m.1 as nat, m.2@),
                final(self).rest(),
                left_float_matrix(old(self).rest()),
            ),
            ends_with(old(self).rest(), final(self).rest()),
    {
        broadcast use lemma_ends_with;

        let tok = match self.read_token() {
            Ok(tok) => tok,
            Err(e) => {
                return Err(e);
            },
        };
        if !is_text(&tok, "FM") {
            return Err(ReadError::ExpectedMatrix);
        }
        let rows = match self.read_i32() {
            Ok(n) => n,
            Err(e) => {
                return Err(e);
            },
        };
        let cols = match self.read_i32() {
            Ok(n) => n,
            Err(e) => {
                return Err(e);
            },
        };
        if rows < 0 || cols < 0 {
            return Err(ReadError::NegativeLength);
        }
        assert(0 <= rows * cols <= 0x7fff_ffff * 0x7fff_ffff) by (nonlinear_arith)
            requires
                0 <= rows <= 0x7fff_ffff,
                0 <= cols <= 0x7fff_ffff,
        ;
        let size: u64 = rows as u64 * cols as u64;
        if (self.remaining() / 4) as u64 >= size {
            match self.read_f32_raw(size as usize) {
                Ok(d) => Ok((rows as usize, cols as usize, d)),
                Err(e) => Err(e),
            }
        } else {
            Err(ReadError::UnexpectedEof)
        }
    }
}

proof fn lemma_run(s: Seq<u8>, sep: bool)
    ensures
        run(s, sep) <= s.len(),
        run(s, sep) < s.len() ==> is_separator(s[run(s, sep) as int]) != sep,
        forall|i: int| 0 <= i < run(s, sep) ==> is_separator(#[trigger] s[i]) == sep,
    decreases s.len(),
{
    if s.len() == 0 || is_separator(s[0]) != sep {
    } else {
        let t = s.skip(1);
        lemma_run(t, sep);
        assert forall|i: int| 0 <= i < run(s, sep) implies is_separator(#[trigger] s[i]) == sep by {
            if i > 0 {
                assert(s[i] == t[i - 1]);
            }
        }
        if run(s, sep) < s.len() {
            assert(s[run(s, sep) as int] == t[run(t, sep) as int]);
        }
    }
}

/// The four bytes of a 32-bit pattern, lowest first.
pub open spec fn le_bytes(v: u32) -> Seq<u8> {
    seq![
        (v % 0x100) as u8,
        (v / 0x100 % 0x100) as u8,
        (v / 0x1_0000 % 0x100) as u8,
        (v / 0x100_0000) as u8,
    ]
}

/// The 32-bit pattern of a signed number in two's complement.
pub open spec fn pattern(v: i32) -> u32 {
    (if v < 0 {
        v + 0x1_0000_0000
    } else {
        v as int
    }) as u32
}

/// An item of four bytes behind its size byte.
pub open spec fn sized(v: u32) -> Seq<u8> {
    seq![4u8] + le_bytes(v)
}

/// Patterns one after the other, four bytes each.
pub open spec fn raw(vs: Seq<u32>) -> Seq<u8> {
    Seq::new(4 * vs.len(), |k: int| le_bytes(vs[k / 4])[k % 4])
}

/// A token as it is written: its bytes and a space.
pub open spec fn written_token(t: Seq<u8>) -> Seq<u8> {
    t.push(0x20)
}

pub(crate) proof fn lemma_le_bytes(s: Seq<u8>, p: int, v: u32)
    requires
        0 <= p,
        p + 4 <= s.len(),
        s.subrange(p, p + 4) == le_bytes(v),
    ensures
        u32_at(s, p) == v,
{
    let t = s.subrange(p, p + 4);
    assert(t[0] == s[p] && t[1] == s[p + 1] && t[2] == s[p + 2] && t[3] == s[p + 3]);
}

proof fn lemma_raw(s: Seq<u8>, vs: Seq<u32>, rest: Seq<u8>)
    requires
        s == raw(vs) + rest,
    ensures
        s.len() >= 4 * vs.len(),
        forall|i: int| 0 <= i < vs.len() ==> #[trigger] u32_at(s, 4 * i) == vs[i],
        s.skip(4 * vs.len() as int) == rest,
{
    assert forall|i: int| 0 <= i < vs.len() implies #[trigger] u32_at(s, 4 * i) == vs[i] by {
        assert(s.subrange(4 * i, 4 * i + 4) =~= le_bytes(vs[i]));
        lemma_le_bytes(s, 4 * i, vs[i]);
    }
    assert(s.skip(4 * vs.len() as int) =~= rest);
}

/// What is written as an integer reads back as that integer, and nothing after it is consumed.
pub proof fn law_i32(v: i32, rest: Seq<u8>)
    ensures
        spec_i32(sized(pattern(v)) + rest) == Ok::<(i32, Seq<u8>), ReadError>((v, rest)),
{
    let s = sized(pattern(v)) + rest;
    assert(s.subrange(1, 5) =~= le_bytes(pattern(v)));
    lemma_le_bytes(s, 1, pattern(v));
    assert(s.skip(5) =~= rest);
}

/// What is written as a float reads back as the same bit pattern.
pub proof fn law_f32(v: u32, rest: Seq<u8>)
    ensures
        spec_f32(sized(v) + rest) == Ok::<(u32, Seq<u8>), ReadError>((v, rest)),
{
    let s = sized(v) + rest;
    assert(s.subrange(1, 5) =~= le_bytes(v));
    lemma_le_bytes(s, 1, v);
    assert(s.skip(5) =~= rest);
}

/// A token reads back, whatever separators stand before it.
pub proof fn law_token(seps: Seq<u8>, t: Seq<u8>, rest: Seq<u8>)
    requires
        forall|i: int| 0 <= i < seps.len() ==> is_separator(#[trigger] seps[i]),
        forall|i: int| 0 <= i < t.len() ==> !is_separator(#[trigger] t[i]),
        t.len() > 0,
    ensures
        spec_token(seps + written_token(t) + rest) == Ok::<(Seq<char>, Seq<u8>), ReadError>(
            (latin(t), rest),
        ),
{
    let s = seps + written_token(t) + rest;
    let body = written_token(t) + rest;
    lemma_run_exact(s, true, seps.len());
    assert(s.skip(seps.len() as int) =~= body);
    lemma_run_exact(body, false, t.len());
    assert(body.take(t.len() as int) =~= t);
    assert(body.skip(t.len() as int + 1) =~= rest);
}

proof fn lemma_run_exact(s: Seq<u8>, sep: bool, n: nat)
    requires
        n < s.len(),
        forall|i: int| 0 <= i < n ==> is_separator(#[trigger] s[i]) == sep,
        is_separator(s[n as int]) != sep,
    ensures
        run(s, sep) == n,
{
    lemma_run(s, sep);
    if run(s, sep) < n {
        assert(is_separator(s[run(s, sep) as int]) != sep);
    } else if run(s, sep) > n {
        assert(is_separator(s[n as int]) == sep);
    }
}

/// An integer vector reads back.
pub proof fn law_i32_vec(v: Seq<i32>, rest: Seq<u8>)
    requires
        v.len() <= i32::MAX,
    ensures
        spec_i32_vec(
            sized(pattern(v.len() as i32)) + raw(v.map_values(|x: i32| pattern(x))) + rest,
        ) == Ok::<(Seq<i32>, Seq<u8>), ReadError>((v, rest)),
{
    let vs = v.map_values(|x: i32| pattern(x));
    let body = raw(vs) + rest;
    let s = sized(pattern(v.len() as i32)) + raw(vs) + rest;
    assert(s =~= sized(pattern(v.len() as i32)) + body);
    law_i32(v.len() as i32, body);
    lemma_raw(body, vs, rest);
    let got = Seq::new(v.len(), |i: int| i32_at(body, 4 * i));
    assert forall|i: int| 0 <= i < v.len() implies got[i] == v[i] by {
        assert(u32_at(body, 4 * i) == vs[i]);
    }
    assert(got =~= v);
}

proof fn lemma_f32_raw(v: Seq<u32>, rest: Seq<u8>)
    ensures
        spec_f32_raw(raw(v) + rest, v.len()) == Ok::<(Seq<u32>, Seq<u8>), ReadError>((v, rest)),
{
    let s = raw(v) + rest;
    lemma_raw(s, v, rest);
    assert(Seq::new(v.len(), |i: int| u32_at(s, 4 * i)) =~= v);
}

/// The bytes of the token `FV` or `FM`.
pub open spec fn kind_token(second: u8) -> Seq<u8> {
    seq![0x46u8, second]
}

/// A float vector reads back.
pub proof fn law_float_vec(v: Seq<u32>, rest: Seq<u8>)
    requires
        v.len() <= i32::MAX,
    ensures
        spec_float_vec(
            written_token(kind_token(0x56)) + sized(pattern(v.len() as i32)) + raw(v) + rest,
        ) == Ok::<(Seq<u32>, Seq<u8>), ReadError>((v, rest)),
{
    let dim = sized(pattern(v.len() as i32));
    let s = written_token(kind_token(0x56)) + dim + raw(v) + rest;
    let after = dim + (raw(v) + rest);
    assert(s =~= Seq::<u8>::empty() + written_token(kind_token(0x56)) + after);
    law_token(Seq::empty(), kind_token(0x56), after);
    reveal_strlit("FV");
    assert(latin(kind_token(0x56)) =~= "FV"@);
    law_i32(v.len() as i32, raw(v) + rest);
    lemma_f32_raw(v, rest);
}

/// A float matrix reads back.
pub proof fn law_float_matrix(rows: nat, cols: nat, d: Seq<u32>, rest: Seq<u8>)
    requires
        rows <= i32::MAX,
        cols <= i32::MAX,
        d.len() == rows * cols,
    ensures
        spec_float_matrix(
            written_token(kind_token(0x4d)) + sized(pattern(rows as i32)) + sized(
                pattern(cols as i32),
            ) + raw(d) + rest,
        ) == Ok::<((nat, nat, Seq<u32>), Seq<u8>), ReadError>(((rows, cols, d), rest)),
{
    let r = sized(pattern(rows as i32));
    let c = sized(pattern(cols as i32));
    let s = written_token(kind_token(0x4d)) + r + c + raw(d) + rest;
    let after = r + (c + (raw(d) + rest));
    assert(s =~= Seq::<u8>::empty() + written_token(kind_token(0x4d)) + after);
    law_token(Seq::empty(), kind_token(0x4d), after);
    reveal_strlit("FM");
    assert(latin(kind_token(0x4d)) =~= "FM"@);
    law_i32(rows as i32, c + (raw(d) + rest));
    law_i32(cols as i32, raw(d) + rest);
    lemma_f32_raw(d, rest);
}

} // verus!
