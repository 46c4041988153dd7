//! Single-precision numbers, held as their IEEE 754 bit patterns.
//!
//! A number is a `u32`: one sign bit, eight exponent bits, twenty-three fraction bits. Order,
//! negation and the larger of two numbers are read off the pattern here. Arithmetic that rounds
//! comes from outside, through [`Arith`].

use vstd::prelude::*;

verus! {

/// Positive zero.
pub const ZERO: u32 = 0x0000_0000;

/// One.
pub const ONE: u32 = 0x3f80_0000;

/// One half.
pub const HALF: u32 = 0x3f00_0000;

/// Two.
pub const TWO: u32 = 0x4000_0000;

/// The circle number.
pub const PI: u32 = 0x4049_0fdb;

/// Positive infinity.
pub const INFINITY: u32 = 0x7f80_0000;

/// The sign bit, which is also the pattern of negative zero.
pub const SIGN: u32 = 0x8000_0000;

/// Floating-point operations on bit patterns.
///
/// Nothing is assumed of an implementation. What is stated about a computed number is that it is
/// an answer the implementation gave for the operands named: see [`sums`], [`products`] and the
/// relations after them.
pub trait Arith {
    /// `a + b`
    fn add(a: u32, b: u32) -> u32;

    /// `a - b`
    fn sub(a: u32, b: u32) -> u32;

    /// `a * b`
    fn mul(a: u32, b: u32) -> u32;

    /// `a / b`
    fn div(a: u32, b: u32) -> u32;

    /// `a` to the power `b`
    fn pow(a: u32, b: u32) -> u32;

    /// Square root.
    fn sqrt(a: u32) -> u32;

    /// Natural logarithm.
    fn ln(a: u32) -> u32;

    /// Sine of an angle in radians.
    fn sin(a: u32) -> u32;

    /// Cosine of an angle in radians.
    fn cos(a: u32) -> u32;

    /// The nearest integer, as a number.
    fn round(a: u32) -> u32;

    /// The number as an index: its fraction dropped, held within the range of `usize`.
    fn to_usize(a: u32) -> usize;

    /// The number nearest to `n`.
    fn from_usize(n: usize) -> u32;

    /// The number that a decimal text denotes, if it denotes one.
    fn parse(text: &str) -> Option<u32>;

    /// The `rows` x `outs` product of `x` (`rows` x `ins`) with the transpose of `w`
    /// (`outs` x `ins`), all three stored row by row.
    fn gemm(rows: usize, ins: usize, outs: usize, x: &Vec<u32>, w: &Vec<u32>) -> Vec<u32>;

    /// The forward discrete Fourier transform of complex samples (real part, imaginary part).
    fn fft(x: &Vec<(u32, u32)>) -> Vec<(u32, u32)>;
}

/// `r` is a value that `A` gives for `a + b`.
pub open spec fn sums<A: Arith>(a: u32, b: u32, r: u32) -> bool {
    call_ensures(A::add, (a, b), r)
}

/// `r` is a value that `A` gives for `a - b`.
pub open spec fn differences<A: Arith>(a: u32, b: u32, r: u32) -> bool {
    call_ensures(A::sub, (a, b), r)
}

/// `r` is a value that `A` gives for `a * b`.
pub open spec fn products<A: Arith>(a: u32, b: u32, r: u32) -> bool {
    call_ensures(A::mul, (a, b), r)
}

/// `r` is a value that `A` gives for `a / b`.
pub open spec fn quotients<A: Arith>(a: u32, b: u32, r: u32) -> bool {
    call_ensures(A::div, (a, b), r)
}

/// `r` is a value that `A` gives for the square root of `a`.
pub open spec fn roots<A: Arith>(a: u32, r: u32) -> bool {
    call_ensures(A::sqrt, (a,), r)
}

/// `r` is a value that `A` gives for `a` to the power `b`.
pub open spec fn powers<A: Arith>(a: u32, b: u32, r: u32) -> bool {
    call_ensures(A::pow, (a, b), r)
}

/// `r` is a value that `A` gives for the natural logarithm of `a`.
pub open spec fn logarithms<A: Arith>(a: u32, r: u32) -> bool {
    call_ensures(A::ln, (a,), r)
}

/// `r` is a value that `A` gives for the sine of `a`.
pub open spec fn sines<A: Arith>(a: u32, r: u32) -> bool {
    call_ensures(A::sin, (a,), r)
}

/// `r` is a value that `A` gives for the cosine of `a`.
pub open spec fn cosines<A: Arith>(a: u32, r: u32) -> bool {
    call_ensures(A::cos, (a,), r)
}

/// `r` is a value that `A` gives for the integer nearest to `a`.
pub open spec fn rounded<A: Arith>(a: u32, r: u32) -> bool {
    call_ensures(A::round, (a,), r)
}

/// `n` is the index that `A` makes of `a`.
pub open spec fn indices<A: Arith>(a: u32, n: usize) -> bool {
    call_ensures(A::to_usize, (a,), n)
}

/// `r` is the number that `A` makes of `n`.
pub open spec fn numbers<A: Arith>(n: usize, r: u32) -> bool {
    call_ensures(A::from_usize, (n,), r)
}

/// `y` is a Fourier transform that `A` gives for `x`.
pub open spec fn transforms<A: Arith>(x: Seq<(u32, u32)>, y: Seq<(u32, u32)>) -> bool {
    exists|xv: Vec<(u32, u32)>, yv: Vec<(u32, u32)>|
        xv@ == x && yv@ == y && #[trigger] call_ensures(A::fft, (&xv,), yv)
}

/// `r` is what `A` reads from the decimal text `t`.
pub open spec fn parses<A: Arith>(t: Seq<char>, r: Option<u32>) -> bool {
    exists|s: &str| s@ == t && #[trigger] call_ensures(A::parse, (s,), r)
}

/// `y` is a matrix product that `A` gives for `x` and `w`.
pub open spec fn gemms<A: Arith>(
    rows: usize,
    ins: usize,
    outs: usize,
    x: Seq<u32>,
    w: Seq<u32>,
    y: Seq<u32>,
) -> bool {
    exists|xv: Vec<u32>, wv: Vec<u32>, yv: Vec<u32>|
        xv@ == x && wv@ == w && yv@ == y && #[trigger] call_ensures(
            A::gemm,
            (rows, ins, outs, &xv, &wv),
            yv,
        )
}

/// The pattern stands for no number.
pub open spec fn is_nan(x: u32) -> bool {
    if x >= SIGN {
        x - SIGN > INFINITY
    } else {
        x > INFINITY
    }
}

/// The place of a number in the order of numbers. Both zeros have place 0.
pub open spec fn key(x: u32) -> int {
    if x >= SIGN {
        SIGN - x
    } else {
        x as int
    }
}

/// `a < b`
pub open spec fn less(a: u32, b: u32) -> bool {
    !is_nan(a) && !is_nan(b) && key(a) < key(b)
}

/// `a <= b`
pub open spec fn at_most(a: u32, b: u32) -> bool {
    !is_nan(a) && !is_nan(b) && key(a) <= key(b)
}

/// `-x`
pub open spec fn negation(x: u32) -> u32 {
    if x >= SIGN {
        (x - SIGN) as u32
    } else {
        (x + SIGN) as u32
    }
}

/// The larger of two numbers; a pattern that is no number gives way to the other.
pub open spec fn larger(a: u32, b: u32) -> u32 {
    if is_nan(a) || less(a, b) {
        b
    } else {
        a
    }
}

/// Whether the pattern stands for no number.
pub fn not_a_number(x: u32) -> (r: bool)
    ensures
        r == is_nan(x),
{
    if x >= SIGN {
        x - SIGN > INFINITY
    } else {
        x > INFINITY
    }
}

/// The place of a number in the order of numbers.
pub fn order_key(x: u32) -> (r: i64)
    ensures
        r == key(x),
        -0x7fff_ffff <= r <= 0x7fff_ffff,
{
    if x >= SIGN {
        0x8000_0000i64 - x as i64
    } else {
        x as i64
    }
}

/// `a < b`
pub fn lt(a: u32, b: u32) -> (r: bool)
    ensures
        r == less(a, b),
{
    !not_a_number(a) && !not_a_number(b) && order_key(a) < order_key(b)
}

/// `a <= b`
pub fn le(a: u32, b: u32) -> (r: bool)
    ensures
        r == at_most(a, b),
{
    !not_a_number(a) && !not_a_number(b) && order_key(a) <= order_key(b)
}

/// `-x`
pub fn neg(x: u32) -> (r: u32)
    ensures
        r == negation(x),
{
    if x >= SIGN {
        x - SIGN
    } else {
        x + SIGN
    }
}

/// The larger of two numbers.
pub fn max(a: u32, b: u32) -> (r: u32)
    ensures
        r == larger(a, b),
{
    if not_a_number(a) || lt(a, b) {
        b
    } else {
        a
    }
}

/// `<=` is a total order on numbers, up to the two zeros, and `<` is its strict part.
pub proof fn law_order(a: u32, b: u32, c: u32)
    requires
        !is_nan(a),
        !is_nan(b),
        !is_nan(c),
    ensures
        at_most(a, a),
        at_most(a, b) || at_most(b, a),
        at_most(a, b) && at_most(b, c) ==> at_most(a, c),
        at_most(a, b) && at_most(b, a) ==> key(a) == key(b),
        less(a, b) <==> at_most(a, b) && !at_most(b, a),
{
}

/// Negation undoes itself and turns the order round.
pub proof fn law_negation(a: u32, b: u32)
    ensures
        negation(negation(a)) == a,
        key(negation(a)) == -key(a),
        is_nan(negation(a)) == is_nan(a),
        less(a, b) <==> less(negation(b), negation(a)),
{
}

} // verus!
