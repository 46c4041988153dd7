//! The real number that a pattern stands for, and arithmetic that rounds to numbers near by.

use vstd::prelude::*;

use crate::single::{
    differences, is_nan, key, numbers, products, quotients, roots, sums, Arith, INFINITY, SIGN,
};

verus! {

/// Two to the power `i`.
pub open spec fn power(i: int) -> real
    decreases (if i < 0 {
        -i
    } else {
        i
    }),
{
    if i == 0 {
        1real
    } else if i > 0 {
        2real * power(i - 1)
    } else {
        power(i + 1) / 2real
    }
}

/// The size of the number whose pattern, but for the sign, is `m`: 23 bits of fraction under 8 bits
/// of exponent.
pub open spec fn size_of(m: int) -> real {
    let e = m / 0x80_0000;
    let f = m % 0x80_0000;
    if e == 0 {
        (f as real) * power(-149)
    } else {
        ((0x80_0000 + f) as real) * power(e - 150)
    }
}

/// The number that a pattern stands for, where it stands for a finite one.
pub open spec fn value(x: u32) -> real {
    if x >= SIGN {
        -size_of(x - SIGN)
    } else {
        size_of(x as int)
    }
}

/// A number that is not infinite.
pub open spec fn finite(x: u32) -> bool {
    !is_nan(x) && -INFINITY < key(x) < INFINITY
}

/// The number is the integer `n`.
pub open spec fn is_int(v: real, n: int) -> bool {
    v == n as real
}

/// A whole number.
pub open spec fn whole(v: real) -> bool {
    exists|n: int| #[trigger] is_int(v, n)
}

/// Some pattern stands for the number.
pub open spec fn held(v: real) -> bool {
    exists|c: u32| #[trigger] finite(c) && value(c) == v
}

/// `r` is what `v` rounds to, up or down: no number that a pattern stands for lies between the two.
/// A number that some pattern stands for is not changed.
pub open spec fn rounds(v: real, r: u32) -> bool {
    &&& !is_nan(r)
    &&& forall|c: u32| #[trigger]
        finite(c) ==> (value(c) <= v ==> key(c) <= key(r)) && (v <= value(c) ==> key(r) <= key(c))
}

/// The arithmetic rounds the results of its operations on finite numbers, as machines do, and
/// infinity stays infinity.
pub open spec fn faithful<A: Arith>() -> bool {
    &&& forall|b: u32, r: u32| #[trigger]
        sums::<A>(INFINITY, b, r) && finite(b) ==> r == INFINITY
    &&& forall|a: u32, b: u32, r: u32| #[trigger]
        sums::<A>(a, b, r) && finite(a) && finite(b) ==> rounds(value(a) + value(b), r)
    &&& forall|a: u32, b: u32, r: u32| #[trigger]
        differences::<A>(a, b, r) && finite(a) && finite(b) ==> rounds(value(a) - value(b), r)
    &&& forall|a: u32, b: u32, r: u32| #[trigger]
        products::<A>(a, b, r) && finite(a) && finite(b) ==> rounds(value(a) * value(b), r)
    &&& forall|a: u32, b: u32, r: u32| #[trigger]
        quotients::<A>(a, b, r) && finite(a) && finite(b) && value(b) != 0real ==> rounds(
            value(a) / value(b),
            r,
        )
    &&& forall|a: u32, r: u32, q: real|
        #![trigger roots::<A>(a, r), rounds(q, r)]
        roots::<A>(a, r) && finite(a) && 0real <= q && q * q == value(a) ==> rounds(q, r)
    &&& forall|n: usize, r: u32| #[trigger] numbers::<A>(n, r) ==> rounds(n as int as real, r)
}

/// Powers of two are positive, and each is twice the one before.
pub proof fn lemma_power(i: int)
    ensures
        power(i) > 0real,
        power(i + 1) == 2real * power(i),
    decreases (if i < 0 {
        -i
    } else {
        i
    }),
{
    if i > 0 {
        lemma_power(i - 1);
    } else if i < 0 {
        lemma_power(i + 1);
    }
}

/// Powers of two are multiplied by adding.
pub proof fn lemma_power_sum(i: int, j: nat)
    ensures
        power(i + j) == power(i) * power(j as int),
    decreases j,
{
    if j > 0 {
        lemma_power_sum(i, (j - 1) as nat);
        lemma_power(i + j - 1);
        lemma_power(j - 1);
        assert(power(i) * (2real * power(j - 1)) == 2real * (power(i) * power(j - 1)))
            by (nonlinear_arith);
    } else {
        assert(power(i) * 1real == power(i)) by (nonlinear_arith);
    }
}

/// A greater power of two is greater.
pub proof fn lemma_power_less(i: int, j: int)
    requires
        i < j,
    ensures
        power(i) < power(j),
{
    lemma_power_grows(i, j - 1);
    lemma_power(j - 1);
}

proof fn lemma_power_grows(i: int, j: int)
    requires
        i <= j,
    ensures
        power(i) <= power(j),
    decreases j - i,
{
    if i < j {
        lemma_power_grows(i, j - 1);
        lemma_power(j - 1);
    }
}

/// A greater pattern has a greater size.
proof fn lemma_size_grows(m: int, n: int)
    requires
        0 <= m < n < 0x7f80_0000,
    ensures
        0real <= size_of(m) < size_of(n),
{
    let (e1, f1) = (m / 0x80_0000, m % 0x80_0000);
    let (e2, f2) = (n / 0x80_0000, n % 0x80_0000);
    assert(e1 <= e2);
    // the exponent that scales a fraction: the least one serves twice
    let u1 = if e1 == 0 {
        -149
    } else {
        e1 - 150
    };
    let u2 = if e2 == 0 {
        -149
    } else {
        e2 - 150
    };
    let g1 = if e1 == 0 {
        f1
    } else {
        0x80_0000 + f1
    };
    let g2 = if e2 == 0 {
        f2
    } else {
        0x80_0000 + f2
    };
    let (p, q) = (power(u1), power(u2));
    lemma_power(u1);
    lemma_power(u2);
    assert(size_of(m) == (g1 as real) * p && size_of(n) == (g2 as real) * q);
    assert((g1 as real) * p >= 0real) by (nonlinear_arith)
        requires
            g1 >= 0,
            p > 0real,
    ;
    if u1 == u2 {
        assert(g1 < g2);
        assert((g1 as real) * p < (g2 as real) * p) by (nonlinear_arith)
            requires
                g1 < g2,
                p > 0real,
        ;
    } else {
        assert(u1 < u2);
        lemma_power_grows(u1 + 1, u2);
        assert(g1 < 0x100_0000 && g2 >= 0x80_0000);
        assert((g1 as real) * p < (g2 as real) * q) by (nonlinear_arith)
            requires
                g1 < 0x100_0000,
                g2 >= 0x80_0000,
                p > 0real,
                q >= 2real * p,
        ;
    }
}

proof fn lemma_size_zero()
    ensures
        size_of(0) == 0real,
{
    assert(0real * power(-149) == 0real) by (nonlinear_arith);
}

/// The order of finite patterns is that of the numbers that they stand for.
pub proof fn lemma_order(a: u32, b: u32)
    requires
        finite(a),
        finite(b),
    ensures
        key(a) <= key(b) <==> value(a) <= value(b),
        key(a) == key(b) <==> value(a) == value(b),
{
    lemma_size_zero();
    let m = if a >= SIGN {
        a - SIGN
    } else {
        a as int
    };
    let n = if b >= SIGN {
        b - SIGN
    } else {
        b as int
    };
    if m < n {
        lemma_size_grows(m, n);
    }
    if n < m {
        lemma_size_grows(n, m);
    }
    if 0 < m {
        lemma_size_grows(0, m);
    }
    if 0 < n {
        lemma_size_grows(0, n);
    }
}

/// A number that some pattern stands for is not changed by rounding.
pub proof fn lemma_exact(v: real, r: u32)
    requires
        rounds(v, r),
        held(v),
    ensures
        finite(r),
        value(r) == v,
{
    let c = choose|c: u32| #[trigger] finite(c) && value(c) == v;
    assert(finite(c));
    lemma_order(c, r);
}

/// The pattern of a positive whole number below two to the power 24, from the pattern of its double.
proof fn lemma_positive(n: int) -> (c: u32)
    requires
        0 < n <= 0x100_0000,
    ensures
        0x3f80_0000 <= c < SIGN,
        finite(c),
        value(c) == n as real,
    decreases 0x100_0000 - n,
{
    lemma_power(0);
    if n == 0x100_0000 {
        assert(size_of(0x4b80_0000) == 0x80_0000real * power(1));
        0x4b80_0000u32
    } else if n >= 0x80_0000 {
        let c = (0x4b00_0000 + (n - 0x80_0000)) as u32;
        assert(size_of(c as int) == (n as real) * power(0));
        c
    } else {
        let d = lemma_positive(2 * n);
        let c = (d - 0x80_0000) as u32;
        let (e, f) = (c as int / 0x80_0000, c as int % 0x80_0000);
        assert(d as int / 0x80_0000 == e + 1 && d as int % 0x80_0000 == f);
        lemma_power(e - 150);
        let g = (0x80_0000 + f) as real;
        let p = power(e - 150);
        assert(value(d) == g * (2real * p));
        assert(g * (2real * p) == 2real * (g * p)) by (nonlinear_arith);
        assert((2 * n) as real == 2real * (n as real));
        if c < 0x3f80_0000 {
            // the double of a number that is at least 1 is at least 2
            assert(e + 1 <= 127);
            lemma_power_grows(e - 150, -24);
            lemma_power_sum(-24, 24);
            assert(power(24) == 0x100_0000real) by {
                reveal_with_fuel(power, 25);
            }
            assert(false) by (nonlinear_arith)
                requires
                    g * p >= 1real,
                    g < 0x100_0000real,
                    p <= power(-24),
                    p > 0real,
                    power(-24) * 0x100_0000real == 1real,
            ;
        }
        c
    }
}

/// Half of every whole number up to two to the power 24 has a pattern.
pub proof fn lemma_half(n: int)
    requires
        0 < n <= 0x100_0000,
    ensures
        held(n as real / 2real),
{
    let d = lemma_positive(n);
    let c = (d - 0x80_0000) as u32;
    let (e, f) = (c as int / 0x80_0000, c as int % 0x80_0000);
    assert(d as int / 0x80_0000 == e + 1 && d as int % 0x80_0000 == f);
    lemma_power(e - 150);
    let g = (0x80_0000 + f) as real;
    let p = power(e - 150);
    assert(g * (2real * p) == 2real * (g * p)) by (nonlinear_arith);
    assert(finite(c) && value(c) == n as real / 2real);
}

/// Every whole number up to two to the power 24 has a pattern.
pub proof fn lemma_whole(n: int)
    requires
        -0x100_0000 <= n <= 0x100_0000,
    ensures
        held(n as real),
{
    lemma_size_zero();
    if n == 0 {
        assert(finite(0u32) && value(0u32) == 0real);
    } else if n > 0 {
        let c = lemma_positive(n);
        assert(finite(c) && value(c) == n as real);
    } else {
        let c = lemma_positive(-n);
        let d = (c + SIGN) as u32;
        assert(finite(d) && value(d) == n as real);
    }
}

} // verus!
