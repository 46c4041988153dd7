//! Text as sequences of characters: white space, words, lines and decimal integers.

use vstd::prelude::*;
use vstd::slice::slice_subrange;

verus! {

/// `String::push` of the standard library puts one character at the end of a string and keeps
/// what was there.
pub assume_specification[ String::push ](s: &mut String, c: char)
    ensures
        final(s)@ == old(s)@.push(c),
;

/// Whether a string reads `lit`.
pub fn is_text(s: &String, lit: &str) -> (r: bool)
    ensures
        r == (s@ == lit@),
{
    let t = lit.to_owned();
    *s == t
}

/// The texts of strings.
pub open spec fn texts(ss: Seq<String>) -> Seq<Seq<char>> {
    Seq::new(ss.len(), |i: int| ss[i]@)
}

/// The characters of a string.
pub fn chars_of(s: &str) -> (r: Vec<char>)
    ensures
        r@ == s@,
{
    let mut out: Vec<char> = Vec::new();
    for c in it: s.chars()
        invariant
            it.seq() == s@,
            out@ == s@.take(it.index() as int),
    {
        out.push(c);
    }
    out
}

/// The string of some characters.
pub fn string_of(cs: &[char]) -> (r: String)
    ensures
        r@ == cs@,
{
    let mut out = String::new();
    let mut i: usize = 0;
    while i < cs.len()
        invariant
            i <= cs@.len(),
            out@ == cs@.take(i as int),
        decreases cs@.len() - i,
    {
        out.push(cs[i]);
        i = i + 1;
        assert(out@ =~= cs@.take(i as int));
    }
    assert(out@ =~= cs@);
    out
}

/// White space, as Unicode has it.
pub open spec fn is_space(c: char) -> bool {
    ||| '\u{9}' <= c <= '\u{d}'
    ||| c == '\u{20}'
    ||| c == '\u{85}'
    ||| c == '\u{a0}'
    ||| c == '\u{1680}'
    ||| '\u{2000}' <= c <= '\u{200a}'
    ||| c == '\u{2028}'
    ||| c == '\u{2029}'
    ||| c == '\u{202f}'
    ||| c == '\u{205f}'
    ||| c == '\u{3000}'
}

/// Whether a character is white space.
pub fn space(c: char) -> (r: bool)
    ensures
        r == is_space(c),
{
    ('\u{9}' <= c && c <= '\u{d}') || c == '\u{20}' || c == '\u{85}' || c == '\u{a0}' || c
        == '\u{1680}' || ('\u{2000}' <= c && c <= '\u{200a}') || c == '\u{2028}' || c == '\u{2029}'
        || c == '\u{202f}' || c == '\u{205f}' || c == '\u{3000}'
}

/// How many characters at the front of `s` are white space (`sp`), or are not (`!sp`).
pub open spec fn stretch(s: Seq<char>, sp: bool) -> nat
    decreases s.len(),
{
    if s.len() == 0 || is_space(s[0]) != sp {
        0
    } else {
        1 + stretch(s.skip(1), sp)
    }
}

/// `s` without white space at its front.
pub open spec fn trim_front(s: Seq<char>) -> Seq<char> {
    s.skip(stretch(s, true) as int)
}

/// `s` without white space at its end.
pub open spec fn trim_back(s: Seq<char>) -> Seq<char>
    decreases s.len(),
{
    if s.len() == 0 || !is_space(s.last()) {
        s
    } else {
        trim_back(s.drop_last())
    }
}

/// `s` without white space around it.
pub open spec fn trimmed(s: Seq<char>) -> Seq<char> {
    trim_back(trim_front(s))
}

/// The first word of `s`: the first characters that are no white space.
pub open spec fn first_word(s: Seq<char>) -> Option<Seq<char>> {
    let t = trim_front(s);
    if t.len() == 0 {
        None
    } else {
        Some(t.take(stretch(t, false) as int))
    }
}

/// What stands after the first word of `s`.
pub open spec fn after_word(s: Seq<char>) -> Seq<char> {
    let t = trim_front(s);
    t.skip(stretch(t, false) as int)
}

pub(crate) proof fn lemma_stretch(s: Seq<char>, sp: bool)
    ensures
        stretch(s, sp) <= s.len(),
        stretch(s, sp) < s.len() ==> is_space(s[stretch(s, sp) as int]) != sp,
        forall|i: int| 0 <= i < stretch(s, sp) ==> is_space(#[trigger] s[i]) == sp,
    decreases s.len(),
{
    if s.len() == 0 || is_space(s[0]) != sp {
    } else {
        let t = s.skip(1);
        lemma_stretch(t, sp);
        assert forall|i: int| 0 <= i < stretch(s, sp) implies is_space(#[trigger] s[i]) == sp by {
            if i > 0 {
                assert(s[i] == t[i - 1]);
            }
        }
        if stretch(s, sp) < s.len() {
            assert(s[stretch(s, sp) as int] == t[stretch(t, sp) as int]);
        }
    }
}

/// Where the white space at `from` ends (`sp`), or where the next begins (`!sp`).
fn pass(cs: &[char], from: usize, sp: bool) -> (r: usize)
    requires
        from <= cs@.len(),
    ensures
        r == from + stretch(cs@.skip(from as int), sp),
        r <= cs@.len(),
{
    proof {
        lemma_stretch(cs@.skip(from as int), sp);
    }
    let mut i: usize = from;
    while i < cs.len() && space(cs[i]) == sp
        invariant
            from <= i <= cs@.len(),
            from + stretch(cs@.skip(from as int), sp) == i + stretch(cs@.skip(i as int), sp),
        decreases cs@.len() - i,
    {
        assert(cs@.skip(i as int).skip(1) =~= cs@.skip(i + 1));
        i = i + 1;
    }
    i
}

/// `cs` without white space around it.
pub fn trim(cs: &[char]) -> (r: &[char])
    ensures
        r@ == trimmed(cs@),
{
    let a: usize = pass(cs, 0, true);
    assert(cs@.skip(0) =~= cs@);
    let mut b: usize = cs.len();
    proof {
        assert(cs@.subrange(a as int, b as int) =~= trim_front(cs@));
    }
    while b > a && space(cs[b - 1])
        invariant
            a <= b <= cs@.len(),
            trimmed(cs@) == trim_back(cs@.subrange(a as int, b as int)),
        decreases b,
    {
        assert(cs@.subrange(a as int, b as int).drop_last() =~= cs@.subrange(a as int, b - 1));
        b = b - 1;
    }
    let r = slice_subrange(cs, a, b);
    r
}

/// The first word of `cs`, and what stands after it.
pub fn split_word(cs: &[char]) -> (r: Option<(&[char], &[char])>)
    ensures
        match r {
            Some((w, rest)) => first_word(cs@) == Some(w@) && rest@ == after_word(cs@),
            None => first_word(cs@) is None,
        },
{
    let a: usize = pass(cs, 0, true);
    assert(cs@.skip(0) =~= cs@);
    if a == cs.len() {
        return None;
    }
    let b: usize = pass(cs, a, false);
    let w = slice_subrange(cs, a, b);
    let rest = slice_subrange(cs, b, cs.len());
    proof {
        let t = trim_front(cs@);
        assert(t == cs@.skip(a as int));
        assert(w@ =~= t.take(stretch(t, false) as int));
        assert(rest@ =~= after_word(cs@));
    }
    Some((w, rest))
}

/// Where the first newline of `s` stands, or the length of `s` if there is none.
pub open spec fn line_end(s: Seq<char>) -> nat
    decreases s.len(),
{
    if s.len() == 0 || s[0] == '\n' {
        0
    } else {
        1 + line_end(s.skip(1))
    }
}

/// The lines of `s`: what stands between newlines.
pub open spec fn lines(s: Seq<char>) -> Seq<Seq<char>>
    decreases s.len(),
{
    let n = line_end(s);
    if n >= s.len() {
        seq![s]
    } else {
        seq![s.take(n as int)] + lines(s.skip(n as int + 1))
    }
}

proof fn lemma_line_end(s: Seq<char>)
    ensures
        line_end(s) <= s.len(),
    decreases s.len(),
{
    if s.len() == 0 || s[0] == '\n' {
    } else {
        lemma_line_end(s.skip(1));
    }
}

/// The lines of `cs`.
pub fn split_lines(cs: &[char]) -> (r: Vec<&[char]>)
    ensures
        r@.len() == lines(cs@).len(),
        forall|i: int| 0 <= i < r@.len() ==> (#[trigger] r@[i])@ == lines(cs@)[i],
{
    let mut out: Vec<&[char]> = Vec::new();
    let ghost mut done: Seq<Seq<char>> = Seq::empty();
    let mut from: usize = 0;
    proof {
        assert(cs@.skip(0) =~= cs@);
        assert(done + lines(cs@) =~= lines(cs@));
    }
    loop
        invariant_except_break
            from <= cs@.len(),
            lines(cs@) == done + lines(cs@.skip(from as int)),
            done.len() == out@.len(),
            forall|i: int| 0 <= i < out@.len() ==> (#[trigger] out@[i])@ == done[i],
        ensures
            lines(cs@) == done,
            done.len() == out@.len(),
            forall|i: int| 0 <= i < out@.len() ==> (#[trigger] out@[i])@ == done[i],
        decreases cs@.len() - from,
    {
        let ghost rest = cs@.skip(from as int);
        let ghost n = line_end(rest);
        proof {
            lemma_line_end(rest);
        }
        let mut i: usize = from;
        while i < cs.len() && cs[i] != '\n'
            invariant
                from <= i <= cs@.len(),
                rest == cs@.skip(from as int),
                n == i - from + line_end(cs@.skip(i as int)),
            decreases cs@.len() - i,
        {
            assert(cs@.skip(i as int).skip(1) =~= cs@.skip(i + 1));
            i = i + 1;
        }
        assert(i == from + n);
        let line = slice_subrange(cs, from, i);
        proof {
            assert(line@ =~= rest.take(n as int));
        }
        out.push(line);
        if i == cs.len() {
            proof {
                assert(line@ =~= rest);
                done = done.push(line@);
                assert(lines(cs@) =~= done);
            }
            break;
        }
        proof {
            let before = done;
            done = done.push(line@);
            assert(rest.skip(n as int + 1) =~= cs@.skip(i + 1));
            assert(before + (seq![line@] + lines(cs@.skip(i + 1))) =~= done + lines(
                cs@.skip(i + 1),
            ));
        }
        from = i + 1;
    }
    out
}

/// A decimal digit.
pub open spec fn is_digit(c: char) -> bool {
    '0' <= c <= '9'
}

/// Every character is a decimal digit.
pub open spec fn all_digits(s: Seq<char>) -> bool {
    forall|i: int| 0 <= i < s.len() ==> is_digit(#[trigger] s[i])
}

/// The number that decimal digits write.
pub open spec fn decimal(s: Seq<char>) -> nat
    decreases s.len(),
{
    if s.len() == 0 {
        0
    } else {
        10 * decimal(s.drop_last()) + (s.last() as nat - '0' as nat) as nat
    }
}

/// `s` without one leading `c`.
pub open spec fn without(s: Seq<char>, c: char) -> Seq<char> {
    if s.len() > 0 && s[0] == c {
        s.skip(1)
    } else {
        s
    }
}

/// The index that a text writes: digits, perhaps after a `+`.
pub open spec fn spec_usize(s: Seq<char>) -> Option<usize> {
    let t = without(s, '+');
    if t.len() > 0 && all_digits(t) && decimal(t) <= usize::MAX {
        Some(decimal(t) as usize)
    } else {
        None
    }
}

/// The 32-bit integer that a text writes: digits, perhaps after a `+` or a `-`.
pub open spec fn spec_int(s: Seq<char>) -> Option<i32> {
    if s.len() > 0 && s[0] == '-' {
        let t = s.skip(1);
        if t.len() > 0 && all_digits(t) && decimal(t) <= 0x8000_0000 {
            Some((-decimal(t)) as i32)
        } else {
            None
        }
    } else {
        let t = without(s, '+');
        if t.len() > 0 && all_digits(t) && decimal(t) <= i32::MAX {
            Some(decimal(t) as i32)
        } else {
            None
        }
    }
}

proof fn lemma_decimal_grows(s: Seq<char>, n: int)
    requires
        0 <= n <= s.len(),
    ensures
        decimal(s.take(n)) <= decimal(s),
    decreases s.len(),
{
    if n < s.len() {
        lemma_decimal_grows(s.drop_last(), n);
        assert(s.drop_last().take(n) =~= s.take(n));
    } else {
        assert(s.take(n) =~= s);
    }
}

/// The number that the characters from `from` on write, if they are digits, there are any, and it
/// is at most `max`.
fn digits(cs: &[char], from: usize, max: u64) -> (r: Option<u64>)
    requires
        from <= cs@.len(),
    ensures
        ({
            let t = cs@.skip(from as int);
            r == (if t.len() > 0 && all_digits(t) && decimal(t) <= max {
                Some(decimal(t) as u64)
            } else {
                None
            })
        }),
{
    let ghost t = cs@.skip(from as int);
    if from == cs.len() {
        return None;
    }
    let mut v: u64 = 0;
    let mut i: usize = from;
    while i < cs.len()
        invariant
            from <= i <= cs@.len(),
            t == cs@.skip(from as int),
            all_digits(t.take(i - from)),
            v == decimal(t.take(i - from)),
            v <= max,
        decreases cs@.len() - i,
    {
        let c = cs[i];
        assert(t[i - from] == c);
        if !('0' <= c && c <= '9') {
            return None;
        }
        let d: u64 = (c as u32 - '0' as u32) as u64;
        proof {
            let u = t.take(i - from + 1);
            assert(u.drop_last() =~= t.take(i - from));
            assert(u.last() == c);
            assert(decimal(u) == 10 * v + d);
            lemma_decimal_grows(t, i - from + 1);
            assert forall|j: int| 0 <= j < u.len() implies is_digit(#[trigger] u[j]) by {
                if j < i - from {
                    assert(t.take(i - from)[j] == u[j]);
                }
            }
        }
        if v > (u64::MAX - d) / 10 || 10 * v + d > max {
            return None;
        }
        v = 10 * v + d;
        i = i + 1;
    }
    assert(t.take(i - from) =~= t);
    Some(v)
}

/// The index that a text writes.
pub fn parse_usize(cs: &[char]) -> (r: Option<usize>)
    ensures
        r == spec_usize(cs@),
{
    let from: usize = if cs.len() > 0 && cs[0] == '+' {
        1
    } else {
        0
    };
    assert(cs@.skip(0) =~= cs@);
    match digits(cs, from, usize::MAX as u64) {
        Some(v) => Some(v as usize),
        None => None,
    }
}

/// The 32-bit integer that a text writes.
pub fn parse_int(cs: &[char]) -> (r: Option<i32>)
    ensures
        r == spec_int(cs@),
{
    assert(cs@.skip(0) =~= cs@);
    if cs.len() > 0 && cs[0] == '-' {
        match digits(cs, 1, 0x8000_0000) {
            Some(v) => Some((0i64 - v as i64) as i32),
            None => None,
        }
    } else {
        let from: usize = if cs.len() > 0 && cs[0] == '+' {
            1
        } else {
            0
        };
        match digits(cs, from, 0x7fff_ffff) {
            Some(v) => Some(v as i32),
            None => None,
        }
    }
}

/// A word in front of a text that is empty or starts with white space is its first word.
pub proof fn lemma_word_in_front(w: Seq<char>, rest: Seq<char>)
    requires
        w.len() > 0,
        forall|i: int| 0 <= i < w.len() ==> !is_space(#[trigger] w[i]),
        rest.len() > 0 ==> is_space(rest[0]),
    ensures
        first_word(w + rest) == Some(w),
        after_word(w + rest) == rest,
{
    let s = w + rest;
    assert(!is_space(s[0])) by {
        assert(s[0] == w[0]);
    }
    assert(trim_front(s) =~= s);
    lemma_stretch(s, false);
    let n = stretch(s, false);
    if n < w.len() {
        assert(s[n as int] == w[n as int]);
    } else if n > w.len() {
        assert(s[w.len() as int] == rest[0]);
    }
    assert(s.take(w.len() as int) =~= w);
    assert(s.skip(w.len() as int) =~= rest);
}

/// A space in front of a text changes neither its first word nor what comes after it.
pub proof fn lemma_space_in_front(s: Seq<char>)
    ensures
        first_word(seq![' '] + s) == first_word(s),
        after_word(seq![' '] + s) == after_word(s),
{
    let t = seq![' '] + s;
    assert(t.skip(1) =~= s);
    lemma_stretch(s, true);
    assert(trim_front(t) =~= trim_front(s));
}

/// The first word of a text has characters, and none of them is white space.
pub proof fn lemma_first_word(s: Seq<char>)
    ensures
        first_word(s) matches Some(w) ==> w.len() > 0 && forall|i: int|
            0 <= i < w.len() ==> !is_space(#[trigger] w[i]),
{
    let t = trim_front(s);
    lemma_stretch(s, true);
    lemma_stretch(t, false);
    if t.len() > 0 {
        assert(t[0] == s[stretch(s, true) as int]);
        let w = t.take(stretch(t, false) as int);
        assert forall|i: int| 0 <= i < w.len() implies !is_space(#[trigger] w[i]) by {
            assert(w[i] == t[i]);
        }
    }
}

} // verus!
