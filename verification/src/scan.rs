//! Finding markers in bytes and in text.

use vstd::prelude::*;
use vstd::utf8::is_ascii_chars;

verus! {

/// The bytes of ASCII text.
pub open spec fn ascii(s: Seq<char>) -> Seq<u8> {
    Seq::new(s.len(), |i: int| s[i] as u8)
}

/// `needle` stands in `hay` at `p`.
pub open spec fn occurs_at<T>(hay: Seq<T>, needle: Seq<T>, p: int) -> bool {
    0 <= p && p + needle.len() <= hay.len() && hay.subrange(p, p + needle.len()) == needle
}

/// The first place at or after `from` where `needle` stands in `hay`.
pub open spec fn first_match<T>(hay: Seq<T>, needle: Seq<T>, from: nat) -> Option<nat>
    decreases hay.len() - from,
{
    if from + needle.len() > hay.len() || from >= hay.len() {
        None
    } else if occurs_at(hay, needle, from as int) {
        Some(from)
    } else {
        first_match(hay, needle, from + 1)
    }
}

/// The first match is a match, and there is none before it; where there is no first match, there
/// is no match at all.
pub proof fn law_first_match<T>(hay: Seq<T>, needle: Seq<T>, from: nat)
    requires
        needle.len() > 0,
    ensures
        match first_match(hay, needle, from) {
            Some(p) => from <= p && occurs_at(hay, needle, p as int) && forall|q: int|
                from <= q < p ==> !#[trigger] occurs_at(hay, needle, q),
            None => forall|q: int| from <= q ==> !#[trigger] occurs_at(hay, needle, q),
        },
    decreases hay.len() - from,
{
    if from + needle.len() > hay.len() || from >= hay.len() {
    } else if occurs_at(hay, needle, from as int) {
    } else {
        law_first_match(hay, needle, from + 1);
    }
}

/// The bytes of an ASCII literal.
pub fn literal(s: &'static str) -> (r: &'static [u8])
    requires
        is_ascii_chars(s@),
    ensures
        r@ == ascii(s@),
{
    broadcast use vstd::string::group_string_axioms;

    let r = s.as_bytes();
    assert(vstd::string::is_ascii(s));
    assert(r@ =~= ascii(s@));
    r
}

/// Whether `needle` stands in `hay` at `p`.
fn stands_at(hay: &[u8], needle: &[u8], p: usize) -> (r: bool)
    requires
        p + needle@.len() <= hay@.len(),
    ensures
        r == occurs_at(hay@, needle@, p as int),
{
    let end: usize = hay.len();
    let mut i: usize = 0;
    while i < needle.len()
        invariant
            i <= needle@.len(),
            end == hay@.len(),
            p + needle@.len() <= end,
            forall|j: int| 0 <= j < i ==> hay@[p + j] == #[trigger] needle@[j],
        decreases needle@.len() - i,
    {
        if hay[p + i] != needle[i] {
            assert(hay@.subrange(p as int, p + needle@.len())[i as int] == hay@[p + i]);
            return false;
        }
        i = i + 1;
    }
    assert(hay@.subrange(p as int, p + needle@.len()) =~= needle@);
    true
}

/// The first place at or after `from` where `needle` stands in `hay`.
pub fn find(hay: &[u8], needle: &[u8], from: usize) -> (r: Option<usize>)
    requires
        from <= hay@.len(),
        needle@.len() > 0,
    ensures
        match r {
            Some(p) => first_match(hay@, needle@, from as nat) == Some(p as nat),
            None => first_match(hay@, needle@, from as nat) is None,
        },
{
    let mut p: usize = from;
    while hay.len() - p >= needle.len()
        invariant
            from <= p <= hay@.len(),
            needle@.len() > 0,
            first_match(hay@, needle@, from as nat) == first_match(hay@, needle@, p as nat),
        decreases hay@.len() - p,
    {
        if stands_at(hay, needle, p) {
            return Some(p);
        }
        p = p + 1;
    }
    None
}

/// Whether `needle` stands in the text `hay` at `p`.
fn reads_at(hay: &[char], needle: &[char], p: usize) -> (r: bool)
    requires
        p + needle@.len() <= hay@.len(),
    ensures
        r == occurs_at(hay@, needle@, p as int),
{
    let end: usize = hay.len();
    let mut i: usize = 0;
    while i < needle.len()
        invariant
            i <= needle@.len(),
            end == hay@.len(),
            p + needle@.len() <= end,
            forall|j: int| 0 <= j < i ==> hay@[p + j] == #[trigger] needle@[j],
        decreases needle@.len() - i,
    {
        if hay[p + i] != needle[i] {
            assert(hay@.subrange(p as int, p + needle@.len())[i as int] == hay@[p + i]);
            return false;
        }
        i = i + 1;
    }
    assert(hay@.subrange(p as int, p + needle@.len()) =~= needle@);
    true
}

/// The first place at or after `from` where `needle` stands in the text `hay`.
pub fn find_text(hay: &[char], needle: &[char], from: usize) -> (r: Option<usize>)
    requires
        from <= hay@.len(),
        needle@.len() > 0,
    ensures
        match r {
            Some(p) => first_match(hay@, needle@, from as nat) == Some(p as nat),
            None => first_match(hay@, needle@, from as nat) is None,
        },
{
    let mut p: usize = from;
    while hay.len() - p >= needle.len()
        invariant
            from <= p <= hay@.len(),
            needle@.len() > 0,
            first_match(hay@, needle@, from as nat) == first_match(hay@, needle@, p as nat),
        decreases hay@.len() - p,
    {
        if reads_at(hay, needle, p) {
            return Some(p);
        }
        p = p + 1;
    }
    None
}

/// Whether the text `hay` begins with `needle`.
pub fn begins_with(hay: &[char], needle: &[char]) -> (r: bool)
    ensures
        r == occurs_at(hay@, needle@, 0),
{
    hay.len() >= needle.len() && reads_at(hay, needle, 0)
}

} // verus!
