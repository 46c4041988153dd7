//! Settings of a model: lines of the form `--key=value`.

use vstd::prelude::*;
use vstd::slice::slice_subrange;

use crate::scan::{begins_with, occurs_at};
use crate::single::{indices, parses, Arith};
use crate::text::{chars_of, lines, split_lines, string_of, trim, trimmed};

verus! {

/// What stands in front of a value.
pub open spec fn prefix(key: Seq<char>) -> Seq<char> {
    "--"@ + key + seq!['=']
}

/// The value of `key` in the first line from line `i` on that sets it.
pub open spec fn value_from(ls: Seq<Seq<char>>, key: Seq<char>, i: nat) -> Option<Seq<char>>
    decreases ls.len() - i,
{
    if i >= ls.len() {
        None
    } else if occurs_at(trimmed(ls[i as int]), prefix(key), 0) {
        Some(trimmed(trimmed(ls[i as int]).skip(prefix(key).len() as int)))
    } else {
        value_from(ls, key, i + 1)
    }
}

/// The value of `key`, without white space around it.
pub open spec fn conf_value(conf: Seq<char>, key: Seq<char>) -> Option<Seq<char>> {
    value_from(lines(conf), key, 0)
}

/// The first line that sets a key counts, and lines before it that do not are passed over.
pub proof fn law_first_line(ls: Seq<Seq<char>>, key: Seq<char>, i: nat, j: nat)
    requires
        i <= j < ls.len(),
        occurs_at(trimmed(ls[j as int]), prefix(key), 0),
        forall|k: int| i <= k < j ==> !occurs_at(trimmed(#[trigger] ls[k]), prefix(key), 0),
    ensures
        value_from(ls, key, i) == Some(
            trimmed(trimmed(ls[j as int]).skip(prefix(key).len() as int)),
        ),
    decreases j - i,
{
    if i < j {
        assert(!occurs_at(trimmed(ls[i as int]), prefix(key), 0));
        law_first_line(ls, key, i + 1, j);
    }
}

/// The value of `key`.
pub fn conf_text(conf: &str, key: &'static str) -> (r: Option<String>)
    ensures
        match r {
            Some(v) => conf_value(conf@, key@) == Some(v@),
            None => conf_value(conf@, key@) is None,
        },
{
    let mut pat = chars_of("--");
    let name = chars_of(key);
    let mut n: usize = 0;
    while n < name.len()
        invariant
            n <= name@.len(),
            name@ == key@,
            pat@ == "--"@ + key@.take(n as int),
        decreases name@.len() - n,
    {
        pat.push(name[n]);
        n = n + 1;
        assert(pat@ =~= "--"@ + key@.take(n as int));
    }
    pat.push('=');
    proof {
        assert(key@.take(n as int) =~= key@);
        assert(pat@ =~= prefix(key@));
    }
    let cs = chars_of(conf);
    let ls = split_lines(cs.as_slice());
    let ghost all = lines(conf@);
    let mut i: usize = 0;
    while i < ls.len()
        invariant
            i <= ls@.len(),
            pat@ == prefix(key@),
            all == lines(conf@),
            ls@.len() == all.len(),
            forall|j: int| 0 <= j < ls@.len() ==> (#[trigger] ls@[j])@ == all[j],
            conf_value(conf@, key@) == value_from(all, key@, i as nat),
        decreases ls@.len() - i,
    {
        let line = trim(ls[i]);
        assert(line@ == trimmed(all[i as int]));
        if begins_with(line, pat.as_slice()) {
            let rest = slice_subrange(line, pat.len(), line.len());
            assert(rest@ =~= line@.skip(pat@.len() as int));
            return Some(string_of(trim(rest)));
        }
        i = i + 1;
    }
    None
}

/// `y` is the number that `key` is set to, or `default` where it is set to none.
pub open spec fn is_setting<A: Arith>(
    conf: Seq<char>,
    key: Seq<char>,
    default: u32,
    y: u32,
) -> bool {
    match conf_value(conf, key) {
        None => y == default,
        Some(t) => parses::<A>(t, Some(y)) || (parses::<A>(t, None) && y == default),
    }
}

/// The number that `key` is set to, or `default`.
pub fn getf<A: Arith>(conf: &str, key: &'static str, default: u32) -> (y: u32)
    ensures
        is_setting::<A>(conf@, key@, default, y),
{
    match conf_text(conf, key) {
        None => default,
        Some(t) => {
            let v = A::parse(t.as_str());
            assert(parses::<A>(t@, v));
            match v {
                Some(y) => y,
                None => default,
            }
        },
    }
}

/// `n` is the number that `key` is set to, or `default`, as a count.
pub open spec fn is_count<A: Arith>(
    conf: Seq<char>,
    key: Seq<char>,
    default: u32,
    n: usize,
) -> bool {
    exists|x: u32| #[trigger] is_setting::<A>(conf, key, default, x) && indices::<A>(x, n)
}

/// The number that `key` is set to, or `default`, as a count.
pub fn get_count<A: Arith>(conf: &str, key: &'static str, default: u32) -> (n: usize)
    ensures
        is_count::<A>(conf@, key@, default, n),
{
    let x: u32 = getf::<A>(conf, key, default);
    let n: usize = A::to_usize(x);
    assert(is_setting::<A>(conf@, key@, default, x) && indices::<A>(x, n));
    n
}

} // verus!
