//! What a line of the settings does: which text it gives which part of a model.

use vstd::prelude::*;

use crate::conf::{conf_value, is_count, prefix, value_from};
use crate::mat::MatView;
use crate::mfcc::{is_front_end, USUAL_NUMBER};
use crate::recognizer::{is_model, search_of, ModelView, SAMPLE_RATE};
use crate::scan::occurs_at;
use crate::single::{indices, parses, Arith, SIGN};
use crate::stored::Stored;
use crate::text::{is_space, line_end, lines, stretch, trim_back, trim_front, trimmed};
use crate::values::{finite, lemma_order, power, size_of, value};

verus! {

/// `part` stands nowhere in `s`.
pub open spec fn lacks(s: Seq<char>, part: Seq<char>) -> bool {
    forall|i: int| 0 <= i && i + part.len() <= s.len() ==> #[trigger] s.subrange(
        i,
        i + part.len(),
    ) != part
}

/// A text that holds no white space and nothing else that cannot be seen.
pub open spec fn visible(t: Seq<char>) -> bool {
    forall|i: int| 0 <= i < t.len() ==> '!' <= #[trigger] t[i] <= '~'
}

/// Nothing but spaces and tabs.
pub open spec fn empty_space(t: Seq<char>) -> bool {
    forall|i: int| 0 <= i < t.len() ==> #[trigger] t[i] == ' ' || t[i] == '\t'
}

/// `line` is `start` and then `t`, with or without empty space around each.
pub open spec fn is_line(line: Seq<char>, start: Seq<char>, t: Seq<char>) -> bool {
    exists|a: Seq<char>, b: Seq<char>, c: Seq<char>|
        {
            &&& #[trigger] (a + start + b + t + c) == line
            &&& empty_space(a) && empty_space(b) && empty_space(c)
            &&& visible(t)
        }
}

/// `conf` has a line that is `start` and then `t`, and no line before it has `start` in it.
pub open spec fn sets(conf: Seq<char>, start: Seq<char>, t: Seq<char>) -> bool {
    exists|before: Seq<char>, line: Seq<char>, after: Seq<char>|
        {
            &&& #[trigger] (before + line + after) == conf
            &&& lacks(before, start)
            &&& before.len() == 0 || before.last() == '\n'
            &&& after.len() == 0 || after[0] == '\n'
            &&& is_line(line, start, t)
        }
}

/// The arithmetic reads `t` as the number `b`, and as nothing else.
pub open spec fn read_as<A: Arith>(t: Seq<char>, b: u32) -> bool {
    forall|r: Option<u32>| #[trigger] parses::<A>(t, r) ==> r == Some(b)
}

pub(crate) proof fn lemma_line_end(s: Seq<char>, n: int)
    requires
        0 <= n <= s.len(),
        forall|i: int| 0 <= i < n ==> #[trigger] s[i] != '\n',
        n < s.len() ==> s[n] == '\n',
    ensures
        line_end(s) == n,
    decreases s.len(),
{
    if n > 0 {
        assert(s[0] != '\n');
        let rest = s.skip(1);
        assert forall|i: int| 0 <= i < n - 1 implies #[trigger] rest[i] != '\n' by {
            assert(rest[i] == s[i + 1]);
        }
        lemma_line_end(rest, n - 1);
    }
}

pub(crate) proof fn lemma_end_of_line(s: Seq<char>)
    ensures
        line_end(s) <= s.len(),
        forall|i: int| 0 <= i < line_end(s) ==> #[trigger] s[i] != '\n',
        line_end(s) < s.len() ==> s[line_end(s) as int] == '\n',
    decreases s.len(),
{
    if s.len() > 0 && s[0] != '\n' {
        let rest = s.skip(1);
        lemma_end_of_line(rest);
        assert forall|i: int| 0 <= i < line_end(s) implies #[trigger] s[i] != '\n' by {
            if i > 0 {
                assert(s[i] == rest[i - 1]);
            }
        }
    }
}

proof fn lemma_stretch(s: Seq<char>, sp: bool)
    ensures
        stretch(s, sp) <= s.len(),
    decreases s.len(),
{
    if s.len() > 0 && is_space(s[0]) == sp {
        lemma_stretch(s.skip(1), sp);
    }
}

/// What is left without white space around it is a part of the whole.
proof fn lemma_trim_part(s: Seq<char>) -> (at: int)
    ensures
        0 <= at,
        at + trimmed(s).len() <= s.len(),
        trimmed(s) == s.subrange(at, at + trimmed(s).len()),
{
    lemma_stretch(s, true);
    let at = stretch(s, true) as int;
    lemma_back_part(trim_front(s));
    assert(trimmed(s) =~= s.subrange(at, at + trimmed(s).len()));
    at
}

proof fn lemma_back_part(s: Seq<char>)
    ensures
        trim_back(s).len() <= s.len(),
        trim_back(s) == s.take(trim_back(s).len() as int),
    decreases s.len(),
{
    if s.len() > 0 && is_space(s.last()) {
        lemma_back_part(s.drop_last());
        assert(trim_back(s) =~= s.take(trim_back(s).len() as int));
    } else {
        assert(s =~= s.take(s.len() as int));
    }
}

pub(crate) proof fn lemma_nothing_to_trim(s: Seq<char>)
    requires
        s.len() > 0 ==> !is_space(s[0]) && !is_space(s.last()),
    ensures
        trimmed(s) == s,
{
    assert(s.skip(0) =~= s);
}

proof fn lemma_later(l: Seq<char>, ls: Seq<Seq<char>>, key: Seq<char>, i: nat)
    ensures
        value_from(seq![l] + ls, key, i + 1) == value_from(ls, key, i),
    decreases ls.len() - i,
{
    let all = seq![l] + ls;
    if i < ls.len() {
        assert(all[i as int + 1] == ls[i as int]);
        lemma_later(l, ls, key, i + 1);
    }
}

/// A line that does not have the start of the setting in it is passed over.
proof fn lemma_passed(s: Seq<char>, key: Seq<char>, n: int)
    requires
        n == line_end(s),
        n < s.len(),
        lacks(s.take(n), prefix(key)),
    ensures
        conf_value(s, key) == conf_value(s.skip(n + 1), key),
{
    let l = s.take(n);
    let rest = lines(s.skip(n + 1));
    assert(lines(s) == seq![l] + rest);
    lemma_does_not_set(l, key);
    assert(lines(s)[0] == l);
    lemma_later(l, rest, key, 0);
}

proof fn lemma_does_not_set(l: Seq<char>, key: Seq<char>)
    requires
        lacks(l, prefix(key)),
    ensures
        !occurs_at(trimmed(l), prefix(key), 0),
{
    let t = trimmed(l);
    let at = lemma_trim_part(l);
    if occurs_at(t, prefix(key), 0) {
        let n = prefix(key).len() as int;
        assert(l.subrange(at, at + n) =~= prefix(key));
    }
}

proof fn lemma_lacks_part(s: Seq<char>, part: Seq<char>, a: int, b: int)
    requires
        lacks(s, part),
        0 <= a <= b <= s.len(),
    ensures
        lacks(s.subrange(a, b), part),
{
    let t = s.subrange(a, b);
    assert forall|i: int| 0 <= i && i + part.len() <= t.len() implies #[trigger] t.subrange(
        i,
        i + part.len(),
    ) != part by {
        assert(t.subrange(i, i + part.len()) =~= s.subrange(a + i, a + i + part.len()));
    }
}

proof fn lemma_never_set(s: Seq<char>, key: Seq<char>)
    requires
        lacks(s, prefix(key)),
    ensures
        conf_value(s, key) is None,
    decreases s.len(),
{
    lemma_end_of_line(s);
    let n = line_end(s) as int;
    if n < s.len() {
        assert(s.take(n) =~= s.subrange(0, n));
        lemma_lacks_part(s, prefix(key), 0, n);
        lemma_passed(s, key, n);
        assert(s.skip(n + 1) =~= s.subrange(n + 1, s.len() as int));
        lemma_lacks_part(s, prefix(key), n + 1, s.len() as int);
        lemma_never_set(s.skip(n + 1), key);
    } else {
        lemma_does_not_set(s, key);
        assert(lines(s)[0] == s);
        assert(value_from(lines(s), key, 1) is None);
    }
}

proof fn lemma_trim_back(s: Seq<char>, c: Seq<char>)
    requires
        s.len() > 0 ==> !is_space(s.last()),
        empty_space(c),
    ensures
        trim_back(s + c) == s,
    decreases c.len(),
{
    if c.len() == 0 {
        assert(s + c =~= s);
    } else {
        assert(c[c.len() - 1] == ' ' || c[c.len() - 1] == '\t');
        assert((s + c).last() == c.last());
        assert((s + c).drop_last() =~= s + c.drop_last());
        assert forall|i: int| 0 <= i < c.drop_last().len() implies #[trigger] c.drop_last()[i] == ' '
            || c.drop_last()[i] == '\t' by {
            assert(c.drop_last()[i] == c[i]);
        }
        lemma_trim_back(s, c.drop_last());
    }
}

/// Empty space around a text is taken off.
proof fn lemma_trim(a: Seq<char>, s: Seq<char>, c: Seq<char>)
    requires
        s.len() > 0 ==> !is_space(s[0]) && !is_space(s.last()),
        empty_space(a),
        empty_space(c),
    ensures
        trimmed(a + s + c) == s,
{
    let all = a + s + c;
    crate::text::lemma_stretch(all, true);
    let n = stretch(all, true) as int;
    if n < a.len() {
        assert(all[n] == a[n]);
        assert(false);
    }
    if s.len() > 0 {
        if n > a.len() {
            assert(all[a.len() as int] == s[0]);
            assert(false);
        }
        assert(all.skip(n) =~= s + c);
        lemma_trim_back(s, c);
    } else {
        if n < all.len() {
            assert(all[n] == c[n - a.len()]);
            assert(false);
        }
        assert(all.skip(n) =~= s);
        assert(trim_back(s) == s);
    }
}

proof fn lemma_first_line(key: Seq<char>, line: Seq<char>, t: Seq<char>, after: Seq<char>)
    requires
        forall|i: int| 0 <= i < key.len() ==> 'a' <= #[trigger] key[i] <= 'z' || key[i] == '-',
        after.len() == 0 || after[0] == '\n',
        is_line(line, prefix(key), t),
    ensures
        conf_value(line + after, key) == Some(t),
{
    reveal_strlit("--");
    let start = prefix(key);
    let (a, b, c) = choose|a: Seq<char>, b: Seq<char>, c: Seq<char>|
        {
            &&& #[trigger] (a + start + b + t + c) == line
            &&& empty_space(a) && empty_space(b) && empty_space(c)
            &&& visible(t)
        };
    let s = line + after;
    let n = line.len() as int;
    let (la, ls, lb, lt) = (a.len() as int, start.len() as int, b.len() as int, t.len() as int);
    assert forall|i: int| 0 <= i < ls implies !is_space(#[trigger] start[i]) by {
        if 2 <= i < 2 + key.len() {
            assert(start[i] == key[i - 2]);
        }
    }
    assert forall|i: int| 0 <= i < n implies #[trigger] line[i] != '\n' by {
        if i < la {
            assert(line[i] == a[i]);
        } else if i < la + ls {
            assert(line[i] == start[i - la]);
            assert(!is_space(start[i - la]));
        } else if i < la + ls + lb {
            assert(line[i] == b[i - la - ls]);
        } else if i < la + ls + lb + lt {
            assert(line[i] == t[i - la - ls - lb]);
        } else {
            assert(line[i] == c[i - la - ls - lb - lt]);
        }
    }
    assert forall|i: int| 0 <= i < n implies #[trigger] s[i] != '\n' by {
        assert(s[i] == line[i]);
    }
    assert(n < s.len() ==> s[n] == after[0]);
    lemma_line_end(s, n);
    assert(s.take(n) =~= line);
    assert(lines(s)[0] == line) by {
        if n >= s.len() {
            assert(s =~= line);
        }
    }
    let none = Seq::<char>::empty();
    let (core, tail) = if lt > 0 {
        (start + b + t, c)
    } else {
        (start, b + c)
    };
    assert(line =~= a + core + tail);
    assert(empty_space(tail)) by {
        assert forall|i: int| 0 <= i < tail.len() implies #[trigger] tail[i] == ' ' || tail[i]
            == '\t' by {
            if lt == 0 {
                if i < lb {
                    assert(tail[i] == b[i]);
                } else {
                    assert(tail[i] == c[i - lb]);
                }
            }
        }
    }
    assert(core[0] == start[0]);
    assert(!is_space(start[0]) && !is_space(start[ls - 1]));
    assert(lt > 0 ==> core.last() == t[lt - 1]);
    lemma_trim(a, core, tail);
    assert(occurs_at(core, start, 0)) by {
        assert(core.subrange(0, ls) =~= start);
    }
    let rest = core.skip(ls);
    if lt > 0 {
        assert(rest =~= b + t + none);
        assert(t[0] == t[0] && !is_space(t[0]));
        lemma_trim(b, t, none);
    } else {
        assert(rest =~= none + t + none);
        lemma_trim(none, t, none);
    }
}

proof fn lemma_set(
    before: Seq<char>,
    key: Seq<char>,
    line: Seq<char>,
    t: Seq<char>,
    after: Seq<char>,
)
    requires
        forall|i: int| 0 <= i < key.len() ==> 'a' <= #[trigger] key[i] <= 'z' || key[i] == '-',
        lacks(before, prefix(key)),
        before.len() == 0 || before.last() == '\n',
        after.len() == 0 || after[0] == '\n',
        is_line(line, prefix(key), t),
    ensures
        conf_value(before + line + after, key) == Some(t),
    decreases before.len(),
{
    let start = prefix(key);
    let s = before + line + after;
    if before.len() > 0 {
        lemma_end_of_line(before);
        let n = line_end(before) as int;
        assert(before[before.len() - 1] == '\n');
        assert(n < before.len());
        assert forall|i: int| 0 <= i < n implies #[trigger] s[i] != '\n' by {
            assert(s[i] == before[i]);
        }
        assert(s[n] == before[n]);
        lemma_line_end(s, n);
        assert(s.take(n) =~= before.subrange(0, n));
        lemma_lacks_part(before, start, 0, n);
        lemma_passed(s, key, n);
        let later = before.skip(n + 1);
        assert(later =~= before.subrange(n + 1, before.len() as int));
        lemma_lacks_part(before, start, n + 1, before.len() as int);
        assert(later.len() > 0 ==> later.last() == before.last());
        assert(s.skip(n + 1) =~= later + line + after);
        lemma_set(later, key, line, t, after);
    } else {
        assert(s =~= line + after);
        lemma_first_line(key, line, t, after);
    }
}

/// A line `--key=text` gives the text that stands in it, whatever other lines say after it.
proof fn lemma_sets(conf: Seq<char>, key: Seq<char>, start: Seq<char>, t: Seq<char>)
    requires
        forall|i: int| 0 <= i < key.len() ==> 'a' <= #[trigger] key[i] <= 'z' || key[i] == '-',
        start == prefix(key),
        sets(conf, start, t),
    ensures
        conf_value(conf, key) == Some(t),
{
    let (before, line, after) = choose|before: Seq<char>, line: Seq<char>, after: Seq<char>|
        {
            &&& #[trigger] (before + line + after) == conf
            &&& lacks(before, start)
            &&& before.len() == 0 || before.last() == '\n'
            &&& after.len() == 0 || after[0] == '\n'
            &&& is_line(line, start, t)
        };
    lemma_set(before, key, line, t, after);
}

/// The arithmetic reads no number in `t`.
pub open spec fn not_read<A: Arith>(t: Seq<char>) -> bool {
    forall|r: Option<u32>| #[trigger] parses::<A>(t, r) ==> r is None
}

/// `conf` sets nothing behind `start`: it has no such line, or the first of them sets no number.
pub open spec fn leaves<A: Arith>(conf: Seq<char>, start: Seq<char>, t: Seq<char>) -> bool {
    lacks(conf, start) || (sets(conf, start, t) && not_read::<A>(t))
}

proof fn lemma_leaves<A: Arith>(conf: Seq<char>, key: Seq<char>, start: Seq<char>, t: Seq<char>)
    requires
        forall|i: int| 0 <= i < key.len() ==> 'a' <= #[trigger] key[i] <= 'z' || key[i] == '-',
        start == prefix(key),
        leaves::<A>(conf, start, t),
    ensures
        conf_value(conf, key) matches Some(x) ==> not_read::<A>(x),
{
    if lacks(conf, start) {
        lemma_never_set(conf, key);
    } else {
        lemma_sets(conf, key, start, t);
    }
}

proof fn lemma_keys()
    ensures
        "--beam="@ == prefix("beam"@),
        "--acoustic-scale="@ == prefix("acoustic-scale"@),
        "--max-active="@ == prefix("max-active"@),
        "--num-mel-bins="@ == prefix("num-mel-bins"@),
        "--num-ceps="@ == prefix("num-ceps"@),
        forall|i: int| 0 <= i < "beam"@.len() ==> 'a' <= #[trigger] "beam"@[i] <= 'z',
        forall|i: int|
            0 <= i < "acoustic-scale"@.len() ==> 'a' <= #[trigger] "acoustic-scale"@[i] <= 'z'
                || "acoustic-scale"@[i] == '-',
        forall|i: int|
            0 <= i < "max-active"@.len() ==> 'a' <= #[trigger] "max-active"@[i] <= 'z'
                || "max-active"@[i] == '-',
        forall|i: int|
            0 <= i < "num-mel-bins"@.len() ==> 'a' <= #[trigger] "num-mel-bins"@[i] <= 'z'
                || "num-mel-bins"@[i] == '-',
        forall|i: int|
            0 <= i < "num-ceps"@.len() ==> 'a' <= #[trigger] "num-ceps"@[i] <= 'z'
                || "num-ceps"@[i] == '-',
{
    reveal_strlit("--");
    reveal_strlit("beam");
    reveal_strlit("--beam=");
    reveal_strlit("acoustic-scale");
    reveal_strlit("--acoustic-scale=");
    reveal_strlit("max-active");
    reveal_strlit("--max-active=");
    reveal_strlit("num-mel-bins");
    reveal_strlit("--num-mel-bins=");
    reveal_strlit("num-ceps");
    reveal_strlit("--num-ceps=");
    assert("--beam="@ =~= prefix("beam"@));
    assert("--acoustic-scale="@ =~= prefix("acoustic-scale"@));
    assert("--max-active="@ =~= prefix("max-active"@));
    assert("--num-mel-bins="@ =~= prefix("num-mel-bins"@));
    assert("--num-ceps="@ =~= prefix("num-ceps"@));
}

/// The beam of the searches of a loaded model is the number in the first line `--beam=...` of its
/// settings, whatever other lines there are, and 13 where there is no such line or it holds
/// no number.
pub proof fn law_beam<A: Arith>(
    mdl: Seq<u8>,
    graph: Stored,
    words: Stored,
    conf: Seq<char>,
    mfcc_conf: Seq<char>,
    v: ModelView,
    ll: MatView,
    t: Seq<char>,
    b: u32,
)
    requires
        is_model::<A>(mdl, graph, words, conf, mfcc_conf, v),
    ensures
        sets(conf, "--beam="@, t) && read_as::<A>(t, b) ==> search_of(v, ll).beam == b,
        leaves::<A>(conf, "--beam="@, t) ==> value(search_of(v, ll).beam) == 13real,
{
    lemma_keys();
    if sets(conf, "--beam="@, t) && read_as::<A>(t, b) {
        lemma_sets(conf, "beam"@, "--beam="@, t);
    }
    if leaves::<A>(conf, "--beam="@, t) {
        lemma_leaves::<A>(conf, "beam"@, "--beam="@, t);
        lemma_thirteen();
    }
}

proof fn lemma_thirteen()
    ensures
        value(0x4150_0000) == 13real,
{
    reveal_with_fuel(power, 21);
    assert(size_of(0x4150_0000) == 0xd0_0000real * power(-20));
}

/// The acoustic scale of the searches of a loaded model is the number in the first line
/// `--acoustic-scale=...`, and 1 where there is no such line or it holds no number.
pub proof fn law_acoustic_scale<A: Arith>(
    mdl: Seq<u8>,
    graph: Stored,
    words: Stored,
    conf: Seq<char>,
    mfcc_conf: Seq<char>,
    v: ModelView,
    ll: MatView,
    t: Seq<char>,
    b: u32,
)
    requires
        is_model::<A>(mdl, graph, words, conf, mfcc_conf, v),
    ensures
        sets(conf, "--acoustic-scale="@, t) && read_as::<A>(t, b) ==> search_of(v, ll).scale == b,
        leaves::<A>(conf, "--acoustic-scale="@, t) ==> value(search_of(v, ll).scale) == 1real,
{
    lemma_keys();
    if sets(conf, "--acoustic-scale="@, t) && read_as::<A>(t, b) {
        lemma_sets(conf, "acoustic-scale"@, "--acoustic-scale="@, t);
    }
    if leaves::<A>(conf, "--acoustic-scale="@, t) {
        lemma_leaves::<A>(conf, "acoustic-scale"@, "--acoustic-scale="@, t);
        reveal_with_fuel(power, 24);
        assert(size_of(0x3f80_0000) == 0x80_0000real * power(-23));
    }
}

/// The arithmetic takes the number `b` as the index `n`, and as nothing else.
pub open spec fn counted_as<A: Arith>(b: u32, n: usize) -> bool {
    forall|m: usize| #[trigger] indices::<A>(b, m) ==> m == n
}

/// The limit on states of the searches of a loaded model is the number in the first line
/// `--max-active=...`, and 7000 where there is no such line or it holds no number.
pub proof fn law_max_active<A: Arith>(
    mdl: Seq<u8>,
    graph: Stored,
    words: Stored,
    conf: Seq<char>,
    mfcc_conf: Seq<char>,
    v: ModelView,
    ll: MatView,
    t: Seq<char>,
    b: u32,
    n: usize,
)
    requires
        is_model::<A>(mdl, graph, words, conf, mfcc_conf, v),
        counted_as::<A>(b, n),
    ensures
        sets(conf, "--max-active="@, t) && read_as::<A>(t, b) ==> search_of(v, ll).max_active == n,
        leaves::<A>(conf, "--max-active="@, t) && is_positive(b, 7000) ==> search_of(
            v,
            ll,
        ).max_active == n,
{
    lemma_keys();
    if sets(conf, "--max-active="@, t) && read_as::<A>(t, b) {
        lemma_sets(conf, "max-active"@, "--max-active="@, t);
    }
    if leaves::<A>(conf, "--max-active="@, t) && is_positive(b, 7000) {
        lemma_leaves::<A>(conf, "max-active"@, "--max-active="@, t);
        reveal_with_fuel(power, 12);
        assert(size_of(0x45da_c000) == 0xda_c000real * power(-11));
        lemma_order(b, 0x45da_c000);
    }
}

/// The pattern of a positive number.
pub open spec fn is_positive(b: u32, n: int) -> bool {
    finite(b) && b < SIGN && value(b) == n as real
}

/// The numbers of mel bins and of cepstra of a loaded model are those in the first lines
/// `--num-mel-bins=...` and `--num-ceps=...` of the settings of its front end, and 40 where there
/// are no such lines or they hold no number.
pub proof fn law_front_end_size<A: Arith>(
    mdl: Seq<u8>,
    graph: Stored,
    words: Stored,
    conf: Seq<char>,
    mfcc_conf: Seq<char>,
    v: ModelView,
    t: Seq<char>,
    b: u32,
    n: usize,
)
    requires
        is_model::<A>(mdl, graph, words, conf, mfcc_conf, v),
        counted_as::<A>(b, n),
    ensures
        sets(mfcc_conf, "--num-mel-bins="@, t) && read_as::<A>(t, b) ==> v.mfcc.filt.len() == n,
        sets(mfcc_conf, "--num-ceps="@, t) && read_as::<A>(t, b) ==> v.mfcc.num_ceps == n
            && v.mfcc.dct.len() == n,
        leaves::<A>(mfcc_conf, "--num-mel-bins="@, t) && is_positive(b, 40) ==> v.mfcc.filt.len()
            == n,
        leaves::<A>(mfcc_conf, "--num-ceps="@, t) && is_positive(b, 40) ==> v.mfcc.num_ceps == n,
{
    lemma_keys();
    reveal_with_fuel(power, 19);
    assert(size_of(0x4220_0000) == 0xa0_0000real * power(-18));
    if is_positive(b, 40) {
        lemma_order(b, 0x4220_0000);
    }
    if leaves::<A>(mfcc_conf, "--num-mel-bins="@, t) {
        lemma_leaves::<A>(mfcc_conf, "num-mel-bins"@, "--num-mel-bins="@, t);
    }
    if leaves::<A>(mfcc_conf, "--num-ceps="@, t) {
        lemma_leaves::<A>(mfcc_conf, "num-ceps"@, "--num-ceps="@, t);
    }
    if sets(mfcc_conf, "--num-mel-bins="@, t) {
        lemma_sets(mfcc_conf, "num-mel-bins"@, "--num-mel-bins="@, t);
    }
    if sets(mfcc_conf, "--num-ceps="@, t) {
        lemma_sets(mfcc_conf, "num-ceps"@, "--num-ceps="@, t);
    }
}

/// The front end of a loaded model is one for 16000 samples per second.
pub proof fn law_sample_rate<A: Arith>(
    mdl: Seq<u8>,
    graph: Stored,
    words: Stored,
    conf: Seq<char>,
    mfcc_conf: Seq<char>,
    v: ModelView,
) -> (rate: (u32, usize))
    requires
        is_model::<A>(mdl, graph, words, conf, mfcc_conf, v),
    ensures
        finite(rate.0) && value(rate.0) == 16000real,
        is_front_end::<A>(rate.0, rate.1, v.mfcc.num_ceps, v.mfcc),
{
    let bins = choose|bins: usize| #[trigger]
        is_count::<A>(mfcc_conf, "num-mel-bins"@, USUAL_NUMBER, bins) && is_front_end::<A>(
            SAMPLE_RATE,
            bins,
            v.mfcc.num_ceps,
            v.mfcc,
        );
    reveal_with_fuel(power, 12);
    assert(size_of(0x467a_0000) == 0xfa_0000real * power(-10));
    (SAMPLE_RATE, bins)
}

} // verus!
