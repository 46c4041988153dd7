//! Descriptors as they are written, and that reading gives them back.

use vstd::prelude::*;

use crate::components::LoadError;
use crate::descriptor::{
    before_mark, beyond, builds, closes, goes_on, is_mark, is_op, leaf_number, listed, opens, piece,
    reads_args, reads_desc, reads_expr, tokens, Args, DescView, Expr,
};
use crate::single::{parses, Arith};
use crate::text::{
    all_digits, decimal, is_digit, is_space, spec_int, trim_front, trimmed, without,
};

verus! {

/// The decimal digit of a number below ten.
pub open spec fn digit(k: nat) -> char {
    (48 + k) as char
}

/// A number in decimal digits.
pub open spec fn digits(n: nat) -> Seq<char>
    decreases n,
{
    if n < 10 {
        seq![digit(n)]
    } else {
        digits(n / 10).push(digit(n % 10))
    }
}

/// An integer as it is written.
pub open spec fn int_text(n: i32) -> Seq<char> {
    if n < 0 {
        seq!['-'] + digits((-n) as nat)
    } else {
        digits(n as nat)
    }
}

pub(crate) proof fn lemma_digits(n: nat)
    ensures
        digits(n).len() > 0,
        all_digits(digits(n)),
        decimal(digits(n)) == n,
    decreases n,
{
    reveal_with_fuel(decimal, 2);
    if n < 10 {
        assert(digits(n).drop_last() =~= Seq::empty());
        assert(is_digit(digit(n)));
    } else {
        lemma_digits(n / 10);
        let front = digits(n / 10);
        let s = digits(n);
        assert(s.drop_last() =~= front);
        assert(is_digit(digit(n % 10)));
        assert forall|i: int| 0 <= i < s.len() implies is_digit(#[trigger] s[i]) by {
            if i < front.len() {
                assert(s[i] == front[i]);
            }
        }
    }
}

/// An integer reads back.
pub proof fn law_int(n: i32)
    ensures
        spec_int(int_text(n)) == Some(n),
{
    let s = int_text(n);
    if n < 0 {
        lemma_digits((-n) as nat);
        assert(s.skip(1) =~= digits((-n) as nat));
    } else {
        lemma_digits(n as nat);
        assert(is_digit(s[0]));
        assert(without(s, '+') == s);
    }
}

/// Arguments with commas between them.
pub open spec fn commas(args: Seq<Seq<Seq<char>>>) -> Seq<Seq<char>>
    decreases args.len(),
{
    if args.len() == 0 {
        Seq::empty()
    } else if args.len() == 1 {
        args[0]
    } else {
        args[0] + seq![","@] + commas(args.skip(1))
    }
}

/// An operator and its arguments.
pub open spec fn call(op: Seq<char>, args: Seq<Seq<Seq<char>>>) -> Seq<Seq<char>> {
    seq![op, "("@] + commas(args) + seq![")"@]
}

/// How numbers are written.
pub type Spelling = spec_fn(u32) -> Seq<char>;

/// The tokens of an expression. The second and third argument of an index that is replaced are
/// written as they always are.
pub open spec fn written(d: DescView, num: Spelling) -> Seq<Seq<char>>
    decreases d,
{
    match d {
        DescView::Ref(n) => seq![n],
        DescView::Offset(a, n) => call("Offset"@, seq![written(*a, num), seq![int_text(n)]]),
        DescView::Scale(f, a) => call("Scale"@, seq![seq![num(f)], written(*a, num)]),
        DescView::Sum(a, b) => call("Sum"@, seq![written(*a, num), written(*b, num)]),
        DescView::Append(parts) => call("Append"@, written_all(parts, num)),
        DescView::ReplaceIndex(a) => call(
            "ReplaceIndex"@,
            seq![written(*a, num), seq!["t"@], seq!["0"@]],
        ),
    }
}

/// The tokens of expressions.
pub open spec fn written_all(ds: Seq<DescView>, num: Spelling) -> Seq<Seq<Seq<char>>>
    decreases ds,
{
    if ds.len() == 0 {
        Seq::empty()
    } else {
        written_all(ds.drop_last(), num).push(written(ds.last(), num))
    }
}

/// Nothing is put side by side without something to put there.
pub open spec fn writable(d: DescView) -> bool
    decreases d,
{
    match d {
        DescView::Ref(n) => true,
        DescView::Offset(a, n) => writable(*a),
        DescView::Scale(f, a) => writable(*a),
        DescView::Sum(a, b) => writable(*a) && writable(*b),
        DescView::Append(parts) => parts.len() > 0 && forall|i: int|
            0 <= i < parts.len() ==> writable(#[trigger] parts[i]),
        DescView::ReplaceIndex(a) => writable(*a),
    }
}

/// The arithmetic reads `f`, and nothing else, from the text.
pub open spec fn stands_for<A: Arith>(text: Seq<char>, f: u32) -> bool {
    forall|v: Option<u32>| #[trigger] parses::<A>(text, v) ==> v == Some(f)
}

/// Every number of an expression is written so that the arithmetic reads it back.
pub open spec fn legible<A: Arith>(d: DescView, num: Spelling) -> bool
    decreases d,
{
    match d {
        DescView::Ref(n) => true,
        DescView::Offset(a, n) => legible::<A>(*a, num),
        DescView::Scale(f, a) => stands_for::<A>(num(f), f) && legible::<A>(*a, num),
        DescView::Sum(a, b) => legible::<A>(*a, num) && legible::<A>(*b, num),
        DescView::Append(parts) => forall|i: int|
            0 <= i < parts.len() ==> legible::<A>(#[trigger] parts[i], num),
        DescView::ReplaceIndex(a) => legible::<A>(*a, num),
    }
}

/// Wherever the tokens `tt` stand, with no bracket opening behind them, they read as `d` and as
/// nothing else.
pub open spec fn reads_as<A: Arith>(tt: Seq<Seq<char>>, d: DescView) -> bool {
    forall|before: Seq<Seq<char>>, rest: Seq<Seq<char>>, r: Expr|
        (rest.len() == 0 || rest[0] != "("@) && #[trigger] reads_expr::<A>(
            before + tt + rest,
            before.len(),
            r,
        ) ==> r == Ok::<(DescView, nat), LoadError>((d, before.len() + tt.len()))
}

proof fn lemma_leaf<A: Arith>(n: Seq<char>)
    ensures
        reads_as::<A>(seq![n], DescView::Ref(n)),
{
    assert forall|before: Seq<Seq<char>>, rest: Seq<Seq<char>>, r: Expr|
        (rest.len() == 0 || rest[0] != "("@) && #[trigger] reads_expr::<A>(
            before + seq![n] + rest,
            before.len(),
            r,
        ) implies r == Ok::<(DescView, nat), LoadError>((DescView::Ref(n), before.len() + 1)) by {
        let toks = before + seq![n] + rest;
        let pos = before.len();
        assert(toks[pos as int] == n);
        if pos + 1 < toks.len() {
            assert(toks[pos as int + 1] == rest[0]);
        }
    }
}

proof fn lemma_args<A: Arith>(
    tts: Seq<Seq<Seq<char>>>,
    ds: Seq<DescView>,
    before: Seq<Seq<char>>,
    rest: Seq<Seq<char>>,
    r: Args,
)
    requires
        tts.len() == ds.len(),
        tts.len() > 0,
        forall|i: int| 0 <= i < tts.len() ==> reads_as::<A>(#[trigger] tts[i], ds[i]),
        forall|i: int| 0 <= i < tts.len() ==> (#[trigger] tts[i]).len() > 0,
        rest.len() > 0,
        rest[0] == ")"@,
        reads_args::<A>(before + commas(tts) + rest, before.len(), r),
    ensures
        r == Ok::<(Seq<DescView>, nat), LoadError>((ds, before.len() + commas(tts).len())),
    decreases tts.len(),
{
    reveal_strlit("(");
    reveal_strlit(")");
    reveal_strlit(",");
    assert("("@[0] == '(' && ")"@[0] == ')' && ","@[0] == ',');
    let toks = before + commas(tts) + rest;
    let pos = before.len();
    let (first, others) = choose|first: Expr, others: Args|
        {
            &&& reads_expr::<A>(toks, pos, first)
            &&& goes_on(toks, pos, first) ==> reads_args::<A>(toks, beyond(first), others)
            &&& r == #[trigger] listed(toks, pos, first, others)
        };
    assert(reads_as::<A>(tts[0], ds[0]));
    assert(tts[0].len() > 0);
    let p = pos + tts[0].len();
    if tts.len() == 1 {
        assert(toks == before + tts[0] + rest);
        assert(reads_expr::<A>(before + tts[0] + rest, before.len(), first));
        assert(toks[p as int] == rest[0]);
        assert(seq![ds[0]] =~= ds);
    } else {
        let more = commas(tts.skip(1));
        let after = seq![","@] + more + rest;
        assert(toks =~= before + tts[0] + after);
        assert(after[0] == ","@);
        assert(reads_expr::<A>(before + tts[0] + after, before.len(), first));
        assert(toks[p as int] == after[0]);
        let further = before + tts[0] + seq![","@];
        assert(toks =~= further + more + rest);
        let tts2 = tts.skip(1);
        let ds2 = ds.skip(1);
        assert forall|i: int| 0 <= i < tts2.len() implies reads_as::<A>(
            #[trigger] tts2[i],
            ds2[i],
        ) by {
            assert(tts2[i] == tts[i + 1] && ds2[i] == ds[i + 1]);
        }
        assert forall|i: int| 0 <= i < tts2.len() implies (#[trigger] tts2[i]).len() > 0 by {
            assert(tts2[i] == tts[i + 1]);
        }
        assert(further.len() == p + 1);
        lemma_args::<A>(tts2, ds2, further, rest, others);
        assert(seq![ds[0]] + ds2 =~= ds);
    }
}

proof fn lemma_call<A: Arith>(
    op: Seq<char>,
    tts: Seq<Seq<Seq<char>>>,
    ds: Seq<DescView>,
    d: DescView,
)
    requires
        is_op(op),
        tts.len() == ds.len(),
        tts.len() > 0,
        forall|i: int| 0 <= i < tts.len() ==> reads_as::<A>(#[trigger] tts[i], ds[i]),
        forall|i: int| 0 <= i < tts.len() ==> (#[trigger] tts[i]).len() > 0,
        forall|x: Result<DescView, LoadError>| #[trigger]
            builds::<A>(op, ds, x) ==> x == Ok::<DescView, LoadError>(d),
    ensures
        reads_as::<A>(call(op, tts), d),
{
    let tt = call(op, tts);
    assert forall|before: Seq<Seq<char>>, rest: Seq<Seq<char>>, r: Expr|
        (rest.len() == 0 || rest[0] != "("@) && #[trigger] reads_expr::<A>(
            before + tt + rest,
            before.len(),
            r,
        ) implies r == Ok::<(DescView, nat), LoadError>((d, before.len() + tt.len())) by {
        let toks = before + tt + rest;
        let pos = before.len();
        let inner = before + seq![op, "("@];
        let after = seq![")"@] + rest;
        assert(toks =~= inner + commas(tts) + after);
        assert(toks[pos as int] == op);
        assert(toks[pos as int + 1] == "("@);
        assert(opens(toks, pos));
        assert(after[0] == ")"@);
        assert(inner.len() == pos + 2);
        let args = choose|args: Args|
            reads_args::<A>(toks, pos + 2, args) && #[trigger] closes::<A>(toks, pos, args, r);
        lemma_args::<A>(tts, ds, inner, after, args);
        let p = inner.len() + commas(tts).len();
        assert(toks[p as int] == after[0]);
        match r {
            Ok((x, q)) => {
                assert(builds::<A>(op, ds, Ok(x)));
            },
            Err(x) => {
                assert(builds::<A>(op, ds, Err(x)));
            },
        }
    }
}

proof fn lemma_written_all(ds: Seq<DescView>, num: Spelling, i: int)
    requires
        0 <= i < ds.len(),
    ensures
        written_all(ds, num).len() == ds.len(),
        written_all(ds, num)[i] == written(ds[i], num),
    decreases ds.len(),
{
    let front = ds.drop_last();
    if i < front.len() {
        lemma_written_all(front, num, i);
        assert(front[i] == ds[i]);
    } else if front.len() > 0 {
        lemma_written_all(front, num, 0);
    } else {
        assert(written_all(front, num).len() == 0);
    }
}

proof fn lemma_nonempty(d: DescView, num: Spelling)
    ensures
        written(d, num).len() > 0,
{
}

/// What is written as an expression reads back as that expression, and nothing after it is
/// consumed.
pub proof fn law_written<A: Arith>(d: DescView, num: Spelling)
    requires
        writable(d),
        legible::<A>(d, num),
    ensures
        reads_as::<A>(written(d, num), d),
    decreases d,
{
    reveal_strlit("Offset");
    reveal_strlit("Scale");
    reveal_strlit("Sum");
    reveal_strlit("Append");
    reveal_strlit("ReplaceIndex");
    assert("Append"@[0] == 'A' && "Offset"@[0] == 'O');
    match d {
        DescView::Ref(n) => {
            lemma_leaf::<A>(n);
        },
        DescView::Offset(a, n) => {
            law_written::<A>(*a, num);
            lemma_leaf::<A>(int_text(n));
            law_int(n);
            lemma_nonempty(*a, num);
            let tts = seq![written(*a, num), seq![int_text(n)]];
            let ds = seq![*a, DescView::Ref(int_text(n))];
            lemma_call::<A>("Offset"@, tts, ds, d);
        },
        DescView::Scale(f, a) => {
            law_written::<A>(*a, num);
            lemma_leaf::<A>(num(f));
            lemma_nonempty(*a, num);
            let tts = seq![seq![num(f)], written(*a, num)];
            let ds = seq![DescView::Ref(num(f)), *a];
            assert("Scale"@.len() == 5 && "Offset"@.len() == 6);
            assert forall|x: Result<DescView, LoadError>| #[trigger]
                builds::<A>("Scale"@, ds, x) implies x == Ok::<DescView, LoadError>(d) by {
                match x {
                    Ok(DescView::Scale(g, b)) => {
                        assert(leaf_number::<A>(ds[0], Ok(g)));
                        assert(parses::<A>(num(f), Some(g)));
                    },
                    Ok(y) => {},
                    Err(y) => {
                        assert(leaf_number::<A>(ds[0], Err(y)));
                        assert(parses::<A>(num(f), None));
                    },
                }
            }
            lemma_call::<A>("Scale"@, tts, ds, d);
        },
        DescView::Sum(a, b) => {
            law_written::<A>(*a, num);
            law_written::<A>(*b, num);
            lemma_nonempty(*a, num);
            lemma_nonempty(*b, num);
            let tts = seq![written(*a, num), written(*b, num)];
            let ds = seq![*a, *b];
            assert("Sum"@.len() == 3 && "Scale"@.len() == 5 && "Offset"@.len() == 6);
            lemma_call::<A>("Sum"@, tts, ds, d);
        },
        DescView::Append(parts) => {
            let tts = written_all(parts, num);
            lemma_written_all(parts, num, 0);
            assert forall|i: int| 0 <= i < tts.len() implies reads_as::<A>(
                #[trigger] tts[i],
                parts[i],
            ) by {
                lemma_written_all(parts, num, i);
                law_written::<A>(parts[i], num);
            }
            assert forall|i: int| 0 <= i < tts.len() implies (#[trigger] tts[i]).len() > 0 by {
                lemma_written_all(parts, num, i);
                lemma_nonempty(parts[i], num);
            }
            assert("Append"@.len() == 6 && "Sum"@.len() == 3 && "Scale"@.len() == 5);
            lemma_call::<A>("Append"@, tts, parts, d);
        },
        DescView::ReplaceIndex(a) => {
            law_written::<A>(*a, num);
            lemma_leaf::<A>("t"@);
            lemma_leaf::<A>("0"@);
            lemma_nonempty(*a, num);
            let tts = seq![written(*a, num), seq!["t"@], seq!["0"@]];
            let ds = seq![*a, DescView::Ref("t"@), DescView::Ref("0"@)];
            assert("ReplaceIndex"@.len() == 12 && "Append"@.len() == 6 && "Sum"@.len() == 3
                && "Scale"@.len() == 5 && "Offset"@.len() == 6);
            lemma_call::<A>("ReplaceIndex"@, tts, ds, d);
        },
    }
}

/// A token that is no mark: characters with no mark among them and no white space around them.
pub open spec fn is_clean(t: Seq<char>) -> bool {
    &&& t.len() > 0
    &&& !is_space(t[0])
    &&& !is_space(t.last())
    &&& forall|i: int| 0 <= i < t.len() ==> !is_mark(#[trigger] t[i])
}

/// A token that is a mark.
pub open spec fn is_mark_token(t: Seq<char>) -> bool {
    t.len() == 1 && is_mark(t[0])
}

/// Of two tokens next to each other one at least is a mark.
pub open spec fn separated(ts: Seq<Seq<char>>) -> bool {
    &&& forall|i: int| 0 <= i < ts.len() ==> is_clean(#[trigger] ts[i]) || is_mark_token(ts[i])
    &&& forall|i: int, j: int|
        0 <= i < ts.len() && j == i + 1 && j < ts.len() ==> is_mark_token(#[trigger] ts[i])
            || is_mark_token(#[trigger] ts[j])
}

/// Tokens as text, one after the other.
pub open spec fn text_of(ts: Seq<Seq<char>>) -> Seq<char>
    decreases ts.len(),
{
    if ts.len() == 0 {
        Seq::empty()
    } else {
        ts[0] + text_of(ts.skip(1))
    }
}

proof fn lemma_clean_trimmed(t: Seq<char>)
    requires
        is_clean(t),
    ensures
        trimmed(t) == t,
        piece(t) == seq![t],
{
    assert(trim_front(t) =~= t);
}

proof fn lemma_nothing()
    ensures
        tokens(Seq::empty()) == Seq::<Seq<char>>::empty(),
        piece(Seq::empty()) == Seq::<Seq<char>>::empty(),
{
    let e = Seq::<char>::empty();
    assert(trim_front(e) =~= e);
}

proof fn lemma_skip_separated(ts: Seq<Seq<char>>, n: int)
    requires
        separated(ts),
        0 <= n <= ts.len(),
    ensures
        separated(ts.skip(n)),
{
    let rest = ts.skip(n);
    assert forall|i: int| 0 <= i < rest.len() implies is_clean(#[trigger] rest[i])
        || is_mark_token(rest[i]) by {
        assert(rest[i] == ts[i + n]);
    }
    assert forall|i: int, j: int|
        0 <= i < rest.len() && j == i + 1 && j < rest.len() implies is_mark_token(
        #[trigger] rest[i],
    ) || is_mark_token(#[trigger] rest[j]) by {
        assert(rest[i] == ts[i + n] && rest[j] == ts[j + n]);
    }
}

/// Tokens that are written one after the other are found again.
pub proof fn law_tokens(ts: Seq<Seq<char>>)
    requires
        separated(ts),
    ensures
        tokens(text_of(ts)) == ts,
    decreases ts.len(),
{
    let s = text_of(ts);
    if ts.len() == 0 {
        lemma_nothing();
    } else if is_mark_token(ts[0]) {
        let rest = ts.skip(1);
        lemma_skip_separated(ts, 1);
        law_tokens(rest);
        lemma_nothing();
        assert(s[0] == ts[0][0]);
        assert(s.take(0) =~= Seq::<char>::empty());
        assert(s.skip(1) =~= text_of(rest));
        assert(seq![s[0]] =~= ts[0]);
        assert(tokens(s) =~= ts);
    } else {
        let t = ts[0];
        assert(is_clean(t));
        lemma_clean_trimmed(t);
        if ts.len() == 1 {
            assert(text_of(ts.skip(1)) =~= Seq::<char>::empty());
            assert(s =~= t);
            lemma_before_exact(s, t.len());
            assert(tokens(s) =~= ts);
        } else {
            let rest = ts.skip(1);
            assert(is_mark_token(ts[0]) || is_mark_token(ts[1]));
            assert(rest[0] == ts[1]);
            let further = ts.skip(2);
            assert(rest.skip(1) =~= further);
            lemma_skip_separated(ts, 2);
            law_tokens(further);
            assert(s =~= t + ts[1] + text_of(further));
            lemma_before_exact(s, t.len());
            assert(s[t.len() as int] == ts[1][0]);
            assert(s.take(t.len() as int) =~= t);
            assert(s.skip(t.len() as int + 1) =~= text_of(further));
            assert(seq![s[t.len() as int]] =~= ts[1]);
            assert(tokens(s) =~= ts);
        }
    }
}

proof fn lemma_before_exact(s: Seq<char>, n: nat)
    requires
        n <= s.len(),
        forall|i: int| 0 <= i < n ==> !is_mark(#[trigger] s[i]),
        n < s.len() ==> is_mark(s[n as int]),
    ensures
        before_mark(s) == n,
    decreases s.len(),
{
    if s.len() > 0 && !is_mark(s[0]) {
        let t = s.skip(1);
        assert forall|i: int| 0 <= i < n - 1 implies !is_mark(#[trigger] t[i]) by {
            assert(t[i] == s[i + 1]);
        }
        lemma_before_exact(t, (n - 1) as nat);
    }
}

/// Every name and number in an expression can stand in a text.
pub open spec fn is_plain(d: DescView, num: Spelling) -> bool
    decreases d,
{
    match d {
        DescView::Ref(n) => is_clean(n),
        DescView::Offset(a, n) => is_plain(*a, num),
        DescView::Scale(f, a) => is_clean(num(f)) && is_plain(*a, num),
        DescView::Sum(a, b) => is_plain(*a, num) && is_plain(*b, num),
        DescView::Append(parts) => forall|i: int|
            0 <= i < parts.len() ==> is_plain(#[trigger] parts[i], num),
        DescView::ReplaceIndex(a) => is_plain(*a, num),
    }
}

proof fn lemma_put_together(a: Seq<Seq<char>>, b: Seq<Seq<char>>)
    requires
        separated(a),
        separated(b),
        a.len() > 0 && b.len() > 0 ==> is_mark_token(a.last()) || is_mark_token(b[0]),
    ensures
        separated(a + b),
{
    let c = a + b;
    assert forall|i: int| 0 <= i < c.len() implies is_clean(#[trigger] c[i])
        || is_mark_token(c[i]) by {
        if i < a.len() {
            assert(c[i] == a[i]);
        } else {
            assert(c[i] == b[i - a.len()]);
        }
    }
    assert forall|i: int, j: int|
        0 <= i < c.len() && j == i + 1 && j < c.len() implies is_mark_token(#[trigger] c[i])
        || is_mark_token(#[trigger] c[j]) by {
        if j < a.len() {
            assert(c[i] == a[i] && c[j] == a[j]);
        } else if i >= a.len() {
            assert(c[i] == b[i - a.len()] && c[j] == b[j - a.len()]);
        } else {
            assert(c[i] == a.last() && c[j] == b[0]);
        }
    }
}

proof fn lemma_commas(args: Seq<Seq<Seq<char>>>)
    requires
        forall|i: int| 0 <= i < args.len() ==> separated(#[trigger] args[i]),
    ensures
        separated(commas(args)),
    decreases args.len(),
{
    if args.len() == 1 {
        assert(separated(args[0]));
    } else if args.len() > 1 {
        reveal_strlit(",");
        let rest = args.skip(1);
        assert forall|i: int| 0 <= i < rest.len() implies separated(#[trigger] rest[i]) by {
            assert(rest[i] == args[i + 1]);
        }
        lemma_commas(rest);
        let comma = seq![","@];
        assert(is_mark_token(","@)) by {
            assert(","@[0] == ',');
        }
        assert(separated(comma));
        assert(separated(args[0]));
        lemma_put_together(args[0], comma);
        lemma_put_together(args[0] + comma, commas(rest));
    }
}

proof fn lemma_call_separated(op: Seq<char>, args: Seq<Seq<Seq<char>>>)
    requires
        is_clean(op),
        forall|i: int| 0 <= i < args.len() ==> separated(#[trigger] args[i]),
    ensures
        separated(call(op, args)),
{
    reveal_strlit("(");
    reveal_strlit(")");
    assert("("@[0] == '(' && ")"@[0] == ')');
    lemma_commas(args);
    let open = seq![op, "("@];
    let close = seq![")"@];
    assert(separated(open)) by {
        assert(is_mark_token(open[1]));
        assert(is_clean(open[0]));
    }
    assert(separated(close)) by {
        assert(is_mark_token(close[0]));
    }
    lemma_put_together(open, commas(args));
    lemma_put_together(open + commas(args), close);
}

proof fn lemma_digits_clean(n: nat)
    ensures
        is_clean(digits(n)),
{
    lemma_digits(n);
    let s = digits(n);
    assert(is_digit(s[0]) && is_digit(s[s.len() - 1]));
    assert forall|i: int| 0 <= i < s.len() implies !is_mark(#[trigger] s[i]) by {
        assert(is_digit(s[i]));
    }
}

proof fn lemma_int_clean(n: i32)
    ensures
        is_clean(int_text(n)),
{
    if n < 0 {
        let s = int_text(n);
        let t = digits((-n) as nat);
        lemma_digits_clean((-n) as nat);
        assert forall|i: int| 0 <= i < s.len() implies !is_mark(#[trigger] s[i]) by {
            if i > 0 {
                assert(s[i] == t[i - 1]);
            }
        }
        assert(s.last() == t.last());
    } else {
        lemma_digits_clean(n as nat);
    }
}

proof fn lemma_one(t: Seq<char>)
    requires
        is_clean(t),
    ensures
        separated(seq![t]),
{
    assert(is_clean(seq![t][0]));
}

proof fn lemma_separated(d: DescView, num: Spelling)
    requires
        is_plain(d, num),
    ensures
        separated(written(d, num)),
    decreases d,
{
    reveal_strlit("Offset");
    reveal_strlit("Scale");
    reveal_strlit("Sum");
    reveal_strlit("Append");
    reveal_strlit("ReplaceIndex");
    reveal_strlit("t");
    reveal_strlit("0");
    match d {
        DescView::Ref(n) => {
            lemma_one(n);
        },
        DescView::Offset(a, n) => {
            lemma_separated(*a, num);
            lemma_int_clean(n);
            lemma_one(int_text(n));
            assert(is_clean("Offset"@));
            lemma_call_separated("Offset"@, seq![written(*a, num), seq![int_text(n)]]);
        },
        DescView::Scale(f, a) => {
            lemma_separated(*a, num);
            lemma_one(num(f));
            assert(is_clean("Scale"@));
            lemma_call_separated("Scale"@, seq![seq![num(f)], written(*a, num)]);
        },
        DescView::Sum(a, b) => {
            lemma_separated(*a, num);
            lemma_separated(*b, num);
            assert(is_clean("Sum"@));
            lemma_call_separated("Sum"@, seq![written(*a, num), written(*b, num)]);
        },
        DescView::Append(parts) => {
            let tts = written_all(parts, num);
            if parts.len() > 0 {
                lemma_written_all(parts, num, 0);
            }
            assert forall|i: int| 0 <= i < tts.len() implies separated(#[trigger] tts[i]) by {
                lemma_written_all(parts, num, i);
                lemma_separated(parts[i], num);
            }
            assert(is_clean("Append"@));
            lemma_call_separated("Append"@, tts);
        },
        DescView::ReplaceIndex(a) => {
            lemma_separated(*a, num);
            assert(is_clean("ReplaceIndex"@));
            assert(is_clean("t"@));
            assert(is_clean("0"@));
            lemma_one("t"@);
            lemma_one("0"@);
            lemma_call_separated(
                "ReplaceIndex"@,
                seq![written(*a, num), seq!["t"@], seq!["0"@]],
            );
        },
    }
}

/// The text of an expression reads back as that expression, and as nothing else.
pub proof fn law_text<A: Arith>(d: DescView, num: Spelling, r: Result<DescView, LoadError>)
    requires
        writable(d),
        is_plain(d, num),
        legible::<A>(d, num),
        reads_desc::<A>(text_of(written(d, num)), r),
    ensures
        r == Ok::<DescView, LoadError>(d),
{
    let toks = written(d, num);
    lemma_separated(d, num);
    law_tokens(toks);
    law_written::<A>(d, num);
    let none = Seq::<Seq<char>>::empty();
    assert(none + toks + none =~= toks);
    match r {
        Ok(x) => {
            let p = choose|p: nat| #[trigger]
                reads_expr::<A>(toks, 0, Ok::<(DescView, nat), LoadError>((x, p)));
            assert(reads_expr::<A>(none + toks + none, none.len(), Ok((x, p))));
        },
        Err(x) => {
            assert(reads_expr::<A>(none + toks + none, none.len(), Err(x)));
        },
    }
}

/// `IfDefined(a)` is `a`, and what is left over in the arguments of an operator does not matter.
pub proof fn law_arguments<A: Arith>(
    args: Seq<DescView>,
    op: Seq<char>,
    r: Result<DescView, LoadError>,
)
    requires
        builds::<A>(op, args, r),
        args.len() >= 2,
    ensures
        op == "IfDefined"@ ==> r == Ok::<DescView, LoadError>(args[0]),
        op == "ReplaceIndex"@ ==> r == Ok::<DescView, LoadError>(
            DescView::ReplaceIndex(Box::new(args[0])),
        ),
        op == "Sum"@ ==> r == Ok::<DescView, LoadError>(
            DescView::Sum(Box::new(args[0]), Box::new(args[1])),
        ),
        op == "Append"@ ==> r == Ok::<DescView, LoadError>(DescView::Append(args)),
{
    lemma_operators();
}

/// An operator with too few arguments is refused.
pub proof fn law_too_few<A: Arith>(
    args: Seq<DescView>,
    op: Seq<char>,
    r: Result<DescView, LoadError>,
)
    requires
        builds::<A>(op, args, r),
    ensures
        args.len() < 2 && (op == "Offset"@ || op == "Sum"@ || op == "Scale"@) ==> r == Err::<
            DescView,
            LoadError,
        >(LoadError::BadDescriptor),
        args.len() < 1 && (op == "ReplaceIndex"@ || op == "IfDefined"@) ==> r == Err::<
            DescView,
            LoadError,
        >(LoadError::BadDescriptor),
{
    lemma_operators();
}

/// The names of operators differ.
proof fn lemma_operators()
    ensures
        "Offset"@.len() == 6 && "Offset"@[0] == 'O',
        "Append"@.len() == 6 && "Append"@[0] == 'A',
        "Sum"@.len() == 3,
        "Scale"@.len() == 5,
        "ReplaceIndex"@.len() == 12,
        "IfDefined"@.len() == 9,
{
    reveal_strlit("Offset");
    reveal_strlit("Append");
    reveal_strlit("Sum");
    reveal_strlit("Scale");
    reveal_strlit("ReplaceIndex");
    reveal_strlit("IfDefined");
}

} // verus!
