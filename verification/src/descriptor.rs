//! Descriptors: how a node of a network puts its input together from other nodes.

use vstd::prelude::*;
use vstd::slice::slice_subrange;

use crate::components::LoadError;
use crate::single::{parses, Arith};
use crate::text::{chars_of, is_text, parse_int, spec_int, string_of, texts, trim, trimmed};

verus! {

/// An expression over the nodes of a network.
#[derive(Debug)]
pub enum Desc {
    Ref(String),
    Offset(Box<Desc>, i32),
    Scale(u32, Box<Desc>),
    Sum(Box<Desc>, Box<Desc>),
    Append(Vec<Desc>),
    ReplaceIndex(Box<Desc>),
}

/// What an expression says. The number of a scale is its bit pattern.
pub ghost enum DescView {
    Ref(Seq<char>),
    Offset(Box<DescView>, i32),
    Scale(u32, Box<DescView>),
    Sum(Box<DescView>, Box<DescView>),
    Append(Seq<DescView>),
    ReplaceIndex(Box<DescView>),
}

/// What an expression says.
pub open spec fn said(d: Desc) -> DescView
    decreases d,
{
    match d {
        Desc::Ref(n) => DescView::Ref(n@),
        Desc::Offset(a, n) => DescView::Offset(Box::new(said(*a)), n),
        Desc::Scale(f, a) => DescView::Scale(f, Box::new(said(*a))),
        Desc::Sum(a, b) => DescView::Sum(Box::new(said(*a)), Box::new(said(*b))),
        Desc::Append(parts) => DescView::Append(
            Seq::new(
                parts@.len(),
                |i: int|
                    if 0 <= i < parts@.len() {
                        said(parts@[i])
                    } else {
                        DescView::Ref(Seq::empty())
                    },
            ),
        ),
        Desc::ReplaceIndex(a) => DescView::ReplaceIndex(Box::new(said(*a))),
    }
}

impl View for Desc {
    type V = DescView;

    open spec fn view(&self) -> DescView {
        said(*self)
    }
}

/// What the expressions of a list say.
pub open spec fn said_all(ds: Seq<Desc>) -> Seq<DescView> {
    Seq::new(ds.len(), |i: int| said(ds[i]))
}

/// A bracket or comma, which is a token by itself.
pub open spec fn is_mark(c: char) -> bool {
    c == '(' || c == ')' || c == ','
}

/// How many characters stand before the first mark.
pub open spec fn before_mark(s: Seq<char>) -> nat
    decreases s.len(),
{
    if s.len() == 0 || is_mark(s[0]) {
        0
    } else {
        1 + before_mark(s.skip(1))
    }
}

/// A piece between marks as a token: without white space around it, and none if nothing is left.
pub open spec fn piece(s: Seq<char>) -> Seq<Seq<char>> {
    if trimmed(s).len() == 0 {
        Seq::empty()
    } else {
        seq![trimmed(s)]
    }
}

/// The tokens of a descriptor: the marks, and the pieces between them.
pub open spec fn tokens(s: Seq<char>) -> Seq<Seq<char>>
    decreases s.len(),
{
    let n = before_mark(s);
    if n >= s.len() {
        piece(s)
    } else {
        piece(s.take(n as int)) + seq![seq![s[n as int]]] + tokens(s.skip(n as int + 1))
    }
}

proof fn lemma_before_mark(s: Seq<char>)
    ensures
        before_mark(s) <= s.len(),
        before_mark(s) < s.len() ==> is_mark(s[before_mark(s) as int]),
        forall|i: int| 0 <= i < before_mark(s) ==> !is_mark(#[trigger] s[i]),
    decreases s.len(),
{
    if s.len() == 0 || is_mark(s[0]) {
    } else {
        let t = s.skip(1);
        lemma_before_mark(t);
        assert forall|i: int| 0 <= i < before_mark(s) implies !is_mark(#[trigger] s[i]) by {
            if i > 0 {
                assert(s[i] == t[i - 1]);
            }
        }
        if before_mark(s) < s.len() {
            assert(s[before_mark(s) as int] == t[before_mark(t) as int]);
        }
    }
}

/// Put the token of a piece, if there is one, at the end of others.
fn push_piece(out: &mut Vec<String>, cs: &[char])
    ensures
        texts(final(out)@) == texts(old(out)@) + piece(cs@),
{
    let ghost before = texts(out@);
    let t = trim(cs);
    if t.len() > 0 {
        out.push(string_of(t));
        assert(texts(out@) =~= before + seq![t@]);
    } else {
        assert(texts(out@) =~= before + Seq::empty());
    }
}

/// The tokens of a descriptor.
pub fn tokenize(cs: &[char]) -> (out: Vec<String>)
    ensures
        texts(out@) == tokens(cs@),
{
    let mut out: Vec<String> = Vec::new();
    let mut from: usize = 0;
    let mut i: usize = 0;
    let end: usize = cs.len();
    proof {
        assert(cs@.skip(0) =~= cs@);
        assert(texts(out@) + tokens(cs@) =~= tokens(cs@));
    }
    while i < end
        invariant
            end == cs@.len(),
            from <= i <= end,
            texts(out@) + tokens(cs@.skip(from as int)) == tokens(cs@),
            forall|j: int| from <= j < i ==> !is_mark(#[trigger] cs@[j]),
        decreases end - i,
    {
        let c = cs[i];
        if c == '(' || c == ')' || c == ',' {
            let ghost rest = cs@.skip(from as int);
            let ghost before = texts(out@);
            let part = slice_subrange(cs, from, i);
            push_piece(&mut out, part);
            let ghost middle = texts(out@);
            let mut mark = String::new();
            mark.push(c);
            assert(mark@ =~= seq![c]);
            out.push(mark);
            proof {
                let n = (i - from) as nat;
                lemma_before_mark(rest);
                if before_mark(rest) < n {
                    assert(rest[before_mark(rest) as int] == cs@[from + before_mark(rest)]);
                } else if before_mark(rest) > n {
                    assert(rest[n as int] == cs@[i as int]);
                }
                assert(rest.take(n as int) =~= part@);
                assert(rest.skip(n as int + 1) =~= cs@.skip(i + 1));
                assert(texts(out@) =~= middle + seq![seq![c]]);
                assert(before + (piece(part@) + seq![seq![c]] + tokens(cs@.skip(i + 1)))
                    =~= texts(out@) + tokens(cs@.skip(i + 1)));
            }
            from = i + 1;
        }
        i = i + 1;
    }
    let ghost rest = cs@.skip(from as int);
    let part = slice_subrange(cs, from, end);
    proof {
        lemma_before_mark(rest);
        if before_mark(rest) < rest.len() {
            assert(rest[before_mark(rest) as int] == cs@[from + before_mark(rest)]);
        }
        assert(part@ =~= rest);
    }
    push_piece(&mut out, part);
    out
}

/// The names of operators.
pub open spec fn is_op(t: Seq<char>) -> bool {
    t == "Offset"@ || t == "Scale"@ || t == "Sum"@ || t == "Append"@ || t == "ReplaceIndex"@ || t
        == "Round"@ || t == "IfDefined"@
}

/// The integer that an expression is.
pub open spec fn spec_leaf_int(d: DescView) -> Result<i32, LoadError> {
    match d {
        DescView::Ref(s) => match spec_int(s) {
            Some(n) => Ok(n),
            None => Err(LoadError::BadNumber),
        },
        _ => Err(LoadError::BadDescriptor),
    }
}

/// `r` is the number that an expression is, as the arithmetic reads it.
pub open spec fn leaf_number<A: Arith>(d: DescView, r: Result<u32, LoadError>) -> bool {
    match d {
        DescView::Ref(s) => match r {
            Ok(f) => parses::<A>(s, Some(f)),
            Err(x) => x == LoadError::BadNumber && parses::<A>(s, None),
        },
        _ => r == Err::<u32, LoadError>(LoadError::BadDescriptor),
    }
}

/// What an operator other than a scale makes of its arguments. Those it does not need are dropped.
pub open spec fn spec_build(op: Seq<char>, args: Seq<DescView>) -> Result<DescView, LoadError> {
    if op == "Offset"@ {
        if args.len() < 2 {
            Err(LoadError::BadDescriptor)
        } else {
            match spec_leaf_int(args[1]) {
                Ok(n) => Ok(DescView::Offset(Box::new(args[0]), n)),
                Err(x) => Err(x),
            }
        }
    } else if op == "Sum"@ {
        if args.len() < 2 {
            Err(LoadError::BadDescriptor)
        } else {
            Ok(DescView::Sum(Box::new(args[0]), Box::new(args[1])))
        }
    } else if op == "Append"@ {
        Ok(DescView::Append(args))
    } else if op == "ReplaceIndex"@ {
        if args.len() < 1 {
            Err(LoadError::BadDescriptor)
        } else {
            Ok(DescView::ReplaceIndex(Box::new(args[0])))
        }
    } else if op == "IfDefined"@ {
        if args.len() < 1 {
            Err(LoadError::BadDescriptor)
        } else {
            Ok(args[0])
        }
    } else {
        Err(LoadError::BadDescriptor)
    }
}

/// `r` is what an operator makes of its arguments. The first argument of a scale has to be a
/// number.
pub open spec fn builds<A: Arith>(
    op: Seq<char>,
    args: Seq<DescView>,
    r: Result<DescView, LoadError>,
) -> bool {
    if op == "Scale"@ {
        if args.len() < 2 {
            r == Err::<DescView, LoadError>(LoadError::BadDescriptor)
        } else {
            match r {
                Ok(DescView::Scale(f, a)) => leaf_number::<A>(args[0], Ok(f)) && *a == args[1],
                Ok(d) => false,
                Err(x) => leaf_number::<A>(args[0], Err(x)),
            }
        }
    } else {
        r == spec_build(op, args)
    }
}

/// An expression and the place behind it, or what is wrong with it.
pub type Expr = Result<(DescView, nat), LoadError>;

/// Expressions and the place behind them, or what is wrong with them.
pub type Args = Result<(Seq<DescView>, nat), LoadError>;

/// An operator and its bracket stand at token `pos`.
pub open spec fn opens(toks: Seq<Seq<char>>, pos: nat) -> bool {
    pos + 1 < toks.len() && is_op(toks[pos as int]) && toks[pos as int + 1] == "("@
}

/// `r` is what the operator at token `pos` makes of `args`, which end in a closing bracket.
pub open spec fn closes<A: Arith>(toks: Seq<Seq<char>>, pos: nat, args: Args, r: Expr) -> bool {
    match args {
        Err(x) => r == Err::<(DescView, nat), LoadError>(x),
        Ok((ds, p)) => if p < toks.len() && toks[p as int] == ")"@ {
            match r {
                Ok((d, q)) => q == p + 1 && builds::<A>(toks[pos as int], ds, Ok(d)),
                Err(x) => builds::<A>(toks[pos as int], ds, Err(x)),
            }
        } else {
            r == Err::<(DescView, nat), LoadError>(LoadError::BadDescriptor)
        },
    }
}

/// A comma stands behind the expression that starts at token `pos`.
pub open spec fn goes_on(toks: Seq<Seq<char>>, pos: nat, first: Expr) -> bool {
    match first {
        Ok((d, p)) => pos < p < toks.len() && toks[p as int] == ","@,
        Err(x) => false,
    }
}

/// The place behind the comma that follows an expression.
pub open spec fn beyond(first: Expr) -> nat {
    match first {
        Ok((d, p)) => p + 1,
        Err(x) => 0,
    }
}

/// The first expression and those behind the comma, if there is one.
pub open spec fn listed(toks: Seq<Seq<char>>, pos: nat, first: Expr, rest: Args) -> Args {
    match first {
        Err(x) => Err(x),
        Ok((d, p)) => if goes_on(toks, pos, first) {
            match rest {
                Err(x) => Err(x),
                Ok((ds, q)) => Ok((seq![d] + ds, q)),
            }
        } else {
            Ok((seq![d], p))
        },
    }
}

/// `r` is the expression that starts at token `pos`, and the place behind it.
pub open spec fn reads_expr<A: Arith>(toks: Seq<Seq<char>>, pos: nat, r: Expr) -> bool
    decreases toks.len() - pos, 0nat,
{
    if pos >= toks.len() {
        r == Err::<(DescView, nat), LoadError>(LoadError::BadDescriptor)
    } else if opens(toks, pos) {
        exists|args: Args|
            reads_args::<A>(toks, pos + 2, args) && #[trigger] closes::<A>(toks, pos, args, r)
    } else {
        r == Ok::<(DescView, nat), LoadError>((DescView::Ref(toks[pos as int]), pos + 1))
    }
}

/// `r` are the expressions, with commas between them, that start at token `pos`, and the place
/// behind them.
pub open spec fn reads_args<A: Arith>(toks: Seq<Seq<char>>, pos: nat, r: Args) -> bool
    decreases toks.len() - pos, 1nat,
{
    exists|first: Expr, rest: Args|
        {
            &&& reads_expr::<A>(toks, pos, first)
            &&& goes_on(toks, pos, first) ==> reads_args::<A>(toks, beyond(first), rest)
            &&& r == #[trigger] listed(toks, pos, first, rest)
        }
}

/// `r` is the expression that a text writes; what stands behind it is ignored.
pub open spec fn reads_desc<A: Arith>(s: Seq<char>, r: Result<DescView, LoadError>) -> bool {
    match r {
        Ok(d) => exists|p: nat| #[trigger]
            reads_expr::<A>(tokens(s), 0, Ok::<(DescView, nat), LoadError>((d, p))),
        Err(x) => reads_expr::<A>(tokens(s), 0, Err::<(DescView, nat), LoadError>(x)),
    }
}

proof fn lemma_call<A: Arith>(toks: Seq<Seq<char>>, pos: nat, args: Args, r: Expr)
    requires
        pos < toks.len(),
        opens(toks, pos),
        reads_args::<A>(toks, pos + 2, args),
        closes::<A>(toks, pos, args, r),
    ensures
        reads_expr::<A>(toks, pos, r),
{
    reveal_with_fuel(reads_expr, 2);
}

proof fn lemma_listed<A: Arith>(toks: Seq<Seq<char>>, pos: nat, first: Expr, rest: Args)
    requires
        reads_expr::<A>(toks, pos, first),
        goes_on(toks, pos, first) ==> reads_args::<A>(toks, beyond(first), rest),
    ensures
        reads_args::<A>(toks, pos, listed(toks, pos, first, rest)),
{
    reveal_with_fuel(reads_args, 2);
    let r = listed(toks, pos, first, rest);
    assert(r == listed(toks, pos, first, rest));
}

/// Expressions in front of others.
spec fn in_front(ds: Seq<DescView>, rest: Args) -> Args {
    match rest {
        Ok((more, q)) => Ok((ds + more, q)),
        Err(x) => Err(x),
    }
}

fn op_name(t: &String) -> (r: bool)
    ensures
        r == is_op(t@),
{
    is_text(t, "Offset") || is_text(t, "Scale") || is_text(t, "Sum") || is_text(t, "Append")
        || is_text(t, "ReplaceIndex") || is_text(t, "Round") || is_text(t, "IfDefined")
}

/// The integer that an expression is.
fn leaf_int(d: &Desc) -> (r: Result<i32, LoadError>)
    ensures
        r == spec_leaf_int(d@),
{
    match d {
        Desc::Ref(s) => {
            let cs = chars_of(s.as_str());
            match parse_int(cs.as_slice()) {
                Some(n) => Ok(n),
                None => Err(LoadError::BadNumber),
            }
        },
        _ => Err(LoadError::BadDescriptor),
    }
}

/// The number that an expression is.
fn leaf_f32<A: Arith>(d: &Desc) -> (r: Result<u32, LoadError>)
    ensures
        leaf_number::<A>(d@, r),
{
    match d {
        Desc::Ref(s) => {
            let v = A::parse(s.as_str());
            assert(parses::<A>(s@, v));
            match v {
                Some(f) => Ok(f),
                None => Err(LoadError::BadNumber),
            }
        },
        _ => Err(LoadError::BadDescriptor),
    }
}

/// What an expression says, or the error that came instead.
pub open spec fn said_or(r: Result<Desc, LoadError>) -> Result<DescView, LoadError> {
    match r {
        Ok(d) => Ok(d@),
        Err(x) => Err(x),
    }
}

/// What an operator makes of its arguments.
fn build_op<A: Arith>(op: &String, args: Vec<Desc>) -> (r: Result<Desc, LoadError>)
    ensures
        builds::<A>(op@, said_all(args@), said_or(r)),
{
    proof {
        reveal_strlit("Scale");
        reveal_strlit("Offset");
        assert("Scale"@.len() != "Offset"@.len());
    }
    let ghost views = said_all(args@);
    let mut args = args;
    if is_text(op, "Offset") {
        if args.len() < 2 {
            return Err(LoadError::BadDescriptor);
        }
        assert(views[1] == said(args@[1]));
        match leaf_int(&args[1]) {
            Ok(n) => {
                assert(views[0] == said(args@[0]));
                Ok(Desc::Offset(Box::new(args.remove(0)), n))
            },
            Err(x) => Err(x),
        }
    } else if is_text(op, "Scale") {
        if args.len() < 2 {
            return Err(LoadError::BadDescriptor);
        }
        assert(views[0] == said(args@[0]));
        assert(views[1] == said(args@[1]));
        match leaf_f32::<A>(&args[0]) {
            Ok(f) => Ok(Desc::Scale(f, Box::new(args.remove(1)))),
            Err(x) => Err(x),
        }
    } else if is_text(op, "Sum") {
        if args.len() < 2 {
            return Err(LoadError::BadDescriptor);
        }
        assert(views[0] == said(args@[0]));
        assert(views[1] == said(args@[1]));
        let b = args.remove(1);
        let a = args.remove(0);
        Ok(Desc::Sum(Box::new(a), Box::new(b)))
    } else if is_text(op, "Append") {
        let d = Desc::Append(args);
        assert(d@->Append_0 =~= views);
        Ok(d)
    } else if is_text(op, "ReplaceIndex") {
        if args.len() < 1 {
            return Err(LoadError::BadDescriptor);
        }
        assert(views[0] == said(args@[0]));
        Ok(Desc::ReplaceIndex(Box::new(args.remove(0))))
    } else if is_text(op, "IfDefined") {
        if args.len() < 1 {
            return Err(LoadError::BadDescriptor);
        }
        assert(views[0] == said(args@[0]));
        Ok(args.remove(0))
    } else {
        Err(LoadError::BadDescriptor)
    }
}

/// An expression and the place behind it, or the error that came instead.
spec fn placed(r: Result<(Desc, usize), LoadError>) -> Expr {
    match r {
        Ok((d, p)) => Ok((d@, p as nat)),
        Err(x) => Err(x),
    }
}

/// The expression that starts at token `pos`, and the place behind it.
fn parse_expr<A: Arith>(toks: &Vec<String>, pos: usize) -> (r: Result<(Desc, usize), LoadError>)
    requires
        pos <= toks@.len(),
    ensures
        reads_expr::<A>(texts(toks@), pos as nat, placed(r)),
        r matches Ok((d, p)) ==> pos < p <= toks@.len(),
    decreases toks@.len() - pos,
{
    let ghost ts = texts(toks@);
    let n: usize = toks.len();
    if pos >= n {
        return Err(LoadError::BadDescriptor);
    }
    assert(ts[pos as int] == toks@[pos as int]@);
    if !(op_name(&toks[pos]) && pos + 1 < n && is_text(&toks[pos + 1], "(")) {
        assert(pos + 1 < n ==> ts[pos + 1] == toks@[pos + 1]@);
        let name = toks[pos].clone();
        return Ok((Desc::Ref(name), pos + 1));
    }
    assert(ts[pos + 1] == toks@[pos + 1]@);
    let start: usize = pos + 2;
    let mut at: usize = start;
    let mut args: Vec<Desc> = Vec::new();
    proof {
        assert(said_all(args@) =~= Seq::empty());
        assert forall|rest: Args| #[trigger]
            reads_args::<A>(ts, start as nat, rest) implies reads_args::<A>(
            ts,
            start as nat,
            in_front(said_all(args@), rest),
        ) by {
            if let Ok((more, q)) = rest {
                assert(said_all(args@) + more =~= more);
            }
        }
    }
    loop
        invariant_except_break
            start <= at <= n,
            forall|rest: Args| #[trigger]
                reads_args::<A>(ts, at as nat, rest) ==> reads_args::<A>(
                    ts,
                    start as nat,
                    in_front(said_all(args@), rest),
                ),
        invariant
            n == toks@.len(),
            ts == texts(toks@),
            pos + 2 == start,
            opens(ts, pos as nat),
        ensures
            start <= at <= n,
            reads_args::<A>(
                ts,
                start as nat,
                Ok::<(Seq<DescView>, nat), LoadError>((said_all(args@), at as nat)),
            ),
        decreases n - at,
    {
        let ghost before = said_all(args@);
        let ghost none: Args = Err(LoadError::BadDescriptor);
        let (d, p) = match parse_expr::<A>(toks, at) {
            Ok(x) => x,
            Err(x) => {
                proof {
                    let bad: Expr = Err(x);
                    lemma_listed::<A>(ts, at as nat, bad, none);
                    lemma_call::<A>(ts, pos as nat, Err(x), bad);
                }
                return Err(x);
            },
        };
        let ghost first: Expr = Ok((d@, p as nat));
        args.push(d);
        assert(said_all(args@) =~= before.push(d@));
        if p < n && is_text(&toks[p], ",") {
            proof {
                assert(ts[p as int] == toks@[p as int]@);
                assert forall|rest: Args| #[trigger]
                    reads_args::<A>(ts, (p + 1) as nat, rest) implies reads_args::<A>(
                    ts,
                    start as nat,
                    in_front(said_all(args@), rest),
                ) by {
                    lemma_listed::<A>(ts, at as nat, first, rest);
                    if let Ok((more, q)) = rest {
                        assert(before + (seq![d@] + more) =~= said_all(args@) + more);
                    }
                }
            }
            at = p + 1;
        } else {
            proof {
                assert(p < n ==> ts[p as int] == toks@[p as int]@);
                lemma_listed::<A>(ts, at as nat, first, none);
                assert(before + seq![d@] =~= said_all(args@));
            }
            at = p;
            break;
        }
    }
    let ghost whole: Args = Ok((said_all(args@), at as nat));
    if at < n && is_text(&toks[at], ")") {
        assert(ts[at as int] == toks@[at as int]@);
        match build_op::<A>(&toks[pos], args) {
            Ok(d) => {
                proof {
                    lemma_call::<A>(ts, pos as nat, whole, Ok((d@, (at + 1) as nat)));
                }
                Ok((d, at + 1))
            },
            Err(x) => {
                proof {
                    lemma_call::<A>(ts, pos as nat, whole, Err(x));
                }
                Err(x)
            },
        }
    } else {
        proof {
            assert(at < n ==> ts[at as int] == toks@[at as int]@);
            lemma_call::<A>(ts, pos as nat, whole, Err(LoadError::BadDescriptor));
        }
        Err(LoadError::BadDescriptor)
    }
}

/// The expression that a text writes.
pub fn parse_desc<A: Arith>(cs: &[char]) -> (r: Result<Desc, LoadError>)
    ensures
        reads_desc::<A>(cs@, said_or(r)),
{
    let toks = tokenize(cs);
    match parse_expr::<A>(&toks, 0) {
        Ok((d, p)) => Ok(d),
        Err(x) => Err(x),
    }
}

} // verus!
