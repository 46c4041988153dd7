//! What the lines of a network's graph say.

use vstd::prelude::*;

use crate::components::LoadError;
use crate::descriptor::{reads_desc, DescView};
use crate::files::{first_at, lemma_first_at};
use crate::graph::{
    before_objective, gathered, graph_bytes, graph_read, line_dim, lines_read, reads_line,
    spec_input_dim, spec_kv, Line, NodeView,
};
use crate::scan::{ascii, first_match, law_first_match, occurs_at};
use crate::settings::{lacks, lemma_end_of_line, lemma_nothing_to_trim, visible};
use crate::single::Arith;
use crate::text::{
    after_word, first_word, is_digit, is_space, lemma_stretch, line_end, lines, spec_usize, stretch,
    trim_front, trimmed, without,
};
use crate::words::entry;
use crate::written::{digits, lemma_digits};

verus! {

/// A word: visible characters, at least one.
pub open spec fn is_word(t: Seq<char>) -> bool {
    t.len() > 0 && visible(t)
}

/// What follows a word: nothing, or a space and more.
pub open spec fn is_tail(t: Seq<char>) -> bool {
    t.len() == 0 || t[0] == ' '
}

proof fn lemma_first_word(w: Seq<char>, tail: Seq<char>)
    requires
        is_word(w),
        is_tail(tail),
    ensures
        first_word(w + tail) == Some(w),
{
    let s = w + tail;
    lemma_stretch(s, true);
    lemma_stretch(s, false);
    assert(s[0] == w[0]);
    assert(stretch(s, true) == 0);
    assert(s.skip(0) =~= s);
    let n = stretch(s, false) as int;
    if n < w.len() {
        assert(s[n] == w[n]);
    }
    if n > w.len() {
        assert(s[w.len() as int] == tail[0]);
        assert(is_space(s[w.len() as int]) == false);
    }
    assert(s.take(n) =~= w);
}

/// `s` holds `part` at `p` and not before.
proof fn lemma_found(s: Seq<char>, part: Seq<char>, p: int)
    requires
        part.len() > 0,
        occurs_at(s, part, p),
        forall|q: int| 0 <= q < p ==> !#[trigger] occurs_at(s, part, q),
    ensures
        first_match(s, part, 0) == Some(p as nat),
{
    law_first_match(s, part, 0);
}

/// A value is found behind its key: before the key, a space is followed by another character than
/// the key, or by a word that goes on otherwise.
proof fn lemma_kv(front: Seq<char>, key: Seq<char>, w: Seq<char>, tail: Seq<char>)
    requires
        key.len() > 0,
        is_word(w),
        is_tail(tail),
        forall|q: int|
            0 <= q <= front.len() ==> !#[trigger] occurs_at(
                seq![' '] + (front + (seq![' '] + key + seq!['=']) + w + tail),
                seq![' '] + key + seq!['='],
                q,
            ),
    ensures
        spec_kv(front + (seq![' '] + key + seq!['=']) + w + tail, key) == Some(w),
{
    let pat = seq![' '] + key + seq!['='];
    let rest = front + pat + w + tail;
    let l = seq![' '] + rest;
    let p = front.len() as int + 1;
    assert(l.subrange(p, p + pat.len()) =~= pat);
    lemma_found(l, pat, p);
    assert(l.skip(p + pat.len()) =~= w + tail);
    lemma_first_word(w, tail);
}

/// A part that begins with a space and then `a` does not stand where no space is, or where another
/// character follows it.
proof fn lemma_not_at(l: Seq<char>, part: Seq<char>, q: int)
    requires
        part.len() > 1,
        part[0] == ' ',
        0 <= q < l.len() - 1,
        l[q] != ' ' || l[q + 1] != part[1],
    ensures
        !occurs_at(l, part, q),
{
    if occurs_at(l, part, q) {
        let s = l.subrange(q, q + part.len());
        assert(s[0] == l[q] && s[1] == l[q + 1]);
    }
}

/// The line of an input: its name, and more.
pub open spec fn input_line(name: Seq<char>, tail: Seq<char>) -> Seq<char> {
    "input-node name="@ + name + tail
}

/// The line of some columns of another node.
pub open spec fn dim_range_line(
    name: Seq<char>,
    src: Seq<char>,
    off: Seq<char>,
    dim: Seq<char>,
) -> Seq<char> {
    "dim-range-node name="@ + name + " input-node="@ + src + " dim-offset="@ + off + " dim="@ + dim
}

/// The line of a component applied to an expression.
pub open spec fn component_line(name: Seq<char>, comp: Seq<char>, desc: Seq<char>) -> Seq<char> {
    "component-node name="@ + name + " component="@ + comp + " input="@ + desc
}

/// The line of an output: an expression, and, if `tail` is not empty, what it is trained for.
pub open spec fn output_line(name: Seq<char>, desc: Seq<char>, tail: Seq<char>) -> Seq<char> {
    "output-node name="@ + name + " input="@ + desc + tail
}

/// The line `input-node name=.. ` names an input.
pub proof fn law_input_line<A: Arith>(name: Seq<char>, tail: Seq<char>, r: Line)
    requires
        is_word(name),
        is_tail(tail),
        reads_line::<A>(input_line(name, tail), r),
    ensures
        r == Ok::<Option<(Seq<char>, NodeView)>, LoadError>(Some((name, NodeView::Input))),
{
    reveal_strlit("input-node name=");
    reveal_strlit("input-node");
    reveal_strlit("name");
    let line = input_line(name, tail);
    assert(line.subrange(0, 10) =~= "input-node"@);
    assert(occurs_at(line, "input-node"@, 0));
    let front = Seq::<char>::empty();
    let pat = seq![' '] + "name"@ + seq!['='];
    let rest = line.skip(10);
    assert(rest =~= front + pat + name + tail);
    let l = seq![' '] + (front + pat + name + tail);
    assert(l[0] == ' ' && l[1] == ' ');
    lemma_not_at(l, pat, 0);
    lemma_kv(front, "name"@, name, tail);
}

/// The line of some columns, behind its first word.
spec fn range_rest(
    name: Seq<char>,
    src: Seq<char>,
    off: Seq<char>,
    dim: Seq<char>,
) -> Seq<char> {
    " name="@ + name + " input-node="@ + src + " dim-offset="@ + off + " dim="@ + dim
}

/// Where the spaces stand, and what follows them.
proof fn lemma_spaces(name: Seq<char>, src: Seq<char>, off: Seq<char>, dim: Seq<char>, q: int)
    requires
        is_word(name),
        is_word(src),
        is_word(off),
        0 <= q < 31 + name.len() + src.len() + off.len(),
        (seq![' '] + range_rest(name, src, off, dim))[q] == ' ',
    ensures
        ({
            let l = seq![' '] + range_rest(name, src, off, dim);
            ||| q == 0 && l[1] == ' '
            ||| q == 1 && l[2] == 'n'
            ||| q == 7 + name.len() && l[q + 1] == 'i'
            ||| q == 19 + name.len() + src.len() && l[q + 1] == 'd' && l[q + 4] == '-'
        }),
{
    reveal_strlit(" name=");
    reveal_strlit(" input-node=");
    reveal_strlit(" dim-offset=");
    let l = seq![' '] + range_rest(name, src, off, dim);
    let (n, m, k) = (name.len() as int, src.len() as int, off.len() as int);
    if q > 0 {
        if q < 7 {
            assert(l[q] == " name="@[q - 1]);
        } else if q < 7 + n {
            assert(l[q] == name[q - 7]);
        } else if q < 19 + n {
            assert(l[q] == " input-node="@[q - 7 - n]);
        } else if q < 19 + n + m {
            assert(l[q] == src[q - 19 - n]);
        } else if q < 31 + n + m {
            assert(l[q] == " dim-offset="@[q - 19 - n - m]);
        } else {
            assert(l[q] == off[q - 31 - n - m]);
        }
    }
}

proof fn lemma_range_name(name: Seq<char>, src: Seq<char>, off: Seq<char>, dim: Seq<char>)
    requires
        is_word(name),
        is_word(src),
        is_word(off),
    ensures
        spec_kv(range_rest(name, src, off, dim), "name"@) == Some(name),
{
    reveal_strlit(" name=");
    reveal_strlit("name");
    reveal_strlit(" input-node=");
    let pat = seq![' '] + "name"@ + seq!['='];
    let front = Seq::<char>::empty();
    let tail = " input-node="@ + src + " dim-offset="@ + off + " dim="@ + dim;
    assert(range_rest(name, src, off, dim) =~= front + pat + name + tail);
    let l = seq![' '] + (front + pat + name + tail);
    assert(l[0] == ' ' && l[1] == ' ');
    lemma_not_at(l, pat, 0);
    assert(tail[0] == ' ');
    lemma_kv(front, "name"@, name, tail);
}

proof fn lemma_range_src(name: Seq<char>, src: Seq<char>, off: Seq<char>, dim: Seq<char>)
    requires
        is_word(name),
        is_word(src),
        is_word(off),
    ensures
        spec_kv(range_rest(name, src, off, dim), "input-node"@) == Some(src),
{
    reveal_strlit(" name=");
    reveal_strlit("input-node");
    reveal_strlit(" input-node=");
    reveal_strlit(" dim-offset=");
    let pat = seq![' '] + "input-node"@ + seq!['='];
    let front = " name="@ + name;
    let tail = " dim-offset="@ + off + " dim="@ + dim;
    assert(range_rest(name, src, off, dim) =~= front + pat + src + tail);
    let l = seq![' '] + (front + pat + src + tail);
    assert forall|q: int| 0 <= q <= front.len() implies !#[trigger] occurs_at(l, pat, q) by {
        if l[q] == ' ' {
            lemma_spaces(name, src, off, dim, q);
        }
        lemma_not_at(l, pat, q);
    }
    assert(tail[0] == ' ');
    lemma_kv(front, "input-node"@, src, tail);
}

proof fn lemma_range_off(name: Seq<char>, src: Seq<char>, off: Seq<char>, dim: Seq<char>)
    requires
        is_word(name),
        is_word(src),
        is_word(off),
    ensures
        spec_kv(range_rest(name, src, off, dim), "dim-offset"@) == Some(off),
{
    reveal_strlit(" name=");
    reveal_strlit("dim-offset");
    reveal_strlit(" input-node=");
    reveal_strlit(" dim-offset=");
    reveal_strlit(" dim=");
    let pat = seq![' '] + "dim-offset"@ + seq!['='];
    let front = " name="@ + name + " input-node="@ + src;
    let tail = " dim="@ + dim;
    assert(range_rest(name, src, off, dim) =~= front + pat + off + tail);
    let l = seq![' '] + (front + pat + off + tail);
    assert forall|q: int| 0 <= q <= front.len() implies !#[trigger] occurs_at(l, pat, q) by {
        if l[q] == ' ' {
            lemma_spaces(name, src, off, dim, q);
        }
        lemma_not_at(l, pat, q);
    }
    assert(tail[0] == ' ');
    lemma_kv(front, "dim-offset"@, off, tail);
}

proof fn lemma_range_dim(name: Seq<char>, src: Seq<char>, off: Seq<char>, dim: Seq<char>)
    requires
        is_word(name),
        is_word(src),
        is_word(off),
        is_word(dim),
    ensures
        spec_kv(range_rest(name, src, off, dim), "dim"@) == Some(dim),
{
    reveal_strlit(" name=");
    reveal_strlit("dim");
    reveal_strlit(" input-node=");
    reveal_strlit(" dim-offset=");
    reveal_strlit(" dim=");
    let pat = seq![' '] + "dim"@ + seq!['='];
    let front = " name="@ + name + " input-node="@ + src + " dim-offset="@ + off;
    let tail = Seq::<char>::empty();
    assert(range_rest(name, src, off, dim) =~= front + pat + dim + tail);
    let l = seq![' '] + (front + pat + dim + tail);
    assert forall|q: int| 0 <= q <= front.len() implies !#[trigger] occurs_at(l, pat, q) by {
        if l[q] == ' ' {
            lemma_spaces(name, src, off, dim, q);
        }
        if q == 19 + name.len() + src.len() {
            if occurs_at(l, pat, q) {
                assert(l.subrange(q, q + 5)[4] == l[q + 4]);
                assert(pat[4] == '=');
                assert(l[q] == ' ');
            }
        } else {
            lemma_not_at(l, pat, q);
        }
    }
    lemma_kv(front, "dim"@, dim, tail);
}

/// The line `dim-range-node name=.. input-node=.. dim-offset=.. dim=..` names columns of another
/// node: the last two numbers say where they begin and how many there are.
pub proof fn law_dim_range_line<A: Arith>(
    name: Seq<char>,
    src: Seq<char>,
    off: Seq<char>,
    dim: Seq<char>,
    a: usize,
    b: usize,
    r: Line,
)
    requires
        is_word(name),
        is_word(src),
        is_word(off),
        is_word(dim),
        spec_usize(off) == Some(a),
        spec_usize(dim) == Some(b),
        reads_line::<A>(dim_range_line(name, src, off, dim), r),
    ensures
        r == Ok::<Option<(Seq<char>, NodeView)>, LoadError>(
            Some((name, NodeView::DimRange { src, off: a as nat, dim: b as nat })),
        ),
{
    let line = dim_range_line(name, src, off, dim);
    let rest = range_rest(name, src, off, dim);
    assert(line.skip(14) == rest && occurs_at(line, "dim-range-node"@, 0) && line[0] == 'd') by {
        reveal_strlit("dim-range-node name=");
        reveal_strlit("dim-range-node");
        reveal_strlit(" name=");
        assert(line.subrange(0, 14) =~= "dim-range-node"@);
        assert(line.skip(14) =~= rest);
    }
    assert(!occurs_at(line, "input-node"@, 0)) by {
        reveal_strlit("input-node");
        if occurs_at(line, "input-node"@, 0) {
            assert(line.subrange(0, 10)[0] == line[0]);
        }
    }
    lemma_range_name(name, src, off, dim);
    lemma_range_src(name, src, off, dim);
    lemma_range_off(name, src, off, dim);
    lemma_range_dim(name, src, off, dim);
}

/// A text without white space around it that goes on to the end of a line.
pub open spec fn is_expression(t: Seq<char>) -> bool {
    t.len() > 0 && !is_space(t[0]) && !is_space(t.last())
}

/// The line `component-node name=.. component=.. input=..` names a component applied to what the
/// expression says.
pub proof fn law_component_line<A: Arith>(
    name: Seq<char>,
    comp: Seq<char>,
    desc: Seq<char>,
    r: Line,
)
    requires
        is_word(name),
        is_word(comp),
        lacks(name, "input="@),
        lacks(comp, "input="@),
        is_expression(desc),
        reads_line::<A>(component_line(name, comp, desc), r),
    ensures
        match r {
            Ok(node) => exists|d: DescView| #[trigger]
                reads_desc::<A>(desc, Ok(d)) && node == Some(
                    (name, NodeView::Component { comp, desc: d }),
                ),
            Err(x) => reads_desc::<A>(desc, Err(x)),
        },
{
    reveal_strlit("component-node name=");
    reveal_strlit("component-node");
    reveal_strlit("input-node");
    reveal_strlit("dim-range-node");
    reveal_strlit(" component=");
    reveal_strlit(" input=");
    reveal_strlit("input=");
    reveal_strlit("name");
    reveal_strlit("component");
    let line = component_line(name, comp, desc);
    assert(line.subrange(0, 14) =~= "component-node"@);
    assert(occurs_at(line, "component-node"@, 0));
    assert(line[0] == 'c');
    assert(!occurs_at(line, "input-node"@, 0)) by {
        if occurs_at(line, "input-node"@, 0) {
            assert(line.subrange(0, 10)[0] == line[0]);
        }
    }
    assert(!occurs_at(line, "dim-range-node"@, 0)) by {
        if occurs_at(line, "dim-range-node"@, 0) {
            assert(line.subrange(0, 14)[0] == line[0]);
        }
    }
    let rest = line.skip(14);
    let none = Seq::<char>::empty();
    let p1 = seq![' '] + "name"@ + seq!['='];
    let p2 = seq![' '] + "component"@ + seq!['='];
    assert(p2 =~= " component="@);
    let f2 = p1 + name;
    let t2 = " input="@ + desc;
    let t1 = p2 + comp + t2;
    let l = seq![' '] + rest;
    assert(rest =~= none + p1 + name + t1);
    assert(rest =~= f2 + p2 + comp + t2);
    let (n, m) = (name.len() as int, comp.len() as int);
    assert(l[1] == ' ' && l[2] == 'n');
    assert forall|q: int| 0 <= q <= none.len() implies !#[trigger] occurs_at(l, p1, q) by {
        lemma_not_at(l, p1, q);
    }
    assert forall|q: int| 0 <= q <= f2.len() implies !#[trigger] occurs_at(l, p2, q) by {
        if 7 <= q < 7 + n {
            assert(l[q] == name[q - 7]);
        }
        lemma_not_at(l, p2, q);
    }
    lemma_kv(none, "name"@, name, t1);
    lemma_kv(f2, "component"@, comp, t2);
    // the expression
    let head = "component-node name="@ + name + " component="@ + comp + seq![' '];
    assert(line =~= head + "input="@ + desc);
    let p = head.len() as int;
    assert forall|q: int| 0 <= q < p implies !#[trigger] occurs_at(line, "input="@, q) by {
        if occurs_at(line, "input="@, q) {
            let s = line.subrange(q, q + 6);
            assert(s[0] == line[q] && s[1] == line[q + 1] && s[2] == line[q + 2]);
            assert(s[3] == line[q + 3] && s[4] == line[q + 4] && s[5] == line[q + 5]);
            if 20 <= q < 20 + n {
                assert(line[20 + n] == ' ');
                assert(q + 6 <= 20 + n);
                assert(name.subrange(q - 20, q - 20 + 6) =~= s);
            } else if 31 + n <= q < 31 + n + m {
                assert(line[31 + n + m] == ' ');
                assert(q + 6 <= 31 + n + m);
                assert(comp.subrange(q - 31 - n, q - 31 - n + 6) =~= s);
            } else if q < 20 {
                assert(line[q] == "component-node name="@[q]);
            } else if q < 31 + n {
                assert(line[q] == " component="@[q - 20 - n]);
            }
        }
    }
    assert(line.subrange(p, p + 6) =~= "input="@);
    lemma_found(line, "input="@, p);
    assert(line.skip(p + 6) =~= desc);
    lemma_nothing_to_trim(desc);
}

/// The line `output-node name=.. input=..` names what the expression says; what may follow from
/// ` objective=` on is no part of it.
pub proof fn law_output_line<A: Arith>(
    name: Seq<char>,
    desc: Seq<char>,
    tail: Seq<char>,
    r: Line,
)
    requires
        is_word(name),
        lacks(name, "input="@),
        is_expression(desc),
        lacks(desc + " objective"@, " objective="@),
        tail.len() == 0 || occurs_at(tail, " objective="@, 0),
        reads_line::<A>(output_line(name, desc, tail), r),
    ensures
        match r {
            Ok(node) => exists|d: DescView| #[trigger]
                reads_desc::<A>(desc, Ok(d)) && node == Some((name, NodeView::Output { desc: d })),
            Err(x) => reads_desc::<A>(desc, Err(x)),
        },
{
    reveal_strlit("output-node name=");
    reveal_strlit("output-node");
    reveal_strlit("component-node");
    reveal_strlit("input-node");
    reveal_strlit("dim-range-node");
    reveal_strlit(" input=");
    reveal_strlit("input=");
    reveal_strlit("name");
    reveal_strlit(" objective=");
    reveal_strlit(" objective");
    let line = output_line(name, desc, tail);
    assert(line.subrange(0, 11) =~= "output-node"@);
    assert(occurs_at(line, "output-node"@, 0));
    assert(line[0] == 'o');
    assert(!occurs_at(line, "input-node"@, 0)) by {
        if occurs_at(line, "input-node"@, 0) {
            assert(line.subrange(0, 10)[0] == line[0]);
        }
    }
    assert(!occurs_at(line, "dim-range-node"@, 0)) by {
        if occurs_at(line, "dim-range-node"@, 0) {
            assert(line.subrange(0, 14)[0] == line[0]);
        }
    }
    assert(!occurs_at(line, "component-node"@, 0)) by {
        if occurs_at(line, "component-node"@, 0) {
            assert(line.subrange(0, 14)[0] == line[0]);
        }
    }
    let rest = line.skip(11);
    let none = Seq::<char>::empty();
    let p1 = seq![' '] + "name"@ + seq!['='];
    let t1 = " input="@ + desc + tail;
    let l = seq![' '] + rest;
    assert(rest =~= none + p1 + name + t1);
    let n = name.len() as int;
    assert(l[1] == ' ');
    assert forall|q: int| 0 <= q <= none.len() implies !#[trigger] occurs_at(l, p1, q) by {
        lemma_not_at(l, p1, q);
    }
    lemma_kv(none, "name"@, name, t1);
    let head = "output-node name="@ + name + seq![' '];
    let input = desc + tail;
    assert(line =~= head + "input="@ + input);
    let p = head.len() as int;
    assert forall|q: int| 0 <= q < p implies !#[trigger] occurs_at(line, "input="@, q) by {
        if occurs_at(line, "input="@, q) {
            let s = line.subrange(q, q + 6);
            assert(s[0] == line[q] && s[1] == line[q + 1] && s[2] == line[q + 2]);
            assert(s[3] == line[q + 3] && s[4] == line[q + 4] && s[5] == line[q + 5]);
            if 17 <= q < 17 + n {
                assert(line[17 + n] == ' ');
                assert(q + 6 <= 17 + n);
                assert(name.subrange(q - 17, q - 17 + 6) =~= s);
            } else if q < 17 {
                assert(line[q] == "output-node name="@[q]);
            }
        }
    }
    assert(line.subrange(p, p + 6) =~= "input="@);
    lemma_found(line, "input="@, p);
    assert(line.skip(p + 6) =~= input);
    lemma_objective(desc, tail);
    lemma_nothing_to_trim(desc);
}

proof fn lemma_objective(desc: Seq<char>, tail: Seq<char>)
    requires
        lacks(desc + " objective"@, " objective="@),
        tail.len() == 0 || occurs_at(tail, " objective="@, 0),
    ensures
        before_objective(desc + tail) == desc,
{
    reveal_strlit(" objective=");
    reveal_strlit(" objective");
    let (s, part, wide) = (desc + tail, " objective="@, desc + " objective"@);
    law_first_match(s, part, 0);
    let d = desc.len() as int;
    assert forall|q: int| 0 <= q < d implies !#[trigger] occurs_at(s, part, q) by {
        if occurs_at(s, part, q) {
            let w = s.subrange(q, q + 11);
            assert forall|i: int| 0 <= i < 11 implies wide.subrange(q, q + 11)[i] == part[i] by {
                assert(w[i] == part[i]);
                if q + i >= d {
                    assert(tail.subrange(0, 11)[q + i - d] == part[q + i - d]);
                    assert(s[q + i] == tail[q + i - d]);
                }
            }
            assert(wide.subrange(q, q + 11) =~= part);
        }
    }
    if tail.len() == 0 {
        assert(s =~= desc);
        if let Some(q) = first_match(s, part, 0) {
            assert(occurs_at(s, part, q as int));
        }
    } else {
        assert(s.subrange(d, d + 11) =~= tail.subrange(0, 11));
        lemma_found(s, part, d);
        assert(s.take(d) =~= desc);
    }
}

/// The lines of a text, put one after the other with a newline between them, are the text, and no
/// line has a newline in it.
pub proof fn law_lines(s: Seq<char>)
    ensures
        joined(lines(s)) == s,
        lines(s).len() > 0,
        forall|i: int, j: int|
            0 <= i < lines(s).len() && 0 <= j < lines(s)[i].len() ==> #[trigger] lines(s)[i][j]
                != '\n',
    decreases s.len(),
{
    lemma_end_of_line(s);
    let n = line_end(s) as int;
    if n >= s.len() {
        assert(lines(s) == seq![s]);
        assert(seq![s].drop_first() =~= Seq::<Seq<char>>::empty());
        assert(joined(lines(s)) =~= s);
    } else {
        let rest = s.skip(n + 1);
        law_lines(rest);
        let all = seq![s.take(n)] + lines(rest);
        assert(lines(s) == all);
        assert(all.drop_first() =~= lines(rest));
        assert(joined(all) =~= s);
        assert forall|i: int, j: int|
            0 <= i < all.len() && 0 <= j < all[i].len() implies #[trigger] all[i][j] != '\n' by {
            if i > 0 {
                assert(all[i] == lines(rest)[i - 1]);
                assert(lines(rest)[i - 1][j] != '\n');
            }
        }
    }
}

/// Lines with a newline between each two.
pub open spec fn joined(ls: Seq<Seq<char>>) -> Seq<char>
    decreases ls.len(),
{
    if ls.len() == 0 {
        Seq::empty()
    } else if ls.len() == 1 {
        ls[0]
    } else {
        ls[0] + seq!['\n'] + joined(ls.drop_first())
    }
}

/// Every node of a graph is what some line says, and what a line says is in the graph unless a
/// later line says otherwise of the same name.
pub proof fn law_nodes<A: Arith>(text: Seq<char>, m: Map<Seq<char>, NodeView>) -> (rs: Seq<Line>)
    requires
        graph_read::<A>(text, Ok(m)),
    ensures
        rs.len() == lines(text).len(),
        forall|i: int| 0 <= i < rs.len() ==> reads_line::<A>(trimmed(lines(text)[i]), #[trigger] rs[i]),
        forall|i: int| 0 <= i < rs.len() ==> (#[trigger] rs[i]) is Ok,
        forall|i: int| #![trigger rs[i]]
            0 <= i < rs.len() ==> (rs[i] matches Ok(Some((name, node))) ==> m.contains_key(name) && (
            m[name] == node || exists|j: int|
                i < j < rs.len() && (#[trigger] rs[j] matches Ok(Some((other, _))) && other
                    == name))),
        forall|name: Seq<char>| #[trigger]
            m.contains_key(name) ==> exists|i: int|
                0 <= i < rs.len() && #[trigger] rs[i] == Ok::<
                    Option<(Seq<char>, NodeView)>,
                    LoadError,
                >(Some((name, m[name]))),
{
    let rs = choose|rs: Seq<Line>| #[trigger]
        lines_read::<A>(lines(text), rs) && rs.len() == lines(text).len()
            && crate::graph::all_fine(rs) && m == gathered(rs);
    lemma_gathered(rs);
    rs
}

proof fn lemma_gathered(rs: Seq<Line>)
    ensures
        forall|i: int| #![trigger rs[i]]
            0 <= i < rs.len() ==> (rs[i] matches Ok(Some((name, node))) ==> gathered(rs).contains_key(
                name,
            ) && (gathered(rs)[name] == node || exists|j: int|
                i < j < rs.len() && (#[trigger] rs[j] matches Ok(Some((other, _))) && other
                    == name))),
        forall|name: Seq<char>| #[trigger]
            gathered(rs).contains_key(name) ==> exists|i: int|
                0 <= i < rs.len() && #[trigger] rs[i] == Ok::<
                    Option<(Seq<char>, NodeView)>,
                    LoadError,
                >(Some((name, gathered(rs)[name]))),
    decreases rs.len(),
{
    if rs.len() > 0 {
        let front = rs.drop_last();
        let n = rs.len() - 1;
        lemma_gathered(front);
        assert(rs[n] == rs.last());
        assert forall|i: int| #![trigger rs[i]] 0 <= i < rs.len() implies (rs[i] matches Ok(
            Some((name, node)),
        ) ==> gathered(rs).contains_key(name) && (gathered(rs)[name] == node || exists|j: int|
            i < j < rs.len() && (#[trigger] rs[j] matches Ok(Some((other, _))) && other
                == name))) by {
            if i < n {
                assert(front[i] == rs[i]);
                if let Ok(Some((name, node))) = rs[i] {
                    if gathered(front)[name] != node {
                        let j = choose|j: int|
                            i < j < front.len() && (#[trigger] front[j] matches Ok(
                                Some((other, _)),
                            ) && other == name);
                        assert(rs[j] == front[j]);
                    } else if let Ok(Some((other, x))) = rs[n] {
                        if other == name {
                            assert(i < n < rs.len());
                        }
                    }
                }
            }
        }
        assert forall|name: Seq<char>| #[trigger] gathered(rs).contains_key(name) implies exists|
            i: int,
        |
            0 <= i < rs.len() && #[trigger] rs[i] == Ok::<
                Option<(Seq<char>, NodeView)>,
                LoadError,
            >(Some((name, gathered(rs)[name]))) by {
            let last = match rs[n] {
                Ok(Some((other, x))) => other == name,
                _ => false,
            };
            if !last {
                assert(gathered(front).contains_key(name));
                let i = choose|i: int|
                    0 <= i < front.len() && #[trigger] front[i] == Ok::<
                        Option<(Seq<char>, NodeView)>,
                        LoadError,
                    >(Some((name, gathered(front)[name])));
                assert(rs[i] == front[i]);
            }
        }
    }
}

/// A count in decimal digits is read as the count.
pub proof fn law_count(n: usize)
    ensures
        spec_usize(digits(n as nat)) == Some(n),
{
    lemma_digits(n as nat);
    let s = digits(n as nat);
    assert(is_digit(s[0]));
    assert(without(s, '+') == s);
}

/// A count may have a plus in front of it, but no minus, and there is none in no text.
pub proof fn law_signed_count(n: usize)
    ensures
        spec_usize(seq!['+'] + digits(n as nat)) == Some(n),
        spec_usize(seq!['-'] + digits(n as nat)) is None,
        spec_usize(Seq::<char>::empty()) is None,
{
    let d = digits(n as nat);
    lemma_digits(n as nat);
    let (a, b) = (seq!['+'] + d, seq!['-'] + d);
    assert(a.skip(1) =~= d);
    assert(without(a, '+') == d);
    assert(without(b, '+') == b);
    assert(b[0] == '-' && !is_digit(b[0]));
    assert(without(Seq::<char>::empty(), '+').len() == 0);
}

/// The columns of an input are the number behind ` dim=` in its line.
pub proof fn law_dim_line(name: Seq<char>, dim: Seq<char>, n: usize)
    requires
        is_word(name),
        is_word(dim),
        spec_usize(dim) == Some(n),
    ensures
        line_dim(input_line(name, " dim="@ + dim), name) == Some(n),
{
    reveal_strlit("input-node name=");
    reveal_strlit("input-node");
    reveal_strlit("name");
    reveal_strlit("dim");
    reveal_strlit(" dim=");
    let tail = " dim="@ + dim;
    let line = input_line(name, tail);
    assert(line.subrange(0, 10) =~= "input-node"@);
    let none = Seq::<char>::empty();
    let p1 = seq![' '] + "name"@ + seq!['='];
    let p2 = seq![' '] + "dim"@ + seq!['='];
    let rest = line.skip(10);
    let f2 = p1 + name;
    assert(rest =~= none + p1 + name + tail);
    assert(rest =~= f2 + p2 + dim + none);
    let l = seq![' '] + rest;
    assert(l[0] == ' ' && l[1] == ' ' && l[2] == 'n');
    lemma_not_at(l, p1, 0);
    assert forall|q: int| 0 <= q <= f2.len() implies !#[trigger] occurs_at(l, p2, q) by {
        if 7 <= q < 7 + name.len() {
            assert(l[q] == name[q - 7]);
        }
        lemma_not_at(l, p2, q);
    }
    lemma_kv(none, "name"@, name, tail);
    lemma_kv(f2, "dim"@, dim, none);
}

/// The last line that gives an input its columns counts, and without such a line there are none.
pub proof fn law_last_dim(ls: Seq<Seq<char>>, name: Seq<char>, k: nat, i: int, n: usize)
    requires
        k <= ls.len(),
        -1 <= i < k,
        i >= 0 ==> line_dim(trimmed(ls[i]), name) == Some(n),
        forall|j: int| i < j < k ==> line_dim(trimmed(#[trigger] ls[j]), name) is None,
    ensures
        spec_input_dim(ls, name, k) == (if i >= 0 {
            n
        } else {
            0
        }),
    decreases k,
{
    if k > 0 {
        if i < k - 1 {
            assert(line_dim(trimmed(ls[k - 1]), name) is None);
            law_last_dim(ls, name, (k - 1) as nat, i, n);
        }
    }
}

/// The graph of a network stands in its file from the first `<Nnet3>` up to the first
/// `<NumComponents>`.
pub proof fn law_graph_part(buf: Seq<u8>, p: int, q: int)
    requires
        first_at(buf, ascii("<Nnet3>"@), p),
        first_at(buf, ascii("<NumComponents>"@), q),
        p <= q,
    ensures
        graph_bytes(buf) == Some(buf.subrange(p, q)),
{
    reveal_strlit("<Nnet3>");
    reveal_strlit("<NumComponents>");
    lemma_first_at(buf, ascii("<Nnet3>"@), p);
    lemma_first_at(buf, ascii("<NumComponents>"@), q);
}

/// A line of a word table, a word and a count with a space between them, puts the word under the
/// count.
pub proof fn law_word_line(w: Seq<char>, n: usize, tail: Seq<char>)
    requires
        is_word(w),
        is_tail(tail),
    ensures
        entry(w + seq![' '] + digits(n as nat) + tail) == Some((w, n)),
{
    let d = digits(n as nat);
    lemma_digits(n as nat);
    law_count(n);
    assert forall|i: int| 0 <= i < d.len() implies '!' <= #[trigger] d[i] <= '~' by {
        assert(is_digit(d[i]));
    }
    let line = w + seq![' '] + d + tail;
    let rest = seq![' '] + (d + tail);
    assert(line =~= w + rest);
    lemma_first_word(w, rest);
    lemma_stretch(line, true);
    lemma_stretch(line, false);
    assert(line[0] == w[0]);
    assert(line.skip(0) =~= line);
    let k = stretch(line, false) as int;
    assert(line.take(k) == w);
    assert(k == w.len());
    assert(after_word(line) =~= rest);
    lemma_first_word(d, tail);
    lemma_stretch(rest, true);
    assert(rest[1] == d[0]);
    assert(stretch(rest, true) == 1) by {
        let m = stretch(rest, true) as int;
        if m == 0 {
            assert(is_space(rest[0]));
        }
        if m > 1 {
            assert(is_space(rest[1]));
        }
    }
    assert(rest.skip(1) =~= d + tail);
    lemma_stretch(d + tail, true);
    assert((d + tail)[0] == d[0]);
    assert((d + tail).skip(0) =~= d + tail);
    assert(trim_front(rest) == trim_front(d + tail));
}

/// A line of a word table whose second word is no count puts its word under 0, and a line with
/// fewer than two words puts none anywhere.
pub proof fn law_odd_word_line(w: Seq<char>, x: Seq<char>, tail: Seq<char>)
    requires
        is_word(w),
        is_word(x),
        is_tail(tail),
        x[0] != '+',
        exists|i: int| 0 <= i < x.len() && !('0' <= #[trigger] x[i] <= '9'),
    ensures
        entry(w + seq![' '] + x + tail) == Some((w, 0usize)),
        entry(w) is None,
        entry(Seq::<char>::empty()) is None,
{
    lemma_two_words(w, x, tail);
    assert(without(x, '+') == x);
    let i = choose|i: int| 0 <= i < x.len() && !('0' <= #[trigger] x[i] <= '9');
    assert(!is_digit(x[i]));
    assert(spec_usize(x) is None);
    let none = Seq::<char>::empty();
    assert(w + none =~= w);
    lemma_first_word(w, none);
    lemma_stretch(w, true);
    lemma_stretch(w, false);
    assert(w.skip(0) =~= w);
    assert(after_word(w) =~= none);
    lemma_stretch(none, true);
    assert(none.skip(0) =~= none);
}

proof fn lemma_two_words(w: Seq<char>, x: Seq<char>, tail: Seq<char>)
    requires
        is_word(w),
        is_word(x),
        is_tail(tail),
    ensures
        first_word(w + seq![' '] + x + tail) == Some(w),
        first_word(after_word(w + seq![' '] + x + tail)) == Some(x),
{
    let line = w + seq![' '] + x + tail;
    let rest = seq![' '] + (x + tail);
    assert(line =~= w + rest);
    lemma_first_word(w, rest);
    lemma_stretch(line, true);
    lemma_stretch(line, false);
    assert(line[0] == w[0]);
    assert(line.skip(0) =~= line);
    let k = stretch(line, false) as int;
    assert(line.take(k) == w);
    assert(k == w.len());
    assert(after_word(line) =~= rest);
    lemma_first_word(x, tail);
    lemma_stretch(rest, true);
    assert(rest[1] == x[0]);
    assert(stretch(rest, true) == 1) by {
        let m = stretch(rest, true) as int;
        if m == 0 {
            assert(is_space(rest[0]));
        }
        if m > 1 {
            assert(is_space(rest[1]));
        }
    }
    assert(rest.skip(1) =~= x + tail);
    lemma_stretch(x + tail, true);
    assert((x + tail)[0] == x[0]);
    assert((x + tail).skip(0) =~= x + tail);
    assert(trim_front(rest) == trim_front(x + tail));
}

/// `line` begins with `word`.
pub open spec fn begins(line: Seq<char>, word: Seq<char>) -> bool {
    word.len() <= line.len() && line.take(word.len() as int) == word
}

/// A line that begins with none of the four words for nodes says nothing.
pub proof fn law_other_line<A: Arith>(line: Seq<char>, r: Line)
    requires
        reads_line::<A>(line, r),
        !begins(line, "input-node"@),
        !begins(line, "dim-range-node"@),
        !begins(line, "component-node"@),
        !begins(line, "output-node"@),
    ensures
        r == Ok::<Option<(Seq<char>, NodeView)>, LoadError>(None),
{
    assert(line.subrange(0, "input-node"@.len() as int) == line.take("input-node"@.len() as int));
    assert(line.subrange(0, "dim-range-node"@.len() as int) == line.take(
        "dim-range-node"@.len() as int,
    ));
    assert(line.subrange(0, "component-node"@.len() as int) == line.take(
        "component-node"@.len() as int,
    ));
    assert(line.subrange(0, "output-node"@.len() as int) == line.take("output-node"@.len() as int));
}

/// A line of a node that gives no name is refused.
pub proof fn law_nameless_line<A: Arith>(line: Seq<char>, r: Line)
    requires
        reads_line::<A>(line, r),
        begins(line, "input-node"@) || begins(line, "dim-range-node"@) || begins(
            line,
            "component-node"@,
        ) || begins(line, "output-node"@),
        lacks(line, " name="@),
        lacks(line, "nodename="@),
    ensures
        r == Err::<Option<(Seq<char>, NodeView)>, LoadError>(LoadError::MissingValue),
{
    reveal_strlit("input-node");
    reveal_strlit("dim-range-node");
    reveal_strlit("component-node");
    reveal_strlit("output-node");
    reveal_strlit("name");
    reveal_strlit(" name=");
    reveal_strlit("nodename=");
    let words = seq!["input-node"@, "dim-range-node"@, "component-node"@, "output-node"@];
    assert forall|i: int| 0 <= i < 4 && begins(line, #[trigger] words[i]) implies spec_kv(
        line.skip(words[i].len() as int),
        "name"@,
    ) is None by {
        let n = words[i].len() as int;
        let pat = seq![' '] + "name"@ + seq!['='];
        assert(pat =~= " name="@);
        let rest = line.skip(n);
        let l = seq![' '] + rest;
        law_first_match(l, pat, 0);
        if let Some(q) = first_match(l, pat, 0) {
            assert(occurs_at(l, pat, q as int));
            let s = l.subrange(q as int, q as int + 6);
            if q > 0 {
                let a = n + q - 1;
                assert(line.subrange(a, a + " name="@.len()) =~= s);
                assert(line.subrange(a, a + " name="@.len()) == " name="@);
            } else {
                let a = n - 4;
                let t = line.subrange(a, a + "nodename="@.len());
                assert forall|j: int| 0 <= j < 9 implies t[j] == "nodename="@[j] by {
                    if j < 4 {
                        assert(line.take(n)[n - 4 + j] == words[i][n - 4 + j]);
                    } else {
                        assert(s[j - 3] == pat[j - 3]);
                        assert(l[j - 3] == rest[j - 4]);
                    }
                }
                assert(t =~= "nodename="@);
            }
        }
    }
    assert(line.subrange(0, 10) == line.take(10) && line.subrange(0, 14) == line.take(14)
        && line.subrange(0, 11) == line.take(11));
    assert(words[0] == "input-node"@ && words[1] == "dim-range-node"@ && words[2]
        == "component-node"@ && words[3] == "output-node"@);
}

/// White space are the characters that Unicode calls so.
pub proof fn law_white_space(c: char)
    ensures
        is_space(c) <==> seq![
            '\t',
            '\n',
            '\u{b}',
            '\u{c}',
            '\r',
            ' ',
            '\u{85}',
            '\u{a0}',
            '\u{1680}',
            '\u{2000}',
            '\u{2001}',
            '\u{2002}',
            '\u{2003}',
            '\u{2004}',
            '\u{2005}',
            '\u{2006}',
            '\u{2007}',
            '\u{2008}',
            '\u{2009}',
            '\u{200a}',
            '\u{2028}',
            '\u{2029}',
            '\u{202f}',
            '\u{205f}',
            '\u{3000}',
        ].contains(c),
{
    let all = seq![
        '\t',
        '\n',
        '\u{b}',
        '\u{c}',
        '\r',
        ' ',
        '\u{85}',
        '\u{a0}',
        '\u{1680}',
        '\u{2000}',
        '\u{2001}',
        '\u{2002}',
        '\u{2003}',
        '\u{2004}',
        '\u{2005}',
        '\u{2006}',
        '\u{2007}',
        '\u{2008}',
        '\u{2009}',
        '\u{200a}',
        '\u{2028}',
        '\u{2029}',
        '\u{202f}',
        '\u{205f}',
        '\u{3000}',
    ];
    if is_space(c) {
        let k = c as int;
        let i: int = if k <= 0xd {
            k - 9
        } else if k == 0x20 {
            5
        } else if k == 0x85 {
            6
        } else if k == 0xa0 {
            7
        } else if k == 0x1680 {
            8
        } else if k <= 0x200a {
            9 + (k - 0x2000)
        } else if k == 0x2028 {
            20
        } else if k == 0x2029 {
            21
        } else if k == 0x202f {
            22
        } else if k == 0x205f {
            23
        } else {
            24
        };
        assert(all[i] == c);
    }
}

} // verus!
