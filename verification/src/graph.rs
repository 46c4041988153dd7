//! The graph of a network: its nodes, as the text in `final.mdl` names them.

use vstd::prelude::*;
use vstd::slice::slice_subrange;
use vstd::utf8::{decode_utf8, valid_utf8};

use crate::components::LoadError;
use crate::descriptor::{parse_desc, reads_desc, Desc, DescView};
use crate::scan::{
    ascii, begins_with, find, find_text, first_match, law_first_match, literal, occurs_at,
};
use crate::single::Arith;
use crate::table::Table;
use crate::text::{
    chars_of, first_word, is_text, lines, parse_usize, spec_usize, split_lines, split_word,
    string_of, trim, trimmed,
};

verus! {

/// One node of a network.
#[derive(Debug)]
pub enum Node {
    /// A matrix from outside.
    Input,
    /// Some columns of another node.
    DimRange { src: String, off: usize, dim: usize },
    /// A component applied to an expression.
    Component { comp: String, desc: Desc },
    /// An expression.
    Output { desc: Desc },
}

/// What a node says.
pub ghost enum NodeView {
    Input,
    DimRange { src: Seq<char>, off: nat, dim: nat },
    Component { comp: Seq<char>, desc: DescView },
    Output { desc: DescView },
}

impl View for Node {
    type V = NodeView;

    open spec fn view(&self) -> NodeView {
        match self {
            Node::Input => NodeView::Input,
            Node::DimRange { src, off, dim } => NodeView::DimRange {
                src: src@,
                off: *off as nat,
                dim: *dim as nat,
            },
            Node::Component { comp, desc } => NodeView::Component { comp: comp@, desc: desc@ },
            Node::Output { desc } => NodeView::Output { desc: desc@ },
        }
    }
}

/// The word behind ` key=` in a line.
pub open spec fn spec_kv(line: Seq<char>, key: Seq<char>) -> Option<Seq<char>> {
    let pat = seq![' '] + key + seq!['='];
    let l = seq![' '] + line;
    match first_match(l, pat, 0) {
        Some(i) => first_word(l.skip((i + pat.len()) as int)),
        None => None,
    }
}

/// What stands behind the first `input=` of a line.
pub open spec fn spec_input(line: Seq<char>) -> Option<Seq<char>> {
    match first_match(line, "input="@, 0) {
        Some(i) => Some(line.skip(i as int + 6)),
        None => None,
    }
}

/// What stands in front of ` objective=`.
pub open spec fn before_objective(s: Seq<char>) -> Seq<char> {
    match first_match(s, " objective="@, 0) {
        Some(i) => s.take(i as int),
        None => s,
    }
}

/// A node under its name, or none where a line says nothing of nodes.
pub type Line = Result<Option<(Seq<char>, NodeView)>, LoadError>;

/// A value that a line lacks.
pub open spec fn missing() -> Line {
    Err(LoadError::MissingValue)
}

/// The input node in the rest of a line.
pub open spec fn spec_input_node(rest: Seq<char>) -> Line {
    match spec_kv(rest, "name"@) {
        None => missing(),
        Some(name) => Ok(Some((name, NodeView::Input))),
    }
}

/// The number behind ` key=`.
pub open spec fn spec_number(rest: Seq<char>, key: Seq<char>) -> Result<usize, LoadError> {
    match spec_kv(rest, key) {
        None => Err(LoadError::MissingValue),
        Some(w) => match spec_usize(w) {
            None => Err(LoadError::BadNumber),
            Some(n) => Ok(n),
        },
    }
}

/// The node that takes columns of another, in the rest of a line.
pub open spec fn spec_dim_range(rest: Seq<char>) -> Line {
    match spec_kv(rest, "name"@) {
        None => Err(LoadError::MissingValue),
        Some(name) => match spec_kv(rest, "input-node"@) {
            None => Err(LoadError::MissingValue),
            Some(src) => match spec_number(rest, "dim-offset"@) {
                Err(x) => Err(x),
                Ok(off) => match spec_number(rest, "dim"@) {
                    Err(x) => Err(x),
                    Ok(dim) => Ok(
                        Some((name, NodeView::DimRange { src, off: off as nat, dim: dim as nat })),
                    ),
                },
            },
        },
    }
}

/// `r` is the node that applies a component, in a line and its rest.
pub open spec fn reads_component_node<A: Arith>(
    line: Seq<char>,
    rest: Seq<char>,
    r: Line,
) -> bool {
    match (spec_kv(rest, "name"@), spec_kv(rest, "component"@), spec_input(line)) {
        (Some(name), Some(comp), Some(input)) => match r {
            Ok(Some((n, NodeView::Component { comp: c, desc }))) => n == name && c == comp
                && reads_desc::<A>(trimmed(input), Ok(desc)),
            Ok(other) => false,
            Err(x) => reads_desc::<A>(trimmed(input), Err(x)),
        },
        _ => r == missing(),
    }
}

/// `r` is the output node in a line and its rest.
pub open spec fn reads_output_node<A: Arith>(line: Seq<char>, rest: Seq<char>, r: Line) -> bool {
    match (spec_kv(rest, "name"@), spec_input(line)) {
        (Some(name), Some(input)) => match r {
            Ok(Some((n, NodeView::Output { desc }))) => n == name && reads_desc::<A>(
                trimmed(before_objective(input)),
                Ok(desc),
            ),
            Ok(other) => false,
            Err(x) => reads_desc::<A>(trimmed(before_objective(input)), Err(x)),
        },
        _ => r == missing(),
    }
}

/// `r` is the node of a line without white space around it.
pub open spec fn reads_line<A: Arith>(line: Seq<char>, r: Line) -> bool {
    if occurs_at(line, "input-node"@, 0) {
        r == spec_input_node(line.skip(10))
    } else if occurs_at(line, "dim-range-node"@, 0) {
        r == spec_dim_range(line.skip(14))
    } else if occurs_at(line, "component-node"@, 0) {
        reads_component_node::<A>(line, line.skip(14), r)
    } else if occurs_at(line, "output-node"@, 0) {
        reads_output_node::<A>(line, line.skip(11), r)
    } else {
        r == Ok::<Option<(Seq<char>, NodeView)>, LoadError>(None)
    }
}

/// `rs` is what the first lines say, one by one.
pub open spec fn lines_read<A: Arith>(ls: Seq<Seq<char>>, rs: Seq<Line>) -> bool {
    &&& rs.len() <= ls.len()
    &&& forall|i: int|
        0 <= i < rs.len() ==> reads_line::<A>(trimmed(ls[i]), #[trigger] rs[i])
}

/// No line has anything wrong with it.
pub open spec fn all_fine(rs: Seq<Line>) -> bool {
    forall|i: int| 0 <= i < rs.len() ==> (#[trigger] rs[i]) is Ok
}

/// The nodes of lines, by name; of two with one name the later one.
pub open spec fn gathered(rs: Seq<Line>) -> Map<Seq<char>, NodeView>
    decreases rs.len(),
{
    if rs.len() == 0 {
        Map::empty()
    } else {
        match rs.last() {
            Ok(Some((name, node))) => gathered(rs.drop_last()).insert(name, node),
            _ => gathered(rs.drop_last()),
        }
    }
}

/// The nodes that a text names were read: its lines were, up to the first with something wrong in
/// it, and that is the error; or all of them, and the nodes are those the lines name.
pub open spec fn graph_read<A: Arith>(
    text: Seq<char>,
    r: Result<Map<Seq<char>, NodeView>, LoadError>,
) -> bool {
    exists|rs: Seq<Line>| #[trigger]
        lines_read::<A>(lines(text), rs) && match r {
            Ok(m) => rs.len() == lines(text).len() && all_fine(rs) && m == gathered(rs),
            Err(x) => rs.len() > 0 && all_fine(rs.drop_last()) && rs.last() == Err::<
                Option<(Seq<char>, NodeView)>,
                LoadError,
            >(x),
        }
}

/// The columns that a line gives to the input called `name`.
pub open spec fn line_dim(line: Seq<char>, name: Seq<char>) -> Option<usize> {
    if occurs_at(line, "input-node"@, 0) && spec_kv(line.skip(10), "name"@) == Some(name) {
        match spec_number(line.skip(10), "dim"@) {
            Ok(n) => Some(n),
            Err(x) => None,
        }
    } else {
        None
    }
}

/// The columns that the first `k` lines give to the input called `name`: the last of them that
/// says so counts, and there are none if no line does.
pub open spec fn spec_input_dim(ls: Seq<Seq<char>>, name: Seq<char>, k: nat) -> usize
    decreases k,
{
    if k == 0 {
        0
    } else {
        match line_dim(trimmed(ls[k - 1]), name) {
            Some(n) => n,
            None => spec_input_dim(ls, name, (k - 1) as nat),
        }
    }
}

/// The columns that a text gives to the input called `name`.
pub open spec fn text_input_dim(text: Seq<char>, name: Seq<char>) -> usize {
    spec_input_dim(lines(text), name, lines(text).len())
}

/// The bytes that name the nodes: from `<Nnet3>` up to `<NumComponents>`.
pub open spec fn graph_bytes(buf: Seq<u8>) -> Option<Seq<u8>> {
    match (first_match(buf, ascii("<Nnet3>"@), 0), first_match(buf, ascii("<NumComponents>"@), 0)) {
        (Some(a), Some(b)) => if a <= b {
            Some(buf.subrange(a as int, b as int))
        } else {
            None
        },
        _ => None,
    }
}

/// What `String::from_utf8_lossy` makes of bytes.
pub uninterp spec fn lossy_text(bytes: Seq<u8>) -> Seq<char>;

/// Bytes as text.
///
/// Calls `String::from_utf8_lossy`. Its result is a function of the bytes, named [`lossy_text`];
/// of bytes that are UTF-8 it is the text they encode. Which replacement characters stand for
/// other bytes is not said.
#[verifier::external_body]
fn text_of(bytes: &[u8]) -> (s: String)
    ensures
        s@ == lossy_text(bytes@),
        valid_utf8(bytes@) ==> s@ == decode_utf8(bytes@),
{
    String::from_utf8_lossy(bytes).into_owned()
}

/// The word behind ` key=` in a line.
fn kv(line: &[char], key: &'static str) -> (r: Option<String>)
    ensures
        match r {
            Some(w) => spec_kv(line@, key@) == Some(w@),
            None => spec_kv(line@, key@) is None,
        },
{
    let mut pat: Vec<char> = Vec::new();
    pat.push(' ');
    let name = chars_of(key);
    extend(&mut pat, name.as_slice());
    pat.push('=');
    let mut l: Vec<char> = Vec::new();
    l.push(' ');
    extend(&mut l, line);
    proof {
        assert(pat@ =~= seq![' '] + key@ + seq!['=']);
        assert(l@ =~= seq![' '] + line@);
    }
    match find_text(l.as_slice(), pat.as_slice(), 0) {
        Some(i) => {
            proof {
                law_first_match(l@, pat@, 0);
            }
            let end: usize = l.len();
            let rest = slice_subrange(l.as_slice(), i + pat.len(), end);
            assert(rest@ =~= l@.skip((i + pat@.len()) as int));
            match split_word(rest) {
                Some((w, after)) => Some(string_of(w)),
                None => None,
            }
        },
        None => None,
    }
}

/// Put characters at the end of others.
fn extend(out: &mut Vec<char>, cs: &[char])
    ensures
        final(out)@ == old(out)@ + cs@,
{
    let ghost before = out@;
    let mut i: usize = 0;
    while i < cs.len()
        invariant
            i <= cs@.len(),
            out@ == before + cs@.take(i as int),
        decreases cs@.len() - i,
    {
        out.push(cs[i]);
        i = i + 1;
        assert(out@ =~= before + cs@.take(i as int));
    }
    assert(cs@.take(i as int) =~= cs@);
}

/// What a line says of nodes, or the error that came instead.
pub open spec fn said_of(r: Result<Option<(String, Node)>, LoadError>) -> Line {
    match r {
        Ok(Some((name, node))) => Ok(Some((name@, node@))),
        Ok(None) => Ok(None),
        Err(x) => Err(x),
    }
}

fn number(rest: &[char], key: &'static str) -> (r: Result<usize, LoadError>)
    ensures
        r == spec_number(rest@, key@),
{
    match kv(rest, key) {
        None => Err(LoadError::MissingValue),
        Some(w) => {
            let cs = chars_of(w.as_str());
            match parse_usize(cs.as_slice()) {
                None => Err(LoadError::BadNumber),
                Some(n) => Ok(n),
            }
        },
    }
}

fn dim_range_node(rest: &[char]) -> (r: Result<Option<(String, Node)>, LoadError>)
    ensures
        said_of(r) == spec_dim_range(rest@),
{
    let name = match kv(rest, "name") {
        Some(w) => w,
        None => {
            return Err(LoadError::MissingValue);
        },
    };
    let src = match kv(rest, "input-node") {
        Some(w) => w,
        None => {
            return Err(LoadError::MissingValue);
        },
    };
    let off: usize = match number(rest, "dim-offset") {
        Ok(n) => n,
        Err(x) => {
            return Err(x);
        },
    };
    match number(rest, "dim") {
        Ok(dim) => Ok(Some((name, Node::DimRange { src, off, dim }))),
        Err(x) => Err(x),
    }
}

/// What stands behind the first `input=` of a line.
fn input_of(line: &[char]) -> (r: Option<&[char]>)
    ensures
        match r {
            Some(s) => spec_input(line@) == Some(s@),
            None => spec_input(line@) is None,
        },
{
    proof {
        reveal_strlit("input=");
    }
    let tag = chars_of("input=");
    match find_text(line, tag.as_slice(), 0) {
        Some(i) => {
            proof {
                law_first_match(line@, tag@, 0);
            }
            let end: usize = line.len();
            let s = slice_subrange(line, i + 6, end);
            assert(s@ =~= line@.skip(i + 6));
            Some(s)
        },
        None => None,
    }
}

fn component_node<A: Arith>(line: &[char], rest: &[char]) -> (r: Result<
    Option<(String, Node)>,
    LoadError,
>)
    ensures
        reads_component_node::<A>(line@, rest@, said_of(r)),
{
    let name = match kv(rest, "name") {
        Some(w) => w,
        None => {
            return Err(LoadError::MissingValue);
        },
    };
    let comp = match kv(rest, "component") {
        Some(w) => w,
        None => {
            return Err(LoadError::MissingValue);
        },
    };
    match input_of(line) {
        None => Err(LoadError::MissingValue),
        Some(s) => match parse_desc::<A>(trim(s)) {
            Ok(desc) => Ok(Some((name, Node::Component { comp, desc }))),
            Err(x) => Err(x),
        },
    }
}

fn output_node<A: Arith>(line: &[char], rest: &[char]) -> (r: Result<
    Option<(String, Node)>,
    LoadError,
>)
    ensures
        reads_output_node::<A>(line@, rest@, said_of(r)),
{
    let name = match kv(rest, "name") {
        Some(w) => w,
        None => {
            return Err(LoadError::MissingValue);
        },
    };
    let s = match input_of(line) {
        Some(s) => s,
        None => {
            return Err(LoadError::MissingValue);
        },
    };
    proof {
        reveal_strlit(" objective=");
    }
    let tag = chars_of(" objective=");
    let text = match find_text(s, tag.as_slice(), 0) {
        Some(i) => {
            proof {
                law_first_match(s@, tag@, 0);
            }
            let t = slice_subrange(s, 0, i);
            assert(t@ =~= s@.take(i as int));
            t
        },
        None => s,
    };
    match parse_desc::<A>(trim(text)) {
        Ok(desc) => Ok(Some((name, Node::Output { desc }))),
        Err(x) => Err(x),
    }
}

/// The rest of a line behind `tag`, if the line begins with it.
fn strip<'a>(line: &'a [char], tag: &'static str) -> (r: Option<&'a [char]>)
    ensures
        match r {
            Some(s) => occurs_at(line@, tag@, 0) && s@ == line@.skip(tag@.len() as int),
            None => !occurs_at(line@, tag@, 0),
        },
{
    let t = chars_of(tag);
    if begins_with(line, t.as_slice()) {
        let end: usize = line.len();
        let s = slice_subrange(line, t.len(), end);
        assert(s@ =~= line@.skip(tag@.len() as int));
        Some(s)
    } else {
        None
    }
}

/// The node of a line.
fn parse_line<A: Arith>(line: &[char]) -> (r: Result<Option<(String, Node)>, LoadError>)
    ensures
        reads_line::<A>(line@, said_of(r)),
{
    proof {
        reveal_strlit("input-node");
        reveal_strlit("dim-range-node");
        reveal_strlit("component-node");
        reveal_strlit("output-node");
    }
    if let Some(rest) = strip(line, "input-node") {
        return match kv(rest, "name") {
            Some(name) => Ok(Some((name, Node::Input))),
            None => Err(LoadError::MissingValue),
        };
    }
    if let Some(rest) = strip(line, "dim-range-node") {
        return dim_range_node(rest);
    }
    if let Some(rest) = strip(line, "component-node") {
        return component_node::<A>(line, rest);
    }
    if let Some(rest) = strip(line, "output-node") {
        return output_node::<A>(line, rest);
    }
    Ok(None)
}

/// What a table of nodes says, or the error that came instead.
pub open spec fn nodes_of(r: Result<Table<Node>, LoadError>) -> Result<
    Map<Seq<char>, NodeView>,
    LoadError,
> {
    match r {
        Ok(t) => Ok(t@),
        Err(x) => Err(x),
    }
}

/// The nodes that a text names.
pub fn parse_nodes<A: Arith>(text: &str) -> (r: Result<Table<Node>, LoadError>)
    ensures
        graph_read::<A>(text@, nodes_of(r)),
        r matches Ok(t) ==> t.wf(),
{
    let cs = chars_of(text);
    let ls = split_lines(cs.as_slice());
    let ghost all = lines(text@);
    let ghost mut rs: Seq<Line> = Seq::empty();
    let mut t: Table<Node> = Table::new();
    let mut k: usize = 0;
    while k < ls.len()
        invariant
            k <= ls@.len(),
            all == lines(text@),
            ls@.len() == all.len(),
            forall|i: int| 0 <= i < ls@.len() ==> (#[trigger] ls@[i])@ == all[i],
            t.wf(),
            rs.len() == k,
            lines_read::<A>(all, rs),
            all_fine(rs),
            t@ == gathered(rs),
        decreases ls@.len() - k,
    {
        let line = trim(ls[k]);
        assert(line@ == trimmed(all[k as int]));
        let said = parse_line::<A>(line);
        let ghost longer = rs.push(said_of(said));
        proof {
            assert(longer.drop_last() =~= rs);
            assert(lines_read::<A>(all, longer)) by {
                assert forall|i: int| 0 <= i < longer.len() implies reads_line::<A>(
                    trimmed(all[i]),
                    #[trigger] longer[i],
                ) by {
                    if i < rs.len() {
                        assert(longer[i] == rs[i]);
                    }
                }
            }
        }
        match said {
            Ok(Some((name, node))) => {
                t.insert(name, node);
            },
            Ok(None) => {},
            Err(x) => {
                return Err(x);
            },
        }
        proof {
            rs = longer;
        }
        k = k + 1;
    }
    Ok(t)
}

/// The columns that a text gives to the input called `name`.
pub fn input_dim(text: &str, name: &'static str) -> (n: usize)
    ensures
        n == text_input_dim(text@, name@),
{
    proof {
        reveal_strlit("input-node");
    }
    let cs = chars_of(text);
    let ls = split_lines(cs.as_slice());
    let ghost all = lines(text@);
    let mut n: usize = 0;
    let mut k: usize = 0;
    while k < ls.len()
        invariant
            "input-node"@.len() == 10,
            k <= ls@.len(),
            all == lines(text@),
            ls@.len() == all.len(),
            forall|i: int| 0 <= i < ls@.len() ==> (#[trigger] ls@[i])@ == all[i],
            n == spec_input_dim(all, name@, k as nat),
        decreases ls@.len() - k,
    {
        let line = trim(ls[k]);
        assert(line@ == trimmed(all[k as int]));
        if let Some(rest) = strip(line, "input-node") {
            if let Some(w) = kv(rest, "name") {
                if is_text(&w, name) {
                    if let Ok(d) = number(rest, "dim") {
                        n = d;
                    }
                }
            }
        }
        k = k + 1;
    }
    n
}

/// The text that names the nodes of a file.
fn graph_text(buf: &[u8]) -> (r: Option<String>)
    ensures
        match r {
            None => graph_bytes(buf@) is None,
            Some(s) => graph_bytes(buf@) matches Some(bytes) && s@ == lossy_text(bytes) && (
            valid_utf8(bytes) ==> s@ == decode_utf8(bytes)),
        },
{
    proof {
        reveal_strlit("<Nnet3>");
        reveal_strlit("<NumComponents>");
    }
    let a: usize = match find(buf, literal("<Nnet3>"), 0) {
        Some(a) => a,
        None => {
            return None;
        },
    };
    let b: usize = match find(buf, literal("<NumComponents>"), 0) {
        Some(b) => b,
        None => {
            return None;
        },
    };
    proof {
        law_first_match(buf@, ascii("<NumComponents>"@), 0);
    }
    if a > b {
        return None;
    }
    Some(text_of(slice_subrange(buf, a, b)))
}

/// The nodes that a file names.
pub fn parse_graph<A: Arith>(buf: &[u8]) -> (r: Result<Table<Node>, LoadError>)
    ensures
        match graph_bytes(buf@) {
            None => r matches Err(x) && x == LoadError::NoGraph,
            Some(bytes) => graph_read::<A>(lossy_text(bytes), nodes_of(r)) && (valid_utf8(bytes)
                ==> graph_read::<A>(decode_utf8(bytes), nodes_of(r))),
        },
        r matches Ok(t) ==> t.wf(),
{
    match graph_text(buf) {
        None => Err(LoadError::NoGraph),
        Some(text) => parse_nodes::<A>(text.as_str()),
    }
}

/// The columns that a file gives to the speaker's vector.
pub open spec fn vector_dim(buf: Seq<u8>) -> usize {
    match graph_bytes(buf) {
        None => 0,
        Some(bytes) => text_input_dim(lossy_text(bytes), "ivector"@),
    }
}

/// The columns that a file gives to the speaker's vector.
pub fn ivector_dim(buf: &[u8]) -> (n: usize)
    ensures
        n == vector_dim(buf@),
        graph_bytes(buf@) matches Some(bytes) ==> (valid_utf8(bytes) ==> n == text_input_dim(
            decode_utf8(bytes),
            "ivector"@,
        )),
{
    match graph_text(buf) {
        None => 0,
        Some(text) => input_dim(text.as_str(), "ivector"),
    }
}

} // verus!
