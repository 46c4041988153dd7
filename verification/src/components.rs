//! The components of a network, as `final.mdl` holds them.
//!
//! Each component stands behind a `<ComponentName> ` tag. Its parameters stand behind tags of
//! their own, somewhere before the next component.

use vstd::prelude::*;
use vstd::slice::slice_subrange;

use crate::kaldi_io::{
    kind_token, law_float_matrix, law_float_vec, pattern, raw, sized, spec_f32, spec_float_matrix,
    spec_float_vec, spec_i32, spec_i32_vec, spec_token, written_token, KaldiReader, Parsed,
    ReadError,
};
use crate::mat::{Mat, MatView};
use crate::scan::{ascii, find, first_match, law_first_match, literal};
use crate::single::ONE;
use crate::table::Table;
use crate::text::is_text;

verus! {

/// The small number that keeps a variance away from zero: 0.001.
pub const EPSILON: u32 = 0x3a83_126f;

/// Why a network could not be loaded.
#[derive(Clone, Copy, PartialEq, Eq, Debug, Structural)]
pub enum LoadError {
    /// An item of the file could not be read.
    Read(ReadError),
    /// A component lacks an item that its kind needs.
    MissingItem,
    /// The graph is not between `<Nnet3>` and `<NumComponents>`.
    NoGraph,
    /// A line of the graph lacks a value.
    MissingValue,
    /// A number in the graph is none.
    BadNumber,
    /// A descriptor is no expression.
    BadDescriptor,
}

/// One layer of a network.
#[derive(Debug)]
pub enum Comp {
    Affine { w: Mat, b: Vec<u32> },
    Linear { w: Mat },
    Tdnn { offsets: Vec<i32>, w: Mat, b: Vec<u32> },
    BatchNorm { mean: Vec<u32>, var: Vec<u32>, eps: u32, trms: u32 },
    Relu,
    Identity,
}

/// What a layer holds.
pub ghost enum CompView {
    Affine { w: MatView, b: Seq<u32> },
    Linear { w: MatView },
    Tdnn { offsets: Seq<i32>, w: MatView, b: Seq<u32> },
    BatchNorm { mean: Seq<u32>, var: Seq<u32>, eps: u32, trms: u32 },
    Relu,
    Identity,
}

impl View for Comp {
    type V = CompView;

    open spec fn view(&self) -> CompView {
        match self {
            Comp::Affine { w, b } => CompView::Affine { w: w@, b: b@ },
            Comp::Linear { w } => CompView::Linear { w: w@ },
            Comp::Tdnn { offsets, w, b } => CompView::Tdnn { offsets: offsets@, w: w@, b: b@ },
            Comp::BatchNorm { mean, var, eps, trms } => CompView::BatchNorm {
                mean: mean@,
                var: var@,
                eps: *eps,
                trms: *trms,
            },
            Comp::Relu => CompView::Relu,
            Comp::Identity => CompView::Identity,
        }
    }
}

impl CompView {
    /// The weights have as many entries as rows times columns.
    pub open spec fn wf(self) -> bool {
        match self {
            CompView::Affine { w, b } => w.wf(),
            CompView::Linear { w } => w.wf(),
            CompView::Tdnn { offsets, w, b } => w.wf(),
            _ => true,
        }
    }
}

/// The value of a read, without what is left.
pub open spec fn value<T>(p: Parsed<T>) -> Result<T, ReadError> {
    match p {
        Ok((v, rest)) => Ok(v),
        Err(e) => Err(e),
    }
}

/// The matrix of a read.
pub open spec fn matrix(p: Parsed<(nat, nat, Seq<u32>)>) -> Result<MatView, ReadError> {
    match p {
        Ok(((r, c, d), rest)) => Ok(MatView { r, c, d }),
        Err(e) => Err(e),
    }
}

/// What stands behind the first `tok` in `[s, e)`.
pub open spec fn behind(buf: Seq<u8>, s: nat, e: nat, tok: Seq<u8>) -> Option<Seq<u8>> {
    match first_match(buf.subrange(s as int, e as int), tok, 0) {
        Some(off) => Some(buf.skip((s + off + tok.len()) as int)),
        None => None,
    }
}

/// The matrix at `pos`.
pub fn mat_at(buf: &[u8], pos: usize) -> (r: Result<Mat, ReadError>)
    requires
        pos <= buf@.len(),
    ensures
        match r {
            Ok(m) => m@.wf() && matrix(spec_float_matrix(buf@.skip(pos as int))) == Ok::<
                MatView,
                ReadError,
            >(m@),
            Err(e) => matrix(spec_float_matrix(buf@.skip(pos as int))) == Err::<MatView, ReadError>(
                e,
            ),
        },
{
    let part = slice_subrange(buf, pos, buf.len());
    assert(part@ =~= buf@.skip(pos as int));
    let mut r = KaldiReader::new(part);
    match r.read_float_matrix() {
        Ok((rows, cols, d)) => Ok(Mat { r: rows, c: cols, d }),
        Err(e) => Err(e),
    }
}

/// The vector at `pos`.
pub fn vec_at(buf: &[u8], pos: usize) -> (r: Result<Vec<u32>, ReadError>)
    requires
        pos <= buf@.len(),
    ensures
        match r {
            Ok(v) => value(spec_float_vec(buf@.skip(pos as int))) == Ok::<Seq<u32>, ReadError>(v@),
            Err(e) => value(spec_float_vec(buf@.skip(pos as int))) == Err::<Seq<u32>, ReadError>(e),
        },
{
    let part = slice_subrange(buf, pos, buf.len());
    assert(part@ =~= buf@.skip(pos as int));
    let mut r = KaldiReader::new(part);
    r.read_float_vec()
}

/// The place behind the first `tok` in `[s, e)`.
fn place_behind(buf: &[u8], s: usize, e: usize, tok: &[u8]) -> (r: Option<usize>)
    requires
        s <= e <= buf@.len(),
        tok@.len() > 0,
    ensures
        match r {
            Some(p) => p <= buf@.len() && behind(buf@, s as nat, e as nat, tok@) == Some(
                buf@.skip(p as int),
            ),
            None => behind(buf@, s as nat, e as nat, tok@) is None,
        },
{
    let part = slice_subrange(buf, s, e);
    match find(part, tok, 0) {
        Some(off) => {
            proof {
                law_first_match(part@, tok@, 0);
            }
            let n: usize = tok.len();
            let total: usize = buf.len();
            Some(s + off + n)
        },
        None => None,
    }
}

/// The matrix behind `tok` in `[s, e)`.
pub fn named_mat(buf: &[u8], s: usize, e: usize, tok: &[u8]) -> (r: Result<Option<Mat>, ReadError>)
    requires
        s <= e <= buf@.len(),
        tok@.len() > 0,
    ensures
        match behind(buf@, s as nat, e as nat, tok@) {
            None => r matches Ok(m) && m is None,
            Some(rest) => match r {
                Ok(m) => m is Some && m->0@.wf() && matrix(spec_float_matrix(rest)) == Ok::<
                    MatView,
                    ReadError,
                >(m->0@),
                Err(x) => matrix(spec_float_matrix(rest)) == Err::<MatView, ReadError>(x),
            },
        },
{
    match place_behind(buf, s, e, tok) {
        Some(p) => match mat_at(buf, p) {
            Ok(m) => Ok(Some(m)),
            Err(x) => Err(x),
        },
        None => Ok(None),
    }
}

/// The vector behind `tok` in `[s, e)`.
pub fn named_vec(buf: &[u8], s: usize, e: usize, tok: &[u8]) -> (r: Result<
    Option<Vec<u32>>,
    ReadError,
>)
    requires
        s <= e <= buf@.len(),
        tok@.len() > 0,
    ensures
        match behind(buf@, s as nat, e as nat, tok@) {
            None => r matches Ok(v) && v is None,
            Some(rest) => match r {
                Ok(v) => v is Some && value(spec_float_vec(rest)) == Ok::<Seq<u32>, ReadError>(
                    v->0@,
                ),
                Err(x) => value(spec_float_vec(rest)) == Err::<Seq<u32>, ReadError>(x),
            },
        },
{
    match place_behind(buf, s, e, tok) {
        Some(p) => match vec_at(buf, p) {
            Ok(v) => Ok(Some(v)),
            Err(x) => Err(x),
        },
        None => Ok(None),
    }
}

/// The integer behind `tok` in `[s, e)`.
pub fn named_i32(buf: &[u8], s: usize, e: usize, tok: &[u8]) -> (r: Result<Option<i32>, ReadError>)
    requires
        s <= e <= buf@.len(),
        tok@.len() > 0,
    ensures
        match behind(buf@, s as nat, e as nat, tok@) {
            None => r == Ok::<Option<i32>, ReadError>(None),
            Some(rest) => match r {
                Ok(v) => v is Some && value(spec_i32(rest)) == Ok::<i32, ReadError>(v->0),
                Err(x) => value(spec_i32(rest)) == Err::<i32, ReadError>(x),
            },
        },
{
    match place_behind(buf, s, e, tok) {
        Some(p) => {
            let part = slice_subrange(buf, p, buf.len());
            assert(part@ =~= buf@.skip(p as int));
            let mut r = KaldiReader::new(part);
            match r.read_i32() {
                Ok(v) => Ok(Some(v)),
                Err(x) => Err(x),
            }
        },
        None => Ok(None),
    }
}

/// The number behind `tok` in `[s, e)`, as its bit pattern.
pub fn named_f32(buf: &[u8], s: usize, e: usize, tok: &[u8]) -> (r: Result<Option<u32>, ReadError>)
    requires
        s <= e <= buf@.len(),
        tok@.len() > 0,
    ensures
        match behind(buf@, s as nat, e as nat, tok@) {
            None => r == Ok::<Option<u32>, ReadError>(None),
            Some(rest) => match r {
                Ok(v) => v is Some && value(spec_f32(rest)) == Ok::<u32, ReadError>(v->0),
                Err(x) => value(spec_f32(rest)) == Err::<u32, ReadError>(x),
            },
        },
{
    match place_behind(buf, s, e, tok) {
        Some(p) => {
            let part = slice_subrange(buf, p, buf.len());
            assert(part@ =~= buf@.skip(p as int));
            let mut r = KaldiReader::new(part);
            match r.read_f32() {
                Ok(v) => Ok(Some(v)),
                Err(x) => Err(x),
            }
        },
        None => Ok(None),
    }
}

/// A matrix that must be there.
pub open spec fn needed_mat(buf: Seq<u8>, s: nat, e: nat, tok: Seq<u8>) -> Result<
    MatView,
    LoadError,
> {
    match behind(buf, s, e, tok) {
        None => Err(LoadError::MissingItem),
        Some(rest) => match matrix(spec_float_matrix(rest)) {
            Ok(m) => Ok(m),
            Err(x) => Err(LoadError::Read(x)),
        },
    }
}

/// A vector that must be there.
pub open spec fn needed_vec(buf: Seq<u8>, s: nat, e: nat, tok: Seq<u8>) -> Result<
    Seq<u32>,
    LoadError,
> {
    match behind(buf, s, e, tok) {
        None => Err(LoadError::MissingItem),
        Some(rest) => match value(spec_float_vec(rest)) {
            Ok(v) => Ok(v),
            Err(x) => Err(LoadError::Read(x)),
        },
    }
}

/// A vector that is empty where it is not there.
pub open spec fn optional_vec(buf: Seq<u8>, s: nat, e: nat, tok: Seq<u8>) -> Result<
    Seq<u32>,
    LoadError,
> {
    match behind(buf, s, e, tok) {
        None => Ok(Seq::empty()),
        Some(rest) => match value(spec_float_vec(rest)) {
            Ok(v) => Ok(v),
            Err(x) => Err(LoadError::Read(x)),
        },
    }
}

/// A number that is `default` where it is not there.
pub open spec fn optional_f32(
    buf: Seq<u8>,
    s: nat,
    e: nat,
    tok: Seq<u8>,
    default: u32,
) -> Result<u32, LoadError> {
    match behind(buf, s, e, tok) {
        None => Ok(default),
        Some(rest) => match value(spec_f32(rest)) {
            Ok(v) => Ok(v),
            Err(x) => Err(LoadError::Read(x)),
        },
    }
}

/// Offsets that must be there.
pub open spec fn needed_offsets(buf: Seq<u8>, s: nat, e: nat, tok: Seq<u8>) -> Result<
    Seq<i32>,
    LoadError,
> {
    match behind(buf, s, e, tok) {
        None => Err(LoadError::MissingItem),
        Some(rest) => match value(spec_i32_vec(rest)) {
            Ok(v) => Ok(v),
            Err(x) => Err(LoadError::Read(x)),
        },
    }
}

/// The affine layer in `[s, e)`.
pub open spec fn spec_affine(buf: Seq<u8>, s: nat, e: nat) -> Result<CompView, LoadError> {
    match needed_mat(buf, s, e, ascii("<LinearParams> "@)) {
        Err(x) => Err(x),
        Ok(w) => match optional_vec(buf, s, e, ascii("<BiasParams> "@)) {
            Err(x) => Err(x),
            Ok(b) => Ok(CompView::Affine { w, b }),
        },
    }
}

/// The linear layer in `[s, e)`.
pub open spec fn spec_linear(buf: Seq<u8>, s: nat, e: nat) -> Result<CompView, LoadError> {
    match needed_mat(buf, s, e, ascii("<Params> "@)) {
        Err(x) => Err(x),
        Ok(w) => Ok(CompView::Linear { w }),
    }
}

/// The time-delay layer in `[s, e)`.
pub open spec fn spec_tdnn(buf: Seq<u8>, s: nat, e: nat) -> Result<CompView, LoadError> {
    match needed_offsets(buf, s, e, ascii("<TimeOffsets> "@)) {
        Err(x) => Err(x),
        Ok(offsets) => match needed_mat(buf, s, e, ascii("<LinearParams> "@)) {
            Err(x) => Err(x),
            Ok(w) => match optional_vec(buf, s, e, ascii("<BiasParams> "@)) {
                Err(x) => Err(x),
                Ok(b) => Ok(CompView::Tdnn { offsets, w, b }),
            },
        },
    }
}

/// The normalising layer in `[s, e)`.
pub open spec fn spec_batch_norm(buf: Seq<u8>, s: nat, e: nat) -> Result<CompView, LoadError> {
    match needed_vec(buf, s, e, ascii("<StatsMean> "@)) {
        Err(x) => Err(x),
        Ok(mean) => match needed_vec(buf, s, e, ascii("<StatsVar> "@)) {
            Err(x) => Err(x),
            Ok(var) => match optional_f32(buf, s, e, ascii("<Epsilon> "@), EPSILON) {
                Err(x) => Err(x),
                Ok(eps) => match optional_f32(buf, s, e, ascii("<TargetRms> "@), ONE) {
                    Err(x) => Err(x),
                    Ok(trms) => Ok(CompView::BatchNorm { mean, var, eps, trms }),
                },
            },
        },
    }
}

/// The layer of the kind `kind` in `[s, e)`. Kinds that change nothing when a network is
/// evaluated, and kinds that are not known, are the identity.
pub open spec fn spec_layer(buf: Seq<u8>, s: nat, e: nat, kind: Seq<char>) -> Result<
    CompView,
    LoadError,
> {
    if kind == "<NaturalGradientAffineComponent>"@ || kind == "<FixedAffineComponent>"@ {
        spec_affine(buf, s, e)
    } else if kind == "<LinearComponent>"@ {
        spec_linear(buf, s, e)
    } else if kind == "<TdnnComponent>"@ {
        spec_tdnn(buf, s, e)
    } else if kind == "<BatchNormComponent>"@ {
        spec_batch_norm(buf, s, e)
    } else if kind == "<RectifiedLinearComponent>"@ {
        Ok(CompView::Relu)
    } else {
        Ok(CompView::Identity)
    }
}

/// The tag in front of a component.
pub open spec fn component_tag() -> Seq<u8> {
    ascii("<ComponentName> "@)
}

/// The name and the layer of the component whose tag stands at `s`, the next one's at `e`.
pub open spec fn spec_component(buf: Seq<u8>, s: nat, e: nat) -> Result<
    (Seq<char>, CompView),
    LoadError,
> {
    match spec_token(buf.skip((s + component_tag().len()) as int)) {
        Err(x) => Err(LoadError::Read(x)),
        Ok((name, rest)) => match spec_token(rest) {
            Err(x) => Err(LoadError::Read(x)),
            Ok((kind, rest)) => match spec_layer(buf, s, e, kind) {
                Err(x) => Err(x),
                Ok(layer) => Ok((name, layer)),
            },
        },
    }
}

/// Where the tags of components stand, at or after `from`.
pub open spec fn starts(buf: Seq<u8>, from: nat) -> Seq<nat>
    decreases buf.len() - from,
{
    proof {
        reveal_strlit("<ComponentName> ");
        law_first_match(buf, component_tag(), from);
    }
    match first_match(buf, component_tag(), from) {
        None => Seq::empty(),
        Some(i) => seq![i] + starts(buf, i + component_tag().len()),
    }
}

/// The components at the first `k` places of `at`, by name; of two with one name the later one.
pub open spec fn spec_components(buf: Seq<u8>, at: Seq<nat>, k: nat) -> Result<
    Map<Seq<char>, CompView>,
    LoadError,
>
    decreases k,
{
    if k == 0 {
        Ok(Map::empty())
    } else {
        let e = if k < at.len() {
            at[k as int]
        } else {
            buf.len()
        };
        match spec_components(buf, at, (k - 1) as nat) {
            Err(x) => Err(x),
            Ok(m) => match spec_component(buf, at[k - 1], e) {
                Err(x) => Err(x),
                Ok((name, layer)) => Ok(m.insert(name, layer)),
            },
        }
    }
}

/// All components of a file, by name.
pub open spec fn all_components(buf: Seq<u8>) -> Result<Map<Seq<char>, CompView>, LoadError> {
    spec_components(buf, starts(buf, 0), starts(buf, 0).len())
}

/// `r` is what `p` calls for, layers taken by their views.
pub open spec fn gives(p: Result<CompView, LoadError>, r: Result<Comp, LoadError>) -> bool {
    match r {
        Ok(c) => p == Ok::<CompView, LoadError>(c@) && c@.wf(),
        Err(x) => p == Err::<CompView, LoadError>(x),
    }
}

fn must_mat(buf: &[u8], s: usize, e: usize, tok: &[u8]) -> (r: Result<Mat, LoadError>)
    requires
        s <= e <= buf@.len(),
        tok@.len() > 0,
    ensures
        match r {
            Ok(m) => needed_mat(buf@, s as nat, e as nat, tok@) == Ok::<MatView, LoadError>(m@)
                && m@.wf(),
            Err(x) => needed_mat(buf@, s as nat, e as nat, tok@) == Err::<MatView, LoadError>(x),
        },
{
    match named_mat(buf, s, e, tok) {
        Ok(Some(m)) => Ok(m),
        Ok(None) => Err(LoadError::MissingItem),
        Err(x) => Err(LoadError::Read(x)),
    }
}

fn must_vec(buf: &[u8], s: usize, e: usize, tok: &[u8]) -> (r: Result<Vec<u32>, LoadError>)
    requires
        s <= e <= buf@.len(),
        tok@.len() > 0,
    ensures
        match r {
            Ok(v) => needed_vec(buf@, s as nat, e as nat, tok@) == Ok::<Seq<u32>, LoadError>(v@),
            Err(x) => needed_vec(buf@, s as nat, e as nat, tok@) == Err::<Seq<u32>, LoadError>(x),
        },
{
    match named_vec(buf, s, e, tok) {
        Ok(Some(v)) => Ok(v),
        Ok(None) => Err(LoadError::MissingItem),
        Err(x) => Err(LoadError::Read(x)),
    }
}

fn may_vec(buf: &[u8], s: usize, e: usize, tok: &[u8]) -> (r: Result<Vec<u32>, LoadError>)
    requires
        s <= e <= buf@.len(),
        tok@.len() > 0,
    ensures
        match r {
            Ok(v) => optional_vec(buf@, s as nat, e as nat, tok@) == Ok::<Seq<u32>, LoadError>(v@),
            Err(x) => optional_vec(buf@, s as nat, e as nat, tok@) == Err::<Seq<u32>, LoadError>(x),
        },
{
    match named_vec(buf, s, e, tok) {
        Ok(Some(v)) => Ok(v),
        Ok(None) => Ok(Vec::new()),
        Err(x) => Err(LoadError::Read(x)),
    }
}

fn may_f32(buf: &[u8], s: usize, e: usize, tok: &[u8], default: u32) -> (r: Result<u32, LoadError>)
    requires
        s <= e <= buf@.len(),
        tok@.len() > 0,
    ensures
        r == optional_f32(buf@, s as nat, e as nat, tok@, default),
{
    match named_f32(buf, s, e, tok) {
        Ok(Some(v)) => Ok(v),
        Ok(None) => Ok(default),
        Err(x) => Err(LoadError::Read(x)),
    }
}

fn read_affine(buf: &[u8], s: usize, e: usize) -> (r: Result<Comp, LoadError>)
    requires
        s <= e <= buf@.len(),
    ensures
        gives(spec_affine(buf@, s as nat, e as nat), r),
{
    proof {
        reveal_strlit("<LinearParams> ");
        reveal_strlit("<BiasParams> ");
    }
    let w = match must_mat(buf, s, e, literal("<LinearParams> ")) {
        Ok(w) => w,
        Err(x) => {
            return Err(x);
        },
    };
    match may_vec(buf, s, e, literal("<BiasParams> ")) {
        Ok(b) => Ok(Comp::Affine { w, b }),
        Err(x) => Err(x),
    }
}

fn read_linear(buf: &[u8], s: usize, e: usize) -> (r: Result<Comp, LoadError>)
    requires
        s <= e <= buf@.len(),
    ensures
        gives(spec_linear(buf@, s as nat, e as nat), r),
{
    proof {
        reveal_strlit("<Params> ");
    }
    match must_mat(buf, s, e, literal("<Params> ")) {
        Ok(w) => Ok(Comp::Linear { w }),
        Err(x) => Err(x),
    }
}

fn read_tdnn(buf: &[u8], s: usize, e: usize) -> (r: Result<Comp, LoadError>)
    requires
        s <= e <= buf@.len(),
    ensures
        gives(spec_tdnn(buf@, s as nat, e as nat), r),
{
    proof {
        reveal_strlit("<TimeOffsets> ");
        reveal_strlit("<LinearParams> ");
        reveal_strlit("<BiasParams> ");
    }
    let offsets = match place_behind(buf, s, e, literal("<TimeOffsets> ")) {
        None => {
            return Err(LoadError::MissingItem);
        },
        Some(p) => {
            let part = slice_subrange(buf, p, buf.len());
            assert(part@ =~= buf@.skip(p as int));
            let mut rr = KaldiReader::new(part);
            match rr.read_i32_vec() {
                Ok(v) => v,
                Err(x) => {
                    return Err(LoadError::Read(x));
                },
            }
        },
    };
    let w = match must_mat(buf, s, e, literal("<LinearParams> ")) {
        Ok(w) => w,
        Err(x) => {
            return Err(x);
        },
    };
    match may_vec(buf, s, e, literal("<BiasParams> ")) {
        Ok(b) => Ok(Comp::Tdnn { offsets, w, b }),
        Err(x) => Err(x),
    }
}

fn read_batch_norm(buf: &[u8], s: usize, e: usize) -> (r: Result<Comp, LoadError>)
    requires
        s <= e <= buf@.len(),
    ensures
        gives(spec_batch_norm(buf@, s as nat, e as nat), r),
{
    proof {
        reveal_strlit("<StatsMean> ");
        reveal_strlit("<StatsVar> ");
        reveal_strlit("<Epsilon> ");
        reveal_strlit("<TargetRms> ");
    }
    let mean = match must_vec(buf, s, e, literal("<StatsMean> ")) {
        Ok(v) => v,
        Err(x) => {
            return Err(x);
        },
    };
    let var = match must_vec(buf, s, e, literal("<StatsVar> ")) {
        Ok(v) => v,
        Err(x) => {
            return Err(x);
        },
    };
    let eps = match may_f32(buf, s, e, literal("<Epsilon> "), EPSILON) {
        Ok(v) => v,
        Err(x) => {
            return Err(x);
        },
    };
    match may_f32(buf, s, e, literal("<TargetRms> "), ONE) {
        Ok(trms) => Ok(Comp::BatchNorm { mean, var, eps, trms }),
        Err(x) => Err(x),
    }
}

fn read_layer(buf: &[u8], s: usize, e: usize, kind: &String) -> (r: Result<Comp, LoadError>)
    requires
        s <= e <= buf@.len(),
    ensures
        gives(spec_layer(buf@, s as nat, e as nat, kind@), r),
{
    if is_text(kind, "<NaturalGradientAffineComponent>") || is_text(
        kind,
        "<FixedAffineComponent>",
    ) {
        read_affine(buf, s, e)
    } else if is_text(kind, "<LinearComponent>") {
        read_linear(buf, s, e)
    } else if is_text(kind, "<TdnnComponent>") {
        read_tdnn(buf, s, e)
    } else if is_text(kind, "<BatchNormComponent>") {
        read_batch_norm(buf, s, e)
    } else if is_text(kind, "<RectifiedLinearComponent>") {
        Ok(Comp::Relu)
    } else {
        Ok(Comp::Identity)
    }
}

/// The component whose tag stands at `s`, the next one's at `e`.
fn read_component(buf: &[u8], s: usize, e: usize) -> (r: Result<(String, Comp), LoadError>)
    requires
        s + component_tag().len() <= buf@.len(),
        s <= e <= buf@.len(),
    ensures
        match r {
            Ok((name, c)) => spec_component(buf@, s as nat, e as nat) == Ok::<
                (Seq<char>, CompView),
                LoadError,
            >((name@, c@)) && c@.wf(),
            Err(x) => spec_component(buf@, s as nat, e as nat) == Err::<
                (Seq<char>, CompView),
                LoadError,
            >(x),
        },
{
    proof {
        reveal_strlit("<ComponentName> ");
    }
    let skip: usize = literal("<ComponentName> ").len();
    let total: usize = buf.len();
    let part = slice_subrange(buf, s + skip, total);
    assert(part@ =~= buf@.skip((s + component_tag().len()) as int));
    let mut r = KaldiReader::new(part);
    let name = match r.read_token() {
        Ok(t) => t,
        Err(x) => {
            return Err(LoadError::Read(x));
        },
    };
    let kind = match r.read_token() {
        Ok(t) => t,
        Err(x) => {
            return Err(LoadError::Read(x));
        },
    };
    match read_layer(buf, s, e, &kind) {
        Ok(c) => Ok((name, c)),
        Err(x) => Err(x),
    }
}

/// Places in a file, in order, each with room for a tag.
spec fn ordered(buf: Seq<u8>, at: Seq<nat>, from: nat) -> bool {
    &&& forall|i: int|
        0 <= i < at.len() ==> from <= #[trigger] at[i] && at[i] + component_tag().len() <= buf.len()
    &&& forall|i: int, j: int| 0 <= i < j < at.len() ==> #[trigger] at[i] <= #[trigger] at[j]
}

proof fn lemma_starts(buf: Seq<u8>, from: nat)
    ensures
        ordered(buf, starts(buf, from), from),
    decreases buf.len() - from,
{
    reveal_strlit("<ComponentName> ");
    law_first_match(buf, component_tag(), from);
    if let Some(i) = first_match(buf, component_tag(), from) {
        lemma_starts(buf, i + component_tag().len());
        let rest = starts(buf, i + component_tag().len());
        let all = starts(buf, from);
        assert(all =~= seq![i] + rest);
        assert forall|k: int| 0 <= k < all.len() implies from <= #[trigger] all[k] && all[k]
            + component_tag().len() <= buf.len() by {
            if k > 0 {
                assert(all[k] == rest[k - 1]);
            }
        }
        assert forall|k: int, j: int| 0 <= k < j < all.len() implies #[trigger] all[k]
            <= #[trigger] all[j] by {
            assert(all[j] == rest[j - 1]);
            if k > 0 {
                assert(all[k] == rest[k - 1]);
            }
        }
    }
}

/// Where the tags of components stand.
fn find_starts(buf: &[u8]) -> (at: Vec<usize>)
    ensures
        at@.map_values(|x: usize| x as nat) == starts(buf@, 0),
        forall|i: int|
            0 <= i < at@.len() ==> #[trigger] at@[i] + component_tag().len() <= buf@.len(),
        forall|i: int, j: int| 0 <= i < j < at@.len() ==> #[trigger] at@[i] <= #[trigger] at@[j],
{
    let mut out: Vec<usize> = Vec::new();
    proof {
        reveal_strlit("<ComponentName> ");
        assert(Seq::<nat>::empty() + starts(buf@, 0) =~= starts(buf@, 0));
        assert(out@.map_values(|x: usize| x as nat) =~= Seq::<nat>::empty());
    }
    let tag = literal("<ComponentName> ");
    let mut p: usize = 0;
    while p <= buf.len()
        invariant_except_break
            p <= buf@.len(),
            tag@ == component_tag(),
            tag@.len() > 0,
            out@.map_values(|x: usize| x as nat) + starts(buf@, p as nat) == starts(buf@, 0),
        ensures
            out@.map_values(|x: usize| x as nat) == starts(buf@, 0),
        decreases buf@.len() - p,
    {
        match find(buf, tag, p) {
            Some(i) => {
                let ghost before = out@.map_values(|x: usize| x as nat);
                out.push(i);
                proof {
                    law_first_match(buf@, tag@, p as nat);
                    let after = out@.map_values(|x: usize| x as nat);
                    assert(after =~= before.push(i as nat));
                    assert(after + starts(buf@, (i + tag@.len()) as nat) =~= before + (seq![
                        i as nat,
                    ] + starts(buf@, (i + tag@.len()) as nat)));
                }
                let n: usize = tag.len();
                p = i + n;
            },
            None => {
                proof {
                    let all = out@.map_values(|x: usize| x as nat);
                    assert(all + Seq::<nat>::empty() =~= all);
                }
                break;
            },
        }
    }
    proof {
        lemma_starts(buf@, 0);
        let all = starts(buf@, 0);
        assert forall|i: int| 0 <= i < out@.len() implies #[trigger] out@[i] + component_tag().len()
            <= buf@.len() by {
            assert(all[i] == out@[i]);
        }
        assert forall|i: int, j: int| 0 <= i < j < out@.len() implies #[trigger] out@[i]
            <= #[trigger] out@[j] by {
            assert(all[i] == out@[i] && all[j] == out@[j]);
        }
    }
    out
}

/// Every layer is well formed.
pub open spec fn layers_wf(m: Map<Seq<char>, CompView>) -> bool {
    forall|n: Seq<char>| #[trigger] m.contains_key(n) ==> m[n].wf()
}

/// All components of a file, by name.
pub fn parse_components(buf: &[u8]) -> (r: Result<Table<Comp>, LoadError>)
    ensures
        match r {
            Ok(t) => t.wf() && layers_wf(t@) && all_components(buf@) == Ok::<
                Map<Seq<char>, CompView>,
                LoadError,
            >(t@),
            Err(x) => all_components(buf@) == Err::<Map<Seq<char>, CompView>, LoadError>(x),
        },
{
    let at = find_starts(buf);
    let ghost all = starts(buf@, 0);
    let mut t: Table<Comp> = Table::new();
    let mut k: usize = 0;
    while k < at.len()
        invariant
            k <= at@.len(),
            all == starts(buf@, 0),
            all == at@.map_values(|x: usize| x as nat),
            forall|i: int|
                0 <= i < at@.len() ==> #[trigger] at@[i] + component_tag().len() <= buf@.len(),
            forall|i: int, j: int|
                0 <= i < j < at@.len() ==> #[trigger] at@[i] <= #[trigger] at@[j],
            t.wf(),
            layers_wf(t@),
            spec_components(buf@, all, k as nat) == Ok::<Map<Seq<char>, CompView>, LoadError>(t@),
        decreases at@.len() - k,
    {
        let s: usize = at[k];
        let e: usize = if k + 1 < at.len() {
            at[k + 1]
        } else {
            buf.len()
        };
        assert(all[k as int] == s);
        assert(k + 1 < at@.len() ==> all[k + 1] == e);
        match read_component(buf, s, e) {
            Ok((name, c)) => {
                t.insert(name, c);
            },
            Err(x) => {
                proof {
                    lemma_error_stays(buf@, all, (k + 1) as nat, all.len(), x);
                }
                return Err(x);
            },
        }
        k = k + 1;
    }
    Ok(t)
}

proof fn lemma_error_stays(buf: Seq<u8>, at: Seq<nat>, k: nat, n: nat, x: LoadError)
    requires
        k <= n,
        spec_components(buf, at, k) == Err::<Map<Seq<char>, CompView>, LoadError>(x),
    ensures
        spec_components(buf, at, n) == Err::<Map<Seq<char>, CompView>, LoadError>(x),
    decreases n,
{
    if k < n {
        lemma_error_stays(buf, at, k, (n - 1) as nat, x);
    }
}

/// Kinds other than the six that are read, such as those that only matter in training, are the
/// identity, whatever stands behind them.
pub proof fn law_other_kinds(buf: Seq<u8>, s: nat, e: nat, kind: Seq<char>)
    requires
        kind != "<NaturalGradientAffineComponent>"@,
        kind != "<FixedAffineComponent>"@,
        kind != "<LinearComponent>"@,
        kind != "<TdnnComponent>"@,
        kind != "<BatchNormComponent>"@,
        kind != "<RectifiedLinearComponent>"@,
    ensures
        spec_layer(buf, s, e, kind) == Ok::<CompView, LoadError>(CompView::Identity),
{
}

/// A matrix as it is written.
pub open spec fn written_mat(m: MatView) -> Seq<u8> {
    written_token(kind_token(0x4d)) + sized(pattern(m.r as i32)) + sized(pattern(m.c as i32)) + raw(
        m.d,
    )
}

/// A vector as it is written.
pub open spec fn written_vec(v: Seq<u32>) -> Seq<u8> {
    written_token(kind_token(0x56)) + sized(pattern(v.len() as i32)) + raw(v)
}

/// A matrix that is written behind its tag is read from there.
pub proof fn law_tagged_mat(
    buf: Seq<u8>,
    s: nat,
    e: nat,
    tok: Seq<u8>,
    m: MatView,
    rest: Seq<u8>,
)
    requires
        behind(buf, s, e, tok) == Some(written_mat(m) + rest),
        m.wf(),
        m.r <= i32::MAX,
        m.c <= i32::MAX,
    ensures
        needed_mat(buf, s, e, tok) == Ok::<MatView, LoadError>(m),
{
    law_float_matrix(m.r, m.c, m.d, rest);
}

/// A vector that is written behind its tag is read from there.
pub proof fn law_tagged_vec(
    buf: Seq<u8>,
    s: nat,
    e: nat,
    tok: Seq<u8>,
    v: Seq<u32>,
    rest: Seq<u8>,
)
    requires
        behind(buf, s, e, tok) == Some(written_vec(v) + rest),
        v.len() <= i32::MAX,
    ensures
        needed_vec(buf, s, e, tok) == Ok::<Seq<u32>, LoadError>(v),
        optional_vec(buf, s, e, tok) == Ok::<Seq<u32>, LoadError>(v),
{
    law_float_vec(v, rest);
}

} // verus!
