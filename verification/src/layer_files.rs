//! What the layers of a network are in its file: items behind their tags, in any order.

use vstd::prelude::*;

use crate::components::{
    all_components, behind, component_tag, spec_component, spec_components, spec_layer, starts,
    written_mat, written_vec, CompView, LoadError,
};
use crate::cosines::gap;
use crate::kaldi_io::{
    is_separator, latin, law_f32, law_float_matrix, law_float_vec, law_i32_vec, law_token, pattern,
    raw, sized, spec_token, written_token,
};
use crate::mat::MatView;
use crate::scan::{ascii, first_match, law_first_match, occurs_at};
use crate::values::{finite, power, size_of, value};

verus! {

/// Between `s` and `e` stands `tag`, for the first time at `p`, and `body` behind it.
pub open spec fn tagged_at(
    buf: Seq<u8>,
    s: int,
    e: int,
    tag: Seq<char>,
    body: Seq<u8>,
    p: int,
) -> bool {
    let n = tag.len();
    &&& s <= p && p + n <= e
    &&& buf.subrange(p, p + n) == ascii(tag)
    &&& forall|q: int|
        #![trigger buf.subrange(q, q + n)]
        s <= q < p ==> buf.subrange(q, q + n) != ascii(tag)
    &&& p + n + body.len() <= buf.len()
    &&& buf.subrange(p + n, p + n + body.len()) == body
}

/// Between `s` and `e` stands `tag` with `body` behind it.
pub open spec fn tagged(buf: Seq<u8>, s: int, e: int, tag: Seq<char>, body: Seq<u8>) -> bool {
    exists|p: int| #[trigger] tagged_at(buf, s, e, tag, body, p)
}

/// Between `s` and `e` there is no `tag`.
pub open spec fn untagged(buf: Seq<u8>, s: int, e: int, tag: Seq<char>) -> bool {
    forall|q: int|
        #![trigger buf.subrange(q, q + tag.len())]
        s <= q && q + tag.len() <= e ==> buf.subrange(q, q + tag.len()) != ascii(tag)
}

proof fn lemma_tagged(
    buf: Seq<u8>,
    s: int,
    e: int,
    tag: Seq<char>,
    body: Seq<u8>,
) -> (rest: Seq<u8>)
    requires
        tagged(buf, s, e, tag, body),
        0 <= s <= e <= buf.len(),
        tag.len() > 0,
    ensures
        behind(buf, s as nat, e as nat, ascii(tag)) == Some(body + rest),
{
    let p = choose|p: int| #[trigger] tagged_at(buf, s, e, tag, body, p);
    let (part, tok) = (buf.subrange(s, e), ascii(tag));
    let n = tag.len() as int;
    law_first_match(part, tok, 0);
    assert(part.subrange(p - s, p - s + n) =~= buf.subrange(p, p + n));
    assert(occurs_at(part, tok, p - s));
    let off = first_match(part, tok, 0)->0;
    if off < p - s {
        assert(part.subrange(off as int, off + n) =~= buf.subrange(s + off, s + off + n));
        assert(buf.subrange(s + off, s + off + n) == tok);
        assert(false);
    }
    let rest = buf.skip(p + n + body.len());
    assert(buf.skip(p + n) =~= body + rest) by {
        let b = buf.subrange(p + n, p + n + body.len());
        assert forall|i: int| 0 <= i < body.len() implies buf.skip(p + n)[i] == (body + rest)[i] by {
            assert(b[i] == body[i]);
        }
    }
    rest
}

pub(crate) proof fn lemma_untagged(buf: Seq<u8>, s: int, e: int, tag: Seq<char>)
    requires
        untagged(buf, s, e, tag),
        0 <= s <= e <= buf.len(),
        tag.len() > 0,
    ensures
        behind(buf, s as nat, e as nat, ascii(tag)) is None,
{
    let (part, tok) = (buf.subrange(s, e), ascii(tag));
    let n = tag.len() as int;
    law_first_match(part, tok, 0);
    if let Some(off) = first_match(part, tok, 0) {
        assert(part.subrange(off as int, off + n) =~= buf.subrange(s + off, s + off + n));
        assert(false);
    }
}

/// Between `s` and `e` stands a matrix behind its tag.
pub open spec fn has_mat(buf: Seq<u8>, s: int, e: int, tag: Seq<char>, m: MatView) -> bool {
    m.wf() && m.r <= i32::MAX && m.c <= i32::MAX && tagged(buf, s, e, tag, written_mat(m))
}

/// Between `s` and `e` stands a vector behind its tag.
pub open spec fn has_vec(buf: Seq<u8>, s: int, e: int, tag: Seq<char>, v: Seq<u32>) -> bool {
    v.len() <= i32::MAX && tagged(buf, s, e, tag, written_vec(v))
}

/// Between `s` and `e` stands a vector behind its tag, or the tag is not there and the vector is
/// empty.
pub open spec fn may_have_vec(buf: Seq<u8>, s: int, e: int, tag: Seq<char>, v: Seq<u32>) -> bool {
    has_vec(buf, s, e, tag, v) || (untagged(buf, s, e, tag) && v.len() == 0)
}

/// Between `s` and `e` stands a number behind its tag.
pub open spec fn has_number(buf: Seq<u8>, s: int, e: int, tag: Seq<char>, x: u32) -> bool {
    tagged(buf, s, e, tag, sized(x))
}

proof fn lemma_mat(buf: Seq<u8>, s: int, e: int, tag: Seq<char>, m: MatView)
    requires
        has_mat(buf, s, e, tag, m),
        0 <= s <= e <= buf.len(),
        tag.len() > 0,
    ensures
        crate::components::needed_mat(buf, s as nat, e as nat, ascii(tag)) == Ok::<
            MatView,
            LoadError,
        >(m),
{
    let rest = lemma_tagged(buf, s, e, tag, written_mat(m));
    law_float_matrix(m.r, m.c, m.d, rest);
}

proof fn lemma_vec(buf: Seq<u8>, s: int, e: int, tag: Seq<char>, v: Seq<u32>)
    requires
        may_have_vec(buf, s, e, tag, v),
        0 <= s <= e <= buf.len(),
        tag.len() > 0,
    ensures
        crate::components::optional_vec(buf, s as nat, e as nat, ascii(tag)) == Ok::<
            Seq<u32>,
            LoadError,
        >(v),
        has_vec(buf, s, e, tag, v) ==> crate::components::needed_vec(
            buf,
            s as nat,
            e as nat,
            ascii(tag),
        ) == Ok::<Seq<u32>, LoadError>(v),
{
    if has_vec(buf, s, e, tag, v) {
        let rest = lemma_tagged(buf, s, e, tag, written_vec(v));
        law_float_vec(v, rest);
    } else {
        lemma_untagged(buf, s, e, tag);
        assert(v =~= Seq::empty());
    }
}

proof fn lemma_f32(buf: Seq<u8>, s: int, e: int, tag: Seq<char>, x: u32, default: u32)
    requires
        has_number(buf, s, e, tag, x) || (untagged(buf, s, e, tag) && x == default),
        0 <= s <= e <= buf.len(),
        tag.len() > 0,
    ensures
        crate::components::optional_f32(buf, s as nat, e as nat, ascii(tag), default) == Ok::<
            u32,
            LoadError,
        >(x),
{
    if has_number(buf, s, e, tag, x) {
        let rest = lemma_tagged(buf, s, e, tag, sized(x));
        law_f32(x, rest);
    } else {
        lemma_untagged(buf, s, e, tag);
    }
}

/// The names of kinds differ in length.
pub(crate) proof fn lemma_kinds()
    ensures
        "<RectifiedLinearComponent>"@.len() == 26,
        "<BatchNormComponent>"@.len() == 20,
        "<TdnnComponent>"@.len() == 15,
        "<LinearComponent>"@.len() == 17,
        "<NaturalGradientAffineComponent>"@.len() == 32,
        "<FixedAffineComponent>"@.len() == 22,
{
    reveal_strlit("<RectifiedLinearComponent>");
    reveal_strlit("<BatchNormComponent>");
    reveal_strlit("<TdnnComponent>");
    reveal_strlit("<LinearComponent>");
    reveal_strlit("<NaturalGradientAffineComponent>");
    reveal_strlit("<FixedAffineComponent>");
}

/// An affine layer has the weights behind `<LinearParams>` and the bias behind `<BiasParams>`, or
/// none where that is not there.
pub proof fn law_affine_file(
    buf: Seq<u8>,
    s: int,
    e: int,
    kind: Seq<char>,
    w: MatView,
    b: Seq<u32>,
)
    requires
        0 <= s <= e <= buf.len(),
        kind == "<NaturalGradientAffineComponent>"@ || kind == "<FixedAffineComponent>"@,
        has_mat(buf, s, e, "<LinearParams> "@, w),
        may_have_vec(buf, s, e, "<BiasParams> "@, b),
    ensures
        spec_layer(buf, s as nat, e as nat, kind) == Ok::<CompView, LoadError>(
            CompView::Affine { w, b },
        ),
{
    reveal_strlit("<LinearParams> ");
    reveal_strlit("<BiasParams> ");
    lemma_mat(buf, s, e, "<LinearParams> "@, w);
    lemma_vec(buf, s, e, "<BiasParams> "@, b);
}

/// A linear layer has the weights behind `<Params>`.
pub proof fn law_linear_file(buf: Seq<u8>, s: int, e: int, w: MatView)
    requires
        0 <= s <= e <= buf.len(),
        has_mat(buf, s, e, "<Params> "@, w),
    ensures
        spec_layer(buf, s as nat, e as nat, "<LinearComponent>"@) == Ok::<CompView, LoadError>(
            CompView::Linear { w },
        ),
{
    lemma_kinds();
    reveal_strlit("<Params> ");
    lemma_mat(buf, s, e, "<Params> "@, w);
}

/// A time-delay layer has the offsets behind `<TimeOffsets>`, the weights behind `<LinearParams>`
/// and the bias behind `<BiasParams>`, or none where that is not there.
pub proof fn law_time_delay_file(
    buf: Seq<u8>,
    s: int,
    e: int,
    offsets: Seq<i32>,
    w: MatView,
    b: Seq<u32>,
)
    requires
        0 <= s <= e <= buf.len(),
        offsets.len() <= i32::MAX,
        tagged(
            buf,
            s,
            e,
            "<TimeOffsets> "@,
            sized(pattern(offsets.len() as i32)) + raw(offsets.map_values(|x: i32| pattern(x))),
        ),
        has_mat(buf, s, e, "<LinearParams> "@, w),
        may_have_vec(buf, s, e, "<BiasParams> "@, b),
    ensures
        spec_layer(buf, s as nat, e as nat, "<TdnnComponent>"@) == Ok::<CompView, LoadError>(
            CompView::Tdnn { offsets, w, b },
        ),
{
    lemma_kinds();
    reveal_strlit("<TimeOffsets> ");
    reveal_strlit("<LinearParams> ");
    reveal_strlit("<BiasParams> ");
    let body = sized(pattern(offsets.len() as i32)) + raw(offsets.map_values(|x: i32| pattern(x)));
    let rest = lemma_tagged(buf, s, e, "<TimeOffsets> "@, body);
    law_i32_vec(offsets, rest);
    lemma_mat(buf, s, e, "<LinearParams> "@, w);
    lemma_vec(buf, s, e, "<BiasParams> "@, b);
}

/// A normalising layer has the means behind `<StatsMean>`, the variances behind `<StatsVar>`,
/// epsilon behind `<Epsilon>`, or 0.001 where that is not there, and the target behind
/// `<TargetRms>`, or 1 where that is not there.
pub proof fn law_batch_norm_file(
    buf: Seq<u8>,
    s: int,
    e: int,
    mean: Seq<u32>,
    var: Seq<u32>,
    eps: Option<u32>,
    target: Option<u32>,
)
    requires
        0 <= s <= e <= buf.len(),
        has_vec(buf, s, e, "<StatsMean> "@, mean),
        has_vec(buf, s, e, "<StatsVar> "@, var),
        match eps {
            Some(x) => has_number(buf, s, e, "<Epsilon> "@, x),
            None => untagged(buf, s, e, "<Epsilon> "@),
        },
        match target {
            Some(x) => has_number(buf, s, e, "<TargetRms> "@, x),
            None => untagged(buf, s, e, "<TargetRms> "@),
        },
    ensures
        spec_layer(buf, s as nat, e as nat, "<BatchNormComponent>"@) matches Ok(
            CompView::BatchNorm { mean: m, var: v, eps: x, trms: y },
        ) && m == mean && v == var && match eps {
            Some(given) => x == given,
            None => finite(x) && gap(value(x), 1real / 1000real, 1real / 1000000000real),
        } && match target {
            Some(given) => y == given,
            None => finite(y) && value(y) == 1real,
        },
{
    lemma_kinds();
    reveal_strlit("<StatsMean> ");
    reveal_strlit("<StatsVar> ");
    reveal_strlit("<Epsilon> ");
    reveal_strlit("<TargetRms> ");
    lemma_vec(buf, s, e, "<StatsMean> "@, mean);
    lemma_vec(buf, s, e, "<StatsVar> "@, var);
    let x = match eps {
        Some(x) => x,
        None => 0x3a83_126fu32,
    };
    let y = match target {
        Some(y) => y,
        None => 0x3f80_0000u32,
    };
    lemma_f32(buf, s, e, "<Epsilon> "@, x, 0x3a83_126f);
    lemma_f32(buf, s, e, "<TargetRms> "@, y, 0x3f80_0000);
    reveal_with_fuel(power, 35);
    assert(size_of(0x3a83_126f) == 0x83_126freal * power(-33));
    assert(size_of(0x3f80_0000) == 0x80_0000real * power(-23));
}

/// A rectifying layer has no items.
pub proof fn law_relu_file(buf: Seq<u8>, s: nat, e: nat)
    ensures
        spec_layer(buf, s, e, "<RectifiedLinearComponent>"@) == Ok::<CompView, LoadError>(
            CompView::Relu,
        ),
{
    lemma_kinds();
}

/// The tag of a component stands at `p`.
pub open spec fn starts_at(buf: Seq<u8>, p: int) -> bool {
    0 <= p && p + 16 <= buf.len() && buf.subrange(p, p + 16) == ascii("<ComponentName> "@)
}

/// The component whose tag stands at `s` goes up to the next tag, or to the end of the file.
pub open spec fn goes_to(buf: Seq<u8>, s: int, e: int) -> bool {
    &&& s < e
    &&& e == buf.len() || starts_at(buf, e)
    &&& forall|q: int| s < q < e ==> !#[trigger] starts_at(buf, q)
}

/// The tag does not overlap itself.
proof fn lemma_apart(buf: Seq<u8>, p: int, q: int)
    requires
        starts_at(buf, p),
        starts_at(buf, q),
        p < q,
    ensures
        p + 16 <= q,
{
    reveal_strlit("<ComponentName> ");
    if q < p + 16 {
        let t = ascii("<ComponentName> "@);
        assert(buf.subrange(p, p + 16)[q - p] == t[q - p]);
        assert(buf.subrange(q, q + 16)[0] == t[0]);
        assert(t[0] == 0x3c);
        assert(t[q - p] != 0x3c);
    }
}

proof fn lemma_starts(buf: Seq<u8>, from: nat, s: int, e: int) -> (k: int)
    requires
        starts_at(buf, s),
        goes_to(buf, s, e),
        from <= s,
    ensures
        0 <= k < starts(buf, from).len(),
        starts(buf, from)[k] == s,
        e == (if k + 1 < starts(buf, from).len() {
            starts(buf, from)[k + 1] as int
        } else {
            buf.len() as int
        }),
        forall|j: int|
            0 <= j < starts(buf, from).len() ==> starts_at(buf, #[trigger] starts(buf, from)[j] as int),
        forall|j: int|
            k < j < starts(buf, from).len() ==> s < #[trigger] starts(buf, from)[j],
    decreases buf.len() - from,
{
    reveal_strlit("<ComponentName> ");
    let tag = component_tag();
    law_first_match(buf, tag, from);
    assert(occurs_at(buf, tag, s));
    let i = first_match(buf, tag, from)->0;
    assert(occurs_at(buf, tag, i as int));
    assert(starts_at(buf, i as int));
    let rest = starts(buf, i + 16);
    assert(starts(buf, from) == seq![i] + rest);
    if i == s {
        law_first_match(buf, tag, i + 16);
        lemma_all_starts(buf, i + 16);
        if starts_at(buf, e) {
            lemma_apart(buf, s, e);
            assert(occurs_at(buf, tag, e));
            let f = first_match(buf, tag, i + 16)->0;
            assert(occurs_at(buf, tag, f as int));
            assert(starts_at(buf, f as int));
            assert(f == e);
        } else {
            if let Some(f) = first_match(buf, tag, i + 16) {
                assert(occurs_at(buf, tag, f as int));
                assert(starts_at(buf, f as int));
            }
        }
        0
    } else {
        lemma_apart(buf, i as int, s);
        let k = lemma_starts(buf, i + 16, s, e);
        assert forall|j: int| 0 <= j < starts(buf, from).len() implies starts_at(
            buf,
            #[trigger] starts(buf, from)[j] as int,
        ) by {
            if j > 0 {
                assert(starts(buf, from)[j] == rest[j - 1]);
            }
        }
        assert forall|j: int| k + 1 < j < starts(buf, from).len() implies s < #[trigger] starts(
            buf,
            from,
        )[j] by {
            assert(starts(buf, from)[j] == rest[j - 1]);
        }
        k + 1
    }
}

proof fn lemma_all_starts(buf: Seq<u8>, from: nat)
    ensures
        forall|j: int|
            0 <= j < starts(buf, from).len() ==> starts_at(buf, #[trigger] starts(buf, from)[j] as int)
                && starts(buf, from)[j] >= from,
    decreases buf.len() - from,
{
    reveal_strlit("<ComponentName> ");
    let tag = component_tag();
    law_first_match(buf, tag, from);
    if let Some(i) = first_match(buf, tag, from) {
        assert(occurs_at(buf, tag, i as int));
        let rest = starts(buf, i + 16);
        assert(starts(buf, from) == seq![i] + rest);
        lemma_all_starts(buf, i + 16);
        assert forall|j: int| 0 <= j < starts(buf, from).len() implies starts_at(
            buf,
            #[trigger] starts(buf, from)[j] as int,
        ) && starts(buf, from)[j] >= from by {
            if j > 0 {
                assert(starts(buf, from)[j] == rest[j - 1]);
            }
        }
    }
}

proof fn lemma_named(buf: Seq<u8>, at: Seq<nat>, k: int, n: nat, name: Seq<char>, layer: CompView)
    requires
        0 <= k < n <= at.len(),
        spec_components(buf, at, n) is Ok,
        spec_component(
            buf,
            at[k],
            if k + 1 < at.len() {
                at[k + 1]
            } else {
                buf.len()
            },
        ) == Ok::<(Seq<char>, CompView), LoadError>((name, layer)),
        forall|j: int|
            k < j < n ==> (spec_token(buf.skip((#[trigger] at[j]) as int + 16)) matches Ok((other, rest))
                ==> other != name),
    ensures
        spec_components(buf, at, n)->Ok_0.contains_pair(name, layer),
    decreases n,
{
    reveal_strlit("<ComponentName> ");
    if k + 1 < n {
        lemma_named(buf, at, k, (n - 1) as nat, name, layer);
        let a = at[n - 1];
    }
}

/// A component in a file is found under its name, as the layer that its kind and its items make,
/// if no later component has the same name.
pub proof fn law_component_file(
    buf: Seq<u8>,
    m: Map<Seq<char>, CompView>,
    s: int,
    e: int,
    name: Seq<u8>,
    kind: Seq<u8>,
    rest: Seq<u8>,
    layer: CompView,
)
    requires
        all_components(buf) == Ok::<Map<Seq<char>, CompView>, LoadError>(m),
        starts_at(buf, s),
        goes_to(buf, s, e),
        buf.skip(s + 16) == name + seq![0x20u8] + kind + seq![0x20u8] + rest,
        name.len() > 0 && forall|i: int|
            0 <= i < name.len() ==> !is_separator(#[trigger] name[i]),
        kind.len() > 0 && forall|i: int|
            0 <= i < kind.len() ==> !is_separator(#[trigger] kind[i]),
        spec_layer(buf, s as nat, e as nat, latin(kind)) == Ok::<CompView, LoadError>(layer),
        forall|p: int| #[trigger]
            starts_at(buf, p) && s < p ==> (spec_token(buf.skip(p + 16)) matches Ok((other, _))
                ==> other != latin(name)),
    ensures
        m.contains_pair(latin(name), layer),
{
    reveal_strlit("<ComponentName> ");
    let at = starts(buf, 0);
    let k = lemma_starts(buf, 0, s, e);
    let none = Seq::<u8>::empty();
    let t = buf.skip(s + 16);
    let u = kind + seq![0x20u8] + rest;
    assert(t =~= none + written_token(name) + u);
    law_token(none, name, u);
    assert(u =~= none + written_token(kind) + rest);
    law_token(none, kind, rest);
    assert forall|j: int| k < j < at.len() implies (spec_token(buf.skip((#[trigger] at[j]) as int + 16)) matches Ok(
        (other, _),
    ) ==> other != latin(name)) by {
        assert(starts_at(buf, at[j] as int));
    }
    lemma_named(buf, at, k, at.len(), latin(name), layer);
}

} // verus!
