//! Components of two files put together.

use vstd::prelude::*;

use crate::components::{
    all_components, behind, component_tag, needed_mat, needed_offsets, needed_vec, optional_f32,
    optional_vec, spec_affine, spec_batch_norm, spec_component, spec_components, spec_layer,
    spec_linear, spec_tdnn, starts,
};
use crate::kaldi_io::{
    i32_at, is_separator, run, spec_f32, spec_f32_raw, spec_float_matrix, spec_float_vec, spec_i32,
    spec_i32_vec, spec_token, u32_at, Parsed, ReadError,
};
use crate::scan::{ascii, first_match, law_first_match, occurs_at};

verus! {

/// Reading from a longer stream gives what reading from the shorter one gave, with more left.
pub open spec fn extends<T>(p: Parsed<T>, q: Parsed<T>, more: Seq<u8>) -> bool {
    p matches Ok((v, rest)) ==> q == Ok::<(T, Seq<u8>), ReadError>((v, rest + more))
}

proof fn lemma_run_more(s: Seq<u8>, t: Seq<u8>, sep: bool)
    ensures
        run(s, sep) <= s.len(),
        run(s, sep) < s.len() ==> run(s + t, sep) == run(s, sep),
    decreases s.len(),
{
    if s.len() > 0 {
        assert((s + t)[0] == s[0]);
        if is_separator(s[0]) == sep {
            lemma_run_more(s.skip(1), t, sep);
            assert((s + t).skip(1) =~= s.skip(1) + t);
        }
    }
}

proof fn lemma_token_more(s: Seq<u8>, t: Seq<u8>)
    ensures
        extends(spec_token(s), spec_token(s + t), t),
{
    if spec_token(s) is Ok {
        let a = run(s, true) as int;
        let u = s.skip(a);
        let n = run(u, false) as int;
        lemma_run_more(s, t, true);
        lemma_run_more(u, t, false);
        assert(a < s.len());
        assert((s + t).skip(a) =~= u + t);
        assert((u + t).take(n) =~= u.take(n));
        assert((u + t).skip(n + 1) =~= u.skip(n + 1) + t);
    }
}

proof fn lemma_i32_more(s: Seq<u8>, t: Seq<u8>)
    ensures
        extends(spec_i32(s), spec_i32(s + t), t),
        extends(spec_f32(s), spec_f32(s + t), t),
{
    if s.len() >= 5 {
        assert((s + t).skip(5) =~= s.skip(5) + t);
    }
}

proof fn lemma_raw_more(s: Seq<u8>, t: Seq<u8>, n: nat)
    ensures
        extends(spec_f32_raw(s, n), spec_f32_raw(s + t, n), t),
{
    if s.len() >= 4 * n {
        assert(Seq::new(n, |i: int| u32_at(s + t, 4 * i)) =~= Seq::new(n, |i: int| u32_at(s, 4 * i)));
        assert((s + t).skip(4 * n as int) =~= s.skip(4 * n as int) + t);
    }
}

proof fn lemma_i32_vec_more(s: Seq<u8>, t: Seq<u8>)
    ensures
        extends(spec_i32_vec(s), spec_i32_vec(s + t), t),
{
    lemma_i32_more(s, t);
    if let Ok((n, r)) = spec_i32(s) {
        if n >= 0 && r.len() >= 4 * n {
            let m = n as nat;
            assert(Seq::new(m, |i: int| i32_at(r + t, 4 * i)) =~= Seq::new(
                m,
                |i: int| i32_at(r, 4 * i),
            ));
            assert((r + t).skip(4 * n) =~= r.skip(4 * n) + t);
        }
    }
}

proof fn lemma_float_vec_more(s: Seq<u8>, t: Seq<u8>)
    ensures
        extends(spec_float_vec(s), spec_float_vec(s + t), t),
{
    lemma_token_more(s, t);
    if let Ok((tok, r)) = spec_token(s) {
        lemma_i32_more(r, t);
        if let Ok((dim, r2)) = spec_i32(r) {
            if dim >= 0 {
                lemma_raw_more(r2, t, dim as nat);
            }
        }
    }
}

proof fn lemma_matrix_more(s: Seq<u8>, t: Seq<u8>)
    ensures
        extends(spec_float_matrix(s), spec_float_matrix(s + t), t),
{
    lemma_token_more(s, t);
    if let Ok((tok, r)) = spec_token(s) {
        lemma_i32_more(r, t);
        if let Ok((rows, r2)) = spec_i32(r) {
            lemma_i32_more(r2, t);
            if let Ok((cols, r3)) = spec_i32(r2) {
                if rows >= 0 && cols >= 0 {
                    lemma_raw_more(r3, t, (rows * cols) as nat);
                }
            }
        }
    }
}

/// What stands behind a token in a part of the first file is still there, with the second file
/// behind it.
proof fn lemma_behind_front(a: Seq<u8>, b: Seq<u8>, s: nat, e: nat, tok: Seq<u8>)
    requires
        s <= e <= a.len(),
        tok.len() > 0,
    ensures
        behind(a + b, s, e, tok) == (match behind(a, s, e, tok) {
            Some(rest) => Some(rest + b),
            None => None,
        }),
{
    let part = a.subrange(s as int, e as int);
    assert((a + b).subrange(s as int, e as int) =~= part);
    law_first_match(part, tok, 0);
    if let Some(off) = first_match(part, tok, 0) {
        let p = (s + off + tok.len()) as int;
        assert((a + b).skip(p) =~= a.skip(p) + b);
    }
}

proof fn lemma_needed_front(a: Seq<u8>, b: Seq<u8>, s: nat, e: nat, tok: Seq<u8>)
    requires
        s <= e <= a.len(),
        tok.len() > 0,
    ensures
        needed_mat(a, s, e, tok) is Ok ==> needed_mat(a + b, s, e, tok) == needed_mat(a, s, e, tok),
        needed_vec(a, s, e, tok) is Ok ==> needed_vec(a + b, s, e, tok) == needed_vec(a, s, e, tok),
        optional_vec(a, s, e, tok) is Ok ==> optional_vec(a + b, s, e, tok) == optional_vec(
            a,
            s,
            e,
            tok,
        ),
        needed_offsets(a, s, e, tok) is Ok ==> needed_offsets(a + b, s, e, tok) == needed_offsets(
            a,
            s,
            e,
            tok,
        ),
        forall|d: u32| #[trigger]
            optional_f32(a, s, e, tok, d) is Ok ==> optional_f32(a + b, s, e, tok, d)
                == optional_f32(a, s, e, tok, d),
{
    lemma_behind_front(a, b, s, e, tok);
    if let Some(rest) = behind(a, s, e, tok) {
        lemma_matrix_more(rest, b);
        lemma_float_vec_more(rest, b);
        lemma_i32_vec_more(rest, b);
        lemma_i32_more(rest, b);
    }
}

proof fn lemma_tags()
    ensures
        ascii("<LinearParams> "@).len() > 0,
        ascii("<BiasParams> "@).len() > 0,
        ascii("<Params> "@).len() > 0,
        ascii("<TimeOffsets> "@).len() > 0,
        ascii("<StatsMean> "@).len() > 0,
        ascii("<StatsVar> "@).len() > 0,
        ascii("<Epsilon> "@).len() > 0,
        ascii("<TargetRms> "@).len() > 0,
{
    reveal_strlit("<LinearParams> ");
    reveal_strlit("<BiasParams> ");
    reveal_strlit("<Params> ");
    reveal_strlit("<TimeOffsets> ");
    reveal_strlit("<StatsMean> ");
    reveal_strlit("<StatsVar> ");
    reveal_strlit("<Epsilon> ");
    reveal_strlit("<TargetRms> ");
}

proof fn lemma_layer_front(a: Seq<u8>, b: Seq<u8>, s: nat, e: nat, kind: Seq<char>)
    requires
        s <= e <= a.len(),
        spec_layer(a, s, e, kind) is Ok,
    ensures
        spec_layer(a + b, s, e, kind) == spec_layer(a, s, e, kind),
{
    lemma_tags();
    lemma_needed_front(a, b, s, e, ascii("<LinearParams> "@));
    lemma_needed_front(a, b, s, e, ascii("<BiasParams> "@));
    lemma_needed_front(a, b, s, e, ascii("<Params> "@));
    lemma_needed_front(a, b, s, e, ascii("<TimeOffsets> "@));
    lemma_needed_front(a, b, s, e, ascii("<StatsMean> "@));
    lemma_needed_front(a, b, s, e, ascii("<StatsVar> "@));
    lemma_needed_front(a, b, s, e, ascii("<Epsilon> "@));
    lemma_needed_front(a, b, s, e, ascii("<TargetRms> "@));
    assert(spec_affine(a, s, e) is Ok ==> spec_affine(a + b, s, e) == spec_affine(a, s, e));
    assert(spec_linear(a, s, e) is Ok ==> spec_linear(a + b, s, e) == spec_linear(a, s, e));
    assert(spec_tdnn(a, s, e) is Ok ==> spec_tdnn(a + b, s, e) == spec_tdnn(a, s, e));
    assert(spec_batch_norm(a, s, e) is Ok ==> spec_batch_norm(a + b, s, e) == spec_batch_norm(
        a,
        s,
        e,
    ));
}

/// A component of the first file is read from both together as from the first alone.
proof fn lemma_component_front(a: Seq<u8>, b: Seq<u8>, s: nat, e: nat)
    requires
        s <= e <= a.len(),
        s + component_tag().len() <= a.len(),
        spec_component(a, s, e) is Ok,
    ensures
        spec_component(a + b, s, e) == spec_component(a, s, e),
{
    let p = (s + component_tag().len()) as int;
    let rest = a.skip(p);
    assert((a + b).skip(p) =~= rest + b);
    lemma_token_more(rest, b);
    if let Ok((name, r)) = spec_token(rest) {
        lemma_token_more(r, b);
        if let Ok((kind, r2)) = spec_token(r) {
            lemma_layer_front(a, b, s, e, kind);
        }
    }
}

/// What stands behind a token in a part of the second file is what stands there in both together.
proof fn lemma_behind_back(a: Seq<u8>, b: Seq<u8>, s: nat, e: nat, tok: Seq<u8>)
    requires
        s <= e <= b.len(),
        tok.len() > 0,
    ensures
        behind(a + b, a.len() + s, a.len() + e, tok) == behind(b, s, e, tok),
{
    let n = a.len();
    let part = b.subrange(s as int, e as int);
    assert((a + b).subrange((n + s) as int, (n + e) as int) =~= part);
    law_first_match(part, tok, 0);
    if let Some(off) = first_match(part, tok, 0) {
        let q = (s + off + tok.len()) as int;
        assert((a + b).skip(n + q) =~= b.skip(q));
    }
}

proof fn lemma_layer_back(a: Seq<u8>, b: Seq<u8>, s: nat, e: nat, kind: Seq<char>)
    requires
        s <= e <= b.len(),
    ensures
        spec_layer(a + b, a.len() + s, a.len() + e, kind) == spec_layer(b, s, e, kind),
{
    lemma_tags();
    lemma_behind_back(a, b, s, e, ascii("<LinearParams> "@));
    lemma_behind_back(a, b, s, e, ascii("<BiasParams> "@));
    lemma_behind_back(a, b, s, e, ascii("<Params> "@));
    lemma_behind_back(a, b, s, e, ascii("<TimeOffsets> "@));
    lemma_behind_back(a, b, s, e, ascii("<StatsMean> "@));
    lemma_behind_back(a, b, s, e, ascii("<StatsVar> "@));
    lemma_behind_back(a, b, s, e, ascii("<Epsilon> "@));
    lemma_behind_back(a, b, s, e, ascii("<TargetRms> "@));
}

/// A component of the second file is read from both together as from the second alone.
proof fn lemma_component_back(a: Seq<u8>, b: Seq<u8>, s: nat, e: nat)
    requires
        s <= e <= b.len(),
        s + component_tag().len() <= b.len(),
    ensures
        spec_component(a + b, a.len() + s, a.len() + e) == spec_component(b, s, e),
{
    let n = a.len();
    let p = (s + component_tag().len()) as int;
    assert((a + b).skip(n + p) =~= b.skip(p));
    if let Ok((name, r)) = spec_token(b.skip(p)) {
        if let Ok((kind, r2)) = spec_token(r) {
            lemma_layer_back(a, b, s, e, kind);
        }
    }
}

/// Places further on by `n`.
pub open spec fn moved(at: Seq<nat>, n: nat) -> Seq<nat> {
    Seq::new(at.len(), |i: int| at[i] + n)
}

proof fn lemma_tag()
    ensures
        component_tag().len() == 16,
        component_tag()[0] == 0x3c,
        forall|i: int| 0 < i < 16 ==> #[trigger] component_tag()[i] != 0x3c,
{
    reveal_strlit("<ComponentName> ");
}

/// A tag that begins in the first file ends there.
proof fn lemma_apart(a: Seq<u8>, b: Seq<u8>, q: int)
    requires
        occurs_at(b, component_tag(), 0),
    ensures
        0 <= q < a.len() ==> (occurs_at(a + b, component_tag(), q) <==> occurs_at(
            a,
            component_tag(),
            q,
        )),
        q >= a.len() ==> (occurs_at(a + b, component_tag(), q) <==> occurs_at(
            b,
            component_tag(),
            q - a.len(),
        )),
{
    lemma_tag();
    let tag = component_tag();
    let both = a + b;
    if 0 <= q < a.len() {
        if q + 16 <= a.len() {
            assert(both.subrange(q, q + 16) =~= a.subrange(q, q + 16));
        } else if occurs_at(both, tag, q) {
            let k = a.len() - q;
            assert(both.subrange(q, q + 16)[k] == both[a.len() as int]);
            assert(b.subrange(0, 16)[0] == tag[0]);
            assert(tag[k] == 0x3c);
        }
    } else if q >= a.len() && q + 16 <= both.len() {
        assert(both.subrange(q, q + 16) =~= b.subrange(q - a.len(), q - a.len() + 16));
    }
}

/// The tags of the second file stand in both together where they stood, behind the first file.
proof fn lemma_starts_back(a: Seq<u8>, b: Seq<u8>, from: nat)
    requires
        occurs_at(b, component_tag(), 0),
    ensures
        starts(a + b, a.len() + from) == moved(starts(b, from), a.len()),
    decreases b.len() - from,
{
    lemma_tag();
    let tag = component_tag();
    let both = a + b;
    let n = a.len();
    law_first_match(both, tag, n + from);
    law_first_match(b, tag, from);
    match first_match(b, tag, from) {
        None => {
            if let Some(p) = first_match(both, tag, n + from) {
                lemma_apart(a, b, p as int);
                assert(occurs_at(b, tag, p - n));
            }
            assert(starts(both, n + from) =~= moved(starts(b, from), n));
        },
        Some(i) => {
            lemma_apart(a, b, (n + i) as int);
            assert(occurs_at(both, tag, (n + i) as int));
            if let Some(p) = first_match(both, tag, n + from) {
                lemma_apart(a, b, p as int);
                if p < n + i {
                    assert(occurs_at(b, tag, p - n));
                }
            }
            assert(first_match(both, tag, n + from) == Some(n + i));
            lemma_starts_back(a, b, i + 16);
            assert(starts(both, n + from) =~= moved(starts(b, from), n));
        },
    }
}

/// The tags of both files together: those of the first, and then those of the second.
proof fn lemma_starts(a: Seq<u8>, b: Seq<u8>, from: nat)
    requires
        occurs_at(b, component_tag(), 0),
        from <= a.len(),
    ensures
        starts(a + b, from) == starts(a, from) + moved(starts(b, 0), a.len()),
    decreases a.len() - from,
{
    lemma_tag();
    let tag = component_tag();
    let both = a + b;
    let n = a.len();
    law_first_match(both, tag, from);
    law_first_match(a, tag, from);
    lemma_apart(a, b, n as int);
    assert(occurs_at(both, tag, n as int));
    match first_match(a, tag, from) {
        None => {
            if let Some(p) = first_match(both, tag, from) {
                lemma_apart(a, b, p as int);
                if p < n {
                    assert(occurs_at(a, tag, p as int));
                }
            }
            assert(first_match(both, tag, from) == Some(n));
            lemma_starts_back(a, b, 0);
            law_first_match(both, tag, n);
            assert(first_match(both, tag, n) == Some(n));
            assert(starts(both, from) =~= starts(both, n));
            assert(starts(both, from) =~= starts(a, from) + moved(starts(b, 0), n));
        },
        Some(i) => {
            lemma_apart(a, b, i as int);
            assert(occurs_at(both, tag, i as int));
            if let Some(p) = first_match(both, tag, from) {
                lemma_apart(a, b, p as int);
                if p < i {
                    assert(occurs_at(a, tag, p as int));
                }
            }
            assert(first_match(both, tag, from) == Some(i));
            lemma_starts(a, b, i + 16);
            assert(starts(both, from) =~= starts(a, from) + moved(starts(b, 0), n));
        },
    }
}

/// Tags stand within the file, in order.
proof fn lemma_places(buf: Seq<u8>, from: nat)
    ensures
        forall|i: int|
            0 <= i < starts(buf, from).len() ==> from <= #[trigger] starts(buf, from)[i]
                && starts(buf, from)[i] + 16 <= buf.len(),
        forall|i: int, j: int|
            0 <= i < j < starts(buf, from).len() ==> #[trigger] starts(buf, from)[i]
                <= #[trigger] starts(buf, from)[j],
    decreases buf.len() - from,
{
    lemma_tag();
    law_first_match(buf, component_tag(), from);
    if let Some(p) = first_match(buf, component_tag(), from) {
        lemma_places(buf, p + 16);
        let rest = starts(buf, p + 16);
        let all = starts(buf, from);
        assert(all =~= seq![p] + rest);
        assert forall|i: int| 0 <= i < all.len() implies from <= #[trigger] all[i] && all[i] + 16
            <= buf.len() by {
            if i > 0 {
                assert(all[i] == rest[i - 1]);
            }
        }
        assert forall|i: int, j: int| 0 <= i < j < all.len() implies #[trigger] all[i]
            <= #[trigger] all[j] by {
            assert(all[j] == rest[j - 1]);
            if i > 0 {
                assert(all[i] == rest[i - 1]);
            }
        }
    }
}

proof fn lemma_front(a: Seq<u8>, b: Seq<u8>, k: nat)
    requires
        occurs_at(b, component_tag(), 0),
        k <= starts(a, 0).len(),
        spec_components(a, starts(a, 0), k) is Ok,
    ensures
        spec_components(a + b, starts(a + b, 0), k) == spec_components(a, starts(a, 0), k),
    decreases k,
{
    lemma_tag();
    let sa = starts(a, 0);
    let sb = moved(starts(b, 0), a.len());
    let all = starts(a + b, 0);
    lemma_starts(a, b, 0);
    if k > 0 {
        lemma_front(a, b, (k - 1) as nat);
        lemma_places(a, 0);
        let e = if k < sa.len() {
            sa[k as int]
        } else {
            a.len()
        };
        assert(all[k - 1] == sa[k - 1]);
        if k < sa.len() {
            assert(all[k as int] == sa[k as int]);
            assert(sa[k - 1] <= sa[k as int]);
        } else {
            law_first_match(b, component_tag(), 0);
            assert(starts(b, 0)[0] == 0);
            assert(all[k as int] == sb[0]);
        }
        assert(sa[k - 1] + 16 <= a.len());
        lemma_component_front(a, b, sa[k - 1], e);
    }
}

proof fn lemma_back(a: Seq<u8>, b: Seq<u8>, j: nat)
    requires
        occurs_at(b, component_tag(), 0),
        j <= starts(b, 0).len(),
        all_components(a) is Ok,
    ensures
        spec_components(a + b, starts(a + b, 0), starts(a, 0).len() + j) == (match spec_components(
            b,
            starts(b, 0),
            j,
        ) {
            Ok(m) => Ok(all_components(a)->Ok_0.union_prefer_right(m)),
            Err(x) => Err(x),
        }),
    decreases j,
{
    lemma_tag();
    let sa = starts(a, 0);
    let sb = starts(b, 0);
    let all = starts(a + b, 0);
    let n = sa.len();
    lemma_starts(a, b, 0);
    if j == 0 {
        lemma_front(a, b, n);
        let m = all_components(a)->Ok_0;
        assert(m.union_prefer_right(Map::empty()) =~= m);
    } else {
        lemma_back(a, b, (j - 1) as nat);
        lemma_places(b, 0);
        let e = if j < sb.len() {
            sb[j as int]
        } else {
            b.len()
        };
        assert(all[n + j - 1] == sb[j - 1] + a.len());
        if j < sb.len() {
            assert(all[(n + j) as int] == sb[j as int] + a.len());
            assert(sb[j - 1] <= sb[j as int]);
        }
        assert(sb[j - 1] + 16 <= b.len());
        lemma_component_back(a, b, sb[j - 1], e);
        if let Ok(m) = spec_components(b, sb, (j - 1) as nat) {
            if let Ok((name, layer)) = spec_component(b, sb[j - 1], e) {
                let ma = all_components(a)->Ok_0;
                assert(ma.union_prefer_right(m).insert(name, layer) =~= ma.union_prefer_right(
                    m.insert(name, layer),
                ));
            }
        }
    }
}

/// Components of two files put together, the second of which begins with a component, are those of
/// both; of two with one name the one in the second file counts.
pub proof fn law_appended(a: Seq<u8>, b: Seq<u8>)
    requires
        all_components(a) is Ok,
        occurs_at(b, component_tag(), 0),
    ensures
        all_components(a + b) == (match all_components(b) {
            Ok(m) => Ok(all_components(a)->Ok_0.union_prefer_right(m)),
            Err(x) => Err(x),
        }),
{
    lemma_starts(a, b, 0);
    lemma_back(a, b, starts(b, 0).len());
}

} // verus!
