//! The word table of a model, and words as text.

use vstd::prelude::*;

use crate::text::{
    after_word, chars_of, first_word, is_space, is_text, lemma_first_word, lemma_space_in_front,
    lemma_word_in_front, lines, parse_usize, spec_usize, split_lines, split_word, string_of, texts,
};

verus! {

/// A word and its number: the first two words of a line. A number that is none counts as 0.
pub open spec fn entry(line: Seq<char>) -> Option<(Seq<char>, usize)> {
    match first_word(line) {
        None => None,
        Some(w) => match first_word(after_word(line)) {
            None => None,
            Some(i) => Some(
                (
                    w,
                    match spec_usize(i) {
                        Some(n) => n,
                        None => 0,
                    },
                ),
            ),
        },
    }
}

/// The word of a line that has one.
pub open spec fn entry_word(line: Seq<char>) -> Seq<char> {
    let (w, id) = entry(line)->0;
    w
}

/// The number of a line that has one.
pub open spec fn entry_id(line: Seq<char>) -> usize {
    let (w, id) = entry(line)->0;
    id
}

/// A table with `w` at place `id`, with empty words in front of it where the table was shorter.
pub open spec fn placed(t: Seq<Seq<char>>, id: nat, w: Seq<char>) -> Seq<Seq<char>> {
    Seq::new(
        if id < t.len() {
            t.len()
        } else {
            id + 1
        },
        |i: int|
            if i == id {
                w
            } else if i < t.len() {
                t[i]
            } else {
                Seq::empty()
            },
    )
}

/// The table that the first `k` lines make. There is none where a number is the largest there is.
pub open spec fn spec_words(ls: Seq<Seq<char>>, k: nat) -> Option<Seq<Seq<char>>>
    decreases k,
{
    if k == 0 {
        Some(Seq::empty())
    } else {
        match spec_words(ls, (k - 1) as nat) {
            None => None,
            Some(t) => match entry(ls[k - 1]) {
                None => Some(t),
                Some((w, id)) => if id == usize::MAX {
                    None
                } else {
                    Some(placed(t, id as nat, w))
                },
            },
        }
    }
}

/// The word table of a text.
pub open spec fn word_table(text: Seq<char>) -> Option<Seq<Seq<char>>> {
    spec_words(lines(text), lines(text).len())
}

/// Line `j` puts its word under its number, and no later line uses that number.
pub open spec fn stands(ls: Seq<Seq<char>>, j: int, k: nat) -> bool {
    &&& 0 <= j < k
    &&& entry(ls[j]) is Some
    &&& forall|i: int|
        j < i < k && (#[trigger] entry(ls[i])) is Some ==> entry_id(ls[i]) != entry_id(ls[j])
}

/// A word is found under its number, unless a later line uses the number again.
pub proof fn law_lookup(ls: Seq<Seq<char>>, j: int, k: nat)
    requires
        stands(ls, j, k),
        spec_words(ls, k) is Some,
    ensures
        entry_id(ls[j]) < spec_words(ls, k)->0.len(),
        spec_words(ls, k)->0[entry_id(ls[j]) as int] == entry_word(ls[j]),
    decreases k,
{
    if j < k - 1 {
        assert(stands(ls, j, (k - 1) as nat));
        law_lookup(ls, j, (k - 1) as nat);
        assert(entry(ls[k - 1]) is Some ==> entry_id(ls[k - 1]) != entry_id(ls[j]));
    }
}

/// Under a number that no line uses there is no word.
pub proof fn law_no_word(ls: Seq<Seq<char>>, id: nat, k: nat)
    requires
        spec_words(ls, k) is Some,
        forall|i: int| 0 <= i < k && (#[trigger] entry(ls[i])) is Some ==> entry_id(ls[i]) != id,
    ensures
        id < spec_words(ls, k)->0.len() ==> spec_words(ls, k)->0[id as int].len() == 0,
    decreases k,
{
    if k > 0 {
        law_no_word(ls, id, (k - 1) as nat);
        assert(entry(ls[k - 1]) is Some ==> entry_id(ls[k - 1]) != id);
    }
}

proof fn lemma_none_stays(ls: Seq<Seq<char>>, k: nat, n: nat)
    requires
        k <= n,
        spec_words(ls, k) is None,
    ensures
        spec_words(ls, n) is None,
    decreases n,
{
    if k < n {
        lemma_none_stays(ls, k, (n - 1) as nat);
    }
}

/// A word and its number.
fn read_entry(line: &[char]) -> (r: Option<(String, usize)>)
    ensures
        match r {
            Some((w, id)) => entry(line@) == Some((w@, id)),
            None => entry(line@) is None,
        },
{
    match split_word(line) {
        None => None,
        Some((w, rest)) => match split_word(rest) {
            None => None,
            Some((i, after)) => {
                let id: usize = match parse_usize(i) {
                    Some(n) => n,
                    None => 0,
                };
                Some((string_of(w), id))
            },
        },
    }
}

/// Put `w` at place `id`.
fn place(t: &mut Vec<String>, id: usize, w: String)
    requires
        id < usize::MAX,
    ensures
        texts(final(t)@) == placed(texts(old(t)@), id as nat, w@),
{
    let ghost before = texts(t@);
    let ghost word = w@;
    let ghost n = before.len();
    while t.len() <= id
        invariant
            id < usize::MAX,
            n <= t@.len(),
            t@.len() <= n || t@.len() <= id + 1,
            before.len() == n,
            forall|i: int| 0 <= i < n ==> (#[trigger] t@[i])@ == before[i],
            forall|i: int| n <= i < t@.len() ==> (#[trigger] t@[i])@ == Seq::<char>::empty(),
        decreases id + 1 - t@.len(),
    {
        t.push(String::new());
    }
    t.set(id, w);
    assert(texts(t@) =~= placed(before, id as nat, word));
}

/// The word table of `words.txt`: a word and its number on each line.
pub fn parse_words(text: &str) -> (r: Option<Vec<String>>)
    ensures
        match r {
            Some(t) => word_table(text@) == Some(texts(t@)),
            None => word_table(text@) is None,
        },
{
    let cs = chars_of(text);
    let ls = split_lines(cs.as_slice());
    let ghost all = lines(text@);
    let mut t: Vec<String> = Vec::new();
    let mut k: usize = 0;
    assert(texts(t@) =~= Seq::empty());
    while k < ls.len()
        invariant
            k <= ls@.len(),
            all == lines(text@),
            ls@.len() == all.len(),
            forall|i: int| 0 <= i < ls@.len() ==> (#[trigger] ls@[i])@ == all[i],
            spec_words(all, k as nat) == Some(texts(t@)),
        decreases ls@.len() - k,
    {
        let line = ls[k];
        assert(line@ == all[k as int]);
        match read_entry(line) {
            Some((w, id)) => {
                if id == usize::MAX {
                    proof {
                        lemma_none_stays(all, (k + 1) as nat, all.len());
                    }
                    return None;
                }
                place(&mut t, id, w);
            },
            None => {},
        }
        k = k + 1;
    }
    Some(t)
}

/// The word under a number is spoken: there is one, and it is neither silence nor the empty word.
pub open spec fn spoken(t: Seq<Seq<char>>, id: u32) -> bool {
    id < t.len() && t[id as int].len() > 0 && t[id as int] != "!SIL"@ && t[id as int] != "<eps>"@
}

/// The spoken words under numbers, in their order.
pub open spec fn spoken_words(t: Seq<Seq<char>>, ids: Seq<u32>) -> Seq<Seq<char>>
    decreases ids.len(),
{
    if ids.len() == 0 {
        Seq::empty()
    } else {
        let front = spoken_words(t, ids.drop_last());
        if spoken(t, ids.last()) {
            front.push(t[ids.last() as int])
        } else {
            front
        }
    }
}

/// Words with one space between each two.
pub open spec fn joined(ws: Seq<Seq<char>>) -> Seq<char>
    decreases ws.len(),
{
    if ws.len() == 0 {
        Seq::empty()
    } else if ws.len() == 1 {
        ws[0]
    } else {
        joined(ws.drop_last()) + seq![' '] + ws.last()
    }
}

/// Put a word at the end of a text, behind a space if it is not the first.
fn add_word(out: &mut String, w: &String, first: bool)
    ensures
        final(out)@ == (if first {
            old(out)@ + w@
        } else {
            old(out)@ + seq![' '] + w@
        }),
{
    let cs = chars_of(w.as_str());
    if !first {
        out.push(' ');
    }
    let ghost start = out@;
    let mut i: usize = 0;
    while i < cs.len()
        invariant
            i <= cs@.len(),
            cs@ == w@,
            out@ == start + w@.take(i as int),
        decreases cs@.len() - i,
    {
        out.push(cs[i]);
        i = i + 1;
        assert(out@ =~= start + w@.take(i as int));
    }
    assert(w@.take(i as int) =~= w@);
}

/// The spoken words under numbers, with spaces between them.
pub fn spell_out(words: &Vec<String>, ids: &[u32]) -> (r: String)
    ensures
        r@ == joined(spoken_words(texts(words@), ids@)),
{
    let ghost t = texts(words@);
    let mut out = String::new();
    let mut first: bool = true;
    let mut i: usize = 0;
    assert(out@ =~= Seq::empty());
    while i < ids.len()
        invariant
            i <= ids@.len(),
            t == texts(words@),
            out@ == joined(spoken_words(t, ids@.take(i as int))),
            first == (spoken_words(t, ids@.take(i as int)).len() == 0),
        decreases ids@.len() - i,
    {
        let id: u32 = ids[i];
        let ghost before = spoken_words(t, ids@.take(i as int));
        assert(ids@.take(i + 1).drop_last() =~= ids@.take(i as int));
        if (id as usize) < words.len() {
            let w = &words[id as usize];
            assert(t[id as int] == w@);
            if !w.as_str().is_empty() && !is_text(w, "!SIL") && !is_text(w, "<eps>") {
                add_word(&mut out, w, first);
                proof {
                    let after = before.push(w@);
                    assert(after.drop_last() =~= before);
                    if before.len() == 0 {
                        assert(joined(before) + w@ =~= w@);
                    }
                }
                first = false;
            }
        }
        i = i + 1;
    }
    assert(ids@.take(i as int) =~= ids@);
    out
}

/// The words under numbers but for silence and the empty word; `?` stands for a word that is not
/// there.
pub open spec fn marked_words(t: Seq<Seq<char>>, ids: Seq<u32>) -> Seq<Seq<char>>
    decreases ids.len(),
{
    if ids.len() == 0 {
        Seq::empty()
    } else {
        let front = marked_words(t, ids.drop_last());
        let id = ids.last();
        if id >= t.len() || t[id as int].len() == 0 {
            front.push("?"@)
        } else if t[id as int] == "!SIL"@ || t[id as int] == "<eps>"@ {
            front
        } else {
            front.push(t[id as int])
        }
    }
}

/// The words under numbers, with `?` for those that are not there, and spaces between them.
pub fn spell_out_marked(words: &Vec<String>, ids: &[u32]) -> (r: String)
    ensures
        r@ == joined(marked_words(texts(words@), ids@)),
{
    let ghost t = texts(words@);
    let mark = "?".to_owned();
    let mut out = String::new();
    let mut first: bool = true;
    let mut i: usize = 0;
    assert(out@ =~= Seq::empty());
    while i < ids.len()
        invariant
            i <= ids@.len(),
            t == texts(words@),
            mark@ == "?"@,
            out@ == joined(marked_words(t, ids@.take(i as int))),
            first == (marked_words(t, ids@.take(i as int)).len() == 0),
        decreases ids@.len() - i,
    {
        let id: u32 = ids[i];
        let ghost before = marked_words(t, ids@.take(i as int));
        assert(ids@.take(i + 1).drop_last() =~= ids@.take(i as int));
        let known: bool = (id as usize) < words.len() && !words[id as usize].as_str().is_empty();
        let w = if known {
            &words[id as usize]
        } else {
            &mark
        };
        assert(known ==> t[id as int] == w@);
        if !known || (!is_text(w, "!SIL") && !is_text(w, "<eps>")) {
            add_word(&mut out, w, first);
            proof {
                let after = before.push(w@);
                assert(after.drop_last() =~= before);
                if before.len() == 0 {
                    assert(joined(before) + w@ =~= w@);
                }
            }
            first = false;
        }
        i = i + 1;
    }
    assert(ids@.take(i as int) =~= ids@);
    out
}

/// No word of a text is empty, silence, or the empty word, and each is in the table.
pub proof fn law_spoken(t: Seq<Seq<char>>, ids: Seq<u32>, i: int)
    requires
        0 <= i < spoken_words(t, ids).len(),
    ensures
        spoken_words(t, ids)[i].len() > 0,
        spoken_words(t, ids)[i] != "!SIL"@,
        spoken_words(t, ids)[i] != "<eps>"@,
        t.contains(spoken_words(t, ids)[i]),
    decreases ids.len(),
{
    let front = ids.drop_last();
    if i < spoken_words(t, front).len() {
        law_spoken(t, front, i);
    } else {
        assert(t.contains(t[ids.last() as int]));
    }
}

/// The words of a text: first words, one after the other.
pub open spec fn words_in(s: Seq<char>, n: nat) -> Seq<Seq<char>>
    decreases n,
{
    match first_word(s) {
        None => Seq::empty(),
        Some(w) => if n == 0 {
            Seq::empty()
        } else {
            seq![w] + words_in(after_word(s), (n - 1) as nat)
        },
    }
}

/// A word: some characters, none of them white space.
pub open spec fn is_word(w: Seq<char>) -> bool {
    w.len() > 0 && forall|i: int| 0 <= i < w.len() ==> !is_space(#[trigger] w[i])
}

proof fn lemma_joined_front(ws: Seq<Seq<char>>)
    requires
        ws.len() > 1,
    ensures
        joined(ws) == ws[0] + seq![' '] + joined(ws.skip(1)),
    decreases ws.len(),
{
    let rest = ws.skip(1);
    if ws.len() == 2 {
        assert(joined(ws.drop_last()) == ws[0]);
        assert(joined(rest) == ws.last());
    } else {
        lemma_joined_front(ws.drop_last());
        assert(ws.drop_last().skip(1) =~= rest.drop_last());
        assert(rest.last() == ws.last());
        assert(joined(ws) =~= ws[0] + seq![' '] + joined(rest));
    }
}

/// Words that are joined are the words of the text they make.
pub proof fn law_joined(ws: Seq<Seq<char>>)
    requires
        forall|i: int| 0 <= i < ws.len() ==> is_word(#[trigger] ws[i]),
    ensures
        words_in(joined(ws), ws.len()) == ws,
    decreases ws.len(),
{
    if ws.len() > 0 {
        let s = joined(ws);
        let w = ws[0];
        assert(is_word(ws[0]));
        if ws.len() == 1 {
            assert(s =~= w + Seq::<char>::empty());
            lemma_word_in_front(w, Seq::empty());
            assert(words_in(Seq::empty(), 0) =~= Seq::<Seq<char>>::empty());
            assert(words_in(s, 1) =~= ws);
        } else {
            let rest = ws.skip(1);
            lemma_joined_front(ws);
            let tail = seq![' '] + joined(rest);
            assert(s =~= w + tail);
            lemma_word_in_front(w, tail);
            assert forall|i: int| 0 <= i < rest.len() implies is_word(#[trigger] rest[i]) by {
                assert(rest[i] == ws[i + 1]);
            }
            law_joined(rest);
            lemma_space_in_front(joined(rest));
            assert(words_in(tail, rest.len()) == words_in(joined(rest), rest.len())) by {
                assert(first_word(tail) == first_word(joined(rest)));
                assert(after_word(tail) == after_word(joined(rest)));
            }
            assert(words_in(s, ws.len()) =~= ws);
        }
    }
}

/// What stands in a word table is a word, or empty.
pub proof fn law_table(ls: Seq<Seq<char>>, k: nat, i: int)
    requires
        spec_words(ls, k) is Some,
        0 <= i < spec_words(ls, k)->0.len(),
    ensures
        spec_words(ls, k)->0[i].len() == 0 || is_word(spec_words(ls, k)->0[i]),
    decreases k,
{
    let before = spec_words(ls, (k - 1) as nat)->0;
    if i < before.len() {
        law_table(ls, (k - 1) as nat, i);
    }
    if entry(ls[k - 1]) is Some {
        lemma_first_word(ls[k - 1]);
    }
}

proof fn lemma_spoken_words(t: Seq<Seq<char>>, ids: Seq<u32>, i: int)
    requires
        forall|j: int| 0 <= j < t.len() ==> (#[trigger] t[j]).len() == 0 || is_word(t[j]),
        0 <= i < spoken_words(t, ids).len(),
    ensures
        is_word(spoken_words(t, ids)[i]),
{
    law_spoken(t, ids, i);
    let j = choose|j: int| 0 <= j < t.len() && t[j] == spoken_words(t, ids)[i];
    assert(t[j].len() == 0 || is_word(t[j]));
}

/// The text of an utterance falls into the spoken words that it was made of.
pub proof fn law_text(text: Seq<char>, ids: Seq<u32>)
    requires
        word_table(text) is Some,
    ensures
        words_in(
            joined(spoken_words(word_table(text)->0, ids)),
            spoken_words(word_table(text)->0, ids).len(),
        ) == spoken_words(word_table(text)->0, ids),
{
    let t = word_table(text)->0;
    let ls = lines(text);
    assert forall|j: int| 0 <= j < t.len() implies (#[trigger] t[j]).len() == 0 || is_word(
        t[j],
    ) by {
        law_table(ls, ls.len(), j);
    }
    let ws = spoken_words(t, ids);
    assert forall|i: int| 0 <= i < ws.len() implies is_word(#[trigger] ws[i]) by {
        lemma_spoken_words(t, ids, i);
    }
    law_joined(ws);
}

} // verus!
