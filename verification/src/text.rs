//! Reconstruction of the denormalized `text` columns.
//!
//! A sentence's text is the space-joined effective text of its non-hidden
//! words in ascending start-time order, where a word's effective text is its
//! manual override when one is present and its raw text otherwise. A part's
//! text is the space-joined text of its sentences in ascending start-time
//! order.
//!
//! Ties on `starts_at` are broken by keeping the stored order (the sort
//! below is stable), which makes the derived text a function of the row
//! sequence.

use vstd::prelude::*;
use vstd::string::StringExecFns;

use crate::model::{Part, PartV, Sentence, SentenceV, Word, WordV, copy_part, copy_sentence, copy_word, views_of};

verus! {

/// The text a word contributes: the manual override when non-empty,
/// otherwise the raw recognized text.
pub open spec fn effective_text(w: WordV) -> Seq<char> {
    if w.overwrite.len() > 0 {
        w.overwrite
    } else {
        w.text
    }
}

/// The effective texts of the words that are not hidden, in the order given.
pub open spec fn visible_texts(ws: Seq<WordV>) -> Seq<Seq<char>>
    decreases ws.len(),
{
    if ws.len() == 0 {
        Seq::empty()
    } else if ws.last().hidden {
        visible_texts(ws.drop_last())
    } else {
        visible_texts(ws.drop_last()).push(effective_text(ws.last()))
    }
}

/// Texts joined by single spaces, in the order given.
pub open spec fn join_space(texts: Seq<Seq<char>>) -> Seq<char>
    decreases texts.len(),
{
    if texts.len() == 0 {
        Seq::empty()
    } else if texts.len() == 1 {
        texts[0]
    } else {
        join_space(texts.drop_last()) + seq![' '] + texts.last()
    }
}

/// The given texts with the empty ones dropped.
pub open spec fn nonempty(texts: Seq<Seq<char>>) -> Seq<Seq<char>>
    decreases texts.len(),
{
    if texts.len() == 0 {
        Seq::empty()
    } else if texts.last().len() == 0 {
        nonempty(texts.drop_last())
    } else {
        nonempty(texts.drop_last()).push(texts.last())
    }
}

/// Text of a word list taken in the order given (a submission's order).
pub open spec fn words_joined(ws: Seq<WordV>) -> Seq<char> {
    join_space(visible_texts(ws))
}

/// Stable insertion of a word into a start-time-sorted word sequence:
/// the new word goes after every word that does not start later.
pub open spec fn insert_word_sorted(w: WordV, s: Seq<WordV>) -> Seq<WordV>
    decreases s.len(),
{
    if s.len() == 0 {
        seq![w]
    } else if w.starts_at < s[0].starts_at {
        seq![w] + s
    } else {
        seq![s[0]] + insert_word_sorted(w, s.drop_first())
    }
}

/// Stable sort of words by start time.
pub open spec fn sort_words_spec(ws: Seq<WordV>) -> Seq<WordV>
    decreases ws.len(),
{
    if ws.len() == 0 {
        Seq::empty()
    } else {
        insert_word_sorted(ws.last(), sort_words_spec(ws.drop_last()))
    }
}

/// Stable insertion of a sentence into a start-time-sorted sequence.
pub open spec fn insert_sentence_sorted(x: SentenceV, s: Seq<SentenceV>) -> Seq<SentenceV>
    decreases s.len(),
{
    if s.len() == 0 {
        seq![x]
    } else if x.starts_at < s[0].starts_at {
        seq![x] + s
    } else {
        seq![s[0]] + insert_sentence_sorted(x, s.drop_first())
    }
}

/// Stable sort of sentences by start time.
pub open spec fn sort_sentences_spec(ss: Seq<SentenceV>) -> Seq<SentenceV>
    decreases ss.len(),
{
    if ss.len() == 0 {
        Seq::empty()
    } else {
        insert_sentence_sorted(ss.last(), sort_sentences_spec(ss.drop_last()))
    }
}

/// The derived text of a sentence holding exactly the words `ws`.
pub open spec fn sentence_text_of(ws: Seq<WordV>) -> Seq<char> {
    words_joined(sort_words_spec(ws))
}

/// The texts of the given sentences, in the order given.
pub open spec fn texts_of_sentences(ss: Seq<SentenceV>) -> Seq<Seq<char>> {
    ss.map_values(|s: SentenceV| s.text)
}

/// The derived text of a part holding exactly the sentences `ss`.
pub open spec fn part_text_of(ss: Seq<SentenceV>) -> Seq<char> {
    join_space(texts_of_sentences(sort_sentences_spec(ss)))
}

/// Speaking rate in thousandths of a word per second: the word count over
/// the spanned seconds, zero when there are no words or no positive span,
/// saturating at the widest storable value.
pub open spec fn wps_milli(n: int, starts_at: int, ends_at: int) -> int {
    let dur = ends_at - starts_at;
    if n <= 0 || dur <= 0 {
        0
    } else if n * 1000000 / dur > i64::MAX as int {
        i64::MAX as int
    } else {
        n * 1000000 / dur
    }
}

pub proof fn lemma_join_space_push(ts: Seq<Seq<char>>, t: Seq<char>)
    ensures
        join_space(ts.push(t)) == if ts.len() == 0 {
            t
        } else {
            join_space(ts) + seq![' '] + t
        },
{
    assert(ts.push(t).drop_last() =~= ts);
    assert(ts.push(t).last() == t);
    if ts.len() == 0 {
        assert(join_space(ts.push(t)) == ts.push(t)[0]);
    }
}

/// The executable counterpart of [`effective_text`].
pub fn effective_word_text(w: &Word) -> (r: String)
    ensures
        r@ == effective_text(w@),
{
    if w.overwrite.as_str().is_empty() {
        w.text.clone()
    } else {
        w.overwrite.clone()
    }
}

/// Joins every given text with single spaces.
pub fn join_all(texts: &Vec<String>) -> (r: String)
    ensures
        r@ == join_space(views_of(texts@)),
{
    let ghost vs = views_of(texts@);
    let mut r = String::new();
    let mut i: usize = 0;
    while i < texts.len()
        invariant
            0 <= i <= texts.len(),
            vs == views_of(texts@),
            vs.len() == texts@.len(),
            r@ == join_space(vs.take(i as int)),
        decreases texts.len() - i,
    {
        proof {
            assert(vs.take(i + 1) =~= vs.take(i as int).push(vs[i as int]));
            lemma_join_space_push(vs.take(i as int), vs[i as int]);
            assert(vs[i as int] == texts@[i as int]@);
        }
        if i > 0 {
            r.append(" ");
            proof {
                reveal_strlit(" ");
                assert(" "@ =~= seq![' ']);
            }
        }
        r.append(texts[i].as_str());
        i = i + 1;
    }
    proof {
        assert(vs.take(texts@.len() as int) =~= vs);
    }
    r
}

/// Joins the non-empty ones of the given texts with single spaces.
pub fn join_nonempty(texts: &Vec<String>) -> (r: String)
    ensures
        r@ == join_space(nonempty(views_of(texts@))),
{
    let ghost vs = views_of(texts@);
    let mut r = String::new();
    let mut any: bool = false;
    let mut i: usize = 0;
    while i < texts.len()
        invariant
            0 <= i <= texts.len(),
            vs == views_of(texts@),
            vs.len() == texts@.len(),
            r@ == join_space(nonempty(vs.take(i as int))),
            any <==> nonempty(vs.take(i as int)).len() > 0,
        decreases texts.len() - i,
    {
        proof {
            assert(vs.take(i + 1) =~= vs.take(i as int).push(vs[i as int]));
            assert(vs.take(i + 1).drop_last() =~= vs.take(i as int));
            assert(vs[i as int] == texts@[i as int]@);
        }
        if !texts[i].as_str().is_empty() {
            proof {
                lemma_join_space_push(nonempty(vs.take(i as int)), vs[i as int]);
            }
            if any {
                r.append(" ");
                proof {
                    reveal_strlit(" ");
                    assert(" "@ =~= seq![' ']);
                }
            }
            r.append(texts[i].as_str());
            any = true;
        }
        i = i + 1;
    }
    proof {
        assert(vs.take(texts@.len() as int) =~= vs);
    }
    r
}

/// The effective texts of the non-hidden words, in the order given.
pub fn visible_text_vec(ws: &Vec<Word>) -> (r: Vec<String>)
    ensures
        views_of(r@) == visible_texts(views_of(ws@)),
{
    let ghost vs = views_of(ws@);
    let mut r: Vec<String> = Vec::new();
    let mut i: usize = 0;
    while i < ws.len()
        invariant
            0 <= i <= ws.len(),
            vs == views_of(ws@),
            vs.len() == ws@.len(),
            views_of(r@) == visible_texts(vs.take(i as int)),
        decreases ws.len() - i,
    {
        proof {
            assert(vs.take(i + 1) =~= vs.take(i as int).push(vs[i as int]));
            assert(vs.take(i + 1).drop_last() =~= vs.take(i as int));
            assert(vs[i as int] == ws@[i as int]@);
        }
        if !ws[i].hidden {
            let t = effective_word_text(&ws[i]);
            r.push(t);
            proof {
                assert(views_of(r@) =~~= visible_texts(vs.take(i + 1)));
            }
        } else {
            proof {
                assert(visible_texts(vs.take(i + 1)) =~= visible_texts(vs.take(i as int)));
            }
        }
        i = i + 1;
    }
    proof {
        assert(vs.take(ws@.len() as int) =~= vs);
    }
    r
}

proof fn lemma_insert_word_at(w: WordV, s: Seq<WordV>, j: int)
    requires
        0 <= j <= s.len(),
        forall|k: int| 0 <= k < j ==> !(w.starts_at < #[trigger] s[k].starts_at),
        j < s.len() ==> w.starts_at < s[j].starts_at,
    ensures
        insert_word_sorted(w, s) =~= s.insert(j, w),
    decreases j,
{
    if s.len() == 0 {
        assert(insert_word_sorted(w, s) =~= s.insert(0, w));
    } else if j == 0 {
        assert(insert_word_sorted(w, s) =~= s.insert(0, w));
    } else {
        assert(!(w.starts_at < s[0].starts_at));
        lemma_insert_word_at(w, s.drop_first(), j - 1);
        assert(seq![s[0]] + s.drop_first().insert(j - 1, w) =~= s.insert(j, w));
    }
}

proof fn lemma_insert_sentence_at(x: SentenceV, s: Seq<SentenceV>, j: int)
    requires
        0 <= j <= s.len(),
        forall|k: int| 0 <= k < j ==> !(x.starts_at < #[trigger] s[k].starts_at),
        j < s.len() ==> x.starts_at < s[j].starts_at,
    ensures
        insert_sentence_sorted(x, s) =~= s.insert(j, x),
    decreases j,
{
    if s.len() == 0 {
        assert(insert_sentence_sorted(x, s) =~= s.insert(0, x));
    } else if j == 0 {
        assert(insert_sentence_sorted(x, s) =~= s.insert(0, x));
    } else {
        assert(!(x.starts_at < s[0].starts_at));
        lemma_insert_sentence_at(x, s.drop_first(), j - 1);
        assert(seq![s[0]] + s.drop_first().insert(j - 1, x) =~= s.insert(j, x));
    }
}

/// Stable sort of words by ascending start time.
pub fn sort_words(v: &Vec<Word>) -> (r: Vec<Word>)
    ensures
        views_of(r@) == sort_words_spec(views_of(v@)),
{
    let ghost vs = views_of(v@);
    let mut out: Vec<Word> = Vec::new();
    let mut i: usize = 0;
    while i < v.len()
        invariant
            0 <= i <= v.len(),
            vs == views_of(v@),
            vs.len() == v@.len(),
            views_of(out@) == sort_words_spec(vs.take(i as int)),
            out@.len() == i,
        decreases v.len() - i,
    {
        let w = copy_word(&v[i]);
        let ghost pre = views_of(out@);
        let mut j: usize = 0;
        while j < out.len() && out[j].starts_at <= w.starts_at
            invariant
                0 <= j <= out.len(),
                forall|k: int| 0 <= k < j ==> !(w@.starts_at < #[trigger] out@[k]@.starts_at),
            decreases out.len() - j,
        {
            j = j + 1;
        }
        proof {
            assert(forall|k: int| 0 <= k < j ==> !(w@.starts_at < #[trigger] pre[k].starts_at));
            lemma_insert_word_at(w@, pre, j as int);
        }
        out.insert(j, w);
        proof {
            assert(views_of(out@) =~= pre.insert(j as int, w@));
            assert(vs.take(i + 1).drop_last() =~= vs.take(i as int));
            assert(vs.take(i + 1).last() == vs[i as int]);
            assert(vs[i as int] == v@[i as int]@);
            assert(views_of(out@) == sort_words_spec(vs.take(i + 1)));
        }
        i = i + 1;
    }
    proof {
        assert(vs.take(v@.len() as int) =~= vs);
    }
    out
}

/// Stable sort of sentences by ascending start time.
pub fn sort_sentences(v: &Vec<Sentence>) -> (r: Vec<Sentence>)
    ensures
        views_of(r@) == sort_sentences_spec(views_of(v@)),
{
    let ghost vs = views_of(v@);
    let mut out: Vec<Sentence> = Vec::new();
    let mut i: usize = 0;
    while i < v.len()
        invariant
            0 <= i <= v.len(),
            vs == views_of(v@),
            vs.len() == v@.len(),
            views_of(out@) == sort_sentences_spec(vs.take(i as int)),
            out@.len() == i,
        decreases v.len() - i,
    {
        let s = copy_sentence(&v[i]);
        let ghost pre = views_of(out@);
        let mut j: usize = 0;
        while j < out.len() && out[j].starts_at <= s.starts_at
            invariant
                0 <= j <= out.len(),
                forall|k: int| 0 <= k < j ==> !(s@.starts_at < #[trigger] out@[k]@.starts_at),
            decreases out.len() - j,
        {
            j = j + 1;
        }
        proof {
            assert(forall|k: int| 0 <= k < j ==> !(s@.starts_at < #[trigger] pre[k].starts_at));
            lemma_insert_sentence_at(s@, pre, j as int);
        }
        out.insert(j, s);
        proof {
            assert(views_of(out@) =~= pre.insert(j as int, s@));
            assert(vs.take(i + 1).drop_last() =~= vs.take(i as int));
            assert(vs.take(i + 1).last() == vs[i as int]);
            assert(vs[i as int] == v@[i as int]@);
            assert(views_of(out@) == sort_sentences_spec(vs.take(i + 1)));
        }
        i = i + 1;
    }
    proof {
        assert(vs.take(v@.len() as int) =~= vs);
    }
    out
}

/// The derived text of a sentence holding exactly the words `ws`, rebuilt
/// from scratch: time-sorted, non-hidden, override-preferring, space-joined.
pub fn sentence_text(ws: &Vec<Word>) -> (r: String)
    ensures
        r@ == sentence_text_of(views_of(ws@)),
{
    let sorted = sort_words(ws);
    let ts = visible_text_vec(&sorted);
    join_all(&ts)
}

/// The text columns of the given sentences, in the order given.
pub fn sentence_text_vec(ss: &Vec<Sentence>) -> (r: Vec<String>)
    ensures
        views_of(r@) == texts_of_sentences(views_of(ss@)),
{
    let ghost vs = views_of(ss@);
    let mut r: Vec<String> = Vec::new();
    let mut i: usize = 0;
    while i < ss.len()
        invariant
            0 <= i <= ss.len(),
            vs == views_of(ss@),
            vs.len() == ss@.len(),
            r@.len() == i,
            forall|k: int| 0 <= k < i ==> #[trigger] r@[k]@ == vs[k].text,
        decreases ss.len() - i,
    {
        r.push(ss[i].text.clone());
        i = i + 1;
    }
    proof {
        assert(views_of(r@) =~~= texts_of_sentences(vs));
    }
    r
}

/// The derived text of a part holding exactly the sentences `ss`, rebuilt
/// from scratch: time-sorted and space-joined.
pub fn part_text(ss: &Vec<Sentence>) -> (r: String)
    ensures
        r@ == part_text_of(views_of(ss@)),
{
    let sorted = sort_sentences(ss);
    let ts = sentence_text_vec(&sorted);
    join_all(&ts)
}

/// The executable counterpart of [`wps_milli`].
pub fn compute_wps(n: usize, starts_at: i64, ends_at: i64) -> (r: i64)
    ensures
        r as int == wps_milli(n as int, starts_at as int, ends_at as int),
{
    let dur: i128 = (ends_at as i128) - (starts_at as i128);
    if n == 0 || dur <= 0 {
        return 0;
    }
    let q: u128 = (n as u128) * 1000000 / (dur as u128);
    if q > (i64::MAX as u128) {
        i64::MAX
    } else {
        q as i64
    }
}

/// Stable insertion of a part into a start-time-sorted sequence.
pub open spec fn insert_part_sorted(x: PartV, s: Seq<PartV>) -> Seq<PartV>
    decreases s.len(),
{
    if s.len() == 0 {
        seq![x]
    } else if x.starts_at < s[0].starts_at {
        seq![x] + s
    } else {
        seq![s[0]] + insert_part_sorted(x, s.drop_first())
    }
}

/// Stable sort of parts by start time.
pub open spec fn sort_parts_spec(ps: Seq<PartV>) -> Seq<PartV>
    decreases ps.len(),
{
    if ps.len() == 0 {
        Seq::empty()
    } else {
        insert_part_sorted(ps.last(), sort_parts_spec(ps.drop_last()))
    }
}

proof fn lemma_insert_part_at(x: PartV, s: Seq<PartV>, j: int)
    requires
        0 <= j <= s.len(),
        forall|k: int| 0 <= k < j ==> !(x.starts_at < #[trigger] s[k].starts_at),
        j < s.len() ==> x.starts_at < s[j].starts_at,
    ensures
        insert_part_sorted(x, s) =~= s.insert(j, x),
    decreases j,
{
    if s.len() == 0 {
        assert(insert_part_sorted(x, s) =~= s.insert(0, x));
    } else if j == 0 {
        assert(insert_part_sorted(x, s) =~= s.insert(0, x));
    } else {
        assert(!(x.starts_at < s[0].starts_at));
        lemma_insert_part_at(x, s.drop_first(), j - 1);
        assert(seq![s[0]] + s.drop_first().insert(j - 1, x) =~= s.insert(j, x));
    }
}

/// Stable sort of parts by ascending start time.
pub fn sort_parts(v: &Vec<Part>) -> (r: Vec<Part>)
    ensures
        views_of(r@) == sort_parts_spec(views_of(v@)),
{
    let ghost vs = views_of(v@);
    let mut out: Vec<Part> = Vec::new();
    let mut i: usize = 0;
    while i < v.len()
        invariant
            0 <= i <= v.len(),
            vs == views_of(v@),
            vs.len() == v@.len(),
            views_of(out@) == sort_parts_spec(vs.take(i as int)),
            out@.len() == i,
        decreases v.len() - i,
    {
        let w = copy_part(&v[i]);
        let ghost pre = views_of(out@);
        let mut j: usize = 0;
        while j < out.len() && out[j].starts_at <= w.starts_at
            invariant
                0 <= j <= out.len(),
                forall|k: int| 0 <= k < j ==> !(w@.starts_at < #[trigger] out@[k]@.starts_at),
            decreases out.len() - j,
        {
            j = j + 1;
        }
        proof {
            assert(forall|k: int| 0 <= k < j ==> !(w@.starts_at < #[trigger] pre[k].starts_at));
            lemma_insert_part_at(w@, pre, j as int);
        }
        out.insert(j, w);
        proof {
            assert(views_of(out@) =~= pre.insert(j as int, w@));
            assert(vs.take(i + 1).drop_last() =~= vs.take(i as int));
            assert(vs.take(i + 1).last() == vs[i as int]);
            assert(vs[i as int] == v@[i as int]@);
            assert(views_of(out@) == sort_parts_spec(vs.take(i + 1)));
        }
        i = i + 1;
    }
    proof {
        assert(vs.take(v@.len() as int) =~= vs);
    }
    out
}

} // verus!
