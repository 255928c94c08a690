//! The reflow workflow: applies an editor's repartition of one part's
//! words into a new sentence structure, optionally pushing sentences into
//! the previous, next, or a freshly created adjacent part, and keeps the
//! search index in step.

use vstd::prelude::*;

use crate::Error;
use crate::index::{SearchIndex, committed_docs, docs_with_id, staged_docs, visible_docs};
use crate::model::{
    MoveDirective, Part, PartParams, PartV, Sentence, SentenceParams, SentenceV, UiUpdateParams,
    UiUpdateParamsSentence, UiUpdateParamsSentenceWord, Word, WordV, views_of,
};
use crate::store::{
    Store, has_part, has_sentence, has_word, part_at, sentence_at, sentences_with_part, word_at,
    words_with_sentence,
};
use crate::text::{join_space, nonempty};

verus! {

/// The effective text a submitted word contributes: its override when
/// non-empty, its text otherwise.
pub open spec fn ui_effective_text(w: UiUpdateParamsSentenceWord) -> Seq<char> {
    if w.overwrite@.len() > 0 {
        w.overwrite@
    } else {
        w.text@
    }
}

/// The effective texts of the non-hidden submitted words, in submission
/// order.
pub open spec fn ui_visible_texts(ws: Seq<UiUpdateParamsSentenceWord>) -> Seq<Seq<char>>
    decreases ws.len(),
{
    if ws.len() == 0 {
        Seq::empty()
    } else if ws.last().hidden {
        ui_visible_texts(ws.drop_last())
    } else {
        ui_visible_texts(ws.drop_last()).push(ui_effective_text(ws.last()))
    }
}

/// The text a submitted sentence reflows to: its non-hidden effective
/// texts joined by spaces, in submission order.
pub open spec fn ui_words_text(ws: Seq<UiUpdateParamsSentenceWord>) -> Seq<char> {
    join_space(ui_visible_texts(ws))
}

/// All submitted words, across all submitted sentences, in submission
/// order.
pub open spec fn ui_all_words(ss: Seq<UiUpdateParamsSentence>) -> Seq<UiUpdateParamsSentenceWord>
    decreases ss.len(),
{
    if ss.len() == 0 {
        Seq::empty()
    } else {
        ui_all_words(ss.drop_last()) + ss.last().words@
    }
}

/// The submitted sentences that stay on the original part, in submission
/// order.
pub open spec fn sticky_list(ss: Seq<UiUpdateParamsSentence>) -> Seq<UiUpdateParamsSentence>
    decreases ss.len(),
{
    if ss.len() == 0 {
        Seq::empty()
    } else if ss.last().move_sentence is Some {
        sticky_list(ss.drop_last())
    } else {
        sticky_list(ss.drop_last()).push(ss.last())
    }
}

/// The reflowed texts of the sticky sentences, in submission order.
pub open spec fn sticky_texts(ss: Seq<UiUpdateParamsSentence>) -> Seq<Seq<char>>
    decreases ss.len(),
{
    if ss.len() == 0 {
        Seq::empty()
    } else if ss.last().move_sentence is Some {
        sticky_texts(ss.drop_last())
    } else {
        sticky_texts(ss.drop_last()).push(ui_words_text(ss.last().words@))
    }
}

/// The words a part currently owns, grouped by its sentences in stored
/// order.
pub open spec fn words_of_sentences(words: Seq<Word>, sentences: Seq<SentenceV>) -> Seq<WordV>
    decreases sentences.len(),
{
    if sentences.len() == 0 {
        Seq::empty()
    } else {
        words_of_sentences(words, sentences.drop_last()) + words_with_sentence(
            words,
            sentences.last().id,
        )
    }
}

/// The number of non-hidden submitted words.
pub open spec fn ui_visible_count(ws: Seq<UiUpdateParamsSentenceWord>) -> int {
    ui_visible_texts(ws).len() as int
}

/// No submitted word id occurs twice.
pub open spec fn ui_word_ids_unique(ws: Seq<UiUpdateParamsSentenceWord>) -> bool {
    forall|a: int, b: int|
        0 <= a < b < ws.len() ==> (#[trigger] ws[a]).id != (#[trigger] ws[b]).id
}

/// The part's word at position `m` occurs in the submission.
pub open spec fn covered_by(orig: Seq<WordV>, m: int, ws: Seq<UiUpdateParamsSentenceWord>) -> bool {
    exists|j: int| 0 <= j < ws.len() && (#[trigger] ws[j]).id as int == orig[m].id
}

/// Every current word of the part occurs in the submission.
pub open spec fn ui_covers_words(ws: Seq<UiUpdateParamsSentenceWord>, orig: Seq<WordV>) -> bool {
    forall|k: int| 0 <= k < orig.len() ==> #[trigger] covered_by(orig, k, ws)
}

/// No submitted sentence id occurs twice.
pub open spec fn ui_sentence_ids_unique(ss: Seq<UiUpdateParamsSentence>) -> bool {
    forall|a: int, b: int|
        0 <= a < b < ss.len() ==> (#[trigger] ss[a]).sentence.id != (#[trigger] ss[b]).sentence.id
}

/// Every submitted sentence with a positive id is one the part owns.
pub open spec fn ui_sentences_owned(
    ss: Seq<UiUpdateParamsSentence>,
    orig: Seq<SentenceV>,
) -> bool {
    forall|a: int|
        0 <= a < ss.len() ==> (#[trigger] ss[a]).sentence.id > 0 ==> exists|k: int|
            0 <= k < orig.len() && (#[trigger] orig[k]).id == ss[a].sentence.id as int
}

/// Every submitted sentence holds at least one word.
pub open spec fn ui_sentences_nonempty(ss: Seq<UiUpdateParamsSentence>) -> bool {
    forall|a: int| 0 <= a < ss.len() ==> (#[trigger] ss[a]).words@.len() > 0
}

/// A reflow submission is valid for a part that currently owns the
/// sentences `orig_sentences` and the words `orig_words`: the submitted
/// word ids are exactly the part's word ids with no duplicates, sentence
/// ids do not repeat, positive sentence ids belong to the part, and no
/// submitted sentence is empty.
pub open spec fn valid_submission(
    ss: Seq<UiUpdateParamsSentence>,
    orig_sentences: Seq<SentenceV>,
    orig_words: Seq<WordV>,
) -> bool {
    &&& ui_all_words(ss).len() == orig_words.len()
    &&& ui_word_ids_unique(ui_all_words(ss))
    &&& ui_covers_words(ui_all_words(ss), orig_words)
    &&& ui_sentence_ids_unique(ss)
    &&& ui_sentences_owned(ss, orig_sentences)
    &&& ui_sentences_nonempty(ss)
}

/// An update that keeps a row's id keeps every id present.
proof fn lemma_has_sentence_after_update(pre: Seq<Sentence>, post: Seq<Sentence>, i: int, rv: SentenceV)
    requires
        0 <= i < pre.len(),
        views_of(post) == views_of(pre).update(i, rv),
        rv.id == pre[i]@.id,
    ensures
        forall|x: int| has_sentence(pre, x) ==> has_sentence(post, x),
        post.len() == pre.len(),
{
    assert(views_of(pre).len() == pre.len());
    assert(views_of(post).len() == post.len());
    assert(forall|k: int|
        0 <= k < post.len() ==> (#[trigger] post[k])@ == views_of(post)[k]);
    assert(forall|k: int| 0 <= k < pre.len() ==> (#[trigger] pre[k])@ == views_of(pre)[k]);
    assert forall|x: int| has_sentence(pre, x) implies has_sentence(post, x) by {
        let k = choose|k: int| 0 <= k < pre.len() && (#[trigger] pre[k])@.id == x;
        assert(post[k]@.id == x);
    }
}

/// An appended row keeps every id present.
proof fn lemma_has_sentence_after_push(pre: Seq<Sentence>, post: Seq<Sentence>, rv: SentenceV)
    requires
        views_of(post) == views_of(pre).push(rv),
    ensures
        forall|x: int| has_sentence(pre, x) ==> has_sentence(post, x),
        post.len() == pre.len() + 1,
{
    assert(views_of(pre).len() == pre.len());
    assert(views_of(post).len() == post.len());
    assert(forall|k: int|
        0 <= k < post.len() ==> (#[trigger] post[k])@ == views_of(post)[k]);
    assert(forall|k: int| 0 <= k < pre.len() ==> (#[trigger] pre[k])@ == views_of(pre)[k]);
    assert forall|x: int| has_sentence(pre, x) implies has_sentence(post, x) by {
        let k = choose|k: int| 0 <= k < pre.len() && (#[trigger] pre[k])@.id == x;
        assert(post[k]@.id == x);
    }
}

/// An update that keeps a word's id keeps every id present.
proof fn lemma_has_word_after_update(pre: Seq<Word>, post: Seq<Word>, i: int, rv: WordV)
    requires
        0 <= i < pre.len(),
        views_of(post) == views_of(pre).update(i, rv),
        rv.id == pre[i]@.id,
    ensures
        forall|x: int| has_word(pre, x) ==> has_word(post, x),
        post.len() == pre.len(),
{
    assert(views_of(pre).len() == pre.len());
    assert(views_of(post).len() == post.len());
    assert(forall|k: int|
        0 <= k < post.len() ==> (#[trigger] post[k])@ == views_of(post)[k]);
    assert(forall|k: int| 0 <= k < pre.len() ==> (#[trigger] pre[k])@ == views_of(pre)[k]);
    assert forall|x: int| has_word(pre, x) implies has_word(post, x) by {
        let k = choose|k: int| 0 <= k < pre.len() && (#[trigger] pre[k])@.id == x;
        assert(post[k]@.id == x);
    }
}

/// Whether some submitted word carries this id.
pub open spec fn ui_has_word_id(ws: Seq<UiUpdateParamsSentenceWord>, x: int) -> bool {
    exists|m: int| 0 <= m < ws.len() && (#[trigger] ws[m]).id as int == x
}

/// Rewriting one word's row moves no word id and keeps every other row.
proof fn lemma_word_at_update_other(pre: Seq<Word>, post: Seq<Word>, i: int, rv: WordV, x: int)
    requires
        forall|a: int, b: int|
            0 <= a < b < pre.len() ==> (#[trigger] pre[a])@.id != (#[trigger] pre[b])@.id,
        0 <= i < pre.len(),
        views_of(post) == views_of(pre).update(i, rv),
        rv.id == pre[i]@.id,
        pre[i]@.id != x,
        has_word(pre, x),
    ensures
        has_word(post, x),
        word_at(post, x) == word_at(pre, x),
{
    assert(views_of(pre).len() == pre.len());
    assert(views_of(post).len() == post.len());
    assert(forall|k: int| 0 <= k < post.len() ==> (#[trigger] post[k])@ == views_of(post)[k]);
    assert(forall|k: int| 0 <= k < pre.len() ==> (#[trigger] pre[k])@ == views_of(pre)[k]);
    let k = choose|k: int| 0 <= k < pre.len() && (#[trigger] pre[k])@.id == x;
    assert(k != i);
    assert(post[k]@ == pre[k]@);
    assert(has_word(post, x));
    crate::store::lemma_unique_word(pre, k, x);
    assert forall|a: int, b: int|
        0 <= a < b < post.len() implies (#[trigger] post[a])@.id != (#[trigger] post[b])@.id by {
        assert(pre[a]@.id != pre[b]@.id);
    }
    crate::store::lemma_unique_word(post, k, x);
}

/// The stored part of this episode that precedes the given one most
/// closely in time, if any.
fn find_previous_part(store: &Store, base: &Part) -> (r: Option<Part>)
    ensures
        r is Some <==> exists|k: int|
            0 <= k < store.parts@.len() && (#[trigger] store.parts@[k])@.episode_id
                == base@.episode_id && store.parts@[k]@.starts_at < base@.starts_at,
        r is Some ==> {
            &&& exists|k: int|
                0 <= k < store.parts@.len() && (#[trigger] store.parts@[k])@ == r.unwrap()@
            &&& r.unwrap()@.episode_id == base@.episode_id
            &&& r.unwrap()@.starts_at < base@.starts_at
            &&& forall|j: int|
                0 <= j < store.parts@.len() && (#[trigger] store.parts@[j])@.episode_id
                    == base@.episode_id && store.parts@[j]@.starts_at < base@.starts_at
                    ==> store.parts@[j]@.starts_at <= r.unwrap()@.starts_at
        },
{
    let mut best: Option<Part> = None;
    let mut i: usize = 0;
    while i < store.parts.len()
        invariant
            0 <= i <= store.parts@.len(),
            best is None ==> forall|k: int|
                0 <= k < i ==> !((#[trigger] store.parts@[k])@.episode_id == base@.episode_id
                    && store.parts@[k]@.starts_at < base@.starts_at),
            best is Some ==> {
                &&& exists|k: int|
                    0 <= k < store.parts@.len() && (#[trigger] store.parts@[k])@
                        == best.unwrap()@
                &&& best.unwrap()@.episode_id == base@.episode_id
                &&& best.unwrap()@.starts_at < base@.starts_at
                &&& forall|j: int|
                    0 <= j < i && (#[trigger] store.parts@[j])@.episode_id == base@.episode_id
                        && store.parts@[j]@.starts_at < base@.starts_at
                        ==> store.parts@[j]@.starts_at <= best.unwrap()@.starts_at
            },
        decreases store.parts@.len() - i,
    {
        if store.parts[i].episode_id == base.episode_id && store.parts[i].starts_at
            < base.starts_at {
            let better = match &best {
                None => true,
                Some(b) => store.parts[i].starts_at > b.starts_at,
            };
            if better {
                best = Some(crate::model::copy_part(&store.parts[i]));
                proof {
                    assert(store.parts@[i as int]@ == best.unwrap()@);
                }
            }
        }
        i = i + 1;
    }
    best
}

/// The stored part of this episode that follows the given one most
/// closely in time, if any.
fn find_next_part(store: &Store, base: &Part) -> (r: Option<Part>)
    ensures
        r is Some <==> exists|k: int|
            0 <= k < store.parts@.len() && (#[trigger] store.parts@[k])@.episode_id
                == base@.episode_id && store.parts@[k]@.starts_at > base@.starts_at,
        r is Some ==> {
            &&& exists|k: int|
                0 <= k < store.parts@.len() && (#[trigger] store.parts@[k])@ == r.unwrap()@
            &&& r.unwrap()@.episode_id == base@.episode_id
            &&& r.unwrap()@.starts_at > base@.starts_at
            &&& forall|j: int|
                0 <= j < store.parts@.len() && (#[trigger] store.parts@[j])@.episode_id
                    == base@.episode_id && store.parts@[j]@.starts_at > base@.starts_at
                    ==> store.parts@[j]@.starts_at >= r.unwrap()@.starts_at
        },
{
    let mut best: Option<Part> = None;
    let mut i: usize = 0;
    while i < store.parts.len()
        invariant
            0 <= i <= store.parts@.len(),
            best is None ==> forall|k: int|
                0 <= k < i ==> !((#[trigger] store.parts@[k])@.episode_id == base@.episode_id
                    && store.parts@[k]@.starts_at > base@.starts_at),
            best is Some ==> {
                &&& exists|k: int|
                    0 <= k < store.parts@.len() && (#[trigger] store.parts@[k])@
                        == best.unwrap()@
                &&& best.unwrap()@.episode_id == base@.episode_id
                &&& best.unwrap()@.starts_at > base@.starts_at
                &&& forall|j: int|
                    0 <= j < i && (#[trigger] store.parts@[j])@.episode_id == base@.episode_id
                        && store.parts@[j]@.starts_at > base@.starts_at
                        ==> store.parts@[j]@.starts_at >= best.unwrap()@.starts_at
            },
        decreases store.parts@.len() - i,
    {
        if store.parts[i].episode_id == base.episode_id && store.parts[i].starts_at
            > base.starts_at {
            let better = match &best {
                None => true,
                Some(b) => store.parts[i].starts_at < b.starts_at,
            };
            if better {
                best = Some(crate::model::copy_part(&store.parts[i]));
                proof {
                    assert(store.parts@[i as int]@ == best.unwrap()@);
                }
            }
        }
        i = i + 1;
    }
    best
}

/// Creates an empty adjacent part anchored at the base part's start, with
/// its speaker and type.
fn create_adjacent_part(store: &mut Store, base: &Part) -> (r: Result<Part, Error>)
    requires
        old(store).wf(),
    ensures
        final(store).wf(),
        final(store).episodes@ == old(store).episodes@,
        final(store).speakers@ == old(store).speakers@,
        final(store).episode_speakers@ == old(store).episode_speakers@,
        final(store).sentences@ == old(store).sentences@,
        final(store).words@ == old(store).words@,
        final(store).approvals@ == old(store).approvals@,
        r is Err ==> (r matches Err(Error::Message(_))) && *final(store) == *old(store),
        r is Ok ==> {
            &&& r.unwrap()@.id == old(store).next_id as int
            &&& r.unwrap()@.episode_id == base@.episode_id
            &&& r.unwrap()@.episode_speaker_id == base@.episode_speaker_id
            &&& r.unwrap()@.text.len() == 0
            &&& r.unwrap()@.part_type == base@.part_type
            &&& r.unwrap()@.starts_at == base@.starts_at
            &&& r.unwrap()@.ends_at == base@.starts_at
            &&& views_of(final(store).parts@) == views_of(old(store).parts@).push(r.unwrap()@)
            &&& final(store).next_id == old(store).next_id + 1
        },
{
    let params = PartParams {
        text: String::new(),
        part_type: base.part_type,
        starts_at: base.starts_at,
        ends_at: base.starts_at,
        episode_speaker_id: base.episode_speaker_id,
    };
    store.add_part(base.episode_id, &params)
}

/// Persists one submitted sentence under the given target part: fetches
/// or creates the sentence row, rewrites its text, span and speaking rate
/// from the submitted words, and reparents every submitted word to it with
/// the submitted text, override and hidden flag (keeping the stored
/// timing and confidence). Returns the sentence's new text.
fn update_ui_sentence(store: &mut Store, ui: &UiUpdateParamsSentence, target: &Part) -> (r: Result<
    (String, i64),
    Error,
>)
    requires
        old(store).wf(),
        ui.words@.len() > 0,
        ui.sentence.id > 0 ==> has_sentence(old(store).sentences@, ui.sentence.id as int),
    ensures
        final(store).wf(),
        final(store).episodes@ == old(store).episodes@,
        final(store).speakers@ == old(store).speakers@,
        final(store).episode_speakers@ == old(store).episode_speakers@,
        final(store).parts@ == old(store).parts@,
        final(store).approvals@ == old(store).approvals@,
        forall|x: int|
            has_sentence(old(store).sentences@, x) ==> has_sentence(final(store).sentences@, x),
        forall|x: int| has_word(old(store).words@, x) ==> has_word(final(store).words@, x),
        final(store).words@.len() == old(store).words@.len(),
        forall|x: int| #[trigger] has_word(final(store).words@, x) ==> has_word(old(store).words@, x),
        forall|x: int|
            #[trigger] has_word(old(store).words@, x) && !ui_has_word_id(ui.words@, x)
                ==> word_at(final(store).words@, x) == word_at(old(store).words@, x),
        r is Err ==> r matches Err(Error::Message(_)),
        r is Ok ==> {
            let sid = r.unwrap().1 as int;
            &&& r.unwrap().0@ == ui_words_text(ui.words@)
            &&& has_sentence(final(store).sentences@, sid)
            &&& sentence_at(final(store).sentences@, sid) == (SentenceV {
                id: sid,
                part_id: target@.id,
                text: ui_words_text(ui.words@),
                starts_at: ui.words@[0].starts_at as int,
                ends_at: ui.words@.last().ends_at as int,
                words_per_second: crate::text::wps_milli(
                    ui_visible_count(ui.words@),
                    ui.words@[0].starts_at as int,
                    ui.words@.last().ends_at as int,
                ),
            })
            &&& ui.sentence.id > 0 ==> sid == ui.sentence.id as int
            &&& ui.sentence.id <= 0 ==> !has_sentence(old(store).sentences@, sid)
            &&& forall|x: int|
                #[trigger] has_sentence(old(store).sentences@, x) && x != sid ==> sentence_at(
                    final(store).sentences@,
                    x,
                ) == sentence_at(old(store).sentences@, x)
            &&& forall|x: int|
                #[trigger] has_sentence(final(store).sentences@, x) ==> has_sentence(
                    old(store).sentences@,
                    x,
                ) || x == sid
            &&& ui_word_ids_unique(ui.words@) ==> forall|m: int|
                0 <= m < ui.words@.len() && has_word(
                    old(store).words@,
                    (#[trigger] ui.words@[m]).id as int,
                ) ==> word_at(final(store).words@, ui.words@[m].id as int) == (WordV {
                    id: ui.words@[m].id as int,
                    sentence_id: sid,
                    text: ui.words@[m].text@,
                    overwrite: ui.words@[m].overwrite@,
                    starts_at: word_at(old(store).words@, ui.words@[m].id as int).starts_at,
                    ends_at: word_at(old(store).words@, ui.words@[m].id as int).ends_at,
                    probability: word_at(
                        old(store).words@,
                        ui.words@[m].id as int,
                    ).probability,
                    hidden: ui.words@[m].hidden,
                })
        },
{
    let ghost fresh_created = ui.sentence.id <= 0;
    let sentence_row: Sentence = if ui.sentence.id <= 0 {
        let params = SentenceParams {
            text: String::new(),
            starts_at: ui.sentence.starts_at,
            ends_at: ui.sentence.ends_at,
            words_per_second: 0,
        };
        let created = match store.add_sentence(target.id, &params) {
            Ok(s) => s,
            Err(e) => {
                return Err(e);
            },
        };
        proof {
            lemma_has_sentence_after_push(
                old(store).sentences@,
                store.sentences@,
                created@,
            );
        }
        proof {
            assert(!has_sentence(old(store).sentences@, created@.id)) by {
                if has_sentence(old(store).sentences@, created@.id) {
                    let k = choose|k: int|
                        0 <= k < old(store).sentences@.len() && (#[trigger] old(
                            store,
                        ).sentences@[k])@.id == created@.id;
                    assert(1 <= old(store).sentences@[k]@.id < old(store).next_id);
                }
            }
        }
        created
    } else {
        match store.get_sentence(ui.sentence.id) {
            Some(s) => s,
            None => {
                proof {
                    assert(false);
                }
                return Err(Error::NotFound);
            },
        }
    };
    proof {
        if ui.sentence.id <= 0 {
            assert(views_of(store.sentences@).len() == store.sentences@.len());
            assert(views_of(store.sentences@)[store.sentences@.len() - 1] == sentence_row@);
            assert(store.sentences@[store.sentences@.len() - 1]@ == sentence_row@);
        }
        assert(has_sentence(store.sentences@, sentence_row@.id));
    }

    // The new text: non-hidden effective texts in submission order.
    let ghost ws = ui.words@;
    let mut texts: Vec<String> = Vec::new();
    let mut visible: usize = 0;
    let mut m: usize = 0;
    while m < ui.words.len()
        invariant
            0 <= m <= ws.len(),
            ws == ui.words@,
            views_of(texts@) == ui_visible_texts(ws.take(m as int)),
            visible == ui_visible_texts(ws.take(m as int)).len(),
            visible <= m,
        decreases ws.len() - m,
    {
        proof {
            assert(ws.take(m + 1).drop_last() =~= ws.take(m as int));
            assert(ws.take(m + 1).last() == ws[m as int]);
        }
        if !ui.words[m].hidden {
            let t = if ui.words[m].overwrite.as_str().is_empty() {
                ui.words[m].text.clone()
            } else {
                ui.words[m].overwrite.clone()
            };
            texts.push(t);
            visible = visible + 1;
            proof {
                assert(views_of(texts@) =~~= ui_visible_texts(ws.take(m + 1)));
            }
        }
        m = m + 1;
    }
    proof {
        assert(ws.take(ws.len() as int) =~= ws);
    }
    let new_text = crate::text::join_all(&texts);

    let first_start = ui.words[0].starts_at;
    let last_end = ui.words[ui.words.len() - 1].ends_at;
    let wps = crate::text::compute_wps(visible, first_start, last_end);

    let new_sentence = Sentence {
        id: sentence_row.id,
        part_id: target.id,
        text: new_text.clone(),
        starts_at: first_start,
        ends_at: last_end,
        words_per_second: wps,
    };
    let ghost before_save = *store;
    match store.save_sentence(&new_sentence) {
        Ok(()) => {},
        Err(e) => {
            proof {
                assert(has_sentence(before_save.sentences@, new_sentence@.id));
                assert(false);
            }
            return Err(e);
        },
    }
    proof {
        let i = choose|i: int|
            0 <= i < before_save.sentences@.len() && before_save.sentences@[i]@.id
                == new_sentence@.id && views_of(store.sentences@) == views_of(
                before_save.sentences@,
            ).update(i, new_sentence@);
        lemma_has_sentence_after_update(
            before_save.sentences@,
            store.sentences@,
            i,
            new_sentence@,
        );
        assert(views_of(store.sentences@).len() == store.sentences@.len());
        assert(views_of(before_save.sentences@).len() == before_save.sentences@.len());
        assert(forall|k: int|
            0 <= k < store.sentences@.len() ==> (#[trigger] store.sentences@[k])@ == views_of(
                store.sentences@,
            )[k]);
        assert(forall|k: int|
            0 <= k < before_save.sentences@.len() ==> (#[trigger] before_save.sentences@[k])@
                == views_of(before_save.sentences@)[k]);
        assert(store.sentences@[i]@ == new_sentence@);
        crate::store::lemma_unique_sentence(store.sentences@, i, new_sentence@.id);
        assert(sentence_at(store.sentences@, new_sentence@.id) == new_sentence@);
        // Every other sentence row survives the save unchanged.
        assert forall|x: int|
            #[trigger] has_sentence(old(store).sentences@, x) && x != new_sentence@.id implies
            sentence_at(store.sentences@, x) == sentence_at(old(store).sentences@, x) by {
            let k = choose|k: int|
                0 <= k < old(store).sentences@.len() && (#[trigger] old(
                    store,
                ).sentences@[k])@.id == x;
            crate::store::lemma_unique_sentence(old(store).sentences@, k, x);
            if ui.sentence.id <= 0 {
                assert(before_save.sentences@[k]@ == old(store).sentences@[k]@);
            } else {
                assert(before_save.sentences@[k]@ == old(store).sentences@[k]@);
            }
            crate::store::lemma_unique_sentence(before_save.sentences@, k, x);
            assert(k != i);
            assert(store.sentences@[k]@ == before_save.sentences@[k]@);
            crate::store::lemma_unique_sentence(store.sentences@, k, x);
        }
        // No id beyond the written one joined the table.
        assert forall|x: int|
            #[trigger] has_sentence(store.sentences@, x) implies has_sentence(
            old(store).sentences@,
            x,
        ) || x == new_sentence@.id by {
            let k = choose|k: int|
                0 <= k < store.sentences@.len() && (#[trigger] store.sentences@[k])@.id == x;
            if k != i {
                assert(store.sentences@[k]@ == before_save.sentences@[k]@);
                if ui.sentence.id <= 0 && k == before_save.sentences@.len() - 1 {
                    assert(before_save.sentences@[k]@.id == new_sentence@.id);
                } else {
                    assert(before_save.sentences@[k]@ == old(store).sentences@[k]@);
                }
            }
        }
    }
    let ghost sentences_after_save = store.sentences@;

    // Reparent the submitted words.
    let mut m2: usize = 0;
    while m2 < ui.words.len()
        invariant
            store.wf(),
            0 <= m2 <= ui.words@.len(),
            store.episodes@ == old(store).episodes@,
            store.speakers@ == old(store).speakers@,
            store.episode_speakers@ == old(store).episode_speakers@,
            store.parts@ == old(store).parts@,
            store.approvals@ == old(store).approvals@,
            store.sentences@ == sentences_after_save,
            forall|x: int|
                has_sentence(old(store).sentences@, x) ==> has_sentence(store.sentences@, x),
            forall|x: int| has_word(old(store).words@, x) ==> has_word(store.words@, x),
            store.words@.len() == old(store).words@.len(),
            forall|x: int|
                #[trigger] has_word(store.words@, x) ==> has_word(old(store).words@, x),
            forall|x: int|
                #[trigger] has_word(old(store).words@, x) && !ui_has_word_id(
                    ui.words@.take(m2 as int),
                    x,
                ) ==> word_at(store.words@, x) == word_at(old(store).words@, x),
            ui_word_ids_unique(ui.words@) ==> forall|m: int|
                0 <= m < m2 && has_word(old(store).words@, (#[trigger] ui.words@[m]).id as int)
                    ==> word_at(store.words@, ui.words@[m].id as int) == (WordV {
                    id: ui.words@[m].id as int,
                    sentence_id: sentence_row@.id,
                    text: ui.words@[m].text@,
                    overwrite: ui.words@[m].overwrite@,
                    starts_at: word_at(old(store).words@, ui.words@[m].id as int).starts_at,
                    ends_at: word_at(old(store).words@, ui.words@[m].id as int).ends_at,
                    probability: word_at(old(store).words@, ui.words@[m].id as int).probability,
                    hidden: ui.words@[m].hidden,
                }),
        decreases ui.words@.len() - m2,
    {
        let current = match store.get_word(ui.words[m2].id) {
            Some(w) => w,
            None => {
                // A submitted id with no stored row is skipped: only
                // stored words can be reparented.
                proof {
                    let wid = ui.words@[m2 as int].id as int;
                    assert(!has_word(old(store).words@, wid)) by {
                        if has_word(old(store).words@, wid) {
                            assert(has_word(store.words@, wid));
                        }
                    }
                    assert forall|x: int|
                        #[trigger] has_word(old(store).words@, x) && !ui_has_word_id(
                            ui.words@.take(m2 + 1),
                            x,
                        ) implies word_at(store.words@, x) == word_at(old(store).words@, x) by {
                        assert(!ui_has_word_id(ui.words@.take(m2 as int), x)) by {
                            if ui_has_word_id(ui.words@.take(m2 as int), x) {
                                let w = choose|w: int|
                                    0 <= w < ui.words@.take(m2 as int).len() && (
                                    #[trigger] ui.words@.take(m2 as int)[w]).id as int == x;
                                assert(ui.words@.take(m2 + 1)[w].id as int == x);
                            }
                        }
                    }
                }
                m2 = m2 + 1;
                continue;
            },
        };
        let updated = Word {
            id: current.id,
            sentence_id: sentence_row.id,
            text: ui.words[m2].text.clone(),
            overwrite: ui.words[m2].overwrite.clone(),
            starts_at: current.starts_at,
            ends_at: current.ends_at,
            probability: current.probability,
            hidden: ui.words[m2].hidden,
        };
        let ghost before_word = *store;
        match store.save_word(&updated) {
            Ok(()) => {},
            Err(e) => {
                proof {
                    assert(has_word(before_word.words@, updated@.id));
                    assert(false);
                }
                return Err(e);
            },
        }
        proof {
            let i = choose|i: int|
                0 <= i < before_word.words@.len() && before_word.words@[i]@.id == updated@.id
                    && views_of(store.words@) == views_of(before_word.words@).update(
                    i,
                    updated@,
                );
            lemma_has_word_after_update(before_word.words@, store.words@, i, updated@);
            assert(views_of(store.words@).len() == store.words@.len());
            assert(views_of(before_word.words@).len() == before_word.words@.len());
            assert(forall|k: int|
                0 <= k < store.words@.len() ==> (#[trigger] store.words@[k])@ == views_of(
                    store.words@,
                )[k]);
            assert(forall|k: int|
                0 <= k < before_word.words@.len() ==> (#[trigger] before_word.words@[k])@
                    == views_of(before_word.words@)[k]);
            assert(store.words@[i]@ == updated@);
            crate::store::lemma_unique_word(store.words@, i, updated@.id);
            assert(word_at(store.words@, updated@.id) == updated@);
            crate::store::lemma_unique_word(before_word.words@, i, updated@.id);
            assert(word_at(before_word.words@, updated@.id) == current@);
            assert forall|x: int| #[trigger] has_word(store.words@, x) implies has_word(
                before_word.words@,
                x,
            ) by {
                let k = choose|k: int| 0 <= k < store.words@.len() && (#[trigger] store.words@[k])@.id == x;
                if k == i {
                    assert(before_word.words@[i]@.id == x);
                } else {
                    assert(store.words@[k]@ == before_word.words@[k]@);
                }
            }
            let ghost wid = ui.words@[m2 as int].id as int;
            assert(updated@.id == wid);
            assert forall|x: int|
                #[trigger] has_word(old(store).words@, x) && !ui_has_word_id(
                    ui.words@.take(m2 + 1),
                    x,
                ) implies word_at(store.words@, x) == word_at(old(store).words@, x) by {
                assert(!ui_has_word_id(ui.words@.take(m2 as int), x)) by {
                    if ui_has_word_id(ui.words@.take(m2 as int), x) {
                        let w = choose|w: int|
                            0 <= w < ui.words@.take(m2 as int).len() && (
                            #[trigger] ui.words@.take(m2 as int)[w]).id as int == x;
                        assert(ui.words@.take(m2 + 1)[w].id as int == x);
                    }
                }
                assert(x != wid) by {
                    assert(ui.words@.take(m2 + 1)[m2 as int].id as int == wid);
                }
                lemma_word_at_update_other(before_word.words@, store.words@, i, updated@, x);
            }
            if ui_word_ids_unique(ui.words@) {
                assert forall|m: int|
                    0 <= m < m2 + 1 && has_word(
                        old(store).words@,
                        (#[trigger] ui.words@[m]).id as int,
                    ) implies word_at(store.words@, ui.words@[m].id as int) == (WordV {
                    id: ui.words@[m].id as int,
                    sentence_id: sentence_row@.id,
                    text: ui.words@[m].text@,
                    overwrite: ui.words@[m].overwrite@,
                    starts_at: word_at(old(store).words@, ui.words@[m].id as int).starts_at,
                    ends_at: word_at(old(store).words@, ui.words@[m].id as int).ends_at,
                    probability: word_at(old(store).words@, ui.words@[m].id as int).probability,
                    hidden: ui.words@[m].hidden,
                }) by {
                    if m < m2 {
                        assert(ui.words@[m].id != ui.words@[m2 as int].id);
                        lemma_word_at_update_other(
                            before_word.words@,
                            store.words@,
                            i,
                            updated@,
                            ui.words@[m].id as int,
                        );
                    } else {
                        assert(!ui_has_word_id(ui.words@.take(m2 as int), wid)) by {
                            if ui_has_word_id(ui.words@.take(m2 as int), wid) {
                                let w = choose|w: int|
                                    0 <= w < ui.words@.take(m2 as int).len() && (
                                    #[trigger] ui.words@.take(m2 as int)[w]).id as int == wid;
                                assert(ui.words@[w].id == ui.words@[m2 as int].id);
                            }
                        }
                        assert(word_at(before_word.words@, wid) == word_at(
                            old(store).words@,
                            wid,
                        ));
                        assert(current@ == word_at(old(store).words@, wid));
                    }
                }
            }
        }
        m2 = m2 + 1;
    }

    proof {
        assert(sentence_at(store.sentences@, new_sentence@.id) == new_sentence@);
        assert(new_sentence@.id == sentence_row@.id);
        if fresh_created {
            assert(!has_sentence(old(store).sentences@, sentence_row@.id));
        }
        assert(new_sentence@ == SentenceV {
            id: sentence_row@.id,
            part_id: target@.id,
            text: ui_words_text(ui.words@),
            starts_at: ui.words@[0].starts_at as int,
            ends_at: ui.words@.last().ends_at as int,
            words_per_second: crate::text::wps_milli(
                ui_visible_count(ui.words@),
                ui.words@[0].starts_at as int,
                ui.words@.last().ends_at as int,
            ),
        });
    }
    Ok((new_text, sentence_row.id))
}

/// Every sentence of a part is a stored row.
proof fn lemma_sentences_with_part_member(s: Seq<Sentence>, pid: int)
    ensures
        forall|t: int|
            0 <= t < sentences_with_part(s, pid).len() ==> exists|j: int|
                0 <= j < s.len() && (#[trigger] s[j])@ == #[trigger] sentences_with_part(
                    s,
                    pid,
                )[t],
    decreases s.len(),
{
    if s.len() > 0 {
        lemma_sentences_with_part_member(s.drop_last(), pid);
        let pre = sentences_with_part(s.drop_last(), pid);
        assert forall|t: int| 0 <= t < pre.len() implies exists|j: int|
            0 <= j < s.len() && (#[trigger] s[j])@ == #[trigger] pre[t] by {
            let j = choose|j: int|
                0 <= j < s.drop_last().len() && (#[trigger] s.drop_last()[j])@ == pre[t];
            assert(s[j]@ == pre[t]);
        }
        if s.last()@.part_id == pid {
            assert(s[s.len() - 1]@ == sentences_with_part(s, pid).last());
        }
    }
}

/// No surviving part carries the deleted id.
proof fn lemma_parts_without_no_id(s: Seq<Part>, id: int)
    ensures
        forall|t: int|
            0 <= t < crate::store::parts_without(s, id).len()
                ==> (#[trigger] crate::store::parts_without(s, id)[t]).id != id,
    decreases s.len(),
{
    if s.len() > 0 {
        lemma_parts_without_no_id(s.drop_last(), id);
        let cur = crate::store::parts_without(s, id);
        let pre = crate::store::parts_without(s.drop_last(), id);
        if s.last()@.id != id {
            assert(cur == pre.push(s.last()@));
            assert forall|t: int| 0 <= t < cur.len() implies (#[trigger] cur[t]).id != id by {
                if t < cur.len() - 1 {
                    assert(cur[t] == pre[t]);
                    assert(pre[t].id != id);
                }
            }
        } else {
            assert(cur == pre);
            assert forall|t: int| 0 <= t < cur.len() implies (#[trigger] cur[t]).id != id by {
                assert(cur[t] == pre[t]);
                assert(pre[t].id != id);
            }
        }
    }
}

/// An update that keeps a row's id keeps every part id present.
proof fn lemma_has_part_after_update(pre: Seq<Part>, post: Seq<Part>, i: int, rv: PartV)
    requires
        0 <= i < pre.len(),
        views_of(post) == views_of(pre).update(i, rv),
        rv.id == pre[i]@.id,
    ensures
        forall|x: int| has_part(pre, x) ==> has_part(post, x),
        post.len() == pre.len(),
{
    assert(views_of(pre).len() == pre.len());
    assert(views_of(post).len() == post.len());
    assert(forall|k: int| 0 <= k < post.len() ==> (#[trigger] post[k])@ == views_of(post)[k]);
    assert(forall|k: int| 0 <= k < pre.len() ==> (#[trigger] pre[k])@ == views_of(pre)[k]);
    assert forall|x: int| has_part(pre, x) implies has_part(post, x) by {
        let k = choose|k: int| 0 <= k < pre.len() && (#[trigger] pre[k])@.id == x;
        assert(post[k]@.id == x);
    }
}

/// An appended row keeps every part id present.
proof fn lemma_has_part_after_push(pre: Seq<Part>, post: Seq<Part>, rv: PartV)
    requires
        views_of(post) == views_of(pre).push(rv),
    ensures
        forall|x: int| has_part(pre, x) ==> has_part(post, x),
        post.len() == pre.len() + 1,
{
    assert(views_of(pre).len() == pre.len());
    assert(views_of(post).len() == post.len());
    assert(forall|k: int| 0 <= k < post.len() ==> (#[trigger] post[k])@ == views_of(post)[k]);
    assert(forall|k: int| 0 <= k < pre.len() ==> (#[trigger] pre[k])@ == views_of(pre)[k]);
    assert forall|x: int| has_part(pre, x) implies has_part(post, x) by {
        let k = choose|k: int| 0 <= k < pre.len() && (#[trigger] pre[k])@.id == x;
        assert(post[k]@.id == x);
    }
}

/// All words the part currently owns, sentence by sentence.
fn collect_part_words(store: &Store, sentences: &Vec<Sentence>) -> (r: Vec<Word>)
    ensures
        views_of(r@) == words_of_sentences(store.words@, views_of(sentences@)),
{
    let ghost svs = views_of(sentences@);
    let mut r: Vec<Word> = Vec::new();
    let mut i: usize = 0;
    while i < sentences.len()
        invariant
            0 <= i <= sentences@.len(),
            svs == views_of(sentences@),
            svs.len() == sentences@.len(),
            views_of(r@) == words_of_sentences(store.words@, svs.take(i as int)),
        decreases sentences@.len() - i,
    {
        proof {
            assert(svs.take(i + 1).drop_last() =~= svs.take(i as int));
            assert(svs.take(i + 1).last() == svs[i as int]);
            assert(svs[i as int] == sentences@[i as int]@);
        }
        let ws = store.list_words(sentences[i].id);
        let ghost pre = views_of(r@);
        let mut j: usize = 0;
        while j < ws.len()
            invariant
                0 <= j <= ws@.len(),
                views_of(r@) == pre + views_of(ws@).take(j as int),
            decreases ws@.len() - j,
        {
            let ghost r_before = r@;
            let c = crate::model::copy_word(&ws[j]);
            let ghost cv = c@;
            r.push(c);
            proof {
                assert(views_of(ws@).len() == ws@.len());
                assert(views_of(ws@).take(j + 1).drop_last() =~= views_of(ws@).take(j as int));
                assert(views_of(ws@).take(j + 1).last() == views_of(ws@)[j as int]);
                assert(views_of(ws@)[j as int] == ws@[j as int]@);
                assert(views_of(r@).len() == r@.len());
                assert(views_of(r_before).len() == r_before.len());
                assert(r@ == r_before.push(c));
                assert(views_of(r_before) == pre + views_of(ws@).take(j as int));
                assert(r_before.len() == pre.len() + j);
                assert(views_of(r@).len() == (pre + views_of(ws@).take(j + 1)).len());
                assert forall|k: int| 0 <= k < views_of(r@).len() implies views_of(r@)[k] == (pre
                    + views_of(ws@).take(j + 1))[k] by {
                    assert(views_of(r@)[k] == r@[k]@);
                    if k < pre.len() + j {
                        assert(r@[k] == r_before[k]);
                        assert(views_of(r_before)[k] == r_before[k]@);
                        assert(views_of(r_before)[k] == (pre + views_of(ws@).take(j as int))[k]);
                        if k < pre.len() {
                            assert((pre + views_of(ws@).take(j as int))[k] == pre[k]);
                            assert((pre + views_of(ws@).take(j + 1))[k] == pre[k]);
                        } else {
                            assert((pre + views_of(ws@).take(j as int))[k] == views_of(
                                ws@,
                            ).take(j as int)[k - pre.len()]);
                            assert((pre + views_of(ws@).take(j + 1))[k] == views_of(ws@).take(
                                j + 1,
                            )[k - pre.len()]);
                        }
                    } else {
                        assert(r@[k] == c);
                        assert(cv == ws@[j as int]@);
                        assert((pre + views_of(ws@).take(j + 1))[k] == views_of(ws@).take(
                            j + 1,
                        )[k - pre.len()]);
                    }
                }
                assert(views_of(r@) =~= pre + views_of(ws@).take(j + 1));
            }
            j = j + 1;
        }
        proof {
            assert(views_of(ws@).take(ws@.len() as int) =~= views_of(ws@));
            assert(views_of(ws@).len() == ws@.len());
            assert(views_of(r@) =~= words_of_sentences(store.words@, svs.take(i + 1)));
        }
        i = i + 1;
    }
    proof {
        assert(svs.take(sentences@.len() as int) =~= svs);
    }
    r
}

/// The ids of all submitted words, across sentences in submission order.
fn collect_ui_word_ids(ss: &Vec<UiUpdateParamsSentence>) -> (r: Vec<i64>)
    ensures
        r@.len() == ui_all_words(ss@).len(),
        forall|k: int| 0 <= k < r@.len() ==> r@[k] == (#[trigger] ui_all_words(ss@)[k]).id,
{
    let mut r: Vec<i64> = Vec::new();
    let mut i: usize = 0;
    while i < ss.len()
        invariant
            0 <= i <= ss@.len(),
            r@.len() == ui_all_words(ss@.take(i as int)).len(),
            forall|k: int|
                0 <= k < r@.len() ==> r@[k] == (#[trigger] ui_all_words(ss@.take(i as int))[k]).id,
        decreases ss@.len() - i,
    {
        proof {
            assert(ss@.take(i + 1).drop_last() =~= ss@.take(i as int));
            assert(ss@.take(i + 1).last() == ss@[i as int]);
        }
        let ghost pre = ui_all_words(ss@.take(i as int));
        let mut j: usize = 0;
        while j < ss[i].words.len()
            invariant
                0 <= i < ss@.len(),
                0 <= j <= ss@[i as int].words@.len(),
                pre == ui_all_words(ss@.take(i as int)),
                r@.len() == pre.len() + j,
                forall|k: int|
                    0 <= k < pre.len() ==> r@[k] == (#[trigger] pre[k]).id,
                forall|k: int|
                    0 <= k < j ==> r@[pre.len() + k] == (#[trigger] ss@[i as int].words@[k]).id,
            decreases ss@[i as int].words@.len() - j,
        {
            r.push(ss[i].words[j].id);
            j = j + 1;
        }
        proof {
            assert(ui_all_words(ss@.take(i + 1)) == pre + ss@[i as int].words@);
            assert(r@.len() == ui_all_words(ss@.take(i + 1)).len());
            assert forall|k: int| 0 <= k < r@.len() implies r@[k] == (#[trigger] ui_all_words(
                ss@.take(i + 1),
            )[k]).id by {
                if k < pre.len() {
                    assert(ui_all_words(ss@.take(i + 1))[k] == pre[k]);
                } else {
                    assert(ui_all_words(ss@.take(i + 1))[k] == ss@[i as int].words@[k
                        - pre.len()]);
                }
            }
        }
        i = i + 1;
    }
    proof {
        assert(ss@.take(ss@.len() as int) =~= ss@);
    }
    r
}

/// Whether the id sequence holds no duplicates.
fn ids_all_unique(v: &Vec<i64>) -> (r: bool)
    ensures
        r <==> forall|a: int, b: int| 0 <= a < b < v@.len() ==> v@[a] != v@[b],
{
    let mut i: usize = 0;
    while i < v.len()
        invariant
            0 <= i <= v@.len(),
            forall|a: int, b: int| 0 <= a < b < v@.len() && b < i ==> v@[a] != v@[b],
        decreases v@.len() - i,
    {
        let mut j: usize = 0;
        while j < i
            invariant
                0 <= j <= i < v@.len(),
                forall|a: int| 0 <= a < j ==> v@[a] != v@[i as int],
            decreases i - j,
        {
            if v[j] == v[i] {
                return false;
            }
            j = j + 1;
        }
        i = i + 1;
    }
    true
}

/// Whether the id occurs in the sequence.
fn contains_id(v: &Vec<i64>, x: i64) -> (r: bool)
    ensures
        r <==> exists|k: int| 0 <= k < v@.len() && v@[k] == x,
{
    let mut i: usize = 0;
    while i < v.len()
        invariant
            0 <= i <= v@.len(),
            forall|k: int| 0 <= k < i ==> v@[k] != x,
        decreases v@.len() - i,
    {
        if v[i] == x {
            return true;
        }
        i = i + 1;
    }
    false
}

/// Rewriting another part's row moves no part id and keeps this one's row.
proof fn lemma_part_at_update_other(pre: Seq<Part>, post: Seq<Part>, i: int, rv: PartV, x: int)
    requires
        forall|a: int, b: int|
            0 <= a < b < pre.len() ==> (#[trigger] pre[a])@.id != (#[trigger] pre[b])@.id,
        0 <= i < pre.len(),
        views_of(post) == views_of(pre).update(i, rv),
        rv.id == pre[i]@.id,
        pre[i]@.id != x,
        has_part(pre, x),
    ensures
        has_part(post, x),
        part_at(post, x) == part_at(pre, x),
{
    assert(views_of(pre).len() == pre.len());
    assert(views_of(post).len() == post.len());
    assert(forall|k: int| 0 <= k < post.len() ==> (#[trigger] post[k])@ == views_of(post)[k]);
    assert(forall|k: int| 0 <= k < pre.len() ==> (#[trigger] pre[k])@ == views_of(pre)[k]);
    let k = choose|k: int| 0 <= k < pre.len() && (#[trigger] pre[k])@.id == x;
    assert(k != i);
    assert(post[k]@ == pre[k]@);
    assert(has_part(post, x));
    crate::store::lemma_unique_part(pre, k, x);
    assert forall|a: int, b: int|
        0 <= a < b < post.len() implies (#[trigger] post[a])@.id != (#[trigger] post[b])@.id by {
        assert(pre[a]@.id != pre[b]@.id);
    }
    crate::store::lemma_unique_part(post, k, x);
}

/// Appending a part with a different id keeps this one's row.
proof fn lemma_part_at_push_other(pre: Seq<Part>, post: Seq<Part>, rv: PartV, x: int)
    requires
        forall|a: int, b: int|
            0 <= a < b < pre.len() ==> (#[trigger] pre[a])@.id != (#[trigger] pre[b])@.id,
        forall|a: int| 0 <= a < pre.len() ==> (#[trigger] pre[a])@.id != rv.id,
        views_of(post) == views_of(pre).push(rv),
        rv.id != x,
        has_part(pre, x),
    ensures
        has_part(post, x),
        part_at(post, x) == part_at(pre, x),
{
    assert(views_of(pre).len() == pre.len());
    assert(views_of(post).len() == post.len());
    assert(forall|k: int| 0 <= k < post.len() ==> (#[trigger] post[k])@ == views_of(post)[k]);
    assert(forall|k: int| 0 <= k < pre.len() ==> (#[trigger] pre[k])@ == views_of(pre)[k]);
    let k = choose|k: int| 0 <= k < pre.len() && (#[trigger] pre[k])@.id == x;
    assert(post[k]@ == pre[k]@);
    assert(has_part(post, x));
    crate::store::lemma_unique_part(pre, k, x);
    assert forall|a: int, b: int|
        0 <= a < b < post.len() implies (#[trigger] post[a])@.id != (#[trigger] post[b])@.id by {
        if b < post.len() - 1 {
            assert(pre[a]@.id != pre[b]@.id);
        } else {
            assert(pre[a]@.id != rv.id);
        }
    }
    crate::store::lemma_unique_part(post, k, x);
}

/// Whether some submitted sentence carries this sentence id.
pub open spec fn ui_has_sentence_id(ss: Seq<UiUpdateParamsSentence>, x: int) -> bool {
    exists|a: int| 0 <= a < ss.len() && (#[trigger] ss[a]).sentence.id as int == x
}

/// No surviving sentence carries the deleted id.
proof fn lemma_sentences_without_no_id(s: Seq<Sentence>, id: int)
    ensures
        forall|t: int|
            0 <= t < crate::store::sentences_without(s, id).len()
                ==> (#[trigger] crate::store::sentences_without(s, id)[t]).id != id,
    decreases s.len(),
{
    if s.len() > 0 {
        lemma_sentences_without_no_id(s.drop_last(), id);
        let cur = crate::store::sentences_without(s, id);
        let pre = crate::store::sentences_without(s.drop_last(), id);
        if s.last()@.id != id {
            assert(cur == pre.push(s.last()@));
            assert forall|t: int| 0 <= t < cur.len() implies (#[trigger] cur[t]).id != id by {
                if t < cur.len() - 1 {
                    assert(cur[t] == pre[t]);
                }
            }
        } else {
            assert(cur == pre);
            assert forall|t: int| 0 <= t < cur.len() implies (#[trigger] cur[t]).id != id by {
                assert(cur[t] == pre[t]);
            }
        }
    }
}

/// Every surviving row of a one-id deletion is an original row.
proof fn lemma_parts_without_keeps(s: Seq<Part>, id: int)
    ensures
        forall|k: int|
            0 <= k < s.len() && (#[trigger] s[k])@.id != id ==> exists|t: int|
                0 <= t < crate::store::parts_without(s, id).len()
                    && #[trigger] crate::store::parts_without(s, id)[t] == s[k]@,
    decreases s.len(),
{
    if s.len() > 0 {
        lemma_parts_without_keeps(s.drop_last(), id);
        let cur = crate::store::parts_without(s, id);
        let pre = crate::store::parts_without(s.drop_last(), id);
        assert forall|k: int| 0 <= k < s.len() && (#[trigger] s[k])@.id != id implies exists|
            t: int,
        |
            0 <= t < cur.len() && #[trigger] cur[t] == s[k]@ by {
            if k < s.len() - 1 {
                assert(s.drop_last()[k] == s[k]);
                let t = choose|t: int| 0 <= t < pre.len() && #[trigger] pre[t] == s[k]@;
                if s.last()@.id != id {
                    assert(cur == pre.push(s.last()@));
                    assert(cur[t] == s[k]@);
                } else {
                    assert(cur == pre);
                    assert(cur[t] == s[k]@);
                }
            } else {
                assert(cur == pre.push(s.last()@));
                assert(cur[cur.len() - 1] == s[k]@);
            }
        }
    }
}

/// Deleting one part keeps every other part's row, by id.
#[verifier::rlimit(50)]
proof fn lemma_parts_without_member(pre: Seq<Part>, post: Seq<Part>, id: int, x: int)
    requires
        forall|a: int, b: int|
            0 <= a < b < pre.len() ==> (#[trigger] pre[a])@.id != (#[trigger] pre[b])@.id,
        views_of(post) == crate::store::parts_without(pre, id),
        has_part(pre, x),
        x != id,
    ensures
        has_part(post, x),
        part_at(post, x) == part_at(pre, x),
{
    let k = choose|k: int| 0 <= k < pre.len() && (#[trigger] pre[k])@.id == x;
    crate::store::lemma_unique_part(pre, k, x);
    lemma_parts_without_keeps(pre, id);
    let t = choose|t: int|
        0 <= t < crate::store::parts_without(pre, id).len()
            && #[trigger] crate::store::parts_without(pre, id)[t] == pre[k]@;
    assert(views_of(post).len() == post.len());
    assert(post[t]@ == views_of(post)[t]);
    assert(post[t]@ == pre[k]@);
    assert(has_part(post, x));
    crate::store::lemma_parts_without_ids(pre, id);
    assert forall|a: int, b: int|
        0 <= a < b < post.len() implies (#[trigger] post[a])@.id != (#[trigger] post[b])@.id by {
        assert(post[a]@ == views_of(post)[a]);
        assert(post[b]@ == views_of(post)[b]);
    }
    crate::store::lemma_unique_part(post, t, x);
}

/// Every surviving row of a one-id sentence deletion is an original row.
proof fn lemma_sentences_without_keeps(s: Seq<Sentence>, id: int)
    ensures
        forall|k: int|
            0 <= k < s.len() && (#[trigger] s[k])@.id != id ==> exists|t: int|
                0 <= t < crate::store::sentences_without(s, id).len()
                    && #[trigger] crate::store::sentences_without(s, id)[t] == s[k]@,
    decreases s.len(),
{
    if s.len() > 0 {
        lemma_sentences_without_keeps(s.drop_last(), id);
        let cur = crate::store::sentences_without(s, id);
        let pre = crate::store::sentences_without(s.drop_last(), id);
        assert forall|k: int| 0 <= k < s.len() && (#[trigger] s[k])@.id != id implies exists|
            t: int,
        |
            0 <= t < cur.len() && #[trigger] cur[t] == s[k]@ by {
            if k < s.len() - 1 {
                assert(s.drop_last()[k] == s[k]);
                let t = choose|t: int| 0 <= t < pre.len() && #[trigger] pre[t] == s[k]@;
                if s.last()@.id != id {
                    assert(cur == pre.push(s.last()@));
                    assert(cur[t] == s[k]@);
                } else {
                    assert(cur == pre);
                    assert(cur[t] == s[k]@);
                }
            } else {
                assert(cur == pre.push(s.last()@));
                assert(cur[cur.len() - 1] == s[k]@);
            }
        }
    }
}

/// Deleting one sentence keeps every other sentence's row, by id.
#[verifier::rlimit(50)]
proof fn lemma_sentences_without_member(pre: Seq<Sentence>, post: Seq<Sentence>, id: int, x: int)
    requires
        forall|a: int, b: int|
            0 <= a < b < pre.len() ==> (#[trigger] pre[a])@.id != (#[trigger] pre[b])@.id,
        views_of(post) == crate::store::sentences_without(pre, id),
        has_sentence(pre, x),
        x != id,
    ensures
        has_sentence(post, x),
        sentence_at(post, x) == sentence_at(pre, x),
{
    let k = choose|k: int| 0 <= k < pre.len() && (#[trigger] pre[k])@.id == x;
    crate::store::lemma_unique_sentence(pre, k, x);
    lemma_sentences_without_keeps(pre, id);
    let t = choose|t: int|
        0 <= t < crate::store::sentences_without(pre, id).len()
            && #[trigger] crate::store::sentences_without(pre, id)[t] == pre[k]@;
    assert(views_of(post).len() == post.len());
    assert(post[t]@ == views_of(post)[t]);
    assert(post[t]@ == pre[k]@);
    assert(has_sentence(post, x));
    crate::store::lemma_sentences_without_ids(pre, id);
    assert forall|a: int, b: int|
        0 <= a < b < post.len() implies (#[trigger] post[a])@.id != (#[trigger] post[b])@.id by {
        assert(post[a]@ == views_of(post)[a]);
        assert(post[b]@ == views_of(post)[b]);
    }
    crate::store::lemma_unique_sentence(post, t, x);
}

/// Every surviving row of a one-part sentence cascade is an original row.
proof fn lemma_sentences_without_part_keeps(s: Seq<Sentence>, pid: int)
    ensures
        forall|k: int|
            0 <= k < s.len() && (#[trigger] s[k])@.part_id != pid ==> exists|t: int|
                0 <= t < crate::store::sentences_without_part(s, pid).len()
                    && #[trigger] crate::store::sentences_without_part(s, pid)[t] == s[k]@,
    decreases s.len(),
{
    if s.len() > 0 {
        lemma_sentences_without_part_keeps(s.drop_last(), pid);
        let cur = crate::store::sentences_without_part(s, pid);
        let pre = crate::store::sentences_without_part(s.drop_last(), pid);
        assert forall|k: int| 0 <= k < s.len() && (#[trigger] s[k])@.part_id != pid implies exists|
            t: int,
        |
            0 <= t < cur.len() && #[trigger] cur[t] == s[k]@ by {
            if k < s.len() - 1 {
                assert(s.drop_last()[k] == s[k]);
                let t = choose|t: int| 0 <= t < pre.len() && #[trigger] pre[t] == s[k]@;
                if s.last()@.part_id != pid {
                    assert(cur == pre.push(s.last()@));
                    assert(cur[t] == s[k]@);
                } else {
                    assert(cur == pre);
                    assert(cur[t] == s[k]@);
                }
            } else {
                assert(cur == pre.push(s.last()@));
                assert(cur[cur.len() - 1] == s[k]@);
            }
        }
    }
}

/// A part deletion keeps every sentence of another part, by id.
#[verifier::rlimit(50)]
proof fn lemma_sentences_without_part_member(
    pre: Seq<Sentence>,
    post: Seq<Sentence>,
    pid: int,
    x: int,
)
    requires
        forall|a: int, b: int|
            0 <= a < b < pre.len() ==> (#[trigger] pre[a])@.id != (#[trigger] pre[b])@.id,
        views_of(post) == crate::store::sentences_without_part(pre, pid),
        has_sentence(pre, x),
        sentence_at(pre, x).part_id != pid,
    ensures
        has_sentence(post, x),
        sentence_at(post, x) == sentence_at(pre, x),
{
    let k = choose|k: int| 0 <= k < pre.len() && (#[trigger] pre[k])@.id == x;
    crate::store::lemma_unique_sentence(pre, k, x);
    assert(pre[k]@.part_id != pid);
    lemma_sentences_without_part_keeps(pre, pid);
    let t = choose|t: int|
        0 <= t < crate::store::sentences_without_part(pre, pid).len()
            && #[trigger] crate::store::sentences_without_part(pre, pid)[t] == pre[k]@;
    assert(views_of(post).len() == post.len());
    assert(post[t]@ == views_of(post)[t]);
    assert(post[t]@ == pre[k]@);
    assert(has_sentence(post, x));
    crate::store::lemma_sentences_without_part_ids(pre, pid);
    assert forall|a: int, b: int|
        0 <= a < b < post.len() implies (#[trigger] post[a])@.id != (#[trigger] post[b])@.id by {
        assert(post[a]@ == views_of(post)[a]);
        assert(post[b]@ == views_of(post)[b]);
    }
    crate::store::lemma_unique_sentence(post, t, x);
}

/// With no sticky sentence at all, every submission moves.
proof fn lemma_sticky_list_empty(ss: Seq<UiUpdateParamsSentence>)
    requires
        sticky_list(ss).len() == 0,
    ensures
        forall|m: int| 0 <= m < ss.len() ==> (#[trigger] ss[m]).move_sentence is Some,
    decreases ss.len(),
{
    if ss.len() > 0 {
        assert(ss.drop_last()[ss.len() - 1 - 1] == ss[ss.len() - 2] || ss.len() < 2);
        if ss.last().move_sentence is Some {
            lemma_sticky_list_empty(ss.drop_last());
            assert forall|m: int| 0 <= m < ss.len() implies (
            #[trigger] ss[m]).move_sentence is Some by {
                if m < ss.len() - 1 {
                    assert(ss.drop_last()[m] == ss[m]);
                }
            }
        }
    }
}

/// What reflow leaves of one submitted sentence: a persisted row keyed by
/// the submitted id (or a fresh id for a non-positive one), carrying the
/// reflowed text, the submitted words' span and the recomputed speaking
/// rate, on the original part for a sticky submission and off it for a
/// moving one.
pub open spec fn reflowed_sentence(
    pre: Store,
    post: Store,
    sub: UiUpdateParamsSentence,
    sm: int,
    original_part: int,
) -> bool {
    &&& has_sentence(post.sentences@, sm)
    &&& (sub.sentence.id > 0 ==> sm == sub.sentence.id as int)
    &&& (sub.sentence.id <= 0 ==> !has_sentence(pre.sentences@, sm))
    &&& sentence_at(post.sentences@, sm) == (SentenceV {
        id: sm,
        part_id: sentence_at(post.sentences@, sm).part_id,
        text: ui_words_text(sub.words@),
        starts_at: sub.words@[0].starts_at as int,
        ends_at: sub.words@.last().ends_at as int,
        words_per_second: crate::text::wps_milli(
            ui_visible_count(sub.words@),
            sub.words@[0].starts_at as int,
            sub.words@.last().ends_at as int,
        ),
    })
    &&& (sub.move_sentence is Some ==> sentence_at(post.sentences@, sm).part_id != original_part)
    &&& (sub.move_sentence is None ==> sentence_at(post.sentences@, sm).part_id == original_part)
}

/// Some persisted row realizes this submission's reflow.
pub open spec fn submission_reflowed(
    pre: Store,
    post: Store,
    sub: UiUpdateParamsSentence,
    original_part: int,
) -> bool {
    exists|sm: int| reflowed_sentence(pre, post, sub, sm, original_part)
}

/// Whether a part currently owns the part `id` of this episode.
pub open spec fn reflow_target_ok(s: Store, episode_id: int, id: int) -> bool {
    has_part(s.parts@, id) && part_at(s.parts@, id).episode_id == episode_id
}

/// The sentences the part owns when a reflow begins.
pub open spec fn reflow_orig_sentences(s: Store, id: int) -> Seq<SentenceV> {
    sentences_with_part(s.sentences@, id)
}

/// The words the part owns when a reflow begins, sentence by sentence.
pub open spec fn reflow_orig_words(s: Store, id: int) -> Seq<WordV> {
    words_of_sentences(s.words@, sentences_with_part(s.sentences@, id))
}

/// Whether a submission passes every reflow validation rule against the
/// part's current sentences and words.
pub open spec fn reflow_valid(s: Store, id: int, ss: Seq<UiUpdateParamsSentence>) -> bool {
    valid_submission(ss, reflow_orig_sentences(s, id), reflow_orig_words(s, id))
}

/// The text the surviving part reflows to: the sticky sentences' texts in
/// submission order, empties skipped, space-joined.
pub open spec fn reflow_part_text(ss: Seq<UiUpdateParamsSentence>) -> Seq<char> {
    join_space(nonempty(sticky_texts(ss)))
}


/// Some part of the episode starts strictly before the base part.
pub open spec fn previous_part_exists(s: Seq<Part>, base: PartV) -> bool {
    exists|k: int|
        0 <= k < s.len() && (#[trigger] s[k])@.episode_id == base.episode_id
            && s[k]@.starts_at < base.starts_at
}

/// Some part of the episode starts strictly after the base part.
pub open spec fn next_part_exists(s: Seq<Part>, base: PartV) -> bool {
    exists|k: int|
        0 <= k < s.len() && (#[trigger] s[k])@.episode_id == base.episode_id
            && s[k]@.starts_at > base.starts_at
}

/// `r` is a stored part of the episode, strictly earlier than the base,
/// and no such part starts later than it.
pub open spec fn is_previous_neighbor(s: Seq<Part>, base: PartV, r: PartV) -> bool {
    &&& exists|k: int| 0 <= k < s.len() && (#[trigger] s[k])@ == r
    &&& r.episode_id == base.episode_id
    &&& r.starts_at < base.starts_at
    &&& forall|j: int|
        0 <= j < s.len() && (#[trigger] s[j])@.episode_id == base.episode_id
            && s[j]@.starts_at < base.starts_at ==> s[j]@.starts_at <= r.starts_at
}

/// `r` is a stored part of the episode, strictly later than the base, and
/// no such part starts earlier than it.
pub open spec fn is_next_neighbor(s: Seq<Part>, base: PartV, r: PartV) -> bool {
    &&& exists|k: int| 0 <= k < s.len() && (#[trigger] s[k])@ == r
    &&& r.episode_id == base.episode_id
    &&& r.starts_at > base.starts_at
    &&& forall|j: int|
        0 <= j < s.len() && (#[trigger] s[j])@.episode_id == base.episode_id
            && s[j]@.starts_at > base.starts_at ==> s[j]@.starts_at >= r.starts_at
}

/// `r` is a freshly created adjacent part: it copies the base's episode,
/// speaker binding and type, collapses its span at the base's start, holds
/// no text yet, and is the only new row.
pub open spec fn is_fresh_adjacent(pre: Store, post: Store, base: PartV, r: PartV) -> bool {
    &&& r.id == pre.next_id as int
    &&& r.episode_id == base.episode_id
    &&& r.episode_speaker_id == base.episode_speaker_id
    &&& r.text.len() == 0
    &&& r.part_type == base.part_type
    &&& r.starts_at == base.starts_at
    &&& r.ends_at == base.starts_at
    &&& views_of(post.parts@) == views_of(pre.parts@).push(r)
    &&& post.next_id == pre.next_id + 1
}

/// Resolves the part a moving sentence lands in: the previous or next
/// part of the episode by time, or a fresh adjacent part when none exists
/// or a new one is asked for. Every existing part row survives unchanged.
fn resolve_target(store: &mut Store, base: &Part, directive: MoveDirective) -> (r: Result<
    Part,
    Error,
>)
    requires
        old(store).wf(),
    ensures
        final(store).wf(),
        final(store).episodes@ == old(store).episodes@,
        final(store).speakers@ == old(store).speakers@,
        final(store).episode_speakers@ == old(store).episode_speakers@,
        final(store).sentences@ == old(store).sentences@,
        final(store).words@ == old(store).words@,
        final(store).approvals@ == old(store).approvals@,
        forall|x: int|
            has_part(old(store).parts@, x) ==> has_part(final(store).parts@, x) && part_at(
                final(store).parts@,
                x,
            ) == part_at(old(store).parts@, x),
        r is Err ==> r matches Err(Error::Message(_)),
        r is Ok ==> {
            &&& exists|k: int|
                0 <= k < final(store).parts@.len() && (#[trigger] final(store).parts@[k])@
                    == r.unwrap()@
            &&& r.unwrap()@.episode_id == base@.episode_id
            &&& (r.unwrap()@.starts_at != base@.starts_at || r.unwrap()@.id >= old(
                store,
            ).next_id)
        },
        r is Ok ==> (match directive {
            MoveDirective::Up => if previous_part_exists(old(store).parts@, base@) {
                is_previous_neighbor(old(store).parts@, base@, r.unwrap()@) && *final(store)
                    == *old(store)
            } else {
                is_fresh_adjacent(*old(store), *final(store), base@, r.unwrap()@)
            },
            MoveDirective::Down => if next_part_exists(old(store).parts@, base@) {
                is_next_neighbor(old(store).parts@, base@, r.unwrap()@) && *final(store) == *old(
                    store,
                )
            } else {
                is_fresh_adjacent(*old(store), *final(store), base@, r.unwrap()@)
            },
            _ => is_fresh_adjacent(*old(store), *final(store), base@, r.unwrap()@),
        }),
{
    let found: Option<Part> = match directive {
        MoveDirective::Up => find_previous_part(store, base),
        MoveDirective::Down => find_next_part(store, base),
        _ => None,
    };
    match found {
        Some(p) => Ok(p),
        None => {
            let created = match create_adjacent_part(store, base) {
                Ok(p) => p,
                Err(e) => {
                    return Err(e);
                },
            };
            proof {
                assert(views_of(store.parts@).len() == store.parts@.len());
                assert(views_of(store.parts@)[store.parts@.len() - 1] == created@);
                assert(store.parts@[store.parts@.len() - 1]@ == created@);
                assert forall|x: int| has_part(old(store).parts@, x) implies has_part(
                    store.parts@,
                    x,
                ) && part_at(store.parts@, x) == part_at(old(store).parts@, x) by {
                    let k = choose|k: int|
                        0 <= k < old(store).parts@.len() && (#[trigger] old(
                            store,
                        ).parts@[k])@.id == x;
                    assert(1 <= old(store).parts@[k]@.id < old(store).next_id);
                    assert(forall|a: int|
                        0 <= a < old(store).parts@.len() ==> (#[trigger] old(
                            store,
                        ).parts@[a])@.id != created@.id);
                    lemma_part_at_push_other(
                        old(store).parts@,
                        store.parts@,
                        created@,
                        x,
                    );
                }
            }
            Ok(created)
        },
    }
}

/// Applies an editor's reflow of one part. After `NotFound` (missing part
/// or wrong episode) or any validation failure (`BadRequest`, exact rules
/// in [`valid_submission`]) nothing has changed. On success: moving
/// sentences have been pushed to their target parts, sticky sentences
/// rebuilt in place, unreferenced sentences deleted with their words; with
/// no sticky sentence the part itself is gone, its approvals with it, and
/// the index holds no document for it; otherwise the part's row carries
/// exactly the submitted part fields, the sticky span and the joined
/// sticky texts, and the index holds exactly one document for it with that
/// text. The index is committed and reloaded either way.
#[verifier::rlimit(50)]
pub fn ui_update(
    store: &mut Store,
    index: &mut SearchIndex,
    episode_id: i64,
    id: i64,
    params: &UiUpdateParams,
) -> (r: Result<(), Error>)
    requires
        old(store).wf(),
    ensures
        final(store).wf(),
        (r == Err::<(), Error>(Error::NotFound)) <==> !reflow_target_ok(
            *old(store),
            episode_id as int,
            id as int,
        ),
        reflow_target_ok(*old(store), episode_id as int, id as int) ==> ((r matches Err(
            Error::BadRequest(_),
        )) <==> !reflow_valid(*old(store), id as int, params.sentences@)),
        ((r == Err::<(), Error>(Error::NotFound)) || (r matches Err(Error::BadRequest(_)))) ==> {
            &&& *final(store) == *old(store)
            &&& staged_docs(*final(index)) == staged_docs(*old(index))
            &&& committed_docs(*final(index)) == committed_docs(*old(index))
            &&& visible_docs(*final(index)) == visible_docs(*old(index))
        },
        r is Err ==> ((r == Err::<(), Error>(Error::NotFound)) || (r matches Err(
            Error::BadRequest(_),
        )) || (r matches Err(Error::Message(_)))),
        final(store).episodes@ == old(store).episodes@,
        final(store).speakers@ == old(store).speakers@,
        final(store).episode_speakers@ == old(store).episode_speakers@,
        final(store).approvals@ == old(store).approvals@ || views_of(final(store).approvals@)
            == crate::store::approvals_without_part(old(store).approvals@, id as int),
        forall|x: int|
            #[trigger] has_part(old(store).parts@, x) && x != id as int ==> has_part(
                final(store).parts@,
                x,
            ) && part_at(final(store).parts@, x).episode_id == part_at(
                old(store).parts@,
                x,
            ).episode_id,
        r is Ok ==> committed_docs(*final(index)) == staged_docs(*final(index)),
        r is Ok ==> visible_docs(*final(index)) == committed_docs(*final(index)),
        r is Ok ==> forall|k: int|
            0 <= k < reflow_orig_sentences(*old(store), id as int).len() && !ui_has_sentence_id(
                params.sentences@,
                (#[trigger] reflow_orig_sentences(*old(store), id as int)[k]).id,
            ) ==> !has_sentence(
                final(store).sentences@,
                reflow_orig_sentences(*old(store), id as int)[k].id,
            ),
        r is Ok ==> forall|m: int|
            0 <= m < params.sentences@.len() ==> submission_reflowed(
                *old(store),
                *final(store),
                #[trigger] params.sentences@[m],
                id as int,
            ),
        (r is Ok && sticky_list(params.sentences@).len() == 0) ==> {
            &&& !has_part(final(store).parts@, id as int)
            &&& views_of(final(store).approvals@) == crate::store::approvals_without_part(
                old(store).approvals@,
                id as int,
            )
            &&& docs_with_id(staged_docs(*final(index)), id as int) == Seq::<(
                i64,
                Seq<char>,
            )>::empty()
        },
        (r is Ok && sticky_list(params.sentences@).len() > 0) ==> {
            &&& has_part(final(store).parts@, id as int)
            &&& part_at(final(store).parts@, id as int) == (PartV {
                id: id as int,
                episode_id: episode_id as int,
                episode_speaker_id: params.part.episode_speaker_id as int,
                text: reflow_part_text(params.sentences@),
                part_type: params.part.part_type as int,
                starts_at: sticky_list(params.sentences@)[0].words@[0].starts_at as int,
                ends_at: sticky_list(params.sentences@).last().words@.last().ends_at as int,
            })
            &&& final(store).approvals@ == old(store).approvals@
            &&& docs_with_id(staged_docs(*final(index)), id as int) == seq![
                (id, reflow_part_text(params.sentences@)),
            ]
        },
{
    let ghost ss = params.sentences@;

    // Resolve the part and guard the episode.
    let part = match store.get_part(id) {
        Some(p) => p,
        None => {
            return Err(Error::NotFound);
        },
    };
    if part.episode_id != episode_id {
        return Err(Error::NotFound);
    }
    proof {
        assert(reflow_target_ok(*old(store), episode_id as int, id as int));
    }

    // The part's current sentences and words.
    let original_sentences = store.list_sentences(id);
    let original_words = collect_part_words(store, &original_sentences);
    proof {
        assert(views_of(original_words@) == reflow_orig_words(*old(store), id as int));
        assert(views_of(original_sentences@) == reflow_orig_sentences(*old(store), id as int));
        assert(views_of(original_words@).len() == original_words@.len());
        assert(views_of(original_sentences@).len() == original_sentences@.len());
        assert(forall|k: int|
            0 <= k < original_words@.len() ==> (#[trigger] original_words@[k])@ == views_of(
                original_words@,
            )[k]);
        assert(forall|k: int|
            0 <= k < original_sentences@.len() ==> (#[trigger] original_sentences@[k])@
                == views_of(original_sentences@)[k]);
    }

    // Validation, in the original's order of checks.
    let ui_ids = collect_ui_word_ids(&params.sentences);
    if ui_ids.len() != original_words.len() {
        return Err(Error::BadRequest("Amount of words does not match".to_string()));
    }
    if !ids_all_unique(&ui_ids) {
        proof {
            assert(!ui_word_ids_unique(ui_all_words(ss))) by {
                let (a, b) = choose|a: int, b: int|
                    0 <= a < b < ui_ids@.len() && ui_ids@[a] == ui_ids@[b];
                assert(ui_all_words(ss)[a].id == ui_all_words(ss)[b].id);
            }
        }
        return Err(Error::BadRequest("Not all word ids are unique".to_string()));
    }
    proof {
        assert(ui_word_ids_unique(ui_all_words(ss))) by {
            assert forall|a: int, b: int|
                0 <= a < b < ui_all_words(ss).len() implies (#[trigger] ui_all_words(ss)[a]).id
                != (#[trigger] ui_all_words(ss)[b]).id by {
                assert(ui_ids@[a] != ui_ids@[b]);
            }
        }
    }
    let mut k: usize = 0;
    while k < original_words.len()
        invariant
            *store == *old(store),
            old(store).wf(),
            *index == *old(index),
            ss == params.sentences@,
            reflow_target_ok(*old(store), episode_id as int, id as int),
            0 <= k <= original_words@.len(),
            ui_ids@.len() == ui_all_words(ss).len(),
            forall|m: int|
                0 <= m < ui_ids@.len() ==> ui_ids@[m] == (#[trigger] ui_all_words(ss)[m]).id,
            views_of(original_words@) == reflow_orig_words(*old(store), id as int),
            views_of(original_words@).len() == original_words@.len(),
            forall|m: int|
                0 <= m < original_words@.len() ==> (#[trigger] original_words@[m])@ == views_of(
                    original_words@,
                )[m],
            forall|m: int|
                0 <= m < k ==> #[trigger] covered_by(
                    reflow_orig_words(*old(store), id as int),
                    m,
                    ui_all_words(ss),
                ),
        decreases original_words@.len() - k,
    {
        if !contains_id(&ui_ids, original_words[k].id) {
            proof {
                assert(!ui_covers_words(
                    ui_all_words(ss),
                    reflow_orig_words(*old(store), id as int),
                )) by {
                    if covered_by(
                        reflow_orig_words(*old(store), id as int),
                        k as int,
                        ui_all_words(ss),
                    ) {
                        let j = choose|j: int|
                            0 <= j < ui_all_words(ss).len() && (#[trigger] ui_all_words(
                                ss,
                            )[j]).id as int == reflow_orig_words(*old(store), id as int)[k as int].id;
                        assert(ui_ids@[j] == ui_all_words(ss)[j].id);
                        assert(false);
                    }
                }
            }
            return Err(Error::BadRequest("Not all words included".to_string()));
        }
        proof {
            let m = choose|m: int| 0 <= m < ui_ids@.len() && ui_ids@[m] == original_words@[k as int].id;
            assert(ui_all_words(ss)[m].id as int == reflow_orig_words(
                *old(store),
                id as int,
            )[k as int].id);
            assert(covered_by(
                reflow_orig_words(*old(store), id as int),
                k as int,
                ui_all_words(ss),
            ));
        }
        k = k + 1;
    }
    proof {
        assert(ui_covers_words(ui_all_words(ss), reflow_orig_words(*old(store), id as int)));
    }

    let mut sent_ids: Vec<i64> = Vec::new();
    let mut a: usize = 0;
    while a < params.sentences.len()
        invariant
            0 <= a <= ss.len(),
            ss == params.sentences@,
            sent_ids@.len() == a,
            forall|m: int| 0 <= m < a ==> sent_ids@[m] == (#[trigger] ss[m]).sentence.id,
        decreases ss.len() - a,
    {
        sent_ids.push(params.sentences[a].sentence.id);
        a = a + 1;
    }
    if !ids_all_unique(&sent_ids) {
        proof {
            assert(!ui_sentence_ids_unique(ss)) by {
                let (x, y) = choose|x: int, y: int|
                    0 <= x < y < sent_ids@.len() && sent_ids@[x] == sent_ids@[y];
                assert(ss[x].sentence.id == ss[y].sentence.id);
            }
        }
        return Err(Error::BadRequest("Not all sentence ids are unique".to_string()));
    }
    proof {
        assert(ui_sentence_ids_unique(ss)) by {
            assert forall|x: int, y: int|
                0 <= x < y < ss.len() implies (#[trigger] ss[x]).sentence.id != (
            #[trigger] ss[y]).sentence.id by {
                assert(sent_ids@[x] != sent_ids@[y]);
            }
        }
    }

    let mut b: usize = 0;
    while b < params.sentences.len()
        invariant
            *store == *old(store),
            old(store).wf(),
            *index == *old(index),
            reflow_target_ok(*old(store), episode_id as int, id as int),
            0 <= b <= ss.len(),
            ss == params.sentences@,
            views_of(original_sentences@) == reflow_orig_sentences(*old(store), id as int),
            views_of(original_sentences@).len() == original_sentences@.len(),
            forall|m: int|
                0 <= m < original_sentences@.len() ==> (#[trigger] original_sentences@[m])@
                    == views_of(original_sentences@)[m],
            forall|m: int|
                0 <= m < b ==> (#[trigger] ss[m]).sentence.id > 0 ==> exists|j: int|
                    0 <= j < reflow_orig_sentences(*old(store), id as int).len() && (
                    #[trigger] reflow_orig_sentences(*old(store), id as int)[j]).id == ss[m].sentence.id as int,
        decreases ss.len() - b,
    {
        if params.sentences[b].sentence.id > 0 {
            let mut found: bool = false;
            let mut j: usize = 0;
            while j < original_sentences.len()
                invariant
                    *store == *old(store),
            old(store).wf(),
                    *index == *old(index),
                    reflow_target_ok(*old(store), episode_id as int, id as int),
                    0 <= j <= original_sentences@.len(),
                    0 <= b < ss.len(),
                    ss == params.sentences@,
                    found ==> exists|m: int|
                        0 <= m < original_sentences@.len() && (
                        #[trigger] original_sentences@[m])@.id == ss[b as int].sentence.id as int,
                    !found ==> forall|m: int|
                        0 <= m < j ==> (#[trigger] original_sentences@[m])@.id != ss[b as int].sentence.id as int,
                decreases original_sentences@.len() - j,
            {
                if original_sentences[j].id == params.sentences[b].sentence.id {
                    found = true;
                }
                j = j + 1;
            }
            if !found {
                proof {
                    assert(!ui_sentences_owned(ss, reflow_orig_sentences(*old(store), id as int)));
                }
                return Err(Error::BadRequest("Not all sentences were loaded".to_string()));
            }
        }
        b = b + 1;
    }
    proof {
        assert(ui_sentences_owned(ss, reflow_orig_sentences(*old(store), id as int)));
    }

    let mut c: usize = 0;
    while c < params.sentences.len()
        invariant
            *store == *old(store),
            old(store).wf(),
            *index == *old(index),
            reflow_target_ok(*old(store), episode_id as int, id as int),
            ui_all_words(ss).len() == reflow_orig_words(*old(store), id as int).len(),
            ui_word_ids_unique(ui_all_words(ss)),
            ui_covers_words(ui_all_words(ss), reflow_orig_words(*old(store), id as int)),
            ui_sentence_ids_unique(ss),
            ui_sentences_owned(ss, reflow_orig_sentences(*old(store), id as int)),
            0 <= c <= ss.len(),
            ss == params.sentences@,
            forall|m: int| 0 <= m < c ==> (#[trigger] ss[m]).words@.len() > 0,
        decreases ss.len() - c,
    {
        if params.sentences[c].words.len() == 0 {
            return Err(Error::BadRequest("Not all sentences contain words".to_string()));
        }
        c = c + 1;
    }
    proof {
        assert(ui_sentences_nonempty(ss));
        assert(reflow_valid(*old(store), id as int, ss));
        // Every positively-identified submitted sentence is a stored row.
        lemma_sentences_with_part_member(old(store).sentences@, id as int);
        assert forall|m: int|
            0 <= m < ss.len() && (#[trigger] ss[m]).sentence.id > 0 implies has_sentence(
            store.sentences@,
            ss[m].sentence.id as int,
        ) by {
            let j = choose|j: int|
                0 <= j < reflow_orig_sentences(*old(store), id as int).len() && (
                #[trigger] reflow_orig_sentences(*old(store), id as int)[j]).id == ss[m].sentence.id as int;
            let x = choose|x: int|
                0 <= x < old(store).sentences@.len() && (#[trigger] old(store).sentences@[x])@
                    == reflow_orig_sentences(*old(store), id as int)[j];
        }
    }

    // Move the moving sentences first, recording where each submission's
    // sentence row lands.
    let ghost mut sids: Seq<int> = Seq::new(ss.len(), |m: int| 0);
    let mut i: usize = 0;
    while i < params.sentences.len()
        invariant
            store.wf(),
            0 <= i <= ss.len(),
            ss == params.sentences@,
            reflow_target_ok(*old(store), episode_id as int, id as int),
            reflow_valid(*old(store), id as int, ss),
            part@ == part_at(old(store).parts@, id as int),
            part@.episode_id == episode_id as int,
            part@.id == id as int,
            store.episodes@ == old(store).episodes@,
            store.speakers@ == old(store).speakers@,
            store.episode_speakers@ == old(store).episode_speakers@,
            store.approvals@ == old(store).approvals@,
            has_part(store.parts@, id as int),
            part_at(store.parts@, id as int) == part@,
            forall|x: int|
                #[trigger] has_part(old(store).parts@, x) && x != id as int ==> has_part(
                    store.parts@,
                    x,
                ) && part_at(store.parts@, x).episode_id == part_at(
                    old(store).parts@,
                    x,
                ).episode_id,
            forall|m: int|
                0 <= m < ss.len() ==> (#[trigger] ss[m]).sentence.id > 0 ==> has_sentence(
                    store.sentences@,
                    ss[m].sentence.id as int,
                ),
            forall|m: int|
                0 <= m < ss.len() ==> (#[trigger] ss[m]).sentence.id > 0 ==> has_sentence(
                    old(store).sentences@,
                    ss[m].sentence.id as int,
                ),
            forall|x: int|
                #[trigger] has_sentence(old(store).sentences@, x) ==> has_sentence(
                    store.sentences@,
                    x,
                ),
            sids.len() == ss.len(),
            forall|m: int|
                0 <= m < i && (#[trigger] ss[m]).move_sentence is Some ==> reflowed_sentence(
                    *old(store),
                    *store,
                    ss[m],
                    sids[m],
                    id as int,
                ),
            docs_with_id(staged_docs(*index), id as int) == docs_with_id(
                staged_docs(*old(index)),
                id as int,
            ),
            committed_docs(*index) == committed_docs(*old(index)),
            visible_docs(*index) == visible_docs(*old(index)),
        decreases ss.len() - i,
    {
        let ghost entry_store = *store;
        let mv = params.sentences[i].move_sentence;
        if let Some(d) = mv {
            proof {
                assert(ss[i as int].words@.len() > 0);
                assert((id as int) < store.next_id) by {
                    let rk = choose|rk: int|
                        0 <= rk < store.parts@.len() && (#[trigger] store.parts@[rk])@.id
                            == id as int;
                    assert(1 <= store.parts@[rk]@.id < store.next_id);
                }
            }
            let ghost next_before = store.next_id;
            let target: Part = match resolve_target(store, &part, d) {
                Ok(p) => p,
                Err(e) => {
                    return Err(e);
                },
            };
            proof {
                assert(has_part(store.parts@, id as int));
                assert(part_at(store.parts@, id as int) == part@);
                assert(target@.id != id as int) by {
                    if target@.id == id as int {
                        assert(target@ == part_at(store.parts@, id as int)) by {
                            let tk = choose|tk: int|
                                0 <= tk < store.parts@.len() && (#[trigger] store.parts@[tk])@
                                    == target@;
                            crate::store::lemma_unique_part(store.parts@, tk, id as int);
                        }
                        assert(target@ == part@);
                        assert((id as int) < next_before);
                    }
                }
            }
            let old_starts = target.starts_at;
            let old_ends = target.ends_at;
            let old_text = target.text.clone();
            let ghost pre_helper = *store;
            let (new_text, moved_sid) = match update_ui_sentence(store, &params.sentences[i], &target) {
                Ok(p) => p,
                Err(e) => {
                    return Err(e);
                },
            };
            proof {
                sids = sids.update(i as int, moved_sid as int);
                assert(pre_helper.sentences@ == entry_store.sentences@);
                assert(reflowed_sentence(
                    *old(store),
                    *store,
                    ss[i as int],
                    sids[i as int],
                    id as int,
                )) by {
                    if ss[i as int].sentence.id <= 0 {
                        assert(!has_sentence(old(store).sentences@, moved_sid as int)) by {
                            if has_sentence(old(store).sentences@, moved_sid as int) {
                                assert(has_sentence(entry_store.sentences@, moved_sid as int));
                            }
                        }
                    }
                }
                assert forall|m: int|
                    0 <= m < i + 1 && (#[trigger] ss[m]).move_sentence is Some implies
                    reflowed_sentence(*old(store), *store, ss[m], sids[m], id as int) by {
                    if m < i {
                        let sm = sids[m];
                        assert(reflowed_sentence(
                            *old(store),
                            entry_store,
                            ss[m],
                            sm,
                            id as int,
                        ));
                        assert(has_sentence(pre_helper.sentences@, sm));
                        assert(sm != moved_sid as int) by {
                            if ss[i as int].sentence.id > 0 {
                                if ss[m].sentence.id > 0 {
                                    assert(ss[m].sentence.id != ss[i as int].sentence.id);
                                } else {
                                    assert(!has_sentence(old(store).sentences@, sm));
                                    assert(has_sentence(
                                        old(store).sentences@,
                                        ss[i as int].sentence.id as int,
                                    ));
                                }
                            } else {
                                assert(!has_sentence(pre_helper.sentences@, moved_sid as int));
                            }
                        }
                        assert(sentence_at(store.sentences@, sm) == sentence_at(
                            pre_helper.sentences@,
                            sm,
                        ));
                    }
                }
            }
            let n_words = params.sentences[i].words.len();
            let merged: Part = if old_starts == old_ends {
                Part {
                    id: target.id,
                    episode_id: target.episode_id,
                    episode_speaker_id: target.episode_speaker_id,
                    text: new_text,
                    part_type: target.part_type,
                    starts_at: params.sentences[i].words[0].starts_at,
                    ends_at: params.sentences[i].words[n_words - 1].ends_at,
                }
            } else {
                let is_up = match mv {
                    Some(MoveDirective::Up) => true,
                    _ => false,
                };
                if is_up {
                    let pieces: Vec<String> = vec![old_text, new_text];
                    Part {
                        id: target.id,
                        episode_id: target.episode_id,
                        episode_speaker_id: target.episode_speaker_id,
                        text: crate::text::join_nonempty(&pieces),
                        part_type: target.part_type,
                        starts_at: old_starts,
                        ends_at: params.sentences[i].words[n_words - 1].ends_at,
                    }
                } else {
                    let pieces: Vec<String> = vec![new_text, old_text];
                    Part {
                        id: target.id,
                        episode_id: target.episode_id,
                        episode_speaker_id: target.episode_speaker_id,
                        text: crate::text::join_nonempty(&pieces),
                        part_type: target.part_type,
                        starts_at: params.sentences[i].words[0].starts_at,
                        ends_at: old_ends,
                    }
                }
            };
            proof {
                assert(has_part(store.parts@, target@.id)) by {
                    let tk = choose|tk: int|
                        0 <= tk < store.parts@.len() && (#[trigger] store.parts@[tk])@
                            == target@;
                }
            }
            let ghost before_save = *store;
            match store.save_part(&merged) {
                Ok(()) => {},
                Err(e) => {
                    proof {
                        assert(has_part(before_save.parts@, merged@.id));
                        assert(false);
                    }
                    return Err(e);
                },
            }
            proof {
                let si = choose|si: int|
                    0 <= si < before_save.parts@.len() && before_save.parts@[si]@.id
                        == merged@.id && views_of(store.parts@) == views_of(
                        before_save.parts@,
                    ).update(si, merged@);
                lemma_part_at_update_other(
                    before_save.parts@,
                    store.parts@,
                    si,
                    merged@,
                    id as int,
                );
                // The rewritten target keeps its id and episode; every other
                // row is untouched.
                assert(part_at(before_save.parts@, target@.id) == target@) by {
                    let tk = choose|tk: int|
                        0 <= tk < before_save.parts@.len() && (
                        #[trigger] before_save.parts@[tk])@ == target@;
                    crate::store::lemma_unique_part(before_save.parts@, tk, target@.id);
                }
                assert(views_of(store.parts@).len() == store.parts@.len());
                assert(store.parts@[si]@ == views_of(store.parts@)[si]);
                crate::store::lemma_unique_part(store.parts@, si, merged@.id);
                assert(part_at(store.parts@, merged@.id) == merged@);
                assert forall|x: int|
                    #[trigger] has_part(old(store).parts@, x) && x != id as int implies has_part(
                    store.parts@,
                    x,
                ) && part_at(store.parts@, x).episode_id == part_at(
                    old(store).parts@,
                    x,
                ).episode_id by {
                    if x == merged@.id {
                        assert(has_part(before_save.parts@, x));
                        lemma_has_part_after_update(
                            before_save.parts@,
                            store.parts@,
                            si,
                            merged@,
                        );
                        assert(merged@.episode_id == target@.episode_id);
                    } else {
                        assert(has_part(before_save.parts@, x));
                        lemma_part_at_update_other(
                            before_save.parts@,
                            store.parts@,
                            si,
                            merged@,
                            x,
                        );
                    }
                }
            }
            let ghost staged_before_delete = staged_docs(*index);
            index.delete_doc(target.id);
            proof {
                crate::index::lemma_docs_with_id_delete_other(
                    staged_before_delete,
                    target@.id,
                    id as int,
                );
            }
            let ghost staged_before_add = staged_docs(*index);
            match index.add_doc(target.id, &merged.text) {
                Ok(()) => {},
                Err(e) => {
                    return Err(e);
                },
            }
            proof {
                crate::index::lemma_docs_with_id_push(
                    staged_before_add,
                    (target.id, merged.text@),
                    id as int,
                );
            }
        }
        i = i + 1;
    }

    // Rebuild the sticky sentences on the original part.
    let mut texts: Vec<String> = Vec::new();
    let mut first_start: i64 = 0;
    let mut last_end: i64 = 0;
    let mut any_sticky: bool = false;
    let mut i2: usize = 0;
    while i2 < params.sentences.len()
        invariant
            store.wf(),
            0 <= i2 <= ss.len(),
            ss == params.sentences@,
            reflow_target_ok(*old(store), episode_id as int, id as int),
            reflow_valid(*old(store), id as int, ss),
            part@ == part_at(old(store).parts@, id as int),
            part@.episode_id == episode_id as int,
            part@.id == id as int,
            store.episodes@ == old(store).episodes@,
            store.speakers@ == old(store).speakers@,
            store.episode_speakers@ == old(store).episode_speakers@,
            store.approvals@ == old(store).approvals@,
            has_part(store.parts@, id as int),
            forall|x: int|
                #[trigger] has_part(old(store).parts@, x) && x != id as int ==> has_part(
                    store.parts@,
                    x,
                ) && part_at(store.parts@, x).episode_id == part_at(
                    old(store).parts@,
                    x,
                ).episode_id,
            forall|m: int|
                0 <= m < ss.len() ==> (#[trigger] ss[m]).sentence.id > 0 ==> has_sentence(
                    store.sentences@,
                    ss[m].sentence.id as int,
                ),
            forall|m: int|
                0 <= m < ss.len() ==> (#[trigger] ss[m]).sentence.id > 0 ==> has_sentence(
                    old(store).sentences@,
                    ss[m].sentence.id as int,
                ),
            forall|x: int|
                #[trigger] has_sentence(old(store).sentences@, x) ==> has_sentence(
                    store.sentences@,
                    x,
                ),
            sids.len() == ss.len(),
            forall|m: int|
                0 <= m < ss.len() && (#[trigger] ss[m]).move_sentence is Some ==> reflowed_sentence(
                    *old(store),
                    *store,
                    ss[m],
                    sids[m],
                    id as int,
                ),
            forall|m: int|
                0 <= m < i2 && (#[trigger] ss[m]).move_sentence is None ==> reflowed_sentence(
                    *old(store),
                    *store,
                    ss[m],
                    sids[m],
                    id as int,
                ),
            docs_with_id(staged_docs(*index), id as int) == docs_with_id(
                staged_docs(*old(index)),
                id as int,
            ),
            committed_docs(*index) == committed_docs(*old(index)),
            visible_docs(*index) == visible_docs(*old(index)),
            views_of(texts@) == sticky_texts(ss.take(i2 as int)),
            any_sticky <==> sticky_list(ss.take(i2 as int)).len() > 0,
            any_sticky ==> first_start as int == sticky_list(
                ss.take(i2 as int),
            )[0].words@[0].starts_at as int,
            any_sticky ==> last_end as int == sticky_list(
                ss.take(i2 as int),
            ).last().words@.last().ends_at as int,
        decreases ss.len() - i2,
    {
        proof {
            assert(ss.take(i2 + 1).drop_last() =~= ss.take(i2 as int));
            assert(ss.take(i2 + 1).last() == ss[i2 as int]);
        }
        let ghost entry_store = *store;
        if params.sentences[i2].move_sentence.is_none() {
            proof {
                assert(ss[i2 as int].words@.len() > 0);
            }
            let (new_text, sticky_sid) = match update_ui_sentence(store, &params.sentences[i2], &part) {
                Ok(p) => p,
                Err(e) => {
                    return Err(e);
                },
            };
            proof {
                sids = sids.update(i2 as int, sticky_sid as int);
                assert(reflowed_sentence(
                    *old(store),
                    *store,
                    ss[i2 as int],
                    sids[i2 as int],
                    id as int,
                )) by {
                    if ss[i2 as int].sentence.id <= 0 {
                        assert(!has_sentence(old(store).sentences@, sticky_sid as int)) by {
                            if has_sentence(old(store).sentences@, sticky_sid as int) {
                                assert(has_sentence(entry_store.sentences@, sticky_sid as int));
                            }
                        }
                    }
                }
                assert forall|m: int|
                    0 <= m < ss.len() && m != i2 as int && sids[m] != sticky_sid as int implies
                    sentence_at(store.sentences@, sids[m]) == sentence_at(
                    entry_store.sentences@,
                    sids[m],
                ) || !has_sentence(entry_store.sentences@, sids[m]) by {
                    if has_sentence(entry_store.sentences@, sids[m]) {
                    }
                }
                assert forall|m: int|
                    0 <= m < ss.len() && ((#[trigger] ss[m]).move_sentence is Some || (0 <= m
                        < i2 + 1 && ss[m].move_sentence is None)) && m != i2 as int implies
                    reflowed_sentence(*old(store), *store, ss[m], sids[m], id as int) by {
                    let sm = sids[m];
                    assert(reflowed_sentence(*old(store), entry_store, ss[m], sm, id as int));
                    assert(has_sentence(entry_store.sentences@, sm));
                    assert(sm != sticky_sid as int) by {
                        if ss[i2 as int].sentence.id > 0 {
                            if ss[m].sentence.id > 0 {
                                assert(ss[m].sentence.id != ss[i2 as int].sentence.id);
                            } else {
                                assert(!has_sentence(old(store).sentences@, sm));
                                assert(has_sentence(
                                    old(store).sentences@,
                                    ss[i2 as int].sentence.id as int,
                                ));
                            }
                        } else {
                            assert(!has_sentence(entry_store.sentences@, sticky_sid as int));
                        }
                    }
                    assert(sentence_at(store.sentences@, sm) == sentence_at(
                        entry_store.sentences@,
                        sm,
                    ));
                }
            }
            let n_words = params.sentences[i2].words.len();
            if !any_sticky {
                first_start = params.sentences[i2].words[0].starts_at;
                any_sticky = true;
            }
            last_end = params.sentences[i2].words[n_words - 1].ends_at;
            texts.push(new_text);
            proof {
                assert(views_of(texts@) =~~= sticky_texts(ss.take(i2 + 1)));
                let st = sticky_list(ss.take(i2 + 1));
                assert(st == sticky_list(ss.take(i2 as int)).push(ss[i2 as int]));
                if sticky_list(ss.take(i2 as int)).len() > 0 {
                    assert(st[0] == sticky_list(ss.take(i2 as int))[0]);
                }
                assert(st.last() == ss[i2 as int]);
            }
        } else {
            proof {
                assert(sticky_texts(ss.take(i2 + 1)) == sticky_texts(ss.take(i2 as int)));
                assert(sticky_list(ss.take(i2 + 1)) == sticky_list(ss.take(i2 as int)));
            }
        }
        i2 = i2 + 1;
    }
    proof {
        assert(ss.take(ss.len() as int) =~= ss);
    }
    let complete_text = crate::text::join_nonempty(&texts);
    proof {
        assert forall|m: int| 0 <= m < ss.len() implies reflowed_sentence(
            *old(store),
            *store,
            ss[m],
            sids[m],
            id as int,
        ) by {
            if ss[m].move_sentence is Some {
            }
        }
    }

    // Remove the sentences the submission no longer references.
    let mut d: usize = 0;
    while d < original_sentences.len()
        invariant
            store.wf(),
            0 <= d <= original_sentences@.len(),
            ss == params.sentences@,
            reflow_target_ok(*old(store), episode_id as int, id as int),
            reflow_valid(*old(store), id as int, ss),
            part@ == part_at(old(store).parts@, id as int),
            part@.episode_id == episode_id as int,
            part@.id == id as int,
            sent_ids@.len() == ss.len(),
            forall|m: int| 0 <= m < ss.len() ==> sent_ids@[m] == (#[trigger] ss[m]).sentence.id,
            views_of(original_sentences@) == reflow_orig_sentences(*old(store), id as int),
            views_of(original_sentences@).len() == original_sentences@.len(),
            forall|k: int|
                0 <= k < original_sentences@.len() ==> (#[trigger] original_sentences@[k])@
                    == views_of(original_sentences@)[k],
            forall|k: int|
                0 <= k < d && !ui_has_sentence_id(
                    ss,
                    (#[trigger] original_sentences@[k])@.id,
                ) ==> !has_sentence(store.sentences@, original_sentences@[k]@.id),
            sids.len() == ss.len(),
            forall|m: int|
                0 <= m < ss.len() ==> reflowed_sentence(
                    *old(store),
                    *store,
                    #[trigger] ss[m],
                    sids[m],
                    id as int,
                ),
            store.episodes@ == old(store).episodes@,
            store.speakers@ == old(store).speakers@,
            store.episode_speakers@ == old(store).episode_speakers@,
            store.approvals@ == old(store).approvals@,
            has_part(store.parts@, id as int),
            forall|x: int|
                #[trigger] has_part(old(store).parts@, x) && x != id as int ==> has_part(
                    store.parts@,
                    x,
                ) && part_at(store.parts@, x).episode_id == part_at(
                    old(store).parts@,
                    x,
                ).episode_id,
            docs_with_id(staged_docs(*index), id as int) == docs_with_id(
                staged_docs(*old(index)),
                id as int,
            ),
            committed_docs(*index) == committed_docs(*old(index)),
            visible_docs(*index) == visible_docs(*old(index)),
        decreases original_sentences@.len() - d,
    {
        let referenced = contains_id(&sent_ids, original_sentences[d].id);
        proof {
            assert(referenced <==> ui_has_sentence_id(ss, original_sentences@[d as int]@.id)) by {
                if referenced {
                    let m = choose|m: int|
                        0 <= m < sent_ids@.len() && sent_ids@[m]
                            == original_sentences@[d as int].id;
                    assert(ss[m].sentence.id as int == original_sentences@[d as int]@.id);
                } else {
                    if ui_has_sentence_id(ss, original_sentences@[d as int]@.id) {
                        let a = choose|a: int|
                            0 <= a < ss.len() && (#[trigger] ss[a]).sentence.id as int
                                == original_sentences@[d as int]@.id;
                        assert(sent_ids@[a] == original_sentences@[d as int].id);
                    }
                }
            }
        }
        if !referenced {
            let ghost parts_before = store.parts@;
            let ghost sentences_before = store.sentences@;
            let removed = store.remove_sentence(original_sentences[d].id);
            proof {
                assert(store.parts@ == parts_before);
                let did = original_sentences@[d as int]@.id;
                assert(!has_sentence(store.sentences@, did)) by {
                    if removed is Ok {
                        lemma_sentences_without_no_id(sentences_before, did);
                        assert(views_of(store.sentences@).len() == store.sentences@.len());
                        if has_sentence(store.sentences@, did) {
                            let k = choose|k: int|
                                0 <= k < store.sentences@.len() && (
                                #[trigger] store.sentences@[k])@.id == did;
                            assert(store.sentences@[k]@ == views_of(store.sentences@)[k]);
                            assert(crate::store::sentences_without(sentences_before, did)[k].id
                                != did);
                        }
                    }
                }
                // Every submission's persisted row survives: an
                // unreferenced original id names none of them.
                assert forall|m: int| 0 <= m < ss.len() implies reflowed_sentence(
                    *old(store),
                    *store,
                    #[trigger] ss[m],
                    sids[m],
                    id as int,
                ) by {
                    let sm = sids[m];
                    let did2 = original_sentences@[d as int]@.id;
                    assert(sm != did2) by {
                        if ss[m].sentence.id > 0 {
                            assert(sent_ids@[m] == ss[m].sentence.id);
                        } else {
                            assert(!has_sentence(old(store).sentences@, sm));
                            lemma_sentences_with_part_member(old(store).sentences@, id as int);
                            let j = choose|j: int|
                                0 <= j < old(store).sentences@.len() && (#[trigger] old(
                                    store,
                                ).sentences@[j])@ == reflow_orig_sentences(
                                    *old(store),
                                    id as int,
                                )[d as int];
                            assert(old(store).sentences@[j]@.id == did2);
                        }
                    }
                    if removed is Ok {
                        lemma_sentences_without_member(
                            sentences_before,
                            store.sentences@,
                            did2,
                            sm,
                        );
                    }
                }
                // Earlier deletions stay deleted: removals only shrink the table.
                assert forall|k: int|
                    0 <= k < d + 1 && !ui_has_sentence_id(
                        ss,
                        (#[trigger] original_sentences@[k])@.id,
                    ) implies !has_sentence(store.sentences@, original_sentences@[k]@.id) by {
                    if k < d {
                        let xid = original_sentences@[k]@.id;
                        assert(!has_sentence(sentences_before, xid));
                        if removed is Ok {
                            crate::store::lemma_sentences_without_ids(sentences_before, did);
                            assert(views_of(store.sentences@).len() == store.sentences@.len());
                            if has_sentence(store.sentences@, xid) {
                                let k2 = choose|k2: int|
                                    0 <= k2 < store.sentences@.len() && (
                                    #[trigger] store.sentences@[k2])@.id == xid;
                                assert(store.sentences@[k2]@ == views_of(store.sentences@)[k2]);
                                let k3 = choose|k3: int|
                                    0 <= k3 < sentences_before.len()
                                        && #[trigger] crate::store::sentences_without(
                                        sentences_before,
                                        did,
                                    )[k2].id == sentences_before[k3]@.id;
                                assert(sentences_before[k3]@.id == xid);
                            }
                        }
                    }
                }
            }
        }
        d = d + 1;
    }
    proof {
        assert forall|k: int|
            0 <= k < reflow_orig_sentences(*old(store), id as int).len() && !ui_has_sentence_id(
                ss,
                (#[trigger] reflow_orig_sentences(*old(store), id as int)[k]).id,
            ) implies !has_sentence(
            store.sentences@,
            reflow_orig_sentences(*old(store), id as int)[k].id,
        ) by {
            assert(reflow_orig_sentences(*old(store), id as int)[k] == original_sentences@[k]@);
        }
    }

    // The original part's old index entry goes in every case.
    let ghost staged_before_clear = staged_docs(*index);
    index.delete_doc(id);
    proof {
        crate::index::lemma_docs_with_id_after_delete(staged_before_clear, id as int);
        assert(docs_with_id(staged_docs(*index), id as int) == Seq::<(i64, Seq<char>)>::empty());
    }

    if !any_sticky {
        let ghost before_remove = *store;
        match store.remove_part(id) {
            Ok(()) => {},
            Err(e) => {
                proof {
                    assert(has_part(before_remove.parts@, id as int));
                    assert(false);
                }
                return Err(e);
            },
        }
        proof {
            lemma_parts_without_no_id(before_remove.parts@, id as int);
            assert(views_of(store.parts@).len() == store.parts@.len());
            assert forall|x: int|
                #[trigger] has_part(old(store).parts@, x) && x != id as int implies has_part(
                store.parts@,
                x,
            ) && part_at(store.parts@, x).episode_id == part_at(
                old(store).parts@,
                x,
            ).episode_id by {
                assert(has_part(before_remove.parts@, x));
                lemma_parts_without_member(before_remove.parts@, store.parts@, id as int, x);
            }
            assert(!has_part(store.parts@, id as int)) by {
                if has_part(store.parts@, id as int) {
                    let x = choose|x: int|
                        0 <= x < store.parts@.len() && (#[trigger] store.parts@[x])@.id
                            == id as int;
                    assert(views_of(store.parts@)[x] == store.parts@[x]@);
                    assert(crate::store::parts_without(before_remove.parts@, id as int)[x].id
                        != id as int);
                }
            }
            // With no sticky sentence every submission moved, so each
            // persisted row sits on another part and survives the cascade.
            lemma_sticky_list_empty(ss);
            assert forall|m: int| 0 <= m < ss.len() implies reflowed_sentence(
                *old(store),
                *store,
                #[trigger] ss[m],
                sids[m],
                id as int,
            ) by {
                assert(ss[m].move_sentence is Some);
                let sm = sids[m];
                assert(sentence_at(before_remove.sentences@, sm).part_id != id as int);
                lemma_sentences_without_part_member(
                    before_remove.sentences@,
                    store.sentences@,
                    id as int,
                    sm,
                );
            }
            // The cascade only shrinks the sentence table, so every
            // unreferenced original sentence stays deleted.
            assert forall|k: int|
                0 <= k < reflow_orig_sentences(*old(store), id as int).len()
                    && !ui_has_sentence_id(
                    ss,
                    (#[trigger] reflow_orig_sentences(*old(store), id as int)[k]).id,
                ) implies !has_sentence(
                store.sentences@,
                reflow_orig_sentences(*old(store), id as int)[k].id,
            ) by {
                let xid = reflow_orig_sentences(*old(store), id as int)[k].id;
                assert(!has_sentence(before_remove.sentences@, xid));
                crate::store::lemma_sentences_without_part_ids(
                    before_remove.sentences@,
                    id as int,
                );
                assert(views_of(store.sentences@).len() == store.sentences@.len());
                if has_sentence(store.sentences@, xid) {
                    let k2 = choose|k2: int|
                        0 <= k2 < store.sentences@.len() && (
                        #[trigger] store.sentences@[k2])@.id == xid;
                    assert(store.sentences@[k2]@ == views_of(store.sentences@)[k2]);
                    let k3 = choose|k3: int|
                        0 <= k3 < before_remove.sentences@.len()
                            && #[trigger] crate::store::sentences_without_part(
                            before_remove.sentences@,
                            id as int,
                        )[k2].id == before_remove.sentences@[k3]@.id;
                    assert(before_remove.sentences@[k3]@.id == xid);
                }
            }
        }
    } else {
        let new_part = Part {
            id: id,
            episode_id: episode_id,
            episode_speaker_id: params.part.episode_speaker_id,
            text: complete_text,
            part_type: params.part.part_type,
            starts_at: first_start,
            ends_at: last_end,
        };
        let ghost before_save = *store;
        match store.save_part(&new_part) {
            Ok(()) => {},
            Err(e) => {
                proof {
                    assert(has_part(before_save.parts@, new_part@.id));
                    assert(false);
                }
                return Err(e);
            },
        }
        proof {
            let si = choose|si: int|
                0 <= si < before_save.parts@.len() && before_save.parts@[si]@.id == new_part@.id
                    && views_of(store.parts@) == views_of(before_save.parts@).update(
                    si,
                    new_part@,
                );
            assert(views_of(store.parts@).len() == store.parts@.len());
            assert(store.parts@[si]@ == views_of(store.parts@)[si]);
            assert(store.parts@[si]@ == new_part@);
            crate::store::lemma_unique_part(store.parts@, si, id as int);
            assert(part_at(store.parts@, id as int) == new_part@);
            assert forall|x: int|
                #[trigger] has_part(old(store).parts@, x) && x != id as int implies has_part(
                store.parts@,
                x,
            ) && part_at(store.parts@, x).episode_id == part_at(
                old(store).parts@,
                x,
            ).episode_id by {
                assert(has_part(before_save.parts@, x));
                lemma_part_at_update_other(
                    before_save.parts@,
                    store.parts@,
                    si,
                    new_part@,
                    x,
                );
            }
        }
        let ghost staged_before_add = staged_docs(*index);
        match index.add_doc(id, &new_part.text) {
            Ok(()) => {},
            Err(e) => {
                return Err(e);
            },
        }
        proof {
            crate::index::lemma_docs_with_id_push(
                staged_before_add,
                (id, new_part.text@),
                id as int,
            );
            assert(new_part.text@ == reflow_part_text(ss));
            assert(docs_with_id(staged_docs(*index), id as int) =~= seq![
                (id, reflow_part_text(ss)),
            ]);
        }
    }

    match index.commit() {
        Ok(()) => {},
        Err(e) => {
            return Err(e);
        },
    }
    match index.reload() {
        Ok(()) => {},
        Err(e) => {
            return Err(e);
        },
    }
    proof {
        assert forall|m: int| 0 <= m < params.sentences@.len() implies submission_reflowed(
            *old(store),
            *store,
            #[trigger] params.sentences@[m],
            id as int,
        ) by {
            assert(params.sentences@[m] == ss[m]);
            assert(reflowed_sentence(
                *old(store),
                *store,
                params.sentences@[m],
                sids[m],
                id as int,
            ));
        }
    }
    Ok(())
}

} // verus!
