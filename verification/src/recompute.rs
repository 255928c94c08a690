//! The pull-style recomputation that keeps the denormalized `text` columns
//! consistent after a word edit: rebuild the owning sentence's text from
//! its words, then the owning part's text from its sentences, always in
//! full from the current children.

use vstd::prelude::*;

use crate::Error;
use crate::model::{Part, PartV, Sentence, SentenceV, Word, WordParams, WordV, views_of};
use crate::store::{
    Store, has_part, has_sentence, has_word, sentence_at, sentences_with_part, word_at,
    word_of_params, words_with_sentence,
};
use crate::text::{part_text, part_text_of, sentence_text, sentence_text_of};

verus! {

/// Every sentence's text is the derived text of its words, and every
/// part's text is the derived text of its sentences.
pub open spec fn texts_consistent(s: Store) -> bool {
    &&& forall|i: int|
        0 <= i < s.sentences@.len() ==> (#[trigger] s.sentences@[i])@.text == sentence_text_of(
            words_with_sentence(s.words@, s.sentences@[i]@.id),
        )
    &&& forall|j: int|
        0 <= j < s.parts@.len() ==> (#[trigger] s.parts@[j])@.text == part_text_of(
            sentences_with_part(s.sentences@, s.parts@[j]@.id),
        )
}

/// Replacing a word that is outside a sentence by another word outside it
/// leaves that sentence's word sequence unchanged.
pub proof fn lemma_words_with_sentence_update_other(s: Seq<Word>, i: int, row: Word, sid: int)
    requires
        0 <= i < s.len(),
        s[i]@.sentence_id != sid,
        row@.sentence_id != sid,
    ensures
        words_with_sentence(s.update(i, row), sid) == words_with_sentence(s, sid),
    decreases s.len(),
{
    let t = s.update(i, row);
    if i == s.len() - 1 {
        assert(t.drop_last() =~= s.drop_last());
        assert(t.last() == row);
    } else {
        assert(t.drop_last() =~= s.drop_last().update(i, row));
        assert(t.last() == s.last());
        lemma_words_with_sentence_update_other(s.drop_last(), i, row, sid);
    }
}

/// Replacing a word inside a sentence by another word inside it rewrites
/// exactly that position of the sentence's word sequence.
pub proof fn lemma_words_with_sentence_update_same(s: Seq<Word>, i: int, row: Word, sid: int)
    requires
        0 <= i < s.len(),
        s[i]@.sentence_id == sid,
        row@.sentence_id == sid,
    ensures
        words_with_sentence(s.update(i, row), sid) == words_with_sentence(s, sid).update(
            words_with_sentence(s.take(i), sid).len() as int,
            row@,
        ),
        words_with_sentence(s.take(i), sid).len() < words_with_sentence(s, sid).len(),
    decreases s.len(),
{
    let t = s.update(i, row);
    if i == s.len() - 1 {
        assert(t.drop_last() =~= s.drop_last());
        assert(t.last() == row);
        assert(s.take(i) =~= s.drop_last());
        assert(words_with_sentence(t, sid) =~= words_with_sentence(s, sid).update(
            words_with_sentence(s.take(i), sid).len() as int,
            row@,
        ));
    } else {
        assert(t.drop_last() =~= s.drop_last().update(i, row));
        assert(t.last() == s.last());
        lemma_words_with_sentence_update_same(s.drop_last(), i, row, sid);
        assert(s.take(i) =~= s.drop_last().take(i));
        if s.last()@.sentence_id == sid {
            assert(words_with_sentence(t, sid) =~= words_with_sentence(s, sid).update(
                words_with_sentence(s.take(i), sid).len() as int,
                row@,
            ));
        } else {
            assert(words_with_sentence(t, sid) =~= words_with_sentence(s, sid).update(
                words_with_sentence(s.take(i), sid).len() as int,
                row@,
            ));
        }
    }
}

/// Appending a word of another sentence leaves a sentence's word sequence
/// unchanged.
pub proof fn lemma_words_with_sentence_push_other(s: Seq<Word>, row: Word, sid: int)
    requires
        row@.sentence_id != sid,
    ensures
        words_with_sentence(s.push(row), sid) == words_with_sentence(s, sid),
{
    assert(s.push(row).drop_last() =~= s);
}

/// Appending a word of a sentence appends it to that sentence's word
/// sequence.
pub proof fn lemma_words_with_sentence_push_same(s: Seq<Word>, row: Word, sid: int)
    requires
        row@.sentence_id == sid,
    ensures
        words_with_sentence(s.push(row), sid) == words_with_sentence(s, sid).push(row@),
{
    assert(s.push(row).drop_last() =~= s);
}

/// The words of a sentence depend only on the rows' mathematical values.
pub proof fn lemma_words_with_sentence_congruent(s1: Seq<Word>, s2: Seq<Word>, sid: int)
    requires
        views_of(s1) == views_of(s2),
    ensures
        words_with_sentence(s1, sid) == words_with_sentence(s2, sid),
    decreases s1.len(),
{
    assert(views_of(s1).len() == s1.len());
    assert(views_of(s2).len() == s2.len());
    assert(s1.len() == s2.len());
    if s1.len() > 0 {
        assert(views_of(s1.drop_last()) =~= views_of(s1).drop_last());
        assert(views_of(s2.drop_last()) =~= views_of(s2).drop_last());
        assert(s1.last()@ == views_of(s1).last());
        assert(s2.last()@ == views_of(s2).last());
        lemma_words_with_sentence_congruent(s1.drop_last(), s2.drop_last(), sid);
    }
}

/// The sentences of a part depend only on the rows' mathematical values.
pub proof fn lemma_sentences_with_part_congruent(s1: Seq<Sentence>, s2: Seq<Sentence>, pid: int)
    requires
        views_of(s1) == views_of(s2),
    ensures
        sentences_with_part(s1, pid) == sentences_with_part(s2, pid),
    decreases s1.len(),
{
    assert(views_of(s1).len() == s1.len());
    assert(views_of(s2).len() == s2.len());
    assert(s1.len() == s2.len());
    if s1.len() > 0 {
        assert(views_of(s1.drop_last()) =~= views_of(s1).drop_last());
        assert(views_of(s2.drop_last()) =~= views_of(s2).drop_last());
        assert(s1.last()@ == views_of(s1).last());
        assert(s2.last()@ == views_of(s2).last());
        lemma_sentences_with_part_congruent(s1.drop_last(), s2.drop_last(), pid);
    }
}

/// Replacing a sentence that is outside a part by another sentence outside
/// it leaves that part's sentence sequence unchanged.
pub proof fn lemma_sentences_with_part_update_other(s: Seq<Sentence>, i: int, row: Sentence, pid: int)
    requires
        0 <= i < s.len(),
        s[i]@.part_id != pid,
        row@.part_id != pid,
    ensures
        sentences_with_part(s.update(i, row), pid) == sentences_with_part(s, pid),
    decreases s.len(),
{
    let t = s.update(i, row);
    if i == s.len() - 1 {
        assert(t.drop_last() =~= s.drop_last());
        assert(t.last() == row);
    } else {
        assert(t.drop_last() =~= s.drop_last().update(i, row));
        assert(t.last() == s.last());
        lemma_sentences_with_part_update_other(s.drop_last(), i, row, pid);
    }
}

/// Rebuilds the sentence's text from its current words and then the part's
/// text from its current sentences, in full. `NotFound` exactly when the
/// sentence or the part is missing; nothing changes then.
///
/// When every text column was consistent before, and the sentence indeed
/// belongs to the part, every text column is consistent after.
pub fn update_sentence_and_part(store: &mut Store, part_id: i64, sentence_id: i64) -> (r: Result<
    (),
    Error,
>)
    requires
        old(store).wf(),
    ensures
        final(store).wf(),
        r is Ok <==> has_sentence(old(store).sentences@, sentence_id as int) && has_part(
            old(store).parts@,
            part_id as int,
        ),
        r is Err ==> r == Err::<(), Error>(Error::NotFound) && *final(store) == *old(store),
        r is Ok ==> {
            &&& final(store).words@ == old(store).words@
            &&& final(store).episodes@ == old(store).episodes@
            &&& final(store).speakers@ == old(store).speakers@
            &&& final(store).episode_speakers@ == old(store).episode_speakers@
            &&& final(store).approvals@ == old(store).approvals@
            &&& final(store).next_id == old(store).next_id
            &&& exists|i: int|
                0 <= i < old(store).sentences@.len() && old(store).sentences@[i]@.id
                    == sentence_id as int && views_of(final(store).sentences@) == views_of(
                    old(store).sentences@,
                ).update(
                    i,
                    SentenceV {
                        text: sentence_text_of(
                            words_with_sentence(old(store).words@, sentence_id as int),
                        ),
                        ..old(store).sentences@[i]@
                    },
                )
            &&& exists|j: int|
                0 <= j < old(store).parts@.len() && old(store).parts@[j]@.id == part_id as int
                    && views_of(final(store).parts@) == views_of(old(store).parts@).update(
                    j,
                    PartV {
                        text: part_text_of(
                            sentences_with_part(final(store).sentences@, part_id as int),
                        ),
                        ..old(store).parts@[j]@
                    },
                )
            &&& (texts_consistent(*old(store)) && sentence_at(
                old(store).sentences@,
                sentence_id as int,
            ).part_id == part_id as int) ==> texts_consistent(*final(store))
        },
{
    let sentence = match store.get_sentence(sentence_id) {
        Some(s) => s,
        None => {
            return Err(Error::NotFound);
        },
    };
    let part = match store.get_part(part_id) {
        Some(p) => p,
        None => {
            return Err(Error::NotFound);
        },
    };

    let words = store.list_words(sentence_id);
    let new_text = sentence_text(&words);
    let new_sentence = Sentence {
        id: sentence.id,
        part_id: sentence.part_id,
        text: new_text,
        starts_at: sentence.starts_at,
        ends_at: sentence.ends_at,
        words_per_second: sentence.words_per_second,
    };
    match store.save_sentence(&new_sentence) {
        Ok(()) => {},
        Err(e) => {
            return Err(e);
        },
    }
    proof {
        let i = choose|i: int|
            0 <= i < old(store).sentences@.len() && old(store).sentences@[i]@.id
                == new_sentence@.id && views_of(store.sentences@) == views_of(
                old(store).sentences@,
            ).update(i, new_sentence@);
        crate::store::lemma_unique_sentence(old(store).sentences@, i, sentence_id as int);
        assert(new_sentence@ == SentenceV {
            text: sentence_text_of(words_with_sentence(old(store).words@, sentence_id as int)),
            ..old(store).sentences@[i]@
        });
    }

    let sentences = store.list_sentences(part_id);
    let new_part_text = part_text(&sentences);
    let new_part = Part {
        id: part.id,
        episode_id: part.episode_id,
        episode_speaker_id: part.episode_speaker_id,
        text: new_part_text,
        part_type: part.part_type,
        starts_at: part.starts_at,
        ends_at: part.ends_at,
    };
    match store.save_part(&new_part) {
        Ok(()) => {},
        Err(e) => {
            return Err(e);
        },
    }
    proof {
        let j = choose|j: int|
            0 <= j < old(store).parts@.len() && old(store).parts@[j]@.id == new_part@.id
                && views_of(store.parts@) == views_of(old(store).parts@).update(j, new_part@);
        crate::store::lemma_unique_part(old(store).parts@, j, part_id as int);
        assert(new_part@ == PartV {
            text: part_text_of(sentences_with_part(store.sentences@, part_id as int)),
            ..old(store).parts@[j]@
        });
        lemma_recompute_consistency(*old(store), *store, part_id as int, sentence_id as int);
    }
    Ok(())
}

/// The consistency-preservation argument behind
/// [`update_sentence_and_part`]: rewriting one sentence's text to its
/// derived value and its part's text to the derived value of the new
/// sentence state keeps every other row consistent, because their words
/// and sentences are untouched.
proof fn lemma_recompute_consistency(pre: Store, post: Store, pid: int, sid: int)
    requires
        pre.wf(),
        post.wf(),
        post.words@ == pre.words@,
        exists|i: int|
            0 <= i < pre.sentences@.len() && pre.sentences@[i]@.id == sid && views_of(
                post.sentences@,
            ) == views_of(pre.sentences@).update(
                i,
                SentenceV {
                    text: sentence_text_of(words_with_sentence(pre.words@, sid)),
                    ..pre.sentences@[i]@
                },
            ),
        exists|j: int|
            0 <= j < pre.parts@.len() && pre.parts@[j]@.id == pid && views_of(post.parts@)
                == views_of(pre.parts@).update(
                j,
                PartV {
                    text: part_text_of(sentences_with_part(post.sentences@, pid)),
                    ..pre.parts@[j]@
                },
            ),
    ensures
        (texts_consistent(pre) && sentence_at(pre.sentences@, sid).part_id == pid)
            ==> texts_consistent(post),
{
    if texts_consistent(pre) && sentence_at(pre.sentences@, sid).part_id == pid {
        let i = choose|i: int|
            0 <= i < pre.sentences@.len() && pre.sentences@[i]@.id == sid && views_of(
                post.sentences@,
            ) == views_of(pre.sentences@).update(
                i,
                SentenceV {
                    text: sentence_text_of(words_with_sentence(pre.words@, sid)),
                    ..pre.sentences@[i]@
                },
            );
        let j = choose|j: int|
            0 <= j < pre.parts@.len() && pre.parts@[j]@.id == pid && views_of(post.parts@)
                == views_of(pre.parts@).update(
                j,
                PartV {
                    text: part_text_of(sentences_with_part(post.sentences@, pid)),
                    ..pre.parts@[j]@
                },
            );
        crate::store::lemma_unique_sentence(pre.sentences@, i, sid);
        assert(pre.sentences@[i]@.part_id == pid);
        assert(views_of(post.sentences@).len() == post.sentences@.len());
        assert(views_of(pre.sentences@).len() == pre.sentences@.len());
        assert(views_of(post.parts@).len() == post.parts@.len());
        assert(views_of(pre.parts@).len() == pre.parts@.len());
        assert(post.sentences@.len() == pre.sentences@.len());
        assert(post.parts@.len() == pre.parts@.len());
        assert(forall|k: int|
            0 <= k < post.sentences@.len() ==> (#[trigger] post.sentences@[k])@ == views_of(
                post.sentences@,
            )[k]);
        assert(forall|k: int|
            0 <= k < pre.sentences@.len() ==> (#[trigger] pre.sentences@[k])@ == views_of(
                pre.sentences@,
            )[k]);
        assert(forall|k: int|
            0 <= k < post.parts@.len() ==> (#[trigger] post.parts@[k])@ == views_of(
                post.parts@,
            )[k]);
        assert(forall|k: int|
            0 <= k < pre.parts@.len() ==> (#[trigger] pre.parts@[k])@ == views_of(
                pre.parts@,
            )[k]);

        // Every sentence is consistent afterwards: the rewritten one by
        // construction, the rest because no word moved.
        assert forall|k: int| 0 <= k < post.sentences@.len() implies (
        #[trigger] post.sentences@[k])@.text == sentence_text_of(
            words_with_sentence(post.words@, post.sentences@[k]@.id),
        ) by {
            if k != i {
                assert(post.sentences@[k]@ == pre.sentences@[k]@);
            }
        }

        // Every part is consistent afterwards: the rewritten one by
        // construction, the rest because the rewritten sentence belongs to
        // the rewritten part both before and after.
        assert forall|k: int| 0 <= k < post.parts@.len() implies (
        #[trigger] post.parts@[k])@.text == part_text_of(
            sentences_with_part(post.sentences@, post.parts@[k]@.id),
        ) by {
            if k != j {
                assert(post.parts@[k]@ == pre.parts@[k]@);
                assert(pre.parts@[k]@.id != pid);
                let t = pre.sentences@.update(i, post.sentences@[i]);
                assert(views_of(t) =~= views_of(post.sentences@));
                lemma_sentences_with_part_congruent(post.sentences@, t, pre.parts@[k]@.id);
                assert(post.sentences@[i]@.part_id == pid);
                lemma_sentences_with_part_update_other(
                    pre.sentences@,
                    i,
                    post.sentences@[i],
                    pre.parts@[k]@.id,
                );
            }
        }
    }
}

/// The consistency-preservation argument behind [`update_word`]: editing
/// one word of a sentence and then rewriting that sentence's and its
/// part's texts to their derived values keeps every row consistent.
proof fn lemma_word_edit_consistency(
    pre: Store,
    post: Store,
    pid: int,
    sid: int,
    k: int,
    i: int,
    j: int,
    wv: WordV,
)
    requires
        pre.wf(),
        post.wf(),
        0 <= k < pre.words@.len(),
        pre.words@[k]@.sentence_id == sid,
        wv.sentence_id == sid,
        views_of(post.words@) == views_of(pre.words@).update(k, wv),
        0 <= i < pre.sentences@.len(),
        pre.sentences@[i]@.id == sid,
        views_of(post.sentences@) == views_of(pre.sentences@).update(
            i,
            SentenceV {
                text: sentence_text_of(words_with_sentence(post.words@, sid)),
                ..pre.sentences@[i]@
            },
        ),
        0 <= j < pre.parts@.len(),
        pre.parts@[j]@.id == pid,
        views_of(post.parts@) == views_of(pre.parts@).update(
            j,
            PartV {
                text: part_text_of(sentences_with_part(post.sentences@, pid)),
                ..pre.parts@[j]@
            },
        ),
    ensures
        (texts_consistent(pre) && pre.sentences@[i]@.part_id == pid) ==> texts_consistent(post),
{
    if texts_consistent(pre) && pre.sentences@[i]@.part_id == pid {
        assert(views_of(post.words@).len() == post.words@.len());
        assert(views_of(pre.words@).len() == pre.words@.len());
        assert(views_of(post.sentences@).len() == post.sentences@.len());
        assert(views_of(pre.sentences@).len() == pre.sentences@.len());
        assert(views_of(post.parts@).len() == post.parts@.len());
        assert(views_of(pre.parts@).len() == pre.parts@.len());
        assert(forall|m: int|
            0 <= m < post.words@.len() ==> (#[trigger] post.words@[m])@ == views_of(
                post.words@,
            )[m]);
        assert(forall|m: int|
            0 <= m < pre.words@.len() ==> (#[trigger] pre.words@[m])@ == views_of(pre.words@)[m]);
        assert(forall|m: int|
            0 <= m < post.sentences@.len() ==> (#[trigger] post.sentences@[m])@ == views_of(
                post.sentences@,
            )[m]);
        assert(forall|m: int|
            0 <= m < pre.sentences@.len() ==> (#[trigger] pre.sentences@[m])@ == views_of(
                pre.sentences@,
            )[m]);
        assert(forall|m: int|
            0 <= m < post.parts@.len() ==> (#[trigger] post.parts@[m])@ == views_of(
                post.parts@,
            )[m]);
        assert(forall|m: int|
            0 <= m < pre.parts@.len() ==> (#[trigger] pre.parts@[m])@ == views_of(pre.parts@)[m]);

        // The word table seen through views changed only at position k,
        // inside sentence `sid` both before and after.
        let wt = pre.words@.update(k, post.words@[k]);
        assert(views_of(wt) =~= views_of(post.words@));

        assert forall|m: int| 0 <= m < post.sentences@.len() implies (
        #[trigger] post.sentences@[m])@.text == sentence_text_of(
            words_with_sentence(post.words@, post.sentences@[m]@.id),
        ) by {
            if m != i {
                assert(post.sentences@[m]@ == pre.sentences@[m]@);
                crate::store::lemma_unique_sentence(pre.sentences@, i, sid);
                assert(pre.sentences@[m]@.id != sid);
                lemma_words_with_sentence_congruent(
                    post.words@,
                    wt,
                    pre.sentences@[m]@.id,
                );
                assert(post.words@[k]@.sentence_id == sid);
                lemma_words_with_sentence_update_other(
                    pre.words@,
                    k,
                    post.words@[k],
                    pre.sentences@[m]@.id,
                );
            }
        }

        let st = pre.sentences@.update(i, post.sentences@[i]);
        assert(views_of(st) =~= views_of(post.sentences@));

        assert forall|m: int| 0 <= m < post.parts@.len() implies (
        #[trigger] post.parts@[m])@.text == part_text_of(
            sentences_with_part(post.sentences@, post.parts@[m]@.id),
        ) by {
            if m != j {
                assert(post.parts@[m]@ == pre.parts@[m]@);
                assert(pre.parts@[m]@.id != pid);
                lemma_sentences_with_part_congruent(post.sentences@, st, pre.parts@[m]@.id);
                assert(post.sentences@[i]@.part_id == pid);
                lemma_sentences_with_part_update_other(
                    pre.sentences@,
                    i,
                    post.sentences@[i],
                    pre.parts@[m]@.id,
                );
            }
        }
    }
}

/// Edits a word and rebuilds the owning sentence's and part's texts, as
/// one workflow. `NotFound` exactly when the word is missing, belongs to
/// another sentence, or the sentence or part is missing; nothing changes
/// then. When every text column was consistent before, and the sentence
/// belongs to the part, every text column is consistent after.
pub fn update_word(
    store: &mut Store,
    part_id: i64,
    sentence_id: i64,
    id: i64,
    params: &WordParams,
) -> (r: Result<Word, Error>)
    requires
        old(store).wf(),
    ensures
        final(store).wf(),
        r is Ok <==> has_word(old(store).words@, id as int) && word_at(
            old(store).words@,
            id as int,
        ).sentence_id == sentence_id as int && has_sentence(
            old(store).sentences@,
            sentence_id as int,
        ) && has_part(old(store).parts@, part_id as int),
        r is Err ==> r == Err::<Word, Error>(Error::NotFound) && *final(store) == *old(store),
        r is Ok ==> {
            &&& r.unwrap()@ == word_of_params(*params, id as int, sentence_id as int)
            &&& exists|k: int|
                0 <= k < old(store).words@.len() && old(store).words@[k]@.id == id as int
                    && views_of(final(store).words@) == views_of(old(store).words@).update(
                    k,
                    word_of_params(*params, id as int, sentence_id as int),
                )
            &&& exists|i: int|
                0 <= i < old(store).sentences@.len() && old(store).sentences@[i]@.id
                    == sentence_id as int && views_of(final(store).sentences@) == views_of(
                    old(store).sentences@,
                ).update(
                    i,
                    SentenceV {
                        text: sentence_text_of(
                            words_with_sentence(final(store).words@, sentence_id as int),
                        ),
                        ..old(store).sentences@[i]@
                    },
                )
            &&& exists|j: int|
                0 <= j < old(store).parts@.len() && old(store).parts@[j]@.id == part_id as int
                    && views_of(final(store).parts@) == views_of(old(store).parts@).update(
                    j,
                    PartV {
                        text: part_text_of(
                            sentences_with_part(final(store).sentences@, part_id as int),
                        ),
                        ..old(store).parts@[j]@
                    },
                )
            &&& final(store).episodes@ == old(store).episodes@
            &&& final(store).speakers@ == old(store).speakers@
            &&& final(store).episode_speakers@ == old(store).episode_speakers@
            &&& final(store).approvals@ == old(store).approvals@
            &&& final(store).next_id == old(store).next_id
            &&& (texts_consistent(*old(store)) && sentence_at(
                old(store).sentences@,
                sentence_id as int,
            ).part_id == part_id as int) ==> texts_consistent(*final(store))
        },
{
    let word = match store.get_word(id) {
        Some(w) => w,
        None => {
            return Err(Error::NotFound);
        },
    };
    if word.sentence_id != sentence_id {
        return Err(Error::NotFound);
    }
    if store.get_sentence(sentence_id).is_none() {
        return Err(Error::NotFound);
    }
    if store.get_part(part_id).is_none() {
        return Err(Error::NotFound);
    }

    let out = match store.update_word_row(sentence_id, id, params) {
        Ok(w) => w,
        Err(e) => {
            return Err(e);
        },
    };
    let ghost mid = *store;
    let ghost kw = choose|k: int|
        0 <= k < old(store).words@.len() && old(store).words@[k]@.id == id as int && views_of(
            store.words@,
        ) == views_of(old(store).words@).update(k, out@);

    match update_sentence_and_part(store, part_id, sentence_id) {
        Ok(()) => {},
        Err(e) => {
            return Err(e);
        },
    }

    proof {
        let i = choose|i: int|
            0 <= i < mid.sentences@.len() && mid.sentences@[i]@.id == sentence_id as int
                && views_of(store.sentences@) == views_of(mid.sentences@).update(
                i,
                SentenceV {
                    text: sentence_text_of(words_with_sentence(mid.words@, sentence_id as int)),
                    ..mid.sentences@[i]@
                },
            );
        let j = choose|j: int|
            0 <= j < mid.parts@.len() && mid.parts@[j]@.id == part_id as int && views_of(
                store.parts@,
            ) == views_of(mid.parts@).update(
                j,
                PartV {
                    text: part_text_of(sentences_with_part(store.sentences@, part_id as int)),
                    ..mid.parts@[j]@
                },
            );
        assert(mid.sentences@ == old(store).sentences@);
        assert(mid.parts@ == old(store).parts@);
        assert(mid.words@ == store.words@);
        assert(old(store).words@[kw]@.sentence_id == sentence_id as int) by {
            crate::store::lemma_unique_word(old(store).words@, kw, id as int);
        }
        crate::store::lemma_unique_sentence(old(store).sentences@, i, sentence_id as int);
        lemma_word_edit_consistency(
            *old(store),
            *store,
            part_id as int,
            sentence_id as int,
            kw,
            i,
            j,
            out@,
        );
    }
    Ok(out)
}

/// The consistency-preservation argument behind [`add_word`]: appending a
/// word to a sentence and then rewriting that sentence's and its part's
/// texts to their derived values keeps every row consistent.
proof fn lemma_word_add_consistency(
    pre: Store,
    post: Store,
    pid: int,
    sid: int,
    i: int,
    j: int,
    wv: WordV,
)
    requires
        pre.wf(),
        post.wf(),
        wv.sentence_id == sid,
        views_of(post.words@) == views_of(pre.words@).push(wv),
        0 <= i < pre.sentences@.len(),
        pre.sentences@[i]@.id == sid,
        views_of(post.sentences@) == views_of(pre.sentences@).update(
            i,
            SentenceV {
                text: sentence_text_of(words_with_sentence(post.words@, sid)),
                ..pre.sentences@[i]@
            },
        ),
        0 <= j < pre.parts@.len(),
        pre.parts@[j]@.id == pid,
        views_of(post.parts@) == views_of(pre.parts@).update(
            j,
            PartV {
                text: part_text_of(sentences_with_part(post.sentences@, pid)),
                ..pre.parts@[j]@
            },
        ),
    ensures
        (texts_consistent(pre) && pre.sentences@[i]@.part_id == pid) ==> texts_consistent(post),
{
    if texts_consistent(pre) && pre.sentences@[i]@.part_id == pid {
        assert(views_of(post.words@).len() == post.words@.len());
        assert(views_of(pre.words@).len() == pre.words@.len());
        assert(views_of(post.sentences@).len() == post.sentences@.len());
        assert(views_of(pre.sentences@).len() == pre.sentences@.len());
        assert(views_of(post.parts@).len() == post.parts@.len());
        assert(views_of(pre.parts@).len() == pre.parts@.len());
        assert(forall|m: int|
            0 <= m < post.words@.len() ==> (#[trigger] post.words@[m])@ == views_of(
                post.words@,
            )[m]);
        assert(forall|m: int|
            0 <= m < pre.words@.len() ==> (#[trigger] pre.words@[m])@ == views_of(pre.words@)[m]);
        assert(forall|m: int|
            0 <= m < post.sentences@.len() ==> (#[trigger] post.sentences@[m])@ == views_of(
                post.sentences@,
            )[m]);
        assert(forall|m: int|
            0 <= m < pre.sentences@.len() ==> (#[trigger] pre.sentences@[m])@ == views_of(
                pre.sentences@,
            )[m]);
        assert(forall|m: int|
            0 <= m < post.parts@.len() ==> (#[trigger] post.parts@[m])@ == views_of(
                post.parts@,
            )[m]);
        assert(forall|m: int|
            0 <= m < pre.parts@.len() ==> (#[trigger] pre.parts@[m])@ == views_of(pre.parts@)[m]);

        let kw = (post.words@.len() - 1) as int;
        let wt = pre.words@.push(post.words@[kw]);
        assert(views_of(wt) =~= views_of(post.words@));

        assert forall|m: int| 0 <= m < post.sentences@.len() implies (
        #[trigger] post.sentences@[m])@.text == sentence_text_of(
            words_with_sentence(post.words@, post.sentences@[m]@.id),
        ) by {
            if m != i {
                assert(post.sentences@[m]@ == pre.sentences@[m]@);
                crate::store::lemma_unique_sentence(pre.sentences@, i, sid);
                assert(pre.sentences@[m]@.id != sid);
                lemma_words_with_sentence_congruent(post.words@, wt, pre.sentences@[m]@.id);
                assert(post.words@[kw]@.sentence_id == sid);
                lemma_words_with_sentence_push_other(
                    pre.words@,
                    post.words@[kw],
                    pre.sentences@[m]@.id,
                );
            }
        }

        let st = pre.sentences@.update(i, post.sentences@[i]);
        assert(views_of(st) =~= views_of(post.sentences@));

        assert forall|m: int| 0 <= m < post.parts@.len() implies (
        #[trigger] post.parts@[m])@.text == part_text_of(
            sentences_with_part(post.sentences@, post.parts@[m]@.id),
        ) by {
            if m != j {
                assert(post.parts@[m]@ == pre.parts@[m]@);
                assert(pre.parts@[m]@.id != pid);
                lemma_sentences_with_part_congruent(post.sentences@, st, pre.parts@[m]@.id);
                assert(post.sentences@[i]@.part_id == pid);
                lemma_sentences_with_part_update_other(
                    pre.sentences@,
                    i,
                    post.sentences@[i],
                    pre.parts@[m]@.id,
                );
            }
        }
    }
}

/// Creates a word under a sentence and rebuilds the owning sentence's and
/// part's texts, as one workflow. `NotFound` exactly when the sentence or
/// the part is missing; a generic failure only when the id space is
/// exhausted; nothing changes on any error. When every text column was
/// consistent before, and the sentence belongs to the part, every text
/// column is consistent after.
pub fn add_word(store: &mut Store, part_id: i64, sentence_id: i64, params: &WordParams) -> (r:
    Result<Word, Error>)
    requires
        old(store).wf(),
    ensures
        final(store).wf(),
        r is Ok <==> has_sentence(old(store).sentences@, sentence_id as int) && has_part(
            old(store).parts@,
            part_id as int,
        ) && old(store).can_allocate(1),
        r is Err ==> *final(store) == *old(store),
        (has_sentence(old(store).sentences@, sentence_id as int) && has_part(
            old(store).parts@,
            part_id as int,
        )) ==> !(r matches Err(Error::NotFound)),
        r is Ok ==> {
            &&& r.unwrap()@ == word_of_params(
                *params,
                old(store).next_id as int,
                sentence_id as int,
            )
            &&& views_of(final(store).words@) == views_of(old(store).words@).push(r.unwrap()@)
            &&& exists|i: int|
                0 <= i < old(store).sentences@.len() && old(store).sentences@[i]@.id
                    == sentence_id as int && views_of(final(store).sentences@) == views_of(
                    old(store).sentences@,
                ).update(
                    i,
                    SentenceV {
                        text: sentence_text_of(
                            words_with_sentence(final(store).words@, sentence_id as int),
                        ),
                        ..old(store).sentences@[i]@
                    },
                )
            &&& exists|j: int|
                0 <= j < old(store).parts@.len() && old(store).parts@[j]@.id == part_id as int
                    && views_of(final(store).parts@) == views_of(old(store).parts@).update(
                    j,
                    PartV {
                        text: part_text_of(
                            sentences_with_part(final(store).sentences@, part_id as int),
                        ),
                        ..old(store).parts@[j]@
                    },
                )
            &&& final(store).episodes@ == old(store).episodes@
            &&& final(store).speakers@ == old(store).speakers@
            &&& final(store).episode_speakers@ == old(store).episode_speakers@
            &&& final(store).approvals@ == old(store).approvals@
            &&& final(store).next_id == old(store).next_id + 1
            &&& (texts_consistent(*old(store)) && sentence_at(
                old(store).sentences@,
                sentence_id as int,
            ).part_id == part_id as int) ==> texts_consistent(*final(store))
        },
{
    if store.get_sentence(sentence_id).is_none() {
        return Err(Error::NotFound);
    }
    if store.get_part(part_id).is_none() {
        return Err(Error::NotFound);
    }

    let out = match store.add_word(sentence_id, params) {
        Ok(w) => w,
        Err(e) => {
            return Err(e);
        },
    };
    let ghost mid = *store;

    match update_sentence_and_part(store, part_id, sentence_id) {
        Ok(()) => {},
        Err(e) => {
            return Err(e);
        },
    }

    proof {
        let i = choose|i: int|
            0 <= i < mid.sentences@.len() && mid.sentences@[i]@.id == sentence_id as int
                && views_of(store.sentences@) == views_of(mid.sentences@).update(
                i,
                SentenceV {
                    text: sentence_text_of(words_with_sentence(mid.words@, sentence_id as int)),
                    ..mid.sentences@[i]@
                },
            );
        let j = choose|j: int|
            0 <= j < mid.parts@.len() && mid.parts@[j]@.id == part_id as int && views_of(
                store.parts@,
            ) == views_of(mid.parts@).update(
                j,
                PartV {
                    text: part_text_of(sentences_with_part(store.sentences@, part_id as int)),
                    ..mid.parts@[j]@
                },
            );
        assert(mid.sentences@ == old(store).sentences@);
        assert(mid.parts@ == old(store).parts@);
        assert(mid.words@ == store.words@);
        crate::store::lemma_unique_sentence(old(store).sentences@, i, sentence_id as int);
        lemma_word_add_consistency(
            *old(store),
            *store,
            part_id as int,
            sentence_id as int,
            i,
            j,
            out@,
        );
    }
    Ok(out)
}

} // verus!
