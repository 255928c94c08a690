//! Transcript import: bulk-populates a blank episode's speakers, join
//! rows, parts, sentences and words from a supplied transcription, exactly
//! once per episode, and indexes each created part.

use vstd::prelude::*;

use crate::Error;
use crate::auth::Claims;
use crate::index::{SearchIndex, committed_docs, staged_docs, visible_docs};
use crate::model::{
    EpisodeSpeakerParams, EpisodeSpeakerV, ImportPart, ImportSentence, ImportTranscription, PartV,
    PartParams, SentenceParams, SentenceV, SpeakerParams, SpeakerV, WordParams, WordV, views_of,
};
use crate::store::{Store, has_speaker_named};

verus! {

/// All groups, one after another.
pub open spec fn concat_all<A>(gs: Seq<Seq<A>>) -> Seq<A>
    decreases gs.len(),
{
    if gs.len() == 0 {
        Seq::empty()
    } else {
        concat_all(gs.drop_last()) + gs.last()
    }
}

/// All doubly-nested groups, one after another.
pub open spec fn concat_all2(ggs: Seq<Seq<Seq<WordV>>>) -> Seq<WordV>
    decreases ggs.len(),
{
    if ggs.len() == 0 {
        Seq::empty()
    } else {
        concat_all2(ggs.drop_last()) + concat_all(ggs.last())
    }
}

/// The distinct speaker names of a transcription, in first-occurrence
/// order.
pub open spec fn distinct_speaker_names(ps: Seq<ImportPart>) -> Seq<Seq<char>>
    decreases ps.len(),
{
    if ps.len() == 0 {
        Seq::empty()
    } else {
        let rest = distinct_speaker_names(ps.drop_last());
        if rest.contains(ps.last().speaker@) {
            rest
        } else {
            rest.push(ps.last().speaker@)
        }
    }
}

/// The names among `names` that no stored speaker carries yet.
pub open spec fn new_speaker_names(names: Seq<Seq<char>>, speakers: Seq<crate::model::Speaker>) -> Seq<
    Seq<char>,
>
    decreases names.len(),
{
    if names.len() == 0 {
        Seq::empty()
    } else if has_speaker_named(speakers, names.last()) {
        new_speaker_names(names.drop_last(), speakers)
    } else {
        new_speaker_names(names.drop_last(), speakers).push(names.last())
    }
}

/// Some stored speaker carries this id and name.
pub open spec fn speaker_linked(speakers: Seq<crate::model::Speaker>, speaker_id: int, name: Seq<char>) -> bool {
    exists|k: int|
        0 <= k < speakers.len() && (#[trigger] speakers[k])@.id == speaker_id && speakers[k]@.name
            == name
}

/// The transcript segments with non-empty text, in order.
pub open spec fn nonempty_import_parts(ps: Seq<ImportPart>) -> Seq<ImportPart>
    decreases ps.len(),
{
    if ps.len() == 0 {
        Seq::empty()
    } else if ps.last().text@.len() == 0 {
        nonempty_import_parts(ps.drop_last())
    } else {
        nonempty_import_parts(ps.drop_last()).push(ps.last())
    }
}

/// The imported sentences with non-empty text, in order.
pub open spec fn nonempty_import_sentences(ss: Seq<ImportSentence>) -> Seq<ImportSentence>
    decreases ss.len(),
{
    if ss.len() == 0 {
        Seq::empty()
    } else if ss.last().text@.len() == 0 {
        nonempty_import_sentences(ss.drop_last())
    } else {
        nonempty_import_sentences(ss.drop_last()).push(ss.last())
    }
}

/// The sentence rows `sg` and word rows `wg` are exactly what importing
/// `sentences` under the part `part_id` creates: one sentence per
/// non-empty imported sentence, carrying its text and timing, and under
/// each one all its words, unhidden and without overrides.
pub open spec fn sentences_imported(
    sentences: Seq<ImportSentence>,
    part_id: int,
    sg: Seq<SentenceV>,
    wg: Seq<Seq<WordV>>,
) -> bool {
    let keep = nonempty_import_sentences(sentences);
    &&& sg.len() == keep.len()
    &&& wg.len() == keep.len()
    &&& forall|k: int|
        0 <= k < keep.len() ==> {
            &&& (#[trigger] sg[k]).part_id == part_id
            &&& sg[k].text == keep[k].text@
            &&& sg[k].starts_at == keep[k].start as int
            &&& sg[k].ends_at == keep[k].end as int
            &&& sg[k].words_per_second == keep[k].words_per_second as int
        }
    &&& forall|k: int|
        0 <= k < keep.len() ==> (#[trigger] wg[k]).len() == keep[k].words@.len()
    &&& forall|k: int, m: int|
        0 <= k < keep.len() && 0 <= m < keep[k].words@.len() ==> {
            &&& (#[trigger] wg[k][m]).sentence_id == sg[k].id
            &&& wg[k][m].text == keep[k].words@[m].text@
            &&& wg[k][m].overwrite.len() == 0
            &&& wg[k][m].starts_at == keep[k].words@[m].start as int
            &&& wg[k][m].ends_at == keep[k].words@[m].end as int
            &&& wg[k][m].probability == keep[k].words@[m].probability as int
            &&& !wg[k][m].hidden
        }
}

/// Inserts one part's imported sentences and their words. On success the
/// sentence and word tables have grown by exactly the rows that
/// [`sentences_imported`] describes; a failure can only be an exhausted id
/// space, and earlier inserts remain (import has no rollback).
fn import_sentences(store: &mut Store, part_id: i64, sentences: &Vec<ImportSentence>) -> (r:
    Result<(), Error>)
    requires
        old(store).wf(),
    ensures
        final(store).wf(),
        final(store).episodes@ == old(store).episodes@,
        final(store).speakers@ == old(store).speakers@,
        final(store).episode_speakers@ == old(store).episode_speakers@,
        final(store).parts@ == old(store).parts@,
        final(store).approvals@ == old(store).approvals@,
        r is Err ==> r matches Err(Error::Message(_)),
        exists|s_app: Seq<SentenceV>, w_app: Seq<WordV>|
            {
                &&& views_of(final(store).sentences@) == views_of(old(store).sentences@) + s_app
                &&& forall|t: int|
                    0 <= t < s_app.len() ==> (#[trigger] s_app[t]).part_id == part_id as int
                &&& views_of(final(store).words@) == views_of(old(store).words@) + w_app
            },
        r is Ok ==> exists|sg: Seq<SentenceV>, wg: Seq<Seq<WordV>>|
            {
                &&& views_of(final(store).sentences@) == views_of(old(store).sentences@) + sg
                &&& views_of(final(store).words@) == views_of(old(store).words@) + concat_all(wg)
                &&& sentences_imported(sentences@, part_id as int, sg, wg)
            },
{
    let ghost pre_sentences = views_of(old(store).sentences@);
    let ghost pre_words = views_of(old(store).words@);
    let ghost mut sg: Seq<SentenceV> = Seq::empty();
    let ghost mut wg: Seq<Seq<WordV>> = Seq::empty();
    let mut i: usize = 0;
    while i < sentences.len()
        invariant
            store.wf(),
            0 <= i <= sentences@.len(),
            store.episodes@ == old(store).episodes@,
            store.speakers@ == old(store).speakers@,
            store.episode_speakers@ == old(store).episode_speakers@,
            store.parts@ == old(store).parts@,
            store.approvals@ == old(store).approvals@,
            pre_sentences == views_of(old(store).sentences@),
            pre_words == views_of(old(store).words@),
            views_of(store.sentences@) == pre_sentences + sg,
            views_of(store.words@) == pre_words + concat_all(wg),
            forall|t: int| 0 <= t < sg.len() ==> (#[trigger] sg[t]).part_id == part_id as int,
            sentences_imported(sentences@.take(i as int), part_id as int, sg, wg),
        decreases sentences@.len() - i,
    {
        proof {
            assert(sentences@.take(i + 1).drop_last() =~= sentences@.take(i as int));
            assert(sentences@.take(i + 1).last() == sentences@[i as int]);
        }
        if !sentences[i].text.as_str().is_empty() {
            let params = SentenceParams {
                text: sentences[i].text.clone(),
                starts_at: sentences[i].start,
                ends_at: sentences[i].end,
                words_per_second: sentences[i].words_per_second,
            };
            let sentence = match store.add_sentence(part_id, &params) {
                Ok(s) => s,
                Err(e) => {
                    proof {
                        assert(views_of(store.sentences@) == views_of(old(store).sentences@)
                            + sg);
                        assert(views_of(store.words@) == views_of(old(store).words@)
                            + concat_all(wg));
                    }
                    return Err(e);
                },
            };
            proof {
                sg = sg.push(sentence@);
                assert(views_of(store.sentences@) =~= pre_sentences + sg);
            }

            let ghost mut w_acc: Seq<WordV> = Seq::empty();
            let ghost words_pre = views_of(store.words@);
            let mut m: usize = 0;
            while m < sentences[i].words.len()
                invariant
                    store.wf(),
                    0 <= i < sentences@.len(),
                    0 <= m <= sentences@[i as int].words@.len(),
                    store.episodes@ == old(store).episodes@,
                    store.speakers@ == old(store).speakers@,
                    store.episode_speakers@ == old(store).episode_speakers@,
                    store.parts@ == old(store).parts@,
                    store.approvals@ == old(store).approvals@,
                    pre_sentences == views_of(old(store).sentences@),
                    pre_words == views_of(old(store).words@),
                    views_of(store.sentences@) == pre_sentences + sg,
                    forall|t: int|
                        0 <= t < sg.len() ==> (#[trigger] sg[t]).part_id == part_id as int,
                    words_pre == pre_words + concat_all(wg),
                    views_of(store.words@) == words_pre + w_acc,
                    w_acc.len() == m,
                    forall|t: int|
                        0 <= t < m ==> {
                            &&& (#[trigger] w_acc[t]).sentence_id == sentence@.id
                            &&& w_acc[t].text == sentences@[i as int].words@[t].text@
                            &&& w_acc[t].overwrite.len() == 0
                            &&& w_acc[t].starts_at == sentences@[i as int].words@[t].start as int
                            &&& w_acc[t].ends_at == sentences@[i as int].words@[t].end as int
                            &&& w_acc[t].probability == sentences@[i as int].words@[t].probability as int
                            &&& !w_acc[t].hidden
                        },
                decreases sentences@[i as int].words@.len() - m,
            {
                let wparams = WordParams {
                    text: sentences[i].words[m].text.clone(),
                    overwrite: String::new(),
                    starts_at: sentences[i].words[m].start,
                    ends_at: sentences[i].words[m].end,
                    probability: sentences[i].words[m].probability,
                    hidden: false,
                };
                let word = match store.add_word(sentence.id, &wparams) {
                    Ok(w) => w,
                    Err(e) => {
                        proof {
                            assert(views_of(store.sentences@) == views_of(old(store).sentences@)
                                + sg);
                            assert(views_of(store.words@) =~= views_of(old(store).words@) + (
                            concat_all(wg) + w_acc));
                        }
                        return Err(e);
                    },
                };
                proof {
                    w_acc = w_acc.push(word@);
                    assert(views_of(store.words@) =~= words_pre + w_acc);
                }
                m = m + 1;
            }
            proof {
                let prev_wg = wg;
                wg = wg.push(w_acc);
                assert(wg.drop_last() =~= prev_wg);
                assert(wg.last() == w_acc);
                assert(concat_all(wg) == concat_all(prev_wg) + w_acc);
                assert(views_of(store.words@) =~= pre_words + concat_all(wg));
                assert(sentences_imported(sentences@.take(i + 1), part_id as int, sg, wg));
            }
        } else {
            proof {
                assert(sentences_imported(sentences@.take(i + 1), part_id as int, sg, wg));
            }
        }
        i = i + 1;
    }
    proof {
        assert(sentences@.take(sentences@.len() as int) =~= sentences@);
        assert(views_of(store.sentences@) == views_of(old(store).sentences@) + sg);
        assert(views_of(store.words@) == views_of(old(store).words@) + concat_all(wg));
    }
    Ok(())
}

/// Whether some element of `v` has the given character sequence.
fn contains_string(v: &Vec<String>, s: &String) -> (r: bool)
    ensures
        r <==> exists|k: int| 0 <= k < v@.len() && (#[trigger] v@[k])@ == s@,
{
    let mut i: usize = 0;
    while i < v.len()
        invariant
            0 <= i <= v@.len(),
            forall|k: int| 0 <= k < i ==> (#[trigger] v@[k])@ != s@,
        decreases v@.len() - i,
    {
        if v[i] == *s {
            return true;
        }
        i = i + 1;
    }
    false
}

/// The position of the first element of `v` with the given character
/// sequence, if any.
fn find_string_index(v: &Vec<String>, s: &String) -> (r: Option<usize>)
    ensures
        r is Some <==> exists|k: int| 0 <= k < v@.len() && (#[trigger] v@[k])@ == s@,
        r is Some ==> 0 <= r.unwrap() < v@.len() && v@[r.unwrap() as int]@ == s@,
{
    let mut i: usize = 0;
    while i < v.len()
        invariant
            0 <= i <= v@.len(),
            forall|k: int| 0 <= k < i ==> (#[trigger] v@[k])@ != s@,
        decreases v@.len() - i,
    {
        if v[i] == *s {
            return Some(i);
        }
        i = i + 1;
    }
    None
}

/// Every name that would be newly created is one of the given names.
proof fn lemma_new_speaker_names_subset(ns: Seq<Seq<char>>, sp: Seq<crate::model::Speaker>)
    ensures
        forall|t: int|
            0 <= t < new_speaker_names(ns, sp).len() ==> ns.contains(
                #[trigger] new_speaker_names(ns, sp)[t],
            ),
    decreases ns.len(),
{
    if ns.len() > 0 {
        lemma_new_speaker_names_subset(ns.drop_last(), sp);
        let cur = new_speaker_names(ns, sp);
        assert forall|t: int| 0 <= t < cur.len() implies ns.contains(cur[t]) by {
            if has_speaker_named(sp, ns.last()) {
                assert(ns.drop_last().contains(cur[t]));
                let j = choose|j: int| 0 <= j < ns.drop_last().len() && ns.drop_last()[j] == cur[t];
                assert(ns[j] == cur[t]);
            } else {
                if t < cur.len() - 1 {
                    assert(cur[t] == new_speaker_names(ns.drop_last(), sp)[t]);
                    assert(ns.drop_last().contains(cur[t]));
                    let j = choose|j: int|
                        0 <= j < ns.drop_last().len() && ns.drop_last()[j] == cur[t];
                    assert(ns[j] == cur[t]);
                } else {
                    assert(cur[t] == ns.last());
                    assert(ns[ns.len() - 1] == cur[t]);
                }
            }
        }
    }
}

/// Resolves the transcription's speakers: one reused-or-created speaker
/// per distinct name, and one fresh episode-speaker join row per distinct
/// name. Returns the distinct names and, in the same order, the ids of the
/// created join rows.
fn ensure_speakers(store: &mut Store, episode_id: i64, parts: &Vec<ImportPart>) -> (r: Result<
    (Vec<String>, Vec<i64>),
    Error,
>)
    requires
        old(store).wf(),
    ensures
        final(store).wf(),
        final(store).episodes@ == old(store).episodes@,
        final(store).parts@ == old(store).parts@,
        final(store).sentences@ == old(store).sentences@,
        final(store).words@ == old(store).words@,
        final(store).approvals@ == old(store).approvals@,
        r is Err ==> r matches Err(Error::Message(_)),
        exists|sp_app: Seq<SpeakerV>|
            {
                &&& views_of(final(store).speakers@) == views_of(old(store).speakers@) + sp_app
                &&& forall|t: int|
                    0 <= t < sp_app.len() ==> (exists|j: int|
                        0 <= j < parts@.len() && (#[trigger] sp_app[t]).name
                            == parts@[j].speaker@) && sp_app[t].description is None
            },
        exists|es_app: Seq<EpisodeSpeakerV>|
            {
                &&& views_of(final(store).episode_speakers@) == views_of(
                    old(store).episode_speakers@,
                ) + es_app
                &&& forall|t: int|
                    0 <= t < es_app.len() ==> (#[trigger] es_app[t]).episode_id
                        == episode_id as int
            },
        r is Ok ==> {
            &&& views_of(r.unwrap().0@) == distinct_speaker_names(parts@)
            &&& r.unwrap().1@.len() == r.unwrap().0@.len()
            &&& exists|new_sp: Seq<SpeakerV>|
                {
                    &&& views_of(final(store).speakers@) == views_of(old(store).speakers@) + new_sp
                    &&& new_sp.len() == new_speaker_names(
                        distinct_speaker_names(parts@),
                        old(store).speakers@,
                    ).len()
                    &&& forall|t: int|
                        0 <= t < new_sp.len() ==> (#[trigger] new_sp[t]).name == new_speaker_names(
                            distinct_speaker_names(parts@),
                            old(store).speakers@,
                        )[t] && new_sp[t].description is None
                }
            &&& exists|new_es: Seq<EpisodeSpeakerV>|
                {
                    &&& views_of(final(store).episode_speakers@) == views_of(
                        old(store).episode_speakers@,
                    ) + new_es
                    &&& new_es.len() == distinct_speaker_names(parts@).len()
                    &&& forall|t: int|
                        0 <= t < new_es.len() ==> (#[trigger] new_es[t]).episode_id
                            == episode_id as int && new_es[t].id == r.unwrap().1@[t] as int
                    &&& forall|t: int|
                        0 <= t < new_es.len() ==> speaker_linked(
                            final(store).speakers@,
                            (#[trigger] new_es[t]).speaker_id,
                            distinct_speaker_names(parts@)[t],
                        )
                }
        },
{
    let ghost old_sp_views = views_of(old(store).speakers@);
    let ghost old_es_views = views_of(old(store).episode_speakers@);
    let mut names: Vec<String> = Vec::new();
    let mut es_ids: Vec<i64> = Vec::new();
    let ghost mut new_sp: Seq<SpeakerV> = Seq::empty();
    let ghost mut new_es: Seq<EpisodeSpeakerV> = Seq::empty();
    let mut i: usize = 0;
    while i < parts.len()
        invariant
            store.wf(),
            0 <= i <= parts@.len(),
            store.episodes@ == old(store).episodes@,
            store.parts@ == old(store).parts@,
            store.sentences@ == old(store).sentences@,
            store.words@ == old(store).words@,
            store.approvals@ == old(store).approvals@,
            old_sp_views == views_of(old(store).speakers@),
            old_es_views == views_of(old(store).episode_speakers@),
            views_of(names@) == distinct_speaker_names(parts@.take(i as int)),
            es_ids@.len() == names@.len(),
            views_of(store.speakers@) == old_sp_views + new_sp,
            new_sp.len() == new_speaker_names(
                distinct_speaker_names(parts@.take(i as int)),
                old(store).speakers@,
            ).len(),
            forall|t: int|
                0 <= t < new_sp.len() ==> (#[trigger] new_sp[t]).name == new_speaker_names(
                    distinct_speaker_names(parts@.take(i as int)),
                    old(store).speakers@,
                )[t] && new_sp[t].description is None,
            forall|t: int|
                0 <= t < new_sp.len() ==> views_of(names@).contains(#[trigger] new_sp[t].name),
            forall|t: int|
                0 <= t < new_sp.len() ==> exists|j: int|
                    0 <= j < parts@.len() && (#[trigger] new_sp[t]).name == parts@[j].speaker@,
            views_of(store.episode_speakers@) == old_es_views + new_es,
            new_es.len() == names@.len(),
            forall|t: int|
                0 <= t < new_es.len() ==> (#[trigger] new_es[t]).episode_id == episode_id as int
                    && new_es[t].id == es_ids@[t] as int,
            forall|t: int|
                0 <= t < new_es.len() ==> speaker_linked(
                    store.speakers@,
                    (#[trigger] new_es[t]).speaker_id,
                    names@[t]@,
                ),
        decreases parts@.len() - i,
    {
        let ghost spk_entry = store.speakers@;
        let ghost names_entry = names@;
        let ghost new_es_entry = new_es;
        let ghost new_sp_entry = new_sp;
        proof {
            assert(forall|t: int|
                0 <= t < new_es_entry.len() ==> speaker_linked(
                    spk_entry,
                    (#[trigger] new_es_entry[t]).speaker_id,
                    names_entry[t]@,
                ));
        }
        proof {
            assert(parts@.take(i + 1).drop_last() =~= parts@.take(i as int));
            assert(parts@.take(i + 1).last() == parts@[i as int]);
            assert(views_of(names@).len() == names@.len());
        }
        let is_known = contains_string(&names, &parts[i].speaker);
        proof {
            assert(is_known <==> views_of(names@).contains(parts@[i as int].speaker@)) by {
                if is_known {
                    let k = choose|k: int|
                        0 <= k < names@.len() && (#[trigger] names@[k])@
                            == parts@[i as int].speaker@;
                    assert(views_of(names@)[k] == parts@[i as int].speaker@);
                } else {
                    if views_of(names@).contains(parts@[i as int].speaker@) {
                        let k = choose|k: int|
                            0 <= k < views_of(names@).len() && views_of(names@)[k]
                                == parts@[i as int].speaker@;
                        assert(names@[k]@ == parts@[i as int].speaker@);
                    }
                }
            }
        }
        if !is_known {
            let ghost dn_pre = distinct_speaker_names(parts@.take(i as int));
            let ghost dn_post = distinct_speaker_names(parts@.take(i + 1));
            proof {
                assert(dn_post == dn_pre.push(parts@[i as int].speaker@));
            }
            let found = store.find_speaker_by_name(&parts[i].speaker);
            let speaker_id: i64 = match found {
                Some(sp) => sp.id,
                None => {
                    let created = match store.add_speaker(
                        &SpeakerParams { name: parts[i].speaker.clone(), description: None },
                    ) {
                        Ok(s) => s,
                        Err(e) => {
                            proof {
                                assert(views_of(store.speakers@) == views_of(
                                    old(store).speakers@,
                                ) + new_sp);
                                assert(views_of(store.episode_speakers@) == views_of(
                                    old(store).episode_speakers@,
                                ) + new_es);
                            }
                            return Err(e);
                        },
                    };
                    proof {
                        let prev_sp = new_sp;
                        new_sp = new_sp.push(created@);
                        assert(views_of(store.speakers@) =~= old_sp_views + new_sp);
                        assert forall|t: int| 0 <= t < new_sp.len() implies exists|j: int|
                            0 <= j < parts@.len() && (#[trigger] new_sp[t]).name
                                == parts@[j].speaker@ by {
                            if t < new_sp.len() - 1 {
                                assert(new_sp[t] == new_sp_entry[t]);
                            } else {
                                assert(new_sp[t].name == parts@[i as int].speaker@);
                            }
                        }
                    }
                    created.id
                },
            };
            proof {
                // The new-name bookkeeping: the fresh name is created
                // exactly when no previously stored speaker carries it.
                let nn_pre = new_speaker_names(dn_pre, old(store).speakers@);
                let nn_post = new_speaker_names(dn_post, old(store).speakers@);
                assert(dn_post.drop_last() =~= dn_pre);
                if found is Some {
                    // The matching row cannot be one we created, whose names
                    // are all previously seen.
                    let k = choose|k: int|
                        0 <= k < store.speakers@.len() && (#[trigger] store.speakers@[k])@
                            == found.unwrap()@;
                    assert(views_of(store.speakers@).len() == store.speakers@.len());
                    assert(views_of(store.speakers@)[k] == store.speakers@[k]@);
                    if k >= old_sp_views.len() {
                        assert((old_sp_views + new_sp)[k] == new_sp[k - old_sp_views.len()]);
                        assert(new_sp[k - old_sp_views.len()].name == parts@[i as int].speaker@);
                        assert(views_of(names@).contains(parts@[i as int].speaker@));
                        assert(false);
                    }
                    assert((old_sp_views + new_sp)[k] == old_sp_views[k]);
                    assert(old(store).speakers@[k]@ == old_sp_views[k]);
                    assert(has_speaker_named(old(store).speakers@, parts@[i as int].speaker@));
                    assert(nn_post == nn_pre);
                } else {
                    assert(!has_speaker_named(old(store).speakers@, parts@[i as int].speaker@))
                        by {
                        if has_speaker_named(old(store).speakers@, parts@[i as int].speaker@) {
                            let k = choose|k: int|
                                0 <= k < old(store).speakers@.len() && (
                                #[trigger] old(store).speakers@[k])@.name
                                    == parts@[i as int].speaker@;
                            assert(views_of(store.speakers@)[k] == old_sp_views[k]);
                            assert(store.speakers@[k]@.name == parts@[i as int].speaker@);
                            assert(crate::store::has_speaker_named(
                                store.speakers@,
                                parts@[i as int].speaker@,
                            ));
                            assert(false);
                        }
                    }
                    assert(nn_post == nn_pre.push(parts@[i as int].speaker@));
                }
            }
            let es = match store.add_episode_speaker(
                episode_id,
                &EpisodeSpeakerParams { speaker_id },
            ) {
                Ok(e) => e,
                Err(e) => {
                    proof {
                        assert(views_of(store.speakers@) == views_of(old(store).speakers@)
                            + new_sp);
                        assert(views_of(store.episode_speakers@) == views_of(
                            old(store).episode_speakers@,
                        ) + new_es);
                    }
                    return Err(e);
                },
            };
            names.push(parts[i].speaker.clone());
            es_ids.push(es.id);
            proof {
                new_es = new_es.push(es@);
                assert(views_of(store.episode_speakers@) =~= old_es_views + new_es);
                assert(views_of(names@) =~= dn_post);
                assert(views_of(store.speakers@).len() == store.speakers@.len());
                assert(views_of(spk_entry).len() == spk_entry.len());
                assert(forall|k: int|
                    0 <= k < store.speakers@.len() ==> (#[trigger] store.speakers@[k])@
                        == views_of(store.speakers@)[k]);
                assert(forall|k: int|
                    0 <= k < spk_entry.len() ==> (#[trigger] spk_entry[k])@ == views_of(
                        spk_entry,
                    )[k]);
                assert forall|t: int| 0 <= t < new_es.len() implies speaker_linked(
                    store.speakers@,
                    (#[trigger] new_es[t]).speaker_id,
                    names@[t]@,
                ) by {
                    if t < new_es_entry.len() {
                        assert(new_es[t] == new_es_entry[t]);
                        assert(names@[t] == names_entry[t]);
                        assert(speaker_linked(spk_entry, new_es_entry[t].speaker_id, names_entry[t]@));
                        let k = choose|k: int|
                            0 <= k < spk_entry.len() && (#[trigger] spk_entry[k])@.id
                                == new_es_entry[t].speaker_id && spk_entry[k]@.name
                                == names_entry[t]@;
                        assert(views_of(store.speakers@)[k] == views_of(spk_entry)[k]);
                        assert(store.speakers@[k]@ == spk_entry[k]@);
                        assert(store.speakers@[k]@.id == new_es[t].speaker_id);
                        assert(store.speakers@[k]@.name == names@[t]@);
                    } else {
                        assert(new_es[t] == es@);
                        assert(names@[t]@ == parts@[i as int].speaker@);
                        if found is Some {
                            let k = choose|k: int|
                                0 <= k < spk_entry.len() && (#[trigger] spk_entry[k])@
                                    == found.unwrap()@;
                            assert(views_of(store.speakers@)[k] == views_of(spk_entry)[k]);
                            assert(store.speakers@[k]@.id == es@.speaker_id);
                            assert(store.speakers@[k]@.name == parts@[i as int].speaker@);
                        } else {
                            let k = (store.speakers@.len() - 1) as int;
                            assert(store.speakers@[k]@.id == es@.speaker_id);
                            assert(store.speakers@[k]@.name == parts@[i as int].speaker@);
                        }
                    }
                }
            }
        } else {
            proof {
                assert(views_of(names@) == distinct_speaker_names(parts@.take(i + 1)));
            }
        }
        i = i + 1;
    }
    proof {
        assert(parts@.take(parts@.len() as int) =~= parts@);
        assert(views_of(store.speakers@) == views_of(old(store).speakers@) + new_sp);
        assert(views_of(store.episode_speakers@) == views_of(old(store).episode_speakers@)
            + new_es);
    }
    Ok((names, es_ids))
}

/// Every segment's speaker name occurs among the distinct names.
proof fn lemma_distinct_contains(ps: Seq<ImportPart>, i: int)
    requires
        0 <= i < ps.len(),
    ensures
        distinct_speaker_names(ps).contains(ps[i].speaker@),
    decreases ps.len(),
{
    let rest = distinct_speaker_names(ps.drop_last());
    if i == ps.len() - 1 {
        if rest.contains(ps.last().speaker@) {
        } else {
            assert(distinct_speaker_names(ps)[rest.len() as int] == ps.last().speaker@);
        }
    } else {
        lemma_distinct_contains(ps.drop_last(), i);
        assert(ps.drop_last()[i] == ps[i]);
        let j = choose|j: int| 0 <= j < rest.len() && rest[j] == ps[i].speaker@;
        if rest.contains(ps.last().speaker@) {
        } else {
            assert(distinct_speaker_names(ps)[j] == ps[i].speaker@);
        }
    }
}

/// Appending nothing changes nothing; stated for every table so the
/// append-only clauses hold on the paths that never write.
proof fn lemma_store_appends_nothing(s: Store)
    ensures
        views_of(s.speakers@) == views_of(s.speakers@) + Seq::<SpeakerV>::empty(),
        views_of(s.episode_speakers@) == views_of(s.episode_speakers@) + Seq::<
            EpisodeSpeakerV,
        >::empty(),
        views_of(s.parts@) == views_of(s.parts@) + Seq::<PartV>::empty(),
        views_of(s.sentences@) == views_of(s.sentences@) + Seq::<SentenceV>::empty(),
        views_of(s.words@) == views_of(s.words@) + Seq::<WordV>::empty(),
{
    assert(views_of(s.speakers@) =~= views_of(s.speakers@) + Seq::<SpeakerV>::empty());
    assert(views_of(s.episode_speakers@) =~= views_of(s.episode_speakers@) + Seq::<
        EpisodeSpeakerV,
    >::empty());
    assert(views_of(s.parts@) =~= views_of(s.parts@) + Seq::<PartV>::empty());
    assert(views_of(s.sentences@) =~= views_of(s.sentences@) + Seq::<SentenceV>::empty());
    assert(views_of(s.words@) =~= views_of(s.words@) + Seq::<WordV>::empty());
}

/// The speaker rows `post` has gained over `pre` by importing `parts_in`:
/// one per distinct name that no speaker carried, with that name and no
/// description.
pub open spec fn speakers_created(parts_in: Seq<ImportPart>, pre: Store, post: Store) -> bool {
    exists|new_sp: Seq<SpeakerV>|
        {
            &&& views_of(post.speakers@) == views_of(pre.speakers@) + new_sp
            &&& new_sp.len() == new_speaker_names(
                distinct_speaker_names(parts_in),
                pre.speakers@,
            ).len()
            &&& forall|t: int|
                0 <= t < new_sp.len() ==> (#[trigger] new_sp[t]).name == new_speaker_names(
                    distinct_speaker_names(parts_in),
                    pre.speakers@,
                )[t] && new_sp[t].description is None
        }
}

/// The join rows `new_es` that importing `parts_in` creates: one per
/// distinct name, each binding this episode to a speaker of that name.
pub open spec fn episode_speakers_created(
    parts_in: Seq<ImportPart>,
    episode_id: int,
    pre: Store,
    post: Store,
    new_es: Seq<EpisodeSpeakerV>,
) -> bool {
    &&& views_of(post.episode_speakers@) == views_of(pre.episode_speakers@) + new_es
    &&& new_es.len() == distinct_speaker_names(parts_in).len()
    &&& forall|t: int|
        0 <= t < new_es.len() ==> (#[trigger] new_es[t]).episode_id == episode_id
    &&& forall|t: int|
        0 <= t < new_es.len() ==> speaker_linked(
            post.speakers@,
            (#[trigger] new_es[t]).speaker_id,
            distinct_speaker_names(parts_in)[t],
        )
}

/// The part, sentence and word rows that importing `parts_in` creates: one
/// part per non-empty segment, carrying its text and span under this
/// episode and the join row of its speaker, and under each part the rows
/// that [`sentences_imported`] describes.
pub open spec fn parts_created(
    parts_in: Seq<ImportPart>,
    episode_id: int,
    pre: Store,
    post: Store,
    new_es: Seq<EpisodeSpeakerV>,
    created: Seq<PartV>,
    sgroups: Seq<Seq<SentenceV>>,
    wgroups: Seq<Seq<Seq<WordV>>>,
) -> bool {
    let keep = nonempty_import_parts(parts_in);
    &&& views_of(post.parts@) == views_of(pre.parts@) + created
    &&& created.len() == keep.len()
    &&& sgroups.len() == keep.len()
    &&& wgroups.len() == keep.len()
    &&& forall|t: int|
        0 <= t < keep.len() ==> {
            &&& (#[trigger] created[t]).episode_id == episode_id
            &&& created[t].text == keep[t].text@
            &&& created[t].part_type == 0
            &&& created[t].starts_at == keep[t].start as int
            &&& created[t].ends_at == keep[t].end as int
            &&& exists|u: int|
                0 <= u < new_es.len() && distinct_speaker_names(parts_in)[u] == keep[t].speaker@
                    && created[t].episode_speaker_id == new_es[u].id
        }
    &&& views_of(post.sentences@) == views_of(pre.sentences@) + concat_all(sgroups)
    &&& views_of(post.words@) == views_of(pre.words@) + concat_all2(wgroups)
    &&& forall|t: int|
        0 <= t < keep.len() ==> sentences_imported(
            (#[trigger] keep[t]).sentences@,
            created[t].id,
            sgroups[t],
            wgroups[t],
        )
}

/// The index documents that importing adds: one per created part, with its
/// id and text, staged in creation order and, at the end, committed and
/// visible.
pub open spec fn parts_indexed(
    pre: SearchIndex,
    post: SearchIndex,
    created: Seq<PartV>,
    docs: Seq<(i64, Seq<char>)>,
) -> bool {
    &&& staged_docs(post) == staged_docs(pre) + docs
    &&& committed_docs(post) == staged_docs(post)
    &&& visible_docs(post) == committed_docs(post)
    &&& docs.len() == created.len()
    &&& forall|t: int|
        0 <= t < docs.len() ==> (#[trigger] docs[t]).0 as int == created[t].id && docs[t].1
            == created[t].text
}

/// Bulk-populates a blank episode from a transcription: reuses or creates
/// one speaker per distinct name, binds each to the episode, and inserts
/// one part per non-empty segment (indexing its text), one sentence per
/// non-empty imported sentence and all their words. Only administrators
/// may import; an episode that already has parts or speakers is rejected
/// with no change. A mid-way failure (an engine error or an exhausted id
/// space) leaves the earlier inserts in place: import has no rollback.
pub fn import(
    claims: &Claims,
    store: &mut Store,
    index: &mut SearchIndex,
    episode_id: i64,
    tr: &ImportTranscription,
) -> (r: Result<(), Error>)
    requires
        old(store).wf(),
    ensures
        final(store).wf(),
        (r matches Err(Error::Unauthorized(_))) <==> claims.role < 3,
        claims.role >= 3 ==> ((r matches Err(Error::BadRequest(_))) <==> (crate::store::parts_with_episode(
            old(store).parts@,
            episode_id as int,
        ).len() > 0 || crate::store::episode_speakers_with_episode(
            old(store).episode_speakers@,
            episode_id as int,
        ).len() > 0)),
        ((r matches Err(Error::Unauthorized(_))) || (r matches Err(Error::BadRequest(_)))) ==> {
            &&& *final(store) == *old(store)
            &&& staged_docs(*final(index)) == staged_docs(*old(index))
            &&& committed_docs(*final(index)) == committed_docs(*old(index))
            &&& visible_docs(*final(index)) == visible_docs(*old(index))
        },
        r is Err ==> ((r matches Err(Error::Unauthorized(_))) || (r matches Err(
            Error::BadRequest(_),
        )) || (r matches Err(Error::Message(_)))),
        final(store).episodes@ == old(store).episodes@,
        final(store).approvals@ == old(store).approvals@,
        exists|sp_app: Seq<SpeakerV>|
            {
                &&& views_of(final(store).speakers@) == views_of(old(store).speakers@) + sp_app
                &&& forall|t: int|
                    0 <= t < sp_app.len() ==> (exists|j: int|
                        0 <= j < tr.transcription@.len() && (#[trigger] sp_app[t]).name
                            == tr.transcription@[j].speaker@) && sp_app[t].description is None
            },
        exists|es_app: Seq<EpisodeSpeakerV>|
            {
                &&& views_of(final(store).episode_speakers@) == views_of(
                    old(store).episode_speakers@,
                ) + es_app
                &&& forall|t: int|
                    0 <= t < es_app.len() ==> (#[trigger] es_app[t]).episode_id
                        == episode_id as int
            },
        exists|p_app: Seq<PartV>|
            {
                &&& views_of(final(store).parts@) == views_of(old(store).parts@) + p_app
                &&& forall|t: int|
                    0 <= t < p_app.len() ==> (#[trigger] p_app[t]).episode_id == episode_id as int
            },
        exists|s_app: Seq<SentenceV>|
            views_of(final(store).sentences@) == views_of(old(store).sentences@) + s_app,
        exists|w_app: Seq<WordV>|
            views_of(final(store).words@) == views_of(old(store).words@) + w_app,
        r is Ok ==> {
            &&& speakers_created(tr.transcription@, *old(store), *final(store))
            &&& exists|
                new_es: Seq<EpisodeSpeakerV>,
                created: Seq<PartV>,
                sgroups: Seq<Seq<SentenceV>>,
                wgroups: Seq<Seq<Seq<WordV>>>,
                docs: Seq<(i64, Seq<char>)>,
            |
                {
                    &&& episode_speakers_created(
                        tr.transcription@,
                        episode_id as int,
                        *old(store),
                        *final(store),
                        new_es,
                    )
                    &&& parts_created(
                        tr.transcription@,
                        episode_id as int,
                        *old(store),
                        *final(store),
                        new_es,
                        created,
                        sgroups,
                        wgroups,
                    )
                    &&& parts_indexed(*old(index), *final(index), created, docs)
                }
        },
{
    if claims.role < 3 {
        proof {
            lemma_store_appends_nothing(*store);
        }
        return Err(Error::Unauthorized("Unauthorized".to_string()));
    }
    let existing_parts = store.list_parts(episode_id);
    proof {
        assert(views_of(existing_parts@).len() == existing_parts@.len());
    }
    if existing_parts.len() != 0 {
        proof {
            lemma_store_appends_nothing(*store);
        }
        return Err(Error::BadRequest("Import only works for blank episodes".to_string()));
    }
    let existing_speakers = store.list_episode_speakers(episode_id);
    proof {
        assert(views_of(existing_speakers@).len() == existing_speakers@.len());
    }
    if existing_speakers.len() != 0 {
        proof {
            lemma_store_appends_nothing(*store);
        }
        return Err(Error::BadRequest("Import only works for blank episodes".to_string()));
    }

    let pair = match ensure_speakers(store, episode_id, &tr.transcription) {
        Ok(p) => p,
        Err(e) => {
            proof {
                lemma_store_appends_nothing(*store);
            }
            return Err(e);
        },
    };
    let (names, es_ids) = pair;
    let ghost mid = *store;
    let ghost sp_app0 = choose|sp_app: Seq<SpeakerV>|
        {
            &&& views_of(mid.speakers@) == views_of(old(store).speakers@) + sp_app
            &&& forall|t: int|
                0 <= t < sp_app.len() ==> (exists|j: int|
                    0 <= j < tr.transcription@.len() && (#[trigger] sp_app[t]).name
                        == tr.transcription@[j].speaker@) && sp_app[t].description is None
        };
    let ghost es_app0 = choose|es_app: Seq<EpisodeSpeakerV>|
        {
            &&& views_of(mid.episode_speakers@) == views_of(old(store).episode_speakers@)
                + es_app
            &&& forall|t: int|
                0 <= t < es_app.len() ==> (#[trigger] es_app[t]).episode_id == episode_id as int
        };
    let ghost new_es = choose|new_es: Seq<EpisodeSpeakerV>|
        {
            &&& views_of(mid.episode_speakers@) == views_of(old(store).episode_speakers@) + new_es
            &&& new_es.len() == distinct_speaker_names(tr.transcription@).len()
            &&& forall|t: int|
                0 <= t < new_es.len() ==> (#[trigger] new_es[t]).episode_id == episode_id as int
                    && new_es[t].id == es_ids@[t] as int
            &&& forall|t: int|
                0 <= t < new_es.len() ==> speaker_linked(
                    mid.speakers@,
                    (#[trigger] new_es[t]).speaker_id,
                    distinct_speaker_names(tr.transcription@)[t],
                )
        };

    let ghost mut created: Seq<PartV> = Seq::empty();
    let ghost mut sgroups: Seq<Seq<SentenceV>> = Seq::empty();
    let ghost mut wgroups: Seq<Seq<Seq<WordV>>> = Seq::empty();
    let ghost mut docs: Seq<(i64, Seq<char>)> = Seq::empty();

    let parts_in = &tr.transcription;
    let mut i: usize = 0;
    while i < parts_in.len()
        invariant
            store.wf(),
            claims.role >= 3,
            crate::store::parts_with_episode(old(store).parts@, episode_id as int).len() == 0,
            crate::store::episode_speakers_with_episode(
                old(store).episode_speakers@,
                episode_id as int,
            ).len() == 0,
            0 <= i <= parts_in@.len(),
            parts_in@ == tr.transcription@,
            store.episodes@ == mid.episodes@,
            store.approvals@ == mid.approvals@,
            store.speakers@ == mid.speakers@,
            store.episode_speakers@ == mid.episode_speakers@,
            mid.episodes@ == old(store).episodes@,
            mid.approvals@ == old(store).approvals@,
            mid.parts@ == old(store).parts@,
            mid.sentences@ == old(store).sentences@,
            mid.words@ == old(store).words@,
            views_of(mid.speakers@) == views_of(old(store).speakers@) + sp_app0,
            forall|t: int|
                0 <= t < sp_app0.len() ==> (exists|j: int|
                    0 <= j < tr.transcription@.len() && (#[trigger] sp_app0[t]).name
                        == tr.transcription@[j].speaker@) && sp_app0[t].description is None,
            views_of(mid.episode_speakers@) == views_of(old(store).episode_speakers@) + es_app0,
            forall|t: int|
                0 <= t < es_app0.len() ==> (#[trigger] es_app0[t]).episode_id
                    == episode_id as int,
            views_of(names@) == distinct_speaker_names(parts_in@),
            es_ids@.len() == names@.len(),
            new_es.len() == names@.len(),
            forall|t: int|
                0 <= t < new_es.len() ==> (#[trigger] new_es[t]).id == es_ids@[t] as int,
            views_of(store.parts@) == views_of(mid.parts@) + created,
            views_of(store.sentences@) == views_of(mid.sentences@) + concat_all(sgroups),
            views_of(store.words@) == views_of(mid.words@) + concat_all2(wgroups),
            created.len() == nonempty_import_parts(parts_in@.take(i as int)).len(),
            sgroups.len() == created.len(),
            wgroups.len() == created.len(),
            forall|t: int|
                0 <= t < created.len() ==> {
                    &&& (#[trigger] created[t]).episode_id == episode_id as int
                    &&& created[t].text == nonempty_import_parts(parts_in@.take(i as int))[t].text@
                    &&& created[t].part_type == 0
                    &&& created[t].starts_at == nonempty_import_parts(
                        parts_in@.take(i as int),
                    )[t].start as int
                    &&& created[t].ends_at == nonempty_import_parts(
                        parts_in@.take(i as int),
                    )[t].end as int
                    &&& exists|u: int|
                        0 <= u < new_es.len() && distinct_speaker_names(parts_in@)[u]
                            == nonempty_import_parts(parts_in@.take(i as int))[t].speaker@
                            && created[t].episode_speaker_id == new_es[u].id
                },
            forall|t: int|
                0 <= t < created.len() ==> sentences_imported(
                    (#[trigger] nonempty_import_parts(parts_in@.take(i as int))[t]).sentences@,
                    created[t].id,
                    sgroups[t],
                    wgroups[t],
                ),
            staged_docs(*index) == staged_docs(*old(index)) + docs,
            committed_docs(*index) == committed_docs(*old(index)),
            visible_docs(*index) == visible_docs(*old(index)),
            docs.len() == created.len(),
            forall|t: int|
                0 <= t < docs.len() ==> (#[trigger] docs[t]).0 as int == created[t].id
                    && docs[t].1 == created[t].text,
        decreases parts_in@.len() - i,
    {
        proof {
            assert(parts_in@.take(i + 1).drop_last() =~= parts_in@.take(i as int));
            assert(parts_in@.take(i + 1).last() == parts_in@[i as int]);
        }
        if !parts_in[i].text.as_str().is_empty() {
            proof {
                lemma_distinct_contains(parts_in@, i as int);
                assert(views_of(names@).len() == names@.len());
                let u = choose|u: int|
                    0 <= u < views_of(names@).len() && views_of(names@)[u]
                        == parts_in@[i as int].speaker@;
                assert(names@[u]@ == parts_in@[i as int].speaker@);
            }
            let idx = match find_string_index(&names, &parts_in[i].speaker) {
                Some(u) => u,
                None => {
                    proof {
                        assert(false);
                    }
                    return Err(Error::NotFound);
                },
            };
            let params = PartParams {
                text: parts_in[i].text.clone(),
                part_type: 0,
                starts_at: parts_in[i].start,
                ends_at: parts_in[i].end,
                episode_speaker_id: es_ids[idx],
            };
            let part = match store.add_part(episode_id, &params) {
                Ok(p) => p,
                Err(e) => {
                    proof {
                        assert(views_of(store.speakers@) == views_of(old(store).speakers@)
                            + sp_app0);
                        assert(views_of(store.episode_speakers@) == views_of(
                            old(store).episode_speakers@,
                        ) + es_app0);
                        assert(views_of(store.parts@) == views_of(old(store).parts@) + created);
                        assert(views_of(store.sentences@) == views_of(old(store).sentences@)
                            + concat_all(sgroups));
                        assert(views_of(store.words@) == views_of(old(store).words@)
                            + concat_all2(wgroups));
                    }
                    return Err(e);
                },
            };
            match index.add_doc(part.id, &part.text) {
                Ok(()) => {},
                Err(e) => {
                    proof {
                        let p_app = created.push(part@);
                        assert(views_of(store.parts@) =~= views_of(old(store).parts@) + p_app);
                        assert(forall|t: int|
                            0 <= t < p_app.len() ==> (#[trigger] p_app[t]).episode_id
                                == episode_id as int);
                        assert(views_of(store.speakers@) == views_of(old(store).speakers@)
                            + sp_app0);
                        assert(views_of(store.episode_speakers@) == views_of(
                            old(store).episode_speakers@,
                        ) + es_app0);
                        assert(views_of(store.sentences@) == views_of(old(store).sentences@)
                            + concat_all(sgroups));
                        assert(views_of(store.words@) == views_of(old(store).words@)
                            + concat_all2(wgroups));
                    }
                    return Err(e);
                },
            }
            let ghost sent_pre = *store;
            match import_sentences(store, part.id, &parts_in[i].sentences) {
                Ok(()) => {},
                Err(e) => {
                    proof {
                        let p_app = created.push(part@);
                        assert(views_of(store.parts@) =~= views_of(old(store).parts@) + p_app);
                        assert(forall|t: int|
                            0 <= t < p_app.len() ==> (#[trigger] p_app[t]).episode_id
                                == episode_id as int);
                        assert(views_of(store.speakers@) == views_of(old(store).speakers@)
                            + sp_app0);
                        assert(views_of(store.episode_speakers@) == views_of(
                            old(store).episode_speakers@,
                        ) + es_app0);
                        let (s_tail, w_tail) = choose|s_tail: Seq<SentenceV>, w_tail: Seq<WordV>|
                            {
                                &&& views_of(store.sentences@) == views_of(sent_pre.sentences@)
                                    + s_tail
                                &&& forall|t: int|
                                    0 <= t < s_tail.len() ==> (#[trigger] s_tail[t]).part_id
                                        == part.id as int
                                &&& views_of(store.words@) == views_of(sent_pre.words@) + w_tail
                            };
                        assert(views_of(store.sentences@) =~= views_of(old(store).sentences@) + (
                        concat_all(sgroups) + s_tail));
                        assert(views_of(store.words@) =~= views_of(old(store).words@) + (
                        concat_all2(wgroups) + w_tail));
                    }
                    return Err(e);
                },
            }
            proof {
                let prev_created = created;
                let prev_sgroups = sgroups;
                let prev_wgroups = wgroups;
                let prev_docs = docs;
                created = created.push(part@);
                docs = docs.push((part.id, part@.text));
                let (sg, wg) = choose|sg: Seq<SentenceV>, wg: Seq<Seq<WordV>>|
                    {
                        &&& views_of(store.sentences@) == views_of(sent_pre.sentences@) + sg
                        &&& views_of(store.words@) == views_of(sent_pre.words@) + concat_all(wg)
                        &&& sentences_imported(
                            parts_in@[i as int].sentences@,
                            part@.id as int,
                            sg,
                            wg,
                        )
                    };
                sgroups = sgroups.push(sg);
                wgroups = wgroups.push(wg);
                assert(created.drop_last() =~= prev_created);
                assert(sgroups.drop_last() =~= prev_sgroups);
                assert(wgroups.drop_last() =~= prev_wgroups);
                assert(docs.drop_last() =~= prev_docs);
                assert(concat_all(sgroups) == concat_all(prev_sgroups) + sg);
                assert(concat_all2(wgroups) == concat_all2(prev_wgroups) + concat_all(wg));
                assert(views_of(store.parts@) =~= views_of(mid.parts@) + created);
                assert(views_of(store.sentences@) =~= views_of(mid.sentences@) + concat_all(
                    sgroups,
                ));
                assert(views_of(store.words@) =~= views_of(mid.words@) + concat_all2(wgroups));
                assert(staged_docs(*index) =~= staged_docs(*old(index)) + docs);
                let keep = nonempty_import_parts(parts_in@.take(i + 1));
                assert(keep =~= nonempty_import_parts(parts_in@.take(i as int)).push(
                    parts_in@[i as int],
                ));
                assert(part@.episode_speaker_id == es_ids@[idx as int] as int);
                assert(new_es[idx as int].id == es_ids@[idx as int] as int);
                assert(distinct_speaker_names(parts_in@)[idx as int] == names@[idx as int]@);
            }
        } else {
            proof {
                assert(nonempty_import_parts(parts_in@.take(i + 1))
                    =~= nonempty_import_parts(parts_in@.take(i as int)));
            }
        }
        i = i + 1;
    }
    proof {
        assert(parts_in@.take(parts_in@.len() as int) =~= parts_in@);
    }

    proof {
        assert(views_of(store.speakers@) == views_of(old(store).speakers@) + sp_app0);
        assert(views_of(store.episode_speakers@) == views_of(old(store).episode_speakers@)
            + es_app0);
        assert(views_of(store.parts@) == views_of(old(store).parts@) + created);
        assert(views_of(store.sentences@) == views_of(old(store).sentences@) + concat_all(
            sgroups,
        ));
        assert(views_of(store.words@) == views_of(old(store).words@) + concat_all2(wgroups));
    }
    match index.commit() {
        Ok(()) => {},
        Err(e) => {
            return Err(e);
        },
    }
    match index.reload() {
        Ok(()) => {},
        Err(e) => {
            return Err(e);
        },
    }
    proof {
        assert(episode_speakers_created(
            tr.transcription@,
            episode_id as int,
            *old(store),
            *store,
            new_es,
        ));
        assert(parts_created(
            tr.transcription@,
            episode_id as int,
            *old(store),
            *store,
            new_es,
            created,
            sgroups,
            wgroups,
        ));
        assert(parts_indexed(*old(index), *index, created, docs));
    }
    Ok(())
}

} // verus!
