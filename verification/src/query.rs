//! Read-side workflows: full-text search with row hydration, the display
//! assemblies for episodes and parts, and the audio-attachment record
//! keeping. The binary audio itself is carried by the surrounding
//! application; the core only keeps and checks the flag.

use vstd::prelude::*;

use crate::Error;
use crate::auth::Claims;
use crate::index::{SearchIndex, committed_docs, docs_with_id, index_has_id, staged_docs, visible_docs};
use crate::model::{
    Approval, ApprovalV, Episode, EpisodeParams, EpisodeSpeaker, EpisodeV, Part, PartV, Sentence,
    Word, copy_episode, copy_opt_string, copy_part, copy_sentence, views_of,
};
use crate::store::{
    Store, episode_at, episode_speakers_with_episode, has_episode, has_part, part_at,
    parts_with_episode, sentences_with_part, words_with_sentence,
};
use crate::text::{sort_parts, sort_parts_spec, sort_sentences, sort_sentences_spec};

verus! {

/// One sentence of a part display, with the words it owns.
pub struct SentenceDisplay {
    pub sentence: Sentence,
    pub words: Vec<Word>,
}

/// A part with its full sentence and word tree, for the editor.
pub struct PartDisplay {
    pub part: Part,
    pub sentences: Vec<SentenceDisplay>,
}

/// An episode with its parts, speaker bindings and approvals.
pub struct EpisodeDisplay {
    pub episode: Episode,
    pub parts: Vec<Part>,
    pub episode_speakers: Vec<EpisodeSpeaker>,
    pub speakers: Vec<crate::model::Speaker>,
    pub approvals: Vec<Approval>,
}

/// Ranked search hits with the rows that back them.
pub struct SearchResults {
    pub part_ids: Vec<i64>,
    pub episodes: Vec<Episode>,
    pub parts: Vec<Part>,
    pub approvals: Vec<Approval>,
}

/// The ids held by a plain id list, as a mathematical set.
pub open spec fn seq_id_set(v: Seq<i64>) -> Set<int> {
    Set::new(|x: int| exists|i: int| 0 <= i < v.len() && v[i] as int == x)
}

/// The ids of the given parts, as a mathematical set.
pub open spec fn part_id_set(ps: Seq<PartV>) -> Set<int> {
    Set::new(|x: int| exists|i: int| 0 <= i < ps.len() && ps[i].id == x)
}

/// The episodes the given parts belong to, as a mathematical set.
pub open spec fn episode_id_set(ps: Seq<PartV>) -> Set<int> {
    Set::new(|x: int| exists|i: int| 0 <= i < ps.len() && ps[i].episode_id == x)
}

/// The parts whose id lies in the given set, in stored order.
pub open spec fn parts_with_ids(s: Seq<Part>, ids: Set<int>) -> Seq<PartV>
    decreases s.len(),
{
    if s.len() == 0 {
        Seq::empty()
    } else if ids.contains(s.last()@.id) {
        parts_with_ids(s.drop_last(), ids).push(s.last()@)
    } else {
        parts_with_ids(s.drop_last(), ids)
    }
}

/// The approvals whose part lies in the given set, in stored order.
pub open spec fn approvals_with_parts(s: Seq<Approval>, ids: Set<int>) -> Seq<ApprovalV>
    decreases s.len(),
{
    if s.len() == 0 {
        Seq::empty()
    } else if ids.contains(s.last()@.part_id) {
        approvals_with_parts(s.drop_last(), ids).push(s.last()@)
    } else {
        approvals_with_parts(s.drop_last(), ids)
    }
}

/// The episodes whose id lies in the given set, in stored order.
pub open spec fn episodes_with_ids(s: Seq<Episode>, ids: Set<int>) -> Seq<EpisodeV>
    decreases s.len(),
{
    if s.len() == 0 {
        Seq::empty()
    } else if ids.contains(s.last()@.id) {
        episodes_with_ids(s.drop_last(), ids).push(s.last()@)
    } else {
        episodes_with_ids(s.drop_last(), ids)
    }
}

fn contains_id64(v: &Vec<i64>, x: i64) -> (r: bool)
    ensures
        r <==> seq_id_set(v@).contains(x as int),
{
    let mut i: usize = 0;
    while i < v.len()
        invariant
            0 <= i <= v@.len(),
            forall|k: int| 0 <= k < i ==> v@[k] != x,
        decreases v@.len() - i,
    {
        if v[i] == x {
            proof {
                assert(v@[i as int] as int == x as int);
            }
            return true;
        }
        i = i + 1;
    }
    proof {
        assert(!seq_id_set(v@).contains(x as int)) by {
            if seq_id_set(v@).contains(x as int) {
                let k = choose|k: int| 0 <= k < v@.len() && v@[k] as int == x as int;
                assert(v@[k] == x);
            }
        }
    }
    false
}

/// Runs a reader-authorized search: ranked part ids from the index's
/// visible state, then the matching parts, their episodes and the parts'
/// approvals from the store. At most fifty hits come back, each id backed
/// by a visible index document.
pub fn search(claims: &Claims, store: &Store, index: &SearchIndex, query: &String) -> (r: Result<
    SearchResults,
    Error,
>)
    ensures
        (r matches Err(Error::Unauthorized(_))) <==> claims.role < 1,
        r is Err ==> ((r matches Err(Error::Unauthorized(_))) || (r matches Err(
            Error::Message(_),
        ))),
        r is Ok ==> {
            &&& r.unwrap().part_ids@.len() <= 50
            &&& forall|k: int|
                0 <= k < r.unwrap().part_ids@.len() ==> crate::index::query_match_ids(
                    query@,
                    visible_docs(*index),
                ).contains(#[trigger] r.unwrap().part_ids@[k] as int)
            &&& forall|k: int|
                0 <= k < r.unwrap().part_ids@.len() ==> index_has_id(
                    visible_docs(*index),
                    #[trigger] r.unwrap().part_ids@[k] as int,
                )
            &&& views_of(r.unwrap().parts@) == parts_with_ids(
                store.parts@,
                seq_id_set(r.unwrap().part_ids@),
            )
            &&& views_of(r.unwrap().approvals@) == approvals_with_parts(
                store.approvals@,
                seq_id_set(r.unwrap().part_ids@),
            )
            &&& views_of(r.unwrap().episodes@) == episodes_with_ids(
                store.episodes@,
                episode_id_set(views_of(r.unwrap().parts@)),
            )
        },
{
    if claims.role < 1 {
        return Err(Error::Unauthorized("Unauthorized".to_string()));
    }
    let part_ids = match index.search_ids(query, 50) {
        Ok(ids) => ids,
        Err(e) => {
            return Err(e);
        },
    };

    let ghost idset = seq_id_set(part_ids@);
    let mut parts: Vec<Part> = Vec::new();
    let mut i: usize = 0;
    while i < store.parts.len()
        invariant
            0 <= i <= store.parts@.len(),
            idset == seq_id_set(part_ids@),
            views_of(parts@) == parts_with_ids(store.parts@.take(i as int), idset),
        decreases store.parts@.len() - i,
    {
        proof {
            assert(store.parts@.take(i + 1).drop_last() =~= store.parts@.take(i as int));
            assert(store.parts@.take(i + 1).last() == store.parts@[i as int]);
        }
        if contains_id64(&part_ids, store.parts[i].id) {
            parts.push(copy_part(&store.parts[i]));
            proof {
                assert(views_of(parts@) =~= parts_with_ids(store.parts@.take(i + 1), idset));
            }
        }
        i = i + 1;
    }
    proof {
        assert(store.parts@.take(store.parts@.len() as int) =~= store.parts@);
    }

    let mut approvals: Vec<Approval> = Vec::new();
    let mut a: usize = 0;
    while a < store.approvals.len()
        invariant
            0 <= a <= store.approvals@.len(),
            idset == seq_id_set(part_ids@),
            views_of(approvals@) == approvals_with_parts(store.approvals@.take(a as int), idset),
        decreases store.approvals@.len() - a,
    {
        proof {
            assert(store.approvals@.take(a + 1).drop_last() =~= store.approvals@.take(a as int));
            assert(store.approvals@.take(a + 1).last() == store.approvals@[a as int]);
        }
        if contains_id64(&part_ids, store.approvals[a].part_id) {
            approvals.push(store.approvals[a]);
            proof {
                assert(views_of(approvals@) =~= approvals_with_parts(
                    store.approvals@.take(a + 1),
                    idset,
                ));
            }
        }
        a = a + 1;
    }
    proof {
        assert(store.approvals@.take(store.approvals@.len() as int) =~= store.approvals@);
    }

    let ghost eset = episode_id_set(views_of(parts@));
    let mut episodes: Vec<Episode> = Vec::new();
    let mut e: usize = 0;
    while e < store.episodes.len()
        invariant
            0 <= e <= store.episodes@.len(),
            eset == episode_id_set(views_of(parts@)),
            views_of(parts@).len() == parts@.len(),
            forall|k: int|
                0 <= k < parts@.len() ==> (#[trigger] parts@[k])@ == views_of(parts@)[k],
            views_of(episodes@) == episodes_with_ids(store.episodes@.take(e as int), eset),
        decreases store.episodes@.len() - e,
    {
        proof {
            assert(store.episodes@.take(e + 1).drop_last() =~= store.episodes@.take(e as int));
            assert(store.episodes@.take(e + 1).last() == store.episodes@[e as int]);
        }
        let mut hit: bool = false;
        let mut p: usize = 0;
        while p < parts.len()
            invariant
                0 <= p <= parts@.len(),
                0 <= e < store.episodes@.len(),
                views_of(parts@).len() == parts@.len(),
                forall|k: int|
                    0 <= k < parts@.len() ==> (#[trigger] parts@[k])@ == views_of(parts@)[k],
                hit ==> exists|k: int|
                    0 <= k < parts@.len() && (#[trigger] parts@[k])@.episode_id
                        == store.episodes@[e as int]@.id,
                !hit ==> forall|k: int|
                    0 <= k < p ==> (#[trigger] parts@[k])@.episode_id != store.episodes@[e as int]@.id,
            decreases parts@.len() - p,
        {
            if parts[p].episode_id == store.episodes[e].id {
                hit = true;
            }
            p = p + 1;
        }
        proof {
            assert(hit <==> eset.contains(store.episodes@[e as int]@.id)) by {
                if hit {
                    let k = choose|k: int|
                        0 <= k < parts@.len() && (#[trigger] parts@[k])@.episode_id
                            == store.episodes@[e as int]@.id;
                    assert(views_of(parts@)[k].episode_id == store.episodes@[e as int]@.id);
                } else {
                    if eset.contains(store.episodes@[e as int]@.id) {
                        let k = choose|k: int|
                            0 <= k < views_of(parts@).len() && views_of(parts@)[k].episode_id
                                == store.episodes@[e as int]@.id;
                        assert(parts@[k]@.episode_id == store.episodes@[e as int]@.id);
                    }
                }
            }
        }
        if hit {
            episodes.push(copy_episode(&store.episodes[e]));
            proof {
                assert(views_of(episodes@) =~= episodes_with_ids(
                    store.episodes@.take(e + 1),
                    eset,
                ));
            }
        }
        e = e + 1;
    }
    proof {
        assert(store.episodes@.take(store.episodes@.len() as int) =~= store.episodes@);
    }

    Ok(SearchResults { part_ids, episodes, parts, approvals })
}

/// Assembles an episode's display: the episode, its parts in time order,
/// its speaker bindings, every speaker, and the approvals of its parts.
/// Readers only; `NotFound` exactly when the episode is missing.
pub fn get_episode_display(claims: &Claims, store: &Store, id: i64) -> (r: Result<
    EpisodeDisplay,
    Error,
>)
    requires
        store.wf(),
    ensures
        (r matches Err(Error::Unauthorized(_))) <==> claims.role < 1,
        claims.role >= 1 ==> ((r == Err::<EpisodeDisplay, Error>(Error::NotFound)) <==> !has_episode(
            store.episodes@,
            id as int,
        )),
        r is Ok <==> claims.role >= 1 && has_episode(store.episodes@, id as int),
        r is Ok ==> {
            &&& r.unwrap().episode@ == episode_at(store.episodes@, id as int)
            &&& views_of(r.unwrap().parts@) == sort_parts_spec(
                parts_with_episode(store.parts@, id as int),
            )
            &&& views_of(r.unwrap().episode_speakers@) == episode_speakers_with_episode(
                store.episode_speakers@,
                id as int,
            )
            &&& views_of(r.unwrap().speakers@) == views_of(store.speakers@)
            &&& views_of(r.unwrap().approvals@) == approvals_with_parts(
                store.approvals@,
                part_id_set(parts_with_episode(store.parts@, id as int)),
            )
        },
{
    if claims.role < 1 {
        return Err(Error::Unauthorized("Unauthorized".to_string()));
    }
    let episode = match store.get_episode(id) {
        Some(e) => e,
        None => {
            return Err(Error::NotFound);
        },
    };
    let unsorted = store.list_parts(id);
    proof {
        assert(views_of(unsorted@).len() == unsorted@.len());
        assert(forall|k: int|
            0 <= k < unsorted@.len() ==> (#[trigger] unsorted@[k])@ == views_of(unsorted@)[k]);
    }
    let mut pids: Vec<i64> = Vec::new();
    let mut i: usize = 0;
    while i < unsorted.len()
        invariant
            0 <= i <= unsorted@.len(),
            pids@.len() == i,
            forall|k: int| 0 <= k < i ==> pids@[k] == (#[trigger] unsorted@[k]).id,
        decreases unsorted@.len() - i,
    {
        pids.push(unsorted[i].id);
        i = i + 1;
    }
    proof {
        assert(forall|x: int|
            seq_id_set(pids@).contains(x) <==> #[trigger] part_id_set(
                views_of(unsorted@),
            ).contains(x)) by {
            assert forall|x: int|
                seq_id_set(pids@).contains(x) implies part_id_set(views_of(unsorted@)).contains(
                x,
            ) by {
                let k = choose|k: int| 0 <= k < pids@.len() && pids@[k] as int == x;
                assert(views_of(unsorted@)[k].id == x);
            }
            assert forall|x: int|
                part_id_set(views_of(unsorted@)).contains(x) implies seq_id_set(pids@).contains(
                x,
            ) by {
                let k = choose|k: int|
                    0 <= k < views_of(unsorted@).len() && views_of(unsorted@)[k].id == x;
                assert(pids@[k] as int == x);
            }
        }
        assert(seq_id_set(pids@) =~= part_id_set(views_of(unsorted@)));
    }
    let parts = sort_parts(&unsorted);
    let episode_speakers = store.list_episode_speakers(id);
    let speakers = store.list_speakers();

    let ghost aset = part_id_set(parts_with_episode(store.parts@, id as int));
    let mut approvals: Vec<Approval> = Vec::new();
    let mut a: usize = 0;
    while a < store.approvals.len()
        invariant
            0 <= a <= store.approvals@.len(),
            aset == part_id_set(parts_with_episode(store.parts@, id as int)),
            seq_id_set(pids@) == aset,
            views_of(approvals@) == approvals_with_parts(store.approvals@.take(a as int), aset),
        decreases store.approvals@.len() - a,
    {
        proof {
            assert(store.approvals@.take(a + 1).drop_last() =~= store.approvals@.take(a as int));
            assert(store.approvals@.take(a + 1).last() == store.approvals@[a as int]);
        }
        if contains_id64(&pids, store.approvals[a].part_id) {
            approvals.push(store.approvals[a]);
            proof {
                assert(views_of(approvals@) =~= approvals_with_parts(
                    store.approvals@.take(a + 1),
                    aset,
                ));
            }
        }
        a = a + 1;
    }
    proof {
        assert(store.approvals@.take(store.approvals@.len() as int) =~= store.approvals@);
    }

    Ok(EpisodeDisplay { episode, parts, episode_speakers, speakers, approvals })
}

/// Assembles a part's display: the part and, in time order, each of its
/// sentences with the words it owns. `NotFound` exactly when the part is
/// missing or belongs to another episode.
pub fn get_part_display(store: &Store, episode_id: i64, id: i64) -> (r: Result<PartDisplay, Error>)
    requires
        store.wf(),
    ensures
        r is Ok <==> has_part(store.parts@, id as int) && part_at(
            store.parts@,
            id as int,
        ).episode_id == episode_id as int,
        r is Err ==> r == Err::<PartDisplay, Error>(Error::NotFound),
        r is Ok ==> {
            &&& r.unwrap().part@ == part_at(store.parts@, id as int)
            &&& r.unwrap().sentences@.len() == sentences_with_part(
                store.sentences@,
                id as int,
            ).len()
            &&& forall|k: int|
                0 <= k < r.unwrap().sentences@.len() ==> (#[trigger] r.unwrap().sentences@[k]).sentence@
                    == sort_sentences_spec(sentences_with_part(store.sentences@, id as int))[k]
            &&& forall|k: int|
                0 <= k < r.unwrap().sentences@.len() ==> views_of(
                    (#[trigger] r.unwrap().sentences@[k]).words@,
                ) == words_with_sentence(
                    store.words@,
                    sort_sentences_spec(sentences_with_part(store.sentences@, id as int))[k].id,
                )
        },
{
    let part = match store.get_part(id) {
        Some(p) => p,
        None => {
            return Err(Error::NotFound);
        },
    };
    if part.episode_id != episode_id {
        return Err(Error::NotFound);
    }
    let unsorted = store.list_sentences(id);
    let sorted = sort_sentences(&unsorted);
    proof {
        assert(views_of(sorted@).len() == sorted@.len());
        assert(forall|k: int|
            0 <= k < sorted@.len() ==> (#[trigger] sorted@[k])@ == views_of(sorted@)[k]);
        assert(sort_sentences_spec(sentences_with_part(store.sentences@, id as int)).len()
            == sentences_with_part(store.sentences@, id as int).len()) by {
            lemma_sort_sentences_len(sentences_with_part(store.sentences@, id as int));
        }
    }
    let mut sentences: Vec<SentenceDisplay> = Vec::new();
    let mut i: usize = 0;
    while i < sorted.len()
        invariant
            0 <= i <= sorted@.len(),
            views_of(sorted@) == sort_sentences_spec(
                sentences_with_part(store.sentences@, id as int),
            ),
            views_of(sorted@).len() == sorted@.len(),
            forall|k: int|
                0 <= k < sorted@.len() ==> (#[trigger] sorted@[k])@ == views_of(sorted@)[k],
            sentences@.len() == i,
            forall|k: int|
                0 <= k < i ==> {
                    &&& (#[trigger] sentences@[k]).sentence@ == views_of(sorted@)[k]
                    &&& views_of(sentences@[k].words@) == words_with_sentence(
                        store.words@,
                        views_of(sorted@)[k].id,
                    )
                },
        decreases sorted@.len() - i,
    {
        let words = store.list_words(sorted[i].id);
        sentences.push(SentenceDisplay { sentence: copy_sentence(&sorted[i]), words });
        i = i + 1;
    }
    Ok(PartDisplay { part, sentences })
}

proof fn lemma_sort_sentences_len(ss: Seq<crate::model::SentenceV>)
    ensures
        sort_sentences_spec(ss).len() == ss.len(),
    decreases ss.len(),
{
    if ss.len() > 0 {
        lemma_sort_sentences_len(ss.drop_last());
        lemma_insert_sentence_len(
            ss.last(),
            sort_sentences_spec(ss.drop_last()),
        );
    }
}

proof fn lemma_insert_sentence_len(x: crate::model::SentenceV, s: Seq<crate::model::SentenceV>)
    ensures
        crate::text::insert_sentence_sorted(x, s).len() == s.len() + 1,
    decreases s.len(),
{
    if s.len() > 0 && !(x.starts_at < s[0].starts_at) {
        lemma_insert_sentence_len(x, s.drop_first());
    }
}

/// Records that an episode's audio file has been stored: sets the flag,
/// keeping every other column. Administrators only; `NotFound` exactly
/// when the episode is missing.
pub fn attach_audio_record(claims: &Claims, store: &mut Store, id: i64) -> (r: Result<
    Episode,
    Error,
>)
    requires
        old(store).wf(),
    ensures
        final(store).wf(),
        (r matches Err(Error::Unauthorized(_))) <==> claims.role < 3,
        claims.role >= 3 ==> ((r == Err::<Episode, Error>(Error::NotFound)) <==> !has_episode(
            old(store).episodes@,
            id as int,
        )),
        r is Ok <==> claims.role >= 3 && has_episode(old(store).episodes@, id as int),
        r is Err ==> *final(store) == *old(store),
        r is Ok ==> {
            &&& r.unwrap()@ == (EpisodeV {
                has_audio_file: true,
                ..episode_at(old(store).episodes@, id as int)
            })
            &&& exists|i: int|
                0 <= i < old(store).episodes@.len() && old(store).episodes@[i]@.id == id as int
                    && views_of(final(store).episodes@) == views_of(old(store).episodes@).update(
                    i,
                    r.unwrap()@,
                )
            &&& final(store).parts@ == old(store).parts@
            &&& final(store).sentences@ == old(store).sentences@
            &&& final(store).words@ == old(store).words@
            &&& final(store).speakers@ == old(store).speakers@
            &&& final(store).episode_speakers@ == old(store).episode_speakers@
            &&& final(store).approvals@ == old(store).approvals@
        },
{
    if claims.role < 3 {
        return Err(Error::Unauthorized("Unauthorized".to_string()));
    }
    let episode = match store.get_episode(id) {
        Some(e) => e,
        None => {
            return Err(Error::NotFound);
        },
    };
    let params = EpisodeParams {
        external_id: copy_opt_string(&episode.external_id),
        title: episode.title.clone(),
        link: episode.link.clone(),
        description: episode.description.clone(),
        published_at: episode.published_at,
        filename: episode.filename.clone(),
        has_audio_file: true,
    };
    match store.update_episode(id, &params) {
        Ok(e) => Ok(e),
        Err(e) => {
            proof {
                assert(false);
            }
            Err(e)
        },
    }
}

/// Checks that an episode's audio may be served: contributors only,
/// `NotFound` exactly when the episode is missing, and a rejection exactly
/// when no audio file was attached.
pub fn get_audio_check(claims: &Claims, store: &Store, id: i64) -> (r: Result<Episode, Error>)
    requires
        store.wf(),
    ensures
        (r matches Err(Error::Unauthorized(_))) <==> claims.role < 2,
        claims.role >= 2 ==> ((r == Err::<Episode, Error>(Error::NotFound)) <==> !has_episode(
            store.episodes@,
            id as int,
        )),
        (claims.role >= 2 && has_episode(store.episodes@, id as int)) ==> ((r matches Err(
            Error::BadRequest(_),
        )) <==> !episode_at(store.episodes@, id as int).has_audio_file),
        r is Ok <==> claims.role >= 2 && has_episode(store.episodes@, id as int) && episode_at(
            store.episodes@,
            id as int,
        ).has_audio_file,
        r is Ok ==> r.unwrap()@ == episode_at(store.episodes@, id as int),
{
    if claims.role < 2 {
        return Err(Error::Unauthorized("Unauthorized".to_string()));
    }
    let episode = match store.get_episode(id) {
        Some(e) => e,
        None => {
            return Err(Error::NotFound);
        },
    };
    if !episode.has_audio_file {
        return Err(Error::BadRequest("Episode has no audio file".to_string()));
    }
    Ok(episode)
}

/// Creates a part and indexes its text: the row is inserted, a document
/// with its id and text is staged, and the index is committed and
/// reloaded. Fails only on an exhausted id space or an engine error; the
/// row insert survives an indexing failure, since the store and the index
/// are separate stores with no shared transaction.
pub fn add_part_indexed(
    store: &mut Store,
    index: &mut SearchIndex,
    episode_id: i64,
    params: &crate::model::PartParams,
) -> (r: Result<Part, Error>)
    requires
        old(store).wf(),
    ensures
        final(store).wf(),
        r is Err ==> r matches Err(Error::Message(_)),
        final(store).episodes@ == old(store).episodes@,
        final(store).speakers@ == old(store).speakers@,
        final(store).episode_speakers@ == old(store).episode_speakers@,
        final(store).sentences@ == old(store).sentences@,
        final(store).words@ == old(store).words@,
        final(store).approvals@ == old(store).approvals@,
        !old(store).can_allocate(1) ==> r is Err && *final(store) == *old(store),
        old(store).can_allocate(1) ==> views_of(final(store).parts@) == views_of(
            old(store).parts@,
        ).push(crate::store::part_of_params(*params, old(store).next_id as int, episode_id as int))
            && final(store).next_id == old(store).next_id + 1,
        r is Ok ==> {
            &&& r.unwrap()@ == crate::store::part_of_params(
                *params,
                old(store).next_id as int,
                episode_id as int,
            )
            &&& views_of(final(store).parts@) == views_of(old(store).parts@).push(r.unwrap()@)
            &&& staged_docs(*final(index)) == staged_docs(*old(index)).push(
                (r.unwrap().id, r.unwrap()@.text),
            )
            &&& committed_docs(*final(index)) == staged_docs(*final(index))
            &&& visible_docs(*final(index)) == committed_docs(*final(index))
        },
{
    let part = match store.add_part(episode_id, params) {
        Ok(p) => p,
        Err(e) => {
            return Err(e);
        },
    };
    match index.add_doc(part.id, &part.text) {
        Ok(()) => {},
        Err(e) => {
            return Err(e);
        },
    }
    match index.commit() {
        Ok(()) => {},
        Err(e) => {
            return Err(e);
        },
    }
    match index.reload() {
        Ok(()) => {},
        Err(e) => {
            return Err(e);
        },
    }
    Ok(part)
}

/// Overwrites a part from the params and resynchronizes its index
/// document, as index consistency demands of every text change: the old
/// document (if any) is deleted, the new text staged under the same id,
/// and the index committed and reloaded. `NotFound` exactly when the part
/// is missing or belongs to another episode, with nothing changed; a
/// mid-way engine failure leaves the row update in place and touches no
/// other id's documents.
pub fn update_part_indexed(
    store: &mut Store,
    index: &mut SearchIndex,
    episode_id: i64,
    id: i64,
    params: &crate::model::PartParams,
) -> (r: Result<Part, Error>)
    requires
        old(store).wf(),
    ensures
        final(store).wf(),
        (r == Err::<Part, Error>(Error::NotFound)) <==> !(has_part(old(store).parts@, id as int)
            && part_at(old(store).parts@, id as int).episode_id == episode_id as int),
        r == Err::<Part, Error>(Error::NotFound) ==> {
            &&& *final(store) == *old(store)
            &&& staged_docs(*final(index)) == staged_docs(*old(index))
            &&& committed_docs(*final(index)) == committed_docs(*old(index))
            &&& visible_docs(*final(index)) == visible_docs(*old(index))
        },
        r is Err ==> ((r == Err::<Part, Error>(Error::NotFound)) || (r matches Err(
            Error::Message(_),
        ))),
        final(store).episodes@ == old(store).episodes@,
        final(store).speakers@ == old(store).speakers@,
        final(store).episode_speakers@ == old(store).episode_speakers@,
        final(store).sentences@ == old(store).sentences@,
        final(store).words@ == old(store).words@,
        final(store).approvals@ == old(store).approvals@,
        final(store).next_id == old(store).next_id,
        (has_part(old(store).parts@, id as int) && part_at(old(store).parts@, id as int).episode_id
            == episode_id as int) ==> exists|i: int|
            0 <= i < old(store).parts@.len() && old(store).parts@[i]@.id == id as int && views_of(
                final(store).parts@,
            ) == views_of(old(store).parts@).update(
                i,
                crate::store::part_of_params(*params, id as int, episode_id as int),
            ),
        r is Ok ==> {
            &&& forall|x: int|
                x != id as int ==> docs_with_id(staged_docs(*final(index)), x) == docs_with_id(
                    staged_docs(*old(index)),
                    x,
                )
            &&& r.unwrap()@ == crate::store::part_of_params(*params, id as int, episode_id as int)
            &&& exists|i: int|
                0 <= i < old(store).parts@.len() && old(store).parts@[i]@.id == id as int
                    && views_of(final(store).parts@) == views_of(old(store).parts@).update(
                    i,
                    r.unwrap()@,
                )
            &&& docs_with_id(staged_docs(*final(index)), id as int) == seq![(id, params.text@)]
            &&& committed_docs(*final(index)) == staged_docs(*final(index))
            &&& visible_docs(*final(index)) == committed_docs(*final(index))
        },
{
    let updated = match store.update_part(episode_id, id, params) {
        Ok(p) => p,
        Err(e) => {
            return Err(e);
        },
    };
    let ghost staged_pre = staged_docs(*index);
    index.delete_doc(id);
    proof {
        crate::index::lemma_docs_with_id_after_delete(staged_pre, id as int);
        assert forall|x: int| x != id as int implies docs_with_id(staged_docs(*index), x)
            == docs_with_id(staged_pre, x) by {
            crate::index::lemma_docs_with_id_delete_other(staged_pre, id as int, x);
        }
    }
    let ghost staged_mid = staged_docs(*index);
    match index.add_doc(id, &updated.text) {
        Ok(()) => {},
        Err(e) => {
            return Err(e);
        },
    }
    proof {
        crate::index::lemma_docs_with_id_push(staged_mid, (id, updated.text@), id as int);
        assert forall|x: int| x != id as int implies docs_with_id(staged_docs(*index), x)
            == docs_with_id(staged_mid, x) by {
            crate::index::lemma_docs_with_id_push(staged_mid, (id, updated.text@), x);
        }
        assert(docs_with_id(staged_docs(*index), id as int) =~= seq![(id, params.text@)]);
    }
    match index.commit() {
        Ok(()) => {},
        Err(e) => {
            return Err(e);
        },
    }
    match index.reload() {
        Ok(()) => {},
        Err(e) => {
            return Err(e);
        },
    }
    Ok(updated)
}

/// Creates an episode as the episode-creation route does: administrators
/// only, one row built from the params. `Unauthorized` exactly when the
/// role is below administrator, with nothing inserted.
pub fn add_episode_checked(claims: &Claims, store: &mut Store, params: &EpisodeParams) -> (r:
    Result<Episode, Error>)
    requires
        old(store).wf(),
    ensures
        final(store).wf(),
        (r matches Err(Error::Unauthorized(_))) <==> claims.role < 3,
        r is Ok <==> claims.role >= 3 && old(store).can_allocate(1),
        r is Err ==> *final(store) == *old(store),
        r is Ok ==> {
            &&& r.unwrap()@ == crate::store::episode_of_params(*params, old(store).next_id as int)
            &&& views_of(final(store).episodes@) == views_of(old(store).episodes@).push(
                r.unwrap()@,
            )
            &&& final(store).next_id == old(store).next_id + 1
            &&& final(store).speakers@ == old(store).speakers@
            &&& final(store).episode_speakers@ == old(store).episode_speakers@
            &&& final(store).parts@ == old(store).parts@
            &&& final(store).sentences@ == old(store).sentences@
            &&& final(store).words@ == old(store).words@
            &&& final(store).approvals@ == old(store).approvals@
        },
{
    match crate::auth::check_admin(claims) {
        Ok(()) => {},
        Err(e) => {
            return Err(e);
        },
    }
    store.add_episode(params)
}

/// Creates a speaker as the speaker-creation route does: contributors and
/// up, one row built from the params. `Unauthorized` exactly when the role
/// is below contributor, with nothing inserted.
pub fn add_speaker_checked(
    claims: &Claims,
    store: &mut Store,
    params: &crate::model::SpeakerParams,
) -> (r: Result<crate::model::Speaker, Error>)
    requires
        old(store).wf(),
    ensures
        final(store).wf(),
        (r matches Err(Error::Unauthorized(_))) <==> claims.role < 2,
        r is Ok <==> claims.role >= 2 && old(store).can_allocate(1),
        r is Err ==> *final(store) == *old(store),
        r is Ok ==> {
            &&& r.unwrap()@ == crate::store::speaker_of_params(*params, old(store).next_id as int)
            &&& views_of(final(store).speakers@) == views_of(old(store).speakers@).push(
                r.unwrap()@,
            )
            &&& final(store).next_id == old(store).next_id + 1
            &&& final(store).episodes@ == old(store).episodes@
            &&& final(store).episode_speakers@ == old(store).episode_speakers@
            &&& final(store).parts@ == old(store).parts@
            &&& final(store).sentences@ == old(store).sentences@
            &&& final(store).words@ == old(store).words@
            &&& final(store).approvals@ == old(store).approvals@
        },
{
    match crate::auth::check_contributor(claims) {
        Ok(()) => {},
        Err(e) => {
            return Err(e);
        },
    }
    store.add_speaker(params)
}

} // verus!
