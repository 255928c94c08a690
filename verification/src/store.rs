//! The relational store: one growable table per entity, with a single
//! monotone id counter. Rows are plain values; every operation states
//! exactly which rows it touches.
//!
//! Well-formedness ([`Store::wf`]) pins the id discipline: every row id is
//! positive, below the next free id, and unique within its table.

use vstd::prelude::*;

use crate::Error;
use crate::model::{
    Approval, ApprovalV, Episode, EpisodeSpeakerV, EpisodeParams, EpisodeSpeaker, EpisodeSpeakerParams, EpisodeV, Part,
    PartParams, PartV, Sentence, SentenceParams, SentenceV, Speaker, SpeakerParams, SpeakerV, Word,
    WordParams, WordV, copy_episode, copy_opt_string, copy_part, copy_sentence, copy_speaker,
    copy_word, opt_str_view, views_of,
};

verus! {

/// The whole relational state.
pub struct Store {
    pub episodes: Vec<Episode>,
    pub speakers: Vec<Speaker>,
    pub episode_speakers: Vec<EpisodeSpeaker>,
    pub parts: Vec<Part>,
    pub sentences: Vec<Sentence>,
    pub words: Vec<Word>,
    pub approvals: Vec<Approval>,
    /// The next id to hand out; ids are shared across tables.
    pub next_id: i64,
}

pub open spec fn has_episode(s: Seq<Episode>, id: int) -> bool {
    exists|i: int| 0 <= i < s.len() && s[i]@.id == id
}

pub open spec fn episode_at(s: Seq<Episode>, id: int) -> EpisodeV {
    s[choose|i: int| 0 <= i < s.len() && s[i]@.id == id]@
}

pub open spec fn has_speaker(s: Seq<Speaker>, id: int) -> bool {
    exists|i: int| 0 <= i < s.len() && s[i]@.id == id
}

pub open spec fn speaker_at(s: Seq<Speaker>, id: int) -> SpeakerV {
    s[choose|i: int| 0 <= i < s.len() && s[i]@.id == id]@
}

pub open spec fn has_episode_speaker(s: Seq<EpisodeSpeaker>, id: int) -> bool {
    exists|i: int| 0 <= i < s.len() && s[i]@.id == id
}

pub open spec fn episode_speaker_at(s: Seq<EpisodeSpeaker>, id: int) -> crate::model::EpisodeSpeakerV {
    s[choose|i: int| 0 <= i < s.len() && s[i]@.id == id]@
}

pub open spec fn has_part(s: Seq<Part>, id: int) -> bool {
    exists|i: int| 0 <= i < s.len() && s[i]@.id == id
}

pub open spec fn part_at(s: Seq<Part>, id: int) -> PartV {
    s[choose|i: int| 0 <= i < s.len() && s[i]@.id == id]@
}

pub open spec fn has_sentence(s: Seq<Sentence>, id: int) -> bool {
    exists|i: int| 0 <= i < s.len() && s[i]@.id == id
}

pub open spec fn sentence_at(s: Seq<Sentence>, id: int) -> SentenceV {
    s[choose|i: int| 0 <= i < s.len() && s[i]@.id == id]@
}

pub open spec fn has_word(s: Seq<Word>, id: int) -> bool {
    exists|i: int| 0 <= i < s.len() && s[i]@.id == id
}

pub open spec fn word_at(s: Seq<Word>, id: int) -> WordV {
    s[choose|i: int| 0 <= i < s.len() && s[i]@.id == id]@
}

/// The episode row a set of params describes, under a given id.
pub open spec fn episode_of_params(p: EpisodeParams, id: int) -> EpisodeV {
    EpisodeV {
        id: id,
        external_id: opt_str_view(p.external_id),
        title: p.title@,
        link: p.link@,
        description: p.description@,
        published_at: crate::model::opt_i64_view(p.published_at),
        filename: p.filename@,
        has_audio_file: p.has_audio_file,
    }
}

/// The speaker row a set of params describes, under a given id.
pub open spec fn speaker_of_params(p: SpeakerParams, id: int) -> SpeakerV {
    SpeakerV { id: id, name: p.name@, description: opt_str_view(p.description) }
}

/// The part row a set of params describes, under a given id and episode.
pub open spec fn part_of_params(p: PartParams, id: int, episode_id: int) -> PartV {
    PartV {
        id: id,
        episode_id: episode_id,
        episode_speaker_id: p.episode_speaker_id as int,
        text: p.text@,
        part_type: p.part_type as int,
        starts_at: p.starts_at as int,
        ends_at: p.ends_at as int,
    }
}

/// The sentence row a set of params describes, under a given id and part.
pub open spec fn sentence_of_params(p: SentenceParams, id: int, part_id: int) -> SentenceV {
    SentenceV {
        id: id,
        part_id: part_id,
        text: p.text@,
        starts_at: p.starts_at as int,
        ends_at: p.ends_at as int,
        words_per_second: p.words_per_second as int,
    }
}

/// The word row a set of params describes, under a given id and sentence.
pub open spec fn word_of_params(p: WordParams, id: int, sentence_id: int) -> WordV {
    WordV {
        id: id,
        sentence_id: sentence_id,
        text: p.text@,
        overwrite: p.overwrite@,
        starts_at: p.starts_at as int,
        ends_at: p.ends_at as int,
        probability: p.probability as int,
        hidden: p.hidden,
    }
}

pub proof fn lemma_unique_episode(s: Seq<Episode>, i: int, id: int)
    requires
        forall|a: int, b: int| 0 <= a < b < s.len() ==> #[trigger] s[a]@.id != #[trigger] s[b]@.id,
        0 <= i < s.len(),
        s[i]@.id == id,
    ensures
        has_episode(s, id),
        episode_at(s, id) == s[i]@,
{
    assert(has_episode(s, id));
    let j = choose|k: int| 0 <= k < s.len() && s[k]@.id == id;
    if j < i {
        assert(s[j]@.id != s[i]@.id);
    } else if i < j {
        assert(s[i]@.id != s[j]@.id);
    }
}

pub proof fn lemma_unique_speaker(s: Seq<Speaker>, i: int, id: int)
    requires
        forall|a: int, b: int| 0 <= a < b < s.len() ==> #[trigger] s[a]@.id != #[trigger] s[b]@.id,
        0 <= i < s.len(),
        s[i]@.id == id,
    ensures
        has_speaker(s, id),
        speaker_at(s, id) == s[i]@,
{
    assert(has_speaker(s, id));
    let j = choose|k: int| 0 <= k < s.len() && s[k]@.id == id;
    if j < i {
        assert(s[j]@.id != s[i]@.id);
    } else if i < j {
        assert(s[i]@.id != s[j]@.id);
    }
}

pub proof fn lemma_unique_episode_speaker(s: Seq<EpisodeSpeaker>, i: int, id: int)
    requires
        forall|a: int, b: int| 0 <= a < b < s.len() ==> #[trigger] s[a]@.id != #[trigger] s[b]@.id,
        0 <= i < s.len(),
        s[i]@.id == id,
    ensures
        has_episode_speaker(s, id),
        episode_speaker_at(s, id) == s[i]@,
{
    assert(has_episode_speaker(s, id));
    let j = choose|k: int| 0 <= k < s.len() && s[k]@.id == id;
    if j < i {
        assert(s[j]@.id != s[i]@.id);
    } else if i < j {
        assert(s[i]@.id != s[j]@.id);
    }
}

pub proof fn lemma_unique_part(s: Seq<Part>, i: int, id: int)
    requires
        forall|a: int, b: int| 0 <= a < b < s.len() ==> #[trigger] s[a]@.id != #[trigger] s[b]@.id,
        0 <= i < s.len(),
        s[i]@.id == id,
    ensures
        has_part(s, id),
        part_at(s, id) == s[i]@,
{
    assert(has_part(s, id));
    let j = choose|k: int| 0 <= k < s.len() && s[k]@.id == id;
    if j < i {
        assert(s[j]@.id != s[i]@.id);
    } else if i < j {
        assert(s[i]@.id != s[j]@.id);
    }
}

pub proof fn lemma_unique_sentence(s: Seq<Sentence>, i: int, id: int)
    requires
        forall|a: int, b: int| 0 <= a < b < s.len() ==> #[trigger] s[a]@.id != #[trigger] s[b]@.id,
        0 <= i < s.len(),
        s[i]@.id == id,
    ensures
        has_sentence(s, id),
        sentence_at(s, id) == s[i]@,
{
    assert(has_sentence(s, id));
    let j = choose|k: int| 0 <= k < s.len() && s[k]@.id == id;
    if j < i {
        assert(s[j]@.id != s[i]@.id);
    } else if i < j {
        assert(s[i]@.id != s[j]@.id);
    }
}

pub proof fn lemma_unique_word(s: Seq<Word>, i: int, id: int)
    requires
        forall|a: int, b: int| 0 <= a < b < s.len() ==> #[trigger] s[a]@.id != #[trigger] s[b]@.id,
        0 <= i < s.len(),
        s[i]@.id == id,
    ensures
        has_word(s, id),
        word_at(s, id) == s[i]@,
{
    assert(has_word(s, id));
    let j = choose|k: int| 0 <= k < s.len() && s[k]@.id == id;
    if j < i {
        assert(s[j]@.id != s[i]@.id);
    } else if i < j {
        assert(s[i]@.id != s[j]@.id);
    }
}

impl Store {
    /// Id discipline: positive ids below the counter, unique per table.
    pub open spec fn wf(self) -> bool {
        &&& 1 <= self.next_id <= i64::MAX
        &&& forall|i: int|
            0 <= i < self.episodes@.len() ==> 1 <= #[trigger] self.episodes@[i]@.id
                < self.next_id
        &&& forall|i: int, j: int|
            0 <= i < j < self.episodes@.len() ==> #[trigger] self.episodes@[i]@.id
                != #[trigger] self.episodes@[j]@.id
        &&& forall|i: int|
            0 <= i < self.speakers@.len() ==> 1 <= #[trigger] self.speakers@[i]@.id < self.next_id
        &&& forall|i: int, j: int|
            0 <= i < j < self.speakers@.len() ==> #[trigger] self.speakers@[i]@.id
                != #[trigger] self.speakers@[j]@.id
        &&& forall|i: int|
            0 <= i < self.episode_speakers@.len() ==> 1
                <= #[trigger] self.episode_speakers@[i]@.id < self.next_id
        &&& forall|i: int, j: int|
            0 <= i < j < self.episode_speakers@.len() ==> #[trigger] self.episode_speakers@[i]@.id
                != #[trigger] self.episode_speakers@[j]@.id
        &&& forall|i: int|
            0 <= i < self.parts@.len() ==> 1 <= #[trigger] self.parts@[i]@.id < self.next_id
        &&& forall|i: int, j: int|
            0 <= i < j < self.parts@.len() ==> #[trigger] self.parts@[i]@.id
                != #[trigger] self.parts@[j]@.id
        &&& forall|i: int|
            0 <= i < self.sentences@.len() ==> 1 <= #[trigger] self.sentences@[i]@.id
                < self.next_id
        &&& forall|i: int, j: int|
            0 <= i < j < self.sentences@.len() ==> #[trigger] self.sentences@[i]@.id
                != #[trigger] self.sentences@[j]@.id
        &&& forall|i: int|
            0 <= i < self.words@.len() ==> 1 <= #[trigger] self.words@[i]@.id < self.next_id
        &&& forall|i: int, j: int|
            0 <= i < j < self.words@.len() ==> #[trigger] self.words@[i]@.id
                != #[trigger] self.words@[j]@.id
        &&& forall|i: int|
            0 <= i < self.approvals@.len() ==> 1 <= #[trigger] self.approvals@[i]@.id
                < self.next_id
        &&& forall|i: int, j: int|
            0 <= i < j < self.approvals@.len() ==> #[trigger] self.approvals@[i]@.id
                != #[trigger] self.approvals@[j]@.id
    }

    /// A fresh store with no rows.
    pub fn new() -> (r: Store)
        ensures
            r.wf(),
            r.episodes@.len() == 0,
            r.speakers@.len() == 0,
            r.episode_speakers@.len() == 0,
            r.parts@.len() == 0,
            r.sentences@.len() == 0,
            r.words@.len() == 0,
            r.approvals@.len() == 0,
            r.next_id == 1,
    {
        Store {
            episodes: Vec::new(),
            speakers: Vec::new(),
            episode_speakers: Vec::new(),
            parts: Vec::new(),
            sentences: Vec::new(),
            words: Vec::new(),
            approvals: Vec::new(),
            next_id: 1,
        }
    }

    /// Whether one more id can be handed out.
    pub open spec fn can_allocate(self, k: int) -> bool {
        self.next_id + k <= i64::MAX
    }

    /// All episodes, as copies.
    pub fn list_episodes(&self) -> (r: Vec<Episode>)
        ensures
            views_of(r@) == views_of(self.episodes@),
    {
        let mut r: Vec<Episode> = Vec::new();
        let mut i: usize = 0;
        while i < self.episodes.len()
            invariant
                0 <= i <= self.episodes@.len(),
                r@.len() == i,
                forall|k: int| 0 <= k < i ==> #[trigger] r@[k]@ == self.episodes@[k]@,
            decreases self.episodes@.len() - i,
        {
            r.push(copy_episode(&self.episodes[i]));
            i = i + 1;
        }
        proof {
            assert(views_of(r@) =~= views_of(self.episodes@));
        }
        r
    }

    /// The episode with the given id, if any.
    pub fn get_episode(&self, id: i64) -> (r: Option<Episode>)
        requires
            self.wf(),
        ensures
            r is Some <==> has_episode(self.episodes@, id as int),
            r is Some ==> r.unwrap()@ == episode_at(self.episodes@, id as int)
                && r.unwrap()@.id == id as int,
    {
        let mut i: usize = 0;
        while i < self.episodes.len()
            invariant
                self.wf(),
                0 <= i <= self.episodes@.len(),
                forall|k: int| 0 <= k < i ==> #[trigger] self.episodes@[k]@.id != id as int,
            decreases self.episodes@.len() - i,
        {
            if self.episodes[i].id == id {
                proof {
                    lemma_unique_episode(self.episodes@, i as int, id as int);
                }
                return Some(copy_episode(&self.episodes[i]));
            }
            i = i + 1;
        }
        None
    }

    /// Inserts a new episode built from the params; fails only when the id
    /// space is exhausted.
    pub fn add_episode(&mut self, params: &EpisodeParams) -> (r: Result<Episode, Error>)
        requires
            old(self).wf(),
        ensures
            final(self).wf(),
            r is Ok <==> old(self).can_allocate(1),
            r is Err ==> (r matches Err(Error::Message(_))) && *final(self) == *old(self),
            r is Ok ==> {
                &&& r.unwrap()@ == episode_of_params(*params, old(self).next_id as int)
                &&& views_of(final(self).episodes@) == views_of(old(self).episodes@).push(r.unwrap()@)
                &&& final(self).next_id == old(self).next_id + 1
                &&& final(self).speakers@ == old(self).speakers@
                &&& final(self).episode_speakers@ == old(self).episode_speakers@
                &&& final(self).parts@ == old(self).parts@
                &&& final(self).sentences@ == old(self).sentences@
                &&& final(self).words@ == old(self).words@
                &&& final(self).approvals@ == old(self).approvals@
            },
    {
        if self.next_id == i64::MAX {
            return Err(Error::Message("id space exhausted".to_string()));
        }
        let id = self.next_id;
        self.next_id = self.next_id + 1;
        let row = Episode {
            id: id,
            external_id: copy_opt_string(&params.external_id),
            title: params.title.clone(),
            link: params.link.clone(),
            description: params.description.clone(),
            published_at: params.published_at,
            filename: params.filename.clone(),
            has_audio_file: params.has_audio_file,
        };
        let out = copy_episode(&row);
        self.episodes.push(row);
        proof {
            assert(views_of(self.episodes@) =~= views_of(old(self).episodes@).push(out@));
        }
        Ok(out)
    }

    /// Overwrites the episode with the given id from the params; `NotFound`
    /// exactly when no such row exists.
    pub fn update_episode(&mut self, id: i64, params: &EpisodeParams) -> (r: Result<
        Episode,
        Error,
    >)
        requires
            old(self).wf(),
        ensures
            final(self).wf(),
            r is Ok <==> has_episode(old(self).episodes@, id as int),
            r is Err ==> r == Err::<Episode, Error>(Error::NotFound) && *final(self) == *old(self),
            r is Ok ==> {
                &&& r.unwrap()@ == episode_of_params(*params, id as int)
                &&& exists|i: int|
                    0 <= i < old(self).episodes@.len() && old(self).episodes@[i]@.id == id as int
                        && views_of(final(self).episodes@) == views_of(old(self).episodes@).update(
                        i,
                        r.unwrap()@,
                    )
                &&& final(self).next_id == old(self).next_id
                &&& final(self).speakers@ == old(self).speakers@
                &&& final(self).episode_speakers@ == old(self).episode_speakers@
                &&& final(self).parts@ == old(self).parts@
                &&& final(self).sentences@ == old(self).sentences@
                &&& final(self).words@ == old(self).words@
                &&& final(self).approvals@ == old(self).approvals@
            },
    {
        let mut i: usize = 0;
        while i < self.episodes.len()
            invariant
                self.wf(),
                *self == *old(self),
                0 <= i <= self.episodes@.len(),
                forall|k: int| 0 <= k < i ==> #[trigger] self.episodes@[k]@.id != id as int,
            decreases self.episodes@.len() - i,
        {
            if self.episodes[i].id == id {
                let row = Episode {
                    id: id,
                    external_id: copy_opt_string(&params.external_id),
                    title: params.title.clone(),
                    link: params.link.clone(),
                    description: params.description.clone(),
                    published_at: params.published_at,
                    filename: params.filename.clone(),
                    has_audio_file: params.has_audio_file,
                };
                let out = copy_episode(&row);
                self.episodes.set(i, row);
                proof {
                    assert(forall|k: int|
                        0 <= k < self.episodes@.len() && k != i as int
                            ==> self.episodes@[k] == old(self).episodes@[k]);
                    assert(self.episodes@[i as int]@.id == old(self).episodes@[i as int]@.id);
                    assert(views_of(self.episodes@) =~= views_of(old(self).episodes@).update(
                        i as int,
                        out@,
                    ));
                }
                return Ok(out);
            }
            i = i + 1;
        }
        Err(Error::NotFound)
    }

    /// All speakers, as copies.
    pub fn list_speakers(&self) -> (r: Vec<Speaker>)
        ensures
            views_of(r@) == views_of(self.speakers@),
    {
        let mut r: Vec<Speaker> = Vec::new();
        let mut i: usize = 0;
        while i < self.speakers.len()
            invariant
                0 <= i <= self.speakers@.len(),
                r@.len() == i,
                forall|k: int| 0 <= k < i ==> #[trigger] r@[k]@ == self.speakers@[k]@,
            decreases self.speakers@.len() - i,
        {
            r.push(copy_speaker(&self.speakers[i]));
            i = i + 1;
        }
        proof {
            assert(views_of(r@) =~= views_of(self.speakers@));
        }
        r
    }

    /// The speaker with the given id, if any.
    pub fn get_speaker(&self, id: i64) -> (r: Option<Speaker>)
        requires
            self.wf(),
        ensures
            r is Some <==> has_speaker(self.speakers@, id as int),
            r is Some ==> r.unwrap()@ == speaker_at(self.speakers@, id as int)
                && r.unwrap()@.id == id as int,
    {
        let mut i: usize = 0;
        while i < self.speakers.len()
            invariant
                self.wf(),
                0 <= i <= self.speakers@.len(),
                forall|k: int| 0 <= k < i ==> #[trigger] self.speakers@[k]@.id != id as int,
            decreases self.speakers@.len() - i,
        {
            if self.speakers[i].id == id {
                proof {
                    lemma_unique_speaker(self.speakers@, i as int, id as int);
                }
                return Some(copy_speaker(&self.speakers[i]));
            }
            i = i + 1;
        }
        None
    }

    /// Inserts a new speaker built from the params; fails only when the id
    /// space is exhausted.
    pub fn add_speaker(&mut self, params: &SpeakerParams) -> (r: Result<Speaker, Error>)
        requires
            old(self).wf(),
        ensures
            final(self).wf(),
            r is Ok <==> old(self).can_allocate(1),
            r is Err ==> (r matches Err(Error::Message(_))) && *final(self) == *old(self),
            r is Ok ==> {
                &&& r.unwrap()@ == speaker_of_params(*params, old(self).next_id as int)
                &&& views_of(final(self).speakers@) == views_of(old(self).speakers@).push(r.unwrap()@)
                &&& final(self).next_id == old(self).next_id + 1
                &&& final(self).episodes@ == old(self).episodes@
                &&& final(self).episode_speakers@ == old(self).episode_speakers@
                &&& final(self).parts@ == old(self).parts@
                &&& final(self).sentences@ == old(self).sentences@
                &&& final(self).words@ == old(self).words@
                &&& final(self).approvals@ == old(self).approvals@
            },
    {
        if self.next_id == i64::MAX {
            return Err(Error::Message("id space exhausted".to_string()));
        }
        let id = self.next_id;
        self.next_id = self.next_id + 1;
        let row = Speaker {
            id: id,
            name: params.name.clone(),
            description: copy_opt_string(&params.description),
        };
        let out = copy_speaker(&row);
        self.speakers.push(row);
        proof {
            assert(views_of(self.speakers@) =~= views_of(old(self).speakers@).push(out@));
        }
        Ok(out)
    }

    /// Overwrites the speaker with the given id from the params; `NotFound`
    /// exactly when no such row exists.
    pub fn update_speaker(&mut self, id: i64, params: &SpeakerParams) -> (r: Result<
        Speaker,
        Error,
    >)
        requires
            old(self).wf(),
        ensures
            final(self).wf(),
            r is Ok <==> has_speaker(old(self).speakers@, id as int),
            r is Err ==> r == Err::<Speaker, Error>(Error::NotFound) && *final(self) == *old(self),
            r is Ok ==> {
                &&& r.unwrap()@ == speaker_of_params(*params, id as int)
                &&& exists|i: int|
                    0 <= i < old(self).speakers@.len() && old(self).speakers@[i]@.id == id as int
                        && views_of(final(self).speakers@) == views_of(old(self).speakers@).update(
                        i,
                        r.unwrap()@,
                    )
                &&& final(self).next_id == old(self).next_id
                &&& final(self).episodes@ == old(self).episodes@
                &&& final(self).episode_speakers@ == old(self).episode_speakers@
                &&& final(self).parts@ == old(self).parts@
                &&& final(self).sentences@ == old(self).sentences@
                &&& final(self).words@ == old(self).words@
                &&& final(self).approvals@ == old(self).approvals@
            },
    {
        let mut i: usize = 0;
        while i < self.speakers.len()
            invariant
                self.wf(),
                *self == *old(self),
                0 <= i <= self.speakers@.len(),
                forall|k: int| 0 <= k < i ==> #[trigger] self.speakers@[k]@.id != id as int,
            decreases self.speakers@.len() - i,
        {
            if self.speakers[i].id == id {
                let row = Speaker {
                    id: id,
                    name: params.name.clone(),
                    description: copy_opt_string(&params.description),
                };
                let out = copy_speaker(&row);
                self.speakers.set(i, row);
                proof {
                    assert(forall|k: int|
                        0 <= k < self.speakers@.len() && k != i as int
                            ==> self.speakers@[k] == old(self).speakers@[k]);
                    assert(self.speakers@[i as int]@.id == old(self).speakers@[i as int]@.id);
                    assert(views_of(self.speakers@) =~= views_of(old(self).speakers@).update(
                        i as int,
                        out@,
                    ));
                }
                return Ok(out);
            }
            i = i + 1;
        }
        Err(Error::NotFound)
    }
}

/// The join rows of one episode, as mathematical values, in stored order.
pub open spec fn episode_speakers_with_episode(s: Seq<EpisodeSpeaker>, episode_id: int) -> Seq<
    crate::model::EpisodeSpeakerV,
>
    decreases s.len(),
{
    if s.len() == 0 {
        Seq::empty()
    } else if s.last()@.episode_id == episode_id {
        episode_speakers_with_episode(s.drop_last(), episode_id).push(s.last()@)
    } else {
        episode_speakers_with_episode(s.drop_last(), episode_id)
    }
}

/// The parts of one episode, as mathematical values, in stored order.
pub open spec fn parts_with_episode(s: Seq<Part>, episode_id: int) -> Seq<PartV>
    decreases s.len(),
{
    if s.len() == 0 {
        Seq::empty()
    } else if s.last()@.episode_id == episode_id {
        parts_with_episode(s.drop_last(), episode_id).push(s.last()@)
    } else {
        parts_with_episode(s.drop_last(), episode_id)
    }
}

/// The sentences of one part, as mathematical values, in stored order.
pub open spec fn sentences_with_part(s: Seq<Sentence>, part_id: int) -> Seq<SentenceV>
    decreases s.len(),
{
    if s.len() == 0 {
        Seq::empty()
    } else if s.last()@.part_id == part_id {
        sentences_with_part(s.drop_last(), part_id).push(s.last()@)
    } else {
        sentences_with_part(s.drop_last(), part_id)
    }
}

/// The words of one sentence, as mathematical values, in stored order.
pub open spec fn words_with_sentence(s: Seq<Word>, sentence_id: int) -> Seq<WordV>
    decreases s.len(),
{
    if s.len() == 0 {
        Seq::empty()
    } else if s.last()@.sentence_id == sentence_id {
        words_with_sentence(s.drop_last(), sentence_id).push(s.last()@)
    } else {
        words_with_sentence(s.drop_last(), sentence_id)
    }
}

impl Store {
    /// The join rows of one episode, as copies.
    pub fn list_episode_speakers(&self, episode_id: i64) -> (r: Vec<EpisodeSpeaker>)
        ensures
            views_of(r@) == episode_speakers_with_episode(self.episode_speakers@, episode_id as int),
    {
        let ghost rows = self.episode_speakers@;
        let mut r: Vec<EpisodeSpeaker> = Vec::new();
        let mut i: usize = 0;
        while i < self.episode_speakers.len()
            invariant
                0 <= i <= rows.len(),
                rows == self.episode_speakers@,
                views_of(r@) == episode_speakers_with_episode(rows.take(i as int), episode_id as int),
            decreases rows.len() - i,
        {
            proof {
                assert(rows.take(i + 1).drop_last() =~= rows.take(i as int));
                assert(rows.take(i + 1).last() == rows[i as int]);
            }
            if self.episode_speakers[i].episode_id == episode_id {
                r.push(self.episode_speakers[i]);
                proof {
                    assert(views_of(r@) =~= episode_speakers_with_episode(
                        rows.take(i + 1),
                        episode_id as int,
                    ));
                }
            }
            i = i + 1;
        }
        proof {
            assert(rows.take(rows.len() as int) =~= rows);
        }
        r
    }

    /// The join row with the given id, if any.
    pub fn get_episode_speaker(&self, id: i64) -> (r: Option<EpisodeSpeaker>)
        requires
            self.wf(),
        ensures
            r is Some <==> has_episode_speaker(self.episode_speakers@, id as int),
            r is Some ==> r.unwrap()@ == episode_speaker_at(self.episode_speakers@, id as int)
                && r.unwrap()@.id == id as int,
    {
        let mut i: usize = 0;
        while i < self.episode_speakers.len()
            invariant
                self.wf(),
                0 <= i <= self.episode_speakers@.len(),
                forall|k: int| 0 <= k < i ==> #[trigger] self.episode_speakers@[k]@.id != id as int,
            decreases self.episode_speakers@.len() - i,
        {
            if self.episode_speakers[i].id == id {
                proof {
                    lemma_unique_episode_speaker(self.episode_speakers@, i as int, id as int);
                }
                return Some(self.episode_speakers[i]);
            }
            i = i + 1;
        }
        None
    }

    /// Inserts a new episode-speaker join row; fails only when the id space
    /// is exhausted.
    pub fn add_episode_speaker(&mut self, episode_id: i64, params: &EpisodeSpeakerParams) -> (r:
        Result<EpisodeSpeaker, Error>)
        requires
            old(self).wf(),
        ensures
            final(self).wf(),
            r is Ok <==> old(self).can_allocate(1),
            r is Err ==> (r matches Err(Error::Message(_))) && *final(self) == *old(self),
            r is Ok ==> {
                &&& r.unwrap()@.id == old(self).next_id as int
                &&& r.unwrap()@.episode_id == episode_id as int
                &&& r.unwrap()@.speaker_id == params.speaker_id as int
                &&& views_of(final(self).episode_speakers@) == views_of(
                    old(self).episode_speakers@,
                ).push(r.unwrap()@)
                &&& final(self).next_id == old(self).next_id + 1
                &&& final(self).episodes@ == old(self).episodes@
                &&& final(self).speakers@ == old(self).speakers@
                &&& final(self).parts@ == old(self).parts@
                &&& final(self).sentences@ == old(self).sentences@
                &&& final(self).words@ == old(self).words@
                &&& final(self).approvals@ == old(self).approvals@
            },
    {
        if self.next_id == i64::MAX {
            return Err(Error::Message("id space exhausted".to_string()));
        }
        let id = self.next_id;
        self.next_id = self.next_id + 1;
        let row = EpisodeSpeaker { id: id, episode_id: episode_id, speaker_id: params.speaker_id };
        self.episode_speakers.push(row);
        proof {
            assert(views_of(self.episode_speakers@) =~= views_of(old(self).episode_speakers@).push(
                row@,
            ));
        }
        Ok(row)
    }

    /// Overwrites the speaker reference of the join row with the given id;
    /// `NotFound` exactly when the row is missing or belongs to another
    /// episode.
    pub fn update_episode_speaker(
        &mut self,
        episode_id: i64,
        id: i64,
        params: &EpisodeSpeakerParams,
    ) -> (r: Result<EpisodeSpeaker, Error>)
        requires
            old(self).wf(),
        ensures
            final(self).wf(),
            r is Ok <==> has_episode_speaker(old(self).episode_speakers@, id as int)
                && episode_speaker_at(old(self).episode_speakers@, id as int).episode_id
                == episode_id as int,
            r is Err ==> r == Err::<EpisodeSpeaker, Error>(Error::NotFound) && *final(self) == *old(
                self,
            ),
            r is Ok ==> {
                &&& r.unwrap()@.id == id as int
                &&& r.unwrap()@.episode_id == episode_id as int
                &&& r.unwrap()@.speaker_id == params.speaker_id as int
                &&& exists|i: int|
                    0 <= i < old(self).episode_speakers@.len() && old(
                        self,
                    ).episode_speakers@[i]@.id == id as int && views_of(
                        final(self).episode_speakers@,
                    ) == views_of(old(self).episode_speakers@).update(i, r.unwrap()@)
                &&& final(self).next_id == old(self).next_id
                &&& final(self).episodes@ == old(self).episodes@
                &&& final(self).speakers@ == old(self).speakers@
                &&& final(self).parts@ == old(self).parts@
                &&& final(self).sentences@ == old(self).sentences@
                &&& final(self).words@ == old(self).words@
                &&& final(self).approvals@ == old(self).approvals@
            },
    {
        let mut i: usize = 0;
        while i < self.episode_speakers.len()
            invariant
                self.wf(),
                *self == *old(self),
                0 <= i <= self.episode_speakers@.len(),
                forall|k: int| 0 <= k < i ==> #[trigger] self.episode_speakers@[k]@.id != id as int,
            decreases self.episode_speakers@.len() - i,
        {
            if self.episode_speakers[i].id == id {
                proof {
                    lemma_unique_episode_speaker(self.episode_speakers@, i as int, id as int);
                }
                if self.episode_speakers[i].episode_id != episode_id {
                    return Err(Error::NotFound);
                }
                let row = EpisodeSpeaker {
                    id: id,
                    episode_id: episode_id,
                    speaker_id: params.speaker_id,
                };
                self.episode_speakers.set(i, row);
                proof {
                    assert(forall|k: int|
                        0 <= k < self.episode_speakers@.len() && k != i as int
                            ==> self.episode_speakers@[k] == old(self).episode_speakers@[k]);
                    assert(self.episode_speakers@[i as int]@.id == old(
                        self,
                    ).episode_speakers@[i as int]@.id);
                    assert(views_of(self.episode_speakers@) =~= views_of(
                        old(self).episode_speakers@,
                    ).update(i as int, row@));
                }
                return Ok(row);
            }
            i = i + 1;
        }
        Err(Error::NotFound)
    }

    /// The parts of one episode, as copies.
    pub fn list_parts(&self, episode_id: i64) -> (r: Vec<Part>)
        ensures
            views_of(r@) == parts_with_episode(self.parts@, episode_id as int),
    {
        let ghost rows = self.parts@;
        let mut r: Vec<Part> = Vec::new();
        let mut i: usize = 0;
        while i < self.parts.len()
            invariant
                0 <= i <= rows.len(),
                rows == self.parts@,
                views_of(r@) == parts_with_episode(rows.take(i as int), episode_id as int),
            decreases rows.len() - i,
        {
            proof {
                assert(rows.take(i + 1).drop_last() =~= rows.take(i as int));
                assert(rows.take(i + 1).last() == rows[i as int]);
            }
            if self.parts[i].episode_id == episode_id {
                r.push(copy_part(&self.parts[i]));
                proof {
                    assert(views_of(r@) =~= parts_with_episode(rows.take(i + 1), episode_id as int));
                }
            }
            i = i + 1;
        }
        proof {
            assert(rows.take(rows.len() as int) =~= rows);
        }
        r
    }

    /// The part with the given id, if any.
    pub fn get_part(&self, id: i64) -> (r: Option<Part>)
        requires
            self.wf(),
        ensures
            r is Some <==> has_part(self.parts@, id as int),
            r is Some ==> r.unwrap()@ == part_at(self.parts@, id as int) && r.unwrap()@.id
                == id as int,
    {
        let mut i: usize = 0;
        while i < self.parts.len()
            invariant
                self.wf(),
                0 <= i <= self.parts@.len(),
                forall|k: int| 0 <= k < i ==> #[trigger] self.parts@[k]@.id != id as int,
            decreases self.parts@.len() - i,
        {
            if self.parts[i].id == id {
                proof {
                    lemma_unique_part(self.parts@, i as int, id as int);
                }
                return Some(copy_part(&self.parts[i]));
            }
            i = i + 1;
        }
        None
    }

    /// Inserts a new part built from the params; fails only when the id
    /// space is exhausted.
    pub fn add_part(&mut self, episode_id: i64, params: &PartParams) -> (r: Result<Part, Error>)
        requires
            old(self).wf(),
        ensures
            final(self).wf(),
            r is Ok <==> old(self).can_allocate(1),
            r is Err ==> (r matches Err(Error::Message(_))) && *final(self) == *old(self),
            r is Ok ==> {
                &&& r.unwrap()@ == part_of_params(*params, old(self).next_id as int, episode_id as int)
                &&& views_of(final(self).parts@) == views_of(old(self).parts@).push(r.unwrap()@)
                &&& final(self).next_id == old(self).next_id + 1
                &&& final(self).episodes@ == old(self).episodes@
                &&& final(self).speakers@ == old(self).speakers@
                &&& final(self).episode_speakers@ == old(self).episode_speakers@
                &&& final(self).sentences@ == old(self).sentences@
                &&& final(self).words@ == old(self).words@
                &&& final(self).approvals@ == old(self).approvals@
            },
    {
        if self.next_id == i64::MAX {
            return Err(Error::Message("id space exhausted".to_string()));
        }
        let id = self.next_id;
        self.next_id = self.next_id + 1;
        let row = Part {
            id: id,
            episode_id: episode_id,
            episode_speaker_id: params.episode_speaker_id,
            text: params.text.clone(),
            part_type: params.part_type,
            starts_at: params.starts_at,
            ends_at: params.ends_at,
        };
        let out = copy_part(&row);
        self.parts.push(row);
        proof {
            assert(views_of(self.parts@) =~= views_of(old(self).parts@).push(out@));
        }
        Ok(out)
    }

    /// Overwrites the part with the given id from the params; `NotFound`
    /// exactly when the row is missing or belongs to another episode.
    pub fn update_part(&mut self, episode_id: i64, id: i64, params: &PartParams) -> (r: Result<
        Part,
        Error,
    >)
        requires
            old(self).wf(),
        ensures
            final(self).wf(),
            r is Ok <==> has_part(old(self).parts@, id as int) && part_at(
                old(self).parts@,
                id as int,
            ).episode_id == episode_id as int,
            r is Err ==> r == Err::<Part, Error>(Error::NotFound) && *final(self) == *old(self),
            r is Ok ==> {
                &&& r.unwrap()@ == part_of_params(*params, id as int, episode_id as int)
                &&& exists|i: int|
                    0 <= i < old(self).parts@.len() && old(self).parts@[i]@.id == id as int
                        && views_of(final(self).parts@) == views_of(old(self).parts@).update(
                        i,
                        r.unwrap()@,
                    )
                &&& final(self).next_id == old(self).next_id
                &&& final(self).episodes@ == old(self).episodes@
                &&& final(self).speakers@ == old(self).speakers@
                &&& final(self).episode_speakers@ == old(self).episode_speakers@
                &&& final(self).sentences@ == old(self).sentences@
                &&& final(self).words@ == old(self).words@
                &&& final(self).approvals@ == old(self).approvals@
            },
    {
        let mut i: usize = 0;
        while i < self.parts.len()
            invariant
                self.wf(),
                *self == *old(self),
                0 <= i <= self.parts@.len(),
                forall|k: int| 0 <= k < i ==> #[trigger] self.parts@[k]@.id != id as int,
            decreases self.parts@.len() - i,
        {
            if self.parts[i].id == id {
                proof {
                    lemma_unique_part(self.parts@, i as int, id as int);
                }
                if self.parts[i].episode_id != episode_id {
                    return Err(Error::NotFound);
                }
                let row = Part {
                    id: id,
                    episode_id: episode_id,
                    episode_speaker_id: params.episode_speaker_id,
                    text: params.text.clone(),
                    part_type: params.part_type,
                    starts_at: params.starts_at,
                    ends_at: params.ends_at,
                };
                let out = copy_part(&row);
                self.parts.set(i, row);
                proof {
                    assert(forall|k: int|
                        0 <= k < self.parts@.len() && k != i as int ==> self.parts@[k] == old(
                            self,
                        ).parts@[k]);
                    assert(self.parts@[i as int]@.id == old(self).parts@[i as int]@.id);
                    assert(views_of(self.parts@) =~= views_of(old(self).parts@).update(
                        i as int,
                        out@,
                    ));
                }
                return Ok(out);
            }
            i = i + 1;
        }
        Err(Error::NotFound)
    }

    /// Replaces the stored part whose id matches the given row; `NotFound`
    /// exactly when no such row exists.
    pub fn save_part(&mut self, row: &Part) -> (r: Result<(), Error>)
        requires
            old(self).wf(),
        ensures
            final(self).wf(),
            r is Ok <==> has_part(old(self).parts@, row@.id),
            r is Err ==> r == Err::<(), Error>(Error::NotFound) && *final(self) == *old(self),
            r is Ok ==> {
                &&& exists|i: int|
                    0 <= i < old(self).parts@.len() && old(self).parts@[i]@.id == row@.id
                        && views_of(final(self).parts@) == views_of(old(self).parts@).update(
                        i,
                        row@,
                    )
                &&& final(self).next_id == old(self).next_id
                &&& final(self).episodes@ == old(self).episodes@
                &&& final(self).speakers@ == old(self).speakers@
                &&& final(self).episode_speakers@ == old(self).episode_speakers@
                &&& final(self).sentences@ == old(self).sentences@
                &&& final(self).words@ == old(self).words@
                &&& final(self).approvals@ == old(self).approvals@
            },
    {
        let mut i: usize = 0;
        while i < self.parts.len()
            invariant
                self.wf(),
                *self == *old(self),
                0 <= i <= self.parts@.len(),
                forall|k: int| 0 <= k < i ==> #[trigger] self.parts@[k]@.id != row@.id,
            decreases self.parts@.len() - i,
        {
            if self.parts[i].id == row.id {
                let fresh = copy_part(row);
                self.parts.set(i, fresh);
                proof {
                    assert(forall|k: int|
                        0 <= k < self.parts@.len() && k != i as int ==> self.parts@[k] == old(
                            self,
                        ).parts@[k]);
                    assert(self.parts@[i as int]@.id == old(self).parts@[i as int]@.id);
                    assert(views_of(self.parts@) =~= views_of(old(self).parts@).update(
                        i as int,
                        row@,
                    ));
                }
                return Ok(());
            }
            i = i + 1;
        }
        Err(Error::NotFound)
    }

    /// The sentences of one part, as copies.
    pub fn list_sentences(&self, part_id: i64) -> (r: Vec<Sentence>)
        ensures
            views_of(r@) == sentences_with_part(self.sentences@, part_id as int),
    {
        let ghost rows = self.sentences@;
        let mut r: Vec<Sentence> = Vec::new();
        let mut i: usize = 0;
        while i < self.sentences.len()
            invariant
                0 <= i <= rows.len(),
                rows == self.sentences@,
                views_of(r@) == sentences_with_part(rows.take(i as int), part_id as int),
            decreases rows.len() - i,
        {
            proof {
                assert(rows.take(i + 1).drop_last() =~= rows.take(i as int));
                assert(rows.take(i + 1).last() == rows[i as int]);
            }
            if self.sentences[i].part_id == part_id {
                r.push(copy_sentence(&self.sentences[i]));
                proof {
                    assert(views_of(r@) =~= sentences_with_part(rows.take(i + 1), part_id as int));
                }
            }
            i = i + 1;
        }
        proof {
            assert(rows.take(rows.len() as int) =~= rows);
        }
        r
    }

    /// The sentence with the given id, if any.
    pub fn get_sentence(&self, id: i64) -> (r: Option<Sentence>)
        requires
            self.wf(),
        ensures
            r is Some <==> has_sentence(self.sentences@, id as int),
            r is Some ==> r.unwrap()@ == sentence_at(self.sentences@, id as int) && r.unwrap()@.id
                == id as int,
    {
        let mut i: usize = 0;
        while i < self.sentences.len()
            invariant
                self.wf(),
                0 <= i <= self.sentences@.len(),
                forall|k: int| 0 <= k < i ==> #[trigger] self.sentences@[k]@.id != id as int,
            decreases self.sentences@.len() - i,
        {
            if self.sentences[i].id == id {
                proof {
                    lemma_unique_sentence(self.sentences@, i as int, id as int);
                }
                return Some(copy_sentence(&self.sentences[i]));
            }
            i = i + 1;
        }
        None
    }

    /// Inserts a new sentence built from the params; fails only when the id
    /// space is exhausted.
    pub fn add_sentence(&mut self, part_id: i64, params: &SentenceParams) -> (r: Result<
        Sentence,
        Error,
    >)
        requires
            old(self).wf(),
        ensures
            final(self).wf(),
            r is Ok <==> old(self).can_allocate(1),
            r is Err ==> (r matches Err(Error::Message(_))) && *final(self) == *old(self),
            r is Ok ==> {
                &&& r.unwrap()@ == sentence_of_params(*params, old(self).next_id as int, part_id as int)
                &&& views_of(final(self).sentences@) == views_of(old(self).sentences@).push(
                    r.unwrap()@,
                )
                &&& final(self).next_id == old(self).next_id + 1
                &&& final(self).episodes@ == old(self).episodes@
                &&& final(self).speakers@ == old(self).speakers@
                &&& final(self).episode_speakers@ == old(self).episode_speakers@
                &&& final(self).parts@ == old(self).parts@
                &&& final(self).words@ == old(self).words@
                &&& final(self).approvals@ == old(self).approvals@
            },
    {
        if self.next_id == i64::MAX {
            return Err(Error::Message("id space exhausted".to_string()));
        }
        let id = self.next_id;
        self.next_id = self.next_id + 1;
        let row = Sentence {
            id: id,
            part_id: part_id,
            text: params.text.clone(),
            starts_at: params.starts_at,
            ends_at: params.ends_at,
            words_per_second: params.words_per_second,
        };
        let out = copy_sentence(&row);
        self.sentences.push(row);
        proof {
            assert(views_of(self.sentences@) =~= views_of(old(self).sentences@).push(out@));
        }
        Ok(out)
    }

    /// Overwrites the sentence with the given id from the params; `NotFound`
    /// exactly when the row is missing or belongs to another part.
    pub fn update_sentence_row(&mut self, part_id: i64, id: i64, params: &SentenceParams) -> (r:
        Result<Sentence, Error>)
        requires
            old(self).wf(),
        ensures
            final(self).wf(),
            r is Ok <==> has_sentence(old(self).sentences@, id as int) && sentence_at(
                old(self).sentences@,
                id as int,
            ).part_id == part_id as int,
            r is Err ==> r == Err::<Sentence, Error>(Error::NotFound) && *final(self) == *old(self),
            r is Ok ==> {
                &&& r.unwrap()@ == sentence_of_params(*params, id as int, part_id as int)
                &&& exists|i: int|
                    0 <= i < old(self).sentences@.len() && old(self).sentences@[i]@.id == id as int
                        && views_of(final(self).sentences@) == views_of(old(self).sentences@).update(
                        i,
                        r.unwrap()@,
                    )
                &&& final(self).next_id == old(self).next_id
                &&& final(self).episodes@ == old(self).episodes@
                &&& final(self).speakers@ == old(self).speakers@
                &&& final(self).episode_speakers@ == old(self).episode_speakers@
                &&& final(self).parts@ == old(self).parts@
                &&& final(self).words@ == old(self).words@
                &&& final(self).approvals@ == old(self).approvals@
            },
    {
        let mut i: usize = 0;
        while i < self.sentences.len()
            invariant
                self.wf(),
                *self == *old(self),
                0 <= i <= self.sentences@.len(),
                forall|k: int| 0 <= k < i ==> #[trigger] self.sentences@[k]@.id != id as int,
            decreases self.sentences@.len() - i,
        {
            if self.sentences[i].id == id {
                proof {
                    lemma_unique_sentence(self.sentences@, i as int, id as int);
                }
                if self.sentences[i].part_id != part_id {
                    return Err(Error::NotFound);
                }
                let row = Sentence {
                    id: id,
                    part_id: part_id,
                    text: params.text.clone(),
                    starts_at: params.starts_at,
                    ends_at: params.ends_at,
                    words_per_second: params.words_per_second,
                };
                let out = copy_sentence(&row);
                self.sentences.set(i, row);
                proof {
                    assert(forall|k: int|
                        0 <= k < self.sentences@.len() && k != i as int ==> self.sentences@[k]
                            == old(self).sentences@[k]);
                    assert(self.sentences@[i as int]@.id == old(self).sentences@[i as int]@.id);
                    assert(views_of(self.sentences@) =~= views_of(old(self).sentences@).update(
                        i as int,
                        out@,
                    ));
                }
                return Ok(out);
            }
            i = i + 1;
        }
        Err(Error::NotFound)
    }

    /// Replaces the stored sentence whose id matches the given row;
    /// `NotFound` exactly when no such row exists.
    pub fn save_sentence(&mut self, row: &Sentence) -> (r: Result<(), Error>)
        requires
            old(self).wf(),
        ensures
            final(self).wf(),
            r is Ok <==> has_sentence(old(self).sentences@, row@.id),
            r is Err ==> r == Err::<(), Error>(Error::NotFound) && *final(self) == *old(self),
            r is Ok ==> {
                &&& exists|i: int|
                    0 <= i < old(self).sentences@.len() && old(self).sentences@[i]@.id == row@.id
                        && views_of(final(self).sentences@) == views_of(old(self).sentences@).update(
                        i,
                        row@,
                    )
                &&& final(self).next_id == old(self).next_id
                &&& final(self).episodes@ == old(self).episodes@
                &&& final(self).speakers@ == old(self).speakers@
                &&& final(self).episode_speakers@ == old(self).episode_speakers@
                &&& final(self).parts@ == old(self).parts@
                &&& final(self).words@ == old(self).words@
                &&& final(self).approvals@ == old(self).approvals@
            },
    {
        let mut i: usize = 0;
        while i < self.sentences.len()
            invariant
                self.wf(),
                *self == *old(self),
                0 <= i <= self.sentences@.len(),
                forall|k: int| 0 <= k < i ==> #[trigger] self.sentences@[k]@.id != row@.id,
            decreases self.sentences@.len() - i,
        {
            if self.sentences[i].id == row.id {
                let fresh = copy_sentence(row);
                self.sentences.set(i, fresh);
                proof {
                    assert(forall|k: int|
                        0 <= k < self.sentences@.len() && k != i as int ==> self.sentences@[k]
                            == old(self).sentences@[k]);
                    assert(self.sentences@[i as int]@.id == old(self).sentences@[i as int]@.id);
                    assert(views_of(self.sentences@) =~= views_of(old(self).sentences@).update(
                        i as int,
                        row@,
                    ));
                }
                return Ok(());
            }
            i = i + 1;
        }
        Err(Error::NotFound)
    }

    /// The words of one sentence, as copies.
    pub fn list_words(&self, sentence_id: i64) -> (r: Vec<Word>)
        ensures
            views_of(r@) == words_with_sentence(self.words@, sentence_id as int),
    {
        let ghost rows = self.words@;
        let mut r: Vec<Word> = Vec::new();
        let mut i: usize = 0;
        while i < self.words.len()
            invariant
                0 <= i <= rows.len(),
                rows == self.words@,
                views_of(r@) == words_with_sentence(rows.take(i as int), sentence_id as int),
            decreases rows.len() - i,
        {
            proof {
                assert(rows.take(i + 1).drop_last() =~= rows.take(i as int));
                assert(rows.take(i + 1).last() == rows[i as int]);
            }
            if self.words[i].sentence_id == sentence_id {
                r.push(copy_word(&self.words[i]));
                proof {
                    assert(views_of(r@) =~= words_with_sentence(rows.take(i + 1), sentence_id as int));
                }
            }
            i = i + 1;
        }
        proof {
            assert(rows.take(rows.len() as int) =~= rows);
        }
        r
    }

    /// The word with the given id, if any.
    pub fn get_word(&self, id: i64) -> (r: Option<Word>)
        requires
            self.wf(),
        ensures
            r is Some <==> has_word(self.words@, id as int),
            r is Some ==> r.unwrap()@ == word_at(self.words@, id as int) && r.unwrap()@.id
                == id as int,
    {
        let mut i: usize = 0;
        while i < self.words.len()
            invariant
                self.wf(),
                0 <= i <= self.words@.len(),
                forall|k: int| 0 <= k < i ==> #[trigger] self.words@[k]@.id != id as int,
            decreases self.words@.len() - i,
        {
            if self.words[i].id == id {
                proof {
                    lemma_unique_word(self.words@, i as int, id as int);
                }
                return Some(copy_word(&self.words[i]));
            }
            i = i + 1;
        }
        None
    }

    /// Inserts a new word built from the params; fails only when the id
    /// space is exhausted.
    pub fn add_word(&mut self, sentence_id: i64, params: &WordParams) -> (r: Result<Word, Error>)
        requires
            old(self).wf(),
        ensures
            final(self).wf(),
            r is Ok <==> old(self).can_allocate(1),
            r is Err ==> (r matches Err(Error::Message(_))) && *final(self) == *old(self),
            r is Ok ==> {
                &&& r.unwrap()@ == word_of_params(*params, old(self).next_id as int, sentence_id as int)
                &&& views_of(final(self).words@) == views_of(old(self).words@).push(r.unwrap()@)
                &&& final(self).next_id == old(self).next_id + 1
                &&& final(self).episodes@ == old(self).episodes@
                &&& final(self).speakers@ == old(self).speakers@
                &&& final(self).episode_speakers@ == old(self).episode_speakers@
                &&& final(self).parts@ == old(self).parts@
                &&& final(self).sentences@ == old(self).sentences@
                &&& final(self).approvals@ == old(self).approvals@
            },
    {
        if self.next_id == i64::MAX {
            return Err(Error::Message("id space exhausted".to_string()));
        }
        let id = self.next_id;
        self.next_id = self.next_id + 1;
        let row = Word {
            id: id,
            sentence_id: sentence_id,
            text: params.text.clone(),
            overwrite: params.overwrite.clone(),
            starts_at: params.starts_at,
            ends_at: params.ends_at,
            probability: params.probability,
            hidden: params.hidden,
        };
        let out = copy_word(&row);
        self.words.push(row);
        proof {
            assert(views_of(self.words@) =~= views_of(old(self).words@).push(out@));
        }
        Ok(out)
    }

    /// Overwrites the word with the given id from the params; `NotFound`
    /// exactly when the row is missing or belongs to another sentence.
    pub fn update_word_row(&mut self, sentence_id: i64, id: i64, params: &WordParams) -> (r:
        Result<Word, Error>)
        requires
            old(self).wf(),
        ensures
            final(self).wf(),
            r is Ok <==> has_word(old(self).words@, id as int) && word_at(
                old(self).words@,
                id as int,
            ).sentence_id == sentence_id as int,
            r is Err ==> r == Err::<Word, Error>(Error::NotFound) && *final(self) == *old(self),
            r is Ok ==> {
                &&& r.unwrap()@ == word_of_params(*params, id as int, sentence_id as int)
                &&& exists|i: int|
                    0 <= i < old(self).words@.len() && old(self).words@[i]@.id == id as int
                        && views_of(final(self).words@) == views_of(old(self).words@).update(
                        i,
                        r.unwrap()@,
                    )
                &&& final(self).next_id == old(self).next_id
                &&& final(self).episodes@ == old(self).episodes@
                &&& final(self).speakers@ == old(self).speakers@
                &&& final(self).episode_speakers@ == old(self).episode_speakers@
                &&& final(self).parts@ == old(self).parts@
                &&& final(self).sentences@ == old(self).sentences@
                &&& final(self).approvals@ == old(self).approvals@
            },
    {
        let mut i: usize = 0;
        while i < self.words.len()
            invariant
                self.wf(),
                *self == *old(self),
                0 <= i <= self.words@.len(),
                forall|k: int| 0 <= k < i ==> #[trigger] self.words@[k]@.id != id as int,
            decreases self.words@.len() - i,
        {
            if self.words[i].id == id {
                proof {
                    lemma_unique_word(self.words@, i as int, id as int);
                }
                if self.words[i].sentence_id != sentence_id {
                    return Err(Error::NotFound);
                }
                let row = Word {
                    id: id,
                    sentence_id: sentence_id,
                    text: params.text.clone(),
                    overwrite: params.overwrite.clone(),
                    starts_at: params.starts_at,
                    ends_at: params.ends_at,
                    probability: params.probability,
                    hidden: params.hidden,
                };
                let out = copy_word(&row);
                self.words.set(i, row);
                proof {
                    assert(forall|k: int|
                        0 <= k < self.words@.len() && k != i as int ==> self.words@[k] == old(
                            self,
                        ).words@[k]);
                    assert(self.words@[i as int]@.id == old(self).words@[i as int]@.id);
                    assert(views_of(self.words@) =~= views_of(old(self).words@).update(
                        i as int,
                        out@,
                    ));
                }
                return Ok(out);
            }
            i = i + 1;
        }
        Err(Error::NotFound)
    }

    /// Replaces the stored word whose id matches the given row; `NotFound`
    /// exactly when no such row exists.
    pub fn save_word(&mut self, row: &Word) -> (r: Result<(), Error>)
        requires
            old(self).wf(),
        ensures
            final(self).wf(),
            r is Ok <==> has_word(old(self).words@, row@.id),
            r is Err ==> r == Err::<(), Error>(Error::NotFound) && *final(self) == *old(self),
            r is Ok ==> {
                &&& exists|i: int|
                    0 <= i < old(self).words@.len() && old(self).words@[i]@.id == row@.id
                        && views_of(final(self).words@) == views_of(old(self).words@).update(
                        i,
                        row@,
                    )
                &&& final(self).next_id == old(self).next_id
                &&& final(self).episodes@ == old(self).episodes@
                &&& final(self).speakers@ == old(self).speakers@
                &&& final(self).episode_speakers@ == old(self).episode_speakers@
                &&& final(self).parts@ == old(self).parts@
                &&& final(self).sentences@ == old(self).sentences@
                &&& final(self).approvals@ == old(self).approvals@
            },
    {
        let mut i: usize = 0;
        while i < self.words.len()
            invariant
                self.wf(),
                *self == *old(self),
                0 <= i <= self.words@.len(),
                forall|k: int| 0 <= k < i ==> #[trigger] self.words@[k]@.id != row@.id,
            decreases self.words@.len() - i,
        {
            if self.words[i].id == row.id {
                let fresh = copy_word(row);
                self.words.set(i, fresh);
                proof {
                    assert(forall|k: int|
                        0 <= k < self.words@.len() && k != i as int ==> self.words@[k] == old(
                            self,
                        ).words@[k]);
                    assert(self.words@[i as int]@.id == old(self).words@[i as int]@.id);
                    assert(views_of(self.words@) =~= views_of(old(self).words@).update(
                        i as int,
                        row@,
                    ));
                }
                return Ok(());
            }
            i = i + 1;
        }
        Err(Error::NotFound)
    }
}

/// The words that survive deleting one word id.
pub open spec fn words_without(s: Seq<Word>, id: int) -> Seq<WordV>
    decreases s.len(),
{
    if s.len() == 0 {
        Seq::empty()
    } else if s.last()@.id == id {
        words_without(s.drop_last(), id)
    } else {
        words_without(s.drop_last(), id).push(s.last()@)
    }
}

/// The words that survive deleting a set of sentences.
pub open spec fn words_keep_sentences(s: Seq<Word>, dead: Set<int>) -> Seq<WordV>
    decreases s.len(),
{
    if s.len() == 0 {
        Seq::empty()
    } else if dead.contains(s.last()@.sentence_id) {
        words_keep_sentences(s.drop_last(), dead)
    } else {
        words_keep_sentences(s.drop_last(), dead).push(s.last()@)
    }
}

/// The sentences that survive deleting one sentence id.
pub open spec fn sentences_without(s: Seq<Sentence>, id: int) -> Seq<SentenceV>
    decreases s.len(),
{
    if s.len() == 0 {
        Seq::empty()
    } else if s.last()@.id == id {
        sentences_without(s.drop_last(), id)
    } else {
        sentences_without(s.drop_last(), id).push(s.last()@)
    }
}

/// The sentences that survive deleting one part.
pub open spec fn sentences_without_part(s: Seq<Sentence>, part_id: int) -> Seq<SentenceV>
    decreases s.len(),
{
    if s.len() == 0 {
        Seq::empty()
    } else if s.last()@.part_id == part_id {
        sentences_without_part(s.drop_last(), part_id)
    } else {
        sentences_without_part(s.drop_last(), part_id).push(s.last()@)
    }
}

/// The parts that survive deleting one part id.
pub open spec fn parts_without(s: Seq<Part>, id: int) -> Seq<PartV>
    decreases s.len(),
{
    if s.len() == 0 {
        Seq::empty()
    } else if s.last()@.id == id {
        parts_without(s.drop_last(), id)
    } else {
        parts_without(s.drop_last(), id).push(s.last()@)
    }
}

/// The approvals that survive deleting one part.
pub open spec fn approvals_without_part(s: Seq<Approval>, part_id: int) -> Seq<ApprovalV>
    decreases s.len(),
{
    if s.len() == 0 {
        Seq::empty()
    } else if s.last()@.part_id == part_id {
        approvals_without_part(s.drop_last(), part_id)
    } else {
        approvals_without_part(s.drop_last(), part_id).push(s.last()@)
    }
}

/// The ids of the sentences of one part.
pub open spec fn sentence_ids_with_part(s: Seq<Sentence>, part_id: int) -> Set<int>
    decreases s.len(),
{
    if s.len() == 0 {
        Set::empty()
    } else if s.last()@.part_id == part_id {
        sentence_ids_with_part(s.drop_last(), part_id).insert(s.last()@.id)
    } else {
        sentence_ids_with_part(s.drop_last(), part_id)
    }
}

pub proof fn lemma_words_without_ids(s: Seq<Word>, id: int)
    requires
        forall|a: int, b: int| 0 <= a < b < s.len() ==> #[trigger] s[a]@.id != #[trigger] s[b]@.id,
    ensures
        words_without(s, id).len() <= s.len(),
        forall|i: int|
            0 <= i < words_without(s, id).len() ==> exists|k: int|
                0 <= k < s.len() && #[trigger] words_without(s, id)[i].id == s[k]@.id,
        forall|a: int, b: int|
            0 <= a < b < words_without(s, id).len() ==> #[trigger] words_without(s, id)[a].id
                != #[trigger] words_without(s, id)[b].id,
    decreases s.len(),
{
    if s.len() > 0 {
        lemma_words_without_ids(s.drop_last(), id);
        let pre = words_without(s.drop_last(), id);
        assert forall|i: int| 0 <= i < pre.len() implies exists|k: int|
            0 <= k < s.len() && #[trigger] pre[i].id == s[k]@.id by {
            let k = choose|k: int|
                0 <= k < s.drop_last().len() && #[trigger] pre[i].id == s.drop_last()[k]@.id;
            assert(pre[i].id == s[k]@.id);
        }
        if s.last()@.id != id {
            assert forall|a: int| 0 <= a < pre.len() implies pre[a].id != s.last()@.id by {
                let k = choose|k: int|
                    0 <= k < s.drop_last().len() && #[trigger] pre[a].id == s.drop_last()[k]@.id;
                assert(s[k]@.id != s[s.len() - 1]@.id);
            }
            assert(s.last()@.id == s[s.len() - 1]@.id);
        }
    }
}

pub proof fn lemma_words_keep_sentences_ids(s: Seq<Word>, dead: Set<int>)
    requires
        forall|a: int, b: int| 0 <= a < b < s.len() ==> #[trigger] s[a]@.id != #[trigger] s[b]@.id,
    ensures
        words_keep_sentences(s, dead).len() <= s.len(),
        forall|i: int|
            0 <= i < words_keep_sentences(s, dead).len() ==> exists|k: int|
                0 <= k < s.len() && #[trigger] words_keep_sentences(s, dead)[i].id == s[k]@.id,
        forall|a: int, b: int|
            0 <= a < b < words_keep_sentences(s, dead).len() ==> #[trigger] words_keep_sentences(
                s,
                dead,
            )[a].id != #[trigger] words_keep_sentences(s, dead)[b].id,
    decreases s.len(),
{
    if s.len() > 0 {
        lemma_words_keep_sentences_ids(s.drop_last(), dead);
        let pre = words_keep_sentences(s.drop_last(), dead);
        assert forall|i: int| 0 <= i < pre.len() implies exists|k: int|
            0 <= k < s.len() && #[trigger] pre[i].id == s[k]@.id by {
            let k = choose|k: int|
                0 <= k < s.drop_last().len() && #[trigger] pre[i].id == s.drop_last()[k]@.id;
            assert(pre[i].id == s[k]@.id);
        }
        if !dead.contains(s.last()@.sentence_id) {
            assert forall|a: int| 0 <= a < pre.len() implies pre[a].id != s.last()@.id by {
                let k = choose|k: int|
                    0 <= k < s.drop_last().len() && #[trigger] pre[a].id == s.drop_last()[k]@.id;
                assert(s[k]@.id != s[s.len() - 1]@.id);
            }
            assert(s.last()@.id == s[s.len() - 1]@.id);
        }
    }
}

pub proof fn lemma_sentences_without_ids(s: Seq<Sentence>, id: int)
    requires
        forall|a: int, b: int| 0 <= a < b < s.len() ==> #[trigger] s[a]@.id != #[trigger] s[b]@.id,
    ensures
        sentences_without(s, id).len() <= s.len(),
        forall|i: int|
            0 <= i < sentences_without(s, id).len() ==> exists|k: int|
                0 <= k < s.len() && #[trigger] sentences_without(s, id)[i].id == s[k]@.id,
        forall|a: int, b: int|
            0 <= a < b < sentences_without(s, id).len() ==> #[trigger] sentences_without(
                s,
                id,
            )[a].id != #[trigger] sentences_without(s, id)[b].id,
    decreases s.len(),
{
    if s.len() > 0 {
        lemma_sentences_without_ids(s.drop_last(), id);
        let pre = sentences_without(s.drop_last(), id);
        assert forall|i: int| 0 <= i < pre.len() implies exists|k: int|
            0 <= k < s.len() && #[trigger] pre[i].id == s[k]@.id by {
            let k = choose|k: int|
                0 <= k < s.drop_last().len() && #[trigger] pre[i].id == s.drop_last()[k]@.id;
            assert(pre[i].id == s[k]@.id);
        }
        if s.last()@.id != id {
            assert forall|a: int| 0 <= a < pre.len() implies pre[a].id != s.last()@.id by {
                let k = choose|k: int|
                    0 <= k < s.drop_last().len() && #[trigger] pre[a].id == s.drop_last()[k]@.id;
                assert(s[k]@.id != s[s.len() - 1]@.id);
            }
            assert(s.last()@.id == s[s.len() - 1]@.id);
        }
    }
}

pub proof fn lemma_sentences_without_part_ids(s: Seq<Sentence>, part_id: int)
    requires
        forall|a: int, b: int| 0 <= a < b < s.len() ==> #[trigger] s[a]@.id != #[trigger] s[b]@.id,
    ensures
        sentences_without_part(s, part_id).len() <= s.len(),
        forall|i: int|
            0 <= i < sentences_without_part(s, part_id).len() ==> exists|k: int|
                0 <= k < s.len() && #[trigger] sentences_without_part(s, part_id)[i].id
                    == s[k]@.id,
        forall|a: int, b: int|
            0 <= a < b < sentences_without_part(s, part_id).len()
                ==> #[trigger] sentences_without_part(s, part_id)[a].id
                != #[trigger] sentences_without_part(s, part_id)[b].id,
    decreases s.len(),
{
    if s.len() > 0 {
        lemma_sentences_without_part_ids(s.drop_last(), part_id);
        let pre = sentences_without_part(s.drop_last(), part_id);
        assert forall|i: int| 0 <= i < pre.len() implies exists|k: int|
            0 <= k < s.len() && #[trigger] pre[i].id == s[k]@.id by {
            let k = choose|k: int|
                0 <= k < s.drop_last().len() && #[trigger] pre[i].id == s.drop_last()[k]@.id;
            assert(pre[i].id == s[k]@.id);
        }
        if s.last()@.part_id != part_id {
            assert forall|a: int| 0 <= a < pre.len() implies pre[a].id != s.last()@.id by {
                let k = choose|k: int|
                    0 <= k < s.drop_last().len() && #[trigger] pre[a].id == s.drop_last()[k]@.id;
                assert(s[k]@.id != s[s.len() - 1]@.id);
            }
            assert(s.last()@.id == s[s.len() - 1]@.id);
        }
    }
}

pub proof fn lemma_parts_without_ids(s: Seq<Part>, id: int)
    requires
        forall|a: int, b: int| 0 <= a < b < s.len() ==> #[trigger] s[a]@.id != #[trigger] s[b]@.id,
    ensures
        parts_without(s, id).len() <= s.len(),
        forall|i: int|
            0 <= i < parts_without(s, id).len() ==> exists|k: int|
                0 <= k < s.len() && #[trigger] parts_without(s, id)[i].id == s[k]@.id,
        forall|a: int, b: int|
            0 <= a < b < parts_without(s, id).len() ==> #[trigger] parts_without(s, id)[a].id
                != #[trigger] parts_without(s, id)[b].id,
    decreases s.len(),
{
    if s.len() > 0 {
        lemma_parts_without_ids(s.drop_last(), id);
        let pre = parts_without(s.drop_last(), id);
        assert forall|i: int| 0 <= i < pre.len() implies exists|k: int|
            0 <= k < s.len() && #[trigger] pre[i].id == s[k]@.id by {
            let k = choose|k: int|
                0 <= k < s.drop_last().len() && #[trigger] pre[i].id == s.drop_last()[k]@.id;
            assert(pre[i].id == s[k]@.id);
        }
        if s.last()@.id != id {
            assert forall|a: int| 0 <= a < pre.len() implies pre[a].id != s.last()@.id by {
                let k = choose|k: int|
                    0 <= k < s.drop_last().len() && #[trigger] pre[a].id == s.drop_last()[k]@.id;
                assert(s[k]@.id != s[s.len() - 1]@.id);
            }
            assert(s.last()@.id == s[s.len() - 1]@.id);
        }
    }
}

pub proof fn lemma_approvals_without_part_ids(s: Seq<Approval>, part_id: int)
    requires
        forall|a: int, b: int| 0 <= a < b < s.len() ==> #[trigger] s[a]@.id != #[trigger] s[b]@.id,
    ensures
        approvals_without_part(s, part_id).len() <= s.len(),
        forall|i: int|
            0 <= i < approvals_without_part(s, part_id).len() ==> exists|k: int|
                0 <= k < s.len() && #[trigger] approvals_without_part(s, part_id)[i].id
                    == s[k]@.id,
        forall|a: int, b: int|
            0 <= a < b < approvals_without_part(s, part_id).len()
                ==> #[trigger] approvals_without_part(s, part_id)[a].id
                != #[trigger] approvals_without_part(s, part_id)[b].id,
    decreases s.len(),
{
    if s.len() > 0 {
        lemma_approvals_without_part_ids(s.drop_last(), part_id);
        let pre = approvals_without_part(s.drop_last(), part_id);
        assert forall|i: int| 0 <= i < pre.len() implies exists|k: int|
            0 <= k < s.len() && #[trigger] pre[i].id == s[k]@.id by {
            let k = choose|k: int|
                0 <= k < s.drop_last().len() && #[trigger] pre[i].id == s.drop_last()[k]@.id;
            assert(pre[i].id == s[k]@.id);
        }
        if s.last()@.part_id != part_id {
            assert forall|a: int| 0 <= a < pre.len() implies pre[a].id != s.last()@.id by {
                let k = choose|k: int|
                    0 <= k < s.drop_last().len() && #[trigger] pre[a].id == s.drop_last()[k]@.id;
                assert(s[k]@.id != s[s.len() - 1]@.id);
            }
            assert(s.last()@.id == s[s.len() - 1]@.id);
        }
    }
}

impl Store {
    /// Deletes the word with the given id; `NotFound` exactly when no such
    /// row exists.
    pub fn remove_word(&mut self, id: i64) -> (r: Result<(), Error>)
        requires
            old(self).wf(),
        ensures
            final(self).wf(),
            r is Ok <==> has_word(old(self).words@, id as int),
            r is Err ==> r == Err::<(), Error>(Error::NotFound) && *final(self) == *old(self),
            r is Ok ==> {
                &&& views_of(final(self).words@) == words_without(old(self).words@, id as int)
                &&& final(self).next_id == old(self).next_id
                &&& final(self).episodes@ == old(self).episodes@
                &&& final(self).speakers@ == old(self).speakers@
                &&& final(self).episode_speakers@ == old(self).episode_speakers@
                &&& final(self).parts@ == old(self).parts@
                &&& final(self).sentences@ == old(self).sentences@
                &&& final(self).approvals@ == old(self).approvals@
            },
    {
        match self.get_word(id) {
            None => {
                return Err(Error::NotFound);
            },
            Some(_) => {},
        }
        let ghost rows = self.words@;
        let mut kept: Vec<Word> = Vec::new();
        let mut i: usize = 0;
        while i < self.words.len()
            invariant
                *self == *old(self),
                rows == self.words@,
                0 <= i <= rows.len(),
                views_of(kept@) == words_without(rows.take(i as int), id as int),
            decreases rows.len() - i,
        {
            proof {
                assert(rows.take(i + 1).drop_last() =~= rows.take(i as int));
                assert(rows.take(i + 1).last() == rows[i as int]);
            }
            if self.words[i].id != id {
                kept.push(copy_word(&self.words[i]));
                proof {
                    assert(views_of(kept@) =~= words_without(rows.take(i + 1), id as int));
                }
            }
            i = i + 1;
        }
        proof {
            assert(rows.take(rows.len() as int) =~= rows);
            lemma_words_without_ids(rows, id as int);
        }
        self.words = kept;
        proof {
            assert(forall|k: int|
                0 <= k < self.words@.len() ==> #[trigger] self.words@[k]@ == words_without(
                    rows,
                    id as int,
                )[k]);
        }
        Ok(())
    }

    /// Deletes the sentence with the given id and every word it owns;
    /// `NotFound` exactly when no such row exists.
    pub fn remove_sentence(&mut self, id: i64) -> (r: Result<(), Error>)
        requires
            old(self).wf(),
        ensures
            final(self).wf(),
            r is Ok <==> has_sentence(old(self).sentences@, id as int),
            r is Err ==> r == Err::<(), Error>(Error::NotFound) && *final(self) == *old(self),
            r is Ok ==> {
                &&& views_of(final(self).sentences@) == sentences_without(
                    old(self).sentences@,
                    id as int,
                )
                &&& views_of(final(self).words@) == words_keep_sentences(
                    old(self).words@,
                    Set::empty().insert(id as int),
                )
                &&& final(self).next_id == old(self).next_id
                &&& final(self).episodes@ == old(self).episodes@
                &&& final(self).speakers@ == old(self).speakers@
                &&& final(self).episode_speakers@ == old(self).episode_speakers@
                &&& final(self).parts@ == old(self).parts@
                &&& final(self).approvals@ == old(self).approvals@
            },
    {
        match self.get_sentence(id) {
            None => {
                return Err(Error::NotFound);
            },
            Some(_) => {},
        }
        let ghost dead = Set::empty().insert(id as int);
        let ghost srows = self.sentences@;
        let mut kept_sentences: Vec<Sentence> = Vec::new();
        let mut i: usize = 0;
        while i < self.sentences.len()
            invariant
                *self == *old(self),
                srows == self.sentences@,
                0 <= i <= srows.len(),
                views_of(kept_sentences@) == sentences_without(srows.take(i as int), id as int),
            decreases srows.len() - i,
        {
            proof {
                assert(srows.take(i + 1).drop_last() =~= srows.take(i as int));
                assert(srows.take(i + 1).last() == srows[i as int]);
            }
            if self.sentences[i].id != id {
                kept_sentences.push(copy_sentence(&self.sentences[i]));
                proof {
                    assert(views_of(kept_sentences@) =~= sentences_without(
                        srows.take(i + 1),
                        id as int,
                    ));
                }
            }
            i = i + 1;
        }
        let ghost wrows = self.words@;
        let mut kept_words: Vec<Word> = Vec::new();
        let mut j: usize = 0;
        while j < self.words.len()
            invariant
                *self == *old(self),
                wrows == self.words@,
                dead == Set::empty().insert(id as int),
                0 <= j <= wrows.len(),
                views_of(kept_words@) == words_keep_sentences(wrows.take(j as int), dead),
            decreases wrows.len() - j,
        {
            proof {
                assert(wrows.take(j + 1).drop_last() =~= wrows.take(j as int));
                assert(wrows.take(j + 1).last() == wrows[j as int]);
            }
            if self.words[j].sentence_id != id {
                kept_words.push(copy_word(&self.words[j]));
                proof {
                    assert(!dead.contains(wrows[j as int]@.sentence_id));
                    assert(views_of(kept_words@) =~= words_keep_sentences(wrows.take(j + 1), dead));
                }
            } else {
                proof {
                    assert(dead.contains(wrows[j as int]@.sentence_id));
                }
            }
            j = j + 1;
        }
        proof {
            assert(srows.take(srows.len() as int) =~= srows);
            assert(wrows.take(wrows.len() as int) =~= wrows);
            lemma_sentences_without_ids(srows, id as int);
            lemma_words_keep_sentences_ids(wrows, dead);
        }
        self.sentences = kept_sentences;
        self.words = kept_words;
        proof {
            assert(forall|k: int|
                0 <= k < self.sentences@.len() ==> #[trigger] self.sentences@[k]@
                    == sentences_without(srows, id as int)[k]);
            assert(forall|k: int|
                0 <= k < self.words@.len() ==> #[trigger] self.words@[k]@ == words_keep_sentences(
                    wrows,
                    dead,
                )[k]);
        }
        Ok(())
    }

    /// Deletes the part with the given id, the sentences it owns, their
    /// words, and the part's approvals; `NotFound` exactly when no such row
    /// exists.
    #[verifier::rlimit(50)]
    pub fn remove_part(&mut self, id: i64) -> (r: Result<(), Error>)
        requires
            old(self).wf(),
        ensures
            final(self).wf(),
            r is Ok <==> has_part(old(self).parts@, id as int),
            r is Err ==> r == Err::<(), Error>(Error::NotFound) && *final(self) == *old(self),
            r is Ok ==> {
                &&& views_of(final(self).parts@) == parts_without(old(self).parts@, id as int)
                &&& views_of(final(self).sentences@) == sentences_without_part(
                    old(self).sentences@,
                    id as int,
                )
                &&& views_of(final(self).words@) == words_keep_sentences(
                    old(self).words@,
                    sentence_ids_with_part(old(self).sentences@, id as int),
                )
                &&& views_of(final(self).approvals@) == approvals_without_part(
                    old(self).approvals@,
                    id as int,
                )
                &&& final(self).next_id == old(self).next_id
                &&& final(self).episodes@ == old(self).episodes@
                &&& final(self).speakers@ == old(self).speakers@
                &&& final(self).episode_speakers@ == old(self).episode_speakers@
            },
    {
        match self.get_part(id) {
            None => {
                return Err(Error::NotFound);
            },
            Some(_) => {},
        }
        let ghost srows = self.sentences@;
        let ghost dead = sentence_ids_with_part(srows, id as int);

        // The ids of the sentences this part owns.
        let mut dead_ids: Vec<i64> = Vec::new();
        let mut i: usize = 0;
        while i < self.sentences.len()
            invariant
                *self == *old(self),
                srows == self.sentences@,
                0 <= i <= srows.len(),
                forall|x: int| #[trigger] sentence_ids_with_part(srows.take(i as int), id as int).contains(x)
                    <==> exists|k: int| 0 <= k < dead_ids@.len() && dead_ids@[k] as int == x,
            decreases srows.len() - i,
        {
            proof {
                assert(srows.take(i + 1).drop_last() =~= srows.take(i as int));
                assert(srows.take(i + 1).last() == srows[i as int]);
            }
            let ghost pre_ids = dead_ids@;
            let ghost pre_set = sentence_ids_with_part(srows.take(i as int), id as int);
            let ghost post_set = sentence_ids_with_part(srows.take(i + 1), id as int);
            if self.sentences[i].part_id == id {
                dead_ids.push(self.sentences[i].id);
                proof {
                    assert(post_set == pre_set.insert(srows[i as int]@.id));
                    assert forall|x: int| #[trigger] post_set.contains(x) implies exists|k: int|
                        0 <= k < dead_ids@.len() && dead_ids@[k] as int == x by {
                        if x == srows[i as int]@.id {
                            assert(dead_ids@[dead_ids@.len() - 1] as int == x);
                        } else {
                            assert(pre_set.contains(x));
                            let k = choose|k: int|
                                0 <= k < pre_ids.len() && pre_ids[k] as int == x;
                            assert(dead_ids@[k] as int == x);
                        }
                    }
                    assert forall|x: int|
                        (exists|k: int| 0 <= k < dead_ids@.len() && dead_ids@[k] as int == x)
                            implies #[trigger] post_set.contains(x) by {
                        let k = choose|k: int|
                            0 <= k < dead_ids@.len() && dead_ids@[k] as int == x;
                        if k < pre_ids.len() {
                            assert(pre_ids[k] as int == x);
                            assert(pre_set.contains(x));
                        } else {
                            assert(x == srows[i as int]@.id);
                        }
                    }
                }
            } else {
                proof {
                    assert(post_set == pre_set);
                }
            }
            i = i + 1;
        }
        proof {
            assert(srows.take(srows.len() as int) =~= srows);
        }

        // Drop the part's sentences.
        let mut kept_sentences: Vec<Sentence> = Vec::new();
        let mut j: usize = 0;
        while j < self.sentences.len()
            invariant
                *self == *old(self),
                srows == self.sentences@,
                0 <= j <= srows.len(),
                views_of(kept_sentences@) == sentences_without_part(srows.take(j as int), id as int),
            decreases srows.len() - j,
        {
            proof {
                assert(srows.take(j + 1).drop_last() =~= srows.take(j as int));
                assert(srows.take(j + 1).last() == srows[j as int]);
            }
            if self.sentences[j].part_id != id {
                kept_sentences.push(copy_sentence(&self.sentences[j]));
                proof {
                    assert(views_of(kept_sentences@) =~= sentences_without_part(
                        srows.take(j + 1),
                        id as int,
                    ));
                }
            }
            j = j + 1;
        }

        // Drop the words of those sentences.
        let ghost wrows = self.words@;
        let mut kept_words: Vec<Word> = Vec::new();
        let mut m: usize = 0;
        while m < self.words.len()
            invariant
                *self == *old(self),
                wrows == self.words@,
                srows == self.sentences@,
                dead == sentence_ids_with_part(srows, id as int),
                forall|x: int| #[trigger] dead.contains(x) <==> exists|k: int|
                    0 <= k < dead_ids@.len() && dead_ids@[k] as int == x,
                0 <= m <= wrows.len(),
                views_of(kept_words@) == words_keep_sentences(wrows.take(m as int), dead),
            decreases wrows.len() - m,
        {
            proof {
                assert(wrows.take(m + 1).drop_last() =~= wrows.take(m as int));
                assert(wrows.take(m + 1).last() == wrows[m as int]);
            }
            let mut found: bool = false;
            let mut k: usize = 0;
            while k < dead_ids.len()
                invariant
                    0 <= k <= dead_ids@.len(),
                    0 <= m < wrows.len(),
                    wrows == self.words@,
                    found <==> exists|t: int|
                        0 <= t < k && dead_ids@[t] == self.words@[m as int].sentence_id,
                decreases dead_ids@.len() - k,
            {
                if dead_ids[k] == self.words[m].sentence_id {
                    found = true;
                }
                k = k + 1;
            }
            if !found {
                kept_words.push(copy_word(&self.words[m]));
                proof {
                    assert(!dead.contains(wrows[m as int]@.sentence_id));
                    assert(views_of(kept_words@) =~= words_keep_sentences(wrows.take(m + 1), dead));
                }
            } else {
                proof {
                    assert(dead.contains(wrows[m as int]@.sentence_id));
                }
            }
            m = m + 1;
        }

        // Drop the part's approvals.
        let ghost arows = self.approvals@;
        let mut kept_approvals: Vec<Approval> = Vec::new();
        let mut a: usize = 0;
        while a < self.approvals.len()
            invariant
                *self == *old(self),
                arows == self.approvals@,
                0 <= a <= arows.len(),
                views_of(kept_approvals@) == approvals_without_part(arows.take(a as int), id as int),
            decreases arows.len() - a,
        {
            proof {
                assert(arows.take(a + 1).drop_last() =~= arows.take(a as int));
                assert(arows.take(a + 1).last() == arows[a as int]);
            }
            if self.approvals[a].part_id != id {
                kept_approvals.push(self.approvals[a]);
                proof {
                    assert(views_of(kept_approvals@) =~= approvals_without_part(
                        arows.take(a + 1),
                        id as int,
                    ));
                }
            }
            a = a + 1;
        }

        // Drop the part itself.
        let ghost prows = self.parts@;
        let mut kept_parts: Vec<Part> = Vec::new();
        let mut p: usize = 0;
        while p < self.parts.len()
            invariant
                *self == *old(self),
                prows == self.parts@,
                0 <= p <= prows.len(),
                views_of(kept_parts@) == parts_without(prows.take(p as int), id as int),
            decreases prows.len() - p,
        {
            proof {
                assert(prows.take(p + 1).drop_last() =~= prows.take(p as int));
                assert(prows.take(p + 1).last() == prows[p as int]);
            }
            if self.parts[p].id != id {
                kept_parts.push(copy_part(&self.parts[p]));
                proof {
                    assert(views_of(kept_parts@) =~= parts_without(prows.take(p + 1), id as int));
                }
            }
            p = p + 1;
        }

        proof {
            assert(srows.take(srows.len() as int) =~= srows);
            assert(wrows.take(wrows.len() as int) =~= wrows);
            assert(arows.take(arows.len() as int) =~= arows);
            assert(prows.take(prows.len() as int) =~= prows);
            lemma_sentences_without_part_ids(srows, id as int);
            lemma_words_keep_sentences_ids(wrows, dead);
            lemma_approvals_without_part_ids(arows, id as int);
            lemma_parts_without_ids(prows, id as int);
        }
        self.sentences = kept_sentences;
        self.words = kept_words;
        self.approvals = kept_approvals;
        self.parts = kept_parts;
        proof {
            assert(forall|k: int|
                0 <= k < self.sentences@.len() ==> #[trigger] self.sentences@[k]@
                    == sentences_without_part(srows, id as int)[k]);
            assert(forall|k: int|
                0 <= k < self.words@.len() ==> #[trigger] self.words@[k]@ == words_keep_sentences(
                    wrows,
                    dead,
                )[k]);
            assert(forall|k: int|
                0 <= k < self.approvals@.len() ==> #[trigger] self.approvals@[k]@
                    == approvals_without_part(arows, id as int)[k]);
            assert(forall|k: int|
                0 <= k < self.parts@.len() ==> #[trigger] self.parts@[k]@ == parts_without(
                    prows,
                    id as int,
                )[k]);
        }
        Ok(())
    }
}

/// Whether some speaker row carries the given name.
pub open spec fn has_speaker_named(s: Seq<Speaker>, n: Seq<char>) -> bool {
    exists|k: int| 0 <= k < s.len() && s[k]@.name == n
}

impl Store {
    /// The last stored speaker with the given name, if any.
    pub fn find_speaker_by_name(&self, name: &String) -> (r: Option<Speaker>)
        ensures
            r is Some <==> has_speaker_named(self.speakers@, name@),
            r is Some ==> r.unwrap()@.name == name@ && exists|k: int|
                0 <= k < self.speakers@.len() && self.speakers@[k]@ == r.unwrap()@,
    {
        let mut found: Option<Speaker> = None;
        let mut i: usize = 0;
        while i < self.speakers.len()
            invariant
                0 <= i <= self.speakers@.len(),
                found is Some ==> found.unwrap()@.name == name@ && exists|k: int|
                    0 <= k < self.speakers@.len() && self.speakers@[k]@ == found.unwrap()@,
                found is None ==> forall|k: int|
                    0 <= k < i ==> #[trigger] self.speakers@[k]@.name != name@,
            decreases self.speakers@.len() - i,
        {
            if self.speakers[i].name == *name {
                found = Some(copy_speaker(&self.speakers[i]));
                proof {
                    assert(self.speakers@[i as int]@ == found.unwrap()@);
                }
            }
            i = i + 1;
        }
        found
    }
}

impl Store {
    /// Records one user's sign-off on a part; fails only when the id space
    /// is exhausted.
    pub fn add_approval(&mut self, part_id: i64, user_id: i64) -> (r: Result<Approval, Error>)
        requires
            old(self).wf(),
        ensures
            final(self).wf(),
            r is Ok <==> old(self).can_allocate(1),
            r is Err ==> (r matches Err(Error::Message(_))) && *final(self) == *old(self),
            r is Ok ==> {
                &&& r.unwrap()@.id == old(self).next_id as int
                &&& r.unwrap()@.part_id == part_id as int
                &&& r.unwrap()@.user_id == user_id as int
                &&& views_of(final(self).approvals@) == views_of(old(self).approvals@).push(
                    r.unwrap()@,
                )
                &&& final(self).next_id == old(self).next_id + 1
                &&& final(self).episodes@ == old(self).episodes@
                &&& final(self).speakers@ == old(self).speakers@
                &&& final(self).episode_speakers@ == old(self).episode_speakers@
                &&& final(self).parts@ == old(self).parts@
                &&& final(self).sentences@ == old(self).sentences@
                &&& final(self).words@ == old(self).words@
            },
    {
        if self.next_id == i64::MAX {
            return Err(Error::Message("id space exhausted".to_string()));
        }
        let id = self.next_id;
        self.next_id = self.next_id + 1;
        let row = Approval { id: id, part_id: part_id, user_id: user_id };
        self.approvals.push(row);
        proof {
            assert(views_of(self.approvals@) =~= views_of(old(self).approvals@).push(row@));
        }
        Ok(row)
    }

    /// The approvals of one part, as copies.
    pub fn list_approvals(&self, part_id: i64) -> (r: Vec<Approval>)
        ensures
            views_of(r@) == crate::query::approvals_with_parts(
                self.approvals@,
                Set::empty().insert(part_id as int),
            ),
    {
        let ghost ids = Set::empty().insert(part_id as int);
        let ghost rows = self.approvals@;
        let mut r: Vec<Approval> = Vec::new();
        let mut i: usize = 0;
        while i < self.approvals.len()
            invariant
                0 <= i <= rows.len(),
                rows == self.approvals@,
                ids == Set::empty().insert(part_id as int),
                views_of(r@) == crate::query::approvals_with_parts(rows.take(i as int), ids),
            decreases rows.len() - i,
        {
            proof {
                assert(rows.take(i + 1).drop_last() =~= rows.take(i as int));
                assert(rows.take(i + 1).last() == rows[i as int]);
            }
            if self.approvals[i].part_id == part_id {
                r.push(self.approvals[i]);
                proof {
                    assert(views_of(r@) =~= crate::query::approvals_with_parts(
                        rows.take(i + 1),
                        ids,
                    ));
                }
            } else {
                proof {
                    assert(!ids.contains(rows[i as int]@.part_id));
                }
            }
            i = i + 1;
        }
        proof {
            assert(rows.take(rows.len() as int) =~= rows);
        }
        r
    }
}

/// The parts that survive deleting a set of part ids.
pub open spec fn parts_keep_out(s: Seq<Part>, dead: Set<int>) -> Seq<PartV>
    decreases s.len(),
{
    if s.len() == 0 {
        Seq::empty()
    } else if dead.contains(s.last()@.id) {
        parts_keep_out(s.drop_last(), dead)
    } else {
        parts_keep_out(s.drop_last(), dead).push(s.last()@)
    }
}

/// The sentences that survive deleting a set of parts.
pub open spec fn sentences_keep_out_parts(s: Seq<Sentence>, dead: Set<int>) -> Seq<SentenceV>
    decreases s.len(),
{
    if s.len() == 0 {
        Seq::empty()
    } else if dead.contains(s.last()@.part_id) {
        sentences_keep_out_parts(s.drop_last(), dead)
    } else {
        sentences_keep_out_parts(s.drop_last(), dead).push(s.last()@)
    }
}

/// The approvals that survive deleting a set of parts.
pub open spec fn approvals_keep_out_parts(s: Seq<Approval>, dead: Set<int>) -> Seq<ApprovalV>
    decreases s.len(),
{
    if s.len() == 0 {
        Seq::empty()
    } else if dead.contains(s.last()@.part_id) {
        approvals_keep_out_parts(s.drop_last(), dead)
    } else {
        approvals_keep_out_parts(s.drop_last(), dead).push(s.last()@)
    }
}

/// The ids of the sentences owned by a set of parts.
pub open spec fn sentence_ids_with_parts(s: Seq<Sentence>, dead: Set<int>) -> Set<int>
    decreases s.len(),
{
    if s.len() == 0 {
        Set::empty()
    } else if dead.contains(s.last()@.part_id) {
        sentence_ids_with_parts(s.drop_last(), dead).insert(s.last()@.id)
    } else {
        sentence_ids_with_parts(s.drop_last(), dead)
    }
}

/// The ids of the parts of one episode.
pub open spec fn part_ids_with_episode(s: Seq<Part>, episode_id: int) -> Set<int>
    decreases s.len(),
{
    if s.len() == 0 {
        Set::empty()
    } else if s.last()@.episode_id == episode_id {
        part_ids_with_episode(s.drop_last(), episode_id).insert(s.last()@.id)
    } else {
        part_ids_with_episode(s.drop_last(), episode_id)
    }
}

/// The ids of the parts bound to a set of episode-speaker rows.
pub open spec fn part_ids_with_episode_speakers(s: Seq<Part>, es_dead: Set<int>) -> Set<int>
    decreases s.len(),
{
    if s.len() == 0 {
        Set::empty()
    } else if es_dead.contains(s.last()@.episode_speaker_id) {
        part_ids_with_episode_speakers(s.drop_last(), es_dead).insert(s.last()@.id)
    } else {
        part_ids_with_episode_speakers(s.drop_last(), es_dead)
    }
}

/// The ids of one speaker's episode-speaker rows.
pub open spec fn episode_speaker_ids_with_speaker(s: Seq<EpisodeSpeaker>, speaker_id: int) -> Set<
    int,
>
    decreases s.len(),
{
    if s.len() == 0 {
        Set::empty()
    } else if s.last()@.speaker_id == speaker_id {
        episode_speaker_ids_with_speaker(s.drop_last(), speaker_id).insert(s.last()@.id)
    } else {
        episode_speaker_ids_with_speaker(s.drop_last(), speaker_id)
    }
}

/// The join rows that survive deleting one row id.
pub open spec fn episode_speakers_without(s: Seq<EpisodeSpeaker>, id: int) -> Seq<EpisodeSpeakerV>
    decreases s.len(),
{
    if s.len() == 0 {
        Seq::empty()
    } else if s.last()@.id == id {
        episode_speakers_without(s.drop_last(), id)
    } else {
        episode_speakers_without(s.drop_last(), id).push(s.last()@)
    }
}

/// The join rows that survive deleting one episode.
pub open spec fn episode_speakers_without_episode(s: Seq<EpisodeSpeaker>, episode_id: int) -> Seq<
    EpisodeSpeakerV,
>
    decreases s.len(),
{
    if s.len() == 0 {
        Seq::empty()
    } else if s.last()@.episode_id == episode_id {
        episode_speakers_without_episode(s.drop_last(), episode_id)
    } else {
        episode_speakers_without_episode(s.drop_last(), episode_id).push(s.last()@)
    }
}

/// The join rows that survive deleting one speaker.
pub open spec fn episode_speakers_without_speaker(s: Seq<EpisodeSpeaker>, speaker_id: int) -> Seq<
    EpisodeSpeakerV,
>
    decreases s.len(),
{
    if s.len() == 0 {
        Seq::empty()
    } else if s.last()@.speaker_id == speaker_id {
        episode_speakers_without_speaker(s.drop_last(), speaker_id)
    } else {
        episode_speakers_without_speaker(s.drop_last(), speaker_id).push(s.last()@)
    }
}

/// The episodes that survive deleting one id.
pub open spec fn episodes_without(s: Seq<Episode>, id: int) -> Seq<EpisodeV>
    decreases s.len(),
{
    if s.len() == 0 {
        Seq::empty()
    } else if s.last()@.id == id {
        episodes_without(s.drop_last(), id)
    } else {
        episodes_without(s.drop_last(), id).push(s.last()@)
    }
}

/// The speakers that survive deleting one id.
pub open spec fn speakers_without(s: Seq<Speaker>, id: int) -> Seq<SpeakerV>
    decreases s.len(),
{
    if s.len() == 0 {
        Seq::empty()
    } else if s.last()@.id == id {
        speakers_without(s.drop_last(), id)
    } else {
        speakers_without(s.drop_last(), id).push(s.last()@)
    }
}

pub proof fn lemma_parts_keep_out_ids(s: Seq<Part>, dead: Set<int>)
    requires
        forall|a: int, b: int| 0 <= a < b < s.len() ==> #[trigger] s[a]@.id != #[trigger] s[b]@.id,
    ensures
        parts_keep_out(s, dead).len() <= s.len(),
        forall|i: int|
            0 <= i < parts_keep_out(s, dead).len() ==> exists|k: int|
                0 <= k < s.len() && #[trigger] parts_keep_out(s, dead)[i].id == s[k]@.id,
        forall|a: int, b: int|
            0 <= a < b < parts_keep_out(s, dead).len() ==> #[trigger] parts_keep_out(s, dead)[a].id
                != #[trigger] parts_keep_out(s, dead)[b].id,
    decreases s.len(),
{
    if s.len() > 0 {
        lemma_parts_keep_out_ids(s.drop_last(), dead);
        let pre = parts_keep_out(s.drop_last(), dead);
        assert forall|i: int| 0 <= i < pre.len() implies exists|k: int|
            0 <= k < s.len() && #[trigger] pre[i].id == s[k]@.id by {
            let k = choose|k: int|
                0 <= k < s.drop_last().len() && #[trigger] pre[i].id == s.drop_last()[k]@.id;
            assert(pre[i].id == s[k]@.id);
        }
        if parts_keep_out(s, dead).len() > pre.len() {
            assert forall|a: int| 0 <= a < pre.len() implies pre[a].id != s.last()@.id by {
                let k = choose|k: int|
                    0 <= k < s.drop_last().len() && #[trigger] pre[a].id == s.drop_last()[k]@.id;
                assert(s[k]@.id != s[s.len() - 1]@.id);
            }
            assert(s.last()@.id == s[s.len() - 1]@.id);
        }
    }
}

pub proof fn lemma_sentences_keep_out_parts_ids(s: Seq<Sentence>, dead: Set<int>)
    requires
        forall|a: int, b: int| 0 <= a < b < s.len() ==> #[trigger] s[a]@.id != #[trigger] s[b]@.id,
    ensures
        sentences_keep_out_parts(s, dead).len() <= s.len(),
        forall|i: int|
            0 <= i < sentences_keep_out_parts(s, dead).len() ==> exists|k: int|
                0 <= k < s.len() && #[trigger] sentences_keep_out_parts(s, dead)[i].id == s[k]@.id,
        forall|a: int, b: int|
            0 <= a < b < sentences_keep_out_parts(s, dead).len() ==> #[trigger] sentences_keep_out_parts(s, dead)[a].id
                != #[trigger] sentences_keep_out_parts(s, dead)[b].id,
    decreases s.len(),
{
    if s.len() > 0 {
        lemma_sentences_keep_out_parts_ids(s.drop_last(), dead);
        let pre = sentences_keep_out_parts(s.drop_last(), dead);
        assert forall|i: int| 0 <= i < pre.len() implies exists|k: int|
            0 <= k < s.len() && #[trigger] pre[i].id == s[k]@.id by {
            let k = choose|k: int|
                0 <= k < s.drop_last().len() && #[trigger] pre[i].id == s.drop_last()[k]@.id;
            assert(pre[i].id == s[k]@.id);
        }
        if sentences_keep_out_parts(s, dead).len() > pre.len() {
            assert forall|a: int| 0 <= a < pre.len() implies pre[a].id != s.last()@.id by {
                let k = choose|k: int|
                    0 <= k < s.drop_last().len() && #[trigger] pre[a].id == s.drop_last()[k]@.id;
                assert(s[k]@.id != s[s.len() - 1]@.id);
            }
            assert(s.last()@.id == s[s.len() - 1]@.id);
        }
    }
}

pub proof fn lemma_approvals_keep_out_parts_ids(s: Seq<Approval>, dead: Set<int>)
    requires
        forall|a: int, b: int| 0 <= a < b < s.len() ==> #[trigger] s[a]@.id != #[trigger] s[b]@.id,
    ensures
        approvals_keep_out_parts(s, dead).len() <= s.len(),
        forall|i: int|
            0 <= i < approvals_keep_out_parts(s, dead).len() ==> exists|k: int|
                0 <= k < s.len() && #[trigger] approvals_keep_out_parts(s, dead)[i].id == s[k]@.id,
        forall|a: int, b: int|
            0 <= a < b < approvals_keep_out_parts(s, dead).len() ==> #[trigger] approvals_keep_out_parts(s, dead)[a].id
                != #[trigger] approvals_keep_out_parts(s, dead)[b].id,
    decreases s.len(),
{
    if s.len() > 0 {
        lemma_approvals_keep_out_parts_ids(s.drop_last(), dead);
        let pre = approvals_keep_out_parts(s.drop_last(), dead);
        assert forall|i: int| 0 <= i < pre.len() implies exists|k: int|
            0 <= k < s.len() && #[trigger] pre[i].id == s[k]@.id by {
            let k = choose|k: int|
                0 <= k < s.drop_last().len() && #[trigger] pre[i].id == s.drop_last()[k]@.id;
            assert(pre[i].id == s[k]@.id);
        }
        if approvals_keep_out_parts(s, dead).len() > pre.len() {
            assert forall|a: int| 0 <= a < pre.len() implies pre[a].id != s.last()@.id by {
                let k = choose|k: int|
                    0 <= k < s.drop_last().len() && #[trigger] pre[a].id == s.drop_last()[k]@.id;
                assert(s[k]@.id != s[s.len() - 1]@.id);
            }
            assert(s.last()@.id == s[s.len() - 1]@.id);
        }
    }
}

pub proof fn lemma_episode_speakers_without_ids(s: Seq<EpisodeSpeaker>, id: int)
    requires
        forall|a: int, b: int| 0 <= a < b < s.len() ==> #[trigger] s[a]@.id != #[trigger] s[b]@.id,
    ensures
        episode_speakers_without(s, id).len() <= s.len(),
        forall|i: int|
            0 <= i < episode_speakers_without(s, id).len() ==> exists|k: int|
                0 <= k < s.len() && #[trigger] episode_speakers_without(s, id)[i].id == s[k]@.id,
        forall|a: int, b: int|
            0 <= a < b < episode_speakers_without(s, id).len() ==> #[trigger] episode_speakers_without(s, id)[a].id
                != #[trigger] episode_speakers_without(s, id)[b].id,
    decreases s.len(),
{
    if s.len() > 0 {
        lemma_episode_speakers_without_ids(s.drop_last(), id);
        let pre = episode_speakers_without(s.drop_last(), id);
        assert forall|i: int| 0 <= i < pre.len() implies exists|k: int|
            0 <= k < s.len() && #[trigger] pre[i].id == s[k]@.id by {
            let k = choose|k: int|
                0 <= k < s.drop_last().len() && #[trigger] pre[i].id == s.drop_last()[k]@.id;
            assert(pre[i].id == s[k]@.id);
        }
        if episode_speakers_without(s, id).len() > pre.len() {
            assert forall|a: int| 0 <= a < pre.len() implies pre[a].id != s.last()@.id by {
                let k = choose|k: int|
                    0 <= k < s.drop_last().len() && #[trigger] pre[a].id == s.drop_last()[k]@.id;
                assert(s[k]@.id != s[s.len() - 1]@.id);
            }
            assert(s.last()@.id == s[s.len() - 1]@.id);
        }
    }
}

pub proof fn lemma_episode_speakers_without_episode_ids(s: Seq<EpisodeSpeaker>, episode_id: int)
    requires
        forall|a: int, b: int| 0 <= a < b < s.len() ==> #[trigger] s[a]@.id != #[trigger] s[b]@.id,
    ensures
        episode_speakers_without_episode(s, episode_id).len() <= s.len(),
        forall|i: int|
            0 <= i < episode_speakers_without_episode(s, episode_id).len() ==> exists|k: int|
                0 <= k < s.len() && #[trigger] episode_speakers_without_episode(s, episode_id)[i].id == s[k]@.id,
        forall|a: int, b: int|
            0 <= a < b < episode_speakers_without_episode(s, episode_id).len() ==> #[trigger] episode_speakers_without_episode(s, episode_id)[a].id
                != #[trigger] episode_speakers_without_episode(s, episode_id)[b].id,
    decreases s.len(),
{
    if s.len() > 0 {
        lemma_episode_speakers_without_episode_ids(s.drop_last(), episode_id);
        let pre = episode_speakers_without_episode(s.drop_last(), episode_id);
        assert forall|i: int| 0 <= i < pre.len() implies exists|k: int|
            0 <= k < s.len() && #[trigger] pre[i].id == s[k]@.id by {
            let k = choose|k: int|
                0 <= k < s.drop_last().len() && #[trigger] pre[i].id == s.drop_last()[k]@.id;
            assert(pre[i].id == s[k]@.id);
        }
        if episode_speakers_without_episode(s, episode_id).len() > pre.len() {
            assert forall|a: int| 0 <= a < pre.len() implies pre[a].id != s.last()@.id by {
                let k = choose|k: int|
                    0 <= k < s.drop_last().len() && #[trigger] pre[a].id == s.drop_last()[k]@.id;
                assert(s[k]@.id != s[s.len() - 1]@.id);
            }
            assert(s.last()@.id == s[s.len() - 1]@.id);
        }
    }
}

pub proof fn lemma_episode_speakers_without_speaker_ids(s: Seq<EpisodeSpeaker>, speaker_id: int)
    requires
        forall|a: int, b: int| 0 <= a < b < s.len() ==> #[trigger] s[a]@.id != #[trigger] s[b]@.id,
    ensures
        episode_speakers_without_speaker(s, speaker_id).len() <= s.len(),
        forall|i: int|
            0 <= i < episode_speakers_without_speaker(s, speaker_id).len() ==> exists|k: int|
                0 <= k < s.len() && #[trigger] episode_speakers_without_speaker(s, speaker_id)[i].id == s[k]@.id,
        forall|a: int, b: int|
            0 <= a < b < episode_speakers_without_speaker(s, speaker_id).len() ==> #[trigger] episode_speakers_without_speaker(s, speaker_id)[a].id
                != #[trigger] episode_speakers_without_speaker(s, speaker_id)[b].id,
    decreases s.len(),
{
    if s.len() > 0 {
        lemma_episode_speakers_without_speaker_ids(s.drop_last(), speaker_id);
        let pre = episode_speakers_without_speaker(s.drop_last(), speaker_id);
        assert forall|i: int| 0 <= i < pre.len() implies exists|k: int|
            0 <= k < s.len() && #[trigger] pre[i].id == s[k]@.id by {
            let k = choose|k: int|
                0 <= k < s.drop_last().len() && #[trigger] pre[i].id == s.drop_last()[k]@.id;
            assert(pre[i].id == s[k]@.id);
        }
        if episode_speakers_without_speaker(s, speaker_id).len() > pre.len() {
            assert forall|a: int| 0 <= a < pre.len() implies pre[a].id != s.last()@.id by {
                let k = choose|k: int|
                    0 <= k < s.drop_last().len() && #[trigger] pre[a].id == s.drop_last()[k]@.id;
                assert(s[k]@.id != s[s.len() - 1]@.id);
            }
            assert(s.last()@.id == s[s.len() - 1]@.id);
        }
    }
}

pub proof fn lemma_episodes_without_ids(s: Seq<Episode>, id: int)
    requires
        forall|a: int, b: int| 0 <= a < b < s.len() ==> #[trigger] s[a]@.id != #[trigger] s[b]@.id,
    ensures
        episodes_without(s, id).len() <= s.len(),
        forall|i: int|
            0 <= i < episodes_without(s, id).len() ==> exists|k: int|
                0 <= k < s.len() && #[trigger] episodes_without(s, id)[i].id == s[k]@.id,
        forall|a: int, b: int|
            0 <= a < b < episodes_without(s, id).len() ==> #[trigger] episodes_without(s, id)[a].id
                != #[trigger] episodes_without(s, id)[b].id,
    decreases s.len(),
{
    if s.len() > 0 {
        lemma_episodes_without_ids(s.drop_last(), id);
        let pre = episodes_without(s.drop_last(), id);
        assert forall|i: int| 0 <= i < pre.len() implies exists|k: int|
            0 <= k < s.len() && #[trigger] pre[i].id == s[k]@.id by {
            let k = choose|k: int|
                0 <= k < s.drop_last().len() && #[trigger] pre[i].id == s.drop_last()[k]@.id;
            assert(pre[i].id == s[k]@.id);
        }
        if episodes_without(s, id).len() > pre.len() {
            assert forall|a: int| 0 <= a < pre.len() implies pre[a].id != s.last()@.id by {
                let k = choose|k: int|
                    0 <= k < s.drop_last().len() && #[trigger] pre[a].id == s.drop_last()[k]@.id;
                assert(s[k]@.id != s[s.len() - 1]@.id);
            }
            assert(s.last()@.id == s[s.len() - 1]@.id);
        }
    }
}

pub proof fn lemma_speakers_without_ids(s: Seq<Speaker>, id: int)
    requires
        forall|a: int, b: int| 0 <= a < b < s.len() ==> #[trigger] s[a]@.id != #[trigger] s[b]@.id,
    ensures
        speakers_without(s, id).len() <= s.len(),
        forall|i: int|
            0 <= i < speakers_without(s, id).len() ==> exists|k: int|
                0 <= k < s.len() && #[trigger] speakers_without(s, id)[i].id == s[k]@.id,
        forall|a: int, b: int|
            0 <= a < b < speakers_without(s, id).len() ==> #[trigger] speakers_without(s, id)[a].id
                != #[trigger] speakers_without(s, id)[b].id,
    decreases s.len(),
{
    if s.len() > 0 {
        lemma_speakers_without_ids(s.drop_last(), id);
        let pre = speakers_without(s.drop_last(), id);
        assert forall|i: int| 0 <= i < pre.len() implies exists|k: int|
            0 <= k < s.len() && #[trigger] pre[i].id == s[k]@.id by {
            let k = choose|k: int|
                0 <= k < s.drop_last().len() && #[trigger] pre[i].id == s.drop_last()[k]@.id;
            assert(pre[i].id == s[k]@.id);
        }
        if speakers_without(s, id).len() > pre.len() {
            assert forall|a: int| 0 <= a < pre.len() implies pre[a].id != s.last()@.id by {
                let k = choose|k: int|
                    0 <= k < s.drop_last().len() && #[trigger] pre[a].id == s.drop_last()[k]@.id;
                assert(s[k]@.id != s[s.len() - 1]@.id);
            }
            assert(s.last()@.id == s[s.len() - 1]@.id);
        }
    }
}

impl Store {
    /// Deletes every part in the given id set together with its sentences,
    /// their words, and its approvals. The id list and the ghost set must
    /// name the same ids.
    fn remove_parts_cascade(&mut self, dead_ids: &Vec<i64>, dead: Ghost<Set<int>>)
        requires
            old(self).wf(),
            forall|x: int|
                #[trigger] dead@.contains(x) <==> exists|k: int|
                    0 <= k < dead_ids@.len() && dead_ids@[k] as int == x,
        ensures
            final(self).wf(),
            views_of(final(self).parts@) == parts_keep_out(old(self).parts@, dead@),
            views_of(final(self).sentences@) == sentences_keep_out_parts(
                old(self).sentences@,
                dead@,
            ),
            views_of(final(self).words@) == words_keep_sentences(
                old(self).words@,
                sentence_ids_with_parts(old(self).sentences@, dead@),
            ),
            views_of(final(self).approvals@) == approvals_keep_out_parts(
                old(self).approvals@,
                dead@,
            ),
            final(self).episodes@ == old(self).episodes@,
            final(self).speakers@ == old(self).speakers@,
            final(self).episode_speakers@ == old(self).episode_speakers@,
            final(self).next_id == old(self).next_id,
    {
        let ghost srows = self.sentences@;
        let ghost dead_sents = sentence_ids_with_parts(srows, dead@);

        // The ids of the sentences the dead parts own.
        let mut sids: Vec<i64> = Vec::new();
        let mut i: usize = 0;
        while i < self.sentences.len()
            invariant
                *self == *old(self),
                old(self).wf(),
                srows == self.sentences@,
                forall|x: int|
                    #[trigger] dead@.contains(x) <==> exists|k: int|
                        0 <= k < dead_ids@.len() && dead_ids@[k] as int == x,
                0 <= i <= srows.len(),
                forall|x: int|
                    #[trigger] sentence_ids_with_parts(srows.take(i as int), dead@).contains(x)
                        <==> exists|k: int| 0 <= k < sids@.len() && sids@[k] as int == x,
            decreases srows.len() - i,
        {
            proof {
                assert(srows.take(i + 1).drop_last() =~= srows.take(i as int));
                assert(srows.take(i + 1).last() == srows[i as int]);
            }
            let ghost pre_ids = sids@;
            let ghost pre_set = sentence_ids_with_parts(srows.take(i as int), dead@);
            let ghost post_set = sentence_ids_with_parts(srows.take(i + 1), dead@);
            let mut in_dead: bool = false;
            let mut k: usize = 0;
            while k < dead_ids.len()
                invariant
                    0 <= k <= dead_ids@.len(),
                    0 <= i < srows.len(),
                    srows == self.sentences@,
                    in_dead <==> exists|t: int|
                        0 <= t < k && dead_ids@[t] == self.sentences@[i as int].part_id,
                decreases dead_ids@.len() - k,
            {
                if dead_ids[k] == self.sentences[i].part_id {
                    in_dead = true;
                }
                k = k + 1;
            }
            proof {
                assert(in_dead <==> dead@.contains(srows[i as int]@.part_id)) by {
                    if in_dead {
                        let tk = choose|t: int|
                            0 <= t < dead_ids@.len() && dead_ids@[t]
                                == self.sentences@[i as int].part_id;
                        assert(dead_ids@[tk] as int == srows[i as int]@.part_id);
                    } else {
                        if dead@.contains(srows[i as int]@.part_id) {
                            let tk = choose|t: int|
                                0 <= t < dead_ids@.len() && dead_ids@[t] as int
                                    == srows[i as int]@.part_id;
                            assert(dead_ids@[tk] == self.sentences@[i as int].part_id);
                        }
                    }
                }
            }
            if in_dead {
                sids.push(self.sentences[i].id);
                proof {
                    assert(post_set == pre_set.insert(srows[i as int]@.id));
                    assert forall|x: int| #[trigger] post_set.contains(x) implies exists|k2: int|
                        0 <= k2 < sids@.len() && sids@[k2] as int == x by {
                        if x == srows[i as int]@.id {
                            assert(sids@[sids@.len() - 1] as int == x);
                        } else {
                            assert(pre_set.contains(x));
                            let k2 = choose|k2: int|
                                0 <= k2 < pre_ids.len() && pre_ids[k2] as int == x;
                            assert(sids@[k2] as int == x);
                        }
                    }
                    assert forall|x: int|
                        (exists|k2: int| 0 <= k2 < sids@.len() && sids@[k2] as int == x)
                            implies #[trigger] post_set.contains(x) by {
                        let k2 = choose|k2: int| 0 <= k2 < sids@.len() && sids@[k2] as int == x;
                        if k2 < pre_ids.len() {
                            assert(pre_ids[k2] as int == x);
                            assert(pre_set.contains(x));
                        } else {
                            assert(x == srows[i as int]@.id);
                        }
                    }
                }
            } else {
                proof {
                    assert(post_set == pre_set);
                }
            }
            i = i + 1;
        }
        proof {
            assert(srows.take(srows.len() as int) =~= srows);
        }

        // Drop the dead parts' sentences.
        let mut kept_sentences: Vec<Sentence> = Vec::new();
        let mut j: usize = 0;
        while j < self.sentences.len()
            invariant
                *self == *old(self),
                srows == self.sentences@,
                forall|x: int|
                    #[trigger] dead@.contains(x) <==> exists|k: int|
                        0 <= k < dead_ids@.len() && dead_ids@[k] as int == x,
                0 <= j <= srows.len(),
                views_of(kept_sentences@) == sentences_keep_out_parts(srows.take(j as int), dead@),
            decreases srows.len() - j,
        {
            proof {
                assert(srows.take(j + 1).drop_last() =~= srows.take(j as int));
                assert(srows.take(j + 1).last() == srows[j as int]);
            }
            if !contains_dead(dead_ids, self.sentences[j].part_id) {
                proof {
                    assert(!dead@.contains(srows[j as int]@.part_id));
                }
                kept_sentences.push(copy_sentence(&self.sentences[j]));
                proof {
                    assert(views_of(kept_sentences@) =~= sentences_keep_out_parts(
                        srows.take(j + 1),
                        dead@,
                    ));
                }
            } else {
                proof {
                    assert(dead@.contains(srows[j as int]@.part_id));
                }
            }
            j = j + 1;
        }

        // Drop the words of those sentences.
        let ghost wrows = self.words@;
        let mut kept_words: Vec<Word> = Vec::new();
        let mut m: usize = 0;
        while m < self.words.len()
            invariant
                *self == *old(self),
                wrows == self.words@,
                srows == self.sentences@,
                dead_sents == sentence_ids_with_parts(srows, dead@),
                forall|x: int|
                    #[trigger] dead_sents.contains(x) <==> exists|k: int|
                        0 <= k < sids@.len() && sids@[k] as int == x,
                0 <= m <= wrows.len(),
                views_of(kept_words@) == words_keep_sentences(wrows.take(m as int), dead_sents),
            decreases wrows.len() - m,
        {
            proof {
                assert(wrows.take(m + 1).drop_last() =~= wrows.take(m as int));
                assert(wrows.take(m + 1).last() == wrows[m as int]);
            }
            if !contains_dead(&sids, self.words[m].sentence_id) {
                proof {
                    assert(!dead_sents.contains(wrows[m as int]@.sentence_id));
                }
                kept_words.push(copy_word(&self.words[m]));
                proof {
                    assert(views_of(kept_words@) =~= words_keep_sentences(
                        wrows.take(m + 1),
                        dead_sents,
                    ));
                }
            } else {
                proof {
                    assert(dead_sents.contains(wrows[m as int]@.sentence_id));
                }
            }
            m = m + 1;
        }

        // Drop the dead parts' approvals.
        let ghost arows = self.approvals@;
        let mut kept_approvals: Vec<Approval> = Vec::new();
        let mut a: usize = 0;
        while a < self.approvals.len()
            invariant
                *self == *old(self),
                arows == self.approvals@,
                forall|x: int|
                    #[trigger] dead@.contains(x) <==> exists|k: int|
                        0 <= k < dead_ids@.len() && dead_ids@[k] as int == x,
                0 <= a <= arows.len(),
                views_of(kept_approvals@) == approvals_keep_out_parts(arows.take(a as int), dead@),
            decreases arows.len() - a,
        {
            proof {
                assert(arows.take(a + 1).drop_last() =~= arows.take(a as int));
                assert(arows.take(a + 1).last() == arows[a as int]);
            }
            if !contains_dead(dead_ids, self.approvals[a].part_id) {
                proof {
                    assert(!dead@.contains(arows[a as int]@.part_id));
                }
                kept_approvals.push(self.approvals[a]);
                proof {
                    assert(views_of(kept_approvals@) =~= approvals_keep_out_parts(
                        arows.take(a + 1),
                        dead@,
                    ));
                }
            } else {
                proof {
                    assert(dead@.contains(arows[a as int]@.part_id));
                }
            }
            a = a + 1;
        }

        // Drop the dead parts themselves.
        let ghost prows = self.parts@;
        let mut kept_parts: Vec<Part> = Vec::new();
        let mut p: usize = 0;
        while p < self.parts.len()
            invariant
                *self == *old(self),
                prows == self.parts@,
                forall|x: int|
                    #[trigger] dead@.contains(x) <==> exists|k: int|
                        0 <= k < dead_ids@.len() && dead_ids@[k] as int == x,
                0 <= p <= prows.len(),
                views_of(kept_parts@) == parts_keep_out(prows.take(p as int), dead@),
            decreases prows.len() - p,
        {
            proof {
                assert(prows.take(p + 1).drop_last() =~= prows.take(p as int));
                assert(prows.take(p + 1).last() == prows[p as int]);
            }
            if !contains_dead(dead_ids, self.parts[p].id) {
                proof {
                    assert(!dead@.contains(prows[p as int]@.id));
                }
                kept_parts.push(copy_part(&self.parts[p]));
                proof {
                    assert(views_of(kept_parts@) =~= parts_keep_out(prows.take(p + 1), dead@));
                }
            } else {
                proof {
                    assert(dead@.contains(prows[p as int]@.id));
                }
            }
            p = p + 1;
        }

        proof {
            assert(srows.take(srows.len() as int) =~= srows);
            assert(wrows.take(wrows.len() as int) =~= wrows);
            assert(arows.take(arows.len() as int) =~= arows);
            assert(prows.take(prows.len() as int) =~= prows);
            lemma_sentences_keep_out_parts_ids(srows, dead@);
            lemma_words_keep_sentences_ids(wrows, dead_sents);
            lemma_approvals_keep_out_parts_ids(arows, dead@);
            lemma_parts_keep_out_ids(prows, dead@);
        }
        self.sentences = kept_sentences;
        self.words = kept_words;
        self.approvals = kept_approvals;
        self.parts = kept_parts;
        proof {
            assert(forall|k: int|
                0 <= k < self.sentences@.len() ==> (#[trigger] self.sentences@[k])@
                    == sentences_keep_out_parts(srows, dead@)[k]);
            assert(forall|k: int|
                0 <= k < self.words@.len() ==> (#[trigger] self.words@[k])@
                    == words_keep_sentences(wrows, dead_sents)[k]);
            assert(forall|k: int|
                0 <= k < self.approvals@.len() ==> (#[trigger] self.approvals@[k])@
                    == approvals_keep_out_parts(arows, dead@)[k]);
            assert(forall|k: int|
                0 <= k < self.parts@.len() ==> (#[trigger] self.parts@[k])@ == parts_keep_out(
                    prows,
                    dead@,
                )[k]);
        }
    }
}

/// Whether the id occurs in the list.
fn contains_dead(v: &Vec<i64>, x: i64) -> (r: bool)
    ensures
        r <==> exists|k: int| 0 <= k < v@.len() && v@[k] == x,
{
    let mut i: usize = 0;
    while i < v.len()
        invariant
            0 <= i <= v@.len(),
            forall|k: int| 0 <= k < i ==> v@[k] != x,
        decreases v@.len() - i,
    {
        if v[i] == x {
            return true;
        }
        i = i + 1;
    }
    false
}

impl Store {
    /// Deletes the episode with the given id, its join rows, its parts and
    /// everything they own; `NotFound` exactly when no such row exists.
    #[verifier::rlimit(50)]
    pub fn remove_episode(&mut self, id: i64) -> (r: Result<(), Error>)
        requires
            old(self).wf(),
        ensures
            final(self).wf(),
            r is Ok <==> has_episode(old(self).episodes@, id as int),
            r is Err ==> r == Err::<(), Error>(Error::NotFound) && *final(self) == *old(self),
            r is Ok ==> {
                &&& views_of(final(self).episodes@) == episodes_without(
                    old(self).episodes@,
                    id as int,
                )
                &&& views_of(final(self).episode_speakers@) == episode_speakers_without_episode(
                    old(self).episode_speakers@,
                    id as int,
                )
                &&& views_of(final(self).parts@) == parts_keep_out(
                    old(self).parts@,
                    part_ids_with_episode(old(self).parts@, id as int),
                )
                &&& views_of(final(self).sentences@) == sentences_keep_out_parts(
                    old(self).sentences@,
                    part_ids_with_episode(old(self).parts@, id as int),
                )
                &&& views_of(final(self).words@) == words_keep_sentences(
                    old(self).words@,
                    sentence_ids_with_parts(
                        old(self).sentences@,
                        part_ids_with_episode(old(self).parts@, id as int),
                    ),
                )
                &&& views_of(final(self).approvals@) == approvals_keep_out_parts(
                    old(self).approvals@,
                    part_ids_with_episode(old(self).parts@, id as int),
                )
                &&& final(self).speakers@ == old(self).speakers@
                &&& final(self).next_id == old(self).next_id
            },
    {
        match self.get_episode(id) {
            None => {
                return Err(Error::NotFound);
            },
            Some(_) => {},
        }
        let key = id;

        // The ids of the episode's parts.
        let ghost prows0 = self.parts@;
        let ghost dead = part_ids_with_episode(prows0, key as int);
        let mut pids: Vec<i64> = Vec::new();
        let mut c: usize = 0;
        while c < self.parts.len()
            invariant
                *self == *old(self),
                old(self).wf(),
                prows0 == self.parts@,
                0 <= c <= prows0.len(),
                forall|x: int|
                    #[trigger] part_ids_with_episode(prows0.take(c as int), key as int).contains(x)
                        <==> exists|k: int| 0 <= k < pids@.len() && pids@[k] as int == x,
            decreases prows0.len() - c,
        {
            proof {
                assert(prows0.take(c + 1).drop_last() =~= prows0.take(c as int));
                assert(prows0.take(c + 1).last() == prows0[c as int]);
            }
            let ghost pre_ids = pids@;
            let ghost pre_set = part_ids_with_episode(prows0.take(c as int), key as int);
            let ghost post_set = part_ids_with_episode(prows0.take(c + 1), key as int);
            if self.parts[c].episode_id == key {
                pids.push(self.parts[c].id);
                proof {
                    assert(post_set == pre_set.insert(prows0[c as int]@.id));
                    assert forall|x: int| #[trigger] post_set.contains(x) implies exists|k: int|
                        0 <= k < pids@.len() && pids@[k] as int == x by {
                        if x == prows0[c as int]@.id {
                            assert(pids@[pids@.len() - 1] as int == x);
                        } else {
                            assert(pre_set.contains(x));
                            let k = choose|k: int|
                                0 <= k < pre_ids.len() && pre_ids[k] as int == x;
                            assert(pids@[k] as int == x);
                        }
                    }
                    assert forall|x: int|
                        (exists|k: int| 0 <= k < pids@.len() && pids@[k] as int == x)
                            implies #[trigger] post_set.contains(x) by {
                        let k = choose|k: int| 0 <= k < pids@.len() && pids@[k] as int == x;
                        if k < pre_ids.len() {
                            assert(pre_ids[k] as int == x);
                            assert(pre_set.contains(x));
                        } else {
                            assert(x == prows0[c as int]@.id);
                        }
                    }
                }
            } else {
                proof {
                    assert(post_set == pre_set);
                }
            }
            c = c + 1;
        }
        proof {
            assert(prows0.take(prows0.len() as int) =~= prows0);
        }

        self.remove_parts_cascade(&pids, Ghost(dead));

        // Drop the episode's join rows.
        let ghost erows = self.episode_speakers@;
        let mut kept_es: Vec<EpisodeSpeaker> = Vec::new();
        let mut e: usize = 0;
        while e < self.episode_speakers.len()
            invariant
                erows == self.episode_speakers@,
                0 <= e <= erows.len(),
                views_of(kept_es@) == episode_speakers_without_episode(
                    erows.take(e as int),
                    id as int,
                ),
            decreases erows.len() - e,
        {
            proof {
                assert(erows.take(e + 1).drop_last() =~= erows.take(e as int));
                assert(erows.take(e + 1).last() == erows[e as int]);
            }
            if self.episode_speakers[e].episode_id != id {
                kept_es.push(self.episode_speakers[e]);
                proof {
                    assert(views_of(kept_es@) =~= episode_speakers_without_episode(
                        erows.take(e + 1),
                        id as int,
                    ));
                }
            }
            e = e + 1;
        }

        // Drop the episode itself.
        let ghost eprows = self.episodes@;
        let mut kept_episodes: Vec<Episode> = Vec::new();
        let mut q: usize = 0;
        while q < self.episodes.len()
            invariant
                eprows == self.episodes@,
                0 <= q <= eprows.len(),
                views_of(kept_episodes@) == episodes_without(eprows.take(q as int), id as int),
            decreases eprows.len() - q,
        {
            proof {
                assert(eprows.take(q + 1).drop_last() =~= eprows.take(q as int));
                assert(eprows.take(q + 1).last() == eprows[q as int]);
            }
            if self.episodes[q].id != id {
                kept_episodes.push(copy_episode(&self.episodes[q]));
                proof {
                    assert(views_of(kept_episodes@) =~= episodes_without(
                        eprows.take(q + 1),
                        id as int,
                    ));
                }
            }
            q = q + 1;
        }

        proof {
            assert(erows.take(erows.len() as int) =~= erows);
            assert(eprows.take(eprows.len() as int) =~= eprows);
            lemma_episode_speakers_without_episode_ids(erows, id as int);
            lemma_episodes_without_ids(eprows, id as int);
        }
        self.episode_speakers = kept_es;
        self.episodes = kept_episodes;
        proof {
            assert(forall|k: int|
                0 <= k < self.episode_speakers@.len() ==> (#[trigger] self.episode_speakers@[k])@
                    == episode_speakers_without_episode(erows, id as int)[k]);
            assert(forall|k: int|
                0 <= k < self.episodes@.len() ==> (#[trigger] self.episodes@[k])@
                    == episodes_without(eprows, id as int)[k]);
        }
        Ok(())
    }

    /// Deletes the join row with the given id together with the parts bound
    /// to it and everything they own; `NotFound` exactly when no such row
    /// exists.
    #[verifier::rlimit(50)]
    pub fn remove_episode_speaker(&mut self, id: i64) -> (r: Result<(), Error>)
        requires
            old(self).wf(),
        ensures
            final(self).wf(),
            r is Ok <==> has_episode_speaker(old(self).episode_speakers@, id as int),
            r is Err ==> r == Err::<(), Error>(Error::NotFound) && *final(self) == *old(self),
            r is Ok ==> {
                &&& views_of(final(self).episode_speakers@) == episode_speakers_without(
                    old(self).episode_speakers@,
                    id as int,
                )
                &&& views_of(final(self).parts@) == parts_keep_out(
                    old(self).parts@,
                    part_ids_with_episode_speakers(
                        old(self).parts@,
                        Set::empty().insert(id as int),
                    ),
                )
                &&& views_of(final(self).sentences@) == sentences_keep_out_parts(
                    old(self).sentences@,
                    part_ids_with_episode_speakers(
                        old(self).parts@,
                        Set::empty().insert(id as int),
                    ),
                )
                &&& views_of(final(self).words@) == words_keep_sentences(
                    old(self).words@,
                    sentence_ids_with_parts(
                        old(self).sentences@,
                        part_ids_with_episode_speakers(
                            old(self).parts@,
                            Set::empty().insert(id as int),
                        ),
                    ),
                )
                &&& views_of(final(self).approvals@) == approvals_keep_out_parts(
                    old(self).approvals@,
                    part_ids_with_episode_speakers(
                        old(self).parts@,
                        Set::empty().insert(id as int),
                    ),
                )
                &&& final(self).episodes@ == old(self).episodes@
                &&& final(self).speakers@ == old(self).speakers@
                &&& final(self).next_id == old(self).next_id
            },
    {
        match self.get_episode_speaker(id) {
            None => {
                return Err(Error::NotFound);
            },
            Some(_) => {},
        }
        let ghost es_dead = Set::empty().insert(id as int);
        let ghost prows0 = self.parts@;
        let ghost dead = part_ids_with_episode_speakers(prows0, es_dead);
        let mut pids: Vec<i64> = Vec::new();
        let mut c: usize = 0;
        while c < self.parts.len()
            invariant
                *self == *old(self),
                old(self).wf(),
                prows0 == self.parts@,
                es_dead == Set::empty().insert(id as int),
                0 <= c <= prows0.len(),
                forall|x: int|
                    #[trigger] part_ids_with_episode_speakers(
                        prows0.take(c as int),
                        es_dead,
                    ).contains(x) <==> exists|k: int|
                        0 <= k < pids@.len() && pids@[k] as int == x,
            decreases prows0.len() - c,
        {
            proof {
                assert(prows0.take(c + 1).drop_last() =~= prows0.take(c as int));
                assert(prows0.take(c + 1).last() == prows0[c as int]);
            }
            let ghost pre_ids = pids@;
            let ghost pre_set = part_ids_with_episode_speakers(prows0.take(c as int), es_dead);
            let ghost post_set = part_ids_with_episode_speakers(prows0.take(c + 1), es_dead);
            if self.parts[c].episode_speaker_id == id {
                pids.push(self.parts[c].id);
                proof {
                    assert(es_dead.contains(prows0[c as int]@.episode_speaker_id));
                    assert(post_set == pre_set.insert(prows0[c as int]@.id));
                    assert forall|x: int| #[trigger] post_set.contains(x) implies exists|k: int|
                        0 <= k < pids@.len() && pids@[k] as int == x by {
                        if x == prows0[c as int]@.id {
                            assert(pids@[pids@.len() - 1] as int == x);
                        } else {
                            assert(pre_set.contains(x));
                            let k = choose|k: int|
                                0 <= k < pre_ids.len() && pre_ids[k] as int == x;
                            assert(pids@[k] as int == x);
                        }
                    }
                    assert forall|x: int|
                        (exists|k: int| 0 <= k < pids@.len() && pids@[k] as int == x)
                            implies #[trigger] post_set.contains(x) by {
                        let k = choose|k: int| 0 <= k < pids@.len() && pids@[k] as int == x;
                        if k < pre_ids.len() {
                            assert(pre_ids[k] as int == x);
                            assert(pre_set.contains(x));
                        } else {
                            assert(x == prows0[c as int]@.id);
                        }
                    }
                }
            } else {
                proof {
                    assert(!es_dead.contains(prows0[c as int]@.episode_speaker_id));
                    assert(post_set == pre_set);
                }
            }
            c = c + 1;
        }
        proof {
            assert(prows0.take(prows0.len() as int) =~= prows0);
        }
        self.remove_parts_cascade(&pids, Ghost(dead));

        // Drop the join row itself.
        let ghost erows = self.episode_speakers@;
        let mut kept_es: Vec<EpisodeSpeaker> = Vec::new();
        let mut e: usize = 0;
        while e < self.episode_speakers.len()
            invariant
                erows == self.episode_speakers@,
                0 <= e <= erows.len(),
                views_of(kept_es@) == episode_speakers_without(erows.take(e as int), id as int),
            decreases erows.len() - e,
        {
            proof {
                assert(erows.take(e + 1).drop_last() =~= erows.take(e as int));
                assert(erows.take(e + 1).last() == erows[e as int]);
            }
            if self.episode_speakers[e].id != id {
                kept_es.push(self.episode_speakers[e]);
                proof {
                    assert(views_of(kept_es@) =~= episode_speakers_without(
                        erows.take(e + 1),
                        id as int,
                    ));
                }
            }
            e = e + 1;
        }
        proof {
            assert(erows.take(erows.len() as int) =~= erows);
            lemma_episode_speakers_without_ids(erows, id as int);
        }
        self.episode_speakers = kept_es;
        proof {
            assert(forall|k: int|
                0 <= k < self.episode_speakers@.len() ==> (#[trigger] self.episode_speakers@[k])@
                    == episode_speakers_without(erows, id as int)[k]);
        }
        Ok(())
    }
}

impl Store {
    /// Deletes the speaker with the given id, every join row binding it to
    /// an episode, the parts bound through those rows and everything they
    /// own; `NotFound` exactly when no such row exists.
    #[verifier::rlimit(50)]
    pub fn remove_speaker(&mut self, id: i64) -> (r: Result<(), Error>)
        requires
            old(self).wf(),
        ensures
            final(self).wf(),
            r is Ok <==> has_speaker(old(self).speakers@, id as int),
            r is Err ==> r == Err::<(), Error>(Error::NotFound) && *final(self) == *old(self),
            r is Ok ==> {
                &&& views_of(final(self).speakers@) == speakers_without(
                    old(self).speakers@,
                    id as int,
                )
                &&& views_of(final(self).episode_speakers@) == episode_speakers_without_speaker(
                    old(self).episode_speakers@,
                    id as int,
                )
                &&& views_of(final(self).parts@) == parts_keep_out(
                    old(self).parts@,
                    part_ids_with_episode_speakers(
                        old(self).parts@,
                        episode_speaker_ids_with_speaker(old(self).episode_speakers@, id as int),
                    ),
                )
                &&& views_of(final(self).sentences@) == sentences_keep_out_parts(
                    old(self).sentences@,
                    part_ids_with_episode_speakers(
                        old(self).parts@,
                        episode_speaker_ids_with_speaker(old(self).episode_speakers@, id as int),
                    ),
                )
                &&& views_of(final(self).words@) == words_keep_sentences(
                    old(self).words@,
                    sentence_ids_with_parts(
                        old(self).sentences@,
                        part_ids_with_episode_speakers(
                            old(self).parts@,
                            episode_speaker_ids_with_speaker(
                                old(self).episode_speakers@,
                                id as int,
                            ),
                        ),
                    ),
                )
                &&& views_of(final(self).approvals@) == approvals_keep_out_parts(
                    old(self).approvals@,
                    part_ids_with_episode_speakers(
                        old(self).parts@,
                        episode_speaker_ids_with_speaker(old(self).episode_speakers@, id as int),
                    ),
                )
                &&& final(self).episodes@ == old(self).episodes@
                &&& final(self).next_id == old(self).next_id
            },
    {
        match self.get_speaker(id) {
            None => {
                return Err(Error::NotFound);
            },
            Some(_) => {},
        }

        // The ids of this speaker's join rows.
        let ghost erows0 = self.episode_speakers@;
        let ghost es_dead = episode_speaker_ids_with_speaker(erows0, id as int);
        let mut es_ids: Vec<i64> = Vec::new();
        let mut c: usize = 0;
        while c < self.episode_speakers.len()
            invariant
                *self == *old(self),
                old(self).wf(),
                erows0 == self.episode_speakers@,
                0 <= c <= erows0.len(),
                forall|x: int|
                    #[trigger] episode_speaker_ids_with_speaker(
                        erows0.take(c as int),
                        id as int,
                    ).contains(x) <==> exists|k: int|
                        0 <= k < es_ids@.len() && es_ids@[k] as int == x,
            decreases erows0.len() - c,
        {
            proof {
                assert(erows0.take(c + 1).drop_last() =~= erows0.take(c as int));
                assert(erows0.take(c + 1).last() == erows0[c as int]);
            }
            let ghost pre_ids = es_ids@;
            let ghost pre_set = episode_speaker_ids_with_speaker(erows0.take(c as int), id as int);
            let ghost post_set = episode_speaker_ids_with_speaker(erows0.take(c + 1), id as int);
            if self.episode_speakers[c].speaker_id == id {
                es_ids.push(self.episode_speakers[c].id);
                proof {
                    assert(post_set == pre_set.insert(erows0[c as int]@.id));
                    assert forall|x: int| #[trigger] post_set.contains(x) implies exists|k: int|
                        0 <= k < es_ids@.len() && es_ids@[k] as int == x by {
                        if x == erows0[c as int]@.id {
                            assert(es_ids@[es_ids@.len() - 1] as int == x);
                        } else {
                            assert(pre_set.contains(x));
                            let k = choose|k: int|
                                0 <= k < pre_ids.len() && pre_ids[k] as int == x;
                            assert(es_ids@[k] as int == x);
                        }
                    }
                    assert forall|x: int|
                        (exists|k: int| 0 <= k < es_ids@.len() && es_ids@[k] as int == x)
                            implies #[trigger] post_set.contains(x) by {
                        let k = choose|k: int| 0 <= k < es_ids@.len() && es_ids@[k] as int == x;
                        if k < pre_ids.len() {
                            assert(pre_ids[k] as int == x);
                            assert(pre_set.contains(x));
                        } else {
                            assert(x == erows0[c as int]@.id);
                        }
                    }
                }
            } else {
                proof {
                    assert(post_set == pre_set);
                }
            }
            c = c + 1;
        }
        proof {
            assert(erows0.take(erows0.len() as int) =~= erows0);
        }

        // The ids of the parts bound through those join rows.
        let ghost prows0 = self.parts@;
        let ghost dead = part_ids_with_episode_speakers(prows0, es_dead);
        let mut pids: Vec<i64> = Vec::new();
        let mut d: usize = 0;
        while d < self.parts.len()
            invariant
                *self == *old(self),
                old(self).wf(),
                prows0 == self.parts@,
                erows0 == self.episode_speakers@,
                es_dead == episode_speaker_ids_with_speaker(erows0, id as int),
                forall|x: int|
                    #[trigger] es_dead.contains(x) <==> exists|k: int|
                        0 <= k < es_ids@.len() && es_ids@[k] as int == x,
                0 <= d <= prows0.len(),
                forall|x: int|
                    #[trigger] part_ids_with_episode_speakers(
                        prows0.take(d as int),
                        es_dead,
                    ).contains(x) <==> exists|k: int|
                        0 <= k < pids@.len() && pids@[k] as int == x,
            decreases prows0.len() - d,
        {
            proof {
                assert(prows0.take(d + 1).drop_last() =~= prows0.take(d as int));
                assert(prows0.take(d + 1).last() == prows0[d as int]);
            }
            let ghost pre_ids = pids@;
            let ghost pre_set = part_ids_with_episode_speakers(prows0.take(d as int), es_dead);
            let ghost post_set = part_ids_with_episode_speakers(prows0.take(d + 1), es_dead);
            let bound = contains_dead(&es_ids, self.parts[d].episode_speaker_id);
            proof {
                assert(bound <==> es_dead.contains(prows0[d as int]@.episode_speaker_id)) by {
                    if bound {
                        let k = choose|k: int|
                            0 <= k < es_ids@.len() && es_ids@[k]
                                == self.parts@[d as int].episode_speaker_id;
                        assert(es_ids@[k] as int == prows0[d as int]@.episode_speaker_id);
                    } else {
                        if es_dead.contains(prows0[d as int]@.episode_speaker_id) {
                            let k = choose|k: int|
                                0 <= k < es_ids@.len() && es_ids@[k] as int
                                    == prows0[d as int]@.episode_speaker_id;
                            assert(es_ids@[k] == self.parts@[d as int].episode_speaker_id);
                        }
                    }
                }
            }
            if bound {
                pids.push(self.parts[d].id);
                proof {
                    assert(post_set == pre_set.insert(prows0[d as int]@.id));
                    assert forall|x: int| #[trigger] post_set.contains(x) implies exists|k: int|
                        0 <= k < pids@.len() && pids@[k] as int == x by {
                        if x == prows0[d as int]@.id {
                            assert(pids@[pids@.len() - 1] as int == x);
                        } else {
                            assert(pre_set.contains(x));
                            let k = choose|k: int|
                                0 <= k < pre_ids.len() && pre_ids[k] as int == x;
                            assert(pids@[k] as int == x);
                        }
                    }
                    assert forall|x: int|
                        (exists|k: int| 0 <= k < pids@.len() && pids@[k] as int == x)
                            implies #[trigger] post_set.contains(x) by {
                        let k = choose|k: int| 0 <= k < pids@.len() && pids@[k] as int == x;
                        if k < pre_ids.len() {
                            assert(pre_ids[k] as int == x);
                            assert(pre_set.contains(x));
                        } else {
                            assert(x == prows0[d as int]@.id);
                        }
                    }
                }
            } else {
                proof {
                    assert(post_set == pre_set);
                }
            }
            d = d + 1;
        }
        proof {
            assert(prows0.take(prows0.len() as int) =~= prows0);
        }
        self.remove_parts_cascade(&pids, Ghost(dead));

        // Drop the join rows, then the speaker itself.
        let ghost erows = self.episode_speakers@;
        let mut kept_es: Vec<EpisodeSpeaker> = Vec::new();
        let mut e: usize = 0;
        while e < self.episode_speakers.len()
            invariant
                erows == self.episode_speakers@,
                0 <= e <= erows.len(),
                views_of(kept_es@) == episode_speakers_without_speaker(
                    erows.take(e as int),
                    id as int,
                ),
            decreases erows.len() - e,
        {
            proof {
                assert(erows.take(e + 1).drop_last() =~= erows.take(e as int));
                assert(erows.take(e + 1).last() == erows[e as int]);
            }
            if self.episode_speakers[e].speaker_id != id {
                kept_es.push(self.episode_speakers[e]);
                proof {
                    assert(views_of(kept_es@) =~= episode_speakers_without_speaker(
                        erows.take(e + 1),
                        id as int,
                    ));
                }
            }
            e = e + 1;
        }

        let ghost sprows = self.speakers@;
        let mut kept_speakers: Vec<Speaker> = Vec::new();
        let mut q: usize = 0;
        while q < self.speakers.len()
            invariant
                sprows == self.speakers@,
                0 <= q <= sprows.len(),
                views_of(kept_speakers@) == speakers_without(sprows.take(q as int), id as int),
            decreases sprows.len() - q,
        {
            proof {
                assert(sprows.take(q + 1).drop_last() =~= sprows.take(q as int));
                assert(sprows.take(q + 1).last() == sprows[q as int]);
            }
            if self.speakers[q].id != id {
                kept_speakers.push(copy_speaker(&self.speakers[q]));
                proof {
                    assert(views_of(kept_speakers@) =~= speakers_without(
                        sprows.take(q + 1),
                        id as int,
                    ));
                }
            }
            q = q + 1;
        }

        proof {
            assert(erows.take(erows.len() as int) =~= erows);
            assert(sprows.take(sprows.len() as int) =~= sprows);
            lemma_episode_speakers_without_speaker_ids(erows, id as int);
            lemma_speakers_without_ids(sprows, id as int);
        }
        self.episode_speakers = kept_es;
        self.speakers = kept_speakers;
        proof {
            assert(forall|k: int|
                0 <= k < self.episode_speakers@.len() ==> (#[trigger] self.episode_speakers@[k])@
                    == episode_speakers_without_speaker(erows, id as int)[k]);
            assert(forall|k: int|
                0 <= k < self.speakers@.len() ==> (#[trigger] self.speakers@[k])@
                    == speakers_without(sprows, id as int)[k]);
        }
        Ok(())
    }
}

} // verus!
