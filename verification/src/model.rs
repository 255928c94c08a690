//! The relational rows of the transcription schema, as plain values.
//!
//! Times are integer ticks (milliseconds of audio time); the ASR confidence
//! of a word and the words-per-second rate of a sentence are stored in
//! thousandths, so that every field is exact integer data.

use vstd::prelude::*;

verus! {

/// One podcast episode.
#[derive(Clone, Debug)]
pub struct Episode {
    pub id: i64,
    pub external_id: Option<String>,
    pub title: String,
    pub link: String,
    pub description: String,
    /// Publication time as seconds since the epoch, if known.
    pub published_at: Option<i64>,
    pub filename: String,
    pub has_audio_file: bool,
}

/// A speaker, shared across episodes.
#[derive(Clone, Debug)]
pub struct Speaker {
    pub id: i64,
    pub name: String,
    pub description: Option<String>,
}

/// The join row binding a speaker to an episode; parts reference it.
#[derive(Clone, Copy, Debug, PartialEq, Eq, Structural)]
pub struct EpisodeSpeaker {
    pub id: i64,
    pub episode_id: i64,
    pub speaker_id: i64,
}

/// A contiguous spoken segment of one speaker within one episode.
#[derive(Clone, Debug)]
pub struct Part {
    pub id: i64,
    pub episode_id: i64,
    pub episode_speaker_id: i64,
    pub text: String,
    pub part_type: i32,
    pub starts_at: i64,
    pub ends_at: i64,
}

/// A sub-segment of a part.
#[derive(Clone, Debug)]
pub struct Sentence {
    pub id: i64,
    pub part_id: i64,
    pub text: String,
    pub starts_at: i64,
    pub ends_at: i64,
    /// Speaking rate in thousandths of a word per second.
    pub words_per_second: i64,
}

/// The smallest timed transcript unit.
#[derive(Clone, Debug)]
pub struct Word {
    pub id: i64,
    pub sentence_id: i64,
    pub text: String,
    /// Manual correction; empty means no override.
    pub overwrite: String,
    pub starts_at: i64,
    pub ends_at: i64,
    /// ASR confidence in thousandths (0 ..= 1000).
    pub probability: i64,
    /// A hidden word is excluded from the reconstructed text.
    pub hidden: bool,
}

/// A per-part sign-off by one user.
#[derive(Clone, Copy, Debug, PartialEq, Eq, Structural)]
pub struct Approval {
    pub id: i64,
    pub part_id: i64,
    pub user_id: i64,
}

/// Mathematical value of an [`Episode`].
pub ghost struct EpisodeV {
    pub id: int,
    pub external_id: Option<Seq<char>>,
    pub title: Seq<char>,
    pub link: Seq<char>,
    pub description: Seq<char>,
    pub published_at: Option<int>,
    pub filename: Seq<char>,
    pub has_audio_file: bool,
}

/// Mathematical value of a [`Speaker`].
pub ghost struct SpeakerV {
    pub id: int,
    pub name: Seq<char>,
    pub description: Option<Seq<char>>,
}

/// Mathematical value of an [`EpisodeSpeaker`].
pub ghost struct EpisodeSpeakerV {
    pub id: int,
    pub episode_id: int,
    pub speaker_id: int,
}

/// Mathematical value of a [`Part`].
pub ghost struct PartV {
    pub id: int,
    pub episode_id: int,
    pub episode_speaker_id: int,
    pub text: Seq<char>,
    pub part_type: int,
    pub starts_at: int,
    pub ends_at: int,
}

/// Mathematical value of a [`Sentence`].
pub ghost struct SentenceV {
    pub id: int,
    pub part_id: int,
    pub text: Seq<char>,
    pub starts_at: int,
    pub ends_at: int,
    pub words_per_second: int,
}

/// Mathematical value of a [`Word`].
pub ghost struct WordV {
    pub id: int,
    pub sentence_id: int,
    pub text: Seq<char>,
    pub overwrite: Seq<char>,
    pub starts_at: int,
    pub ends_at: int,
    pub probability: int,
    pub hidden: bool,
}

/// Mathematical value of an [`Approval`].
pub ghost struct ApprovalV {
    pub id: int,
    pub part_id: int,
    pub user_id: int,
}

pub open spec fn opt_str_view(o: Option<String>) -> Option<Seq<char>> {
    match o {
        Some(s) => Some(s@),
        None => None,
    }
}

pub open spec fn opt_i64_view(o: Option<i64>) -> Option<int> {
    match o {
        Some(n) => Some(n as int),
        None => None,
    }
}

impl View for Episode {
    type V = EpisodeV;

    open spec fn view(&self) -> EpisodeV {
        EpisodeV {
            id: self.id as int,
            external_id: opt_str_view(self.external_id),
            title: self.title@,
            link: self.link@,
            description: self.description@,
            published_at: opt_i64_view(self.published_at),
            filename: self.filename@,
            has_audio_file: self.has_audio_file,
        }
    }
}

impl View for Speaker {
    type V = SpeakerV;

    open spec fn view(&self) -> SpeakerV {
        SpeakerV {
            id: self.id as int,
            name: self.name@,
            description: opt_str_view(self.description),
        }
    }
}

impl View for EpisodeSpeaker {
    type V = EpisodeSpeakerV;

    open spec fn view(&self) -> EpisodeSpeakerV {
        EpisodeSpeakerV {
            id: self.id as int,
            episode_id: self.episode_id as int,
            speaker_id: self.speaker_id as int,
        }
    }
}

impl View for Part {
    type V = PartV;

    open spec fn view(&self) -> PartV {
        PartV {
            id: self.id as int,
            episode_id: self.episode_id as int,
            episode_speaker_id: self.episode_speaker_id as int,
            text: self.text@,
            part_type: self.part_type as int,
            starts_at: self.starts_at as int,
            ends_at: self.ends_at as int,
        }
    }
}

impl View for Sentence {
    type V = SentenceV;

    open spec fn view(&self) -> SentenceV {
        SentenceV {
            id: self.id as int,
            part_id: self.part_id as int,
            text: self.text@,
            starts_at: self.starts_at as int,
            ends_at: self.ends_at as int,
            words_per_second: self.words_per_second as int,
        }
    }
}

impl View for Word {
    type V = WordV;

    open spec fn view(&self) -> WordV {
        WordV {
            id: self.id as int,
            sentence_id: self.sentence_id as int,
            text: self.text@,
            overwrite: self.overwrite@,
            starts_at: self.starts_at as int,
            ends_at: self.ends_at as int,
            probability: self.probability as int,
            hidden: self.hidden,
        }
    }
}

impl View for Approval {
    type V = ApprovalV;

    open spec fn view(&self) -> ApprovalV {
        ApprovalV {
            id: self.id as int,
            part_id: self.part_id as int,
            user_id: self.user_id as int,
        }
    }
}

/// The views of a whole row sequence, elementwise.
pub open spec fn views_of<T: View>(rows: Seq<T>) -> Seq<T::V> {
    rows.map_values(|r: T| r@)
}

/// A copy of an optional string with the same mathematical value.
pub fn copy_opt_string(o: &Option<String>) -> (r: Option<String>)
    ensures
        opt_str_view(r) == opt_str_view(*o),
{
    match o {
        Some(s) => Some(s.clone()),
        None => None,
    }
}

/// An episode copy with an equal mathematical value.
pub fn copy_episode(e: &Episode) -> (r: Episode)
    ensures
        r@ == e@,
{
    Episode {
        id: e.id,
        external_id: copy_opt_string(&e.external_id),
        title: e.title.clone(),
        link: e.link.clone(),
        description: e.description.clone(),
        published_at: e.published_at,
        filename: e.filename.clone(),
        has_audio_file: e.has_audio_file,
    }
}

/// A speaker copy with an equal mathematical value.
pub fn copy_speaker(s: &Speaker) -> (r: Speaker)
    ensures
        r@ == s@,
{
    Speaker { id: s.id, name: s.name.clone(), description: copy_opt_string(&s.description) }
}

/// A part copy with an equal mathematical value.
pub fn copy_part(p: &Part) -> (r: Part)
    ensures
        r@ == p@,
{
    Part {
        id: p.id,
        episode_id: p.episode_id,
        episode_speaker_id: p.episode_speaker_id,
        text: p.text.clone(),
        part_type: p.part_type,
        starts_at: p.starts_at,
        ends_at: p.ends_at,
    }
}

/// A sentence copy with an equal mathematical value.
pub fn copy_sentence(s: &Sentence) -> (r: Sentence)
    ensures
        r@ == s@,
{
    Sentence {
        id: s.id,
        part_id: s.part_id,
        text: s.text.clone(),
        starts_at: s.starts_at,
        ends_at: s.ends_at,
        words_per_second: s.words_per_second,
    }
}

/// A word copy with an equal mathematical value.
pub fn copy_word(w: &Word) -> (r: Word)
    ensures
        r@ == w@,
{
    Word {
        id: w.id,
        sentence_id: w.sentence_id,
        text: w.text.clone(),
        overwrite: w.overwrite.clone(),
        starts_at: w.starts_at,
        ends_at: w.ends_at,
        probability: w.probability,
        hidden: w.hidden,
    }
}

/// Request body for creating or updating an episode.
#[derive(Clone, Debug)]
pub struct EpisodeParams {
    pub external_id: Option<String>,
    pub title: String,
    pub link: String,
    pub description: String,
    pub published_at: Option<i64>,
    pub filename: String,
    pub has_audio_file: bool,
}

/// Request body for creating or updating a speaker.
#[derive(Clone, Debug)]
pub struct SpeakerParams {
    pub name: String,
    pub description: Option<String>,
}

/// Request body for creating or updating an episode-speaker join row.
#[derive(Clone, Copy, Debug, PartialEq, Eq, Structural)]
pub struct EpisodeSpeakerParams {
    pub speaker_id: i64,
}

/// Request body for creating or updating a part.
#[derive(Clone, Debug)]
pub struct PartParams {
    pub text: String,
    pub part_type: i32,
    pub starts_at: i64,
    pub ends_at: i64,
    pub episode_speaker_id: i64,
}

/// Request body for creating or updating a sentence.
#[derive(Clone, Debug)]
pub struct SentenceParams {
    pub text: String,
    pub starts_at: i64,
    pub ends_at: i64,
    pub words_per_second: i64,
}

/// Request body for creating or updating a word.
#[derive(Clone, Debug)]
pub struct WordParams {
    pub text: String,
    pub overwrite: String,
    pub starts_at: i64,
    pub ends_at: i64,
    pub probability: i64,
    pub hidden: bool,
}

/// A transcription to import into a blank episode.
#[derive(Clone, Debug)]
pub struct ImportTranscription {
    pub transcription: Vec<ImportPart>,
}

/// One spoken segment of an imported transcription.
#[derive(Clone, Debug)]
pub struct ImportPart {
    pub start: i64,
    pub end: i64,
    pub speaker: String,
    pub text: String,
    pub sentences: Vec<ImportSentence>,
}

/// One sentence of an imported segment.
#[derive(Clone, Debug)]
pub struct ImportSentence {
    pub text: String,
    pub words: Vec<ImportWord>,
    pub start: i64,
    pub end: i64,
    pub words_per_second: i64,
}

/// One timed word of an imported sentence.
#[derive(Clone, Debug)]
pub struct ImportWord {
    pub text: String,
    pub start: i64,
    pub end: i64,
    pub probability: i64,
}

/// Where a submitted sentence moves during reflow: into the previous or
/// next part by time, or into a freshly created adjacent part.
#[derive(Clone, Copy, Debug, PartialEq, Eq, Structural)]
pub enum MoveDirective {
    Up,
    UpNew,
    DownNew,
    Down,
}

/// An editor's reflow submission: the part-level fields and the full new
/// partition of the part's words into sentences.
#[derive(Clone, Debug)]
pub struct UiUpdateParams {
    pub part: UiUpdateParamsPart,
    pub sentences: Vec<UiUpdateParamsSentence>,
}

/// The part-level fields of a reflow submission.
#[derive(Clone, Debug)]
pub struct UiUpdateParamsPart {
    pub id: i64,
    pub text: String,
    pub starts_at: i64,
    pub part_type: i32,
    pub ends_at: i64,
    pub episode_speaker_id: i64,
}

/// One submitted sentence: its identity (a non-positive id asks for a new
/// row), its ordered words, and an optional move directive.
#[derive(Clone, Debug)]
pub struct UiUpdateParamsSentence {
    pub sentence: UiUpdateParamsSentenceSentence,
    pub words: Vec<UiUpdateParamsSentenceWord>,
    pub move_sentence: Option<MoveDirective>,
}

/// The sentence-level fields of a submitted sentence.
#[derive(Clone, Debug)]
pub struct UiUpdateParamsSentenceSentence {
    pub id: i64,
    pub text: String,
    pub starts_at: i64,
    pub ends_at: i64,
    pub words_per_second: i64,
}

/// One submitted word, carrying the editor's text, override and hidden
/// flag together with its identity and timing.
#[derive(Clone, Debug)]
pub struct UiUpdateParamsSentenceWord {
    pub id: i64,
    pub text: String,
    pub overwrite: String,
    pub starts_at: i64,
    pub ends_at: i64,
    pub probability: i64,
    pub hidden: bool,
}

} // verus!
