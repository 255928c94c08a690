use transcript_backend::Error;
use transcript_backend::model::{
    EpisodeParams, EpisodeSpeakerParams, PartParams, SentenceParams, SpeakerParams, WordParams,
};
use transcript_backend::store::Store;

fn episode_params(title: &str) -> EpisodeParams {
    EpisodeParams {
        external_id: None,
        title: title.to_string(),
        link: "https://example.test/ep".to_string(),
        description: "a show".to_string(),
        published_at: None,
        filename: "ep.mp3".to_string(),
        has_audio_file: false,
    }
}

fn part_params(text: &str, starts_at: i64, ends_at: i64, es_id: i64) -> PartParams {
    PartParams {
        text: text.to_string(),
        part_type: 0,
        starts_at,
        ends_at,
        episode_speaker_id: es_id,
    }
}

fn sentence_params(text: &str, starts_at: i64, ends_at: i64) -> SentenceParams {
    SentenceParams { text: text.to_string(), starts_at, ends_at, words_per_second: 1000 }
}

fn word_params(text: &str, starts_at: i64, ends_at: i64) -> WordParams {
    WordParams {
        text: text.to_string(),
        overwrite: String::new(),
        starts_at,
        ends_at,
        probability: 900,
        hidden: false,
    }
}

#[test]
fn episode_crud_round_trip() {
    let mut store = Store::new();
    let ep = store.add_episode(&episode_params("one")).unwrap();
    assert_eq!(ep.id, 1);
    let fetched = store.get_episode(ep.id).unwrap();
    assert_eq!(fetched.title, "one");

    let updated = store.update_episode(ep.id, &episode_params("two")).unwrap();
    assert_eq!(updated.title, "two");
    assert_eq!(store.get_episode(ep.id).unwrap().title, "two");

    assert_eq!(store.update_episode(999, &episode_params("x")).err(), Some(Error::NotFound));
    assert!(store.get_episode(999).is_none());
}

#[test]
fn update_scoped_by_parent_is_not_found_for_foreign_rows() {
    let mut store = Store::new();
    let e1 = store.add_episode(&episode_params("a")).unwrap();
    let e2 = store.add_episode(&episode_params("b")).unwrap();
    let sp = store.add_speaker(&SpeakerParams { name: "Ann".to_string(), description: None })
        .unwrap();
    let es = store
        .add_episode_speaker(e1.id, &EpisodeSpeakerParams { speaker_id: sp.id })
        .unwrap();
    let part = store.add_part(e1.id, &part_params("hi", 0, 1000, es.id)).unwrap();

    // The part belongs to e1, so updating it under e2 is NotFound.
    let r = store.update_part(e2.id, part.id, &part_params("new", 0, 1000, es.id));
    assert_eq!(r.err(), Some(Error::NotFound));
    assert_eq!(store.get_part(part.id).unwrap().text, "hi");
}

#[test]
fn can_get_episode_speakers() {
    let mut store = Store::new();
    let ep = store.add_episode(&episode_params("a")).unwrap();
    let sp = store.add_speaker(&SpeakerParams { name: "Ann".to_string(), description: None })
        .unwrap();
    let es = store
        .add_episode_speaker(ep.id, &EpisodeSpeakerParams { speaker_id: sp.id })
        .unwrap();
    let listed = store.list_episode_speakers(ep.id);
    assert_eq!(listed.len(), 1);
    assert_eq!(listed[0].id, es.id);
    assert_eq!(listed[0].speaker_id, sp.id);
    assert!(store.list_episode_speakers(ep.id + 100).is_empty());
}

#[test]
fn can_get_parts() {
    let mut store = Store::new();
    let ep = store.add_episode(&episode_params("a")).unwrap();
    let sp = store.add_speaker(&SpeakerParams { name: "Ann".to_string(), description: None })
        .unwrap();
    let es = store
        .add_episode_speaker(ep.id, &EpisodeSpeakerParams { speaker_id: sp.id })
        .unwrap();
    let p1 = store.add_part(ep.id, &part_params("one", 0, 1000, es.id)).unwrap();
    let p2 = store.add_part(ep.id, &part_params("two", 1000, 2000, es.id)).unwrap();
    let listed = store.list_parts(ep.id);
    assert_eq!(listed.len(), 2);
    assert_eq!(listed[0].id, p1.id);
    assert_eq!(listed[1].id, p2.id);
}

#[test]
fn can_get_sentences() {
    let mut store = Store::new();
    let ep = store.add_episode(&episode_params("a")).unwrap();
    let sp = store.add_speaker(&SpeakerParams { name: "Ann".to_string(), description: None })
        .unwrap();
    let es = store
        .add_episode_speaker(ep.id, &EpisodeSpeakerParams { speaker_id: sp.id })
        .unwrap();
    let part = store.add_part(ep.id, &part_params("hi", 0, 1000, es.id)).unwrap();
    let s = store.add_sentence(part.id, &sentence_params("hi", 0, 1000)).unwrap();
    let listed = store.list_sentences(part.id);
    assert_eq!(listed.len(), 1);
    assert_eq!(listed[0].id, s.id);
    assert_eq!(listed[0].text, "hi");
}

#[test]
fn can_get_words() {
    let mut store = Store::new();
    let ep = store.add_episode(&episode_params("a")).unwrap();
    let sp = store.add_speaker(&SpeakerParams { name: "Ann".to_string(), description: None })
        .unwrap();
    let es = store
        .add_episode_speaker(ep.id, &EpisodeSpeakerParams { speaker_id: sp.id })
        .unwrap();
    let part = store.add_part(ep.id, &part_params("hi", 0, 1000, es.id)).unwrap();
    let s = store.add_sentence(part.id, &sentence_params("hi", 0, 1000)).unwrap();
    let w = store.add_word(s.id, &word_params("hi", 0, 1000)).unwrap();
    let listed = store.list_words(s.id);
    assert_eq!(listed.len(), 1);
    assert_eq!(listed[0].id, w.id);
    assert_eq!(listed[0].text, "hi");
}

#[test]
fn removing_a_part_cascades_to_sentences_words_and_approvals() {
    let mut store = Store::new();
    let ep = store.add_episode(&episode_params("a")).unwrap();
    let sp = store.add_speaker(&SpeakerParams { name: "Ann".to_string(), description: None })
        .unwrap();
    let es = store
        .add_episode_speaker(ep.id, &EpisodeSpeakerParams { speaker_id: sp.id })
        .unwrap();
    let part = store.add_part(ep.id, &part_params("hi there", 0, 5000, es.id)).unwrap();
    let keep_part = store.add_part(ep.id, &part_params("other", 6000, 7000, es.id)).unwrap();
    let s = store.add_sentence(part.id, &sentence_params("hi there", 0, 5000)).unwrap();
    let keep_s = store.add_sentence(keep_part.id, &sentence_params("other", 6000, 7000)).unwrap();
    let w = store.add_word(s.id, &word_params("hi", 0, 2000)).unwrap();
    let keep_w = store.add_word(keep_s.id, &word_params("other", 6000, 7000)).unwrap();
    store.add_approval(part.id, 42).unwrap();

    store.remove_part(part.id).unwrap();

    assert!(store.get_part(part.id).is_none());
    assert!(store.get_sentence(s.id).is_none());
    assert!(store.get_word(w.id).is_none());
    assert!(store.list_approvals(part.id).is_empty());

    // The unrelated rows survive.
    assert!(store.get_part(keep_part.id).is_some());
    assert!(store.get_sentence(keep_s.id).is_some());
    assert!(store.get_word(keep_w.id).is_some());

    assert_eq!(store.remove_part(part.id), Err(Error::NotFound));
}

#[test]
fn removing_a_sentence_cascades_to_its_words() {
    let mut store = Store::new();
    let ep = store.add_episode(&episode_params("a")).unwrap();
    let sp = store.add_speaker(&SpeakerParams { name: "Ann".to_string(), description: None })
        .unwrap();
    let es = store
        .add_episode_speaker(ep.id, &EpisodeSpeakerParams { speaker_id: sp.id })
        .unwrap();
    let part = store.add_part(ep.id, &part_params("hi", 0, 1000, es.id)).unwrap();
    let s = store.add_sentence(part.id, &sentence_params("hi", 0, 1000)).unwrap();
    let w = store.add_word(s.id, &word_params("hi", 0, 1000)).unwrap();

    store.remove_sentence(s.id).unwrap();
    assert!(store.get_sentence(s.id).is_none());
    assert!(store.get_word(w.id).is_none());
    assert!(store.get_part(part.id).is_some());
}

#[test]
fn removing_a_word_leaves_the_sentence() {
    let mut store = Store::new();
    let ep = store.add_episode(&episode_params("a")).unwrap();
    let sp = store.add_speaker(&SpeakerParams { name: "Ann".to_string(), description: None })
        .unwrap();
    let es = store
        .add_episode_speaker(ep.id, &EpisodeSpeakerParams { speaker_id: sp.id })
        .unwrap();
    let part = store.add_part(ep.id, &part_params("hi", 0, 1000, es.id)).unwrap();
    let s = store.add_sentence(part.id, &sentence_params("hi", 0, 1000)).unwrap();
    let w = store.add_word(s.id, &word_params("hi", 0, 1000)).unwrap();

    store.remove_word(w.id).unwrap();
    assert!(store.get_word(w.id).is_none());
    assert!(store.get_sentence(s.id).is_some());
    assert_eq!(store.remove_word(w.id), Err(Error::NotFound));
}

#[test]
fn ids_are_never_reused() {
    let mut store = Store::new();
    let e1 = store.add_episode(&episode_params("a")).unwrap();
    store.remove_word(999).err();
    let e2 = store.add_episode(&episode_params("b")).unwrap();
    assert!(e2.id > e1.id);
    let sp = store.add_speaker(&SpeakerParams { name: "Ann".to_string(), description: None })
        .unwrap();
    assert!(sp.id > e2.id);
}

#[test]
fn removing_an_episode_cascades_through_every_child_table() {
    let mut store = Store::new();
    let ep = store.add_episode(&episode_params("gone")).unwrap();
    let keep_ep = store.add_episode(&episode_params("kept")).unwrap();
    let sp = store.add_speaker(&SpeakerParams { name: "Ann".to_string(), description: None })
        .unwrap();
    let es = store.add_episode_speaker(ep.id, &EpisodeSpeakerParams { speaker_id: sp.id }).unwrap();
    let keep_es = store
        .add_episode_speaker(keep_ep.id, &EpisodeSpeakerParams { speaker_id: sp.id })
        .unwrap();
    let part = store.add_part(ep.id, &part_params("hi", 0, 1000, es.id)).unwrap();
    let keep_part = store.add_part(keep_ep.id, &part_params("stay", 0, 1000, keep_es.id)).unwrap();
    let s = store.add_sentence(part.id, &sentence_params("hi", 0, 1000)).unwrap();
    let w = store.add_word(s.id, &word_params("hi", 0, 1000)).unwrap();
    store.add_approval(part.id, 5).unwrap();

    store.remove_episode(ep.id).unwrap();

    assert!(store.get_episode(ep.id).is_none());
    assert!(store.list_episode_speakers(ep.id).is_empty());
    assert!(store.get_part(part.id).is_none());
    assert!(store.get_sentence(s.id).is_none());
    assert!(store.get_word(w.id).is_none());
    assert!(store.list_approvals(part.id).is_empty());

    // The speaker itself and the other episode's rows survive.
    assert!(store.get_speaker(sp.id).is_some());
    assert!(store.get_episode(keep_ep.id).is_some());
    assert!(store.get_part(keep_part.id).is_some());
    assert_eq!(store.remove_episode(ep.id), Err(Error::NotFound));
}

#[test]
fn removing_an_episode_speaker_cascades_to_its_parts() {
    let mut store = Store::new();
    let ep = store.add_episode(&episode_params("a")).unwrap();
    let sp = store.add_speaker(&SpeakerParams { name: "Ann".to_string(), description: None })
        .unwrap();
    let es = store.add_episode_speaker(ep.id, &EpisodeSpeakerParams { speaker_id: sp.id }).unwrap();
    let other_es = store
        .add_episode_speaker(ep.id, &EpisodeSpeakerParams { speaker_id: sp.id })
        .unwrap();
    let part = store.add_part(ep.id, &part_params("hi", 0, 1000, es.id)).unwrap();
    let keep_part = store.add_part(ep.id, &part_params("stay", 0, 1000, other_es.id)).unwrap();
    let s = store.add_sentence(part.id, &sentence_params("hi", 0, 1000)).unwrap();

    store.remove_episode_speaker(es.id).unwrap();

    assert!(store.get_episode_speaker(es.id).is_none());
    assert!(store.get_part(part.id).is_none());
    assert!(store.get_sentence(s.id).is_none());
    assert!(store.get_episode_speaker(other_es.id).is_some());
    assert!(store.get_part(keep_part.id).is_some());
    assert!(store.get_episode(ep.id).is_some());
}

#[test]
fn removing_a_speaker_cascades_through_join_rows_and_parts() {
    let mut store = Store::new();
    let ep = store.add_episode(&episode_params("a")).unwrap();
    let sp = store.add_speaker(&SpeakerParams { name: "Ann".to_string(), description: None })
        .unwrap();
    let keep_sp = store.add_speaker(&SpeakerParams { name: "Bob".to_string(), description: None })
        .unwrap();
    let es = store.add_episode_speaker(ep.id, &EpisodeSpeakerParams { speaker_id: sp.id }).unwrap();
    let keep_es = store
        .add_episode_speaker(ep.id, &EpisodeSpeakerParams { speaker_id: keep_sp.id })
        .unwrap();
    let part = store.add_part(ep.id, &part_params("hi", 0, 1000, es.id)).unwrap();
    let keep_part = store.add_part(ep.id, &part_params("stay", 0, 1000, keep_es.id)).unwrap();

    store.remove_speaker(sp.id).unwrap();

    assert!(store.get_speaker(sp.id).is_none());
    assert!(store.get_episode_speaker(es.id).is_none());
    assert!(store.get_part(part.id).is_none());
    assert!(store.get_speaker(keep_sp.id).is_some());
    assert!(store.get_episode_speaker(keep_es.id).is_some());
    assert!(store.get_part(keep_part.id).is_some());
}
