use transcript_backend::Error;
use transcript_backend::model::{
    EpisodeParams, EpisodeSpeakerParams, PartParams, SentenceParams, SpeakerParams, WordParams,
};
use transcript_backend::recompute::{add_word, update_sentence_and_part, update_word};
use transcript_backend::store::Store;

fn setup_part(store: &mut Store) -> (i64, i64) {
    let ep = store
        .add_episode(&EpisodeParams {
            external_id: None,
            title: "show".to_string(),
            link: String::new(),
            description: String::new(),
            published_at: None,
            filename: String::new(),
            has_audio_file: false,
        })
        .unwrap();
    let sp = store.add_speaker(&SpeakerParams { name: "Ann".to_string(), description: None })
        .unwrap();
    let es = store
        .add_episode_speaker(ep.id, &EpisodeSpeakerParams { speaker_id: sp.id })
        .unwrap();
    let part = store
        .add_part(ep.id, &PartParams {
            text: "hi there".to_string(),
            part_type: 0,
            starts_at: 0,
            ends_at: 5000,
            episode_speaker_id: es.id,
        })
        .unwrap();
    (ep.id, part.id)
}

fn add_sentence_with_words(store: &mut Store, part_id: i64) -> (i64, i64, i64) {
    let s = store
        .add_sentence(part_id, &SentenceParams {
            text: "hi there".to_string(),
            starts_at: 0,
            ends_at: 5000,
            words_per_second: 400,
        })
        .unwrap();
    let w1 = store
        .add_word(s.id, &WordParams {
            text: "hi".to_string(),
            overwrite: String::new(),
            starts_at: 0,
            ends_at: 2000,
            probability: 900,
            hidden: false,
        })
        .unwrap();
    let w2 = store
        .add_word(s.id, &WordParams {
            text: "there".to_string(),
            overwrite: String::new(),
            starts_at: 2000,
            ends_at: 5000,
            probability: 800,
            hidden: false,
        })
        .unwrap();
    (s.id, w1.id, w2.id)
}

#[test]
fn hiding_a_word_removes_it_from_sentence_and_part_text() {
    let mut store = Store::new();
    let (ep_id, part_id) = setup_part(&mut store);
    let (s_id, _w1, w2) = add_sentence_with_words(&mut store, part_id);
    let _ = ep_id;

    let updated = update_word(&mut store, part_id, s_id, w2, &WordParams {
        text: "there".to_string(),
        overwrite: String::new(),
        starts_at: 2000,
        ends_at: 5000,
        probability: 800,
        hidden: true,
    })
    .unwrap();
    assert!(updated.hidden);

    let sentence = store.get_sentence(s_id).unwrap();
    assert_eq!(sentence.text, "hi");
    let part = store.get_part(part_id).unwrap();
    assert_eq!(part.text, "hi");
}

#[test]
fn an_overwrite_wins_over_the_recognized_text() {
    let mut store = Store::new();
    let (_ep_id, part_id) = setup_part(&mut store);
    let (s_id, w1, _w2) = add_sentence_with_words(&mut store, part_id);

    update_word(&mut store, part_id, s_id, w1, &WordParams {
        text: "hi".to_string(),
        overwrite: "hello".to_string(),
        starts_at: 0,
        ends_at: 2000,
        probability: 900,
        hidden: false,
    })
    .unwrap();

    assert_eq!(store.get_sentence(s_id).unwrap().text, "hello there");
    assert_eq!(store.get_part(part_id).unwrap().text, "hello there");
}

#[test]
fn adding_a_word_extends_the_texts_in_time_order() {
    let mut store = Store::new();
    let (_ep_id, part_id) = setup_part(&mut store);
    let (s_id, _w1, _w2) = add_sentence_with_words(&mut store, part_id);

    add_word(&mut store, part_id, s_id, &WordParams {
        text: "oh".to_string(),
        overwrite: String::new(),
        starts_at: 1000,
        ends_at: 1500,
        probability: 700,
        hidden: false,
    })
    .unwrap();

    assert_eq!(store.get_sentence(s_id).unwrap().text, "hi oh there");
    assert_eq!(store.get_part(part_id).unwrap().text, "hi oh there");
}

#[test]
fn recompute_joins_sentences_in_time_order() {
    let mut store = Store::new();
    let (_ep_id, part_id) = setup_part(&mut store);
    let (s1, _w1, _w2) = add_sentence_with_words(&mut store, part_id);

    // A later sentence, inserted afterwards but starting earlier.
    let s0 = store
        .add_sentence(part_id, &SentenceParams {
            text: "well".to_string(),
            starts_at: -1000,
            ends_at: 0,
            words_per_second: 1000,
        })
        .unwrap();
    store
        .add_word(s0.id, &WordParams {
            text: "well".to_string(),
            overwrite: String::new(),
            starts_at: -1000,
            ends_at: 0,
            probability: 500,
            hidden: false,
        })
        .unwrap();

    update_sentence_and_part(&mut store, part_id, s0.id).unwrap();
    assert_eq!(store.get_part(part_id).unwrap().text, "well hi there");
    let _ = s1;
}

#[test]
fn update_word_for_a_foreign_sentence_is_not_found() {
    let mut store = Store::new();
    let (_ep_id, part_id) = setup_part(&mut store);
    let (s_id, w1, _w2) = add_sentence_with_words(&mut store, part_id);
    let other = store
        .add_sentence(part_id, &SentenceParams {
            text: String::new(),
            starts_at: 0,
            ends_at: 0,
            words_per_second: 0,
        })
        .unwrap();

    let r = update_word(&mut store, part_id, other.id, w1, &WordParams {
        text: "hi".to_string(),
        overwrite: String::new(),
        starts_at: 0,
        ends_at: 2000,
        probability: 900,
        hidden: false,
    });
    assert_eq!(r.err(), Some(Error::NotFound));
    // Nothing changed.
    assert_eq!(store.get_sentence(s_id).unwrap().text, "hi there");
}

#[test]
fn recompute_for_missing_rows_is_not_found() {
    let mut store = Store::new();
    let (_ep_id, part_id) = setup_part(&mut store);
    let (s_id, _w1, _w2) = add_sentence_with_words(&mut store, part_id);

    assert_eq!(update_sentence_and_part(&mut store, part_id, 999).err(), Some(Error::NotFound));
    assert_eq!(update_sentence_and_part(&mut store, 999, s_id).err(), Some(Error::NotFound));
    // Nothing changed.
    assert_eq!(store.get_part(part_id).unwrap().text, "hi there");
}
