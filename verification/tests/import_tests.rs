use transcript_backend::Error;
use transcript_backend::auth::Claims;
use transcript_backend::import::import;
use transcript_backend::index::SearchIndex;
use transcript_backend::model::{
    EpisodeParams, EpisodeSpeakerParams, ImportPart, ImportSentence, ImportTranscription,
    ImportWord, PartParams, SpeakerParams,
};
use transcript_backend::query::search;
use transcript_backend::store::Store;

fn blank_episode(store: &mut Store) -> i64 {
    store
        .add_episode(&EpisodeParams {
            external_id: None,
            title: "show".to_string(),
            link: String::new(),
            description: String::new(),
            published_at: None,
            filename: String::new(),
            has_audio_file: false,
        })
        .unwrap()
        .id
}

fn alice_transcription() -> ImportTranscription {
    ImportTranscription {
        transcription: vec![ImportPart {
            start: 0,
            end: 5000,
            speaker: "Alice".to_string(),
            text: "hi there".to_string(),
            sentences: vec![ImportSentence {
                text: "hi there".to_string(),
                start: 0,
                end: 5000,
                words_per_second: 1000,
                words: vec![
                    ImportWord { text: "hi".to_string(), start: 0, end: 2000, probability: 900 },
                    ImportWord {
                        text: "there".to_string(),
                        start: 2000,
                        end: 5000,
                        probability: 800,
                    },
                ],
            }],
        }],
    }
}

#[test]
fn import_populates_a_blank_episode_end_to_end() {
    let mut store = Store::new();
    let mut index = SearchIndex::new().unwrap();
    let ep = blank_episode(&mut store);
    let admin = Claims { role: 3 };

    import(&admin, &mut store, &mut index, ep, &alice_transcription()).unwrap();

    let speakers = store.list_speakers();
    assert_eq!(speakers.len(), 1);
    assert_eq!(speakers[0].name, "Alice");

    let episode_speakers = store.list_episode_speakers(ep);
    assert_eq!(episode_speakers.len(), 1);
    assert_eq!(episode_speakers[0].speaker_id, speakers[0].id);

    let parts = store.list_parts(ep);
    assert_eq!(parts.len(), 1);
    assert_eq!(parts[0].text, "hi there");
    assert_eq!(parts[0].starts_at, 0);
    assert_eq!(parts[0].ends_at, 5000);
    assert_eq!(parts[0].episode_speaker_id, episode_speakers[0].id);

    let sentences = store.list_sentences(parts[0].id);
    assert_eq!(sentences.len(), 1);
    assert_eq!(sentences[0].text, "hi there");

    let words = store.list_words(sentences[0].id);
    assert_eq!(words.len(), 2);
    assert_eq!(words[0].text, "hi");
    assert_eq!(words[1].text, "there");
    assert_eq!(words[1].probability, 800);
    assert!(!words[0].hidden);
    assert_eq!(words[0].overwrite, "");

    // The index holds one document for the part.
    let reader = Claims { role: 1 };
    let hits = search(&reader, &store, &index, &"hi".to_string()).unwrap();
    assert_eq!(hits.part_ids, vec![parts[0].id]);
    assert_eq!(hits.parts.len(), 1);
    assert_eq!(hits.parts[0].id, parts[0].id);
    assert_eq!(hits.episodes.len(), 1);
    assert_eq!(hits.episodes[0].id, ep);
}

#[test]
fn import_is_rejected_for_an_episode_with_parts() {
    let mut store = Store::new();
    let mut index = SearchIndex::new().unwrap();
    let ep = blank_episode(&mut store);
    let sp = store.add_speaker(&SpeakerParams { name: "Bob".to_string(), description: None })
        .unwrap();
    let es = store.add_episode_speaker(ep, &EpisodeSpeakerParams { speaker_id: sp.id }).unwrap();
    // To test the parts guard alone, put the part under a second episode's id
    // path but the same episode row.
    store
        .add_part(ep, &PartParams {
            text: "existing".to_string(),
            part_type: 0,
            starts_at: 0,
            ends_at: 1000,
            episode_speaker_id: es.id,
        })
        .unwrap();

    let admin = Claims { role: 3 };
    let r = import(&admin, &mut store, &mut index, ep, &alice_transcription());
    match r {
        Err(Error::BadRequest(msg)) => assert_eq!(msg, "Import only works for blank episodes"),
        other => panic!("expected a rejection, got {:?}", other),
    }
    // No speaker named Alice was created.
    assert_eq!(store.list_speakers().len(), 1);
}

#[test]
fn import_is_rejected_for_an_episode_with_speakers() {
    let mut store = Store::new();
    let mut index = SearchIndex::new().unwrap();
    let ep = blank_episode(&mut store);
    let sp = store.add_speaker(&SpeakerParams { name: "Bob".to_string(), description: None })
        .unwrap();
    store.add_episode_speaker(ep, &EpisodeSpeakerParams { speaker_id: sp.id }).unwrap();

    let admin = Claims { role: 3 };
    let r = import(&admin, &mut store, &mut index, ep, &alice_transcription());
    assert!(matches!(r, Err(Error::BadRequest(_))));
    assert_eq!(store.list_parts(ep).len(), 0);
}

#[test]
fn import_requires_an_administrator() {
    let mut store = Store::new();
    let mut index = SearchIndex::new().unwrap();
    let ep = blank_episode(&mut store);
    let contributor = Claims { role: 2 };
    let r = import(&contributor, &mut store, &mut index, ep, &alice_transcription());
    assert!(matches!(r, Err(Error::Unauthorized(_))));
    assert_eq!(store.list_speakers().len(), 0);
}

#[test]
fn import_reuses_a_speaker_with_the_same_name() {
    let mut store = Store::new();
    let mut index = SearchIndex::new().unwrap();
    let existing = store
        .add_speaker(&SpeakerParams { name: "Alice".to_string(), description: None })
        .unwrap();
    let ep = blank_episode(&mut store);

    let admin = Claims { role: 3 };
    import(&admin, &mut store, &mut index, ep, &alice_transcription()).unwrap();

    assert_eq!(store.list_speakers().len(), 1);
    let episode_speakers = store.list_episode_speakers(ep);
    assert_eq!(episode_speakers.len(), 1);
    assert_eq!(episode_speakers[0].speaker_id, existing.id);
}

#[test]
fn import_skips_empty_segments_and_sentences() {
    let mut store = Store::new();
    let mut index = SearchIndex::new().unwrap();
    let ep = blank_episode(&mut store);
    let tr = ImportTranscription {
        transcription: vec![
            ImportPart {
                start: 0,
                end: 1000,
                speaker: "Alice".to_string(),
                text: String::new(),
                sentences: vec![],
            },
            ImportPart {
                start: 1000,
                end: 2000,
                speaker: "Alice".to_string(),
                text: "ok".to_string(),
                sentences: vec![
                    ImportSentence {
                        text: String::new(),
                        start: 1000,
                        end: 1500,
                        words_per_second: 0,
                        words: vec![],
                    },
                    ImportSentence {
                        text: "ok".to_string(),
                        start: 1500,
                        end: 2000,
                        words_per_second: 2000,
                        words: vec![ImportWord {
                            text: "ok".to_string(),
                            start: 1500,
                            end: 2000,
                            probability: 990,
                        }],
                    },
                ],
            },
        ],
    };
    let admin = Claims { role: 3 };
    import(&admin, &mut store, &mut index, ep, &tr).unwrap();

    let parts = store.list_parts(ep);
    assert_eq!(parts.len(), 1);
    assert_eq!(parts[0].text, "ok");
    let sentences = store.list_sentences(parts[0].id);
    assert_eq!(sentences.len(), 1);
    // Both segments named Alice, so one speaker and one join row exist.
    assert_eq!(store.list_speakers().len(), 1);
    assert_eq!(store.list_episode_speakers(ep).len(), 1);
}
