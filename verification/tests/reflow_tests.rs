use transcript_backend::Error;
use transcript_backend::auth::Claims;
use transcript_backend::import::import;
use transcript_backend::index::SearchIndex;
use transcript_backend::model::{
    EpisodeParams, ImportPart, ImportSentence, ImportTranscription, ImportWord, MoveDirective,
    UiUpdateParams, UiUpdateParamsPart, UiUpdateParamsSentence, UiUpdateParamsSentenceSentence,
    UiUpdateParamsSentenceWord,
};
use transcript_backend::query::search;
use transcript_backend::reflow::ui_update;
use transcript_backend::store::Store;

fn seeded(store: &mut Store, index: &mut SearchIndex) -> (i64, i64, i64, Vec<i64>) {
    let ep = store
        .add_episode(&EpisodeParams {
            external_id: None,
            title: "show".to_string(),
            link: String::new(),
            description: String::new(),
            published_at: None,
            filename: String::new(),
            has_audio_file: false,
        })
        .unwrap()
        .id;
    let tr = ImportTranscription {
        transcription: vec![ImportPart {
            start: 0,
            end: 5000,
            speaker: "Alice".to_string(),
            text: "hi there".to_string(),
            sentences: vec![ImportSentence {
                text: "hi there".to_string(),
                start: 0,
                end: 5000,
                words_per_second: 400,
                words: vec![
                    ImportWord { text: "hi".to_string(), start: 0, end: 2000, probability: 900 },
                    ImportWord {
                        text: "there".to_string(),
                        start: 2000,
                        end: 5000,
                        probability: 800,
                    },
                ],
            }],
        }],
    };
    let admin = Claims { role: 3 };
    import(&admin, store, index, ep, &tr).unwrap();
    let part = store.list_parts(ep)[0].id;
    let sentence = store.list_sentences(part)[0].id;
    let word_ids: Vec<i64> = store.list_words(sentence).iter().map(|w| w.id).collect();
    (ep, part, sentence, word_ids)
}

fn ui_word(id: i64, text: &str, starts_at: i64, ends_at: i64, hidden: bool) -> UiUpdateParamsSentenceWord {
    UiUpdateParamsSentenceWord {
        id,
        text: text.to_string(),
        overwrite: String::new(),
        starts_at,
        ends_at,
        probability: 900,
        hidden,
    }
}

fn ui_sentence(
    id: i64,
    words: Vec<UiUpdateParamsSentenceWord>,
    mv: Option<MoveDirective>,
) -> UiUpdateParamsSentence {
    UiUpdateParamsSentence {
        sentence: UiUpdateParamsSentenceSentence {
            id,
            text: String::new(),
            starts_at: 0,
            ends_at: 0,
            words_per_second: 0,
        },
        words,
        move_sentence: mv,
    }
}

fn ui_params(part_id: i64, es_id: i64, sentences: Vec<UiUpdateParamsSentence>) -> UiUpdateParams {
    UiUpdateParams {
        part: UiUpdateParamsPart {
            id: part_id,
            text: String::new(),
            starts_at: 0,
            part_type: 7,
            ends_at: 0,
            episode_speaker_id: es_id,
        },
        sentences,
    }
}

#[test]
fn reflow_rejects_a_missing_word() {
    let mut store = Store::new();
    let mut index = SearchIndex::new().unwrap();
    let (ep, part, sentence, words) = seeded(&mut store, &mut index);
    let es = store.list_parts(ep)[0].episode_speaker_id;

    // Only one of the two words is submitted.
    let params = ui_params(part, es, vec![ui_sentence(
        sentence,
        vec![ui_word(words[0], "hi", 0, 2000, false)],
        None,
    )]);
    let r = ui_update(&mut store, &mut index, ep, part, &params);
    match r {
        Err(Error::BadRequest(msg)) => assert_eq!(msg, "Amount of words does not match"),
        other => panic!("expected a rejection, got {:?}", other),
    }
    assert_eq!(store.list_parts(ep)[0].text, "hi there");
}

#[test]
fn reflow_rejects_duplicate_word_ids() {
    let mut store = Store::new();
    let mut index = SearchIndex::new().unwrap();
    let (ep, part, sentence, words) = seeded(&mut store, &mut index);
    let es = store.list_parts(ep)[0].episode_speaker_id;

    let params = ui_params(part, es, vec![ui_sentence(
        sentence,
        vec![
            ui_word(words[0], "hi", 0, 2000, false),
            ui_word(words[0], "hi", 0, 2000, false),
        ],
        None,
    )]);
    let r = ui_update(&mut store, &mut index, ep, part, &params);
    match r {
        Err(Error::BadRequest(msg)) => assert_eq!(msg, "Not all word ids are unique"),
        other => panic!("expected a rejection, got {:?}", other),
    }
}

#[test]
fn reflow_rejects_a_changed_word_id_set() {
    let mut store = Store::new();
    let mut index = SearchIndex::new().unwrap();
    let (ep, part, sentence, words) = seeded(&mut store, &mut index);
    let es = store.list_parts(ep)[0].episode_speaker_id;

    let params = ui_params(part, es, vec![ui_sentence(
        sentence,
        vec![
            ui_word(words[0], "hi", 0, 2000, false),
            ui_word(987654, "ghost", 2000, 5000, false),
        ],
        None,
    )]);
    let r = ui_update(&mut store, &mut index, ep, part, &params);
    match r {
        Err(Error::BadRequest(msg)) => assert_eq!(msg, "Not all words included"),
        other => panic!("expected a rejection, got {:?}", other),
    }
}

#[test]
fn reflow_rejects_duplicate_sentence_ids() {
    let mut store = Store::new();
    let mut index = SearchIndex::new().unwrap();
    let (ep, part, sentence, words) = seeded(&mut store, &mut index);
    let es = store.list_parts(ep)[0].episode_speaker_id;

    let params = ui_params(part, es, vec![
        ui_sentence(sentence, vec![ui_word(words[0], "hi", 0, 2000, false)], None),
        ui_sentence(sentence, vec![ui_word(words[1], "there", 2000, 5000, false)], None),
    ]);
    let r = ui_update(&mut store, &mut index, ep, part, &params);
    match r {
        Err(Error::BadRequest(msg)) => assert_eq!(msg, "Not all sentence ids are unique"),
        other => panic!("expected a rejection, got {:?}", other),
    }
}

#[test]
fn reflow_rejects_a_foreign_sentence_id() {
    let mut store = Store::new();
    let mut index = SearchIndex::new().unwrap();
    let (ep, part, _sentence, words) = seeded(&mut store, &mut index);
    let es = store.list_parts(ep)[0].episode_speaker_id;

    let params = ui_params(part, es, vec![ui_sentence(
        424242,
        vec![
            ui_word(words[0], "hi", 0, 2000, false),
            ui_word(words[1], "there", 2000, 5000, false),
        ],
        None,
    )]);
    let r = ui_update(&mut store, &mut index, ep, part, &params);
    match r {
        Err(Error::BadRequest(msg)) => assert_eq!(msg, "Not all sentences were loaded"),
        other => panic!("expected a rejection, got {:?}", other),
    }
}

#[test]
fn reflow_rejects_an_empty_sentence() {
    let mut store = Store::new();
    let mut index = SearchIndex::new().unwrap();
    let (ep, part, sentence, words) = seeded(&mut store, &mut index);
    let es = store.list_parts(ep)[0].episode_speaker_id;

    let params = ui_params(part, es, vec![
        ui_sentence(
            sentence,
            vec![
                ui_word(words[0], "hi", 0, 2000, false),
                ui_word(words[1], "there", 2000, 5000, false),
            ],
            None,
        ),
        ui_sentence(-1, vec![], None),
    ]);
    let r = ui_update(&mut store, &mut index, ep, part, &params);
    match r {
        Err(Error::BadRequest(msg)) => assert_eq!(msg, "Not all sentences contain words"),
        other => panic!("expected a rejection, got {:?}", other),
    }
}

#[test]
fn reflow_for_a_missing_part_is_not_found() {
    let mut store = Store::new();
    let mut index = SearchIndex::new().unwrap();
    let (ep, part, sentence, words) = seeded(&mut store, &mut index);
    let es = store.list_parts(ep)[0].episode_speaker_id;
    let params = ui_params(part, es, vec![ui_sentence(
        sentence,
        vec![
            ui_word(words[0], "hi", 0, 2000, false),
            ui_word(words[1], "there", 2000, 5000, false),
        ],
        None,
    )]);
    assert_eq!(ui_update(&mut store, &mut index, ep, 999_999, &params), Err(Error::NotFound));
    assert_eq!(ui_update(&mut store, &mut index, ep + 50, part, &params), Err(Error::NotFound));
}

#[test]
fn sticky_reflow_rewrites_the_part_in_place() {
    let mut store = Store::new();
    let mut index = SearchIndex::new().unwrap();
    let (ep, part, sentence, words) = seeded(&mut store, &mut index);
    let es = store.list_parts(ep)[0].episode_speaker_id;

    // Split the two words into the old sentence and a new one, hide none,
    // and change a text.
    let params = ui_params(part, es, vec![
        ui_sentence(sentence, vec![ui_word(words[0], "hey", 0, 2000, false)], None),
        ui_sentence(-1, vec![ui_word(words[1], "there", 2000, 6000, false)], None),
    ]);
    ui_update(&mut store, &mut index, ep, part, &params).unwrap();

    let row = store.get_part(part).unwrap();
    assert_eq!(row.text, "hey there");
    assert_eq!(row.part_type, 7);
    assert_eq!(row.starts_at, 0);
    assert_eq!(row.ends_at, 6000);

    let sentences = store.list_sentences(part);
    assert_eq!(sentences.len(), 2);
    assert_eq!(sentences[0].text, "hey");
    assert_eq!(sentences[1].text, "there");
    // One word over two seconds, and one word over four seconds, in
    // thousandths of a word per second.
    assert_eq!(sentences[0].words_per_second, 500);
    assert_eq!(sentences[1].words_per_second, 250);
    assert_eq!(sentences[0].starts_at, 0);
    assert_eq!(sentences[0].ends_at, 2000);

    // The index now finds the new text under the same part.
    let reader = Claims { role: 1 };
    let hits = search(&reader, &store, &index, &"hey".to_string()).unwrap();
    assert_eq!(hits.part_ids, vec![part]);
}

#[test]
fn reflow_with_no_sticky_sentence_deletes_the_part_and_its_index_entry() {
    let mut store = Store::new();
    let mut index = SearchIndex::new().unwrap();
    let (ep, part, sentence, words) = seeded(&mut store, &mut index);
    let es = store.list_parts(ep)[0].episode_speaker_id;

    let params = ui_params(part, es, vec![ui_sentence(
        sentence,
        vec![
            ui_word(words[0], "hi", 0, 2000, false),
            ui_word(words[1], "there", 2000, 5000, false),
        ],
        Some(MoveDirective::UpNew),
    )]);
    ui_update(&mut store, &mut index, ep, part, &params).unwrap();

    // The original part is gone; a fresh adjacent part carries the words.
    assert!(store.get_part(part).is_none());
    let parts = store.list_parts(ep);
    assert_eq!(parts.len(), 1);
    assert!(parts[0].id != part);
    assert_eq!(parts[0].text, "hi there");

    // Searching finds only the new part: the old id's entry is gone.
    let reader = Claims { role: 1 };
    let hits = search(&reader, &store, &index, &"hi".to_string()).unwrap();
    assert_eq!(hits.part_ids, vec![parts[0].id]);
    assert!(!hits.part_ids.contains(&part));
}

#[test]
fn moving_a_sentence_up_appends_to_the_previous_part() {
    let mut store = Store::new();
    let mut index = SearchIndex::new().unwrap();
    let ep = store
        .add_episode(&EpisodeParams {
            external_id: None,
            title: "show".to_string(),
            link: String::new(),
            description: String::new(),
            published_at: None,
            filename: String::new(),
            has_audio_file: false,
        })
        .unwrap()
        .id;
    let tr = ImportTranscription {
        transcription: vec![
            ImportPart {
                start: 0,
                end: 2000,
                speaker: "Alice".to_string(),
                text: "early".to_string(),
                sentences: vec![ImportSentence {
                    text: "early".to_string(),
                    start: 0,
                    end: 2000,
                    words_per_second: 500,
                    words: vec![ImportWord {
                        text: "early".to_string(),
                        start: 0,
                        end: 2000,
                        probability: 900,
                    }],
                }],
            },
            ImportPart {
                start: 3000,
                end: 5000,
                speaker: "Alice".to_string(),
                text: "later".to_string(),
                sentences: vec![ImportSentence {
                    text: "later".to_string(),
                    start: 3000,
                    end: 5000,
                    words_per_second: 500,
                    words: vec![ImportWord {
                        text: "later".to_string(),
                        start: 3000,
                        end: 5000,
                        probability: 900,
                    }],
                }],
            },
        ],
    };
    let admin = Claims { role: 3 };
    import(&admin, &mut store, &mut index, ep, &tr).unwrap();
    let parts = store.list_parts(ep);
    let early = parts[0].id;
    let later = parts[1].id;
    let es = parts[1].episode_speaker_id;
    let later_sentence = store.list_sentences(later)[0].id;
    let later_word = store.list_words(later_sentence)[0].id;

    let params = ui_params(later, es, vec![ui_sentence(
        later_sentence,
        vec![ui_word(later_word, "later", 3000, 5000, false)],
        Some(MoveDirective::Up),
    )]);
    ui_update(&mut store, &mut index, ep, later, &params).unwrap();

    // The later part is gone; the earlier one gained the text and span.
    assert!(store.get_part(later).is_none());
    let merged = store.get_part(early).unwrap();
    assert_eq!(merged.text, "early later");
    assert_eq!(merged.starts_at, 0);
    assert_eq!(merged.ends_at, 5000);
    let sentences = store.list_sentences(early);
    assert_eq!(sentences.len(), 2);
}

#[test]
fn moving_a_sentence_down_prepends_to_the_next_part() {
    let mut store = Store::new();
    let mut index = SearchIndex::new().unwrap();
    let ep = store
        .add_episode(&EpisodeParams {
            external_id: None,
            title: "show".to_string(),
            link: String::new(),
            description: String::new(),
            published_at: None,
            filename: String::new(),
            has_audio_file: false,
        })
        .unwrap()
        .id;
    let tr = ImportTranscription {
        transcription: vec![
            ImportPart {
                start: 0,
                end: 2000,
                speaker: "Alice".to_string(),
                text: "early".to_string(),
                sentences: vec![ImportSentence {
                    text: "early".to_string(),
                    start: 0,
                    end: 2000,
                    words_per_second: 500,
                    words: vec![ImportWord {
                        text: "early".to_string(),
                        start: 0,
                        end: 2000,
                        probability: 900,
                    }],
                }],
            },
            ImportPart {
                start: 3000,
                end: 5000,
                speaker: "Alice".to_string(),
                text: "later".to_string(),
                sentences: vec![ImportSentence {
                    text: "later".to_string(),
                    start: 3000,
                    end: 5000,
                    words_per_second: 500,
                    words: vec![ImportWord {
                        text: "later".to_string(),
                        start: 3000,
                        end: 5000,
                        probability: 900,
                    }],
                }],
            },
        ],
    };
    let admin = Claims { role: 3 };
    import(&admin, &mut store, &mut index, ep, &tr).unwrap();
    let parts = store.list_parts(ep);
    let early = parts[0].id;
    let later = parts[1].id;
    let es = parts[0].episode_speaker_id;
    let early_sentence = store.list_sentences(early)[0].id;
    let early_word = store.list_words(early_sentence)[0].id;

    let params = ui_params(early, es, vec![ui_sentence(
        early_sentence,
        vec![ui_word(early_word, "early", 0, 2000, false)],
        Some(MoveDirective::Down),
    )]);
    ui_update(&mut store, &mut index, ep, early, &params).unwrap();

    assert!(store.get_part(early).is_none());
    let merged = store.get_part(later).unwrap();
    assert_eq!(merged.text, "early later");
    assert_eq!(merged.starts_at, 0);
    assert_eq!(merged.ends_at, 5000);
}

#[test]
fn reflow_keeps_word_timing_but_takes_the_submitted_flags() {
    let mut store = Store::new();
    let mut index = SearchIndex::new().unwrap();
    let (ep, part, sentence, words) = seeded(&mut store, &mut index);
    let es = store.list_parts(ep)[0].episode_speaker_id;

    // The submission claims absurd timings for the first word; the stored
    // timing survives, while the hidden flag and override are taken.
    let mut w0 = ui_word(words[0], "hi", 777, 888, false);
    w0.overwrite = "hey".to_string();
    let params = ui_params(part, es, vec![ui_sentence(
        sentence,
        vec![w0, ui_word(words[1], "there", 2000, 5000, true)],
        None,
    )]);
    ui_update(&mut store, &mut index, ep, part, &params).unwrap();

    let stored = store.list_words(sentence);
    assert_eq!(stored.len(), 2);
    assert_eq!(stored[0].starts_at, 0);
    assert_eq!(stored[0].ends_at, 2000);
    assert_eq!(stored[0].overwrite, "hey");
    assert!(stored[1].hidden);
    assert_eq!(store.get_part(part).unwrap().text, "hey");
}
