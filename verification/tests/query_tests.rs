use transcript_backend::Error;
use transcript_backend::auth::Claims;
use transcript_backend::index::SearchIndex;
use transcript_backend::model::{
    EpisodeParams, EpisodeSpeakerParams, PartParams, SentenceParams, SpeakerParams, WordParams,
};
use transcript_backend::query::{
    add_episode_checked, add_part_indexed, add_speaker_checked, attach_audio_record,
    get_audio_check, get_episode_display, get_part_display, search, update_part_indexed,
};
use transcript_backend::store::Store;

fn seeded(store: &mut Store) -> (i64, i64) {
    let ep = store
        .add_episode(&EpisodeParams {
            external_id: Some("x1".to_string()),
            title: "show".to_string(),
            link: String::new(),
            description: String::new(),
            published_at: Some(1_700_000_000),
            filename: "show.mp3".to_string(),
            has_audio_file: false,
        })
        .unwrap()
        .id;
    let sp = store.add_speaker(&SpeakerParams { name: "Ann".to_string(), description: None })
        .unwrap();
    let es = store.add_episode_speaker(ep, &EpisodeSpeakerParams { speaker_id: sp.id }).unwrap();
    (ep, es.id)
}

#[test]
fn episode_display_orders_parts_by_start_time() {
    let mut store = Store::new();
    let (ep, es) = seeded(&mut store);
    let late = store
        .add_part(ep, &PartParams {
            text: "late".to_string(),
            part_type: 0,
            starts_at: 5000,
            ends_at: 6000,
            episode_speaker_id: es,
        })
        .unwrap();
    let early = store
        .add_part(ep, &PartParams {
            text: "early".to_string(),
            part_type: 0,
            starts_at: 0,
            ends_at: 1000,
            episode_speaker_id: es,
        })
        .unwrap();
    store.add_approval(late.id, 9).unwrap();

    let reader = Claims { role: 1 };
    let display = get_episode_display(&reader, &store, ep).unwrap();
    assert_eq!(display.episode.id, ep);
    assert_eq!(display.parts.len(), 2);
    assert_eq!(display.parts[0].id, early.id);
    assert_eq!(display.parts[1].id, late.id);
    assert_eq!(display.episode_speakers.len(), 1);
    assert_eq!(display.speakers.len(), 1);
    assert_eq!(display.approvals.len(), 1);
    assert_eq!(display.approvals[0].part_id, late.id);
}

#[test]
fn episode_display_requires_a_reader() {
    let mut store = Store::new();
    let (ep, _es) = seeded(&mut store);
    let anon = Claims { role: 0 };
    assert!(matches!(get_episode_display(&anon, &store, ep), Err(Error::Unauthorized(_))));
    let reader = Claims { role: 1 };
    assert_eq!(get_episode_display(&reader, &store, ep + 99).err(), Some(Error::NotFound));
}

#[test]
fn part_display_holds_the_sentence_and_word_tree() {
    let mut store = Store::new();
    let (ep, es) = seeded(&mut store);
    let part = store
        .add_part(ep, &PartParams {
            text: "hi there".to_string(),
            part_type: 0,
            starts_at: 0,
            ends_at: 5000,
            episode_speaker_id: es,
        })
        .unwrap();
    let s2 = store
        .add_sentence(part.id, &SentenceParams {
            text: "there".to_string(),
            starts_at: 2000,
            ends_at: 5000,
            words_per_second: 333,
        })
        .unwrap();
    let s1 = store
        .add_sentence(part.id, &SentenceParams {
            text: "hi".to_string(),
            starts_at: 0,
            ends_at: 2000,
            words_per_second: 500,
        })
        .unwrap();
    store
        .add_word(s1.id, &WordParams {
            text: "hi".to_string(),
            overwrite: String::new(),
            starts_at: 0,
            ends_at: 2000,
            probability: 900,
            hidden: false,
        })
        .unwrap();

    let display = get_part_display(&store, ep, part.id).unwrap();
    assert_eq!(display.part.id, part.id);
    assert_eq!(display.sentences.len(), 2);
    // Time order, not insertion order.
    assert_eq!(display.sentences[0].sentence.id, s1.id);
    assert_eq!(display.sentences[1].sentence.id, s2.id);
    assert_eq!(display.sentences[0].words.len(), 1);
    assert_eq!(display.sentences[0].words[0].text, "hi");
    assert_eq!(display.sentences[1].words.len(), 0);

    assert_eq!(get_part_display(&store, ep + 1, part.id).err(), Some(Error::NotFound));
}

#[test]
fn audio_round_trip_gates_on_the_flag_and_roles() {
    let mut store = Store::new();
    let (ep, _es) = seeded(&mut store);
    let admin = Claims { role: 3 };
    let contributor = Claims { role: 2 };
    let reader = Claims { role: 1 };

    // No audio yet: fetching is rejected.
    assert!(matches!(get_audio_check(&contributor, &store, ep), Err(Error::BadRequest(_))));
    // Readers may not fetch audio, attaching needs an administrator.
    assert!(matches!(get_audio_check(&reader, &store, ep), Err(Error::Unauthorized(_))));
    assert!(matches!(attach_audio_record(&contributor, &mut store, ep), Err(Error::Unauthorized(_))));

    let updated = attach_audio_record(&admin, &mut store, ep).unwrap();
    assert!(updated.has_audio_file);
    assert_eq!(updated.title, "show");

    let fetched = get_audio_check(&contributor, &store, ep).unwrap();
    assert!(fetched.has_audio_file);
    assert_eq!(attach_audio_record(&admin, &mut store, ep + 99).err(), Some(Error::NotFound));
}

#[test]
fn search_requires_a_reader() {
    let store = Store::new();
    let index = SearchIndex::new().unwrap();
    let anon = Claims { role: 0 };
    assert!(matches!(search(&anon, &store, &index, &"x".to_string()), Err(Error::Unauthorized(_))));
}

#[test]
fn search_on_an_empty_index_finds_nothing() {
    let store = Store::new();
    let index = SearchIndex::new().unwrap();
    let reader = Claims { role: 1 };
    let hits = search(&reader, &store, &index, &"anything".to_string()).unwrap();
    assert!(hits.part_ids.is_empty());
    assert!(hits.parts.is_empty());
    assert!(hits.episodes.is_empty());
    assert!(hits.approvals.is_empty());
}

#[test]
fn adding_a_part_indexes_its_text() {
    let mut store = Store::new();
    let mut index = SearchIndex::new().unwrap();
    let (ep, es) = seeded(&mut store);
    let part = add_part_indexed(&mut store, &mut index, ep, &PartParams {
        text: "fresh words".to_string(),
        part_type: 0,
        starts_at: 0,
        ends_at: 1000,
        episode_speaker_id: es,
    })
    .unwrap();

    assert_eq!(store.get_part(part.id).unwrap().text, "fresh words");
    let reader = Claims { role: 1 };
    let hits = search(&reader, &store, &index, &"fresh".to_string()).unwrap();
    assert_eq!(hits.part_ids, vec![part.id]);
    assert_eq!(hits.parts.len(), 1);
}

#[test]
fn updating_a_part_replaces_its_index_document() {
    let mut store = Store::new();
    let mut index = SearchIndex::new().unwrap();
    let (ep, es) = seeded(&mut store);
    let part = add_part_indexed(&mut store, &mut index, ep, &PartParams {
        text: "old words".to_string(),
        part_type: 0,
        starts_at: 0,
        ends_at: 1000,
        episode_speaker_id: es,
    })
    .unwrap();

    let updated = update_part_indexed(&mut store, &mut index, ep, part.id, &PartParams {
        text: "new words".to_string(),
        part_type: 2,
        starts_at: 100,
        ends_at: 1100,
        episode_speaker_id: es,
    })
    .unwrap();
    assert_eq!(updated.id, part.id);
    assert_eq!(updated.text, "new words");
    assert_eq!(store.get_part(part.id).unwrap().part_type, 2);

    // The old document is gone; the new text finds the same part.
    let reader = Claims { role: 1 };
    let hits_old = search(&reader, &store, &index, &"old".to_string()).unwrap();
    assert!(hits_old.part_ids.is_empty());
    let hits_new = search(&reader, &store, &index, &"new".to_string()).unwrap();
    assert_eq!(hits_new.part_ids, vec![part.id]);

    // A wrong episode or a missing id changes nothing.
    let r = update_part_indexed(&mut store, &mut index, ep + 9, part.id, &PartParams {
        text: "x".to_string(),
        part_type: 0,
        starts_at: 0,
        ends_at: 1,
        episode_speaker_id: es,
    });
    assert_eq!(r.err(), Some(Error::NotFound));
    assert_eq!(store.get_part(part.id).unwrap().text, "new words");
}

#[test]
fn episode_creation_is_admin_gated() {
    let mut store = Store::new();
    let params = EpisodeParams {
        external_id: None,
        title: "gated".to_string(),
        link: String::new(),
        description: String::new(),
        published_at: None,
        filename: String::new(),
        has_audio_file: false,
    };
    let contributor = Claims { role: 2 };
    let r = add_episode_checked(&contributor, &mut store, &params);
    assert!(matches!(r, Err(Error::Unauthorized(_))));
    assert!(store.list_episodes().is_empty());

    let admin = Claims { role: 3 };
    let ep = add_episode_checked(&admin, &mut store, &params).unwrap();
    assert_eq!(ep.title, "gated");
    assert_eq!(store.list_episodes().len(), 1);
}

#[test]
fn speaker_creation_is_contributor_gated() {
    let mut store = Store::new();
    let params = SpeakerParams { name: "Carol".to_string(), description: None };
    let reader = Claims { role: 1 };
    let r = add_speaker_checked(&reader, &mut store, &params);
    assert!(matches!(r, Err(Error::Unauthorized(_))));
    assert!(store.list_speakers().is_empty());

    let contributor = Claims { role: 2 };
    let sp = add_speaker_checked(&contributor, &mut store, &params).unwrap();
    assert_eq!(sp.name, "Carol");
    assert_eq!(store.list_speakers().len(), 1);
}
