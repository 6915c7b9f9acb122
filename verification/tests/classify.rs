use jp2anki_dict::entry::{Definition, DictError, PartOfSpeech, Source};
use jp2anki_dict::jmdict::{JMDEntry, JMDExample, JMDGloss, JMDKanji, JMDReading, JMDSense,
    JMDSentence};
use jp2anki_dict::wanikani::{WkContextSentence, WkMeaning, WkPronunciationAudio,
    WkPronunciationAudioMetadata, WkReading, WkSubject, WkVocab};

#[test]
fn classifier_exact_table() {
    assert_eq!(PartOfSpeech::from_tag("名詞").unwrap(), PartOfSpeech::Noun);
    assert_eq!(PartOfSpeech::from_tag("&ctr;").unwrap(), PartOfSpeech::Noun);
    assert_eq!(PartOfSpeech::from_tag("counter").unwrap(), PartOfSpeech::Noun);
    assert_eq!(PartOfSpeech::from_tag("接頭詞").unwrap(), PartOfSpeech::Prefix);
    assert_eq!(PartOfSpeech::from_tag("prefix").unwrap(), PartOfSpeech::Prefix);
    assert_eq!(PartOfSpeech::from_tag("動詞").unwrap(), PartOfSpeech::Verb);
    assert_eq!(PartOfSpeech::from_tag("&cop;").unwrap(), PartOfSpeech::Verb);
    assert_eq!(PartOfSpeech::from_tag("見出し形").unwrap(), PartOfSpeech::Adjective);
    assert_eq!(PartOfSpeech::from_tag("副詞").unwrap(), PartOfSpeech::Adverb);
    assert_eq!(PartOfSpeech::from_tag("&adv-to;").unwrap(), PartOfSpeech::Adverb);
    assert_eq!(PartOfSpeech::from_tag("連体詞").unwrap(), PartOfSpeech::Adnominal);
    assert_eq!(PartOfSpeech::from_tag("conjunction").unwrap(), PartOfSpeech::Conjuction);
    assert_eq!(PartOfSpeech::from_tag("助詞").unwrap(), PartOfSpeech::Particle);
    assert_eq!(PartOfSpeech::from_tag("&aux-v;").unwrap(), PartOfSpeech::AuxiliaryVerb);
    assert_eq!(PartOfSpeech::from_tag("interjection").unwrap(), PartOfSpeech::Exclamation);
    assert_eq!(PartOfSpeech::from_tag("記号").unwrap(), PartOfSpeech::Symbol);
    assert_eq!(PartOfSpeech::from_tag("フィラー").unwrap(), PartOfSpeech::Filler);
    assert_eq!(PartOfSpeech::from_tag("その他").unwrap(), PartOfSpeech::Other);
    assert_eq!(PartOfSpeech::from_tag("in compounds").unwrap(), PartOfSpeech::Other);
}

#[test]
fn classifier_pattern_fallbacks() {
    // entity-shaped tags
    assert_eq!(PartOfSpeech::from_tag("&n;").unwrap(), PartOfSpeech::Noun);
    assert_eq!(PartOfSpeech::from_tag("&n-adv;").unwrap(), PartOfSpeech::Noun);
    assert_eq!(PartOfSpeech::from_tag("&v5u;").unwrap(), PartOfSpeech::Verb);
    assert_eq!(PartOfSpeech::from_tag("&adj-i;").unwrap(), PartOfSpeech::Adjective);
    // substring fallbacks
    assert_eq!(PartOfSpeech::from_tag("proper noun").unwrap(), PartOfSpeech::Noun);
    assert_eq!(PartOfSpeech::from_tag("godan verb").unwrap(), PartOfSpeech::Verb);
    assert_eq!(PartOfSpeech::from_tag("na adjective").unwrap(), PartOfSpeech::Adjective);
    // the noun row is tried before the verb row
    assert_eq!(PartOfSpeech::from_tag("noun or verb acting prenominally").unwrap(),
        PartOfSpeech::Noun);
    // `&v;` has an empty middle, so the verb entity shape rejects it, and
    // it carries no recognized substring either
    assert!(PartOfSpeech::from_tag("&v;").is_err());
}

#[test]
fn classifier_unknown_carries_tag() {
    match PartOfSpeech::from_tag("no such tag") {
        Err(DictError::UnknownPartOfSpeech(t)) => assert_eq!(t, "no such tag"),
        other => panic!("expected an unknown part of speech, got {:?}", other),
    }
}

#[test]
fn definition_new_collapses_duplicates() {
    let d = Definition::new(
        "gloss".into(),
        vec!["noun".into(), "名詞".into(), "verb".into(), "noun".into()],
        vec!["flag".into()],
    )
    .unwrap();
    assert_eq!(d.text, "gloss");
    assert_eq!(d.pos, vec![PartOfSpeech::Noun, PartOfSpeech::Verb]);
    assert_eq!(d.flags, vec!["flag".to_string()]);
}

#[test]
fn definition_new_fails_on_first_unknown() {
    match Definition::new(
        "gloss".into(),
        vec!["noun".into(), "???".into(), "also bad".into()],
        vec![],
    ) {
        Err(DictError::UnknownPartOfSpeech(t)) => assert_eq!(t, "???"),
        other => panic!("expected an unknown part of speech, got {:?}", other),
    }
}

#[test]
fn wanikani_vocabulary_becomes_entry() {
    let subject = WkSubject::Vocabulary {
        id: 42,
        data: WkVocab {
            characters: "犬".into(),
            meanings: vec![
                WkMeaning { meaning: "dog".into() },
                WkMeaning { meaning: "hound".into() },
            ],
            context_sentences: vec![WkContextSentence {
                en: "The dog runs.".into(),
                ja: "犬が走る。".into(),
            }],
            parts_of_speech: vec!["noun".into()],
            pronunciation_audios: vec![WkPronunciationAudio {
                url: "https://example.invalid/inu.mp3".into(),
                content_type: "audio/mpeg".into(),
                metadata: WkPronunciationAudioMetadata { pronunciation: "いぬ".into() },
            }],
            readings: vec![WkReading { reading: "いぬ".into() }],
        },
    };
    let entry = subject.into_dictionary_entry().unwrap().unwrap();
    assert_eq!(entry.forms, vec!["犬".to_string()]);
    assert_eq!(entry.source, Source::WaniKani(42));
    assert_eq!(entry.definitions.len(), 1);
    assert_eq!(entry.definitions[0].text, "dog, hound");
    assert_eq!(entry.definitions[0].pos, vec![PartOfSpeech::Noun]);
    assert_eq!(entry.definitions[0].flags, vec!["wk".to_string()]);
    assert_eq!(entry.audio, vec!["https://example.invalid/inu.mp3".to_string()]);
    assert_eq!(entry.readings, vec!["いぬ".to_string()]);
    assert_eq!(entry.examples.len(), 1);
    assert_eq!(entry.examples[0].for_definition, None);
    assert_eq!(entry.examples[0].en, "The dog runs.");
    assert_eq!(entry.examples[0].ja, "犬が走る。");
}

#[test]
fn wanikani_radical_and_kanji_yield_nothing() {
    assert!(WkSubject::Radical.into_dictionary_entry().unwrap().is_none());
    assert!(WkSubject::Kanji.into_dictionary_entry().unwrap().is_none());
}

fn empty_sense() -> JMDSense {
    JMDSense {
        stagk: vec![],
        stagr: vec![],
        pos: vec![],
        xref: vec![],
        ant: vec![],
        field: vec![],
        misc: vec![],
        s_inf: vec![],
        lsource: vec![],
        dial: vec![],
        gloss: vec![],
        examples: vec![],
    }
}

#[test]
fn jmdict_entry_becomes_entry() {
    let mut sense = empty_sense();
    sense.pos = vec!["&n;".into()];
    sense.misc = vec!["&uk;".into()];
    sense.dial = vec!["&ksb;".into()];
    sense.field = vec!["&food;".into()];
    sense.gloss = vec![
        JMDGloss { text: "rice".into(), lang: None, g_gend: None },
        JMDGloss { text: "meal".into(), lang: None, g_gend: None },
    ];
    sense.examples = vec![JMDExample {
        ex_srce: "tatoeba".into(),
        ex_text: "ご飯".into(),
        ex_sent: vec![
            JMDSentence { text: "ご飯を食べた。".into(), lang: "jpn".into() },
            JMDSentence { text: "I ate rice.".into(), lang: "eng".into() },
        ],
    }];
    let jmd = JMDEntry {
        ent_seq: "1270480".into(),
        k_ele: vec![JMDKanji { keb: "ご飯".into(), ke_inf: vec![], ke_pri: vec![] }],
        r_ele: vec![JMDReading {
            reb: "ごはん".into(),
            re_nokanji: None,
            re_restr: vec![],
            re_inf: vec![],
            re_pri: vec![],
        }],
        sense: vec![sense],
    };
    let entry = jmd.into_dictionary_entry().unwrap();
    assert_eq!(entry.forms, vec!["ご飯".to_string()]);
    assert_eq!(entry.readings, vec!["ごはん".to_string()]);
    assert_eq!(entry.source, Source::JMDict(1270480));
    assert_eq!(entry.definitions.len(), 1);
    assert_eq!(entry.definitions[0].text, "rice, meal");
    assert_eq!(entry.definitions[0].pos, vec![PartOfSpeech::Noun]);
    assert_eq!(
        entry.definitions[0].flags,
        vec!["&uk;".to_string(), "&ksb;".to_string(), "&food;".to_string()]
    );
    assert!(entry.audio.is_empty());
    assert_eq!(entry.examples.len(), 1);
    assert_eq!(entry.examples[0].for_definition, Some(0));
    assert_eq!(entry.examples[0].en, "I ate rice.");
    assert_eq!(entry.examples[0].ja, "ご飯を食べた。");
}

#[test]
fn jmdict_example_without_both_languages_dropped() {
    let mut sense = empty_sense();
    sense.pos = vec!["&n;".into()];
    sense.examples = vec![JMDExample {
        ex_srce: "tatoeba".into(),
        ex_text: "水".into(),
        ex_sent: vec![JMDSentence { text: "水を飲む。".into(), lang: "jpn".into() }],
    }];
    let jmd = JMDEntry {
        ent_seq: "1371500".into(),
        k_ele: vec![JMDKanji { keb: "水".into(), ke_inf: vec![], ke_pri: vec![] }],
        r_ele: vec![],
        sense: vec![sense],
    };
    let entry = jmd.into_dictionary_entry().unwrap();
    assert!(entry.examples.is_empty());
}

#[test]
fn jmdict_bad_entry_id_becomes_minus_one() {
    let jmd = JMDEntry {
        ent_seq: "12x4".into(),
        k_ele: vec![JMDKanji { keb: "語".into(), ke_inf: vec![], ke_pri: vec![] }],
        r_ele: vec![],
        sense: vec![],
    };
    let entry = jmd.into_dictionary_entry().unwrap();
    assert_eq!(entry.source, Source::JMDict(-1));
}

#[test]
fn classifier_is_deterministic() {
    for tag in ["noun", "&adj-i;", "no such tag", "godan verb"] {
        let first = PartOfSpeech::from_tag(tag);
        let second = PartOfSpeech::from_tag(tag);
        match (first, second) {
            (Ok(a), Ok(b)) => assert_eq!(a, b),
            (Err(DictError::UnknownPartOfSpeech(a)), Err(DictError::UnknownPartOfSpeech(b))) => {
                assert_eq!(a, b)
            },
            _ => panic!("classification of {:?} changed between calls", tag),
        }
    }
}

#[test]
fn wanikani_unknown_tag_fails_conversion() {
    let subject = WkSubject::Vocabulary {
        id: 7,
        data: WkVocab {
            characters: "謎".into(),
            meanings: vec![WkMeaning { meaning: "riddle".into() }],
            context_sentences: vec![],
            parts_of_speech: vec!["mystery category".into()],
            pronunciation_audios: vec![],
            readings: vec![],
        },
    };
    match subject.into_dictionary_entry() {
        Err(DictError::UnknownPartOfSpeech(t)) => assert_eq!(t, "mystery category"),
        other => panic!("expected an unknown part of speech, got {:?}", other),
    }
}

#[test]
fn entry_id_parses_like_a_signed_integer() {
    let with_seq = |seq: &str| JMDEntry {
        ent_seq: seq.into(),
        k_ele: vec![JMDKanji { keb: "語".into(), ke_inf: vec![], ke_pri: vec![] }],
        r_ele: vec![],
        sense: vec![],
    };
    let id_of = |seq: &str| match with_seq(seq).into_dictionary_entry().unwrap().source {
        Source::JMDict(n) => n,
        other => panic!("unexpected source {:?}", other),
    };
    assert_eq!(id_of(" 1270480\n"), 1270480);
    assert_eq!(id_of("-5"), -5);
    assert_eq!(id_of("+77"), 77);
    assert_eq!(id_of("-2147483648"), -2147483648);
    assert_eq!(id_of("2147483647"), 2147483647);
    assert_eq!(id_of("2147483648"), -1);
    assert_eq!(id_of("99999999999"), -1);
    assert_eq!(id_of(""), -1);
    assert_eq!(id_of("  "), -1);
    assert_eq!(id_of("+"), -1);
}
