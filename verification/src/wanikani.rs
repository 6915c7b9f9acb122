//! The vocabulary shapes of the paginated web API collaborator, and the
//! pure conversion from an API subject to a dictionary entry. Fetching
//! and JSON decoding stay outside the library; this module only turns
//! already-decoded values into entries.

use vstd::prelude::*;

use crate::entry::{DictionaryEntry, Definition, Example, Source, DictError, ExampleModel,
    DefinitionModel, join_comma, joined};
use crate::pos::{classify_all, dedup};

verus! {

/// One page of API subjects.
pub struct WkSubjects {
    pub pages: Option<WkPagination>,
    pub total_count: Option<i32>,
    pub data_updated_at: Option<String>,
    pub data: Vec<WkSubject>,
}

/// Pagination state of a subjects page.
pub struct WkPagination {
    pub per_page: i32,
    pub next_url: Option<String>,
}

/// One API subject; only vocabulary subjects carry dictionary data.
pub enum WkSubject {
    Radical,
    Kanji,
    Vocabulary { id: i32, data: WkVocab },
}

/// The vocabulary payload of a subject.
pub struct WkVocab {
    pub characters: String,
    pub meanings: Vec<WkMeaning>,
    pub context_sentences: Vec<WkContextSentence>,
    pub parts_of_speech: Vec<String>,
    pub pronunciation_audios: Vec<WkPronunciationAudio>,
    pub readings: Vec<WkReading>,
}

/// One meaning string of a vocabulary subject.
pub struct WkMeaning {
    pub meaning: String,
}

/// One parallel example sentence pair.
pub struct WkContextSentence {
    pub en: String,
    pub ja: String,
}

/// One pronunciation audio reference.
pub struct WkPronunciationAudio {
    pub url: String,
    pub content_type: String,
    pub metadata: WkPronunciationAudioMetadata,
}

/// Metadata of a pronunciation audio reference.
pub struct WkPronunciationAudioMetadata {
    pub pronunciation: String,
}

/// One phonetic reading of a vocabulary subject.
pub struct WkReading {
    pub reading: String,
}

/// The meaning strings of a subject, in order.
pub open spec fn meaning_strs(v: Seq<WkMeaning>) -> Seq<Seq<char>> {
    Seq::new(v.len(), |i: int| v[i].meaning@)
}

/// The audio reference URLs of a subject, in order.
pub open spec fn audio_urls(v: Seq<WkPronunciationAudio>) -> Seq<Seq<char>> {
    Seq::new(v.len(), |i: int| v[i].url@)
}

/// The reading strings of a subject, in order.
pub open spec fn reading_strs(v: Seq<WkReading>) -> Seq<Seq<char>> {
    Seq::new(v.len(), |i: int| v[i].reading@)
}

/// The context sentences of a subject as whole-entry examples, in order.
pub open spec fn sentence_models(v: Seq<WkContextSentence>) -> Seq<ExampleModel> {
    Seq::new(
        v.len(),
        |i: int| ExampleModel { for_definition: None, en: v[i].en@, ja: v[i].ja@ },
    )
}

impl WkSubject {
    /// Turns a subject into a dictionary entry. Radicals and kanji carry
    /// no dictionary data and yield nothing. A vocabulary subject yields
    /// an entry with its characters as the single form, the API numeric
    /// id under the API origin tag as the source, one definition whose
    /// gloss joins the meanings with `", "`, whose categories classify
    /// the subject's part-of-speech tags (duplicates collapsed) and
    /// whose single flag is `wk`, together with its audio URLs, readings
    /// and context sentences. Fails exactly when some part-of-speech tag
    /// is unrecognized, carrying the first such tag.
    #[verifier::loop_isolation(false)]
    pub fn into_dictionary_entry(self) -> (r: Result<Option<DictionaryEntry>, DictError>)
        ensures
            match r {
                Ok(opt) => match self {
                    WkSubject::Vocabulary { id, data } => {
                        &&& opt matches Some(e)
                        &&& classify_all(data.parts_of_speech.deep_view()) matches Ok(cats)
                            && e@.definitions == seq![
                            DefinitionModel {
                                text: joined(meaning_strs(data.meanings@)),
                                pos: dedup(cats),
                                flags: seq!["wk"@],
                            },
                        ]
                        &&& e@.forms == seq![data.characters@]
                        &&& e@.source == Source::WaniKani(id)
                        &&& e@.audio == audio_urls(data.pronunciation_audios@)
                        &&& e@.readings == reading_strs(data.readings@)
                        &&& e@.examples == sentence_models(data.context_sentences@)
                        &&& e@.wf()
                    },
                    _ => opt is None,
                },
                Err(e) => match self {
                    WkSubject::Vocabulary { id, data } => classify_all(
                        data.parts_of_speech.deep_view(),
                    ) matches Err(t) && (e matches DictError::UnknownPartOfSpeech(u) && u@ == t),
                    _ => false,
                },
            },
    {
        match self {
            WkSubject::Vocabulary { id, data } => {
                let WkVocab {
                    characters,
                    meanings,
                    context_sentences,
                    parts_of_speech,
                    pronunciation_audios,
                    readings,
                } = data;
                let mut meaning_texts: Vec<String> = Vec::new();
                let nm = meanings.len();
                let mut i: usize = 0;
                while i < nm
                    invariant
                        nm == meanings@.len(),
                        i <= nm,
                        meaning_texts.deep_view() == meaning_strs(meanings@).take(i as int),
                    decreases nm - i,
                {
                    meaning_texts.push(meanings[i].meaning.clone());
                    proof {
                        assert(meaning_texts.deep_view() =~= meaning_strs(meanings@).take(
                            i as int + 1,
                        ));
                    }
                    i = i + 1;
                }
                proof {
                    assert(meaning_strs(meanings@).take(nm as int) =~= meaning_strs(meanings@));
                }
                let text = join_comma(&meaning_texts);
                let mut flags: Vec<String> = Vec::new();
                flags.push("wk".to_owned());
                let definition = match Definition::new(text, parts_of_speech, flags) {
                    Err(e) => {
                        return Err(e);
                    },
                    Ok(d) => d,
                };
                proof {
                    assert(definition@.flags =~= seq!["wk"@]);
                }
                let mut audio: Vec<String> = Vec::new();
                let na = pronunciation_audios.len();
                let mut j: usize = 0;
                while j < na
                    invariant
                        na == pronunciation_audios@.len(),
                        j <= na,
                        audio.deep_view() == audio_urls(pronunciation_audios@).take(j as int),
                    decreases na - j,
                {
                    audio.push(pronunciation_audios[j].url.clone());
                    proof {
                        assert(audio.deep_view() =~= audio_urls(pronunciation_audios@).take(
                            j as int + 1,
                        ));
                    }
                    j = j + 1;
                }
                proof {
                    assert(audio_urls(pronunciation_audios@).take(na as int) =~= audio_urls(
                        pronunciation_audios@,
                    ));
                }
                let mut reading_out: Vec<String> = Vec::new();
                let nr = readings.len();
                let mut k: usize = 0;
                while k < nr
                    invariant
                        nr == readings@.len(),
                        k <= nr,
                        reading_out.deep_view() == reading_strs(readings@).take(k as int),
                    decreases nr - k,
                {
                    reading_out.push(readings[k].reading.clone());
                    proof {
                        assert(reading_out.deep_view() =~= reading_strs(readings@).take(
                            k as int + 1,
                        ));
                    }
                    k = k + 1;
                }
                proof {
                    assert(reading_strs(readings@).take(nr as int) =~= reading_strs(readings@));
                }
                let mut examples: Vec<Example> = Vec::new();
                let ns = context_sentences.len();
                let mut t: usize = 0;
                while t < ns
                    invariant
                        ns == context_sentences@.len(),
                        t <= ns,
                        crate::entry::exs_view(examples@) == sentence_models(
                            context_sentences@,
                        ).take(t as int),
                    decreases ns - t,
                {
                    examples.push(
                        Example {
                            for_definition: None,
                            en: context_sentences[t].en.clone(),
                            ja: context_sentences[t].ja.clone(),
                        },
                    );
                    proof {
                        assert(crate::entry::exs_view(examples@) =~= sentence_models(
                            context_sentences@,
                        ).take(t as int + 1));
                    }
                    t = t + 1;
                }
                proof {
                    assert(sentence_models(context_sentences@).take(ns as int) =~= sentence_models(
                        context_sentences@,
                    ));
                }
                let mut forms: Vec<String> = Vec::new();
                forms.push(characters);
                let mut definitions: Vec<Definition> = Vec::new();
                definitions.push(definition);
                let e = DictionaryEntry {
                    forms,
                    source: Source::WaniKani(id),
                    definitions,
                    audio,
                    readings: reading_out,
                    examples,
                };
                proof {
                    assert(e@.forms =~= seq![e.forms@[0]@]);
                    assert(crate::entry::defs_view(e.definitions@) =~= seq![e.definitions@[0]@]);
                }
                Ok(Some(e))
            },
            WkSubject::Radical => Ok(None),
            WkSubject::Kanji => Ok(None),
        }
    }
}

} // verus!
