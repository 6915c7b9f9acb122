use jp2anki_dict::entry::{Definition, DictionaryEntry, Example, PartOfSpeech, Source};
use jp2anki_dict::writer::DictionaryWriter;
use jp2anki_dict::reader::DictionaryReader;

fn entry_with_forms(forms: Vec<String>, source: Source) -> DictionaryEntry {
    DictionaryEntry {
        forms,
        source,
        definitions: vec![],
        audio: vec![],
        readings: vec![],
        examples: vec![],
    }
}

fn sources_for(result: &Vec<(String, Vec<DictionaryEntry>)>, word: &str) -> Vec<Source> {
    let mut sources: Vec<Source> = Vec::new();
    for (w, entries) in result {
        if w == word {
            for e in entries {
                sources.push(e.source);
            }
        }
    }
    sources.sort();
    sources
}

#[test]
fn test_writer() {
    let mut dict_w = DictionaryWriter::new();
    dict_w
        .add(entry_with_forms(vec!["A".into()], Source::JMDict(1)))
        .expect("error in dict_w.add");
    let (dat_file, idx_file) = dict_w.finish().expect("error in dict_w.finish");

    println!("dat.len={}", dat_file.len());
    println!("idx.len={}", idx_file.len());
    assert!(dat_file.len() > 0);
    assert!(idx_file.len() > 0);

    let len = u32::from_be_bytes(dat_file[0..4].try_into().unwrap());
    assert_eq!(len as usize + 4, dat_file.len());
}

#[test]
fn test_read_write() {
    let mut dict_w = DictionaryWriter::new();
    dict_w
        .add(entry_with_forms(
            vec!["A".into(), "AA".into(), "Q".into()],
            Source::JMDict(1),
        ))
        .expect("error in dict_w.add#1");
    dict_w
        .add(entry_with_forms(
            vec!["X".into(), "YX".into(), "Q".into()],
            Source::JMDict(2),
        ))
        .expect("error in dict_w.add#2");
    let (dat_file, idx_file) = dict_w.finish().expect("error in dict_w.finish");

    println!("dat.len={}", dat_file.len());
    println!("idx.len={}", idx_file.len());
    assert!(dat_file.len() > 0);
    assert!(idx_file.len() > 0);

    let dict_r =
        DictionaryReader::new(idx_file, dat_file).expect("error in DictionaryReader::new");
    let words: Vec<String> = vec!["A".into(), "AA".into(), "X".into(), "Q".into()];
    let result = dict_r.lookup(&words).expect("error in dict_r.lookup");

    assert_eq!(sources_for(&result, "A"), vec![Source::JMDict(1)], "lookup A");
    assert_eq!(sources_for(&result, "AA"), vec![Source::JMDict(1)], "lookup AA");
    assert_eq!(sources_for(&result, "X"), vec![Source::JMDict(2)], "lookup X");
    assert_eq!(
        sources_for(&result, "Q"),
        vec![Source::JMDict(1), Source::JMDict(2)],
        "lookup Q"
    );
}

#[test]
fn chunk_boundary_lookup() {
    // More entries than one batch holds: the store must span several
    // chunks and still resolve every word independently.
    let mut dict_w = DictionaryWriter::new();
    for i in 0..80 {
        let word = format!("w{}", i);
        dict_w
            .add(entry_with_forms(vec![word], Source::JMDict(i)))
            .expect("add failed");
    }
    let (dat_file, idx_file) = dict_w.finish().expect("finish failed");

    // at least three chunks: each begins with a 4-byte length prefix
    let mut chunks = 0;
    let mut pos = 0usize;
    while pos < dat_file.len() {
        let len = u32::from_be_bytes(dat_file[pos..pos + 4].try_into().unwrap());
        pos += 4 + len as usize;
        chunks += 1;
    }
    assert_eq!(pos, dat_file.len());
    assert!(chunks >= 3);

    let dict_r = DictionaryReader::new(idx_file, dat_file).expect("reader failed");
    let words: Vec<String> = vec!["w0".into(), "w31".into(), "w32".into(), "w79".into()];
    let result = dict_r.lookup(&words).expect("lookup failed");
    assert_eq!(sources_for(&result, "w0"), vec![Source::JMDict(0)]);
    assert_eq!(sources_for(&result, "w31"), vec![Source::JMDict(31)]);
    assert_eq!(sources_for(&result, "w32"), vec![Source::JMDict(32)]);
    assert_eq!(sources_for(&result, "w79"), vec![Source::JMDict(79)]);
}

#[test]
fn cross_word_disambiguation() {
    // Two entries sharing no word land in one chunk; a lookup for one
    // word never returns the other entry.
    let mut dict_w = DictionaryWriter::new();
    dict_w
        .add(entry_with_forms(vec!["alpha".into()], Source::WaniKani(1)))
        .expect("add failed");
    dict_w
        .add(entry_with_forms(vec!["beta".into()], Source::JMDict(2)))
        .expect("add failed");
    let (dat_file, idx_file) = dict_w.finish().expect("finish failed");
    let dict_r = DictionaryReader::new(idx_file, dat_file).expect("reader failed");
    let words: Vec<String> = vec!["alpha".into(), "beta".into()];
    let result = dict_r.lookup(&words).expect("lookup failed");
    assert_eq!(sources_for(&result, "alpha"), vec![Source::WaniKani(1)]);
    assert_eq!(sources_for(&result, "beta"), vec![Source::JMDict(2)]);
}

#[test]
fn idempotent_flush() {
    // Flushing an empty buffer twice adds no bytes and touches no index.
    let mut dict_w = DictionaryWriter::new();
    dict_w
        .add(entry_with_forms(vec!["only".into()], Source::JMDict(7)))
        .expect("add failed");
    dict_w.flush().expect("first flush failed");
    dict_w.flush().expect("second empty flush failed");
    dict_w.flush().expect("third empty flush failed");
    let (dat_file, idx_file) = dict_w.finish().expect("finish failed");

    let mut reference = DictionaryWriter::new();
    reference
        .add(entry_with_forms(vec!["only".into()], Source::JMDict(7)))
        .expect("add failed");
    reference.flush().expect("flush failed");
    let (dat2, idx2) = reference.finish().expect("finish failed");
    assert_eq!(dat_file, dat2);
    assert_eq!(idx_file, idx2);
}

#[test]
fn lookup_reads_readings_too() {
    let mut dict_w = DictionaryWriter::new();
    let entry = DictionaryEntry {
        forms: vec!["word".into()],
        source: Source::JMDict(3),
        definitions: vec![],
        audio: vec![],
        readings: vec!["reading".into()],
        examples: vec![],
    };
    dict_w.add(entry).expect("add failed");
    let (dat_file, idx_file) = dict_w.finish().expect("finish failed");
    let dict_r = DictionaryReader::new(idx_file, dat_file).expect("reader failed");
    let words: Vec<String> = vec!["reading".into()];
    let result = dict_r.lookup(&words).expect("lookup failed");
    assert_eq!(sources_for(&result, "reading"), vec![Source::JMDict(3)]);
}

#[test]
fn absent_word_is_not_an_error() {
    let mut dict_w = DictionaryWriter::new();
    dict_w
        .add(entry_with_forms(vec!["here".into()], Source::JMDict(1)))
        .expect("add failed");
    let (dat_file, idx_file) = dict_w.finish().expect("finish failed");
    let dict_r = DictionaryReader::new(idx_file, dat_file).expect("reader failed");
    let words: Vec<String> = vec!["missing".into()];
    let result = dict_r.lookup(&words).expect("lookup failed");
    assert!(result.is_empty());
}

#[test]
fn malformed_index_is_a_format_error() {
    let garbage: Vec<u8> = vec![0, 1, 2, 3, 4, 5, 6, 7, 8, 9];
    let data: Vec<u8> = Vec::new();
    assert!(DictionaryReader::new(garbage, data).is_err());
}

#[test]
fn round_trip_preserves_entry_fields() {
    let entry = DictionaryEntry {
        forms: vec!["食べる".into()],
        source: Source::JMDict(1358280),
        definitions: vec![Definition {
            text: "to eat, to live on".into(),
            pos: vec![PartOfSpeech::Verb],
            flags: vec!["uk".into()],
        }],
        audio: vec!["https://example.invalid/taberu.mp3".into()],
        readings: vec!["たべる".into()],
        examples: vec![Example {
            for_definition: Some(0),
            en: "I eat bread.".into(),
            ja: "パンを食べる。".into(),
        }],
    };
    let mut dict_w = DictionaryWriter::new();
    dict_w.add(entry).expect("add failed");
    let (dat_file, idx_file) = dict_w.finish().expect("finish failed");
    let dict_r = DictionaryReader::new(idx_file, dat_file).expect("reader failed");
    let words: Vec<String> = vec!["たべる".into()];
    let result = dict_r.lookup(&words).expect("lookup failed");
    assert_eq!(result.len(), 1);
    let (word, entries) = &result[0];
    assert_eq!(word, "たべる");
    assert_eq!(entries.len(), 1);
    let e = &entries[0];
    assert_eq!(e.forms, vec!["食べる".to_string()]);
    assert_eq!(e.source, Source::JMDict(1358280));
    assert_eq!(e.definitions.len(), 1);
    assert_eq!(e.definitions[0].text, "to eat, to live on");
    assert_eq!(e.definitions[0].pos, vec![PartOfSpeech::Verb]);
    assert_eq!(e.definitions[0].flags, vec!["uk".to_string()]);
    assert_eq!(e.audio, vec!["https://example.invalid/taberu.mp3".to_string()]);
    assert_eq!(e.readings, vec!["たべる".to_string()]);
    assert_eq!(e.examples.len(), 1);
    assert_eq!(e.examples[0].for_definition, Some(0));
    assert_eq!(e.examples[0].en, "I eat bread.");
    assert_eq!(e.examples[0].ja, "パンを食べる。");
}

#[test]
fn duplicate_sources_across_chunks_both_returned() {
    // The same source registered under the same word in two different
    // chunks is returned twice: the reader concatenates across chunks
    // without deduplicating.
    let mut dict_w = DictionaryWriter::new();
    dict_w
        .add(entry_with_forms(vec!["twice".into()], Source::JMDict(5)))
        .expect("add failed");
    dict_w.flush().expect("flush failed");
    dict_w
        .add(entry_with_forms(vec!["twice".into()], Source::JMDict(5)))
        .expect("add failed");
    let (dat_file, idx_file) = dict_w.finish().expect("finish failed");
    let dict_r = DictionaryReader::new(idx_file, dat_file).expect("reader failed");
    let words: Vec<String> = vec!["twice".into()];
    let result = dict_r.lookup(&words).expect("lookup failed");
    assert_eq!(
        sources_for(&result, "twice"),
        vec![Source::JMDict(5), Source::JMDict(5)]
    );
}

#[test]
fn truncated_data_is_a_format_error_on_lookup() {
    let mut dict_w = DictionaryWriter::new();
    dict_w
        .add(entry_with_forms(vec!["cut".into()], Source::JMDict(9)))
        .expect("add failed");
    let (dat_file, idx_file) = dict_w.finish().expect("finish failed");
    let truncated: Vec<u8> = dat_file[0..dat_file.len() / 2].to_vec();
    let dict_r = DictionaryReader::new(idx_file, truncated).expect("reader failed");
    let words: Vec<String> = vec!["cut".into()];
    assert!(dict_r.lookup(&words).is_err());
}

#[test]
fn index_blob_words_sorted() {
    // The index keeps its words in ascending code-point order, whatever
    // order the entries arrived in.
    let mut dict_w = DictionaryWriter::new();
    for w in ["pear", "apple", "zz", "banana", "cherry"] {
        dict_w
            .add(entry_with_forms(vec![w.into()], Source::JMDict(1)))
            .expect("add failed");
    }
    let (_dat, idx_file) = dict_w.finish().expect("finish failed");

    let mut blob: Vec<u8> = Vec::new();
    let mut dec = flate2::read::DeflateDecoder::new(&idx_file[..]);
    std::io::Read::read_to_end(&mut dec, &mut blob).expect("decompress failed");

    let mut pos = 0usize;
    let read_u64 = |blob: &Vec<u8>, pos: &mut usize| {
        let v = u64::from_le_bytes(blob[*pos..*pos + 8].try_into().unwrap());
        *pos += 8;
        v
    };
    let count = read_u64(&blob, &mut pos);
    assert_eq!(count, 5);
    let mut words: Vec<String> = Vec::new();
    for _ in 0..count {
        let wlen = read_u64(&blob, &mut pos) as usize;
        let word = String::from_utf8(blob[pos..pos + wlen].to_vec()).unwrap();
        pos += wlen;
        let offs = read_u64(&blob, &mut pos) as usize;
        pos += 4 * offs;
        words.push(word);
    }
    assert_eq!(pos, blob.len());
    for i in 1..words.len() {
        assert!(words[i - 1] < words[i], "index words out of order");
    }
    assert_eq!(
        words,
        vec!["apple", "banana", "cherry", "pear", "zz"]
    );
}
