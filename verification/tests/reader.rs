use word2vec::errors::Word2VecError;
use word2vec::vectorreader::WordVectorReader;

fn blob(header: &str, entries: &[(&str, &[f32])]) -> Vec<u8> {
    let mut data: Vec<u8> = Vec::new();
    data.extend_from_slice(header.as_bytes());
    for (word, vector) in entries {
        data.extend_from_slice(word.as_bytes());
        data.push(b' ');
        for x in *vector {
            data.extend_from_slice(&x.to_le_bytes());
        }
    }
    data
}

#[test]
fn test_header_parse_ok() {
    let reader = WordVectorReader::new_from_reader(blob("3 2\n", &[])).unwrap();
    assert_eq!(reader.vocabulary_size(), 3);
    assert_eq!(reader.vector_size(), 2);
}

#[test]
fn test_header_skips_unparseable_tokens() {
    let reader = WordVectorReader::new_from_reader(blob("x 3 2\n", &[])).unwrap();
    assert_eq!(reader.vocabulary_size(), 3);
    assert_eq!(reader.vector_size(), 2);
}

#[test]
fn test_header_one_integer_is_error() {
    let r = WordVectorReader::new_from_reader(blob("3\n", &[]));
    assert!(matches!(r, Err(Word2VecError::WrongHeader)));
}

#[test]
fn test_header_three_integers_is_error() {
    let r = WordVectorReader::new_from_reader(blob("1 2 3\n", &[]));
    assert!(matches!(r, Err(Word2VecError::WrongHeader)));
}

#[test]
fn test_header_empty_is_error() {
    let r = WordVectorReader::new_from_reader(Vec::new());
    assert!(matches!(r, Err(Word2VecError::WrongHeader)));
}

#[test]
fn test_entry_bits_are_little_endian() {
    let mut reader = WordVectorReader::new_from_reader(blob("1 1\n", &[("one", &[1.0])])).unwrap();
    let (word, vector) = reader.next_entry().unwrap();
    assert_eq!(word, "one");
    assert_eq!(vector, vec![1.0f32.to_bits()]);
    assert!(reader.next_entry().is_none());
}

#[test]
fn test_entries_in_stream_order() {
    let data = blob("3 2\n", &[("a", &[1.0, 2.0]), ("b", &[3.0, 4.0]), ("c", &[5.0, 6.0])]);
    let mut reader = WordVectorReader::new_from_reader(data).unwrap();
    let entries = reader.read_all_entries();
    assert_eq!(entries.len(), 3);
    assert_eq!(entries[0].0, "a");
    assert_eq!(entries[1].0, "b");
    assert_eq!(entries[2].0, "c");
    assert_eq!(entries[1].1, vec![3.0f32.to_bits(), 4.0f32.to_bits()]);
}

#[test]
fn test_truncated_stream_stops_early() {
    let mut data = blob("3 2\n", &[("a", &[1.0, 2.0])]);
    // the second record's vector is cut short
    data.extend_from_slice(b"b ");
    data.extend_from_slice(&1.0f32.to_le_bytes());
    let mut reader = WordVectorReader::new_from_reader(data).unwrap();
    let entries = reader.read_all_entries();
    assert_eq!(entries.len(), 1);
    assert_eq!(entries[0].0, "a");
}

#[test]
fn test_vocabulary_size_caps_iteration() {
    let data = blob("1 1\n", &[("a", &[1.0]), ("b", &[2.0])]);
    let mut reader = WordVectorReader::new_from_reader(data).unwrap();
    let entries = reader.read_all_entries();
    assert_eq!(entries.len(), 1);
    assert_eq!(entries[0].0, "a");
}

#[test]
fn test_word_trimmed_of_stray_newline() {
    let mut data = blob("2 1\n", &[("a", &[1.0])]);
    data.extend_from_slice(b"\nb ");
    data.extend_from_slice(&2.0f32.to_le_bytes());
    let mut reader = WordVectorReader::new_from_reader(data).unwrap();
    let entries = reader.read_all_entries();
    assert_eq!(entries.len(), 2);
    assert_eq!(entries[1].0, "b");
}

#[test]
fn test_multibyte_word_round_trips() {
    let data = blob("1 1\n", &[("h\u{e9}llo", &[1.0])]);
    let mut reader = WordVectorReader::new_from_reader(data).unwrap();
    let (word, _) = reader.next_entry().unwrap();
    assert_eq!(word, "h\u{e9}llo");
}

#[test]
fn test_invalid_utf8_word_stops_iteration() {
    let mut data = blob("2 1\n", &[("a", &[1.0])]);
    data.extend_from_slice(&[0xff, 0xfe]);
    data.push(b' ');
    data.extend_from_slice(&1.0f32.to_le_bytes());
    let mut reader = WordVectorReader::new_from_reader(data).unwrap();
    let entries = reader.read_all_entries();
    assert_eq!(entries.len(), 1);
}

#[test]
fn test_header_overflowing_token_is_skipped() {
    let mut data: Vec<u8> = Vec::new();
    data.extend_from_slice(b"99999999999999999999999999999 3 2\n");
    let reader = WordVectorReader::new_from_reader(data).unwrap();
    assert_eq!(reader.vocabulary_size(), 3);
    assert_eq!(reader.vector_size(), 2);
}

#[test]
fn test_header_plus_signed_tokens() {
    let mut data: Vec<u8> = Vec::new();
    data.extend_from_slice(b"+3 +2\n");
    let reader = WordVectorReader::new_from_reader(data).unwrap();
    assert_eq!(reader.vocabulary_size(), 3);
    assert_eq!(reader.vector_size(), 2);
}
