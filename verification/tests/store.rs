use word2vec::vectorreader::WordVectorReader;
use word2vec::wordvectors::WordVector;

fn blob(header: &str, entries: &[(&str, &[f32])]) -> Vec<u8> {
    let mut data: Vec<u8> = Vec::new();
    data.extend_from_slice(header.as_bytes());
    for (word, vector) in entries {
        data.extend_from_slice(word.as_bytes());
        data.push(b' ');
        for x in *vector {
            data.extend_from_slice(&x.to_le_bytes());
        }
    }
    data
}

fn normalize_bits(bits: Vec<u32>) -> Vec<u32> {
    let values: Vec<f32> = bits.iter().map(|b| f32::from_bits(*b)).collect();
    let inv = 1.0 / values.iter().fold(0f32, |sum, x| sum + x * x).sqrt();
    values.iter().map(|x| (x * inv).to_bits()).collect()
}

fn load(data: Vec<u8>) -> WordVector {
    let mut reader = WordVectorReader::new_from_reader(data).unwrap();
    let vector_size = reader.vector_size();
    let entries = reader.read_all_entries();
    let normalized: Vec<(String, Vec<u32>)> =
        entries.into_iter().map(|(w, v)| (w, normalize_bits(v))).collect();
    for e in &normalized {
        assert_eq!(e.1.len(), vector_size);
    }
    WordVector::from_entries(vector_size, normalized)
}

fn vector_values(store: &WordVector, word: &str) -> Vec<f32> {
    store.get_vector(word).unwrap().iter().map(|b| f32::from_bits(*b)).collect()
}

#[test]
fn test_load_cat_dog() {
    let store = load(blob("2 2\n", &[("cat", &[3.0, 4.0]), ("dog", &[0.0, 5.0])]));
    assert_eq!(store.word_count(), 2);
    assert_eq!(store.get_col_count(), 2);
    let cat = vector_values(&store, "cat");
    assert!((cat[0] - 0.6).abs() < 1e-6);
    assert!((cat[1] - 0.8).abs() < 1e-6);
}

#[test]
fn test_word_count_within_vocabulary_size() {
    // the header claims more entries than the stream holds
    let store = load(blob("9 2\n", &[("cat", &[3.0, 4.0]), ("dog", &[0.0, 5.0])]));
    assert!(store.word_count() <= 9);
    assert_eq!(store.word_count(), 2);
    assert_eq!(store.get_col_count(), 2);
}

#[test]
fn test_roundtrip_three_records() {
    let entries: [(&str, &[f32]); 3] =
        [("one", &[1.0, 0.0]), ("two", &[3.0, 4.0]), ("three", &[-2.0, 2.0])];
    let store = load(blob("3 2\n", &entries));
    assert_eq!(store.word_count(), 3);
    for (word, raw) in &entries {
        let inv = 1.0 / raw.iter().fold(0f32, |s, x| s + x * x).sqrt();
        let expected: Vec<f32> = raw.iter().map(|x| x * inv).collect();
        let got = vector_values(&store, word);
        assert_eq!(got.len(), expected.len());
        for (g, e) in got.iter().zip(expected.iter()) {
            assert!((g - e).abs() < 1e-6);
        }
    }
    let words = store.get_words();
    assert_eq!(words, vec!["one".to_string(), "two".to_string(), "three".to_string()]);
}

#[test]
fn test_get_vector_absent_word() {
    let store = load(blob("2 2\n", &[("cat", &[3.0, 4.0]), ("dog", &[0.0, 5.0])]));
    assert!(store.get_vector("lynx").is_none());
    assert!(store.get_vector("Cat").is_none());
}

#[test]
fn test_duplicate_word_keeps_first_vector() {
    let store = load(blob("2 1\n", &[("cat", &[2.0]), ("cat", &[-3.0])]));
    assert_eq!(store.word_count(), 1);
    let cat = vector_values(&store, "cat");
    assert!((cat[0] - 1.0).abs() < 1e-6);
}

#[test]
fn test_all_stored_vectors_unit_norm() {
    let store = load(blob(
        "3 3\n",
        &[("a", &[1.0, 2.0, 3.0]), ("b", &[-4.0, 0.5, 9.0]), ("c", &[0.01, 7.0, -2.5])],
    ));
    for word in store.get_words() {
        let v = vector_values(&store, &word);
        let norm: f32 = v.iter().fold(0f32, |s, x| s + x * x).sqrt();
        assert!((norm - 1.0).abs() < 1e-5);
    }
}
