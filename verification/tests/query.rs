use word2vec::utils::top_k;
use word2vec::utils::compute_score_key;
use word2vec::vectorreader::WordVectorReader;
use word2vec::wordvectors::WordVector;

fn blob(header: &str, entries: &[(&str, &[f32])]) -> Vec<u8> {
    let mut data: Vec<u8> = Vec::new();
    data.extend_from_slice(header.as_bytes());
    for (word, vector) in entries {
        data.extend_from_slice(word.as_bytes());
        data.push(b' ');
        for x in *vector {
            data.extend_from_slice(&x.to_le_bytes());
        }
    }
    data
}

fn normalize_bits(bits: Vec<u32>) -> Vec<u32> {
    let values: Vec<f32> = bits.iter().map(|b| f32::from_bits(*b)).collect();
    let inv = 1.0 / values.iter().fold(0f32, |sum, x| sum + x * x).sqrt();
    values.iter().map(|x| (x * inv).to_bits()).collect()
}

fn load(data: Vec<u8>) -> WordVector {
    let mut reader = WordVectorReader::new_from_reader(data).unwrap();
    let vector_size = reader.vector_size();
    let entries = reader.read_all_entries();
    let normalized: Vec<(String, Vec<u32>)> =
        entries.into_iter().map(|(w, v)| (w, normalize_bits(v))).collect();
    for e in &normalized {
        assert_eq!(e.1.len(), vector_size);
    }
    WordVector::from_entries(vector_size, normalized)
}

fn dot_bits(a: &[u32], b: &[u32]) -> u32 {
    let mut sum = 0f32;
    for (x, y) in a.iter().zip(b.iter()) {
        sum += f32::from_bits(*x) * f32::from_bits(*y);
    }
    sum.to_bits()
}

fn scores_against(store: &WordVector, query: &[u32]) -> Vec<u32> {
    store
        .get_words()
        .iter()
        .map(|w| dot_bits(store.get_vector(w).unwrap(), query))
        .collect()
}

fn cosine_query(store: &WordVector, word: &str, n: usize) -> Option<Vec<(String, f32)>> {
    let scores = match store.get_vector(word) {
        Some(v) => scores_against(store, &v.clone()),
        None => Vec::new(),
    };
    store
        .cosine(word, n, &scores)
        .map(|list| list.into_iter().map(|(w, s)| (w, f32::from_bits(s))).collect())
}

fn analogy_query(
    store: &WordVector,
    pos: &[&str],
    neg: &[&str],
    n: usize,
) -> Option<Vec<(String, f32)>> {
    let pos: Vec<String> = pos.iter().map(|s| s.to_string()).collect();
    let neg: Vec<String> = neg.iter().map(|s| s.to_string()).collect();
    let gathered = store.analogy_gather(&pos, &neg);
    if (pos.is_empty() && neg.is_empty()) || gathered.is_empty() {
        let absent = store.analogy(&pos, &neg, n, &Vec::new());
        return absent.map(|list| list.into_iter().map(|(w, s)| (w, f32::from_bits(s))).collect());
    }
    let dim = store.get_col_count();
    let mut mean: Vec<u32> = Vec::new();
    for i in 0..dim {
        let sum: f32 = gathered.iter().map(|v| f32::from_bits(v[i])).sum();
        mean.push((sum / gathered.len() as f32).to_bits());
    }
    let scores = scores_against(store, &mean);
    store
        .analogy(&pos, &neg, n, &scores)
        .map(|list| list.into_iter().map(|(w, s)| (w, f32::from_bits(s))).collect())
}

#[test]
fn test_word_cosine() {
    // "kitten" points nearly where "cat" does; "submarine" points away
    let store = load(blob(
        "3 2\n",
        &[("cat", &[3.0, 4.0]), ("kitten", &[3.1, 4.1]), ("submarine", &[5.0, -1.0])],
    ));
    let res = cosine_query(&store, "cat", 1).expect("word not found in vocabulary");
    assert_eq!(res.len(), 1);
    assert_eq!(res[0].0, "kitten");
}

#[test]
fn test_cosine_never_returns_query_word() {
    let store = load(blob(
        "3 2\n",
        &[("cat", &[3.0, 4.0]), ("kitten", &[3.1, 4.1]), ("submarine", &[5.0, -1.0])],
    ));
    let res = cosine_query(&store, "cat", 10).unwrap();
    assert_eq!(res.len(), 2);
    assert!(res.iter().all(|(w, _)| w != "cat"));
    // descending similarity
    assert!(res[0].1 >= res[1].1);
    assert_eq!(res[0].0, "kitten");
}

#[test]
fn test_unexisting_word_cosine() {
    let store = load(blob("2 2\n", &[("cat", &[3.0, 4.0]), ("dog", &[0.0, 5.0])]));
    assert!(cosine_query(&store, "somenotexistingword", 10).is_none());
}

#[test]
fn test_word_analogy() {
    // "woman" is missing from the vocabulary: it is dropped from the
    // averaged vector but still never appears in the output
    let store = load(blob(
        "4 2\n",
        &[
            ("king", &[1.0, 1.0]),
            ("man", &[1.0, 0.0]),
            ("queen", &[0.1, 1.0]),
            ("peasant", &[0.9, -1.0]),
        ],
    ));
    let pos = vec!["king".to_string(), "woman".to_string()];
    let neg = vec!["man".to_string()];
    let gathered = store.analogy_gather(&pos, &neg);
    assert_eq!(gathered.len(), 2); // king, and man negated
    let king: Vec<u32> = store.get_vector("king").unwrap().clone();
    let man: Vec<u32> = store.get_vector("man").unwrap().clone();
    assert_eq!(gathered[0], king);
    let neg_man: Vec<f32> = man.iter().map(|b| -f32::from_bits(*b)).collect();
    let got_man: Vec<f32> = gathered[1].iter().map(|b| f32::from_bits(*b)).collect();
    assert_eq!(got_man, neg_man);

    let res = analogy_query(&store, &["king", "woman"], &["man"], 5)
        .expect("couldn't find all of the given words");
    assert!(!res.is_empty());
    for (w, _) in &res {
        assert!(w != "king" && w != "woman" && w != "man");
    }
    assert_eq!(res.len(), 2); // queen and peasant remain
}

#[test]
fn test_word_analogy_with_empty_params() {
    let store = load(blob("2 2\n", &[("cat", &[3.0, 4.0]), ("dog", &[0.0, 5.0])]));
    assert!(analogy_query(&store, &[], &[], 10).is_none());
}

#[test]
fn test_word_analogy_nothing_resolvable() {
    let store = load(blob("2 2\n", &[("cat", &[3.0, 4.0]), ("dog", &[0.0, 5.0])]));
    assert!(analogy_query(&store, &["ghost"], &["phantom"], 3).is_none());
}

#[test]
fn test_top_k_sorts_excludes_truncates() {
    let scored = vec![
        ("low".to_string(), 0.1f32.to_bits()),
        ("skip".to_string(), 0.9f32.to_bits()),
        ("high".to_string(), 0.8f32.to_bits()),
        ("mid".to_string(), 0.5f32.to_bits()),
    ];
    let exclude = vec!["skip".to_string()];
    let r = top_k(scored, 2, &exclude);
    assert_eq!(r.len(), 2);
    assert_eq!(r[0].0, "high");
    assert_eq!(r[1].0, "mid");
}

#[test]
fn test_top_k_handles_nan_scores() {
    let scored = vec![
        ("nan".to_string(), f32::NAN.to_bits()),
        ("neg".to_string(), (-2.0f32).to_bits()),
        ("pos".to_string(), 1.0f32.to_bits()),
    ];
    let r = top_k(scored, 3, &Vec::new());
    assert_eq!(r.len(), 3);
    // the positive NaN pattern sorts above every number
    assert_eq!(r[0].0, "nan");
    assert_eq!(r[1].0, "pos");
    assert_eq!(r[2].0, "neg");
}

#[test]
fn test_score_key_orders_like_f32() {
    let samples = [-f32::INFINITY, -3.5, -0.0, 0.0, 1.0e-9, 2.5, f32::INFINITY];
    for pair in samples.windows(2) {
        let a = compute_score_key(pair[0].to_bits());
        let b = compute_score_key(pair[1].to_bits());
        assert!(a <= b);
    }
}
