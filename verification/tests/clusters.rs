use word2vec::errors::Word2VecError;
use word2vec::wordclusters::WordClusters;

#[test]
fn test_load_clusters_groups_by_id() {
    let data = b"cat 1\ndog 2\nlion 1\n".to_vec();
    let clusters = WordClusters::load_from_reader(&data).unwrap();
    let one = clusters.get_words_on_cluster(1).unwrap();
    assert_eq!(one, &vec!["cat".to_string(), "lion".to_string()]);
    let two = clusters.get_words_on_cluster(2).unwrap();
    assert_eq!(two, &vec!["dog".to_string()]);
}

#[test]
fn test_get_words_on_absent_cluster() {
    let data = b"cat 1\n".to_vec();
    let clusters = WordClusters::load_from_reader(&data).unwrap();
    assert!(clusters.get_words_on_cluster(7).is_none());
}

#[test]
fn test_get_cluster_finds_word() {
    let data = b"cat 1\ndog -2\nlion 1\n".to_vec();
    let clusters = WordClusters::load_from_reader(&data).unwrap();
    assert_eq!(clusters.get_cluster("dog"), Some(&-2));
    assert_eq!(clusters.get_cluster("lion"), Some(&1));
    assert_eq!(clusters.get_cluster("sloth"), None);
}

#[test]
fn test_last_line_without_newline() {
    let data = b"cat 1\ndog 2".to_vec();
    let clusters = WordClusters::load_from_reader(&data).unwrap();
    assert_eq!(clusters.get_cluster("dog"), Some(&2));
}

#[test]
fn test_invalid_utf8_word_is_error() {
    let mut data = b"cat 1\n".to_vec();
    data.extend_from_slice(&[0xff, 0xfe]);
    data.extend_from_slice(b" 2\n");
    let r = WordClusters::load_from_reader(&data);
    assert!(matches!(r, Err(Word2VecError::InvalidUtf8)));
}
