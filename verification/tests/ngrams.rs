use sacrebleu_rs::ngrams::{extract_all_word_ngrams, extract_reference_info};
use sacrebleu_rs::stats::closest_ref_len;

fn gram(words: &[&str]) -> Vec<Vec<char>> {
    words.iter().map(|w| w.chars().collect()).collect()
}

#[test]
fn counts_every_ngram_up_to_the_order() {
    let (counts, len) = extract_all_word_ngrams("a b a b", 2);
    assert_eq!(len, 4);
    assert_eq!(counts.len(), 4);
    assert_eq!(counts.count(&gram(&["a"])), 2);
    assert_eq!(counts.count(&gram(&["b"])), 2);
    assert_eq!(counts.count(&gram(&["a", "b"])), 2);
    assert_eq!(counts.count(&gram(&["b", "a"])), 1);
    assert_eq!(counts.count(&gram(&["a", "b", "a"])), 0);
    assert_eq!(counts.count(&gram(&["c"])), 0);
}

#[test]
fn counts_of_an_empty_line() {
    let (counts, len) = extract_all_word_ngrams("   ", 4);
    assert_eq!(len, 0);
    assert_eq!(counts.len(), 0);
}

#[test]
fn reference_counts_take_the_maximum() {
    let refs = vec!["a b".to_string(), "a a".to_string()];
    let info = extract_reference_info(&refs, 2);
    assert_eq!(info.lens(), &vec![2usize, 2]);
    let tokens = gram(&["a", "b", "a", "a", "c"]);
    assert_eq!(info.max_count_at(&tokens, 0, 1), 2);
    assert_eq!(info.max_count_at(&tokens, 1, 1), 1);
    assert_eq!(info.max_count_at(&tokens, 0, 2), 1);
    assert_eq!(info.max_count_at(&tokens, 2, 2), 1);
    assert_eq!(info.max_count_at(&tokens, 1, 2), 0);
    assert_eq!(info.max_count_at(&tokens, 4, 1), 0);
}

#[test]
fn closest_reference_length_prefers_the_shorter_on_ties() {
    assert_eq!(closest_ref_len(5, &vec![3, 7]), 3);
    assert_eq!(closest_ref_len(5, &vec![6, 4]), 4);
    assert_eq!(closest_ref_len(5, &vec![9, 2, 6]), 6);
    assert_eq!(closest_ref_len(5, &vec![]), 0);
    assert_eq!(closest_ref_len(0, &vec![0]), 0);
}
