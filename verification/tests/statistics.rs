use sacrebleu_rs::corpus::{corpus_statistics, sentence_statistics};
use sacrebleu_rs::ngrams::extract_reference_info;
use sacrebleu_rs::stats::segment_statistics;

fn strings(v: &[&str]) -> Vec<String> {
    v.iter().map(|s| s.to_string()).collect()
}

#[test]
fn perfect_match_statistics() {
    let s = corpus_statistics(
        &strings(&["the cat sat on the mat"]),
        &vec![strings(&["the cat sat on the mat"])],
        false,
        4,
    );
    assert_eq!(s, Some(vec![6, 6, 6, 5, 4, 3, 6, 5, 4, 3]));
}

#[test]
fn no_match_statistics() {
    let s = corpus_statistics(
        &strings(&["completely different words here"]),
        &vec![strings(&["nothing alike at all"])],
        false,
        4,
    );
    assert_eq!(s, Some(vec![4, 4, 0, 0, 0, 0, 4, 3, 2, 1]));
}

#[test]
fn repeated_words_are_clipped() {
    let s = corpus_statistics(&strings(&["the the the the"]), &vec![strings(&["the cat"])], false, 4);
    assert_eq!(s, Some(vec![4, 2, 1, 0, 0, 0, 4, 3, 2, 1]));
}

#[test]
fn corpus_sums_segments_with_several_references() {
    let s = corpus_statistics(
        &strings(&["the cat sat", "a dog ran"]),
        &vec![
            strings(&["the cat sat on the mat", "a dog ran"]),
            strings(&["the cat", "the dog ran away"]),
        ],
        false,
        4,
    );
    assert_eq!(s, Some(vec![6, 5, 6, 4, 2, 0, 6, 4, 2, 0]));
}

#[test]
fn lowercase_option_matches_across_case() {
    let hyps = strings(&["The Cat"]);
    let refs = vec![strings(&["the cat"])];
    assert_eq!(corpus_statistics(&hyps, &refs, true, 2), Some(vec![2, 2, 2, 1, 2, 1]));
    assert_eq!(corpus_statistics(&hyps, &refs, false, 2), Some(vec![2, 2, 0, 0, 2, 1]));
}

#[test]
fn empty_corpus_is_all_zero() {
    let s = corpus_statistics(&[], &[], false, 4);
    assert_eq!(s, Some(vec![0; 10]));
}

#[test]
fn sentence_statistics_match_the_one_segment_corpus() {
    let refs = strings(&["the cat sat on the mat", "the cat"]);
    let streams: Vec<Vec<String>> = refs.iter().map(|r| vec![r.clone()]).collect();
    let corpus = corpus_statistics(&strings(&["the cat sat"]), &streams, false, 4);
    let sentence = sentence_statistics("the cat sat", &refs, false, 4);
    assert_eq!(sentence, corpus);
    assert_eq!(sentence, Some(vec![3, 2, 3, 2, 1, 0, 3, 2, 1, 0]));
}

#[test]
fn tokenized_output_is_normalized() {
    let out = sacrebleu_rs::tokenize_13a("  spaced\t\tout ,text . \n end  ");
    assert_eq!(out, "spaced out , text . end");
    assert!(!out.starts_with(' ') && !out.ends_with(' ') && !out.contains("  "));
}

#[test]
fn segment_statistics_layout() {
    let info = extract_reference_info(&strings(&["a b", "a a"]), 2);
    let s = segment_statistics("a b a b", &info, 2);
    assert_eq!(s, vec![4, 2, 3, 1, 4, 3]);
}

#[test]
fn corpus_statistics_do_not_depend_on_segment_order() {
    let hyps = strings(&["the cat sat", "a dog ran", "the the the"]);
    let refs = vec![
        strings(&["the cat sat on the mat", "a dog ran", "the cat"]),
        strings(&["the cat", "the dog ran away", "the"]),
    ];
    let perm = [2usize, 0, 1];
    let hyps2: Vec<String> = perm.iter().map(|&i| hyps[i].clone()).collect();
    let refs2: Vec<Vec<String>> = refs.iter().map(|s| perm.iter().map(|&i| s[i].clone()).collect()).collect();
    assert_eq!(corpus_statistics(&hyps2, &refs2, false, 4), corpus_statistics(&hyps, &refs, false, 4));
}

#[test]
fn a_repeated_reference_stream_changes_nothing() {
    let hyps = strings(&["the cat sat", "a dog ran"]);
    let refs = vec![
        strings(&["the cat sat on the mat", "a dog ran"]),
        strings(&["the cat", "the dog ran away"]),
    ];
    let mut refs2 = refs.clone();
    refs2.push(refs[0].clone());
    assert_eq!(corpus_statistics(&hyps, &refs2, false, 4), corpus_statistics(&hyps, &refs, false, 4));
}
