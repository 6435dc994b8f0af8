//! Reproducible BLEU: the `13a` tokenizer, the integer sufficient statistics of the
//! metric and the integer steps of its scoring, with their contracts proved by Verus.

pub mod text;
pub mod regex_rules;
pub mod tokenizer;
pub mod tokenizer_laws;
pub mod ngrams;
pub mod stats;
pub mod corpus;
pub mod laws;
pub mod scoring;

pub use corpus::{corpus_statistics, sentence_statistics};
pub use ngrams::{extract_all_word_ngrams, extract_reference_info, NgramCounts, RefInfo};
pub use stats::{closest_ref_len, segment_statistics, MAX_NGRAM_ORDER};
pub use tokenizer::{preprocess, tokenize_13a, tokenize_regexp, try_tokenize_13a};
