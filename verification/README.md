# sacrebleu_rs

The `13a` tokenizer and the integer sufficient statistics of BLEU (hypothesis and
reference lengths, clipped n-gram matches, n-gram totals), verified with Verus.

- `src/text.rs`: whitespace, word splitting and joining, literal replacement, trimming.
- `src/regex_rules.rs`: the four regex rewrites of `13a`, run by the `regex` crate.
- `src/tokenizer.rs`: `tokenize_regexp`, `tokenize_13a`, sentence preprocessing.
- `src/ngrams.rs`: n-gram counts of a line and the per-n-gram maximum over references.
- `src/stats.rs`: closest reference length and the statistics of one segment.
- `src/corpus.rs`: corpus-level and sentence-level statistics.
- `src/scoring.rs`: add-k smoothing of the counts and the orders that enter the score.
- `src/laws.rs`: properties of the statistics proved for every input.
- `app/lib.rs`: the floating-point score (brevity penalty, smoothing, geometric mean).
