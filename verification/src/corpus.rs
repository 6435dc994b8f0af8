//! Corpus-level and sentence-level BLEU statistics: each segment is preprocessed
//! and tokenized, counted against its references, and the counts are summed.

use vstd::prelude::*;

use crate::ngrams::{extract_reference_info, max_ngram_counts, words_of_lines, word_counts};
use crate::regex_rules::{check_rules, rules_compile};
use crate::stats::{closest_len, ints, segment_statistics, segment_stats};
use crate::text::words;
use crate::tokenizer::{preprocess, preprocess_spec};

verus! {

/// The tokens of the preprocessed references of segment `i`, one per reference stream.
pub open spec fn segment_refs(refs: Seq<Vec<String>>, i: int, lowercase: bool) -> Seq<Seq<Seq<char>>> {
    Seq::new(refs.len(), |r: int| words(preprocess_spec(refs[r]@[i]@, lowercase)))
}

/// The token counts of the preprocessed references of segment `i`.
pub open spec fn segment_ref_lens(refs: Seq<Vec<String>>, i: int, lowercase: bool) -> Seq<usize> {
    Seq::new(refs.len(), |r: int| words(preprocess_spec(refs[r]@[i]@, lowercase)).len() as usize)
}

/// The statistics of segment `i` of a corpus.
pub open spec fn corpus_segment_stats(
    hyps: Seq<String>,
    refs: Seq<Vec<String>>,
    i: int,
    lowercase: bool,
    max_order: nat,
) -> Seq<int> {
    segment_stats(
        words(preprocess_spec(hyps[i]@, lowercase)),
        max_ngram_counts(segment_refs(refs, i, lowercase), max_order),
        segment_ref_lens(refs, i, lowercase),
        max_order,
    )
}

/// Entry-wise sum of two statistics vectors.
pub open spec fn add_stats(a: Seq<int>, b: Seq<int>) -> Seq<int> {
    Seq::new(a.len(), |j: int| a[j] + b[j])
}

/// The sum of the statistics of the first `k` segments.
pub open spec fn corpus_sums(
    hyps: Seq<String>,
    refs: Seq<Vec<String>>,
    lowercase: bool,
    max_order: nat,
    k: int,
) -> Seq<int>
    decreases k,
{
    if k <= 0 {
        Seq::new(2 + 2 * max_order, |j: int| 0)
    } else {
        add_stats(
            corpus_sums(hyps, refs, lowercase, max_order, k - 1),
            corpus_segment_stats(hyps, refs, k - 1, lowercase, max_order),
        )
    }
}

/// The corpus statistics `[sys_len, ref_len, correct_1..correct_m, total_1..total_m]`.
pub open spec fn corpus_stats(hyps: Seq<String>, refs: Seq<Vec<String>>, lowercase: bool, max_order: nat) -> Seq<int> {
    corpus_sums(hyps, refs, lowercase, max_order, hyps.len() as int)
}

/// Every entry fits in an `i64`.
pub open spec fn fits_i64(v: Seq<int>) -> bool {
    forall|j: int| 0 <= j < v.len() ==> #[trigger] v[j] <= i64::MAX
}

/// The integers held by a vector of `i64`.
pub open spec fn ints64(v: Seq<i64>) -> Seq<int> {
    Seq::new(v.len(), |i: int| v[i] as int)
}

/// Segment statistics have `2 + 2 * max_order` entries, none negative.
pub(crate) proof fn lemma_segment_stats_shape(
    hyps: Seq<String>,
    refs: Seq<Vec<String>>,
    i: int,
    lowercase: bool,
    max_order: nat,
)
    ensures
        corpus_segment_stats(hyps, refs, i, lowercase, max_order).len() == 2 + 2 * max_order,
        forall|j: int|
            0 <= j < 2 + 2 * max_order ==> #[trigger] corpus_segment_stats(hyps, refs, i, lowercase, max_order)[j]
                >= 0,
{
    let s = corpus_segment_stats(hyps, refs, i, lowercase, max_order);
    let t = words(preprocess_spec(hyps[i]@, lowercase));
    let lens = segment_ref_lens(refs, i, lowercase);
    let rm = max_ngram_counts(segment_refs(refs, i, lowercase), max_order);
    let a: Seq<int> = seq![t.len() as int, closest_len(t.len() as int, lens)];
    let b = Seq::new(max_order, |k: int| crate::stats::clipped_matches(t, rm, k + 1) as int);
    let c = Seq::new(max_order, |k: int| crate::stats::ngram_total(t.len() as int, k + 1));
    assert(s == a + b + c);
    assert forall|j: int| 0 <= j < 2 + 2 * max_order implies #[trigger] s[j] >= 0 by {
        if j < 2 {
            assert(s[j] == a[j]);
        } else if j < 2 + max_order {
            assert(s[j] == b[j - 2]);
        } else {
            assert(s[j] == c[j - 2 - max_order]);
        }
    }
}

/// Partial sums have `2 + 2 * max_order` entries, none negative, and never decrease.
pub(crate) proof fn lemma_sums_monotone(
    hyps: Seq<String>,
    refs: Seq<Vec<String>>,
    lowercase: bool,
    max_order: nat,
    k1: int,
    k2: int,
)
    requires
        0 <= k1 <= k2,
    ensures
        corpus_sums(hyps, refs, lowercase, max_order, k2).len() == 2 + 2 * max_order,
        forall|j: int|
            0 <= j < 2 + 2 * max_order ==> 0 <= #[trigger] corpus_sums(hyps, refs, lowercase, max_order, k1)[j]
                <= corpus_sums(hyps, refs, lowercase, max_order, k2)[j],
    decreases k2,
{
    if k2 == 0 {
    } else if k1 == k2 {
        lemma_sums_monotone(hyps, refs, lowercase, max_order, k1 - 1, k2 - 1);
        lemma_segment_stats_shape(hyps, refs, k2 - 1, lowercase, max_order);
        let prev = corpus_sums(hyps, refs, lowercase, max_order, k2 - 1);
        let seg = corpus_segment_stats(hyps, refs, k2 - 1, lowercase, max_order);
        assert forall|j: int| 0 <= j < 2 + 2 * max_order implies 0 <= #[trigger] corpus_sums(hyps, refs, lowercase, max_order, k1)[j] by {
            assert(prev[j] >= 0);
            assert(seg[j] >= 0);
        }
    } else {
        lemma_sums_monotone(hyps, refs, lowercase, max_order, k1, k2 - 1);
        lemma_segment_stats_shape(hyps, refs, k2 - 1, lowercase, max_order);
        let prev = corpus_sums(hyps, refs, lowercase, max_order, k2 - 1);
        let seg = corpus_segment_stats(hyps, refs, k2 - 1, lowercase, max_order);
        assert forall|j: int| 0 <= j < 2 + 2 * max_order implies corpus_sums(hyps, refs, lowercase, max_order, k1)[j]
            <= #[trigger] corpus_sums(hyps, refs, lowercase, max_order, k2)[j] by {
            assert(seg[j] >= 0);
        }
    }
}

/// Corpus-level BLEU statistics: `refs[r][i]` is the r-th reference of the i-th
/// hypothesis. Each sentence is preprocessed (lowercased when asked, trailing
/// whitespace removed, `13a`-tokenized) and the segment statistics are summed.
/// `None` when a tokenizer pattern does not compile or a sum exceeds `i64::MAX`.
pub fn corpus_statistics(hyps: &[String], refs: &[Vec<String>], lowercase: bool, max_order: usize) -> (res: Option<Vec<i64>>)
    requires
        forall|r: int| 0 <= r < refs@.len() ==> #[trigger] refs@[r]@.len() >= hyps@.len(),
        max_order <= (usize::MAX - 2) / 2,
    ensures
        res is Some <==> rules_compile() && fits_i64(corpus_stats(hyps@, refs@, lowercase, max_order as nat)),
        res matches Some(v) ==> ints64(v@) == corpus_stats(hyps@, refs@, lowercase, max_order as nat),
{
    if !check_rules() {
        return None;
    }
    let width = 2 + 2 * max_order;
    let mut agg: Vec<i64> = Vec::new();
    while agg.len() < width
        invariant
            agg@.len() <= width,
            width == 2 + 2 * max_order,
            forall|j: int| 0 <= j < agg@.len() ==> agg@[j] == 0,
        decreases width - agg@.len(),
    {
        agg.push(0);
    }
    assert(ints64(agg@) =~= corpus_sums(hyps@, refs@, lowercase, (max_order as nat), 0));
    let mut i: usize = 0;
    while i < hyps.len()
        invariant
            i <= hyps@.len(),
            rules_compile(),
            width == 2 + 2 * max_order,
            max_order <= (usize::MAX - 2) / 2,
            forall|r: int| 0 <= r < refs@.len() ==> #[trigger] refs@[r]@.len() >= hyps@.len(),
            ints64(agg@) == corpus_sums(hyps@, refs@, lowercase, (max_order as nat), i as int),
        decreases hyps@.len() - i,
    {
        let mut refs_for_seg: Vec<String> = Vec::new();
        let mut r: usize = 0;
        while r < refs.len()
            invariant
                r <= refs@.len(),
                i < hyps@.len(),
                rules_compile(),
                forall|q: int| 0 <= q < refs@.len() ==> #[trigger] refs@[q]@.len() >= hyps@.len(),
                refs_for_seg@.len() == r,
                forall|q: int| 0 <= q < r ==> #[trigger] refs_for_seg@[q]@ == preprocess_spec(refs@[q]@[i as int]@, lowercase),
            decreases refs@.len() - r,
        {
            assert(refs@[r as int]@.len() >= hyps@.len());
            let p = preprocess(refs[r][i].as_str(), lowercase);
            refs_for_seg.push(p);
            r = r + 1;
        }
        let refinfo = extract_reference_info(&refs_for_seg, max_order);
        let hyp_tok = preprocess(hyps[i].as_str(), lowercase);
        let stats = segment_statistics(hyp_tok.as_str(), &refinfo, max_order);
        proof {
            assert(refinfo.ngram_view() == max_ngram_counts(words_of_lines(refs_for_seg@), max_order as nat));
            let wl = words_of_lines(refs_for_seg@);
            let sr = segment_refs(refs@, i as int, lowercase);
            assert(wl =~= sr);
            assert(max_ngram_counts(wl, (max_order as nat)) == max_ngram_counts(sr, (max_order as nat)));
            assert(word_counts(refs_for_seg@) =~= segment_ref_lens(refs@, i as int, lowercase));
            assert(hyp_tok@ == preprocess_spec(hyps@[i as int]@, lowercase));
            assert(refinfo.ngram_view() == max_ngram_counts(segment_refs(refs@, i as int, lowercase), (max_order as nat)));
            assert(refinfo.lens_view() == segment_ref_lens(refs@, i as int, lowercase));
            assert(ints(stats@) == corpus_segment_stats(hyps@, refs@, i as int, lowercase, (max_order as nat)));
            lemma_segment_stats_shape(hyps@, refs@, i as int, lowercase, (max_order as nat));
            lemma_sums_monotone(hyps@, refs@, lowercase, (max_order as nat), i as int, i as int);
            lemma_sums_monotone(hyps@, refs@, lowercase, (max_order as nat), i + 1, hyps@.len() as int);
        }
        let ghost seg = corpus_segment_stats(hyps@, refs@, i as int, lowercase, (max_order as nat));
        let ghost prev = corpus_sums(hyps@, refs@, lowercase, (max_order as nat), i as int);
        let ghost next = corpus_sums(hyps@, refs@, lowercase, (max_order as nat), i + 1);
        let ghost full = corpus_stats(hyps@, refs@, lowercase, (max_order as nat));
        assert(next == add_stats(prev, seg));
        let mut j: usize = 0;
        while j < width
            invariant
                j <= width,
                width == 2 + 2 * max_order,
                agg@.len() == width,
                stats@.len() == width,
                ints(stats@) == seg,
                prev.len() == width,
                next == add_stats(prev, seg),
                full.len() == width,
                forall|k: int| 0 <= k < width ==> 0 <= #[trigger] prev[k] && prev[k] <= next[k] <= full[k],
                forall|k: int| 0 <= k < j ==> #[trigger] agg@[k] as int == next[k],
                forall|k: int| j <= k < width ==> #[trigger] agg@[k] as int == prev[k],
                full == corpus_stats(hyps@, refs@, lowercase, (max_order as nat)),
            decreases width - j,
        {
            let s = stats[j];
            assert(seg[j as int] == s as int);
            let wide = s as u64;
            assert(wide as int == s as int);
            if wide > (i64::MAX as u64) {
                assert(next[j as int] == prev[j as int] + seg[j as int]);
                assert(full[j as int] > i64::MAX);
                return None;
            }
            let a = agg[j];
            match a.checked_add(wide as i64) {
                Some(v) => {
                    agg.set(j, v);
                },
                None => {
                    assert(full[j as int] > i64::MAX);
                    return None;
                },
            }
            j = j + 1;
        }
        assert(ints64(agg@) =~= next);
        i = i + 1;
    }
    Some(agg)
}

/// The statistics of one hypothesis against its references.
pub open spec fn sentence_stats(hyp: Seq<char>, refs: Seq<String>, lowercase: bool, max_order: nat) -> Seq<int> {
    segment_stats(
        words(preprocess_spec(hyp, lowercase)),
        max_ngram_counts(
            Seq::new(refs.len(), |r: int| words(preprocess_spec(refs[r]@, lowercase))),
            max_order,
        ),
        Seq::new(refs.len(), |r: int| words(preprocess_spec(refs[r]@, lowercase)).len() as usize),
        max_order,
    )
}

/// The statistics of a sentence are those of the corpus made of that one sentence,
/// each reference forming a stream of its own.
pub proof fn lemma_sentence_is_one_segment_corpus(
    hyps: Seq<String>,
    streams: Seq<Vec<String>>,
    hyp: Seq<char>,
    refs: Seq<String>,
    lowercase: bool,
    max_order: nat,
)
    requires
        hyps.len() == 1,
        hyps[0]@ == hyp,
        streams.len() == refs.len(),
        forall|q: int| 0 <= q < refs.len() ==> (#[trigger] streams[q])@.len() == 1 && streams[q]@[0]@ == refs[q]@,
    ensures
        corpus_stats(hyps, streams, lowercase, max_order) == sentence_stats(hyp, refs, lowercase, max_order),
{
    let m = max_order;
    lemma_segment_stats_shape(hyps, streams, 0, lowercase, m);
    assert(segment_refs(streams, 0, lowercase) =~= Seq::new(
        refs.len(),
        |q: int| words(preprocess_spec(refs[q]@, lowercase)),
    ));
    assert(segment_ref_lens(streams, 0, lowercase) =~= Seq::new(
        refs.len(),
        |q: int| words(preprocess_spec(refs[q]@, lowercase)).len() as usize,
    ));
    let seg = corpus_segment_stats(hyps, streams, 0, lowercase, m);
    assert(seg == sentence_stats(hyp, refs, lowercase, m));
    let zero = corpus_sums(hyps, streams, lowercase, m, 0);
    assert(corpus_stats(hyps, streams, lowercase, m) == add_stats(zero, seg));
    assert(add_stats(zero, seg) =~= seg);
}

/// Sentence-level BLEU statistics of `hyp` against one or more references: the
/// corpus statistics of the one-segment corpus.
pub fn sentence_statistics(hyp: &str, refs: &[String], lowercase: bool, max_order: usize) -> (res: Option<Vec<i64>>)
    requires
        max_order <= (usize::MAX - 2) / 2,
    ensures
        res is Some <==> rules_compile() && fits_i64(sentence_stats(hyp@, refs@, lowercase, max_order as nat)),
        res matches Some(v) ==> ints64(v@) == sentence_stats(hyp@, refs@, lowercase, max_order as nat),
{
    let mut hyps: Vec<String> = Vec::new();
    hyps.push(hyp.to_owned());
    let mut streams: Vec<Vec<String>> = Vec::new();
    let mut r: usize = 0;
    while r < refs.len()
        invariant
            r <= refs@.len(),
            streams@.len() == r,
            forall|q: int| 0 <= q < r ==> (#[trigger] streams@[q])@.len() == 1 && streams@[q]@[0]@ == refs@[q]@,
        decreases refs@.len() - r,
    {
        let mut one: Vec<String> = Vec::new();
        one.push(refs[r].clone());
        streams.push(one);
        r = r + 1;
    }
    let res = corpus_statistics(hyps.as_slice(), streams.as_slice(), lowercase, max_order);
    proof {
        lemma_sentence_is_one_segment_corpus(hyps@, streams@, hyp@, refs@, lowercase, max_order as nat);
    }
    res
}

} // verus!
