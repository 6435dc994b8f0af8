//! Properties of the statistics that hold for every input.

use vstd::prelude::*;

use crate::ngrams::{
    count_of, lemma_occurrences_tail, max_ngram_counts, max_occurrences, ngram_at, occurrences,
    occurrences_before,
};
use crate::corpus::{corpus_segment_stats, corpus_stats, corpus_sums, segment_ref_lens, segment_refs};
use crate::stats::{
    clipped_matches, closest_len, is_closest_len, lemma_closest_unique, lemma_matched_bound, len_distance,
    matched_before,
    ngram_total,
};
use crate::text::words;
use crate::tokenizer::preprocess_spec;

verus! {

/// The clipped matches of an order never exceed the number of n-grams of that order.
pub proof fn lemma_clipped_within_total(t: Seq<Seq<char>>, ref_max: Map<Seq<Seq<char>>, nat>, n: int)
    ensures
        clipped_matches(t, ref_max, n) <= ngram_total(t.len() as int, n),
{
    lemma_matched_bound(t, ref_max, n, ngram_total(t.len() as int, n));
}

/// Occurrence counts never decrease as positions are added.
proof fn lemma_occurrences_monotone(t: Seq<Seq<char>>, g: Seq<Seq<char>>, a: int, b: int)
    requires
        0 <= a <= b,
    ensures
        occurrences_before(t, g, a) <= occurrences_before(t, g, b),
    decreases b - a,
{
    if a < b {
        lemma_occurrences_monotone(t, g, a, b - 1);
    }
}

/// The n-gram at position `i` occurs fewer times before `i` than in all of `t`.
proof fn lemma_occurrence_counted(t: Seq<Seq<char>>, i: int, n: int)
    requires
        1 <= n,
        0 <= i,
        i + n <= t.len(),
    ensures
        occurrences_before(t, ngram_at(t, i, n), i) < occurrences(t, ngram_at(t, i, n)),
{
    let g = ngram_at(t, i, n);
    assert(occurrences_before(t, g, i + 1) == occurrences_before(t, g, i) + 1);
    lemma_occurrences_monotone(t, g, i + 1, t.len() as int);
}

proof fn lemma_identical_matched(t: Seq<Seq<char>>, max_order: nat, n: int, k: int)
    requires
        1 <= n <= max_order,
        0 <= k <= ngram_total(t.len() as int, n),
    ensures
        matched_before(t, max_ngram_counts(seq![t], max_order), n, k) == k,
    decreases k,
{
    if k > 0 {
        lemma_identical_matched(t, max_order, n, k - 1);
        let g = ngram_at(t, k - 1, n);
        lemma_occurrence_counted(t, k - 1, n);
        assert(seq![t].drop_last() =~= Seq::<Seq<Seq<char>>>::empty());
        assert(max_occurrences(Seq::<Seq<Seq<char>>>::empty(), g) == 0);
        assert(seq![t].last() == t);
        assert(max_occurrences(seq![t], g) == occurrences(t, g));
        assert(count_of(max_ngram_counts(seq![t], max_order), g) == occurrences(t, g));
    }
}

/// A hypothesis identical to its single reference matches every one of its n-grams
/// (`1 <= n <= max_order`), and its closest reference length is its own length.
pub proof fn lemma_identical_reference(t: Seq<Seq<char>>, max_order: nat, n: int)
    requires
        1 <= n <= max_order,
        t.len() <= usize::MAX,
    ensures
        clipped_matches(t, max_ngram_counts(seq![t], max_order), n) == ngram_total(t.len() as int, n),
        closest_len(t.len() as int, seq![t.len() as usize]) == t.len(),
{
    lemma_identical_matched(t, max_order, n, ngram_total(t.len() as int, n));
    let lens = seq![t.len() as usize];
    assert(lens[0] == t.len() as usize);
    assert(is_closest_len(t.len() as int, lens, t.len() as usize));
    let c = choose|r: usize| is_closest_len(t.len() as int, lens, r);
    lemma_closest_unique(t.len() as int, lens, c, t.len() as usize);
}

/// An n-gram that occurs in `r` starts with a token of `r`.
proof fn lemma_occurrence_has_first_token(r: Seq<Seq<char>>, g: Seq<Seq<char>>, k: int)
    requires
        g.len() >= 1,
        occurrences_before(r, g, k) > 0,
    ensures
        r.contains(g[0]),
    decreases k,
{
    if k > 0 {
        if occurrences_before(r, g, k - 1) > 0 {
            lemma_occurrence_has_first_token(r, g, k - 1);
        } else {
            assert(r.subrange(k - 1, k - 1 + g.len()) == g);
            assert(r.subrange(k - 1, k - 1 + g.len())[0] == r[k - 1]);
        }
    }
}

/// An n-gram whose first token occurs in none of `rs` occurs in none of them.
proof fn lemma_absent_first_token(rs: Seq<Seq<Seq<char>>>, g: Seq<Seq<char>>)
    requires
        g.len() >= 1,
        forall|r: int| 0 <= r < rs.len() ==> !(#[trigger] rs[r]).contains(g[0]),
    ensures
        max_occurrences(rs, g) == 0,
    decreases rs.len(),
{
    if rs.len() > 0 {
        let p = rs.drop_last();
        assert forall|r: int| 0 <= r < p.len() implies !(#[trigger] p[r]).contains(g[0]) by {
            assert(p[r] == rs[r]);
        }
        lemma_absent_first_token(p, g);
        let last = rs.last();
        assert(!last.contains(g[0]));
        if occurrences(last, g) > 0 {
            lemma_occurrence_has_first_token(last, g, last.len() as int);
        }
    }
}

proof fn lemma_disjoint_matched(t: Seq<Seq<char>>, rs: Seq<Seq<Seq<char>>>, max_order: nat, n: int, k: int)
    requires
        1 <= n,
        0 <= k <= ngram_total(t.len() as int, n),
        forall|i: int, r: int| 0 <= i < t.len() && 0 <= r < rs.len() ==> !(#[trigger] rs[r]).contains(#[trigger] t[i]),
    ensures
        matched_before(t, max_ngram_counts(rs, max_order), n, k) == 0,
    decreases k,
{
    if k > 0 {
        lemma_disjoint_matched(t, rs, max_order, n, k - 1);
        let g = ngram_at(t, k - 1, n);
        assert(g[0] == t[k - 1]);
        assert forall|r: int| 0 <= r < rs.len() implies !(#[trigger] rs[r]).contains(g[0]) by {
            assert(!rs[r].contains(t[k - 1]));
        }
        lemma_absent_first_token(rs, g);
    }
}

/// When no token of the hypothesis occurs in any reference, no n-gram matches.
pub proof fn lemma_disjoint_vocabulary(t: Seq<Seq<char>>, rs: Seq<Seq<Seq<char>>>, max_order: nat, n: int)
    requires
        1 <= n,
        forall|i: int, r: int| 0 <= i < t.len() && 0 <= r < rs.len() ==> !(#[trigger] rs[r]).contains(#[trigger] t[i]),
    ensures
        clipped_matches(t, max_ngram_counts(rs, max_order), n) == 0,
{
    lemma_disjoint_matched(t, rs, max_order, n, ngram_total(t.len() as int, n));
}

/// The smaller of two counts.
pub open spec fn min_nat(a: nat, b: nat) -> nat {
    if a <= b {
        a
    } else {
        b
    }
}

/// Whether position `i` is the first occurrence of its n-gram of order `n`.
pub open spec fn is_first_occurrence(t: Seq<Seq<char>>, i: int, n: int) -> bool {
    occurrences_before(t, ngram_at(t, i, n), i) == 0
}

/// Over the positions below `k` that are first occurrences of their n-gram (so over
/// distinct n-grams), the sum of the smaller of the n-gram's count among the
/// positions below `bound` and its count in `ref_max`.
pub open spec fn distinct_min_sum(
    t: Seq<Seq<char>>,
    ref_max: Map<Seq<Seq<char>>, nat>,
    n: int,
    k: int,
    bound: int,
) -> nat
    decreases k,
{
    if k <= 0 {
        0
    } else {
        distinct_min_sum(t, ref_max, n, k - 1, bound) + (if is_first_occurrence(t, k - 1, n) {
            min_nat(
                occurrences_before(t, ngram_at(t, k - 1, n), bound),
                count_of(ref_max, ngram_at(t, k - 1, n)),
            )
        } else {
            0nat
        })
    }
}

/// The textbook clipped count: over each distinct n-gram of order `n` of the
/// hypothesis, the smaller of its count in the hypothesis and its count in `ref_max`.
pub open spec fn distinct_clipped_count(t: Seq<Seq<char>>, ref_max: Map<Seq<Seq<char>>, nat>, n: int) -> nat {
    distinct_min_sum(t, ref_max, n, ngram_total(t.len() as int, n), t.len() as int)
}

/// An n-gram that occurs at `j` has occurred before any later position.
proof fn lemma_occurred_before(t: Seq<Seq<char>>, j: int, k: int, n: int)
    requires
        1 <= n,
        0 <= j < k,
        j + n <= t.len(),
    ensures
        occurrences_before(t, ngram_at(t, j, n), k) > 0,
{
    let g = ngram_at(t, j, n);
    assert(g.len() == n);
    assert(t.subrange(j, j + g.len()) == g);
    assert(occurrences_before(t, g, j + 1) == occurrences_before(t, g, j) + 1);
    lemma_occurrences_monotone(t, g, j + 1, k);
}

/// The first occurrence of the n-gram at `i`, which lies at or before `i`.
proof fn lemma_first_occurrence_exists(t: Seq<Seq<char>>, i: int, n: int) -> (j: int)
    requires
        1 <= n,
        0 <= i,
        i + n <= t.len(),
    ensures
        0 <= j <= i,
        is_first_occurrence(t, j, n),
        ngram_at(t, j, n) == ngram_at(t, i, n),
    decreases i,
{
    if is_first_occurrence(t, i, n) {
        i
    } else {
        let g = ngram_at(t, i, n);
        assert(g.len() == n);
        let p = lemma_earlier_occurrence(t, g, i);
        assert(ngram_at(t, p, n) == g);
        lemma_first_occurrence_exists(t, p, n)
    }
}

/// A positive count below `k` comes from an occurrence below `k`.
proof fn lemma_earlier_occurrence(t: Seq<Seq<char>>, g: Seq<Seq<char>>, k: int) -> (p: int)
    requires
        occurrences_before(t, g, k) > 0,
    ensures
        0 <= p < k,
        p + g.len() <= t.len(),
        t.subrange(p, p + g.len()) == g,
    decreases k,
{
    if occurrences_before(t, g, k - 1) > 0 {
        lemma_earlier_occurrence(t, g, k - 1)
    } else {
        k - 1
    }
}

/// Counting one more position (`bound` to `bound + 1`) changes the distinct sum only
/// in the term of the n-gram at `bound`, if that n-gram has a first occurrence below `k`.
proof fn lemma_distinct_sum_step(t: Seq<Seq<char>>, ref_max: Map<Seq<Seq<char>>, nat>, n: int, k: int, bound: int)
    requires
        1 <= n,
        0 <= k <= bound,
        bound + n <= t.len(),
    ensures
        distinct_min_sum(t, ref_max, n, k, bound + 1) == distinct_min_sum(t, ref_max, n, k, bound) + (if exists|j: int|
            0 <= j < k && is_first_occurrence(t, j, n) && ngram_at(t, j, n) == ngram_at(t, bound, n) {
            if occurrences_before(t, ngram_at(t, bound, n), bound) < count_of(ref_max, ngram_at(t, bound, n)) {
                1nat
            } else {
                0nat
            }
        } else {
            0nat
        }),
    decreases k,
{
    let g = ngram_at(t, bound, n);
    if k > 0 {
        lemma_distinct_sum_step(t, ref_max, n, k - 1, bound);
        let gk = ngram_at(t, k - 1, n);
        assert(occurrences_before(t, gk, bound + 1) == occurrences_before(t, gk, bound) + (if gk == g { 1nat } else { 0nat })) by {
            assert(t.subrange(bound, bound + gk.len()) == g);
        }
        if is_first_occurrence(t, k - 1, n) && gk == g {
            // no earlier first occurrence of the same n-gram
            if exists|j: int| 0 <= j < k - 1 && is_first_occurrence(t, j, n) && ngram_at(t, j, n) == g {
                let j = choose|j: int| 0 <= j < k - 1 && is_first_occurrence(t, j, n) && ngram_at(t, j, n) == g;
                lemma_occurred_before(t, j, k - 1, n);
                assert(false);
            }
            assert(exists|j: int| 0 <= j < k && is_first_occurrence(t, j, n) && ngram_at(t, j, n) == g) by {
                assert(is_first_occurrence(t, k - 1, n) && ngram_at(t, k - 1, n) == g);
            }
        } else {
            if exists|j: int| 0 <= j < k && is_first_occurrence(t, j, n) && ngram_at(t, j, n) == g {
                let j = choose|j: int| 0 <= j < k && is_first_occurrence(t, j, n) && ngram_at(t, j, n) == g;
                assert(j != k - 1);
                assert(exists|j2: int| 0 <= j2 < k - 1 && is_first_occurrence(t, j2, n) && ngram_at(t, j2, n) == g);
            }
            if exists|j: int| 0 <= j < k - 1 && is_first_occurrence(t, j, n) && ngram_at(t, j, n) == g {
                let j = choose|j: int| 0 <= j < k - 1 && is_first_occurrence(t, j, n) && ngram_at(t, j, n) == g;
                assert(exists|j2: int| 0 <= j2 < k && is_first_occurrence(t, j2, n) && ngram_at(t, j2, n) == g);
            }
        }
    }
}

/// Position by position, the matched count equals the distinct sum taken at the same point.
proof fn lemma_matched_is_distinct_sum(t: Seq<Seq<char>>, ref_max: Map<Seq<Seq<char>>, nat>, n: int, k: int)
    requires
        1 <= n,
        0 <= k,
        k == 0 || k + n - 1 <= t.len(),
    ensures
        matched_before(t, ref_max, n, k) == distinct_min_sum(t, ref_max, n, k, k),
    decreases k,
{
    if k > 0 {
        let b = k - 1;
        lemma_matched_is_distinct_sum(t, ref_max, n, b);
        lemma_distinct_sum_step(t, ref_max, n, b, b);
        let g = ngram_at(t, b, n);
        assert(occurrences_before(t, g, k) == occurrences_before(t, g, b) + 1) by {
            assert(t.subrange(b, b + g.len()) == g);
        }
        if is_first_occurrence(t, b, n) {
            if exists|j: int| 0 <= j < b && is_first_occurrence(t, j, n) && ngram_at(t, j, n) == g {
                let j = choose|j: int| 0 <= j < b && is_first_occurrence(t, j, n) && ngram_at(t, j, n) == g;
                lemma_occurred_before(t, j, b, n);
                assert(false);
            }
        } else {
            let i = lemma_earlier_occurrence(t, g, b);
            assert(ngram_at(t, i, n) == g);
            let j = lemma_first_occurrence_exists(t, i, n);
            assert(0 <= j < b && is_first_occurrence(t, j, n) && ngram_at(t, j, n) == g);
        }
    }
}

/// Counting past the last starting position of order `n` changes no term.
proof fn lemma_distinct_sum_tail(t: Seq<Seq<char>>, ref_max: Map<Seq<Seq<char>>, nat>, n: int, k: int)
    requires
        1 <= n,
        0 <= k <= ngram_total(t.len() as int, n),
    ensures
        distinct_min_sum(t, ref_max, n, k, ngram_total(t.len() as int, n)) == distinct_min_sum(
            t,
            ref_max,
            n,
            k,
            t.len() as int,
        ),
    decreases k,
{
    if k > 0 {
        lemma_distinct_sum_tail(t, ref_max, n, k - 1);
        let g = ngram_at(t, k - 1, n);
        lemma_occurrences_tail(t, g, ngram_total(t.len() as int, n));
    }
}

/// The clipped matches of order `n` are the textbook clipped count: over each
/// distinct n-gram of the hypothesis, the smaller of its count in the hypothesis
/// and its count in `ref_max`.
pub proof fn lemma_clipped_is_distinct_min(t: Seq<Seq<char>>, ref_max: Map<Seq<Seq<char>>, nat>, n: int)
    requires
        1 <= n,
    ensures
        clipped_matches(t, ref_max, n) == distinct_clipped_count(t, ref_max, n),
{
    let total = ngram_total(t.len() as int, n);
    lemma_matched_is_distinct_sum(t, ref_max, n, total);
    lemma_distinct_sum_tail(t, ref_max, n, total);
}

/// Within one segment whose single reference is the hypothesis, the clipped
/// matches of order `k` equal the total of order `k`.
/// Matching against larger reference counts never matches fewer positions.
proof fn lemma_matched_monotone(
    t: Seq<Seq<char>>,
    rm1: Map<Seq<Seq<char>>, nat>,
    rm2: Map<Seq<Seq<char>>, nat>,
    n: int,
    k: int,
)
    requires
        0 <= k,
        forall|g: Seq<Seq<char>>| #[trigger] count_of(rm1, g) <= count_of(rm2, g),
    ensures
        matched_before(t, rm1, n, k) <= matched_before(t, rm2, n, k),
    decreases k,
{
    if k > 0 {
        lemma_matched_monotone(t, rm1, rm2, n, k - 1);
        let g = ngram_at(t, k - 1, n);
        assert(count_of(rm1, g) <= count_of(rm2, g));
    }
}

/// The counts of one reference never exceed the maximum over all references.
proof fn lemma_single_reference_below_max(rs: Seq<Seq<Seq<char>>>, r: int, max_order: nat)
    requires
        0 <= r < rs.len(),
    ensures
        forall|g: Seq<Seq<char>>|
            #[trigger] count_of(max_ngram_counts(seq![rs[r]], max_order), g) <= count_of(
                max_ngram_counts(rs, max_order),
                g,
            ),
{
    assert forall|g: Seq<Seq<char>>|
        #[trigger] count_of(max_ngram_counts(seq![rs[r]], max_order), g) <= count_of(
            max_ngram_counts(rs, max_order),
            g,
        ) by {
        assert(seq![rs[r]].drop_last() =~= Seq::<Seq<Seq<char>>>::empty());
        assert(max_occurrences(Seq::<Seq<Seq<char>>>::empty(), g) == 0);
        assert(seq![rs[r]].last() == rs[r]);
        assert(max_occurrences(seq![rs[r]], g) == occurrences(rs[r], g));
        lemma_max_occurrences_bound(rs, g, r);
    }
}

/// Entry `1 + k` of a segment's statistics is its clipped matches of order `k`,
/// entry `1 + max_order + k` its n-gram total of order `k`.
proof fn lemma_segment_entries(hyps: Seq<String>, refs: Seq<Vec<String>>, i: int, lowercase: bool, max_order: nat, k: int)
    requires
        1 <= k <= max_order,
    ensures
        corpus_segment_stats(hyps, refs, i, lowercase, max_order)[1 + k] == clipped_matches(
            words(preprocess_spec(hyps[i]@, lowercase)),
            max_ngram_counts(segment_refs(refs, i, lowercase), max_order),
            k,
        ),
        corpus_segment_stats(hyps, refs, i, lowercase, max_order)[1 + max_order + k] == ngram_total(
            words(preprocess_spec(hyps[i]@, lowercase)).len() as int,
            k,
        ),
{
    let t = words(preprocess_spec(hyps[i]@, lowercase));
    let s = corpus_segment_stats(hyps, refs, i, lowercase, max_order);
    let rm = max_ngram_counts(segment_refs(refs, i, lowercase), max_order);
    let a: Seq<int> = seq![t.len() as int, closest_len(t.len() as int, segment_ref_lens(refs, i, lowercase))];
    let b = Seq::new(max_order, |q: int| clipped_matches(t, rm, q + 1) as int);
    let c = Seq::new(max_order, |q: int| ngram_total(t.len() as int, q + 1));
    assert(s == a + b + c);
    assert(s[1 + k] == b[k - 1]);
    assert(s[1 + max_order + k] == c[k - 1]);
}

/// Every reference stream takes part in a segment's matches: for each stream `r`,
/// the clipped matches of order `k` of segment `i` are at least those against
/// the `i`-th reference of stream `r` alone, and a stream whose `i`-th reference is
/// the hypothesis makes every n-gram of the segment match.
pub proof fn lemma_every_reference_stream_counts(
    hyps: Seq<String>,
    refs: Seq<Vec<String>>,
    i: int,
    lowercase: bool,
    max_order: nat,
    r: int,
    k: int,
)
    requires
        0 <= r < refs.len(),
        1 <= k <= max_order,
    ensures
        corpus_segment_stats(hyps, refs, i, lowercase, max_order)[1 + k] >= clipped_matches(
            words(preprocess_spec(hyps[i]@, lowercase)),
            max_ngram_counts(seq![words(preprocess_spec(refs[r]@[i]@, lowercase))], max_order),
            k,
        ),
        refs[r]@[i]@ == hyps[i]@ ==> corpus_segment_stats(hyps, refs, i, lowercase, max_order)[1 + k]
            == corpus_segment_stats(hyps, refs, i, lowercase, max_order)[1 + max_order + k],
{
    let t = words(preprocess_spec(hyps[i]@, lowercase));
    let rs = segment_refs(refs, i, lowercase);
    assert(rs[r] == words(preprocess_spec(refs[r]@[i]@, lowercase)));
    lemma_segment_entries(hyps, refs, i, lowercase, max_order, k);
    lemma_single_reference_below_max(rs, r, max_order);
    let total = ngram_total(t.len() as int, k);
    lemma_matched_monotone(t, max_ngram_counts(seq![rs[r]], max_order), max_ngram_counts(rs, max_order), k, total);
    if refs[r]@[i]@ == hyps[i]@ {
        lemma_identical_matched(t, max_order, k, total);
        lemma_matched_bound(t, max_ngram_counts(rs, max_order), k, total);
    }
}

/// The reference length of a segment is, over all reference streams, the length
/// nearest to the hypothesis length, ties broken toward the shorter (0 with no stream).
pub proof fn lemma_segment_ref_len_over_all_streams(
    hyps: Seq<String>,
    refs: Seq<Vec<String>>,
    i: int,
    lowercase: bool,
    max_order: nat,
)
    ensures
        refs.len() == 0 ==> corpus_segment_stats(hyps, refs, i, lowercase, max_order)[1] == 0,
        refs.len() > 0 ==> exists|r: int|
            0 <= r < refs.len() && corpus_segment_stats(hyps, refs, i, lowercase, max_order)[1] == (words(
                preprocess_spec(refs[r]@[i]@, lowercase),
            ).len() as usize) as int,
        forall|r: int|
            0 <= r < refs.len() ==> {
                let s = corpus_segment_stats(hyps, refs, i, lowercase, max_order);
                let len_r = (words(preprocess_spec(#[trigger] refs[r]@[i]@, lowercase)).len() as usize) as int;
                ||| len_distance(s[0], s[1]) < len_distance(s[0], len_r)
                ||| (len_distance(s[0], s[1]) == len_distance(s[0], len_r) && s[1] <= len_r)
            },
{
    let t = words(preprocess_spec(hyps[i]@, lowercase));
    let rm = max_ngram_counts(segment_refs(refs, i, lowercase), max_order);
    let lens = segment_ref_lens(refs, i, lowercase);
    crate::stats::lemma_segment_ref_len_is_closest(t, rm, lens, max_order);
    let s = corpus_segment_stats(hyps, refs, i, lowercase, max_order);
    assert(s == crate::stats::segment_stats(t, rm, lens, max_order));
    assert forall|r: int| 0 <= r < refs.len() implies #[trigger] lens[r] as int == (words(
        preprocess_spec(refs[r]@[i]@, lowercase),
    ).len() as usize) as int by {
    }
    if refs.len() > 0 {
        let q = choose|q: int| 0 <= q < lens.len() && lens[q] as int == s[1];
        assert(lens[q] as int == (words(preprocess_spec(refs[q]@[i]@, lowercase)).len() as usize) as int);
    }
    assert forall|r: int| 0 <= r < refs.len() implies {
        let len_r = (words(preprocess_spec(#[trigger] refs[r]@[i]@, lowercase)).len() as usize) as int;
        ||| len_distance(s[0], s[1]) < len_distance(s[0], len_r)
        ||| (len_distance(s[0], s[1]) == len_distance(s[0], len_r) && s[1] <= len_r)
    } by {
        assert(lens[r] as int == (words(preprocess_spec(refs[r]@[i]@, lowercase)).len() as usize) as int);
    }
}

/// Within one segment whose reference in stream `r` is the hypothesis, the clipped
/// matches of order `k` equal the total of order `k`.
proof fn lemma_identical_segment(
    hyps: Seq<String>,
    refs: Seq<Vec<String>>,
    r: int,
    i: int,
    lowercase: bool,
    max_order: nat,
    k: int,
)
    requires
        0 <= r < refs.len(),
        refs[r]@[i]@ == hyps[i]@,
        1 <= k <= max_order,
    ensures
        corpus_segment_stats(hyps, refs, i, lowercase, max_order)[1 + k] == corpus_segment_stats(
            hyps,
            refs,
            i,
            lowercase,
            max_order,
        )[1 + max_order + k],
{
    lemma_every_reference_stream_counts(hyps, refs, i, lowercase, max_order, r, k);
}

proof fn lemma_identical_sums(hyps: Seq<String>, refs: Seq<Vec<String>>, r: int, lowercase: bool, max_order: nat, k: int, upto: int)
    requires
        0 <= r < refs.len(),
        forall|i: int| 0 <= i < hyps.len() ==> refs[r]@[i]@ == #[trigger] hyps[i]@,
        1 <= k <= max_order,
        0 <= upto <= hyps.len(),
    ensures
        corpus_sums(hyps, refs, lowercase, max_order, upto)[1 + k] == corpus_sums(hyps, refs, lowercase, max_order, upto)[1
            + max_order + k],
    decreases upto,
{
    if upto > 0 {
        lemma_identical_sums(hyps, refs, r, lowercase, max_order, k, upto - 1);
        lemma_identical_segment(hyps, refs, r, upto - 1, lowercase, max_order, k);
        crate::corpus::lemma_sums_monotone(hyps, refs, lowercase, max_order, upto - 1, upto - 1);
        crate::corpus::lemma_segment_stats_shape(hyps, refs, upto - 1, lowercase, max_order);
    }
}

/// A corpus whose single reference stream repeats the hypotheses matches every
/// n-gram: for each order `k` (`1 <= k <= max_order`) the corpus clipped matches
/// equal the corpus n-gram total.
pub proof fn lemma_corpus_identical_references(
    hyps: Seq<String>,
    refs: Seq<Vec<String>>,
    lowercase: bool,
    max_order: nat,
    k: int,
)
    requires
        refs.len() == 1,
        refs[0]@.len() >= hyps.len(),
        forall|i: int| 0 <= i < hyps.len() ==> refs[0]@[i]@ == #[trigger] hyps[i]@,
        1 <= k <= max_order,
    ensures
        corpus_stats(hyps, refs, lowercase, max_order)[1 + k] == corpus_stats(hyps, refs, lowercase, max_order)[1
            + max_order + k],
{
    lemma_identical_sums(hyps, refs, 0, lowercase, max_order, k, hyps.len() as int);
}

/// A corpus in which one reference stream, among any number, repeats the
/// hypotheses matches every n-gram: for each order `k` (`1 <= k <= max_order`)
/// the corpus clipped matches equal the corpus n-gram total.
pub proof fn lemma_corpus_stream_repeats_hypotheses(
    hyps: Seq<String>,
    refs: Seq<Vec<String>>,
    r: int,
    lowercase: bool,
    max_order: nat,
    k: int,
)
    requires
        0 <= r < refs.len(),
        forall|i: int| 0 <= i < hyps.len() ==> refs[r]@[i]@ == #[trigger] hyps[i]@,
        1 <= k <= max_order,
    ensures
        corpus_stats(hyps, refs, lowercase, max_order)[1 + k] == corpus_stats(hyps, refs, lowercase, max_order)[1
            + max_order + k],
{
    lemma_identical_sums(hyps, refs, r, lowercase, max_order, k, hyps.len() as int);
}

/// In segment `i`, no token of the preprocessed hypothesis occurs in any of its
/// preprocessed references.
pub open spec fn segment_vocabularies_disjoint(hyps: Seq<String>, refs: Seq<Vec<String>>, i: int, lowercase: bool) -> bool {
    let t = words(preprocess_spec(hyps[i]@, lowercase));
    let rs = segment_refs(refs, i, lowercase);
    forall|p: int, r: int| 0 <= p < t.len() && 0 <= r < rs.len() ==> !(#[trigger] rs[r]).contains(#[trigger] t[p])
}

proof fn lemma_disjoint_sums(hyps: Seq<String>, refs: Seq<Vec<String>>, lowercase: bool, max_order: nat, k: int, upto: int)
    requires
        forall|i: int| 0 <= i < hyps.len() ==> #[trigger] segment_vocabularies_disjoint(hyps, refs, i, lowercase),
        1 <= k <= max_order,
        0 <= upto <= hyps.len(),
    ensures
        corpus_sums(hyps, refs, lowercase, max_order, upto)[1 + k] == 0,
    decreases upto,
{
    if upto > 0 {
        let i = upto - 1;
        lemma_disjoint_sums(hyps, refs, lowercase, max_order, k, i);
        crate::corpus::lemma_sums_monotone(hyps, refs, lowercase, max_order, i, i);
        crate::corpus::lemma_segment_stats_shape(hyps, refs, i, lowercase, max_order);
        assert(segment_vocabularies_disjoint(hyps, refs, i, lowercase));
        let t = words(preprocess_spec(hyps[i]@, lowercase));
        let rs = segment_refs(refs, i, lowercase);
        lemma_disjoint_vocabulary(t, rs, max_order, k);
        let s = corpus_segment_stats(hyps, refs, i, lowercase, max_order);
        let rm = max_ngram_counts(rs, max_order);
        let a: Seq<int> = seq![t.len() as int, closest_len(t.len() as int, crate::corpus::segment_ref_lens(refs, i, lowercase))];
        let b = Seq::new(max_order, |q: int| clipped_matches(t, rm, q + 1) as int);
        let c = Seq::new(max_order, |q: int| ngram_total(t.len() as int, q + 1));
        assert(s == a + b + c);
        assert(s[1 + k] == b[k - 1]);
    }
}

/// A corpus in which no segment shares a token with its references has no
/// matching n-gram of any order `k` (`1 <= k <= max_order`).
pub proof fn lemma_corpus_disjoint_vocabularies(
    hyps: Seq<String>,
    refs: Seq<Vec<String>>,
    lowercase: bool,
    max_order: nat,
    k: int,
)
    requires
        forall|i: int| 0 <= i < hyps.len() ==> #[trigger] segment_vocabularies_disjoint(hyps, refs, i, lowercase),
        1 <= k <= max_order,
    ensures
        corpus_stats(hyps, refs, lowercase, max_order)[1 + k] == 0,
{
    lemma_disjoint_sums(hyps, refs, lowercase, max_order, k, hyps.len() as int);
}

/// `perm` lists each of `0..n` exactly once.
pub open spec fn is_permutation(perm: Seq<int>, n: int) -> bool {
    &&& perm.len() == n
    &&& forall|i: int| 0 <= i < n ==> 0 <= #[trigger] perm[i] < n
    &&& forall|i: int, j: int| 0 <= i < n && 0 <= j < n && i != j ==> perm[i] != perm[j]
    &&& forall|v: int| 0 <= v < n ==> #[trigger] lists_value(perm, v)
}

/// `v` is one of the entries of `perm`.
pub open spec fn lists_value(perm: Seq<int>, v: int) -> bool {
    exists|i: int| 0 <= i < perm.len() && perm[i] == v
}

/// The sum of `f` over the indices `idx`.
pub open spec fn sum_over(f: spec_fn(int) -> int, idx: Seq<int>) -> int
    decreases idx.len(),
{
    if idx.len() == 0 {
        0
    } else {
        sum_over(f, idx.drop_last()) + f(idx.last())
    }
}

/// The indices `0..n` in order.
pub open spec fn index_range(n: int) -> Seq<int> {
    Seq::new(n as nat, |i: int| i)
}

proof fn lemma_sum_remove(f: spec_fn(int) -> int, idx: Seq<int>, k: int)
    requires
        0 <= k < idx.len(),
    ensures
        sum_over(f, idx) == sum_over(f, idx.remove(k)) + f(idx[k]),
    decreases idx.len(),
{
    if k == idx.len() - 1 {
        assert(idx.remove(k) =~= idx.drop_last());
    } else {
        lemma_sum_remove(f, idx.drop_last(), k);
        let r = idx.remove(k);
        assert(r.drop_last() =~= idx.drop_last().remove(k));
        assert(r.last() == idx.last());
    }
}

/// A sum does not depend on the order of its terms.
proof fn lemma_sum_permutation(f: spec_fn(int) -> int, perm: Seq<int>, n: int)
    requires
        0 <= n,
        is_permutation(perm, n),
    ensures
        sum_over(f, perm) == sum_over(f, index_range(n)),
    decreases n,
{
    if n > 0 {
        assert(lists_value(perm, n - 1));
        let k = choose|i: int| 0 <= i < n && perm[i] == n - 1;
        let p2 = perm.remove(k);
        assert forall|i: int| 0 <= i < n - 1 implies 0 <= #[trigger] p2[i] < n - 1 by {
            let src = if i < k { i } else { i + 1 };
            assert(p2[i] == perm[src]);
            assert(src != k);
        }
        assert forall|i: int, j: int| 0 <= i < n - 1 && 0 <= j < n - 1 && i != j implies p2[i] != p2[j] by {
            let si = if i < k { i } else { i + 1 };
            let sj = if j < k { j } else { j + 1 };
            assert(p2[i] == perm[si]);
            assert(p2[j] == perm[sj]);
        }
        assert forall|v: int| 0 <= v < n - 1 implies #[trigger] lists_value(p2, v) by {
            assert(lists_value(perm, v));
            let i = choose|i: int| 0 <= i < n && perm[i] == v;
            assert(i != k);
            if i < k {
                assert(p2[i] == v);
            } else {
                assert(p2[i - 1] == v);
            }
        }
        lemma_sum_permutation(f, p2, n - 1);
        lemma_sum_remove(f, perm, k);
        assert(index_range(n).drop_last() =~= index_range(n - 1));
    }
}

/// Entry `j` of the corpus sums is the sum over segments of their entry `j`.
proof fn lemma_sums_entry(hyps: Seq<String>, refs: Seq<Vec<String>>, lowercase: bool, max_order: nat, j: int, k: int)
    requires
        0 <= j < 2 + 2 * max_order,
        0 <= k,
    ensures
        corpus_sums(hyps, refs, lowercase, max_order, k)[j] == sum_over(
            |i: int| corpus_segment_stats(hyps, refs, i, lowercase, max_order)[j],
            index_range(k),
        ),
    decreases k,
{
    if k > 0 {
        lemma_sums_entry(hyps, refs, lowercase, max_order, j, k - 1);
        crate::corpus::lemma_sums_monotone(hyps, refs, lowercase, max_order, k - 1, k - 1);
        assert(index_range(k).drop_last() =~= index_range(k - 1));
    }
}

/// Entry `j` of the sums of a reordered corpus is the sum over the given
/// segments taken in the new order.
proof fn lemma_sums_reordered(
    hyps: Seq<String>,
    refs: Seq<Vec<String>>,
    hyps2: Seq<String>,
    refs2: Seq<Vec<String>>,
    perm: Seq<int>,
    lowercase: bool,
    max_order: nat,
    j: int,
    k: int,
)
    requires
        0 <= j < 2 + 2 * max_order,
        0 <= k <= perm.len(),
        refs2.len() == refs.len(),
        forall|i: int| 0 <= i < perm.len() ==> #[trigger] hyps2[i]@ == hyps[perm[i]]@,
        forall|r: int, i: int|
            0 <= r < refs.len() && 0 <= i < perm.len() ==> #[trigger] refs2[r]@[i]@ == refs[r]@[perm[i]]@,
    ensures
        corpus_sums(hyps2, refs2, lowercase, max_order, k)[j] == sum_over(
            |i: int| corpus_segment_stats(hyps, refs, i, lowercase, max_order)[j],
            perm.take(k),
        ),
    decreases k,
{
    if k > 0 {
        lemma_sums_reordered(hyps, refs, hyps2, refs2, perm, lowercase, max_order, j, k - 1);
        crate::corpus::lemma_sums_monotone(hyps2, refs2, lowercase, max_order, k - 1, k - 1);
        let i = k - 1;
        assert(segment_refs(refs2, i, lowercase) =~= segment_refs(refs, perm[i], lowercase)) by {
            assert forall|r: int| 0 <= r < refs.len() implies refs2[r]@[i]@ == refs[r]@[perm[i]]@ by {
            }
        }
        assert(segment_ref_lens(refs2, i, lowercase) =~= segment_ref_lens(refs, perm[i], lowercase)) by {
            assert forall|r: int| 0 <= r < refs.len() implies refs2[r]@[i]@ == refs[r]@[perm[i]]@ by {
            }
        }
        assert(corpus_segment_stats(hyps2, refs2, i, lowercase, max_order) == corpus_segment_stats(
            hyps,
            refs,
            perm[i],
            lowercase,
            max_order,
        ));
        assert(perm.take(k).drop_last() =~= perm.take(k - 1));
        assert(perm.take(k).last() == perm[i]);
    }
}

/// Reordering the segments of a corpus (hypotheses and every reference stream
/// alike) leaves the corpus statistics unchanged.
pub proof fn lemma_corpus_order_independent(
    hyps: Seq<String>,
    refs: Seq<Vec<String>>,
    hyps2: Seq<String>,
    refs2: Seq<Vec<String>>,
    perm: Seq<int>,
    lowercase: bool,
    max_order: nat,
)
    requires
        hyps2.len() == hyps.len(),
        is_permutation(perm, hyps.len() as int),
        refs2.len() == refs.len(),
        forall|i: int| 0 <= i < hyps.len() ==> #[trigger] hyps2[i]@ == hyps[perm[i]]@,
        forall|r: int, i: int|
            0 <= r < refs.len() && 0 <= i < hyps.len() ==> #[trigger] refs2[r]@[i]@ == refs[r]@[perm[i]]@,
    ensures
        corpus_stats(hyps2, refs2, lowercase, max_order) == corpus_stats(hyps, refs, lowercase, max_order),
{
    let n = hyps.len() as int;
    let a = corpus_stats(hyps2, refs2, lowercase, max_order);
    let b = corpus_stats(hyps, refs, lowercase, max_order);
    crate::corpus::lemma_sums_monotone(hyps2, refs2, lowercase, max_order, n, n);
    crate::corpus::lemma_sums_monotone(hyps, refs, lowercase, max_order, n, n);
    assert forall|j: int| 0 <= j < 2 + 2 * max_order implies a[j] == b[j] by {
        let f = |i: int| corpus_segment_stats(hyps, refs, i, lowercase, max_order)[j];
        lemma_sums_reordered(hyps, refs, hyps2, refs2, perm, lowercase, max_order, j, n);
        assert(perm.take(n) =~= perm);
        lemma_sum_permutation(f, perm, n);
        lemma_sums_entry(hyps, refs, lowercase, max_order, j, n);
    }
    assert(a =~= b);
}

/// No reference occurs an n-gram more often than the maximum over all references.
proof fn lemma_max_occurrences_bound(rs: Seq<Seq<Seq<char>>>, g: Seq<Seq<char>>, r: int)
    requires
        0 <= r < rs.len(),
    ensures
        occurrences(rs[r], g) <= max_occurrences(rs, g),
    decreases rs.len(),
{
    if r < rs.len() - 1 {
        lemma_max_occurrences_bound(rs.drop_last(), g, r);
        assert(rs.drop_last()[r] == rs[r]);
    }
}

/// Within one segment, a repeated first reference changes no statistic.
proof fn lemma_repeated_stream_segment(hyps: Seq<String>, refs: Seq<Vec<String>>, i: int, lowercase: bool, max_order: nat)
    requires
        refs.len() >= 1,
    ensures
        corpus_segment_stats(hyps, refs.push(refs[0]), i, lowercase, max_order) == corpus_segment_stats(
            hyps,
            refs,
            i,
            lowercase,
            max_order,
        ),
{
    let refs2 = refs.push(refs[0]);
    let rs = segment_refs(refs, i, lowercase);
    let rs2 = segment_refs(refs2, i, lowercase);
    assert(rs2 =~= rs.push(rs[0]));
    assert forall|g: Seq<Seq<char>>| #[trigger] max_occurrences(rs2, g) == max_occurrences(rs, g) by {
        assert(rs2.drop_last() =~= rs);
        assert(rs2.last() == rs[0]);
        lemma_max_occurrences_bound(rs, g, 0);
    }
    assert(max_ngram_counts(rs2, max_order) =~= max_ngram_counts(rs, max_order));
    let lens = segment_ref_lens(refs, i, lowercase);
    let lens2 = segment_ref_lens(refs2, i, lowercase);
    assert(lens2 =~= lens.push(lens[0]));
    let h = words(preprocess_spec(hyps[i]@, lowercase)).len() as int;
    assert forall|r: usize| #[trigger] is_closest_len(h, lens2, r) == is_closest_len(h, lens, r) by {
        if is_closest_len(h, lens, r) {
            let q = choose|q: int| 0 <= q < lens.len() && lens[q] == r;
            assert(lens2[q] == r);
            assert forall|q2: int| 0 <= q2 < lens2.len() implies {
                ||| len_distance(h, r as int) < len_distance(h, #[trigger] lens2[q2] as int)
                ||| (len_distance(h, r as int) == len_distance(h, lens2[q2] as int) && r <= lens2[q2])
            } by {
                if q2 < lens.len() {
                    assert(lens2[q2] == lens[q2]);
                } else {
                    assert(lens2[q2] == lens[0]);
                }
            }
        }
        if is_closest_len(h, lens2, r) {
            let q = choose|q: int| 0 <= q < lens2.len() && lens2[q] == r;
            if q < lens.len() {
                assert(lens[q] == r);
            } else {
                assert(lens[0] == r);
            }
            assert forall|q2: int| 0 <= q2 < lens.len() implies {
                ||| len_distance(h, r as int) < len_distance(h, #[trigger] lens[q2] as int)
                ||| (len_distance(h, r as int) == len_distance(h, lens[q2] as int) && r <= lens[q2])
            } by {
                assert(lens2[q2] == lens[q2]);
            }
        }
    }
    let w = crate::stats::lemma_closest_exists(h, lens);
    assert(is_closest_len(h, lens2, w));
    let c = choose|r: usize| is_closest_len(h, lens, r);
    let c2 = choose|r: usize| is_closest_len(h, lens2, r);
    assert(is_closest_len(h, lens, c2));
    lemma_closest_unique(h, lens, c, c2);
    assert(closest_len(h, lens2) == closest_len(h, lens));
}

proof fn lemma_repeated_stream_sums(hyps: Seq<String>, refs: Seq<Vec<String>>, lowercase: bool, max_order: nat, k: int)
    requires
        refs.len() >= 1,
    ensures
        corpus_sums(hyps, refs.push(refs[0]), lowercase, max_order, k) == corpus_sums(hyps, refs, lowercase, max_order, k),
    decreases k,
{
    if k > 0 {
        lemma_repeated_stream_sums(hyps, refs, lowercase, max_order, k - 1);
        lemma_repeated_stream_segment(hyps, refs, k - 1, lowercase, max_order);
    }
}

/// Adding a copy of the first reference stream leaves the corpus statistics
/// unchanged: the maximum n-gram counts and the closest reference lengths stay.
pub proof fn lemma_corpus_repeated_reference_stream(
    hyps: Seq<String>,
    refs: Seq<Vec<String>>,
    lowercase: bool,
    max_order: nat,
)
    requires
        refs.len() >= 1,
    ensures
        corpus_stats(hyps, refs.push(refs[0]), lowercase, max_order) == corpus_stats(hyps, refs, lowercase, max_order),
{
    lemma_repeated_stream_sums(hyps, refs, lowercase, max_order, hyps.len() as int);
}

} // verus!
