//! BLEU's integer sufficient statistics: per segment, the hypothesis length, the
//! closest reference length, the clipped n-gram matches and the n-gram totals;
//! per corpus, their sums.

use vstd::prelude::*;

use crate::ngrams::{
    count_of, lemma_occurrences_bound, lemma_occurrences_step, ngram_at, occurrences_before, NgramCounts, RefInfo,
};
use crate::laws::{distinct_clipped_count, lemma_clipped_is_distinct_min, lemma_clipped_within_total};
use crate::text::{chars_of, split_words, texts, words};

verus! {

/// The default maximum n-gram order.
pub const MAX_NGRAM_ORDER: usize = 4;

/// The distance between two lengths.
pub open spec fn len_distance(a: int, b: int) -> int {
    if a >= b {
        a - b
    } else {
        b - a
    }
}

/// `r` is one of `lens`, none of `lens` is nearer to `hyp_len`, and none as near is shorter.
pub open spec fn is_closest_len(hyp_len: int, lens: Seq<usize>, r: usize) -> bool {
    &&& lens.contains(r)
    &&& forall|i: int|
        0 <= i < lens.len() ==> {
            ||| len_distance(hyp_len, r as int) < len_distance(hyp_len, #[trigger] lens[i] as int)
            ||| (len_distance(hyp_len, r as int) == len_distance(hyp_len, lens[i] as int) && r
                <= lens[i])
        }
}

/// The reference length closest to `hyp_len`, ties broken toward the shorter; 0
/// when there is no reference.
pub open spec fn closest_len(hyp_len: int, lens: Seq<usize>) -> int {
    if lens.len() == 0 {
        0
    } else {
        (choose|r: usize| is_closest_len(hyp_len, lens, r)) as int
    }
}

/// At most one length is closest.
pub proof fn lemma_closest_unique(hyp_len: int, lens: Seq<usize>, a: usize, b: usize)
    requires
        is_closest_len(hyp_len, lens, a),
        is_closest_len(hyp_len, lens, b),
    ensures
        a == b,
{
    let ia = choose|i: int| 0 <= i < lens.len() && lens[i] == a;
    let ib = choose|i: int| 0 <= i < lens.len() && lens[i] == b;
    assert(lens[ib] == b);
    assert(lens[ia] == a);
}

/// A non-empty list of lengths has a closest one.
pub(crate) proof fn lemma_closest_exists(hyp_len: int, lens: Seq<usize>) -> (r: usize)
    requires
        lens.len() > 0,
    ensures
        is_closest_len(hyp_len, lens, r),
    decreases lens.len(),
{
    let last = lens.last();
    if lens.len() == 1 {
        assert(lens[0] == last);
        last
    } else {
        let p = lens.drop_last();
        let r0 = lemma_closest_exists(hyp_len, p);
        let q0 = choose|q: int| 0 <= q < p.len() && p[q] == r0;
        assert(lens[q0] == r0);
        let better = len_distance(hyp_len, last as int) < len_distance(hyp_len, r0 as int) || (len_distance(
            hyp_len,
            last as int,
        ) == len_distance(hyp_len, r0 as int) && last < r0);
        let r = if better { last } else { r0 };
        assert(lens[lens.len() - 1] == last);
        assert forall|i: int| 0 <= i < lens.len() implies {
            ||| len_distance(hyp_len, r as int) < len_distance(hyp_len, #[trigger] lens[i] as int)
            ||| (len_distance(hyp_len, r as int) == len_distance(hyp_len, lens[i] as int) && r <= lens[i])
        } by {
            if i < lens.len() - 1 {
                assert(lens[i] == p[i]);
            }
        }
        r
    }
}

/// The reference length closest to the hypothesis length, ties broken toward the
/// shorter; 0 when there is no reference.
pub fn closest_ref_len(hyp_len: usize, ref_lens: &[usize]) -> (res: usize)
    ensures
        ref_lens@.len() == 0 ==> res == 0,
        ref_lens@.len() > 0 ==> is_closest_len(hyp_len as int, ref_lens@, res),
        res == closest_len(hyp_len as int, ref_lens@),
{
    if ref_lens.len() == 0 {
        return 0;
    }
    let mut best: usize = ref_lens[0];
    let mut best_diff: usize = if hyp_len >= best {
        hyp_len - best
    } else {
        best - hyp_len
    };
    let mut i: usize = 1;
    assert(ref_lens@.take(1)[0] == best);
    while i < ref_lens.len()
        invariant
            1 <= i <= ref_lens.len(),
            best_diff == len_distance(hyp_len as int, best as int),
            is_closest_len(hyp_len as int, ref_lens@.take(i as int), best),
        decreases ref_lens.len() - i,
    {
        let rl = ref_lens[i];
        let diff = if hyp_len >= rl {
            hyp_len - rl
        } else {
            rl - hyp_len
        };
        let ghost prev = ref_lens@.take(i as int);
        let ghost next = ref_lens@.take(i + 1);
        assert(next =~= prev.push(rl));
        if diff < best_diff || (diff == best_diff && rl < best) {
            best = rl;
            best_diff = diff;
            assert(next[i as int] == rl);
        } else {
            proof {
                let k = choose|k: int| 0 <= k < prev.len() && prev[k] == best;
                assert(next[k] == best);
            }
        }
        assert forall|j: int| 0 <= j < next.len() implies {
            ||| len_distance(hyp_len as int, best as int) < len_distance(hyp_len as int, #[trigger] next[j] as int)
            ||| (len_distance(hyp_len as int, best as int) == len_distance(hyp_len as int, next[j] as int) && best
                <= next[j])
        } by {
            if j < i {
                assert(next[j] == prev[j]);
            }
        }
        i = i + 1;
    }
    assert(ref_lens@.take(i as int) =~= ref_lens@);
    proof {
        let c = choose|r: usize| is_closest_len(hyp_len as int, ref_lens@, r);
        lemma_closest_unique(hyp_len as int, ref_lens@, c, best);
    }
    best
}

/// The n-grams of order `n` starting below position `i`, with how often each occurs there.
pub open spec fn seen_counts(t: Seq<Seq<char>>, n: int, i: int) -> Map<Seq<Seq<char>>, nat> {
    Map::new(
        |g: Seq<Seq<char>>| g.len() == n && occurrences_before(t, g, i) > 0,
        |g: Seq<Seq<char>>| occurrences_before(t, g, i),
    )
}

/// How many of the order-`n` positions below `k` are matched: a position is
/// matched when its n-gram occurred there fewer times before than the most
/// times it occurs in one reference (`ref_max`). Over the occurrences of one
/// n-gram this matches the first `min(hypothesis count, reference count)`, so
/// the sum is the clipped count.
pub open spec fn matched_before(t: Seq<Seq<char>>, ref_max: Map<Seq<Seq<char>>, nat>, n: int, k: int) -> nat
    decreases k,
{
    if k <= 0 {
        0
    } else {
        matched_before(t, ref_max, n, k - 1) + (if occurrences_before(t, ngram_at(t, k - 1, n), k - 1)
            < count_of(ref_max, ngram_at(t, k - 1, n)) {
            1nat
        } else {
            0nat
        })
    }
}

/// The number of n-grams of order `n` in a sequence of `len` tokens.
pub open spec fn ngram_total(len: int, n: int) -> int {
    if len >= n {
        len - n + 1
    } else {
        0
    }
}

/// The clipped n-gram matches of order `n`.
pub open spec fn clipped_matches(t: Seq<Seq<char>>, ref_max: Map<Seq<Seq<char>>, nat>, n: int) -> nat {
    matched_before(t, ref_max, n, ngram_total(t.len() as int, n))
}

/// The statistics of one segment: `[hyp_len, ref_len, correct_1..correct_m, total_1..total_m]`.
pub open spec fn segment_stats(
    t: Seq<Seq<char>>,
    ref_max: Map<Seq<Seq<char>>, nat>,
    ref_lens: Seq<usize>,
    max_order: nat,
) -> Seq<int> {
    seq![t.len() as int, closest_len(t.len() as int, ref_lens)] + Seq::new(
        max_order,
        |k: int| clipped_matches(t, ref_max, k + 1) as int,
    ) + Seq::new(max_order, |k: int| ngram_total(t.len() as int, k + 1))
}

/// Entry 1 of the statistics of a segment (the reference length) is the
/// reference length nearest to entry 0 (the hypothesis length), ties broken toward
/// the shorter; 0 when there is no reference.
pub proof fn lemma_segment_ref_len_is_closest(
    t: Seq<Seq<char>>,
    ref_max: Map<Seq<Seq<char>>, nat>,
    ref_lens: Seq<usize>,
    max_order: nat,
)
    ensures
        ref_lens.len() == 0 ==> segment_stats(t, ref_max, ref_lens, max_order)[1] == 0,
        ref_lens.len() > 0 ==> exists|q: int|
            0 <= q < ref_lens.len() && ref_lens[q] as int == segment_stats(t, ref_max, ref_lens, max_order)[1],
        forall|q: int|
            0 <= q < ref_lens.len() ==> {
                let s = segment_stats(t, ref_max, ref_lens, max_order);
                ||| len_distance(s[0], s[1]) < len_distance(s[0], #[trigger] ref_lens[q] as int)
                ||| (len_distance(s[0], s[1]) == len_distance(s[0], ref_lens[q] as int) && s[1] <= ref_lens[q])
            },
{
    let s = segment_stats(t, ref_max, ref_lens, max_order);
    assert(s[0] == t.len() as int);
    assert(s[1] == closest_len(t.len() as int, ref_lens));
    if ref_lens.len() > 0 {
        let w = lemma_closest_exists(t.len() as int, ref_lens);
        let c = choose|r: usize| is_closest_len(t.len() as int, ref_lens, r);
        assert(is_closest_len(t.len() as int, ref_lens, c));
        assert(s[1] == c as int);
        let q = choose|q: int| 0 <= q < ref_lens.len() && ref_lens[q] == c;
        assert(ref_lens[q] as int == s[1]);
    }
}

/// The integers held by a vector of counts.
pub open spec fn ints(v: Seq<usize>) -> Seq<int> {
    Seq::new(v.len(), |i: int| v[i] as int)
}

proof fn lemma_seen_step(t: Seq<Seq<char>>, n: int, i: int)
    requires
        1 <= n,
        0 <= i,
        i + n <= t.len(),
    ensures
        seen_counts(t, n, i).insert(
            ngram_at(t, i, n),
            count_of(seen_counts(t, n, i), ngram_at(t, i, n)) + 1,
        ) == seen_counts(t, n, i + 1),
{
    let g0 = ngram_at(t, i, n);
    let m = seen_counts(t, n, i);
    let m2 = seen_counts(t, n, i + 1);
    lemma_occurrences_step(t, n, i);
    assert(m.insert(g0, count_of(m, g0) + 1) =~= m2);
}

pub(crate) proof fn lemma_matched_bound(t: Seq<Seq<char>>, ref_max: Map<Seq<Seq<char>>, nat>, n: int, k: int)
    requires
        0 <= k,
    ensures
        matched_before(t, ref_max, n, k) <= k,
    decreases k,
{
    if k > 0 {
        lemma_matched_bound(t, ref_max, n, k - 1);
    }
}

/// The clipped matches and the total number of n-grams of one order.
pub fn order_matches(tokens: &Vec<Vec<char>>, refinfo: &RefInfo, order: usize) -> (res: (usize, usize))
    requires
        1 <= order,
    ensures
        res.0 == clipped_matches(texts(tokens@), refinfo.ngram_view(), order as int),
        res.0 == distinct_clipped_count(texts(tokens@), refinfo.ngram_view(), order as int),
        res.1 == ngram_total(tokens@.len() as int, order as int),
{
    let ghost t = texts(tokens@);
    let ghost rm = refinfo.ngram_view();
    proof {
        lemma_clipped_is_distinct_min(t, rm, order as int);
    }
    if order > tokens.len() {
        return (0, 0);
    }
    let last = tokens.len() - order;
    let mut seen = NgramCounts::new();
    let mut matched: usize = 0;
    let mut i: usize = 0;
    assert(seen.view() =~= seen_counts(t, order as int, 0));
    while i <= last
        invariant
            i <= last + 1,
            1 <= order,
            last < usize::MAX,
            last + order == tokens@.len(),
            t == texts(tokens@),
            rm == refinfo.ngram_view(),
            seen.view() == seen_counts(t, order as int, i as int),
            matched == matched_before(t, rm, order as int, i as int),
        decreases last + 1 - i,
    {
        let before = seen.count_at(tokens, i, order);
        let in_refs = refinfo.max_count_at(tokens, i, order);
        proof {
            let g0 = ngram_at(t, i as int, order as int);
            assert(count_of(seen.view(), g0) == occurrences_before(t, g0, i as int));
            lemma_occurrences_bound(t, g0, i as int);
            lemma_matched_bound(t, rm, order as int, i as int);
            lemma_seen_step(t, order as int, i as int);
        }
        if before < in_refs {
            matched = matched + 1;
        }
        seen.add_one_at(tokens, i, order);
        i = i + 1;
    }
    (matched, last + 1)
}

/// The statistics of one tokenized hypothesis against the references summarized
/// in `refinfo`: `[hyp_len, ref_len, correct_1..correct_m, total_1..total_m]`.
pub fn segment_statistics(hyp: &str, refinfo: &RefInfo, max_order: usize) -> (res: Vec<usize>)
    requires
        max_order <= (usize::MAX - 2) / 2,
    ensures
        ints(res@) == segment_stats(words(hyp@), refinfo.ngram_view(), refinfo.lens_view(), max_order as nat),
        res@.len() == 2 + 2 * max_order,
        res@[0] == words(hyp@).len(),
        forall|k: int|
            0 <= k < max_order ==> #[trigger] res@[2 + max_order + k] == if words(hyp@).len() > k {
                words(hyp@).len() - k
            } else {
                0
            },
        forall|k: int| 0 <= k < max_order ==> #[trigger] res@[2 + k] <= res@[2 + max_order + k],
        refinfo.lens_view().len() == 0 ==> res@[1] == 0,
        refinfo.lens_view().len() > 0 ==> refinfo.lens_view().contains(res@[1]),
        forall|q: int|
            0 <= q < refinfo.lens_view().len() ==> {
                ||| len_distance(res@[0] as int, res@[1] as int) < len_distance(
                    res@[0] as int,
                    #[trigger] refinfo.lens_view()[q] as int,
                )
                ||| (len_distance(res@[0] as int, res@[1] as int) == len_distance(
                    res@[0] as int,
                    refinfo.lens_view()[q] as int,
                ) && res@[1] <= refinfo.lens_view()[q])
            },
{
    let chars = chars_of(hyp);
    let tokens = split_words(&chars);
    let ghost t = texts(tokens@);
    let hyp_len = tokens.len();
    let ref_len = closest_ref_len(hyp_len, refinfo.lens().as_slice());
    let mut correct: Vec<usize> = Vec::new();
    let mut total: Vec<usize> = Vec::new();
    let mut done: usize = 0;
    while done < max_order
        invariant
            done <= max_order,
            t == texts(tokens@),
            correct@.len() == done,
            total@.len() == done,
            forall|k: int| 0 <= k < done ==> correct@[k] == clipped_matches(t, refinfo.ngram_view(), k + 1),
            forall|k: int| 0 <= k < done ==> total@[k] == ngram_total(t.len() as int, k + 1),
        decreases max_order - done,
    {
        let order = done + 1;
        let (m, tot) = order_matches(&tokens, refinfo, order);
        correct.push(m);
        total.push(tot);
        done = order;
    }
    let mut stats: Vec<usize> = Vec::new();
    stats.push(hyp_len);
    stats.push(ref_len);
    let mut k: usize = 0;
    while k < max_order
        invariant
            k <= max_order <= (usize::MAX - 2) / 2,
            correct@.len() == max_order,
            stats@.len() == 2 + k,
            stats@[0] == hyp_len,
            stats@[1] == ref_len,
            forall|j: int| 0 <= j < k ==> stats@[2 + j] == correct@[j],
        decreases max_order - k,
    {
        stats.push(correct[k]);
        k = k + 1;
    }
    let mut k: usize = 0;
    while k < max_order
        invariant
            k <= max_order <= (usize::MAX - 2) / 2,
            correct@.len() == max_order,
            total@.len() == max_order,
            stats@.len() == 2 + max_order + k,
            stats@[0] == hyp_len,
            stats@[1] == ref_len,
            forall|j: int| 0 <= j < max_order ==> stats@[2 + j] == correct@[j],
            forall|j: int| 0 <= j < k ==> stats@[2 + max_order + j] == total@[j],
        decreases max_order - k,
    {
        stats.push(total[k]);
        k = k + 1;
    }
    assert(t == words(hyp@));
    proof {
        let a: Seq<int> = seq![t.len() as int, closest_len(t.len() as int, refinfo.lens_view())];
        let b = Seq::new(max_order as nat, |k: int| clipped_matches(t, refinfo.ngram_view(), k + 1) as int);
        let c = Seq::new(max_order as nat, |k: int| ngram_total(t.len() as int, k + 1));
        let spec = segment_stats(t, refinfo.ngram_view(), refinfo.lens_view(), max_order as nat);
        assert(spec == a + b + c);
        assert forall|j: int| 0 <= j < stats@.len() implies #[trigger] ints(stats@)[j] == spec[j] by {
            if j < 2 {
                assert((a + b + c)[j] == a[j]);
            } else if j < 2 + max_order {
                assert((a + b + c)[j] == b[j - 2]);
                assert(stats@[2 + (j - 2)] == correct@[j - 2]);
            } else {
                assert((a + b + c)[j] == c[j - 2 - max_order]);
                assert(stats@[2 + max_order + (j - 2 - max_order)] == total@[j - 2 - max_order]);
            }
        }
    }
    proof {
        lemma_segment_ref_len_is_closest(t, refinfo.ngram_view(), refinfo.lens_view(), max_order as nat);
        assert forall|k: int| 0 <= k < max_order implies #[trigger] stats@[2 + k] <= stats@[2 + max_order + k] by {
            lemma_clipped_within_total(t, refinfo.ngram_view(), k + 1);
            assert(stats@[2 + k] == correct@[k]);
            assert(stats@[2 + max_order + k] == total@[k]);
        }
        assert forall|k: int| 0 <= k < max_order implies #[trigger] stats@[2 + max_order + k] == if t.len() > k {
            t.len() - k
        } else {
            0
        } by {
            assert(stats@[2 + max_order + k] == total@[k]);
        }
    }
    assert(ints(stats@) =~= segment_stats(words(hyp@), refinfo.ngram_view(), refinfo.lens_view(), max_order as nat));
    stats
}

} // verus!
