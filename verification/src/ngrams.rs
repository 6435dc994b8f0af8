//! N-gram counting over whitespace-separated tokens: the counts of a line, and the
//! per-n-gram maximum over several references.

use vstd::prelude::*;

use crate::text::{chars_of, split_words, texts, words};

verus! {

/// The `n` tokens of `t` that start at position `i`.
pub open spec fn ngram_at(t: Seq<Seq<char>>, i: int, n: int) -> Seq<Seq<char>> {
    t.subrange(i, i + n)
}

/// How many times `g` occurs in `t` at a starting position below `k`.
pub open spec fn occurrences_before(t: Seq<Seq<char>>, g: Seq<Seq<char>>, k: int) -> nat
    decreases k,
{
    if k <= 0 {
        0
    } else {
        occurrences_before(t, g, k - 1) + (if k - 1 + g.len() <= t.len() && t.subrange(
            k - 1,
            k - 1 + g.len(),
        ) == g {
            1nat
        } else {
            0nat
        })
    }
}

/// How many times `g` occurs in `t`.
pub open spec fn occurrences(t: Seq<Seq<char>>, g: Seq<Seq<char>>) -> nat {
    occurrences_before(t, g, t.len() as int)
}

/// Every n-gram of `t` with `1 <= n <= max_order`, mapped to its number of occurrences.
pub open spec fn ngram_counts(t: Seq<Seq<char>>, max_order: nat) -> Map<Seq<Seq<char>>, nat> {
    Map::new(
        |g: Seq<Seq<char>>| 1 <= g.len() <= max_order && occurrences(t, g) > 0,
        |g: Seq<Seq<char>>| occurrences(t, g),
    )
}

/// The value of `g` in `m`, or 0 where `m` has none.
pub open spec fn count_of(m: Map<Seq<Seq<char>>, nat>, g: Seq<Seq<char>>) -> nat {
    if m.contains_key(g) {
        m[g]
    } else {
        0
    }
}

/// No occurrence starts at or after position `t.len() - g.len() + 1`.
pub proof fn lemma_occurrences_tail(t: Seq<Seq<char>>, g: Seq<Seq<char>>, k: int)
    requires
        g.len() >= 1,
        0 <= k,
        k >= t.len() - g.len() + 1,
    ensures
        occurrences_before(t, g, k) == occurrences(t, g) || k > t.len(),
        k <= t.len() ==> occurrences_before(t, g, k) == occurrences(t, g),
    decreases t.len() - k,
{
    if k < t.len() {
        lemma_occurrences_tail(t, g, k + 1);
        assert(occurrences_before(t, g, k + 1) == occurrences_before(t, g, k));
    }
}

/// Occurrences below `k` number at most `k`.
pub proof fn lemma_occurrences_bound(t: Seq<Seq<char>>, g: Seq<Seq<char>>, k: int)
    requires
        0 <= k,
    ensures
        occurrences_before(t, g, k) <= k,
    decreases k,
{
    if k > 0 {
        lemma_occurrences_bound(t, g, k - 1);
    }
}

/// Whether two runs of characters are equal.
pub fn chars_equal(a: &Vec<char>, b: &Vec<char>) -> (res: bool)
    ensures
        res == (a@ == b@),
{
    if a.len() != b.len() {
        return false;
    }
    let mut i: usize = 0;
    while i < a.len()
        invariant
            i <= a.len() == b.len(),
            forall|k: int| 0 <= k < i ==> a@[k] == b@[k],
        decreases a.len() - i,
    {
        if a[i] != b[i] {
            return false;
        }
        i = i + 1;
    }
    assert(a@ =~= b@);
    true
}

/// Whether `key` equals the `n` tokens of `tokens` that start at `start`.
pub fn ngram_matches(key: &Vec<Vec<char>>, tokens: &Vec<Vec<char>>, start: usize, n: usize) -> (res: bool)
    requires
        start + n <= tokens.len(),
    ensures
        res == (texts(key@) == ngram_at(texts(tokens@), start as int, n as int)),
{
    let ghost g = ngram_at(texts(tokens@), start as int, n as int);
    if key.len() != n {
        assert(texts(key@).len() != g.len());
        return false;
    }
    let mut i: usize = 0;
    while i < n
        invariant
            i <= n == key.len(),
            start + n <= tokens.len(),
            g == ngram_at(texts(tokens@), start as int, n as int),
            forall|k: int| 0 <= k < i ==> texts(key@)[k] == g[k],
        decreases n - i,
    {
        if !chars_equal(&key[i], &tokens[start + i]) {
            assert(texts(key@)[i as int] != g[i as int]);
            return false;
        }
        i = i + 1;
    }
    assert(texts(key@) =~= g);
    true
}

/// A copy of the `n` tokens of `tokens` that start at `start`.
pub fn copy_ngram(tokens: &Vec<Vec<char>>, start: usize, n: usize) -> (res: Vec<Vec<char>>)
    requires
        start + n <= tokens.len(),
    ensures
        texts(res@) == ngram_at(texts(tokens@), start as int, n as int),
{
    let mut out: Vec<Vec<char>> = Vec::new();
    let mut i: usize = 0;
    while i < n
        invariant
            i <= n,
            start + n <= tokens.len(),
            texts(out@) == ngram_at(texts(tokens@), start as int, i as int),
        decreases n - i,
    {
        let tok = crate::text::copy_chars(&tokens[start + i]);
        let ghost prev = texts(out@);
        out.push(tok);
        assert(texts(out@) =~= prev.push(tokens@[start + i]@));
        i = i + 1;
        assert(texts(out@) =~= ngram_at(texts(tokens@), start as int, i as int));
    }
    out
}

/// A multiset of n-grams: each distinct n-gram with a positive count.
pub struct NgramCounts {
    keys: Vec<Vec<Vec<char>>>,
    counts: Vec<usize>,
}

impl NgramCounts {
    /// The stored n-grams, in storage order.
    pub closed spec fn key_seq(&self) -> Seq<Seq<Seq<char>>> {
        Seq::new(self.keys@.len(), |i: int| texts(self.keys@[i]@))
    }

    /// Keys and counts align, and no n-gram is stored twice.
    #[verifier::type_invariant]
    spec fn wf(&self) -> bool {
        &&& self.keys@.len() == self.counts@.len()
        &&& self.key_seq().no_duplicates()
    }

    /// Each stored n-gram mapped to its count.
    pub closed spec fn view(&self) -> Map<Seq<Seq<char>>, nat> {
        Map::new(
            |g: Seq<Seq<char>>| self.key_seq().contains(g),
            |g: Seq<Seq<char>>| self.counts@[self.key_seq().index_of(g)] as nat,
        )
    }

    /// The entry at `j` is the n-gram `key_seq()[j]` with its count.
    proof fn lemma_entry(&self, j: int)
        requires
            self.wf(),
            0 <= j < self.keys@.len(),
        ensures
            self.view().contains_key(self.key_seq()[j]),
            self.view()[self.key_seq()[j]] == self.counts@[j] as nat,
    {
        let g = self.key_seq()[j];
        assert(self.key_seq().contains(g));
        let k = self.key_seq().index_of(g);
        assert(self.key_seq()[k] == g);
    }

    /// An empty collection.
    pub fn new() -> (res: NgramCounts)
        ensures
            res.view() == Map::<Seq<Seq<char>>, nat>::empty(),
    {
        let res = NgramCounts { keys: Vec::new(), counts: Vec::new() };
        assert(res.view() =~= Map::<Seq<Seq<char>>, nat>::empty());
        res
    }

    /// The number of distinct n-grams held.
    pub fn len(&self) -> (res: usize)
        ensures
            res == self.view().dom().len(),
    {
        proof {
            use_type_invariant(self);
            self.key_seq().unique_seq_to_set();
            assert(self.view().dom() =~= self.key_seq().to_set());
        }
        self.keys.len()
    }

    /// Where `ngram_at(tokens, start, n)` is stored, if it is.
    fn find_at(&self, tokens: &Vec<Vec<char>>, start: usize, n: usize) -> (res: Option<usize>)
        requires
            start + n <= tokens.len(),
        ensures
            match res {
                Some(j) => j < self.keys@.len() && self.key_seq()[j as int] == ngram_at(
                    texts(tokens@),
                    start as int,
                    n as int,
                ),
                None => !self.key_seq().contains(ngram_at(texts(tokens@), start as int, n as int)),
            },
    {
        proof {
            use_type_invariant(self);
        }
        let ghost g = ngram_at(texts(tokens@), start as int, n as int);
        let mut j: usize = 0;
        while j < self.keys.len()
            invariant
                j <= self.keys@.len(),
                self.wf(),
                start + n <= tokens.len(),
                g == ngram_at(texts(tokens@), start as int, n as int),
                forall|k: int| 0 <= k < j ==> self.key_seq()[k] != g,
            decreases self.keys@.len() - j,
        {
            if ngram_matches(&self.keys[j], tokens, start, n) {
                return Some(j);
            }
            j = j + 1;
        }
        None
    }

    /// The count of the n-gram `ngram_at(tokens, start, n)`, 0 if absent.
    pub fn count_at(&self, tokens: &Vec<Vec<char>>, start: usize, n: usize) -> (res: usize)
        requires
            start + n <= tokens.len(),
        ensures
            res == count_of(self.view(), ngram_at(texts(tokens@), start as int, n as int)),
    {
        match self.find_at(tokens, start, n) {
            Some(j) => {
                proof {
                    use_type_invariant(self);
                    self.lemma_entry(j as int);
                }
                self.counts[j]
            },
            None => 0,
        }
    }

    /// The count of the n-gram `texts(ngram)`, 0 if absent.
    pub fn count(&self, ngram: &Vec<Vec<char>>) -> (res: usize)
        ensures
            res == count_of(self.view(), texts(ngram@)),
    {
        assert(ngram_at(texts(ngram@), 0, ngram@.len() as int) =~= texts(ngram@));
        self.count_at(ngram, 0, ngram.len())
    }

    /// Stores count `c` at entry `j`.
    fn set_count(&mut self, j: usize, c: usize)
        requires
            j < old(self).keys@.len(),
        ensures
            final(self).view() == old(self).view().insert(old(self).key_seq()[j as int], c as nat),
    {
        proof {
            use_type_invariant(&*self);
        }
        let ghost g = self.key_seq()[j as int];
        let ghost old_view = self.view();
        let ghost old_keys = self.key_seq();
        let mut taken = NgramCounts::new();
        std::mem::swap(self, &mut taken);
        let NgramCounts { keys, mut counts } = taken;
        counts.set(j, c);
        *self = NgramCounts { keys, counts };
        proof {
            assert(self.key_seq() =~= old_keys);
            assert forall|h: Seq<Seq<char>>| #[trigger] self.view().contains_key(h) implies self.view()[h]
                == old_view.insert(g, c as nat)[h] by {
                let k = self.key_seq().index_of(h);
                assert(self.key_seq()[k] == h);
                if h == g {
                    assert(k == j);
                } else {
                    assert(k != j);
                }
            }
            assert(self.view() =~= old_view.insert(g, c as nat));
        }
    }

    /// Adds the n-gram `texts(key)`, not yet stored, with count `c`.
    fn push_entry(&mut self, key: Vec<Vec<char>>, c: usize)
        requires
            !old(self).key_seq().contains(texts(key@)),
        ensures
            final(self).view() == old(self).view().insert(texts(key@), c as nat),
    {
        proof {
            use_type_invariant(&*self);
        }
        let ghost g = texts(key@);
        let ghost old_view = self.view();
        let ghost old_keys = self.key_seq();
        let mut taken = NgramCounts::new();
        std::mem::swap(self, &mut taken);
        let NgramCounts { mut keys, mut counts } = taken;
        keys.push(key);
        counts.push(c);
        let ghost ks = Seq::new(keys@.len(), |i: int| texts(keys@[i]@));
        proof {
            assert(ks =~= old_keys.push(g));
            assert forall|a: int, b: int| 0 <= a < ks.len() && 0 <= b < ks.len() && a != b implies ks[a] != ks[b] by {
                if a < ks.len() - 1 && b < ks.len() - 1 {
                    assert(ks[a] == old_keys[a]);
                    assert(ks[b] == old_keys[b]);
                } else if a == ks.len() - 1 {
                    assert(ks[b] == old_keys[b]);
                } else {
                    assert(ks[a] == old_keys[a]);
                }
            }
        }
        *self = NgramCounts { keys, counts };
        proof {
            assert(self.key_seq() == ks);
            assert forall|h: Seq<Seq<char>>| #[trigger] self.view().contains_key(h) implies self.view()[h]
                == old_view.insert(g, c as nat)[h] by {
                let k = ks.index_of(h);
                assert(ks[k] == h);
                if h == g {
                    assert(k == ks.len() - 1);
                } else {
                    assert(k < ks.len() - 1);
                    assert(old_keys[k] == h);
                    let k0 = old_keys.index_of(h);
                    assert(old_keys.contains(h));
                    assert(old_keys[k0] == h);
                    assert(k0 == k);
                }
            }
            assert forall|h: Seq<Seq<char>>| #[trigger] old_view.insert(g, c as nat).contains_key(h) implies self.view().contains_key(h) by {
                if h == g {
                    assert(ks[ks.len() - 1] == g);
                } else {
                    let k0 = old_keys.index_of(h);
                    assert(ks[k0] == h);
                }
            }
            assert(self.view() =~= old_view.insert(g, c as nat));
        }
    }

    /// Adds one occurrence of the n-gram `ngram_at(tokens, start, n)`.
    pub fn add_one_at(&mut self, tokens: &Vec<Vec<char>>, start: usize, n: usize)
        requires
            start + n <= tokens.len(),
            count_of(old(self).view(), ngram_at(texts(tokens@), start as int, n as int)) < usize::MAX,
        ensures
            final(self).view() == old(self).view().insert(
                ngram_at(texts(tokens@), start as int, n as int),
                count_of(old(self).view(), ngram_at(texts(tokens@), start as int, n as int)) + 1,
            ),
    {
        proof {
            use_type_invariant(&*self);
        }
        match self.find_at(tokens, start, n) {
            Some(j) => {
                proof {
                    self.lemma_entry(j as int);
                }
                let c = self.counts[j];
                self.set_count(j, c + 1);
            },
            None => {
                let key = copy_ngram(tokens, start, n);
                self.push_entry(key, 1);
            },
        }
    }
}

/// The counts gathered so far when orders below `n` are complete and order `n`
/// has been counted at the starting positions below `i`.
pub open spec fn partial_count(t: Seq<Seq<char>>, g: Seq<Seq<char>>, n: int, i: int) -> nat {
    if g.len() < n {
        occurrences(t, g)
    } else if g.len() == n {
        occurrences_before(t, g, i)
    } else {
        0
    }
}

/// The non-empty n-grams with a positive partial count.
pub open spec fn partial_counts(t: Seq<Seq<char>>, n: int, i: int) -> Map<Seq<Seq<char>>, nat> {
    Map::new(
        |g: Seq<Seq<char>>| 1 <= g.len() && partial_count(t, g, n, i) > 0,
        |g: Seq<Seq<char>>| partial_count(t, g, n, i),
    )
}

/// Counting position `i` adds one occurrence to the n-gram of order `n` found
/// there and none to any other n-gram of that order.
pub proof fn lemma_occurrences_step(t: Seq<Seq<char>>, n: int, i: int)
    requires
        0 <= i,
        i + n <= t.len(),
    ensures
        forall|g: Seq<Seq<char>>|
            g.len() == n ==> #[trigger] occurrences_before(t, g, i + 1) == occurrences_before(t, g, i)
                + (if g == ngram_at(t, i, n) {
                1nat
            } else {
                0nat
            }),
{
    assert forall|g: Seq<Seq<char>>| g.len() == n implies #[trigger] occurrences_before(t, g, i + 1)
        == occurrences_before(t, g, i) + (if g == ngram_at(t, i, n) { 1nat } else { 0nat }) by {
        assert(t.subrange(i, i + g.len()) == ngram_at(t, i, n));
    }
}

/// Counting the occurrence of order `n` at position `i` moves the partial counts one step.
proof fn lemma_partial_step(t: Seq<Seq<char>>, n: int, i: int)
    requires
        1 <= n,
        0 <= i,
        i + n <= t.len(),
    ensures
        partial_counts(t, n, i).insert(
            ngram_at(t, i, n),
            count_of(partial_counts(t, n, i), ngram_at(t, i, n)) + 1,
        ) == partial_counts(t, n, i + 1),
{
    let g0 = ngram_at(t, i, n);
    let m = partial_counts(t, n, i);
    let m2 = partial_counts(t, n, i + 1);
    lemma_occurrences_step(t, n, i);
    assert(count_of(m, g0) == occurrences_before(t, g0, i));
    assert(m.insert(g0, count_of(m, g0) + 1) =~= m2);
}

/// Once every starting position of order `n` is counted, order `n` is complete.
proof fn lemma_partial_order_done(t: Seq<Seq<char>>, n: int, i: int)
    requires
        1 <= n,
        0 <= i,
        i >= t.len() - n + 1,
        i <= t.len() || i == 0,
    ensures
        partial_counts(t, n, i) == partial_counts(t, n + 1, 0),
{
    assert forall|g: Seq<Seq<char>>| g.len() == n implies #[trigger] occurrences_before(t, g, i) == occurrences(t, g) by {
        lemma_occurrences_tail(t, g, i);
        if i > t.len() {
            assert(i == 0);
        }
    }
    assert(partial_counts(t, n, i) =~= partial_counts(t, n + 1, 0));
}

/// Every n-gram (`1 <= n <= max_order`) of the whitespace-separated tokens of
/// `line`, with its number of occurrences, and the number of tokens.
pub fn extract_all_word_ngrams(line: &str, max_order: usize) -> (res: (NgramCounts, usize))
    ensures
        res.0.view() == ngram_counts(words(line@), max_order as nat),
        res.1 == words(line@).len(),
{
    let chars = chars_of(line);
    let tokens = split_words(&chars);
    let (counts, len) = count_ngrams(&tokens, max_order);
    (counts, len)
}

/// Every n-gram (`1 <= n <= max_order`) of `tokens` with its number of
/// occurrences, and the number of tokens.
pub fn count_ngrams(tokens: &Vec<Vec<char>>, max_order: usize) -> (res: (NgramCounts, usize))
    ensures
        res.0.view() == ngram_counts(texts(tokens@), max_order as nat),
        res.1 == tokens@.len(),
{
    let ghost t = texts(tokens@);
    let mut counts = NgramCounts::new();
    assert(counts.view() =~= partial_counts(t, 1, 0));
    let mut done: usize = 0;
    while done < max_order
        invariant
            done <= max_order,
            t == texts(tokens@),
            counts.view() == partial_counts(t, done + 1, 0),
        decreases max_order - done,
    {
        let order = done + 1;
        let mut i: usize = 0;
        if order <= tokens.len() {
            let last = tokens.len() - order;
            assert(last < usize::MAX);
            while i <= last
                invariant
                    i <= last + 1,
                    1 <= order,
                    last < usize::MAX,
                    last + order == tokens@.len(),
                    t == texts(tokens@),
                    counts.view() == partial_counts(t, order as int, i as int),
                decreases last + 1 - i,
            {
                proof {
                    let g0 = ngram_at(t, i as int, order as int);
                    assert(count_of(counts.view(), g0) == occurrences_before(t, g0, i as int));
                    lemma_occurrences_bound(t, g0, i as int);
                    lemma_partial_step(t, order as int, i as int);
                }
                counts.add_one_at(tokens, i, order);
                i = i + 1;
            }
        }
        proof {
            lemma_partial_order_done(t, order as int, i as int);
        }
        done = order;
    }
    assert(counts.view() =~= ngram_counts(t, max_order as nat));
    (counts, tokens.len())
}

impl NgramCounts {
    /// Raises the count of the n-gram `texts(key)` to at least `c`; an absent
    /// n-gram is added with count `c`.
    fn raise_to(&mut self, key: &Vec<Vec<char>>, c: usize)
        requires
        ensures
            final(self).view() == old(self).view().insert(
                texts(key@),
                if count_of(old(self).view(), texts(key@)) >= c {
                    count_of(old(self).view(), texts(key@))
                } else {
                    c as nat
                },
            ),
    {
        proof {
            use_type_invariant(&*self);
        }
        assert(ngram_at(texts(key@), 0, key@.len() as int) =~= texts(key@));
        match self.find_at(key, 0, key.len()) {
            Some(j) => {
                proof {
                    self.lemma_entry(j as int);
                }
                let cur = self.counts[j];
                let v = if cur >= c { cur } else { c };
                self.set_count(j, v);
            },
            None => {
                let copy = copy_ngram(key, 0, key.len());
                self.push_entry(copy, c);
            },
        }
    }
}

/// The larger of two counts.
pub open spec fn max_nat(a: nat, b: nat) -> nat {
    if a >= b {
        a
    } else {
        b
    }
}

/// Entry-wise maximum of two count maps (a missing n-gram counts 0).
pub open spec fn merge_max(a: Map<Seq<Seq<char>>, nat>, b: Map<Seq<Seq<char>>, nat>) -> Map<Seq<Seq<char>>, nat> {
    Map::new(
        |g: Seq<Seq<char>>| a.contains_key(g) || b.contains_key(g),
        |g: Seq<Seq<char>>| max_nat(count_of(a, g), count_of(b, g)),
    )
}

/// The largest number of times `g` occurs in any one of `rs` (0 for no references).
pub open spec fn max_occurrences(rs: Seq<Seq<Seq<char>>>, g: Seq<Seq<char>>) -> nat
    decreases rs.len(),
{
    if rs.len() == 0 {
        0
    } else {
        max_nat(max_occurrences(rs.drop_last(), g), occurrences(rs.last(), g))
    }
}

/// Every n-gram (`1 <= n <= max_order`) of any of the token sequences `rs`, mapped
/// to the largest number of times it occurs in one of them.
pub open spec fn max_ngram_counts(rs: Seq<Seq<Seq<char>>>, max_order: nat) -> Map<Seq<Seq<char>>, nat> {
    Map::new(
        |g: Seq<Seq<char>>| 1 <= g.len() <= max_order && max_occurrences(rs, g) > 0,
        |g: Seq<Seq<char>>| max_occurrences(rs, g),
    )
}

/// The token sequences of several lines.
pub open spec fn words_of_lines(lines: Seq<String>) -> Seq<Seq<Seq<char>>> {
    Seq::new(lines.len(), |i: int| words(lines[i]@))
}

/// The token counts of several lines.
pub open spec fn word_counts(lines: Seq<String>) -> Seq<usize> {
    Seq::new(lines.len(), |i: int| words(lines[i]@).len() as usize)
}

/// Adding one reference merges its counts by maximum.
proof fn lemma_max_counts_push(rs: Seq<Seq<Seq<char>>>, r: Seq<Seq<char>>, max_order: nat)
    ensures
        merge_max(max_ngram_counts(rs, max_order), ngram_counts(r, max_order)) == max_ngram_counts(
            rs.push(r),
            max_order,
        ),
{
    assert forall|g: Seq<Seq<char>>| #[trigger] max_occurrences(rs.push(r), g) == max_nat(max_occurrences(rs, g), occurrences(r, g)) by {
        assert(rs.push(r).drop_last() =~= rs);
    }
    assert(merge_max(max_ngram_counts(rs, max_order), ngram_counts(r, max_order)) =~= max_ngram_counts(
        rs.push(r),
        max_order,
    ));
}

/// The references of one segment: the maximum count of each of their n-grams over
/// all references, and the token count of each reference.
pub struct RefInfo {
    ngrams: NgramCounts,
    lens: Vec<usize>,
}

impl RefInfo {
    /// Each reference n-gram mapped to its largest count in one reference.
    pub closed spec fn ngram_view(&self) -> Map<Seq<Seq<char>>, nat> {
        self.ngrams.view()
    }

    /// The token count of each reference.
    pub closed spec fn lens_view(&self) -> Seq<usize> {
        self.lens@
    }

    /// The largest count of `ngram_at(tokens, start, n)` in one reference, 0 if none.
    pub fn max_count_at(&self, tokens: &Vec<Vec<char>>, start: usize, n: usize) -> (res: usize)
        requires
            start + n <= tokens.len(),
        ensures
            res == count_of(self.ngram_view(), ngram_at(texts(tokens@), start as int, n as int)),
    {
        self.ngrams.count_at(tokens, start, n)
    }

    /// The token counts of the references.
    pub fn lens(&self) -> (res: &Vec<usize>)
        ensures
            res@ == self.lens_view(),
    {
        &self.lens
    }
}

/// Gathers, over all references of a segment, the maximum count of every n-gram
/// (`1 <= n <= max_order`) and the token count of each reference.
pub fn extract_reference_info(refs: &[String], max_order: usize) -> (res: RefInfo)
    ensures
        res.ngram_view() == max_ngram_counts(words_of_lines(refs@), max_order as nat),
        res.lens_view() == word_counts(refs@),
{
    let mut ngrams = NgramCounts::new();
    let mut lens: Vec<usize> = Vec::new();
    let mut idx: usize = 0;
    assert(ngrams.view() =~= max_ngram_counts(words_of_lines(refs@).take(0), max_order as nat));
    while idx < refs.len()
        invariant
            idx <= refs.len(),
            ngrams.view() == max_ngram_counts(words_of_lines(refs@).take(idx as int), max_order as nat),
            lens@ == word_counts(refs@).take(idx as int),
        decreases refs.len() - idx,
    {
        let (this, len) = extract_all_word_ngrams(refs[idx].as_str(), max_order);
        lens.push(len);
        let ghost prev = ngrams.view();
        let ghost cur = this.view();
        let mut j: usize = 0;
        while j < this.keys.len()
            invariant
                j <= this.keys@.len(),
                cur == this.view(),
                ngrams.view() == Map::new(
                    |g: Seq<Seq<char>>| prev.contains_key(g) || this.key_seq().take(j as int).contains(g),
                    |g: Seq<Seq<char>>|
                        if this.key_seq().take(j as int).contains(g) {
                            max_nat(count_of(prev, g), cur[g])
                        } else {
                            prev[g]
                        },
                ),
            decreases this.keys@.len() - j,
        {
            proof {
                use_type_invariant(&this);
                this.lemma_entry(j as int);
            }
            let ghost before = ngrams.view();
            ngrams.raise_to(&this.keys[j], this.counts[j]);
            proof {
                let g0 = this.key_seq()[j as int];
                assert(texts(this.keys@[j as int]@) == g0);
                let done = this.key_seq().take(j as int);
                let done2 = this.key_seq().take(j + 1);
                assert forall|g: Seq<Seq<char>>| #[trigger] done2.contains(g) <==> (done.contains(g) || g == g0) by {
                    if done2.contains(g) {
                        let k = choose|k: int| 0 <= k < done2.len() && done2[k] == g;
                        if k < j {
                            assert(done[k] == g);
                        }
                    }
                    if done.contains(g) {
                        let k = choose|k: int| 0 <= k < done.len() && done[k] == g;
                        assert(done2[k] == g);
                    }
                    if g == g0 {
                        assert(done2[j as int] == g);
                    }
                }
                assert(!done.contains(g0)) by {
                    if done.contains(g0) {
                        let k = choose|k: int| 0 <= k < done.len() && done[k] == g0;
                        assert(this.key_seq()[k] == g0);
                    }
                }
                assert(ngrams.view() =~= Map::new(
                    |g: Seq<Seq<char>>| prev.contains_key(g) || done2.contains(g),
                    |g: Seq<Seq<char>>|
                        if done2.contains(g) {
                            max_nat(count_of(prev, g), cur[g])
                        } else {
                            prev[g]
                        },
                ));
            }
            j = j + 1;
        }
        proof {
            assert forall|g: Seq<Seq<char>>| #[trigger] cur.contains_key(g) implies this.key_seq().take(j as int).contains(g) by {
                assert(this.key_seq().take(j as int) =~= this.key_seq());
            }
            assert(ngrams.view() =~= merge_max(prev, cur));
            let ws = words_of_lines(refs@);
            assert(ws.take(idx + 1) =~= ws.take(idx as int).push(words(refs@[idx as int]@)));
            lemma_max_counts_push(ws.take(idx as int), words(refs@[idx as int]@), max_order as nat);
            assert(lens@ =~= word_counts(refs@).take(idx + 1));
        }
        idx = idx + 1;
    }
    assert(words_of_lines(refs@).take(idx as int) =~= words_of_lines(refs@));
    assert(word_counts(refs@).take(idx as int) =~= word_counts(refs@));
    RefInfo { ngrams, lens }
}

} // verus!
