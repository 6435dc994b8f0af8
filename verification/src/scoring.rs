//! The integer bookkeeping of the BLEU score: add-k smoothing of the counts, the
//! orders that enter the geometric mean, and the effective order.

use vstd::prelude::*;

verus! {

/// The total of order index `i` after add-k smoothing, which adds `k` to every
/// order above the first.
pub open spec fn smoothed_total(total: Seq<i64>, add_k: Option<i64>, i: int) -> int {
    total[i] + (if add_k is Some && i >= 1 {
        add_k->0 as int
    } else {
        0
    })
}

/// Every order index below `i` has a non-zero smoothed total, so scoring reaches index `i`.
pub open spec fn order_reached(total: Seq<i64>, add_k: Option<i64>, i: int) -> bool {
    forall|j: int| 0 <= j < i ==> #[trigger] smoothed_total(total, add_k, j) != 0
}

/// What smoothing adds at order index `i` when the orders below `bound` are smoothed.
pub open spec fn smoothing_added(add_k: Option<i64>, i: int, bound: int) -> int {
    if add_k is Some && 1 <= i < bound {
        add_k->0 as int
    } else {
        0
    }
}

/// The end of the smoothed order indices: scoring smooths up to the order it stops
/// at, and never past the last order.
pub open spec fn smoothed_bound(orders: int, max_order: int) -> int {
    if orders < max_order {
        orders + 1
    } else {
        max_order
    }
}

/// The counts as scoring leaves them: the orders it reached are smoothed, the rest unchanged.
pub struct SmoothedCounts {
    pub correct: Vec<i64>,
    pub total: Vec<i64>,
    /// How many leading orders have a non-zero smoothed total (scoring stops at the first zero).
    pub orders: usize,
    /// The number of orders the geometric mean is taken over.
    pub eff_order: usize,
}

/// Applies add-k smoothing (when `add_k` holds the value) to each order above
/// the first until the first order whose total is zero, which is smoothed too;
/// finds how many leading orders have a non-zero total, and the effective order:
/// that count when `effective_order` is set and it is positive, else `max_order`.
pub fn smoothed_counts(
    correct: Vec<i64>,
    total: Vec<i64>,
    add_k: Option<i64>,
    effective_order: bool,
    max_order: usize,
) -> (res: SmoothedCounts)
    requires
        lengths_cover(correct@.len() as int, total@, add_k, max_order as int),
        smoothing_fits(correct@, total@, add_k, max_order as int),
    ensures
        res.orders <= max_order,
        order_reached(total@, add_k, res.orders as int),
        res.orders < max_order ==> smoothed_total(total@, add_k, res.orders as int) == 0,
        res.eff_order == if effective_order && res.orders > 0 {
            res.orders
        } else {
            max_order
        },
        res.correct@.len() == correct@.len(),
        res.total@.len() == total@.len(),
        forall|i: int|
            0 <= i < correct@.len() ==> #[trigger] res.correct@[i] == correct@[i] + smoothing_added(
                add_k,
                i,
                smoothed_bound(res.orders as int, max_order as int),
            ),
        forall|i: int|
            0 <= i < total@.len() ==> #[trigger] res.total@[i] == total@[i] + smoothing_added(
                add_k,
                i,
                smoothed_bound(res.orders as int, max_order as int),
            ),
        add_k matches Some(k) && k > 0 && (max_order > 0 ==> total@[0] != 0) && (forall|i: int|
            0 <= i < total@.len() ==> #[trigger] total@[i] >= 0) ==> res.orders == max_order,
        correct@.len() > 0 ==> res.correct@[0] == correct@[0],
        total@.len() > 0 ==> res.total@[0] == total@[0],
        add_k is None ==> res.correct@ == correct@ && res.total@ == total@,
        add_k matches Some(k) ==> forall|i: int|
            1 <= i < total@.len() && i <= res.orders && i < max_order ==> #[trigger] res.total@[i] == total@[i] + k,
        add_k matches Some(k) ==> forall|i: int|
            1 <= i < correct@.len() && i <= res.orders && i < max_order ==> #[trigger] res.correct@[i] == correct@[i]
                + k,
        forall|i: int|
            0 <= i < total@.len() && (i > res.orders || i >= max_order) ==> #[trigger] res.total@[i] == total@[i],
        forall|i: int|
            0 <= i < correct@.len() && (i > res.orders || i >= max_order) ==> #[trigger] res.correct@[i]
                == correct@[i],
{
    let mut correct = correct;
    let mut total = total;
    let ghost c0 = correct@;
    let ghost t0 = total@;
    let mut eff_order = max_order;
    let mut n: usize = 0;
    while n < max_order
        invariant_except_break
            n <= max_order,
            smoothing_fits(c0, t0, add_k, max_order as int),
            lengths_cover(c0.len() as int, t0, add_k, max_order as int),
            correct@.len() == c0.len(),
            total@.len() == t0.len(),
            order_reached(t0, add_k, n as int),
            eff_order == if effective_order && n > 0 {
                n
            } else {
                max_order
            },
            forall|i: int| 0 <= i < c0.len() ==> #[trigger] correct@[i] == c0[i] + smoothing_added(add_k, i, n as int),
            forall|i: int| 0 <= i < t0.len() ==> #[trigger] total@[i] == t0[i] + smoothing_added(add_k, i, n as int),
        ensures
            n <= max_order,
            correct@.len() == c0.len(),
            total@.len() == t0.len(),
            order_reached(t0, add_k, n as int),
            n < max_order ==> smoothed_total(t0, add_k, n as int) == 0,
            eff_order == if effective_order && n > 0 {
                n
            } else {
                max_order
            },
            forall|i: int| 0 <= i < c0.len() ==> #[trigger] correct@[i] == c0[i] + smoothing_added(add_k, i, smoothed_bound(n as int, max_order as int)),
            forall|i: int| 0 <= i < t0.len() ==> #[trigger] total@[i] == t0[i] + smoothing_added(add_k, i, smoothed_bound(n as int, max_order as int)),
        decreases max_order - n,
    {
        let ghost cb = correct@;
        let ghost tb = total@;
        assert(order_reached(t0, add_k, n as int));
        if n > 0 {
            if let Some(k) = add_k {
                assert(order_reached(t0, add_k, n as int));
                let c = correct[n];
                let t = total[n];
                correct.set(n, c + k);
                total.set(n, t + k);
            }
        }
        assert forall|i: int| 0 <= i < c0.len() implies #[trigger] correct@[i] == c0[i] + smoothing_added(add_k, i, n + 1) by {
            if i != n {
                assert(correct@[i] == cb[i]);
            }
        }
        assert forall|i: int| 0 <= i < t0.len() implies #[trigger] total@[i] == t0[i] + smoothing_added(add_k, i, n + 1) by {
            if i != n {
                assert(total@[i] == tb[i]);
            }
        }
        assert(total@[n as int] == smoothed_total(t0, add_k, n as int));
        if total[n] == 0 {
            break;
        }
        assert forall|j: int| 0 <= j < n + 1 implies #[trigger] smoothed_total(t0, add_k, j) != 0 by {
            if j < n {
                assert(order_reached(t0, add_k, n as int));
            }
        }
        n = n + 1;
        if effective_order {
            eff_order = n;
        }
    }
    proof {
        lemma_add_k_reaches_every_order(t0, add_k, max_order as int, c0.len() as int, n as int);
    }
    SmoothedCounts { correct, total, orders: n, eff_order }
}

/// With add-k smoothing by a positive `k` and no negative total, no order above
/// the first can stop scoring: every order is reached once the first total is
/// non-zero. So any stopping point `o` that scoring can report is `max_order`.
pub proof fn lemma_add_k_reaches_every_order(
    total: Seq<i64>,
    add_k: Option<i64>,
    max_order: int,
    correct_len: int,
    o: int,
)
    requires
        lengths_cover(correct_len, total, add_k, max_order),
        0 <= o <= max_order,
        order_reached(total, add_k, o),
        o < max_order ==> smoothed_total(total, add_k, o) == 0,
    ensures
        add_k matches Some(k) && k > 0 && (max_order > 0 ==> total[0] != 0) && (forall|i: int|
            0 <= i < total.len() ==> #[trigger] total[i] >= 0) ==> o == max_order,
{
    if add_k matches Some(k) && k > 0 && (max_order > 0 ==> total[0] != 0) && (forall|i: int|
        0 <= i < total.len() ==> #[trigger] total[i] >= 0) {
        if o < max_order {
            assert(o < total.len());
            assert(total[o] >= 0);
        }
    }
}

/// Scoring reads only the order indices it reaches, and each of them exists in
/// both vectors.
pub open spec fn lengths_cover(correct_len: int, total: Seq<i64>, add_k: Option<i64>, max_order: int) -> bool {
    forall|i: int|
        0 <= i < max_order && #[trigger] order_reached(total, add_k, i) ==> i < correct_len && i < total.len()
}

/// Whether every order index that scoring reaches exists in both vectors.
pub fn check_lengths_cover(correct_len: usize, total: &[i64], add_k: Option<i64>, max_order: usize) -> (res: bool)
    ensures
        res == lengths_cover(correct_len as int, total@, add_k, max_order as int),
{
    let mut i: usize = 0;
    while i < max_order
        invariant
            i <= max_order,
            order_reached(total@, add_k, i as int),
            i <= correct_len,
            i <= total@.len(),
        decreases max_order - i,
    {
        if i >= correct_len || i >= total.len() {
            return false;
        }
        let mut zero = total[i] == 0;
        if i >= 1 {
            if let Some(k) = add_k {
                zero = match total[i].checked_add(k) {
                    Some(t) => t == 0,
                    None => false,
                };
            }
        }
        assert(zero == (smoothed_total(total@, add_k, i as int) == 0));
        if zero {
            assert forall|j: int| 0 <= j < max_order && #[trigger] order_reached(total@, add_k, j) implies j
                < correct_len && j < total@.len() by {
                if j > i {
                    assert(smoothed_total(total@, add_k, i as int) == 0);
                }
            }
            return true;
        }
        assert forall|j: int| 0 <= j < i + 1 implies #[trigger] smoothed_total(total@, add_k, j) != 0 by {
            if j < i {
                assert(order_reached(total@, add_k, i as int));
            }
        }
        i = i + 1;
    }
    true
}

/// Smoothing stays within `i64` at every order index that scoring reaches.
pub open spec fn smoothing_fits(correct: Seq<i64>, total: Seq<i64>, add_k: Option<i64>, max_order: int) -> bool {
    forall|i: int|
        1 <= i < max_order && add_k is Some && #[trigger] order_reached(total, add_k, i) ==> {
            &&& i64::MIN <= correct[i] + add_k->0 <= i64::MAX
            &&& i64::MIN <= total[i] + add_k->0 <= i64::MAX
        }
}

/// Whether add-k smoothing stays within `i64` at every order index that scoring reaches.
pub fn check_smoothing_fits(correct: &[i64], total: &[i64], add_k: Option<i64>, max_order: usize) -> (res: bool)
    requires
        lengths_cover(correct@.len() as int, total@, add_k, max_order as int),
    ensures
        res == smoothing_fits(correct@, total@, add_k, max_order as int),
{
    let n = max_order;
    let mut i: usize = 0;
    while i < n
        invariant
            i <= n,
            n == max_order,
            lengths_cover(correct@.len() as int, total@, add_k, max_order as int),
            order_reached(total@, add_k, i as int),
            forall|j: int|
                1 <= j < i && add_k is Some ==> {
                    &&& i64::MIN <= #[trigger] correct@[j] + add_k->0 <= i64::MAX
                    &&& i64::MIN <= total@[j] + add_k->0 <= i64::MAX
                },
        decreases n - i,
    {
        assert(i < correct@.len() && i < total@.len());
        let mut smoothed = total[i];
        if i >= 1 {
            if let Some(k) = add_k {
                match (correct[i].checked_add(k), total[i].checked_add(k)) {
                    (Some(_), Some(t)) => {
                        smoothed = t;
                    },
                    _ => {
                        assert(order_reached(total@, add_k, i as int));
                        return false;
                    },
                }
            }
        }
        assert(smoothed == smoothed_total(total@, add_k, i as int));
        if smoothed == 0 {
            assert forall|j: int|
                1 <= j < n && add_k is Some && #[trigger] order_reached(total@, add_k, j) implies {
                &&& i64::MIN <= correct@[j] + add_k->0 <= i64::MAX
                &&& i64::MIN <= total@[j] + add_k->0 <= i64::MAX
            } by {
                if j > i {
                    assert(smoothed_total(total@, add_k, i as int) == 0);
                }
            }
            return true;
        }
        assert forall|j: int| 0 <= j < i + 1 implies #[trigger] smoothed_total(total@, add_k, j) != 0 by {
            if j < i {
                assert(order_reached(total@, add_k, i as int));
            }
        }
        i = i + 1;
    }
    true
}

/// Whether no n-gram matched at any order.
pub fn no_matches(correct: &[i64]) -> (res: bool)
    ensures
        res == forall|i: int| 0 <= i < correct@.len() ==> correct@[i] == 0,
{
    let mut i: usize = 0;
    while i < correct.len()
        invariant
            i <= correct@.len(),
            forall|j: int| 0 <= j < i ==> correct@[j] == 0,
        decreases correct@.len() - i,
    {
        if correct[i] != 0 {
            return false;
        }
        i = i + 1;
    }
    true
}

} // verus!
