//! The order in which patches run: by ascending priority, ties kept in the order
//! in which the patches were loaded.
use vstd::prelude::*;

verus! {

/// `a` runs before `b`: a lower priority, or the same one and an earlier place.
pub open spec fn runs_before(prio: Seq<i32>, a: int, b: int) -> bool {
    prio[a] < prio[b] || (prio[a] == prio[b] && a < b)
}

/// `r` lists places of `prio` in the order in which they run: each place once.
pub open spec fn run_order(prio: Seq<i32>, r: Seq<usize>) -> bool {
    &&& r.len() == prio.len()
    &&& forall|k: int| 0 <= k < r.len() ==> #[trigger] r[k] < prio.len()
    &&& forall|k: int, l: int| 0 <= k < l < r.len() ==> runs_before(prio, #[trigger] r[k] as int, #[trigger] r[l] as int)
}

/// The places of `prio` sorted by priority, equal priorities in their given order.
pub fn stable_order(prio: &Vec<i32>) -> (r: Vec<usize>)
    ensures
        run_order(prio@, r@),
{
    let mut r: Vec<usize> = Vec::new();
    let mut j: usize = 0;
    while j < prio.len()
        invariant
            j <= prio.len(),
            r.len() == j,
            forall|k: int| 0 <= k < r.len() ==> #[trigger] r[k] < j,
            forall|k: int, l: int| 0 <= k < l < r.len() ==> runs_before(prio@, #[trigger] r[k] as int, #[trigger] r[l] as int),
        decreases prio.len() - j,
    {
        let mut m = r.len();
        while m > 0 && prio[r[m - 1]] > prio[j]
            invariant
                m <= r.len(),
                r.len() == j,
                j < prio.len(),
                forall|k: int| 0 <= k < r.len() ==> #[trigger] r[k] < j,
                forall|k: int| m <= k < r.len() ==> prio@[#[trigger] r[k] as int] > prio@[j as int],
            decreases m,
        {
            m -= 1;
        }
        let ghost old_r = r@;
        proof {
            assert forall|k: int| 0 <= k < m implies prio@[#[trigger] old_r[k] as int] <= prio@[j as int] by {
                if m > 0 {
                    assert(prio@[old_r[m - 1] as int] <= prio@[j as int]);
                    if k < m - 1 {
                        assert(runs_before(prio@, old_r[k] as int, old_r[m - 1] as int));
                    }
                }
            }
        }
        r.insert(m, j);
        proof {
            assert forall|k: int, l: int| 0 <= k < l < r.len() implies runs_before(prio@, #[trigger] r[k] as int, #[trigger] r[l] as int) by {
                if l < m {
                    assert(r[k] == old_r[k] && r[l] == old_r[l]);
                } else if l == m {
                    assert(r[k] == old_r[k]);
                } else if k < m {
                    assert(r[k] == old_r[k] && r[l] == old_r[l - 1]);
                } else if k == m {
                    assert(r[l] == old_r[l - 1]);
                } else {
                    assert(r[k] == old_r[k - 1] && r[l] == old_r[l - 1]);
                }
            }
            assert forall|k: int| 0 <= k < r.len() implies #[trigger] r[k] < j + 1 by {
                if k < m {
                    assert(r[k] == old_r[k]);
                } else if k > m {
                    assert(r[k] == old_r[k - 1]);
                }
            }
        }
        j += 1;
    }
    r
}

/// When all priorities are equal, patches run in the order in which they were loaded.
pub proof fn lemma_ties_keep_load_order(prio: Seq<i32>, r: Seq<usize>)
    requires
        run_order(prio, r),
        forall|a: int, b: int| 0 <= a < prio.len() && 0 <= b < prio.len() ==> prio[a] == prio[b],
    ensures
        forall|k: int| 0 <= k < r.len() ==> #[trigger] r[k] == k,
{
    assert forall|k: int| 0 <= k < r.len() implies r[k] >= k by {
        lemma_order_lower(prio, r, k);
    }
    assert forall|k: int| 0 <= k < r.len() implies #[trigger] r[k] == k by {
        lemma_order_lower(prio, r, k);
        lemma_order_top(prio, r, k);
    }
}

proof fn lemma_order_lower(prio: Seq<i32>, r: Seq<usize>, k: int)
    requires
        run_order(prio, r),
        forall|a: int, b: int| 0 <= a < prio.len() && 0 <= b < prio.len() ==> prio[a] == prio[b],
        0 <= k < r.len(),
    ensures
        r[k] >= k,
    decreases k,
{
    if k > 0 {
        lemma_order_lower(prio, r, k - 1);
        assert(runs_before(prio, r[k - 1] as int, r[k] as int));
    }
}

proof fn lemma_order_top(prio: Seq<i32>, r: Seq<usize>, k: int)
    requires
        run_order(prio, r),
        forall|a: int, b: int| 0 <= a < prio.len() && 0 <= b < prio.len() ==> prio[a] == prio[b],
        0 <= k < r.len(),
    ensures
        r[k] <= prio.len() - (r.len() - k),
    decreases r.len() - k,
{
    if k < r.len() - 1 {
        lemma_order_top(prio, r, k + 1);
        assert(runs_before(prio, r[k] as int, r[k + 1] as int));
    }
}

} // verus!
