use vstd::prelude::*;
use vstd::relations::{sorted_by, total_ordering};
use vstd::seq_lib::{commutative_foldl, group_to_multiset_ensures, lemma_fold_left_permutation};

verus! {

/// Number of elements of `s` that are at most `x`.
pub open spec fn count_le(s: Seq<u64>, x: u64) -> nat
    decreases s.len(),
{
    if s.len() == 0 {
        0
    } else {
        count_le(s.drop_last(), x) + if s.last() <= x { 1nat } else { 0nat }
    }
}

/// The number of elements that makes a strict majority of `n` elements.
pub open spec fn majority(n: nat) -> nat {
    n / 2 + 1
}

/// `x` is one of the elements, and a majority of the elements are at most `x`.
pub open spec fn accepted_by_majority(s: Seq<u64>, x: u64) -> bool {
    s.contains(x) && count_le(s, x) >= majority(s.len())
}

/// `r` is the smallest element of `s` that a majority of `s` has reached.
pub open spec fn is_quorum_match(s: Seq<u64>, r: u64) -> bool {
    &&& accepted_by_majority(s, r)
    &&& forall|x: u64| #[trigger] accepted_by_majority(s, x) ==> r <= x
}

proof fn lemma_count_le_bound(s: Seq<u64>, x: u64)
    ensures
        count_le(s, x) <= s.len(),
    decreases s.len(),
{
    if s.len() > 0 {
        lemma_count_le_bound(s.drop_last(), x);
    }
}

proof fn lemma_count_le_all(s: Seq<u64>, x: u64)
    requires
        forall|k: int| 0 <= k < s.len() ==> s[k] <= x,
    ensures
        count_le(s, x) == s.len(),
    decreases s.len(),
{
    if s.len() > 0 {
        lemma_count_le_all(s.drop_last(), x);
    }
}

proof fn lemma_has_max(s: Seq<u64>) -> (m: int)
    requires
        s.len() > 0,
    ensures
        0 <= m < s.len(),
        forall|k: int| 0 <= k < s.len() ==> s[k] <= s[m],
    decreases s.len(),
{
    if s.len() == 1 {
        0
    } else {
        let m0 = lemma_has_max(s.drop_last());
        assert forall|k: int| 0 <= k < s.len() - 1 implies s[k] <= s[m0] by {
            assert(s[k] == s.drop_last()[k]);
        }
        if s[m0] <= s.last() {
            s.len() - 1
        } else {
            m0
        }
    }
}

/// The smallest index that a majority of the peers has reached.
///
/// For every element the number of elements at most it is counted; of those
/// elements with a majority count, the smallest is returned.
pub fn quorum_match_index(elements: &[u64]) -> (r: u64)
    requires
        elements@.len() > 0,
    ensures
        is_quorum_match(elements@, r),
        r == upper_median(elements@),
{
    let ghost s = elements@;
    let n: usize = elements.len();
    let majority_threshold: usize = n / 2 + 1;
    let mut min_accepted: Option<u64> = None;
    let mut i: usize = 0;
    while i < n
        invariant
            s == elements@,
            n == s.len(),
            majority_threshold == majority(s.len()),
            i <= n,
            match min_accepted {
                None => forall|k: int| 0 <= k < i ==> !accepted_by_majority(s, #[trigger] s[k]),
                Some(m) => {
                    &&& accepted_by_majority(s, m)
                    &&& forall|k: int|
                        0 <= k < i && accepted_by_majority(s, #[trigger] s[k]) ==> m <= s[k]
                },
            },
        decreases n - i,
    {
        let current: u64 = elements[i];
        let mut count_lte: usize = 0;
        let mut j: usize = 0;
        while j < n
            invariant
                s == elements@,
                n == s.len(),
                i < n,
                current == s[i as int],
                j <= n,
                count_lte == count_le(s.take(j as int), current),
                count_lte <= j,
            decreases n - j,
        {
            proof {
                assert(s.take(j + 1).drop_last() =~= s.take(j as int));
                lemma_count_le_bound(s.take(j as int), current);
            }
            if current >= elements[j] {
                count_lte += 1;
            }
            j += 1;
        }
        proof {
            assert(s.take(n as int) =~= s);
        }
        if count_lte >= majority_threshold && (min_accepted.is_none() || current
            < min_accepted.unwrap()) {
            min_accepted = Some(current);
        }
        i += 1;
    }
    match min_accepted {
        Some(m) => {
            assert forall|x: u64| #[trigger] accepted_by_majority(s, x) implies m <= x by {
                let k: int = choose|k: int| 0 <= k < s.len() && s[k] == x;
                assert(accepted_by_majority(s, s[k]));
            }
            proof {
                quorum_match_is_upper_median(s, m);
            }
            m
        },
        None => {
            proof {
                let mx: int = lemma_has_max(s);
                lemma_count_le_all(s, s[mx]);
                assert(accepted_by_majority(s, s[mx]));
                quorum_match_is_upper_median(s, 0);
            }
            0
        },
    }
}

/// The order on `u64` by which the elements are sorted.
pub open spec fn u64_order() -> spec_fn(u64, u64) -> bool {
    |a: u64, b: u64| a <= b
}

/// The element at position `len / 2` of the elements in ascending order.
pub open spec fn upper_median(s: Seq<u64>) -> u64 {
    s.sort_by(u64_order())[(s.len() / 2) as int]
}

/// One counting step of `count_le`, in the form that `fold_left` takes.
pub open spec fn count_le_step(x: u64) -> spec_fn(nat, u64) -> nat {
    |acc: nat, y: u64| if y <= x { acc + 1 } else { acc }
}

proof fn lemma_count_le_fold(s: Seq<u64>, x: u64)
    ensures
        count_le(s, x) == s.fold_left(0nat, count_le_step(x)),
    decreases s.len(),
{
    if s.len() > 0 {
        lemma_count_le_fold(s.drop_last(), x);
    }
}

proof fn lemma_count_le_permutation(s: Seq<u64>, t: Seq<u64>, x: u64)
    requires
        s.to_multiset() == t.to_multiset(),
    ensures
        count_le(s, x) == count_le(t, x),
{
    let f = count_le_step(x);
    assert(commutative_foldl(f));
    lemma_fold_left_permutation(s, t, f, 0nat);
    lemma_count_le_fold(s, x);
    lemma_count_le_fold(t, x);
}

proof fn lemma_count_le_prefix_below(s: Seq<u64>, x: u64, p: int)
    requires
        0 <= p <= s.len(),
        forall|k: int| 0 <= k < p ==> s[k] <= x,
    ensures
        count_le(s, x) >= p,
    decreases s.len(),
{
    if s.len() > p {
        lemma_count_le_prefix_below(s.drop_last(), x, p);
    } else {
        lemma_count_le_all(s, x);
    }
}

proof fn lemma_count_le_suffix_above(s: Seq<u64>, x: u64, p: int)
    requires
        0 <= p <= s.len(),
        forall|k: int| p <= k < s.len() ==> s[k] > x,
    ensures
        count_le(s, x) <= p,
    decreases s.len(),
{
    if s.len() > p {
        lemma_count_le_suffix_above(s.drop_last(), x, p);
    } else {
        lemma_count_le_bound(s, x);
    }
}

/// The index that a majority has reached is the upper median of the
/// elements: the element at position `len / 2` once they are sorted.
pub proof fn quorum_match_is_upper_median(s: Seq<u64>, r: u64)
    requires
        s.len() > 0,
        is_quorum_match(s, r),
    ensures
        r == upper_median(s),
{
    broadcast use group_to_multiset_ensures;

    let leq = u64_order();
    assert(total_ordering(leq));
    s.lemma_sort_by_ensures(leq);
    let t = s.sort_by(leq);
    assert(t.len() == s.to_multiset().len());
    let h: int = (s.len() / 2) as int;
    let m: u64 = t[h];
    assert(sorted_by(t, leq));
    assert forall|k: int| 0 <= k < h + 1 implies t[k] <= m by {
        if k < h {
            assert(leq(t[k], t[h]));
        }
    }
    lemma_count_le_prefix_below(t, m, h + 1);
    lemma_count_le_permutation(s, t, m);
    assert(t.contains(m));
    assert(t.to_multiset().count(m) > 0);
    assert(s.contains(m));
    assert(accepted_by_majority(s, m));
    if r < m {
        assert forall|k: int| h <= k < t.len() implies t[k] > r by {
            if k > h {
                assert(leq(t[h], t[k]));
            }
        }
        lemma_count_le_suffix_above(t, r, h);
        lemma_count_le_permutation(s, t, r);
        assert(false);
    }
}

} // verus!
