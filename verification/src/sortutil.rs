//! A verified stable ordering on `(key, tag)` pairs.
//!
//! Selection results are ordered by squared distance, pseudo-bulk members by
//! their order value, and cluster identifiers ascending; all three reduce to
//! sorting pairs of a wide integer key and a position tag, with the tag
//! breaking ties so that the order is total and the sorted sequence unique.

use vstd::prelude::*;
use vstd::relations::{sorted_by, total_ordering};
use vstd::seq_lib::lemma_sorted_unique;

verus! {

/// The ordering on pairs: by key, ties broken by tag.
pub open spec fn pair_le(a: (i128, usize), b: (i128, usize)) -> bool {
    a.0 < b.0 || (a.0 == b.0 && a.1 <= b.1)
}

/// The ordering as a first-class function, so that every contract names the
/// same value.
pub open spec fn pair_le_fn() -> spec_fn((i128, usize), (i128, usize)) -> bool {
    |a: (i128, usize), b: (i128, usize)| pair_le(a, b)
}

/// The canonical sorted form of a pair sequence.
pub open spec fn sorted_pairs(s: Seq<(i128, usize)>) -> Seq<(i128, usize)> {
    s.sort_by(pair_le_fn())
}

pub proof fn lemma_pair_le_total()
    ensures
        total_ordering(pair_le_fn()),
{
}

/// Whether `pair_le(a, b)` holds, executably.
fn le_pair(a: (i128, usize), b: (i128, usize)) -> (r: bool)
    ensures
        r == pair_le(a, b),
{
    a.0 < b.0 || (a.0 == b.0 && a.1 <= b.1)
}

/// Sort pairs by key ascending, ties by tag ascending.
pub fn sort_pairs(v: &Vec<(i128, usize)>) -> (r: Vec<(i128, usize)>)
    ensures
        r@ == sorted_pairs(v@),
        r@.len() == v@.len(),
        sorted_by(r@, pair_le_fn()),
        r@.to_multiset() == v@.to_multiset(),
{
    let mut out: Vec<(i128, usize)> = Vec::new();
    proof {
        assert(v@.take(0) =~= Seq::<(i128, usize)>::empty());
        assert(out@.to_multiset() =~= v@.take(0).to_multiset());
    }
    let mut k: usize = 0;
    while k < v.len()
        invariant
            k <= v.len(),
            sorted_by(out@, pair_le_fn()),
            out@.to_multiset() == v@.take(k as int).to_multiset(),
            out@.len() == k,
        decreases v.len() - k,
    {
        let x = v[k];
        let mut idx: usize = 0;
        while idx < out.len() && !le_pair(x, out[idx])
            invariant
                idx <= out.len(),
                forall|j: int| 0 <= j < idx ==> !pair_le(x, out@[j]),
            decreases out.len() - idx,
        {
            idx += 1;
        }
        let ghost prev = out@;
        out.insert(idx, x);
        proof {
            let f = pair_le_fn();
            prev.insert_ensures(idx as int, x);
            assert forall|m: int, n: int| 0 <= m < n < out@.len() implies #[trigger] f(
                out@[m],
                out@[n],
            ) by {
                if n < idx {
                    assert(f(prev[m], prev[n]));
                } else if m > idx {
                    assert(f(prev[m - 1], prev[n - 1]));
                } else if m < idx && n == idx {
                    assert(!pair_le(x, prev[m]));
                } else if m == idx && n > idx {
                    if n - 1 > idx {
                        assert(f(prev[idx as int], prev[n - 1]));
                    }
                    assert(pair_le(x, prev[idx as int]));
                } else if m < idx && n > idx {
                    assert(!pair_le(x, prev[m]));
                    if m < n - 1 {
                        assert(f(prev[m], prev[n - 1]));
                    }
                }
            }
            assert(sorted_by(out@, pair_le_fn()));
            vstd::seq_lib::to_multiset_insert(prev, idx as int, x);
            assert(out@ == prev.insert(idx as int, x));
            vstd::seq_lib::to_multiset_build(v@.take(k as int), v@[k as int]);
            assert(v@.take(k as int).push(v@[k as int]) =~= v@.take(k + 1));
        }
        k += 1;
    }
    proof {
        assert(v@.take(v@.len() as int) =~= v@);
        lemma_pair_le_total();
        v@.lemma_sort_by_ensures(pair_le_fn());
        lemma_sorted_unique(out@, sorted_pairs(v@), pair_le_fn());
    }
    out
}

} // verus!
