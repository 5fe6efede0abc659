//! Ordering the days' representative instants.
use vstd::prelude::*;
use vstd::relations::{sorted_by, total_ordering};
use vstd::seq_lib::{group_to_multiset_ensures, lemma_sorted_unique, to_multiset_insert};

verus! {

/// Ascending order of epoch seconds.
pub open spec fn ascending() -> spec_fn(u64, u64) -> bool {
    |a: u64, b: u64| a <= b
}

/// A sequence of instants in ascending order.
pub open spec fn sorted_instants(s: Seq<u64>) -> Seq<u64> {
    s.sort_by(ascending())
}

proof fn lemma_ascending_total()
    ensures
        total_ordering(ascending()),
{
}

/// Sorts instants into ascending order.
pub fn sort_instants(values: &Vec<u64>) -> (r: Vec<u64>)
    ensures
        r@ == sorted_instants(values@),
        r@.len() == values@.len(),
{
    broadcast use group_to_multiset_ensures;

    let mut r: Vec<u64> = Vec::new();
    let mut i: usize = 0;
    while i < values.len()
        invariant
            i <= values@.len(),
            sorted_by(r@, ascending()),
            r@.to_multiset() == values@.take(i as int).to_multiset(),
        decreases values@.len() - i,
    {
        let x = values[i];
        let mut p: usize = 0;
        while p < r.len() && r[p] <= x
            invariant
                p <= r@.len(),
                forall|k: int| 0 <= k < p ==> r@[k] <= x,
            decreases r@.len() - p,
        {
            p = p + 1;
        }
        let ghost before = r@;
        r.insert(p, x);
        assert(r@ == before.insert(p as int, x));
        assert forall|a: int, b: int| 0 <= a < b < r@.len() implies #[trigger] (ascending())(r@[a], r@[b]) by {
            if b < p {
            } else if a < p && b == p {
            } else if a == p {
                assert(b - 1 >= p);
                assert(before[b - 1] == r@[b]);
                if p < before.len() {
                    assert((ascending())(before[p as int], before[b - 1]));
                }
            } else if a < p {
                assert((ascending())(before[a], before[b - 1]));
            } else {
                assert((ascending())(before[a - 1], before[b - 1]));
            }
        }
        assert(values@.take(i + 1) == values@.take(i as int).push(x));
        proof {
            to_multiset_insert(before, p as int, x);
            values@.take(i as int).to_multiset_ensures();
        }
        i = i + 1;
    }
    proof {
        assert(values@.take(values@.len() as int) == values@);
        lemma_ascending_total();
        values@.to_multiset_ensures();
        r@.to_multiset_ensures();
        values@.lemma_sort_by_ensures(ascending());
        lemma_sorted_unique(r@, sorted_instants(values@), ascending());
    }
    r
}

} // verus!
