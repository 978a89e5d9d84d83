pub mod compare;
pub mod engine;
pub mod iteratee;
pub mod orderby;
pub mod value;

use vstd::prelude::*;
use crate::engine::stable_sort;
use crate::engine::TotalLe;

verus! {

/// Removes every zero from the input, keeping the order of the rest.
pub fn compact(arr: Vec<i32>) -> (r: Vec<i32>)
    ensures
        r@ == arr@.filter(|x: i32| x != 0),
{
    let mut out: Vec<i32> = Vec::new();
    let mut i: usize = 0;
    while i < arr.len()
        invariant
            i <= arr.len(),
            out@ == arr@.subrange(0, i as int).filter(|x: i32| x != 0),
        decreases arr.len() - i,
    {
        proof {
            let q = arr@.subrange(0, i + 1);
            assert(q.drop_last() =~= arr@.subrange(0, i as int));
            assert(q.last() == arr@[i as int]);
            reveal(Seq::filter);
        }
        if arr[i] != 0 {
            out.push(arr[i]);
        }
        i += 1;
    }
    proof {
        assert(arr@.subrange(0, arr@.len() as int) =~= arr@);
    }
    out
}

/// The numeric ascending order on 32-bit integers.
pub struct NumericOrder;

impl TotalLe<i32> for NumericOrder {
    open spec fn leq(&self, a: i32, b: i32) -> bool {
        a <= b
    }

    proof fn lemma_connected(&self, a: i32, b: i32) {
    }

    fn le(&self, a: &i32, b: &i32) -> (r: bool) {
        *a <= *b
    }

    fn dup(&self, a: &i32) -> (r: i32) {
        *a
    }
}

/// Sorts the vector in place, ascending and stable: a hybrid of insertion
/// sort on short runs and bottom-up merging of adjacent runs.
pub fn sort(arr: &mut Vec<i32>)
    requires
        old(arr).len() <= usize::MAX / 3,
    ensures
        final(arr)@.len() == old(arr)@.len(),
        final(arr)@.to_multiset() == old(arr)@.to_multiset(),
        forall|p: int, q: int|
            0 <= p < q < final(arr)@.len() ==> #[trigger] final(arr)@[p]
                <= #[trigger] final(arr)@[q],
{
    let ord = NumericOrder;
    stable_sort(&ord, arr);
    proof {
        assert(engine::views_of(final(arr)@) =~= final(arr)@);
        assert(engine::views_of(old(arr)@) =~= old(arr)@);
        assert(engine::trans_on(engine::vmul(old(arr)@), engine::rel_of(ord)));
        assert forall|p: int, q: int|
            0 <= p < q < final(arr)@.len() implies #[trigger] final(arr)@[p]
                <= #[trigger] final(arr)@[q] by {
            assert(ord.leq(final(arr)@[p]@, final(arr)@[q]@));
        }
    }
}

/// Sorting a sequence that is already ascending gives it back unchanged:
/// any reordering with the same elements that is ascending is the original.
pub proof fn lemma_sort_noop(s1: Seq<i32>, s2: Seq<i32>)
    requires
        s2.to_multiset() == s1.to_multiset(),
        forall|p: int, q: int| 0 <= p < q < s1.len() ==> #[trigger] s1[p] <= #[trigger] s1[q],
        forall|p: int, q: int| 0 <= p < q < s2.len() ==> #[trigger] s2[p] <= #[trigger] s2[q],
    ensures
        s2 == s1,
{
    let leq = |a: i32, b: i32| a <= b;
    assert(vstd::relations::sorted_by(s1, leq));
    assert(vstd::relations::sorted_by(s2, leq));
    assert(vstd::relations::total_ordering(leq)) by {
        assert(vstd::relations::reflexive(leq));
        assert(vstd::relations::antisymmetric(leq));
        assert(vstd::relations::transitive(leq));
        assert(vstd::relations::strongly_connected(leq));
    }
    vstd::seq_lib::lemma_sorted_unique(s1, s2, leq);
    assert(s2 =~= s1);
}

} // verus!
