//! Facts about lists.
use vstd::prelude::*;

verus! {

/// Two tests that agree on every entry of a list pick the same entries.
pub proof fn lemma_filter_same<A>(
    list: Seq<A>,
    left: spec_fn(A) -> bool,
    right: spec_fn(A) -> bool,
)
    requires
        forall|k: int| 0 <= k < list.len() ==> left(#[trigger] list[k]) == right(list[k]),
    ensures
        list.filter(left) == list.filter(right),
    decreases list.len(),
{
    reveal(Seq::filter);
    if list.len() > 0 {
        let shorter = list.drop_last();
        assert forall|k: int| 0 <= k < shorter.len() implies left(#[trigger] shorter[k]) == right(
            shorter[k],
        ) by {
            assert(shorter[k] == list[k]);
        }
        lemma_filter_same(shorter, left, right);
        assert(left(list[list.len() - 1]) == right(list[list.len() - 1]));
    } else {
        assert(list.filter(left) =~= list.filter(right));
    }
}

} // verus!
