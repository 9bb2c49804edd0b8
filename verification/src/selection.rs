//! What `Seq::filter` keeps of a sequence, how often, and in what order.

use vstd::prelude::*;
use vstd::seq_lib::to_multiset_build;

verus! {

/// `positions` names, in rising order, places of `all`, and `picked` holds
/// what stands at them.
pub open spec fn is_selection_at<T>(picked: Seq<T>, all: Seq<T>, positions: Seq<int>) -> bool {
    &&& positions.len() == picked.len()
    &&& forall|i: int|
        0 <= i < picked.len() ==> 0 <= #[trigger] positions[i] < all.len() && picked[i]
            == all[positions[i]]
    &&& forall|i: int, j: int|
        0 <= i < j < picked.len() ==> #[trigger] positions[i] < #[trigger] positions[j]
}

/// `picked` is `all` with some entries left out: what it holds, it holds
/// from `all` and in the order of `all`.
pub open spec fn in_order_of<T>(picked: Seq<T>, all: Seq<T>) -> bool {
    exists|positions: Seq<int>| is_selection_at(picked, all, positions)
}

/// What is picked from a sequence is an entry of it.
pub proof fn lemma_picked_are_entries<T>(picked: Seq<T>, all: Seq<T>)
    requires
        in_order_of(picked, all),
    ensures
        forall|i: int| 0 <= i < picked.len() ==> all.contains(#[trigger] picked[i]),
{
    let positions = choose|positions: Seq<int>| is_selection_at(picked, all, positions);
    assert forall|i: int| 0 <= i < picked.len() implies all.contains(#[trigger] picked[i]) by {
        assert(all[positions[i]] == picked[i]);
    }
}

/// A filter leaves what it keeps in the order in which it found it.
pub proof fn lemma_filter_in_order<T>(all: Seq<T>, keep: spec_fn(T) -> bool)
    ensures
        in_order_of(all.filter(keep), all),
    decreases all.len(),
{
    reveal(Seq::filter);
    if all.len() == 0 {
        assert(is_selection_at(all.filter(keep), all, Seq::<int>::empty()));
    } else {
        let front = all.drop_last();
        lemma_filter_in_order(front, keep);
        let positions = choose|positions: Seq<int>|
            is_selection_at(front.filter(keep), front, positions);
        if keep(all.last()) {
            assert(is_selection_at(all.filter(keep), all, positions.push(all.len() - 1)));
        } else {
            assert(is_selection_at(all.filter(keep), all, positions));
        }
    }
}

/// A filter keeps no entry more often than it found it.
pub proof fn lemma_filter_sub_multiset<T>(all: Seq<T>, keep: spec_fn(T) -> bool)
    ensures
        all.filter(keep).to_multiset().subset_of(all.to_multiset()),
    decreases all.len(),
{
    reveal(Seq::filter);
    if all.len() > 0 {
        let front = all.drop_last();
        lemma_filter_sub_multiset(front, keep);
        assert(all =~= front.push(all.last()));
        to_multiset_build(front, all.last());
        to_multiset_build(front.filter(keep), all.last());
    }
}

/// A filter that accepts every entry changes nothing.
pub proof fn lemma_filter_all<T>(all: Seq<T>, keep: spec_fn(T) -> bool)
    requires
        forall|i: int| 0 <= i < all.len() ==> keep(#[trigger] all[i]),
    ensures
        all.filter(keep) == all,
    decreases all.len(),
{
    reveal(Seq::filter);
    if all.len() > 0 {
        lemma_filter_all(all.drop_last(), keep);
        assert(all.drop_last().push(all.last()) =~= all);
    }
}

} // verus!
