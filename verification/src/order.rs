//! Ordering undecided cells by entropy: `itertools`' stable sort behind a contract, and
//! what its first item is.

use crate::utils::ArrayPos;
use itertools::Itertools;
use std::cmp::Ordering;
use vstd::prelude::*;

verus! {

/// `sorted` holds the items of `items` in ascending order of entropy, those of equal
/// entropy in the order in which they stand in `items`: `sorted[i]` is `items[from[i]]`.
pub open spec fn sorts_stably(
    items: Seq<(ArrayPos, usize)>,
    sorted: Seq<(ArrayPos, usize)>,
    from: Seq<int>,
) -> bool {
    &&& sorted.len() == items.len()
    &&& from.len() == items.len()
    &&& from.no_duplicates()
    &&& forall|i: int|
        0 <= i < from.len() ==> 0 <= #[trigger] from[i] < items.len() && sorted[i] == items[from[i]]
    &&& forall|i: int, j: int|
        0 <= i < j < sorted.len() ==> (#[trigger] sorted[i]).1 <= (#[trigger] sorted[j]).1
    &&& forall|i: int, j: int|
        0 <= i < j < from.len() && sorted[i].1 == sorted[j].1 ==> #[trigger] from[i]
            < #[trigger] from[j]
}

/// `sorted` is `items` sorted by entropy, with items of equal entropy left in their order.
pub open spec fn is_stable_sort(items: Seq<(ArrayPos, usize)>, sorted: Seq<(ArrayPos, usize)>) -> bool {
    exists|from: Seq<int>| sorts_stably(items, sorted, from)
}

/// `first` is the place of the first item of least entropy.
pub open spec fn is_first_least(items: Seq<(ArrayPos, usize)>, first: int) -> bool {
    &&& 0 <= first < items.len()
    &&& forall|k: int| 0 <= k < items.len() ==> items[first].1 <= (#[trigger] items[k]).1
    &&& forall|k: int| 0 <= k < first ==> items[first].1 < (#[trigger] items[k]).1
}

/// How two items compare by entropy.
pub open spec fn entropy_order(a: (ArrayPos, usize), b: (ArrayPos, usize)) -> Ordering {
    if a.1 < b.1 {
        Ordering::Less
    } else if a.1 == b.1 {
        Ordering::Equal
    } else {
        Ordering::Greater
    }
}

/// Compares two items by entropy.
pub fn by_entropy(a: &(ArrayPos, usize), b: &(ArrayPos, usize)) -> (order: Ordering)
    ensures
        order == entropy_order(*a, *b),
{
    if a.1 < b.1 {
        Ordering::Less
    } else if a.1 == b.1 {
        Ordering::Equal
    } else {
        Ordering::Greater
    }
}

/// Calls `Itertools::sorted_by` with `by_entropy`. Believed: the result holds the same
/// items in ascending order of entropy, and the sort is stable.
#[verifier::external_body]
pub(crate) fn sorted_by_entropy(items: Vec<(ArrayPos, usize)>) -> (sorted: Vec<(ArrayPos, usize)>)
    ensures
        is_stable_sort(items@, sorted@),
{
    items.into_iter().sorted_by(by_entropy).collect()
}

/// Every place of `items` is the source of some place of the sorted list.
proof fn lemma_every_item_placed(
    items: Seq<(ArrayPos, usize)>,
    sorted: Seq<(ArrayPos, usize)>,
    from: Seq<int>,
    k: int,
) -> (place: int)
    requires
        sorts_stably(items, sorted, from),
        0 <= k < items.len(),
    ensures
        0 <= place < from.len(),
        from[place] == k,
{
    let sources = from.to_set();
    let all = vstd::set_lib::set_int_range(0, items.len() as int);
    from.unique_seq_to_set();
    vstd::set_lib::lemma_int_range(0, items.len() as int);
    assert forall|source: int| sources.contains(source) implies all.contains(source) by {
        let i = choose|i: int| 0 <= i < from.len() && from[i] == source;
        assert(0 <= from[i] < items.len());
    }
    vstd::set_lib::lemma_subset_equality(sources, all);
    assert(all.contains(k));
    assert(from.contains(k));
    choose|place: int| 0 <= place < from.len() && from[place] == k
}

/// A stable sort by entropy puts first the first item of least entropy.
pub proof fn lemma_stable_sort_first(
    items: Seq<(ArrayPos, usize)>,
    sorted: Seq<(ArrayPos, usize)>,
) -> (first: int)
    requires
        is_stable_sort(items, sorted),
        items.len() > 0,
    ensures
        is_first_least(items, first),
        sorted[0] == items[first],
{
    let from = choose|from: Seq<int>| sorts_stably(items, sorted, from);
    let first = from[0];
    assert forall|k: int| 0 <= k < items.len() implies items[first].1 <= (#[trigger] items[k]).1 by {
        let place = lemma_every_item_placed(items, sorted, from, k);
        assert(sorted[place] == items[k]);
        if place > 0 {
            assert(sorted[0].1 <= sorted[place].1);
        }
    }
    assert forall|k: int| 0 <= k < first implies items[first].1 < (#[trigger] items[k]).1 by {
        let place = lemma_every_item_placed(items, sorted, from, k);
        assert(sorted[place] == items[k]);
        assert(place > 0);
        assert(sorted[0].1 <= sorted[place].1);
        if sorted[0].1 == sorted[place].1 {
            assert(from[0] < from[place]);
        }
    }
    first
}

/// At most one place is that of the first item of least entropy.
pub proof fn lemma_first_least_unique(items: Seq<(ArrayPos, usize)>, a: int, b: int)
    requires
        is_first_least(items, a),
        is_first_least(items, b),
    ensures
        a == b,
{
    if a < b {
        assert(items[b].1 < items[a].1);
        assert(items[a].1 <= items[b].1);
    } else if b < a {
        assert(items[a].1 < items[b].1);
        assert(items[b].1 <= items[a].1);
    }
}

} // verus!
