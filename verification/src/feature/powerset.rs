//! The subsets of a list of names, as `itertools` enumerates them.

use crate::text::texts;
use itertools::Itertools;
use vstd::arithmetic::power2::pow2;
use vstd::prelude::*;

verus! {

/// The items at the positions that `mask` marks, in their order.
pub open spec fn selection(items: Seq<Seq<char>>, mask: Seq<bool>) -> Seq<Seq<char>>
    decreases items.len(),
{
    if items.len() == 0 || mask.len() != items.len() {
        Seq::empty()
    } else if mask.last() {
        selection(items.drop_last(), mask.drop_last()).push(items.last())
    } else {
        selection(items.drop_last(), mask.drop_last())
    }
}

/// `subset` holds some of the `items`, in their order.
pub open spec fn is_selection(items: Seq<Seq<char>>, subset: Seq<Seq<char>>) -> bool {
    exists|mask: Seq<bool>| mask.len() == items.len() && #[trigger] selection(items, mask) == subset
}

/// `subsets` is the powerset of `items`: each entry holds some of the items in
/// their order, each way of picking items is an entry, and there are as many
/// entries as ways of picking.
pub open spec fn enumerates_selections(
    subsets: Seq<Seq<Seq<char>>>,
    items: Seq<Seq<char>>,
) -> bool {
    &&& subsets.len() == pow2(items.len())
    &&& forall|j: int| 0 <= j < subsets.len() ==> is_selection(items, #[trigger] subsets[j])
    &&& forall|mask: Seq<bool>|
        mask.len() == items.len() ==> subsets.contains(#[trigger] selection(items, mask))
}

/// `itertools::Powerset`, the iterator that `Itertools::powerset` returns.
/// Nothing is known of what is inside it.
#[verifier::external_type_specification]
#[verifier::external_body]
#[verifier::reject_recursive_types(I)]
pub struct ExPowerset<I: Iterator>(itertools::Powerset<I>);

/// The subsets that a powerset iterator of `itertools` has yet to yield, in
/// the order in which it yields them. Nothing is proved of it; what is known
/// of it is what `powerset` and `next_subset` claim.
pub uninterp spec fn pending_subsets(
    subsets: itertools::Powerset<std::vec::IntoIter<String>>,
) -> Seq<Seq<Seq<char>>>;

/// `Itertools::powerset` on the given strings. Claimed, not proved: the
/// iterator will yield the powerset of `items` as the documentation of
/// `powerset` describes it, 2^n subsets for n items, each way of picking
/// items once; and each subset keeps the order of `items`, as the
/// combinations do from which `itertools` builds it.
#[verifier::external_body]
pub(crate) fn powerset(items: Vec<String>) -> (subsets: itertools::Powerset<
    std::vec::IntoIter<String>,
>)
    ensures
        enumerates_selections(pending_subsets(subsets), texts(items@)),
{
    items.into_iter().powerset()
}

/// `Iterator::next` of the powerset iterator. Claimed, not proved: it yields
/// the first of the subsets that are left, which then is no longer left, and
/// `None` once none is left, after which nothing changes; the iterator is
/// fused.
#[verifier::external_body]
pub(crate) fn next_subset(subsets: &mut itertools::Powerset<std::vec::IntoIter<String>>) -> (next:
    Option<Vec<String>>)
    ensures
        match next {
            Some(subset) => {
                &&& pending_subsets(*old(subsets)).len() > 0
                &&& texts(subset@) == pending_subsets(*old(subsets))[0]
                &&& pending_subsets(*final(subsets)) == pending_subsets(*old(subsets)).drop_first()
            },
            None => {
                &&& pending_subsets(*old(subsets)).len() == 0
                &&& pending_subsets(*final(subsets)) == pending_subsets(*old(subsets))
            },
        },
{
    subsets.next()
}

/// The mask that marks the positions of `items` whose item is in `subset`.
pub open spec fn mask_of(items: Seq<Seq<char>>, subset: Set<Seq<char>>) -> Seq<bool> {
    Seq::new(items.len(), |i: int| subset.contains(items[i]))
}

/// A selection holds exactly the items at the marked positions.
pub proof fn lemma_selection_members(items: Seq<Seq<char>>, mask: Seq<bool>, x: Seq<char>)
    requires
        mask.len() == items.len(),
    ensures
        selection(items, mask).contains(x) <==> exists|i: int|
            0 <= i < items.len() && mask[i] && #[trigger] items[i] == x,
    decreases items.len(),
{
    if items.len() > 0 {
        let shorter = items.drop_last();
        let shorter_mask = mask.drop_last();
        let rest = selection(shorter, shorter_mask);
        lemma_selection_members(shorter, shorter_mask, x);
        let last = items.len() - 1;
        if selection(items, mask).contains(x) {
            let k = choose|k: int|
                0 <= k < selection(items, mask).len() && selection(items, mask)[k] == x;
            if mask.last() && k == rest.len() {
                assert(mask[last] && items[last] == x);
            } else {
                assert(rest[k] == x);
                assert(rest.contains(x));
                let i = choose|i: int|
                    0 <= i < shorter.len() && shorter_mask[i] && #[trigger] shorter[i] == x;
                assert(mask[i] && items[i] == x);
            }
        }
        if exists|i: int| 0 <= i < items.len() && mask[i] && #[trigger] items[i] == x {
            let i = choose|i: int| 0 <= i < items.len() && mask[i] && #[trigger] items[i] == x;
            if i == last {
                assert(selection(items, mask)[rest.len() as int] == x);
            } else {
                assert(shorter_mask[i] && shorter[i] == x);
                assert(rest.contains(x));
                let k = choose|k: int| 0 <= k < rest.len() && rest[k] == x;
                assert(selection(items, mask)[k] == x);
            }
        }
    }
}

/// Every selection is a subset of the items.
pub proof fn lemma_selection_is_subset(items: Seq<Seq<char>>, mask: Seq<bool>)
    requires
        mask.len() == items.len(),
    ensures
        selection(items, mask).to_set().subset_of(items.to_set()),
{
    assert forall|x: Seq<char>| selection(items, mask).to_set().contains(x) implies items.to_set().contains(
        x,
    ) by {
        lemma_selection_members(items, mask, x);
        let i = choose|i: int| 0 <= i < items.len() && mask[i] && #[trigger] items[i] == x;
        assert(items.contains(x));
    }
}

/// Every subset of the items is the selection that its mask makes.
pub proof fn lemma_subset_is_selection(items: Seq<Seq<char>>, subset: Set<Seq<char>>)
    requires
        subset.subset_of(items.to_set()),
    ensures
        selection(items, mask_of(items, subset)).to_set() == subset,
{
    let mask = mask_of(items, subset);
    assert forall|x: Seq<char>| selection(items, mask).to_set().contains(x) <==> subset.contains(
        x,
    ) by {
        lemma_selection_members(items, mask, x);
        if subset.contains(x) {
            assert(items.to_set().contains(x));
            let i = choose|i: int| 0 <= i < items.len() && items[i] == x;
            assert(mask[i] && items[i] == x);
        }
        if selection(items, mask).contains(x) {
            let i = choose|i: int| 0 <= i < items.len() && mask[i] && #[trigger] items[i] == x;
            assert(subset.contains(items[i]));
        }
    }
    assert(selection(items, mask).to_set() =~= subset);
}

} // verus!
