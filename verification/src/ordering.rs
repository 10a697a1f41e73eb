//! A stable sort for values that have a total preorder.

use vstd::prelude::*;

verus! {

/// Values that can be brought into order.
pub trait Ranked: Sized {
    spec fn le(self, other: Self) -> bool;

    proof fn le_total(first: Self, second: Self)
        ensures
            first.le(second) || second.le(first),
    ;

    proof fn le_transitive(first: Self, second: Self, third: Self)
        requires
            first.le(second),
            second.le(third),
        ensures
            first.le(third),
    ;

    fn not_after(&self, other: &Self) -> (le: bool)
        ensures
            le == self.le(*other),
    ;
}

/// `sorted` with `item` behind everything that may stand before it.
pub open spec fn sorted_insert<T: Ranked>(sorted: Seq<T>, item: T) -> Seq<T>
    decreases sorted.len(),
{
    if sorted.len() == 0 {
        seq![item]
    } else if sorted.last().le(item) {
        sorted.push(item)
    } else {
        sorted_insert(sorted.drop_last(), item).push(sorted.last())
    }
}

/// The items in order. Those that rank alike keep the order they had.
pub open spec fn stable_sorted<T: Ranked>(items: Seq<T>) -> Seq<T>
    decreases items.len(),
{
    if items.len() == 0 {
        Seq::empty()
    } else {
        sorted_insert(stable_sorted(items.drop_last()), items.last())
    }
}

pub open spec fn in_order<T: Ranked>(items: Seq<T>) -> bool {
    forall|i: int, j: int|
        #![trigger items[i], items[j]]
        0 <= i < j < items.len() ==> items[i].le(items[j])
}

proof fn lemma_insert_position<T: Ranked>(sorted: Seq<T>, item: T, at: int)
    requires
        0 <= at <= sorted.len(),
        at > 0 ==> sorted[at - 1].le(item),
        forall|i: int| at <= i < sorted.len() ==> !(#[trigger] sorted[i]).le(item),
    ensures
        sorted_insert(sorted, item) == sorted.insert(at, item),
    decreases sorted.len(),
{
    if sorted.len() == 0 {
        assert(sorted.insert(at, item) =~= seq![item]);
    } else if at == sorted.len() {
        assert(sorted.insert(at, item) =~= sorted.push(item));
    } else {
        assert(!sorted[sorted.len() - 1].le(item));
        let rest = sorted.drop_last();
        assert forall|i: int| at <= i < rest.len() implies !(#[trigger] rest[i]).le(item) by {
            assert(rest[i] == sorted[i]);
        }
        if at > 0 {
            assert(rest[at - 1] == sorted[at - 1]);
        }
        lemma_insert_position(rest, item, at);
        assert(sorted.insert(at, item) =~= rest.insert(at, item).push(sorted.last()));
    }
}

proof fn lemma_insert_in_order<T: Ranked>(sorted: Seq<T>, item: T)
    requires
        in_order(sorted),
    ensures
        in_order(sorted_insert(sorted, item)),
        sorted_insert(sorted, item).to_multiset() == sorted.to_multiset().insert(item),
        sorted_insert(sorted, item).len() == sorted.len() + 1,
        forall|bound: T|
            (forall|i: int| 0 <= i < sorted.len() ==> (#[trigger] sorted[i]).le(bound))
                && #[trigger] item.le(bound) ==> forall|i: int|
                0 <= i < sorted_insert(sorted, item).len() ==> (#[trigger] sorted_insert(
                    sorted,
                    item,
                )[i]).le(bound),
    decreases sorted.len(),
{
    broadcast use vstd::seq_lib::group_to_multiset_ensures;

    if sorted.len() == 0 {
        assert(sorted =~= Seq::empty());
        assert(seq![item] =~= Seq::empty().push(item));
    } else if sorted.last().le(item) {
        let result = sorted.push(item);
        assert forall|i: int, j: int|
            #![trigger result[i], result[j]]
            0 <= i < j < result.len() implies result[i].le(result[j]) by {
            if j == sorted.len() && i < sorted.len() - 1 {
                assert(sorted[i].le(sorted[sorted.len() - 1]));
                T::le_transitive(sorted[i], sorted.last(), item);
            }
        }
    } else {
        let rest = sorted.drop_last();
        let last = sorted.last();
        assert forall|i: int, j: int|
            #![trigger rest[i], rest[j]]
            0 <= i < j < rest.len() implies rest[i].le(rest[j]) by {
            assert(sorted[i].le(sorted[j]));
        }
        lemma_insert_in_order(rest, item);
        T::le_total(item, last);
        assert forall|i: int| 0 <= i < rest.len() implies (#[trigger] rest[i]).le(last) by {
            assert(sorted[i].le(sorted[sorted.len() - 1]));
        }
        let result = sorted_insert(rest, item).push(last);
        assert forall|i: int, j: int|
            #![trigger result[i], result[j]]
            0 <= i < j < result.len() implies result[i].le(result[j]) by {
            if j < result.len() - 1 {
                assert(sorted_insert(rest, item)[i].le(sorted_insert(rest, item)[j]));
            }
        }
        assert(sorted =~= rest.push(last));
        assert(result.to_multiset() =~= sorted.to_multiset().insert(item));
        assert forall|bound: T|
            (forall|i: int| 0 <= i < sorted.len() ==> (#[trigger] sorted[i]).le(bound))
                && #[trigger] item.le(bound) implies forall|i: int|
            0 <= i < sorted_insert(sorted, item).len() ==> (#[trigger] sorted_insert(
                sorted,
                item,
            )[i]).le(bound) by {
            assert forall|i: int| 0 <= i < rest.len() implies (#[trigger] rest[i]).le(bound) by {
                assert(rest[i] == sorted[i]);
            }
            assert(sorted[sorted.len() - 1].le(bound));
        }
    }
}

/// Sorting leaves the items in order, and neither adds one nor loses one.
pub proof fn lemma_sorted<T: Ranked>(items: Seq<T>)
    ensures
        in_order(stable_sorted(items)),
        stable_sorted(items).to_multiset() == items.to_multiset(),
        stable_sorted(items).len() == items.len(),
    decreases items.len(),
{
    broadcast use vstd::seq_lib::group_to_multiset_ensures;

    if items.len() > 0 {
        let rest = items.drop_last();
        lemma_sorted(rest);
        lemma_insert_in_order(stable_sorted(rest), items.last());
        assert(items =~= rest.push(items.last()));
    }
}

/// What stands in the sorted items stood in the items, and the other way round.
pub proof fn lemma_sorted_contains<T: Ranked>(items: Seq<T>, item: T)
    ensures
        stable_sorted(items).contains(item) == items.contains(item),
{
    broadcast use vstd::seq_lib::group_to_multiset_ensures;

    lemma_sorted(items);
    assert(stable_sorted(items).to_multiset().count(item) == items.to_multiset().count(item));
}

/// Brings items into order.
pub fn sort<T: Ranked>(items: Vec<T>) -> (sorted: Vec<T>)
    ensures
        sorted@ == stable_sorted(items@),
{
    let ghost all = items@;
    let mut remaining = items;
    let mut sorted: Vec<T> = Vec::new();
    let mut reversed: Vec<T> = Vec::new();
    assert(all.subrange(0, all.len() as int) =~= all);
    while remaining.len() > 0
        invariant
            remaining@.len() <= all.len(),
            remaining@ == all.subrange(0, remaining@.len() as int),
            reversed@ == all.subrange(remaining@.len() as int, all.len() as int).reverse(),
        decreases remaining@.len(),
    {
        let item = remaining.pop().unwrap();
        reversed.push(item);
        assert(remaining@ =~= all.subrange(0, remaining@.len() as int));
        assert(reversed@ =~= all.subrange(remaining@.len() as int, all.len() as int).reverse());
    }
    assert(all.subrange(0, 0) =~= Seq::<T>::empty());
    while reversed.len() > 0
        invariant
            reversed@.len() <= all.len(),
            reversed@ == all.subrange(all.len() - reversed@.len(), all.len() as int).reverse(),
            sorted@ == stable_sorted(all.subrange(0, all.len() - reversed@.len())),
        decreases reversed@.len(),
    {
        let item = reversed.pop().unwrap();
        let ghost done = all.len() - reversed@.len();
        let ghost before = sorted@;
        let mut at: usize = sorted.len();
        while at > 0 && !sorted[at - 1].not_after(&item)
            invariant
                at <= sorted@.len(),
                sorted@ == before,
                forall|i: int| at <= i < sorted@.len() ==> !(#[trigger] sorted@[i]).le(item),
            decreases at,
        {
            at -= 1;
        }
        proof {
            lemma_insert_position(before, item, at as int);
        }
        sorted.insert(at, item);
        proof {
            let prefix = all.subrange(0, done);
            assert(prefix.drop_last() =~= all.subrange(0, done - 1));
            assert(prefix.last() == item);
            assert(reversed@ =~= all.subrange(
                all.len() - reversed@.len(),
                all.len() as int,
            ).reverse());
        }
    }
    assert(all.subrange(0, all.len() as int) =~= all);
    sorted
}

} // verus!
