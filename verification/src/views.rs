//! The views of the items of a sequence.

use vstd::prelude::*;

verus! {

/// The views of the items of `items`, in order.
pub open spec fn views<T: View>(items: Seq<T>) -> Seq<T::V> {
    Seq::new(items.len(), |i: int| items[i]@)
}

/// Pushing an item pushes its view.
pub proof fn lemma_views_push<T: View>(items: Seq<T>, item: T)
    ensures
        views(items.push(item)) == views(items).push(item@),
{
}

/// The views of nothing are nothing.
pub proof fn lemma_views_empty<T: View>()
    ensures
        views(Seq::<T>::empty()) == Seq::<T::V>::empty(),
{
}

/// Inserting an item inserts its view.
pub proof fn lemma_views_insert<T: View>(items: Seq<T>, at: int, item: T)
    requires
        0 <= at <= items.len(),
    ensures
        views(items.insert(at, item)) == views(items).insert(at, item@),
{
}

} // verus!
