//! Views of containers whose items have views.

use vstd::prelude::*;

verus! {

/// The views of the items of `items`, in order.
pub open spec fn views<T: View>(items: Seq<T>) -> Seq<T::V> {
    items.map_values(|item: T| item@)
}

/// The view of what `item` holds, if anything.
pub open spec fn option_view<T: View>(item: Option<T>) -> Option<T::V> {
    match item {
        Some(item) => Some(item@),
        None => None,
    }
}

/// A view of the successful outcome; an error stands for itself.
pub open spec fn result_view<T: View, E>(result: Result<T, E>) -> Result<T::V, E> {
    match result {
        Ok(value) => Ok(value@),
        Err(error) => Err(error),
    }
}

/// There is one view for each item, in its place.
pub proof fn lemma_views<T: View>(items: Seq<T>)
    ensures
        views(items).len() == items.len(),
        forall|i: int| 0 <= i < items.len() ==> #[trigger] views(items)[i] == items[i]@,
{
}

/// The view of an option or a result is there where the option or result holds something, and is
/// the view of that; an error is kept.
pub proof fn lemma_option_and_result_view<T: View, E>(item: T, error: E)
    ensures
        option_view(Some(item)) == Some(item@),
        option_view(None::<T>) is None,
        result_view(Ok::<T, E>(item)) == Ok::<T::V, E>(item@),
        result_view(Err::<T, E>(error)) == Err::<T::V, E>(error),
{
}

} // verus!
