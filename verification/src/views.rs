//! Sequences seen through the views of their elements.

use vstd::prelude::*;

verus! {

/// The views of the elements of `s`.
pub open spec fn views<T: View>(s: Seq<T>) -> Seq<T::V> {
    Seq::new(s.len(), |i: int| s[i]@)
}

/// Pushing an element pushes its view.
pub broadcast proof fn lemma_views_push<T: View>(s: Seq<T>, x: T)
    ensures
        #[trigger] views(s.push(x)) == views(s).push(x@),
{
    assert(views(s.push(x)) =~= views(s).push(x@));
}

/// No elements, no views.
pub broadcast proof fn lemma_views_empty<T: View>(s: Seq<T>)
    requires
        s.len() == 0,
    ensures
        #[trigger] views(s) == Seq::<T::V>::empty(),
{
    assert(views(s) =~= Seq::<T::V>::empty());
}

/// One more element adds its view at the end.
pub proof fn lemma_views_take<T: View>(s: Seq<T>, n: int)
    requires
        0 <= n < s.len(),
    ensures
        views(s).take(n + 1) == views(s).take(n).push(s[n]@),
        views(s).take(n + 1).drop_last() == views(s).take(n),
        views(s).take(n + 1).last() == s[n]@,
{
    assert(views(s).take(n + 1) =~= views(s).take(n).push(s[n]@));
    assert(views(s).take(n + 1).drop_last() =~= views(s).take(n));
}

pub broadcast group group_views {
    lemma_views_push,
    lemma_views_empty,
}

} // verus!
