//! Helpers relating executable collections to their mathematical views:
//! the element-wise view of a sequence, and how it moves through the
//! operations the extraction pass performs.

use vstd::prelude::*;

verus! {

/// The element-wise views of a sequence of values.
pub open spec fn views_of<T: DeepView>(s: Seq<T>) -> Seq<T::V> {
    Seq::new(s.len(), |i: int| s[i].deep_view())
}

/// The element-wise views of an optional vector, `None` staying `None`.
pub open spec fn opt_views<T: DeepView>(o: Option<Vec<T>>) -> Option<Seq<T::V>> {
    match o {
        Some(v) => Some(views_of(v@)),
        None => None,
    }
}

pub proof fn lemma_views_of_push<T: DeepView>(s: Seq<T>, x: T)
    ensures
        views_of(s.push(x)) =~= views_of(s).push(x.deep_view()),
{
}

pub proof fn lemma_views_of_concat<T: DeepView>(a: Seq<T>, b: Seq<T>)
    ensures
        views_of(a + b) =~= views_of(a) + views_of(b),
{
}

pub proof fn lemma_views_of_subrange<T: DeepView>(s: Seq<T>, i: int, j: int)
    requires
        0 <= i <= j <= s.len(),
    ensures
        views_of(s.subrange(i, j)) =~= views_of(s).subrange(i, j),
{
}

pub proof fn lemma_views_of_insert<T: DeepView>(s: Seq<T>, i: int, x: T)
    requires
        0 <= i <= s.len(),
    ensures
        views_of(s.insert(i, x)) =~= views_of(s).insert(i, x.deep_view()),
{
}

} // verus!
