//! What `min` and `max` mean: a left-to-right scan under the items' order,
//! in which the element seen first wins a tie.

use std::cmp::Ordering;
use vstd::prelude::*;
use vstd::std_specs::cmp::PartialOrdSpec;

verus! {

/// Comparing two items of `T` with `<` goes by their models, and is what
/// `partial_cmp_spec` says.
pub open spec fn ordered_by_view<T: DeepView + PartialOrd>() -> bool {
    &&& T::obeys_partial_cmp_spec()
    &&& forall|a: T, b: T, c: T, d: T|
        #![trigger a.partial_cmp_spec(&b), c.partial_cmp_spec(&d)]
        a.deep_view() == c.deep_view() && b.deep_view() == d.deep_view() ==> (a.partial_cmp_spec(&b)
            == Some(Ordering::Less)) == (c.partial_cmp_spec(&d) == Some(Ordering::Less))
}

/// An item with model `a` is strictly less than one with model `b`.
pub open spec fn below<T: DeepView + PartialOrd>(a: T::V, b: T::V) -> bool {
    exists|x: T, y: T|
        x.deep_view() == a && y.deep_view() == b && #[trigger] x.partial_cmp_spec(&y) == Some(
            Ordering::Less,
        )
}

/// The least element of a non-empty `s`; of several that are least, the
/// first.
pub open spec fn least<T: DeepView + PartialOrd>(s: Seq<T::V>) -> T::V
    recommends
        s.len() > 0,
    decreases s.len(),
{
    if s.len() <= 1 {
        s[0]
    } else {
        let m = least::<T>(s.drop_last());
        if below::<T>(s.last(), m) {
            s.last()
        } else {
            m
        }
    }
}

/// The greatest element of a non-empty `s`; of several that are greatest,
/// the first.
pub open spec fn greatest<T: DeepView + PartialOrd>(s: Seq<T::V>) -> T::V
    recommends
        s.len() > 0,
    decreases s.len(),
{
    if s.len() <= 1 {
        s[0]
    } else {
        let m = greatest::<T>(s.drop_last());
        if below::<T>(m, s.last()) {
            s.last()
        } else {
            m
        }
    }
}

/// After `x < y` was computed as `lt`, `lt` is `below` of the two models.
pub proof fn lemma_compared<T: DeepView + PartialOrd>(x: T, y: T, lt: bool)
    requires
        ordered_by_view::<T>(),
        lt <==> x.partial_cmp_spec(&y) == Some(Ordering::Less),
    ensures
        lt == below::<T>(x.deep_view(), y.deep_view()),
{
    if below::<T>(x.deep_view(), y.deep_view()) {
        let (a, b) = choose|a: T, b: T|
            a.deep_view() == x.deep_view() && b.deep_view() == y.deep_view()
                && #[trigger] a.partial_cmp_spec(&b) == Some(Ordering::Less);
        assert((a.partial_cmp_spec(&b) == Some(Ordering::Less)) == (x.partial_cmp_spec(&y) == Some(
            Ordering::Less,
        )));
    }
}

} // verus!
