//! The pull interface that every pipeline stage implements.

use vstd::prelude::*;

verus! {

/// One step of a pipeline: its state and its "pull the next item" behaviour.
///
/// `remaining` is the sequence of models of the items that the stage will
/// still yield, in order. `next` hands out an item whose model is the head of
/// that sequence and leaves the tail.
pub trait Stage {
    type Item: DeepView;

    /// The stage's invariant: what its constructor establishes and `next` keeps.
    spec fn wf(&self) -> bool;

    /// Models of the items still to come.
    spec fn remaining(&self) -> Seq<<Self::Item as DeepView>::V>;

    fn next(&mut self) -> (r: Option<Self::Item>)
        requires
            old(self).wf(),
        ensures
            final(self).wf(),
            match r {
                Some(x) => old(self).remaining().len() > 0 && x.deep_view() == old(
                    self,
                ).remaining()[0] && final(self).remaining() == old(self).remaining().skip(1),
                None => old(self).remaining().len() == 0 && final(self).remaining() == old(
                    self,
                ).remaining(),
            },
    ;
}

/// Values of `T` with the same model are the same value.
pub open spec fn exact_view<T: DeepView>() -> bool {
    forall|a: T, b: T| #[trigger] a.deep_view() == #[trigger] b.deep_view() ==> a == b
}

/// A clone of a value has the model of the value.
pub open spec fn clone_keeps_view<T: DeepView + Clone>() -> bool {
    forall|a: T, b: T| #[trigger] cloned(a, b) ==> a.deep_view() == b.deep_view()
}

} // verus!
