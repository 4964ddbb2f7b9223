//! The pipeline wrapper and its chainable operators.

use crate::function::{
    accepted, can_apply, can_key, can_test, Closure, decides, holding, imaging, key_fn, Keying,
    keying, keys, lemma_closure_applies, lemma_closure_keys, lemma_closure_tests, mapped,
    Mapping, maps, Predicate,
};
use crate::grouping::{
    ChunkIterator, chunks, GroupByCollectIterator, groups, keyed, WindowIterator, windows,
};
use crate::joins::{inner_rows, InnerJoinIterator, left_rows, LeftJoinIterator};
use crate::order::{greatest, least, lemma_compared, ordered_by_view};
use crate::selection::{at_most, DropWhile, Filter, Skip, Take, TakeWhile, Unique};
use crate::seqs::leading;
use crate::source::IntoStage;
use crate::stage::{clone_keeps_view, exact_view, Stage};
use crate::terminal::{
    callable, fails, first_of, foldable, folds_to, last_of, lemma_folds_on, passes, steps,
    Summable, summable, total,
};
use crate::transformation::{Enumerate, Flatten, Mapped, numbered, Zip, zipped};
use std::hash::Hash;
use vstd::prelude::*;
use vstd::std_specs::hash::obeys_key_model;

verus! {

/// A pipeline: one stage, owned, and consumed by every operator.
///
/// The view of a pipeline is the sequence of models of the items it will
/// yield when pulled to its end.
pub struct Flu<S> {
    iter: S,
}

impl<S: Stage> Flu<S> {
    /// The wrapped stage is well formed.
    pub closed spec fn wf(&self) -> bool {
        self.iter.wf()
    }

    /// Models of the items that the pipeline will yield.
    pub closed spec fn view(&self) -> Seq<<S::Item as DeepView>::V> {
        self.iter.remaining()
    }

    /// Wraps a stage.
    pub fn new(iter: S) -> (r: Self)
        requires
            iter.wf(),
        ensures
            r.wf(),
            r@ == iter.remaining(),
    {
        Flu { iter }
    }

    // Selection

    /// Keeps the items of which `predicate` holds.
    pub fn filter<F: Fn(&S::Item) -> bool>(self, predicate: F) -> (r: Flu<Filter<S, Closure<F>>>)
        requires
            self.wf(),
            decides(predicate, self@),
        ensures
            r.wf(),
            r@ == self@.filter(accepted(predicate)),
    {
        proof {
            lemma_closure_tests(predicate, self@);
            assert(holding(Closure(predicate)) =~= accepted(predicate));
        }
        self.filter_by(Closure(predicate))
    }

    /// Keeps the items of which `predicate` holds; `predicate` says itself
    /// what it computes.
    pub fn filter_by<P: Predicate<S::Item>>(self, predicate: P) -> (r: Flu<Filter<S, P>>)
        requires
            self.wf(),
            can_test(predicate, self@),
        ensures
            r.wf(),
            r@ == self@.filter(holding(predicate)),
    {
        Flu { iter: Filter::new(self.iter, predicate) }
    }

    /// Keeps the first `n` items.
    pub fn take(self, n: usize) -> (r: Flu<Take<S>>)
        requires
            self.wf(),
        ensures
            r.wf(),
            r@ == self@.take(at_most(self@, n as int)),
    {
        Flu { iter: Take::new(self.iter, n) }
    }

    /// Drops the first `n` items.
    pub fn skip(self, n: usize) -> (r: Flu<Skip<S>>)
        requires
            self.wf(),
        ensures
            r.wf(),
            r@ == self@.skip(at_most(self@, n as int)),
    {
        Flu { iter: Skip::new(self.iter, n) }
    }

    /// Keeps the items that stand before the first of which `predicate`
    /// does not hold.
    pub fn take_while<F: Fn(&S::Item) -> bool>(self, predicate: F) -> (r: Flu<
        TakeWhile<S, Closure<F>>,
    >)
        requires
            self.wf(),
            decides(predicate, self@),
        ensures
            r.wf(),
            r@ == self@.take(leading(self@, accepted(predicate)) as int),
    {
        proof {
            lemma_closure_tests(predicate, self@);
            assert(holding(Closure(predicate)) =~= accepted(predicate));
        }
        self.take_while_by(Closure(predicate))
    }

    /// Keeps the items that stand before the first of which `predicate`
    /// does not hold; `predicate` says itself what it computes.
    pub fn take_while_by<P: Predicate<S::Item>>(self, predicate: P) -> (r: Flu<TakeWhile<S, P>>)
        requires
            self.wf(),
            can_test(predicate, self@),
        ensures
            r.wf(),
            r@ == self@.take(leading(self@, holding(predicate)) as int),
    {
        Flu { iter: TakeWhile::new(self.iter, predicate) }
    }

    /// Drops the items that stand before the first of which `predicate`
    /// does not hold.
    pub fn drop_while<F: Fn(&S::Item) -> bool>(self, predicate: F) -> (r: Flu<
        DropWhile<S, Closure<F>>,
    >)
        requires
            self.wf(),
            decides(predicate, self@),
        ensures
            r.wf(),
            r@ == self@.skip(leading(self@, accepted(predicate)) as int),
    {
        proof {
            lemma_closure_tests(predicate, self@);
            assert(holding(Closure(predicate)) =~= accepted(predicate));
        }
        self.drop_while_by(Closure(predicate))
    }

    /// Drops the items that stand before the first of which `predicate`
    /// does not hold; `predicate` says itself what it computes.
    pub fn drop_while_by<P: Predicate<S::Item>>(self, predicate: P) -> (r: Flu<DropWhile<S, P>>)
        requires
            self.wf(),
            can_test(predicate, self@),
        ensures
            r.wf(),
            r@ == self@.skip(leading(self@, holding(predicate)) as int),
    {
        Flu { iter: DropWhile::new(self.iter, predicate) }
    }

    /// Keeps the first occurrence of each distinct item.
    pub fn unique(self) -> (r: Flu<Unique<S>>) where S::Item: Eq + Hash + Clone
        requires
            self.wf(),
            obeys_key_model::<S::Item>(),
            exact_view::<S::Item>(),
            clone_keeps_view::<S::Item>(),
        ensures
            r.wf(),
            r@ == self@.remove_duplicates(Seq::empty()),
    {
        Flu { iter: Unique::new(self.iter) }
    }

    // Transformation

    /// Replaces each item by what `f` makes of it.
    pub fn map<F: Fn(S::Item) -> B, B: DeepView>(self, f: F) -> (r: Flu<Mapped<S, Closure<F>>>)
        requires
            self.wf(),
            maps(f, self@),
        ensures
            r.wf(),
            r@ == self@.map_values(mapped(f)),
    {
        proof {
            lemma_closure_applies(f, self@);
            assert(imaging(Closure(f)) =~= mapped(f));
        }
        self.map_by(Closure(f))
    }

    /// Replaces each item by what `f` makes of it; `f` says itself what it
    /// computes.
    pub fn map_by<M: Mapping<S::Item>>(self, f: M) -> (r: Flu<Mapped<S, M>>)
        requires
            self.wf(),
            can_apply(f, self@),
        ensures
            r.wf(),
            r@ == self@.map_values(imaging(f)),
    {
        Flu { iter: Mapped::new(self.iter, f) }
    }

    /// Pairs each item with its position, counted from zero.
    pub fn enumerate(self) -> (r: Flu<Enumerate<S>>)
        requires
            self.wf(),
            self@.len() <= usize::MAX,
        ensures
            r.wf(),
            r@ == numbered(self@, 0),
    {
        Flu { iter: Enumerate::new(self.iter) }
    }

    /// Pairs the items with those of `other`, position by position, as far
    /// as the shorter of the two goes.
    pub fn zip<J: IntoStage>(self, other: J) -> (r: Flu<Zip<S, J::Stage>>)
        requires
            self.wf(),
            other.ready(),
        ensures
            r.wf(),
            r@ == zipped(self@, other.items()),
    {
        Flu { iter: Zip::new(self.iter, other.into_stage()) }
    }

    /// Lays out the items of each vector, one vector after the other.
    pub fn flatten<T: DeepView>(self) -> (r: Flu<Flatten<S, T>>) where S: Stage<Item = Vec<T>>
        requires
            self.wf(),
        ensures
            r.wf(),
            r@ == self@.flatten(),
    {
        Flu { iter: Flatten::new(self.iter) }
    }

    // Grouping

    /// Batches the items into vectors of `n` items; the last one may be
    /// shorter. `n` must be at least 1.
    pub fn chunk(self, n: usize) -> (r: Flu<ChunkIterator<S>>)
        requires
            self.wf(),
            n > 0,
        ensures
            r.wf(),
            r@ == chunks(self@, n as nat),
    {
        Flu { iter: ChunkIterator::new(self.iter, n) }
    }

    /// Every run of `n` consecutive items, as a vector. `n` must be at
    /// least 1.
    pub fn window(self, n: usize) -> (r: Flu<WindowIterator<S>>) where S::Item: Clone
        requires
            self.wf(),
            n > 0,
            clone_keeps_view::<S::Item>(),
        ensures
            r.wf(),
            r@ == windows(self@, n as nat),
    {
        Flu { iter: WindowIterator::new(self.iter, n) }
    }

    /// Groups the items by the key that `key_fn` gives them: one pair of key
    /// and items for each key, in the order in which the keys first occur.
    pub fn group_by<K: Eq + Hash + DeepView, F: Fn(&S::Item) -> K>(self, key_fn: F) -> (r: Flu<
        GroupByCollectIterator<S, Closure<F>>,
    >)
        requires
            self.wf(),
            obeys_key_model::<K>(),
            keys(key_fn, self@),
        ensures
            r.wf(),
            r@ == groups(self@, self::key_fn(key_fn)).map_values(
                |g: (K, Seq<<S::Item as DeepView>::V>)| keyed(g),
            ),
    {
        proof {
            lemma_closure_keys(key_fn, self@);
            assert(keying(Closure(key_fn)) =~= self::key_fn(key_fn));
        }
        self.group_by_key(Closure(key_fn))
    }

    /// Groups the items by the key that `key_fn` gives them, as `group_by`
    /// does; `key_fn` says itself what it computes.
    pub fn group_by_key<F: Keying<S::Item>>(self, key_fn: F) -> (r: Flu<
        GroupByCollectIterator<S, F>,
    >) where F::Key: Eq + Hash + DeepView
        requires
            self.wf(),
            obeys_key_model::<F::Key>(),
            can_key(key_fn, self@),
        ensures
            r.wf(),
            r@ == groups(self@, keying(key_fn)).map_values(
                |g: (F::Key, Seq<<S::Item as DeepView>::V>)| keyed(g),
            ),
    {
        Flu { iter: GroupByCollectIterator::new(self.iter, key_fn) }
    }

    // Joins

    /// Pairs each item with every item of `other` that has the same key.
    pub fn join_inner<J, K, FL, FR>(self, other: J, left_key: FL, right_key: FR) -> (r: Flu<
        InnerJoinIterator<S, <J::Stage as Stage>::Item, Closure<FL>>,
    >) where
        S::Item: Clone,
        J: IntoStage,
        <J::Stage as Stage>::Item: Clone,
        K: Eq + Hash,
        FL: Fn(&S::Item) -> K,
        FR: Fn(&<J::Stage as Stage>::Item) -> K,

        requires
            self.wf(),
            other.ready(),
            obeys_key_model::<K>(),
            clone_keeps_view::<S::Item>(),
            clone_keeps_view::<<J::Stage as Stage>::Item>(),
            keys(left_key, self@),
            keys(right_key, other.items()),
        ensures
            r.wf(),
            r@ == inner_rows(self@, other.items(), key_fn(left_key), key_fn(right_key)),
    {
        proof {
            lemma_closure_keys(left_key, self@);
            lemma_closure_keys(right_key, other.items());
            assert(keying(Closure(left_key)) =~= key_fn(left_key));
            assert(keying(Closure(right_key)) =~= key_fn(right_key));
        }
        self.join_inner_by(other, Closure(left_key), Closure(right_key))
    }

    /// Pairs each item with every item of `other` that has the same key; the
    /// key functions say themselves what they compute.
    pub fn join_inner_by<J, FL, FR>(self, other: J, left_key: FL, right_key: FR) -> (r: Flu<
        InnerJoinIterator<S, <J::Stage as Stage>::Item, FL>,
    >) where
        S::Item: Clone,
        J: IntoStage,
        <J::Stage as Stage>::Item: Clone,
        FL: Keying<S::Item>,
        FL::Key: Eq + Hash,
        FR: Keying<<J::Stage as Stage>::Item, Key = FL::Key>,

        requires
            self.wf(),
            other.ready(),
            obeys_key_model::<FL::Key>(),
            clone_keeps_view::<S::Item>(),
            clone_keeps_view::<<J::Stage as Stage>::Item>(),
            can_key(left_key, self@),
            can_key(right_key, other.items()),
        ensures
            r.wf(),
            r@ == inner_rows(self@, other.items(), keying(left_key), keying(right_key)),
    {
        Flu { iter: InnerJoinIterator::new(self.iter, other.into_stage(), left_key, right_key) }
    }

    /// Pairs each item with every item of `other` that has the same key,
    /// and with no item where `other` has none.
    pub fn join_left<J, K, FL, FR>(self, other: J, left_key: FL, right_key: FR) -> (r: Flu<
        LeftJoinIterator<S, <J::Stage as Stage>::Item, Closure<FL>>,
    >) where
        S::Item: Clone,
        J: IntoStage,
        <J::Stage as Stage>::Item: Clone,
        K: Eq + Hash,
        FL: Fn(&S::Item) -> K,
        FR: Fn(&<J::Stage as Stage>::Item) -> K,

        requires
            self.wf(),
            other.ready(),
            obeys_key_model::<K>(),
            clone_keeps_view::<S::Item>(),
            clone_keeps_view::<<J::Stage as Stage>::Item>(),
            keys(left_key, self@),
            keys(right_key, other.items()),
        ensures
            r.wf(),
            r@ == left_rows(self@, other.items(), key_fn(left_key), key_fn(right_key)),
    {
        proof {
            lemma_closure_keys(left_key, self@);
            lemma_closure_keys(right_key, other.items());
            assert(keying(Closure(left_key)) =~= key_fn(left_key));
            assert(keying(Closure(right_key)) =~= key_fn(right_key));
        }
        self.join_left_by(other, Closure(left_key), Closure(right_key))
    }

    /// Pairs each item with every item of `other` that has the same key,
    /// and with no item where `other` has none; the key functions say
    /// themselves what they compute.
    pub fn join_left_by<J, FL, FR>(self, other: J, left_key: FL, right_key: FR) -> (r: Flu<
        LeftJoinIterator<S, <J::Stage as Stage>::Item, FL>,
    >) where
        S::Item: Clone,
        J: IntoStage,
        <J::Stage as Stage>::Item: Clone,
        FL: Keying<S::Item>,
        FL::Key: Eq + Hash,
        FR: Keying<<J::Stage as Stage>::Item, Key = FL::Key>,

        requires
            self.wf(),
            other.ready(),
            obeys_key_model::<FL::Key>(),
            clone_keeps_view::<S::Item>(),
            clone_keeps_view::<<J::Stage as Stage>::Item>(),
            can_key(left_key, self@),
            can_key(right_key, other.items()),
        ensures
            r.wf(),
            r@ == left_rows(self@, other.items(), keying(left_key), keying(right_key)),
    {
        Flu { iter: LeftJoinIterator::new(self.iter, other.into_stage(), left_key, right_key) }
    }

    // Terminal

    /// Pulls the pipeline to its end and returns the items in order.
    pub fn collect(self) -> (r: Vec<S::Item>)
        requires
            self.wf(),
        ensures
            r.deep_view() == self@,
    {
        self.to_list()
    }

    /// The number of items.
    pub fn count(self) -> (r: usize)
        requires
            self.wf(),
            self@.len() <= usize::MAX,
        ensures
            r == self@.len(),
    {
        let mut iter = self.iter;
        let mut n: usize = 0;
        loop
            invariant
                iter.wf(),
                n + iter.remaining().len() == self@.len(),
                self@.len() <= usize::MAX,
            decreases iter.remaining().len(),
        {
            match iter.next() {
                None => {
                    return n;
                },
                Some(_) => {
                    n += 1;
                },
            }
        }
    }

    /// The sum of the items.
    pub fn sum<A: Summable>(self) -> (r: A) where S: Stage<Item = A>
        requires
            self.wf(),
            summable(self@),
        ensures
            r.value() == total(self@),
    {
        let mut iter = self.iter;
        let mut acc = A::zero();
        let ghost mut done: Seq<A> = Seq::empty();
        proof {
            assert(self@ =~= done + iter.remaining());
        }
        loop
            invariant
                iter.wf(),
                self@ == done + iter.remaining(),
                summable(self@),
                acc.value() == total(done),
            decreases iter.remaining().len(),
        {
            match iter.next() {
                None => {
                    proof {
                        assert(self@ =~= done);
                    }
                    return acc;
                },
                Some(x) => {
                    proof {
                        x.plain();
                        let k = done.len() as int + 1;
                        assert(self@.take(k) =~= done.push(x));
                        assert(done.push(x).drop_last() =~= done);
                        assert(A::holds(total(self@.take(k))));
                    }
                    acc = acc.plus(x);
                    proof {
                        done = done.push(x);
                        assert(done.drop_last().push(x) =~= done);
                        assert(self@ =~= done + iter.remaining());
                    }
                },
            }
        }
    }

    /// The least item; of several that are least, the first.
    pub fn min(self) -> (r: Option<S::Item>) where S::Item: Ord
        requires
            self.wf(),
            ordered_by_view::<S::Item>(),
        ensures
            r.deep_view() == if self@.len() > 0 {
                Some(least::<S::Item>(self@))
            } else {
                None
            },
    {
        let mut iter = self.iter;
        let mut best = match iter.next() {
            None => {
                return None;
            },
            Some(x) => x,
        };
        let ghost mut done = seq![best.deep_view()];
        proof {
            assert(self@ =~= done + iter.remaining());
        }
        loop
            invariant
                iter.wf(),
                ordered_by_view::<S::Item>(),
                self@ == done + iter.remaining(),
                done.len() > 0,
                best.deep_view() == least::<S::Item>(done),
            decreases iter.remaining().len(),
        {
            match iter.next() {
                None => {
                    proof {
                        assert(self@ =~= done);
                    }
                    return Some(best);
                },
                Some(x) => {
                    let ghost m = x.deep_view();
                    let smaller = x < best;
                    proof {
                        lemma_compared(x, best, smaller);
                        assert(done.push(m).drop_last() =~= done);
                        done = done.push(m);
                        assert(self@ =~= done + iter.remaining());
                    }
                    if smaller {
                        best = x;
                    }
                },
            }
        }
    }

    /// The greatest item; of several that are greatest, the first.
    pub fn max(self) -> (r: Option<S::Item>) where S::Item: Ord
        requires
            self.wf(),
            ordered_by_view::<S::Item>(),
        ensures
            r.deep_view() == if self@.len() > 0 {
                Some(greatest::<S::Item>(self@))
            } else {
                None
            },
    {
        let mut iter = self.iter;
        let mut best = match iter.next() {
            None => {
                return None;
            },
            Some(x) => x,
        };
        let ghost mut done = seq![best.deep_view()];
        proof {
            assert(self@ =~= done + iter.remaining());
        }
        loop
            invariant
                iter.wf(),
                ordered_by_view::<S::Item>(),
                self@ == done + iter.remaining(),
                done.len() > 0,
                best.deep_view() == greatest::<S::Item>(done),
            decreases iter.remaining().len(),
        {
            match iter.next() {
                None => {
                    proof {
                        assert(self@ =~= done);
                    }
                    return Some(best);
                },
                Some(x) => {
                    let ghost m = x.deep_view();
                    let greater = best < x;
                    proof {
                        lemma_compared(best, x, greater);
                        assert(done.push(m).drop_last() =~= done);
                        done = done.push(m);
                        assert(self@ =~= done + iter.remaining());
                    }
                    if greater {
                        best = x;
                    }
                },
            }
        }
    }

    /// The first item; pulls no more than that one.
    pub fn first(self) -> (r: Option<S::Item>)
        requires
            self.wf(),
        ensures
            r.deep_view() == first_of(self@),
    {
        let mut iter = self.iter;
        iter.next()
    }

    /// The last item.
    pub fn last(self) -> (r: Option<S::Item>)
        requires
            self.wf(),
        ensures
            r.deep_view() == last_of(self@),
    {
        let mut iter = self.iter;
        let mut held: Option<S::Item> = None;
        let ghost mut done: Seq<<S::Item as DeepView>::V> = Seq::empty();
        proof {
            assert(self@ =~= done + iter.remaining());
        }
        loop
            invariant
                iter.wf(),
                self@ == done + iter.remaining(),
                held.deep_view() == last_of(done),
            decreases iter.remaining().len(),
        {
            match iter.next() {
                None => {
                    proof {
                        assert(self@ =~= done);
                    }
                    return held;
                },
                Some(x) => {
                    proof {
                        done = done.push(x.deep_view());
                        assert(self@ =~= done + iter.remaining());
                    }
                    held = Some(x);
                },
            }
        }
    }

    /// Folds the items into one, starting from the first; nothing where
    /// there is no item.
    pub fn reduce<F: Fn(S::Item, S::Item) -> S::Item>(self, f: F) -> (r: Option<S::Item>)
        requires
            self.wf(),
            self@.len() > 0 ==> foldable(f, self@[0], self@.skip(1)),
        ensures
            match r {
                Some(v) => self@.len() > 0 && folds_to(f, self@[0], self@.skip(1), v.deep_view()),
                None => self@.len() == 0,
            },
    {
        let mut iter = self.iter;
        match iter.next() {
            None => None,
            Some(first) => Some(fold_stage(iter, first, f)),
        }
    }

    /// Folds the items into `init`, one after the other.
    pub fn fold<B: DeepView, F: Fn(B, S::Item) -> B>(self, init: B, f: F) -> (r: B)
        requires
            self.wf(),
            foldable(f, init.deep_view(), self@),
        ensures
            folds_to(f, init.deep_view(), self@, r.deep_view()),
    {
        fold_stage(self.iter, init, f)
    }

    /// Unwraps the stage.
    pub fn into_inner(self) -> (s: S)
        requires
            self.wf(),
        ensures
            s.wf(),
            s.remaining() == self@,
    {
        self.iter
    }

    /// Pulls the pipeline to its end and returns the items in order.
    pub fn to_list(self) -> (r: Vec<S::Item>)
        requires
            self.wf(),
        ensures
            r.deep_view() == self@,
    {
        let mut iter = self.iter;
        let mut out: Vec<S::Item> = Vec::new();
        loop
            invariant
                iter.wf(),
                out.deep_view() + iter.remaining() == self@,
            decreases iter.remaining().len(),
        {
            match iter.next() {
                None => {
                    assert(out.deep_view() + Seq::empty() =~= out.deep_view());
                    return out;
                },
                Some(x) => {
                    out.push(x);
                    assert(out.deep_view() + iter.remaining() =~= self@);
                },
            }
        }
    }

    /// Whether `f` holds of some item. Stops at the first of which it holds:
    /// `f` has then answered no on every item before that one. Where it
    /// holds of none, `f` has answered no on every item.
    pub fn any<F: Fn(S::Item) -> bool>(self, f: F) -> (r: bool)
        requires
            self.wf(),
            callable(f, self@),
        ensures
            r ==> exists|i: int|
                0 <= i < self@.len() && passes(f, #[trigger] self@[i]) && forall|j: int|
                    0 <= j < i ==> fails(f, #[trigger] self@[j]),
            !r ==> forall|i: int| 0 <= i < self@.len() ==> fails(f, #[trigger] self@[i]),
    {
        let mut iter = self.iter;
        let ghost mut done: int = 0;
        proof {
            assert(self@.skip(0) =~= self@);
        }
        loop
            invariant
                iter.wf(),
                0 <= done <= self@.len(),
                iter.remaining() == self@.skip(done),
                callable(f, self@),
                forall|i: int| 0 <= i < done ==> fails(f, #[trigger] self@[i]),
            decreases iter.remaining().len(),
        {
            match iter.next() {
                None => {
                    return false;
                },
                Some(x) => {
                    assert(self@.skip(done)[0] == self@[done]);
                    assert(self@.contains(self@[done]));
                    let hit = f(x);
                    proof {
                        assert(self@.skip(done).skip(1) =~= self@.skip(done + 1));
                    }
                    if hit {
                        assert(passes(f, self@[done]));
                        return true;
                    }
                    proof {
                        assert(fails(f, self@[done]));
                        done = done + 1;
                    }
                },
            }
        }
    }

    /// Whether `f` holds of every item. Stops at the first of which it does
    /// not hold: `f` has then answered yes on every item before that one.
    /// Where it holds of all, `f` has answered yes on every item.
    pub fn all<F: Fn(S::Item) -> bool>(self, f: F) -> (r: bool)
        requires
            self.wf(),
            callable(f, self@),
        ensures
            r ==> forall|i: int| 0 <= i < self@.len() ==> passes(f, #[trigger] self@[i]),
            !r ==> exists|i: int|
                0 <= i < self@.len() && fails(f, #[trigger] self@[i]) && forall|j: int|
                    0 <= j < i ==> passes(f, #[trigger] self@[j]),
    {
        let mut iter = self.iter;
        let ghost mut done: int = 0;
        proof {
            assert(self@.skip(0) =~= self@);
        }
        loop
            invariant
                iter.wf(),
                0 <= done <= self@.len(),
                iter.remaining() == self@.skip(done),
                callable(f, self@),
                forall|i: int| 0 <= i < done ==> passes(f, #[trigger] self@[i]),
            decreases iter.remaining().len(),
        {
            match iter.next() {
                None => {
                    return true;
                },
                Some(x) => {
                    assert(self@.skip(done)[0] == self@[done]);
                    assert(self@.contains(self@[done]));
                    let hit = f(x);
                    proof {
                        assert(self@.skip(done).skip(1) =~= self@.skip(done + 1));
                    }
                    if !hit {
                        assert(fails(f, self@[done]));
                        return false;
                    }
                    proof {
                        assert(passes(f, self@[done]));
                        done = done + 1;
                    }
                },
            }
        }
    }
}

/// Folds what a stage still yields into `init`.
fn fold_stage<S: Stage, B: DeepView, F: Fn(B, S::Item) -> B>(iter: S, init: B, f: F) -> (r: B)
    requires
        iter.wf(),
        foldable(f, init.deep_view(), iter.remaining()),
    ensures
        folds_to(f, init.deep_view(), iter.remaining(), r.deep_view()),
{
    let ghost all = iter.remaining();
    let mut stage = iter;
    let mut acc = init;
    let ghost mut done: int = 0;
    proof {
        assert(all.skip(0) =~= all);
        assert(all.take(0) =~= Seq::empty());
    }
    loop
        invariant
            stage.wf(),
            0 <= done <= all.len(),
            all == iter.remaining(),
            stage.remaining() == all.skip(done),
            foldable(f, init.deep_view(), all),
            folds_to(f, init.deep_view(), all.take(done), acc.deep_view()),
        decreases stage.remaining().len(),
    {
        match stage.next() {
            None => {
                proof {
                    assert(all.take(done) =~= all);
                }
                return acc;
            },
            Some(x) => {
                let ghost before = acc.deep_view();
                proof {
                    assert(all.skip(done)[0] == all[done]);
                }
                let next = f(acc, x);
                proof {
                    assert(steps(f, before, x.deep_view(), next.deep_view()));
                    assert(all.take(done + 1).drop_last() =~= all.take(done));
                    assert(folds_to(f, init.deep_view(), all.take(done + 1).drop_last(), before));
                    assert(all.take(done + 1).last() == all[done]);
                    assert(all.skip(done).skip(1) =~= all.skip(done + 1));
                    lemma_folds_on(
                        f,
                        init.deep_view(),
                        all.take(done + 1),
                        before,
                        next.deep_view(),
                    );
                    done = done + 1;
                }
                acc = next;
            },
        }
    }
}

/// Adds `.flu()` to every stage.
pub trait FluExt: Stage + Sized {
    /// Wraps the stage in a pipeline.
    fn flu(self) -> (r: Flu<Self>)
        requires
            self.wf(),
        ensures
            r.wf(),
            r@ == self.remaining(),
    {
        Flu::new(self)
    }
}

impl<S: Stage> FluExt for S {
}

} // verus!
