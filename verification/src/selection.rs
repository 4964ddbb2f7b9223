//! Selection stages: they pass some items on unchanged and drop the others.

use crate::function::{can_test, holding, Predicate};
use crate::seqs::{
    fresh, leading, lemma_filter_head, lemma_fresh_again, lemma_leading_bound,
    lemma_remove_duplicates_fresh, lemma_tail_within,
};
use crate::stage::{clone_keeps_view, exact_view, Stage};
use std::collections::HashSet;
use std::hash::Hash;
use vstd::prelude::*;
use vstd::std_specs::hash::obeys_key_model;

verus! {

/// The shorter of `n` and the length of `s`.
pub open spec fn at_most<A>(s: Seq<A>, n: int) -> int {
    if n <= s.len() {
        n
    } else {
        s.len() as int
    }
}

/// Dropping duplicates twice gives what dropping them once gives.
pub proof fn unique_idempotent<A>(s: Seq<A>)
    ensures
        s.remove_duplicates(Seq::empty()).remove_duplicates(Seq::empty()) == s.remove_duplicates(
            Seq::empty(),
        ),
{
    let none = Seq::<A>::empty();
    let once = s.remove_duplicates(none);
    lemma_remove_duplicates_fresh(s, none);
    lemma_remove_duplicates_fresh(once, none);
    assert(none.to_set() =~= Set::empty());
    assert(none + fresh(s, Set::empty()) =~= fresh(s, Set::empty()));
    assert(none + fresh(once, Set::empty()) =~= fresh(once, Set::empty()));
    lemma_fresh_again(s, Set::empty());
}

/// Passes on the items of which a predicate holds.
pub struct Filter<I, P> {
    iter: I,
    pred: P,
}

impl<I: Stage, P: Predicate<I::Item>> Filter<I, P> {
    /// A stage over `iter` with the predicate `pred`.
    pub fn new(iter: I, pred: P) -> (r: Self)
        requires
            iter.wf(),
            can_test(pred, iter.remaining()),
        ensures
            r.wf(),
            r.remaining() == iter.remaining().filter(holding(pred)),
    {
        Filter { iter, pred }
    }
}

impl<I: Stage, P: Predicate<I::Item>> Stage for Filter<I, P> {
    type Item = I::Item;

    closed spec fn wf(&self) -> bool {
        self.iter.wf() && can_test(self.pred, self.iter.remaining())
    }

    closed spec fn remaining(&self) -> Seq<<I::Item as DeepView>::V> {
        self.iter.remaining().filter(holding(self.pred))
    }

    fn next(&mut self) -> (r: Option<I::Item>) {
        loop
            invariant
                self.wf(),
                self.remaining() == old(self).remaining(),
            decreases self.iter.remaining().len(),
        {
            let ghost before = self.iter.remaining();
            match self.iter.next() {
                None => {
                    return None;
                },
                Some(x) => {
                    proof {
                        lemma_filter_head(before, holding(self.pred));
                        lemma_tail_within(before);
                        assert(can_test(self.pred, before.skip(1))) by {
                            lemma_tail_within(before);
                            assert forall|i: int| 0 <= i < before.skip(1).len() implies self.pred.ready(
                                #[trigger] before.skip(1)[i],
                            ) by {
                                assert(before.skip(1)[i] == before[i + 1]);
                            }
                        }
                    }
                    let keep = self.pred.test(&x);
                    if keep {
                        assert(self.remaining() =~= old(self).remaining().skip(1));
                        return Some(x);
                    }
                    assert(self.remaining() =~= old(self).remaining());
                },
            }
        }
    }
}

/// Passes on the first `n` items.
pub struct Take<I> {
    iter: I,
    n: usize,
}

impl<I: Stage> Take<I> {
    /// A stage that keeps the first `n` items of `iter`.
    pub fn new(iter: I, n: usize) -> (r: Self)
        requires
            iter.wf(),
        ensures
            r.wf(),
            r.remaining() == iter.remaining().take(at_most(iter.remaining(), n as int)),
    {
        Take { iter, n }
    }
}

impl<I: Stage> Stage for Take<I> {
    type Item = I::Item;

    closed spec fn wf(&self) -> bool {
        self.iter.wf()
    }

    closed spec fn remaining(&self) -> Seq<<I::Item as DeepView>::V> {
        self.iter.remaining().take(at_most(self.iter.remaining(), self.n as int))
    }

    fn next(&mut self) -> (r: Option<I::Item>) {
        if self.n == 0 {
            return None;
        }
        self.n -= 1;
        let r = self.iter.next();
        proof {
            if r is Some {
                assert(self.remaining() =~= old(self).remaining().skip(1));
            }
        }
        r
    }
}

/// Drops the first `n` items and passes on the others.
pub struct Skip<I> {
    iter: I,
    n: usize,
}

impl<I: Stage> Skip<I> {
    /// A stage that drops the first `n` items of `iter`.
    pub fn new(iter: I, n: usize) -> (r: Self)
        requires
            iter.wf(),
        ensures
            r.wf(),
            r.remaining() == iter.remaining().skip(at_most(iter.remaining(), n as int)),
    {
        Skip { iter, n }
    }
}

impl<I: Stage> Stage for Skip<I> {
    type Item = I::Item;

    closed spec fn wf(&self) -> bool {
        self.iter.wf()
    }

    closed spec fn remaining(&self) -> Seq<<I::Item as DeepView>::V> {
        self.iter.remaining().skip(at_most(self.iter.remaining(), self.n as int))
    }

    fn next(&mut self) -> (r: Option<I::Item>) {
        while self.n > 0
            invariant
                self.iter.wf(),
                self.remaining() == old(self).remaining(),
            decreases self.n,
        {
            let ghost before = self.iter.remaining();
            self.n -= 1;
            match self.iter.next() {
                Some(_) => {
                    assert(self.remaining() =~= old(self).remaining());
                },
                None => {
                    return None;
                },
            }
        }
        let r = self.iter.next();
        proof {
            if r is Some {
                assert(self.remaining() =~= old(self).remaining().skip(1));
            }
        }
        r
    }
}

/// Passes on items until the predicate first fails.
pub struct TakeWhile<I, P> {
    iter: I,
    pred: P,
    done: bool,
}

impl<I: Stage, P: Predicate<I::Item>> TakeWhile<I, P> {
    /// A stage over `iter` with the predicate `pred`.
    pub fn new(iter: I, pred: P) -> (r: Self)
        requires
            iter.wf(),
            can_test(pred, iter.remaining()),
        ensures
            r.wf(),
            r.remaining() == iter.remaining().take(leading(iter.remaining(), holding(pred)) as int),
    {
        TakeWhile { iter, pred, done: false }
    }
}

impl<I: Stage, P: Predicate<I::Item>> Stage for TakeWhile<I, P> {
    type Item = I::Item;

    closed spec fn wf(&self) -> bool {
        self.iter.wf() && can_test(self.pred, self.iter.remaining())
    }

    closed spec fn remaining(&self) -> Seq<<I::Item as DeepView>::V> {
        if self.done {
            Seq::empty()
        } else {
            self.iter.remaining().take(leading(self.iter.remaining(), holding(self.pred)) as int)
        }
    }

    fn next(&mut self) -> (r: Option<I::Item>) {
        if self.done {
            return None;
        }
        let ghost before = self.iter.remaining();
        proof {
            lemma_leading_bound(before, holding(self.pred));
        }
        match self.iter.next() {
            None => None,
            Some(x) => {
                proof {
                    lemma_tail_within(before);
                    assert(can_test(self.pred, before.skip(1))) by {
                        assert forall|i: int| 0 <= i < before.skip(1).len() implies self.pred.ready(
                            #[trigger] before.skip(1)[i],
                        ) by {
                            assert(before.skip(1)[i] == before[i + 1]);
                        }
                    }
                    lemma_leading_bound(before.skip(1), holding(self.pred));
                }
                let keep = self.pred.test(&x);
                if keep {
                    assert(self.remaining() =~= old(self).remaining().skip(1));
                    Some(x)
                } else {
                    self.done = true;
                    None
                }
            },
        }
    }
}

/// Drops items until the predicate first fails, then passes on every item.
pub struct DropWhile<I, P> {
    iter: I,
    pred: P,
    started: bool,
}

impl<I: Stage, P: Predicate<I::Item>> DropWhile<I, P> {
    /// A stage over `iter` with the predicate `pred`.
    pub fn new(iter: I, pred: P) -> (r: Self)
        requires
            iter.wf(),
            can_test(pred, iter.remaining()),
        ensures
            r.wf(),
            r.remaining() == iter.remaining().skip(leading(iter.remaining(), holding(pred)) as int),
    {
        DropWhile { iter, pred, started: false }
    }
}

impl<I: Stage, P: Predicate<I::Item>> Stage for DropWhile<I, P> {
    type Item = I::Item;

    closed spec fn wf(&self) -> bool {
        self.iter.wf() && (!self.started ==> can_test(self.pred, self.iter.remaining()))
    }

    closed spec fn remaining(&self) -> Seq<<I::Item as DeepView>::V> {
        if self.started {
            self.iter.remaining()
        } else {
            self.iter.remaining().skip(leading(self.iter.remaining(), holding(self.pred)) as int)
        }
    }

    fn next(&mut self) -> (r: Option<I::Item>) {
        if self.started {
            return self.iter.next();
        }
        loop
            invariant
                self.wf(),
                !self.started,
                self.remaining() == old(self).remaining(),
            decreases self.iter.remaining().len(),
        {
            let ghost before = self.iter.remaining();
            proof {
                lemma_leading_bound(before, holding(self.pred));
            }
            match self.iter.next() {
                None => {
                    return None;
                },
                Some(x) => {
                    proof {
                        lemma_tail_within(before);
                        assert(can_test(self.pred, before.skip(1))) by {
                            lemma_tail_within(before);
                            assert forall|i: int| 0 <= i < before.skip(1).len() implies self.pred.ready(
                                #[trigger] before.skip(1)[i],
                            ) by {
                                assert(before.skip(1)[i] == before[i + 1]);
                            }
                        }
                        lemma_leading_bound(before.skip(1), holding(self.pred));
                    }
                    let drop = self.pred.test(&x);
                    if !drop {
                        self.started = true;
                        assert(before.skip(0) =~= before);
                        return Some(x);
                    }
                    assert(self.remaining() =~= old(self).remaining());
                },
            }
        }
    }
}

/// Passes on the first occurrence of each distinct item.
pub struct Unique<I: Stage> {
    iter: I,
    seen: HashSet<I::Item>,
}

impl<I: Stage> Unique<I> where I::Item: Eq + Hash + Clone {
    /// The models of the items seen so far.
    pub closed spec fn seen_models(&self) -> Set<<I::Item as DeepView>::V> {
        self.seen@.map(|x: I::Item| x.deep_view())
    }

    /// A stage over `iter` that has seen nothing yet.
    pub fn new(iter: I) -> (r: Self)
        requires
            iter.wf(),
            obeys_key_model::<I::Item>(),
            exact_view::<I::Item>(),
            clone_keeps_view::<I::Item>(),
        ensures
            r.wf(),
            r.remaining() == iter.remaining().remove_duplicates(Seq::empty()),
    {
        let r = Unique { iter, seen: HashSet::new() };
        proof {
            lemma_remove_duplicates_fresh(iter.remaining(), Seq::empty());
            assert(Seq::<<I::Item as DeepView>::V>::empty().to_set() =~= Set::empty());
            assert(r.seen_models() =~= Set::empty());
            assert(Seq::empty() + fresh(iter.remaining(), Set::empty()) =~= fresh(
                iter.remaining(),
                Set::empty(),
            ));
        }
        r
    }
}

impl<I: Stage> Stage for Unique<I> where I::Item: Eq + Hash + Clone {
    type Item = I::Item;

    closed spec fn wf(&self) -> bool {
        &&& self.iter.wf()
        &&& obeys_key_model::<I::Item>()
        &&& exact_view::<I::Item>()
        &&& clone_keeps_view::<I::Item>()
    }

    closed spec fn remaining(&self) -> Seq<<I::Item as DeepView>::V> {
        fresh(self.iter.remaining(), self.seen_models())
    }

    fn next(&mut self) -> (r: Option<I::Item>) {
        broadcast use vstd::std_specs::hash::group_hash_axioms;

        loop
            invariant
                self.wf(),
                self.remaining() == old(self).remaining(),
            decreases self.iter.remaining().len(),
        {
            let ghost before = self.iter.remaining();
            let ghost models = self.seen_models();
            let ghost had = self.seen@;
            match self.iter.next() {
                None => {
                    return None;
                },
                Some(item) => {
                    let copy = item.clone();
                    assert(cloned(item, copy));
                    assert(copy == item);
                    let is_new = self.seen.insert(copy);
                    proof {
                        let m = item.deep_view();
                        assert(had.contains(item) <==> models.contains(m)) by {
                            if models.contains(m) {
                                let y = choose|y: I::Item| had.contains(y) && m == y.deep_view();
                                assert(y == item);
                            }
                        }
                        assert(self.seen_models() =~= models.insert(m)) by {
                            assert forall|v: <I::Item as DeepView>::V|
                                self.seen_models().contains(v) <==> models.insert(m).contains(
                                    v,
                                ) by {
                                if self.seen_models().contains(v) {
                                    let y = choose|y: I::Item|
                                        self.seen@.contains(y) && v == y.deep_view();
                                    if y != item {
                                        assert(had.contains(y));
                                    }
                                }
                                if models.contains(v) {
                                    let y = choose|y: I::Item| had.contains(y) && v == y.deep_view();
                                    assert(self.seen@.contains(y));
                                }
                                if v == m {
                                    assert(self.seen@.contains(item));
                                }
                            }
                        }
                        if !is_new {
                            assert(models.insert(m) =~= models);
                        }
                    }
                    if is_new {
                        assert(self.remaining() =~= old(self).remaining().skip(1));
                        return Some(item);
                    }
                },
            }
        }
    }
}

} // verus!
