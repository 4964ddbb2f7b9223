//! Transformation stages: they hand out new items made from their input's.

use crate::function::{can_apply, imaging, Mapping};
use crate::source::VecSource;
use crate::stage::Stage;
use vstd::prelude::*;

verus! {

/// Each element of `s` paired with its position, counted from `from`.
pub open spec fn numbered<A>(s: Seq<A>, from: nat) -> Seq<(usize, A)> {
    Seq::new(s.len(), |i: int| ((from + i) as usize, s[i]))
}

/// The elements of `a` and `b` paired position by position, as far as the
/// shorter of the two goes.
pub open spec fn zipped<A, B>(a: Seq<A>, b: Seq<B>) -> Seq<(A, B)> {
    Seq::new(
        if a.len() <= b.len() {
            a.len()
        } else {
            b.len()
        },
        |i: int| (a[i], b[i]),
    )
}

/// Hands out what a function makes of each item.
pub struct Mapped<I, M> {
    iter: I,
    f: M,
}

impl<I: Stage, M: Mapping<I::Item>> Mapped<I, M> {
    /// A stage over `iter` with the function `f`.
    pub fn new(iter: I, f: M) -> (r: Self)
        requires
            iter.wf(),
            can_apply(f, iter.remaining()),
        ensures
            r.wf(),
            r.remaining() == iter.remaining().map_values(imaging(f)),
    {
        Mapped { iter, f }
    }
}

impl<I: Stage, M: Mapping<I::Item>> Stage for Mapped<I, M> {
    type Item = M::Out;

    closed spec fn wf(&self) -> bool {
        self.iter.wf() && can_apply(self.f, self.iter.remaining())
    }

    closed spec fn remaining(&self) -> Seq<<M::Out as DeepView>::V> {
        self.iter.remaining().map_values(imaging(self.f))
    }

    fn next(&mut self) -> (r: Option<M::Out>) {
        let ghost before = self.iter.remaining();
        match self.iter.next() {
            None => None,
            Some(x) => {
                proof {
                    assert forall|i: int| 0 <= i < before.skip(1).len() implies self.f.ready(
                        #[trigger] before.skip(1)[i],
                    ) by {
                        assert(before.skip(1)[i] == before[i + 1]);
                    }
                }
                let y = self.f.apply(x);
                proof {
                    assert(self.remaining() =~= old(self).remaining().skip(1));
                }
                Some(y)
            },
        }
    }
}

/// Pairs each item with its position, counted from zero.
pub struct Enumerate<I> {
    iter: I,
    count: usize,
}

impl<I: Stage> Enumerate<I> {
    /// A stage that numbers what `iter` yields.
    pub fn new(iter: I) -> (r: Self)
        requires
            iter.wf(),
            iter.remaining().len() <= usize::MAX,
        ensures
            r.wf(),
            r.remaining() == numbered(iter.remaining(), 0),
    {
        Enumerate { iter, count: 0 }
    }
}

impl<I: Stage> Stage for Enumerate<I> {
    type Item = (usize, I::Item);

    closed spec fn wf(&self) -> bool {
        self.iter.wf() && self.count + self.iter.remaining().len() <= usize::MAX
    }

    closed spec fn remaining(&self) -> Seq<(usize, <I::Item as DeepView>::V)> {
        numbered(self.iter.remaining(), self.count as nat)
    }

    fn next(&mut self) -> (r: Option<(usize, I::Item)>) {
        match self.iter.next() {
            None => None,
            Some(x) => {
                let i = self.count;
                self.count += 1;
                proof {
                    assert(self.remaining() =~= old(self).remaining().skip(1));
                }
                Some((i, x))
            },
        }
    }
}

/// Pairs the items of two stages position by position and ends with the
/// shorter one.
pub struct Zip<A, B> {
    a: A,
    b: B,
}

impl<A: Stage, B: Stage> Zip<A, B> {
    /// A stage that pairs what `a` and `b` yield.
    pub fn new(a: A, b: B) -> (r: Self)
        requires
            a.wf(),
            b.wf(),
        ensures
            r.wf(),
            r.remaining() == zipped(a.remaining(), b.remaining()),
    {
        Zip { a, b }
    }
}

impl<A: Stage, B: Stage> Stage for Zip<A, B> {
    type Item = (A::Item, B::Item);

    closed spec fn wf(&self) -> bool {
        self.a.wf() && self.b.wf()
    }

    closed spec fn remaining(&self) -> Seq<(<A::Item as DeepView>::V, <B::Item as DeepView>::V)> {
        zipped(self.a.remaining(), self.b.remaining())
    }

    fn next(&mut self) -> (r: Option<(A::Item, B::Item)>) {
        match self.a.next() {
            None => None,
            Some(x) => match self.b.next() {
                None => {
                    proof {
                        assert(self.remaining() =~= old(self).remaining());
                    }
                    None
                },
                Some(y) => {
                    proof {
                        assert(self.remaining() =~= old(self).remaining().skip(1));
                    }
                    Some((x, y))
                },
            },
        }
    }
}

/// Hands out the items of each vector that its input yields, one vector
/// after the other.
pub struct Flatten<I, T> {
    iter: I,
    current: VecSource<T>,
}

impl<T: DeepView, I: Stage<Item = Vec<T>>> Flatten<I, T> {
    /// A stage that flattens what `iter` yields.
    pub fn new(iter: I) -> (r: Self)
        requires
            iter.wf(),
        ensures
            r.wf(),
            r.remaining() == iter.remaining().flatten(),
    {
        let r = Flatten { iter, current: VecSource::new(Vec::new()) };
        proof {
            assert(r.current.remaining() + iter.remaining().flatten() =~= iter.remaining().flatten());
        }
        r
    }
}

impl<T: DeepView, I: Stage<Item = Vec<T>>> Stage for Flatten<I, T> {
    type Item = T;

    closed spec fn wf(&self) -> bool {
        self.iter.wf() && self.current.wf()
    }

    closed spec fn remaining(&self) -> Seq<T::V> {
        self.current.remaining() + self.iter.remaining().flatten()
    }

    fn next(&mut self) -> (r: Option<T>) {
        loop
            invariant
                self.wf(),
                self.remaining() == old(self).remaining(),
            decreases self.iter.remaining().len(),
        {
            let ghost held = self.current.remaining();
            match self.current.next() {
                Some(x) => {
                    proof {
                        assert(self.remaining() =~= old(self).remaining().skip(1));
                    }
                    return Some(x);
                },
                None => {},
            }
            let ghost before = self.iter.remaining();
            match self.iter.next() {
                None => {
                    proof {
                        assert(self.remaining() =~= Seq::empty());
                    }
                    return None;
                },
                Some(inner) => {
                    self.current = VecSource::new(inner);
                    proof {
                        assert(before.drop_first() =~= before.skip(1));
                        assert(self.remaining() =~= old(self).remaining());
                    }
                },
            }
        }
    }
}

} // verus!
