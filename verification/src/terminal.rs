//! What the terminal operators compute, and the numbers that `sum` adds.

use vstd::prelude::*;

verus! {

/// A number that `sum` can add up.
pub trait Summable: Copy + DeepView<V = Self> {
    /// The number as an integer.
    spec fn value(self) -> int;

    /// Whether the type can hold the integer `v`.
    spec fn holds(v: int) -> bool;

    /// A number is its own model.
    proof fn plain(self)
        ensures
            self.deep_view() == self,
    ;

    fn zero() -> (z: Self)
        ensures
            z.value() == 0,
    ;

    fn plus(self, other: Self) -> (r: Self)
        requires
            Self::holds(self.value() + other.value()),
        ensures
            r.value() == self.value() + other.value(),
    ;
}

impl Summable for i32 {
    open spec fn value(self) -> int {
        self as int
    }

    open spec fn holds(v: int) -> bool {
        i32::MIN <= v <= i32::MAX
    }

    proof fn plain(self) {
    }

    fn zero() -> (z: Self) {
        0
    }

    fn plus(self, other: Self) -> (r: Self) {
        self + other
    }
}

impl Summable for i64 {
    open spec fn value(self) -> int {
        self as int
    }

    open spec fn holds(v: int) -> bool {
        i64::MIN <= v <= i64::MAX
    }

    proof fn plain(self) {
    }

    fn zero() -> (z: Self) {
        0
    }

    fn plus(self, other: Self) -> (r: Self) {
        self + other
    }
}

impl Summable for u32 {
    open spec fn value(self) -> int {
        self as int
    }

    open spec fn holds(v: int) -> bool {
        0 <= v <= u32::MAX
    }

    proof fn plain(self) {
    }

    fn zero() -> (z: Self) {
        0
    }

    fn plus(self, other: Self) -> (r: Self) {
        self + other
    }
}

impl Summable for u64 {
    open spec fn value(self) -> int {
        self as int
    }

    open spec fn holds(v: int) -> bool {
        0 <= v <= u64::MAX
    }

    proof fn plain(self) {
    }

    fn zero() -> (z: Self) {
        0
    }

    fn plus(self, other: Self) -> (r: Self) {
        self + other
    }
}

impl Summable for usize {
    open spec fn value(self) -> int {
        self as int
    }

    open spec fn holds(v: int) -> bool {
        0 <= v <= usize::MAX
    }

    proof fn plain(self) {
    }

    fn zero() -> (z: Self) {
        0
    }

    fn plus(self, other: Self) -> (r: Self) {
        self + other
    }
}

/// The sum of the numbers in `s`.
pub open spec fn total<A: Summable>(s: Seq<A>) -> int
    decreases s.len(),
{
    if s.len() == 0 {
        0
    } else {
        total(s.drop_last()) + s.last().value()
    }
}

/// Every sum of a front part of `s` fits the type.
pub open spec fn summable<A: Summable>(s: Seq<A>) -> bool {
    forall|k: int| 0 <= k <= s.len() ==> A::holds(#[trigger] total(s.take(k)))
}

/// The first element, if there is one.
pub open spec fn first_of<A>(s: Seq<A>) -> Option<A> {
    if s.len() > 0 {
        Some(s[0])
    } else {
        None
    }
}

/// The last element, if there is one.
pub open spec fn last_of<A>(s: Seq<A>) -> Option<A> {
    if s.len() > 0 {
        Some(s.last())
    } else {
        None
    }
}

/// The predicate `f` can be called on every item whose model occurs in `s`.
pub open spec fn callable<T: DeepView, F: Fn(T) -> bool>(f: F, s: Seq<T::V>) -> bool {
    forall|x: T| s.contains(#[trigger] x.deep_view()) ==> f.requires((x,))
}

/// `f` may answer yes on an item whose model is `m`.
pub open spec fn passes<T: DeepView, F: Fn(T) -> bool>(f: F, m: T::V) -> bool {
    exists|x: T| x.deep_view() == m && #[trigger] f.ensures((x,), true)
}

/// `f` may answer no on an item whose model is `m`.
pub open spec fn fails<T: DeepView, F: Fn(T) -> bool>(f: F, m: T::V) -> bool {
    exists|x: T| x.deep_view() == m && #[trigger] f.ensures((x,), false)
}

/// One call of `f` may take an accumulator with model `a` and an item with
/// model `m` to an accumulator with model `b`.
pub open spec fn steps<B: DeepView, T: DeepView, F: Fn(B, T) -> B>(
    f: F,
    a: B::V,
    m: T::V,
    b: B::V,
) -> bool {
    exists|x: B, y: T, z: B|
        x.deep_view() == a && y.deep_view() == m && z.deep_view() == b && #[trigger] f.ensures(
            (x, y),
            z,
        )
}

/// Folding `s` with `f`, from an accumulator with model `a`, may end in an
/// accumulator with model `b`.
pub open spec fn folds_to<B: DeepView, T: DeepView, F: Fn(B, T) -> B>(
    f: F,
    a: B::V,
    s: Seq<T::V>,
    b: B::V,
) -> bool
    decreases s.len(),
{
    if s.len() == 0 {
        a == b
    } else {
        exists|mid: B::V|
            folds_to(f, a, s.drop_last(), mid) && #[trigger] steps(f, mid, s.last(), b)
    }
}

/// A fold goes on by one step.
pub proof fn lemma_folds_on<B: DeepView, T: DeepView, F: Fn(B, T) -> B>(
    f: F,
    a: B::V,
    s: Seq<T::V>,
    mid: B::V,
    b: B::V,
)
    requires
        s.len() > 0,
        folds_to(f, a, s.drop_last(), mid),
        steps(f, mid, s.last(), b),
    ensures
        folds_to(f, a, s, b),
{
}

/// `f` can be called at every step that a fold of `s` from `a` can reach.
pub open spec fn foldable<B: DeepView, T: DeepView, F: Fn(B, T) -> B>(
    f: F,
    a: B::V,
    s: Seq<T::V>,
) -> bool {
    forall|k: int, x: B, y: T|
        #![trigger folds_to(f, a, s.take(k), x.deep_view()), f.requires((x, y))]
        0 <= k < s.len() && folds_to(f, a, s.take(k), x.deep_view()) && y.deep_view() == s[k]
            ==> f.requires((x, y))
}

} // verus!
