//! Predicates, mappings and key functions as values with a specification.
//!
//! The stages that call a function of the caller take it as a value of a
//! type that says, in spec functions, what the function computes. A closure
//! is wrapped in [`Closure`], which says it in terms of the closure's own
//! `requires` and `ensures`.

use vstd::prelude::*;

verus! {

/// A predicate on items of `T` that goes by their models.
pub trait Predicate<T: DeepView> {
    /// The predicate can be asked about items with model `m`.
    spec fn ready(&self, m: T::V) -> bool;

    /// What the predicate answers on items with model `m`.
    spec fn holds(&self, m: T::V) -> bool;

    fn test(&self, x: &T) -> (b: bool)
        requires
            self.ready(x.deep_view()),
        ensures
            b == self.holds(x.deep_view()),
    ;
}

/// A function from items of `T` that goes by their models.
pub trait Mapping<T: DeepView> {
    type Out: DeepView;

    /// The function can be applied to items with model `m`.
    spec fn ready(&self, m: T::V) -> bool;

    /// The model of what the function makes of items with model `m`.
    spec fn image(&self, m: T::V) -> <Self::Out as DeepView>::V;

    fn apply(&self, x: T) -> (y: Self::Out)
        requires
            self.ready(x.deep_view()),
        ensures
            y.deep_view() == self.image(x.deep_view()),
    ;
}

/// A function that gives each item of `T` a key, and goes by their models.
pub trait Keying<T: DeepView> {
    type Key;

    /// The function can be applied to items with model `m`.
    spec fn ready(&self, m: T::V) -> bool;

    /// The key of the items with model `m`.
    spec fn key_of(&self, m: T::V) -> Self::Key;

    fn key(&self, x: &T) -> (k: Self::Key)
        requires
            self.ready(x.deep_view()),
        ensures
            k == self.key_of(x.deep_view()),
    ;
}

/// `p` as a predicate on models.
pub open spec fn holding<T: DeepView, P: Predicate<T>>(p: P) -> spec_fn(T::V) -> bool {
    |m: T::V| p.holds(m)
}

/// `f` as a function on models.
pub open spec fn imaging<T: DeepView, M: Mapping<T>>(f: M) -> spec_fn(T::V) -> <M::Out as DeepView>::V {
    |m: T::V| f.image(m)
}

/// `f` as a key function on models.
pub open spec fn keying<T: DeepView, K: Keying<T>>(f: K) -> spec_fn(T::V) -> K::Key {
    |m: T::V| f.key_of(m)
}

/// The predicate can be asked about every element of `s`.
pub open spec fn can_test<T: DeepView, P: Predicate<T>>(p: P, s: Seq<T::V>) -> bool {
    forall|i: int| 0 <= i < s.len() ==> p.ready(#[trigger] s[i])
}

/// The function can be applied to every element of `s`.
pub open spec fn can_apply<T: DeepView, M: Mapping<T>>(f: M, s: Seq<T::V>) -> bool {
    forall|i: int| 0 <= i < s.len() ==> f.ready(#[trigger] s[i])
}

/// The key function can be applied to every element of `s`.
pub open spec fn can_key<T: DeepView, K: Keying<T>>(f: K, s: Seq<T::V>) -> bool {
    forall|i: int| 0 <= i < s.len() ==> f.ready(#[trigger] s[i])
}

/// The predicate `f` can be called on every item whose model occurs in `s`,
/// and answers alike on items with the same model.
pub open spec fn decides<T: DeepView, F: Fn(&T) -> bool>(f: F, s: Seq<T::V>) -> bool {
    &&& forall|x: T| s.contains(#[trigger] x.deep_view()) ==> f.requires((&x,))
    &&& forall|x: T, y: T|
        x.deep_view() == y.deep_view() && s.contains(x.deep_view()) && #[trigger] f.ensures(
            (&x,),
            true,
        ) ==> !#[trigger] f.ensures((&y,), false)
}

/// The predicate `f` holds of the items whose model is `m`.
pub open spec fn accepts<T: DeepView, F: Fn(&T) -> bool>(f: F, m: T::V) -> bool {
    exists|x: T| x.deep_view() == m && #[trigger] f.ensures((&x,), true)
}

/// `f` as a predicate on models.
pub open spec fn accepted<T: DeepView, F: Fn(&T) -> bool>(f: F) -> spec_fn(T::V) -> bool {
    |m: T::V| accepts(f, m)
}

/// `decides` is kept when the sequence shrinks to some of its elements.
pub proof fn lemma_decides_subsequence<T: DeepView, F: Fn(&T) -> bool>(
    f: F,
    s: Seq<T::V>,
    t: Seq<T::V>,
)
    requires
        decides(f, s),
        forall|i: int| 0 <= i < t.len() ==> s.contains(#[trigger] t[i]),
    ensures
        decides(f, t),
{
    assert forall|x: T| t.contains(#[trigger] x.deep_view()) implies s.contains(
        x.deep_view(),
    ) by {
        let i = choose|i: int| 0 <= i < t.len() && t[i] == x.deep_view();
        assert(s.contains(t[i]));
    }
}

/// After a call of `f` on an item with model `m`, the answer is `accepts(f, m)`.
pub proof fn lemma_decided<T: DeepView, F: Fn(&T) -> bool>(f: F, s: Seq<T::V>, x: T, b: bool)
    requires
        decides(f, s),
        s.contains(x.deep_view()),
        f.ensures((&x,), b),
    ensures
        b == accepts(f, x.deep_view()),
{
    if !b && accepts(f, x.deep_view()) {
        let y = choose|y: T| y.deep_view() == x.deep_view() && #[trigger] f.ensures((&y,), true);
        assert(!f.ensures((&x,), false));
    }
}

/// The function `f` can be called on every item whose model occurs in `s`,
/// and its results on items with the same model have the same model.
pub open spec fn maps<T: DeepView, U: DeepView, F: Fn(T) -> U>(f: F, s: Seq<T::V>) -> bool {
    &&& forall|x: T| s.contains(#[trigger] x.deep_view()) ==> f.requires((x,))
    &&& forall|x: T, y: T, a: U, b: U|
        x.deep_view() == y.deep_view() && s.contains(x.deep_view()) && #[trigger] f.ensures(
            (x,),
            a,
        ) && #[trigger] f.ensures((y,), b) ==> a.deep_view() == b.deep_view()
}

/// `f` may return a value with model `v` on an item whose model is `m`.
pub open spec fn gives<T: DeepView, U: DeepView, F: Fn(T) -> U>(f: F, m: T::V, v: U::V) -> bool {
    exists|x: T, y: U| x.deep_view() == m && #[trigger] f.ensures((x,), y) && y.deep_view() == v
}

/// The model of what `f` returns on the items whose model is `m`.
pub open spec fn image<T: DeepView, U: DeepView, F: Fn(T) -> U>(f: F, m: T::V) -> U::V {
    choose|v: U::V| gives(f, m, v)
}

/// `f` as a function on models.
pub open spec fn mapped<T: DeepView, U: DeepView, F: Fn(T) -> U>(f: F) -> spec_fn(T::V) -> U::V {
    |m: T::V| image(f, m)
}

/// `maps` is kept when the sequence shrinks to some of its elements.
pub proof fn lemma_maps_subsequence<T: DeepView, U: DeepView, F: Fn(T) -> U>(
    f: F,
    s: Seq<T::V>,
    t: Seq<T::V>,
)
    requires
        maps(f, s),
        forall|i: int| 0 <= i < t.len() ==> s.contains(#[trigger] t[i]),
    ensures
        maps(f, t),
{
    assert forall|x: T| t.contains(#[trigger] x.deep_view()) implies s.contains(
        x.deep_view(),
    ) by {
        let i = choose|i: int| 0 <= i < t.len() && t[i] == x.deep_view();
        assert(s.contains(t[i]));
    }
}

/// After a call of `f` on an item with model `m`, the result's model is
/// `image(f, m)`.
pub proof fn lemma_mapped<T: DeepView, U: DeepView, F: Fn(T) -> U>(f: F, s: Seq<T::V>, x: T, y: U)
    requires
        maps(f, s),
        s.contains(x.deep_view()),
        f.ensures((x,), y),
    ensures
        y.deep_view() == image(f, x.deep_view()),
{
    let m = x.deep_view();
    assert(gives(f, m, y.deep_view()));
    let c = image(f, m);
    let (x2, y2) = choose|x2: T, y2: U|
        x2.deep_view() == m && #[trigger] f.ensures((x2,), y2) && y2.deep_view() == c;
    assert(f.ensures((x2,), y2));
}

/// The key function `f` can be called on every item whose model occurs in
/// `s`, and gives one key to all items with the same model.
pub open spec fn keys<T: DeepView, K, F: Fn(&T) -> K>(f: F, s: Seq<T::V>) -> bool {
    &&& forall|x: T| s.contains(#[trigger] x.deep_view()) ==> f.requires((&x,))
    &&& forall|x: T, y: T, a: K, b: K|
        x.deep_view() == y.deep_view() && s.contains(x.deep_view()) && #[trigger] f.ensures(
            (&x,),
            a,
        ) && #[trigger] f.ensures((&y,), b) ==> a == b
}

/// `f` may return `k` on an item whose model is `m`.
pub open spec fn gives_key<T: DeepView, K, F: Fn(&T) -> K>(f: F, m: T::V, k: K) -> bool {
    exists|x: T| x.deep_view() == m && #[trigger] f.ensures((&x,), k)
}

/// The key that `f` gives to the items whose model is `m`.
pub open spec fn key_of<T: DeepView, K, F: Fn(&T) -> K>(f: F, m: T::V) -> K {
    choose|k: K| gives_key(f, m, k)
}

/// `f` as a function on models.
pub open spec fn key_fn<T: DeepView, K, F: Fn(&T) -> K>(f: F) -> spec_fn(T::V) -> K {
    |m: T::V| key_of(f, m)
}

/// `keys` is kept when the sequence shrinks to some of its elements.
pub proof fn lemma_keys_subsequence<T: DeepView, K, F: Fn(&T) -> K>(
    f: F,
    s: Seq<T::V>,
    t: Seq<T::V>,
)
    requires
        keys(f, s),
        forall|i: int| 0 <= i < t.len() ==> s.contains(#[trigger] t[i]),
    ensures
        keys(f, t),
{
    assert forall|x: T| t.contains(#[trigger] x.deep_view()) implies s.contains(
        x.deep_view(),
    ) by {
        let i = choose|i: int| 0 <= i < t.len() && t[i] == x.deep_view();
        assert(s.contains(t[i]));
    }
}

/// After a call of `f` on an item with model `m`, the key is `key_of(f, m)`.
pub proof fn lemma_keyed<T: DeepView, K, F: Fn(&T) -> K>(f: F, s: Seq<T::V>, x: T, k: K)
    requires
        keys(f, s),
        s.contains(x.deep_view()),
        f.ensures((&x,), k),
    ensures
        k == key_of(f, x.deep_view()),
{
    let m = x.deep_view();
    assert(gives_key(f, m, k));
    let c = key_of(f, m);
    let y = choose|y: T| y.deep_view() == m && #[trigger] f.ensures((&y,), c);
    assert(f.ensures((&y,), c));
}

/// A closure as a predicate, a mapping or a key function.
pub struct Closure<F>(pub F);

impl<T: DeepView, F: Fn(&T) -> bool> Predicate<T> for Closure<F> {
    open spec fn ready(&self, m: T::V) -> bool {
        decides(self.0, seq![m])
    }

    open spec fn holds(&self, m: T::V) -> bool {
        accepts(self.0, m)
    }

    fn test(&self, x: &T) -> (b: bool) {
        assert(seq![x.deep_view()].contains(seq![x.deep_view()][0]));
        let b = (self.0)(x);
        proof {
            lemma_decided(self.0, seq![x.deep_view()], *x, b);
        }
        b
    }
}

impl<T: DeepView, U: DeepView, F: Fn(T) -> U> Mapping<T> for Closure<F> {
    type Out = U;

    open spec fn ready(&self, m: T::V) -> bool {
        maps(self.0, seq![m])
    }

    open spec fn image(&self, m: T::V) -> U::V {
        image(self.0, m)
    }

    fn apply(&self, x: T) -> (y: U) {
        assert(seq![x.deep_view()].contains(seq![x.deep_view()][0]));
        let y = (self.0)(x);
        proof {
            lemma_mapped(self.0, seq![x.deep_view()], x, y);
        }
        y
    }
}

impl<T: DeepView, K, F: Fn(&T) -> K> Keying<T> for Closure<F> {
    type Key = K;

    open spec fn ready(&self, m: T::V) -> bool {
        keys(self.0, seq![m])
    }

    open spec fn key_of(&self, m: T::V) -> K {
        key_of(self.0, m)
    }

    fn key(&self, x: &T) -> (k: K) {
        assert(seq![x.deep_view()].contains(seq![x.deep_view()][0]));
        let k = (self.0)(x);
        proof {
            lemma_keyed(self.0, seq![x.deep_view()], *x, k);
        }
        k
    }
}

/// A closure that decides on `s` can be asked about every element of `s`.
pub proof fn lemma_closure_tests<T: DeepView, F: Fn(&T) -> bool>(f: F, s: Seq<T::V>)
    requires
        decides(f, s),
    ensures
        can_test(Closure(f), s),
{
    assert forall|i: int| 0 <= i < s.len() implies decides(f, seq![#[trigger] s[i]]) by {
        lemma_decides_subsequence(f, s, seq![s[i]]);
    }
}

/// A closure that maps on `s` can be applied to every element of `s`.
pub proof fn lemma_closure_applies<T: DeepView, U: DeepView, F: Fn(T) -> U>(f: F, s: Seq<T::V>)
    requires
        maps(f, s),
    ensures
        can_apply(Closure(f), s),
{
    assert forall|i: int| 0 <= i < s.len() implies maps(f, seq![#[trigger] s[i]]) by {
        lemma_maps_subsequence(f, s, seq![s[i]]);
    }
}

/// A closure that keys on `s` can be applied to every element of `s`.
pub proof fn lemma_closure_keys<T: DeepView, K, F: Fn(&T) -> K>(f: F, s: Seq<T::V>)
    requires
        keys(f, s),
    ensures
        can_key(Closure(f), s),
{
    assert forall|i: int| 0 <= i < s.len() implies keys(f, seq![#[trigger] s[i]]) by {
        lemma_keys_subsequence(f, s, seq![s[i]]);
    }
}

} // verus!
