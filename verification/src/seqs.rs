//! Sequence vocabulary that the modules share, and how `filter` and
//! `flat_map` unfold at the front.

use vstd::prelude::*;

verus! {

/// `filter` looks at the first element, then at the rest.
pub proof fn lemma_filter_head<A>(s: Seq<A>, p: spec_fn(A) -> bool)
    requires
        s.len() > 0,
    ensures
        s.filter(p) == (if p(s[0]) {
            seq![s[0]]
        } else {
            Seq::empty()
        }) + s.skip(1).filter(p),
{
    reveal_with_fuel(Seq::filter, 2);
    assert(s == seq![s[0]] + s.skip(1));
    Seq::filter_distributes_over_add(seq![s[0]], s.skip(1), p);
    assert(seq![s[0]].drop_last() =~= Seq::empty());
    assert(seq![s[0]].filter(p) =~= if p(s[0]) {
        seq![s[0]]
    } else {
        Seq::empty()
    });
}

/// `flat_map` of nothing is nothing.
pub proof fn lemma_flat_map_empty<A, B>(s: Seq<A>, g: spec_fn(A) -> Seq<B>)
    requires
        s.len() == 0,
    ensures
        s.flat_map(g) == Seq::<B>::empty(),
{
}

/// `flat_map` lays out what the first element gives, then what the rest gives.
pub proof fn lemma_flat_map_head<A, B>(s: Seq<A>, g: spec_fn(A) -> Seq<B>)
    requires
        s.len() > 0,
    ensures
        s.flat_map(g) == g(s[0]) + s.skip(1).flat_map(g),
{
    let m = s.map_values(g);
    assert(m.drop_first() =~= s.skip(1).map_values(g));
    assert(m.first() == g(s[0]));
}

/// Two functions that agree on the elements of `s` give the same `flat_map`.
pub proof fn lemma_flat_map_agree<A, B>(s: Seq<A>, g: spec_fn(A) -> Seq<B>, h: spec_fn(A) -> Seq<B>)
    requires
        forall|i: int| 0 <= i < s.len() ==> g(#[trigger] s[i]) == h(s[i]),
    ensures
        s.flat_map(g) == s.flat_map(h),
{
    assert(s.map_values(g) =~= s.map_values(h));
}

/// How many elements stand at the front of `s` before the first of which `p`
/// does not hold.
pub open spec fn leading<A>(s: Seq<A>, p: spec_fn(A) -> bool) -> nat
    decreases s.len(),
{
    if s.len() == 0 || !p(s[0]) {
        0
    } else {
        1 + leading(s.skip(1), p)
    }
}

/// No more elements lead than there are.
pub proof fn lemma_leading_bound<A>(s: Seq<A>, p: spec_fn(A) -> bool)
    ensures
        leading(s, p) <= s.len(),
    decreases s.len(),
{
    if s.len() > 0 && p(s[0]) {
        lemma_leading_bound(s.skip(1), p);
    }
}

/// Every element of a sequence but the first is an element of the sequence,
/// and so is the first.
pub proof fn lemma_tail_within<A>(s: Seq<A>)
    requires
        s.len() > 0,
    ensures
        s.contains(s[0]),
        forall|i: int| 0 <= i < s.skip(1).len() ==> s.contains(#[trigger] s.skip(1)[i]),
{
    assert forall|i: int| 0 <= i < s.skip(1).len() implies s.contains(#[trigger] s.skip(1)[i]) by {
        assert(s[i + 1] == s.skip(1)[i]);
    }
}

/// The first occurrence of each element of `s` that is not in `seen`.
pub open spec fn fresh<A>(s: Seq<A>, seen: Set<A>) -> Seq<A>
    decreases s.len(),
{
    if s.len() == 0 {
        Seq::empty()
    } else if seen.contains(s[0]) {
        fresh(s.skip(1), seen)
    } else {
        seq![s[0]] + fresh(s.skip(1), seen.insert(s[0]))
    }
}

/// Removing duplicates after `seen` gives `seen`, then the first occurrences
/// of what `seen` does not hold.
pub proof fn lemma_remove_duplicates_fresh<A>(s: Seq<A>, seen: Seq<A>)
    ensures
        s.remove_duplicates(seen) == seen + fresh(s, seen.to_set()),
    decreases s.len(),
{
    if s.len() == 0 {
        assert(seen + fresh(s, seen.to_set()) =~= seen);
    } else if seen.contains(s[0]) {
        lemma_remove_duplicates_fresh(s.skip(1), seen);
    } else {
        let next = seen + seq![s[0]];
        lemma_remove_duplicates_fresh(s.skip(1), next);
        assert(next.to_set() =~= seen.to_set().insert(s[0])) by {
            assert forall|x: A| next.to_set().contains(x) <==> seen.to_set().insert(
                s[0],
            ).contains(x) by {
                if next.contains(x) {
                    let i = choose|i: int| 0 <= i < next.len() && next[i] == x;
                    if i < seen.len() {
                        assert(seen[i] == x);
                    }
                }
                if seen.contains(x) {
                    let i = choose|i: int| 0 <= i < seen.len() && seen[i] == x;
                    assert(next[i] == x);
                }
                if x == s[0] {
                    assert(next[seen.len() as int] == x);
                }
            }
        }
        assert(next + fresh(s.skip(1), next.to_set()) =~= seen + (seq![s[0]] + fresh(
            s.skip(1),
            seen.to_set().insert(s[0]),
        )));
    }
}

/// What is fresh holds nothing of `seen` and nothing twice.
pub proof fn lemma_fresh_distinct<A>(s: Seq<A>, seen: Set<A>)
    ensures
        fresh(s, seen).no_duplicates(),
        forall|i: int| 0 <= i < fresh(s, seen).len() ==> !seen.contains(#[trigger] fresh(s, seen)[i]),
    decreases s.len(),
{
    if s.len() == 0 {
    } else if seen.contains(s[0]) {
        lemma_fresh_distinct(s.skip(1), seen);
    } else {
        let rest = fresh(s.skip(1), seen.insert(s[0]));
        lemma_fresh_distinct(s.skip(1), seen.insert(s[0]));
        let all = seq![s[0]] + rest;
        assert forall|i: int, j: int| 0 <= i < all.len() && 0 <= j < all.len() && i != j implies all[i]
            != all[j] by {
            if i > 0 {
                assert(all[i] == rest[i - 1]);
            }
            if j > 0 {
                assert(all[j] == rest[j - 1]);
            }
        }
        assert forall|i: int| 0 <= i < all.len() implies !seen.contains(#[trigger] all[i]) by {
            if i > 0 {
                assert(all[i] == rest[i - 1]);
            }
        }
    }
}

/// Taking what is fresh of what is fresh changes nothing.
pub proof fn lemma_fresh_again<A>(s: Seq<A>, seen: Set<A>)
    ensures
        fresh(fresh(s, seen), seen) == fresh(s, seen),
    decreases s.len(),
{
    if s.len() == 0 {
    } else if seen.contains(s[0]) {
        lemma_fresh_again(s.skip(1), seen);
    } else {
        let rest = fresh(s.skip(1), seen.insert(s[0]));
        lemma_fresh_again(s.skip(1), seen.insert(s[0]));
        let all = seq![s[0]] + rest;
        assert(all[0] == s[0]);
        assert(all.skip(1) =~= rest);
    }
}

/// The elements of `s` whose key is `k`, in order.
pub open spec fn matching<A, K>(s: Seq<A>, key: spec_fn(A) -> K, k: K) -> Seq<A> {
    s.filter(|x: A| key(x) == k)
}

} // verus!
