//! Hash joins: inner and left outer.
//!
//! Both joins drain the right-hand stage into buckets when they are built
//! and then probe the buckets once per left item, lazily.

use crate::function::{can_key, Keying, keying};
use crate::grouping::{
    distinct_keys, lemma_distinct_keys_once, lemma_distinct_keys_push, lemma_matching_members,
    lemma_matching_push,
};
use crate::seqs::{
    lemma_filter_head, lemma_flat_map_agree, lemma_flat_map_empty, lemma_flat_map_head, matching,
};
use crate::stage::{clone_keeps_view, Stage};
use std::collections::HashMap;
use std::hash::Hash;
use vstd::prelude::*;
use vstd::std_specs::hash::obeys_key_model;

verus! {

/// `l` paired with each element of `rs`.
pub open spec fn pairs<L, R>(l: L, rs: Seq<R>) -> Seq<(L, R)> {
    rs.map_values(|r: R| (l, r))
}

/// The rows that a left join gives for `l` when `rs` are its matches: one per
/// match, or one row without a right value when there is no match.
pub open spec fn outer_pairs<L, R>(l: L, rs: Seq<R>) -> Seq<(L, Option<R>)> {
    if rs.len() == 0 {
        seq![(l, None)]
    } else {
        rs.map_values(|r: R| (l, Some(r)))
    }
}

/// The rows of the inner join of `left` and `right`: for each left element
/// in turn, one row per right element with the same key, in right order.
pub open spec fn inner_rows<L, R, K>(
    left: Seq<L>,
    right: Seq<R>,
    left_key: spec_fn(L) -> K,
    right_key: spec_fn(R) -> K,
) -> Seq<(L, R)> {
    left.flat_map(|l: L| pairs(l, matching(right, right_key, left_key(l))))
}

/// The rows of the left join of `left` and `right`: as the inner join, but a
/// left element without a match gives one row with no right value.
pub open spec fn left_rows<L, R, K>(
    left: Seq<L>,
    right: Seq<R>,
    left_key: spec_fn(L) -> K,
    right_key: spec_fn(R) -> K,
) -> Seq<(L, Option<R>)> {
    left.flat_map(|l: L| outer_pairs(l, matching(right, right_key, left_key(l))))
}

/// How many elements of `s` have key `k`.
pub open spec fn count_of<A, K>(s: Seq<A>, key: spec_fn(A) -> K, k: K) -> nat {
    matching(s, key, k).len()
}

/// The keys that both sides have, in the order in which the left side
/// first shows them.
pub open spec fn shared_keys<L, R, K>(
    left: Seq<L>,
    right: Seq<R>,
    left_key: spec_fn(L) -> K,
    right_key: spec_fn(R) -> K,
) -> Seq<K> {
    distinct_keys(left, left_key).filter(|k: K| right.map_values(right_key).contains(k))
}

/// The sum, over the keys `ks`, of the number of left elements with the
/// key times the number of right elements with it.
pub open spec fn pair_count<L, R, K>(
    ks: Seq<K>,
    left: Seq<L>,
    right: Seq<R>,
    left_key: spec_fn(L) -> K,
    right_key: spec_fn(R) -> K,
) -> nat
    decreases ks.len(),
{
    if ks.len() == 0 {
        0
    } else {
        pair_count(ks.drop_last(), left, right, left_key, right_key) + count_of(
            left,
            left_key,
            ks.last(),
        ) * count_of(right, right_key, ks.last())
    }
}

/// The sum, over the left elements, of the number of right elements with
/// the same key.
pub open spec fn match_count<L, R, K>(
    left: Seq<L>,
    right: Seq<R>,
    left_key: spec_fn(L) -> K,
    right_key: spec_fn(R) -> K,
) -> nat
    decreases left.len(),
{
    if left.len() == 0 {
        0
    } else {
        match_count(left.drop_last(), right, left_key, right_key) + count_of(
            right,
            right_key,
            left_key(left.last()),
        )
    }
}

/// The left elements that have no match.
pub open spec fn unmatched<L, R, K>(
    left: Seq<L>,
    right: Seq<R>,
    left_key: spec_fn(L) -> K,
    right_key: spec_fn(R) -> K,
) -> Seq<L> {
    left.filter(|l: L| count_of(right, right_key, left_key(l)) == 0)
}

/// The inner join has as many rows as the left elements have matches.
proof fn lemma_inner_rows_len<L, R, K>(
    left: Seq<L>,
    right: Seq<R>,
    left_key: spec_fn(L) -> K,
    right_key: spec_fn(R) -> K,
)
    ensures
        inner_rows(left, right, left_key, right_key).len() == match_count(
            left,
            right,
            left_key,
            right_key,
        ),
    decreases left.len(),
{
    if left.len() > 0 {
        let t = left.drop_last();
        let x = left.last();
        let f = |l: L| pairs(l, matching(right, right_key, left_key(l)));
        assert(t.push(x) =~= left);
        t.lemma_flat_map_push(f, x);
        lemma_inner_rows_len(t, right, left_key, right_key);
    }
}

/// One more left element adds its matches to the sum over a duplicate-free
/// list of keys, if its key is on the list.
proof fn lemma_pair_count_push<L, R, K>(
    ks: Seq<K>,
    left: Seq<L>,
    right: Seq<R>,
    left_key: spec_fn(L) -> K,
    right_key: spec_fn(R) -> K,
    x: L,
)
    requires
        ks.no_duplicates(),
    ensures
        pair_count(ks, left.push(x), right, left_key, right_key) == pair_count(
            ks,
            left,
            right,
            left_key,
            right_key,
        ) + if ks.contains(left_key(x)) {
            count_of(right, right_key, left_key(x))
        } else {
            0
        },
    decreases ks.len(),
{
    if ks.len() > 0 {
        let k = ks.last();
        let rest = ks.drop_last();
        lemma_pair_count_push(rest, left, right, left_key, right_key, x);
        lemma_matching_push(left, left_key, x, k);
        let c = count_of(left, left_key, k) as int;
        let m = count_of(right, right_key, k) as int;
        assert((c + 1) * m == c * m + m) by (nonlinear_arith);
        if k == left_key(x) {
            assert(!rest.contains(k)) by {
                if rest.contains(k) {
                    let i = choose|i: int| 0 <= i < rest.len() && rest[i] == k;
                    assert(ks[i] == ks[ks.len() - 1]);
                }
            }
            assert(ks.contains(k)) by {
                assert(ks[ks.len() - 1] == k);
            }
        } else {
            assert(rest.contains(left_key(x)) == ks.contains(left_key(x))) by {
                if ks.contains(left_key(x)) {
                    let i = choose|i: int| 0 <= i < ks.len() && ks[i] == left_key(x);
                    assert(rest[i] == left_key(x));
                }
                if rest.contains(left_key(x)) {
                    let i = choose|i: int| 0 <= i < rest.len() && rest[i] == left_key(x);
                    assert(ks[i] == left_key(x));
                }
            }
        }
    }
}

/// The matches of the left elements, counted key by key.
proof fn lemma_match_count_by_key<L, R, K>(
    left: Seq<L>,
    right: Seq<R>,
    left_key: spec_fn(L) -> K,
    right_key: spec_fn(R) -> K,
)
    ensures
        match_count(left, right, left_key, right_key) == pair_count(
            distinct_keys(left, left_key),
            left,
            right,
            left_key,
            right_key,
        ),
    decreases left.len(),
{
    if left.len() == 0 {
        assert(left.map_values(left_key) =~= Seq::empty());
    } else {
        let t = left.drop_last();
        let x = left.last();
        let k = left_key(x);
        let d = distinct_keys(t, left_key);
        assert(t.push(x) =~= left);
        lemma_match_count_by_key(t, right, left_key, right_key);
        lemma_distinct_keys_push(t, left_key, x);
        lemma_distinct_keys_once(t, left_key);
        lemma_pair_count_push(d, t, right, left_key, right_key, x);
        if !d.contains(k) {
            lemma_matching_members(t, left_key, k);
            lemma_matching_push(t, left_key, x, k);
            assert(d.push(k).drop_last() =~= d);
            let m = count_of(right, right_key, k) as int;
            assert(1 * m == m) by (nonlinear_arith);
            assert(matching(t, left_key, k).push(x).len() == 1);
        }
    }
}

/// Keys that the right side lacks add nothing to the sum.
proof fn lemma_pair_count_shared<L, R, K>(
    ks: Seq<K>,
    left: Seq<L>,
    right: Seq<R>,
    left_key: spec_fn(L) -> K,
    right_key: spec_fn(R) -> K,
)
    ensures
        pair_count(
            ks.filter(|k: K| right.map_values(right_key).contains(k)),
            left,
            right,
            left_key,
            right_key,
        ) == pair_count(ks, left, right, left_key, right_key),
    decreases ks.len(),
{
    let p = |k: K| right.map_values(right_key).contains(k);
    reveal_with_fuel(Seq::filter, 2);
    if ks.len() > 0 {
        let k = ks.last();
        let rest = ks.drop_last();
        lemma_pair_count_shared(rest, left, right, left_key, right_key);
        if p(k) {
            assert(ks.filter(p).drop_last() =~= rest.filter(p));
        } else {
            lemma_matching_members(right, right_key, k);
            let c = count_of(left, left_key, k) as int;
            assert(c * 0 == 0) by (nonlinear_arith);
        }
    }
}

/// The number of rows of an inner join is the sum, over the keys that both
/// sides have, of the number of left elements with the key times the
/// number of right elements with it.
pub proof fn inner_join_count<L, R, K>(
    left: Seq<L>,
    right: Seq<R>,
    left_key: spec_fn(L) -> K,
    right_key: spec_fn(R) -> K,
)
    ensures
        inner_rows(left, right, left_key, right_key).len() == pair_count(
            shared_keys(left, right, left_key, right_key),
            left,
            right,
            left_key,
            right_key,
        ),
{
    lemma_inner_rows_len(left, right, left_key, right_key);
    lemma_match_count_by_key(left, right, left_key, right_key);
    lemma_pair_count_shared(distinct_keys(left, left_key), left, right, left_key, right_key);
}

/// One more right element adds, to the matches of the left elements, the
/// left elements with its key.
proof fn lemma_match_count_right_push<L, R, K>(
    left: Seq<L>,
    right: Seq<R>,
    left_key: spec_fn(L) -> K,
    right_key: spec_fn(R) -> K,
    y: R,
)
    ensures
        match_count(left, right.push(y), left_key, right_key) == match_count(
            left,
            right,
            left_key,
            right_key,
        ) + count_of(left, left_key, right_key(y)),
    decreases left.len(),
{
    if left.len() == 0 {
        assert(matching(left, left_key, right_key(y)) =~= Seq::empty());
    } else {
        let t = left.drop_last();
        let x = left.last();
        assert(t.push(x) =~= left);
        lemma_match_count_right_push(t, right, left_key, right_key, y);
        lemma_matching_push(right, right_key, y, left_key(x));
        lemma_matching_push(t, left_key, x, right_key(y));
    }
}

/// An inner join has as many rows whichever side is taken as the left one.
pub proof fn inner_join_symmetric<L, R, K>(
    left: Seq<L>,
    right: Seq<R>,
    left_key: spec_fn(L) -> K,
    right_key: spec_fn(R) -> K,
)
    ensures
        inner_rows(left, right, left_key, right_key).len() == inner_rows(
            right,
            left,
            right_key,
            left_key,
        ).len(),
    decreases left.len(),
{
    lemma_inner_rows_len(left, right, left_key, right_key);
    lemma_inner_rows_len(right, left, right_key, left_key);
    if left.len() == 0 {
        lemma_match_count_none(right, left, right_key, left_key);
    } else {
        let t = left.drop_last();
        let x = left.last();
        assert(t.push(x) =~= left);
        inner_join_symmetric(t, right, left_key, right_key);
        lemma_inner_rows_len(t, right, left_key, right_key);
        lemma_inner_rows_len(right, t, right_key, left_key);
        lemma_match_count_right_push(right, t, right_key, left_key, x);
    }
}

/// Against an empty right side nothing matches.
proof fn lemma_match_count_none<L, R, K>(
    left: Seq<L>,
    right: Seq<R>,
    left_key: spec_fn(L) -> K,
    right_key: spec_fn(R) -> K,
)
    requires
        right.len() == 0,
    ensures
        match_count(left, right, left_key, right_key) == 0,
    decreases left.len(),
{
    if left.len() > 0 {
        lemma_match_count_none(left.drop_last(), right, left_key, right_key);
        assert(matching(right, right_key, left_key(left.last())) =~= Seq::empty());
    }
}

/// A row with a right value.
pub open spec fn is_match<L, R>() -> spec_fn((L, Option<R>)) -> bool {
    |row: (L, Option<R>)| row.1 is Some
}

/// A row without a right value.
pub open spec fn is_no_match<L, R>() -> spec_fn((L, Option<R>)) -> bool {
    |row: (L, Option<R>)| row.1 is None
}

/// Of the rows that a left join gives for one left element, those with a
/// right value are as many as its matches, and one is without if it has
/// no match.
proof fn lemma_outer_pairs_split<L, R>(l: L, rs: Seq<R>)
    ensures
        outer_pairs(l, rs).filter(is_match::<L, R>()).len() == rs.len(),
        outer_pairs(l, rs).filter(is_no_match::<L, R>()).len() == if rs.len() == 0 {
            1nat
        } else {
            0nat
        },
    decreases rs.len(),
{
    reveal_with_fuel(Seq::filter, 2);
    let rows = outer_pairs(l, rs);
    if rs.len() == 0 {
        assert(rows.drop_last() =~= Seq::empty());
    } else if rs.len() == 1 {
        assert(rows.drop_last() =~= Seq::empty());
    } else {
        lemma_outer_pairs_split(l, rs.drop_last());
        assert(rows.drop_last() =~= outer_pairs(l, rs.drop_last()));
    }
}

/// A left join gives one row for each match and one for each left element
/// without a match: the rows with a right value are as many as the rows of
/// the inner join, the rows without are as many as the left elements
/// without a match, and there are no other rows. Every left element stands
/// in some row.
pub proof fn left_join_count<L, R, K>(
    left: Seq<L>,
    right: Seq<R>,
    left_key: spec_fn(L) -> K,
    right_key: spec_fn(R) -> K,
)
    ensures
        left_rows(left, right, left_key, right_key).filter(is_match::<L, R>()).len() == inner_rows(
            left,
            right,
            left_key,
            right_key,
        ).len(),
        left_rows(left, right, left_key, right_key).filter(is_no_match::<L, R>()).len()
            == unmatched(left, right, left_key, right_key).len(),
        left_rows(left, right, left_key, right_key).len() == inner_rows(
            left,
            right,
            left_key,
            right_key,
        ).len() + unmatched(left, right, left_key, right_key).len(),
        forall|i: int|
            0 <= i < left.len() ==> exists|j: int|
                0 <= j < left_rows(left, right, left_key, right_key).len() && (#[trigger] left_rows(
                    left,
                    right,
                    left_key,
                    right_key,
                )[j]).0 == #[trigger] left[i],
    decreases left.len(),
{
    let rows = left_rows(left, right, left_key, right_key);
    if left.len() == 0 {
        assert(rows =~= Seq::empty());
        assert(inner_rows(left, right, left_key, right_key) =~= Seq::empty());
    } else {
        let t = left.drop_last();
        let x = left.last();
        let f = |l: L| outer_pairs(l, matching(right, right_key, left_key(l)));
        let g = |l: L| pairs(l, matching(right, right_key, left_key(l)));
        let p = |l: L| count_of(right, right_key, left_key(l)) == 0;
        assert(t.push(x) =~= left);
        t.lemma_flat_map_push(f, x);
        t.lemma_flat_map_push(g, x);
        t.lemma_filter_push(x, p);
        left_join_count(t, right, left_key, right_key);
        let before = left_rows(t, right, left_key, right_key);
        assert(rows =~= before + f(x));
        Seq::filter_distributes_over_add(before, f(x), is_match::<L, R>());
        Seq::filter_distributes_over_add(before, f(x), is_no_match::<L, R>());
        lemma_outer_pairs_split(x, matching(right, right_key, left_key(x)));
        assert forall|i: int| 0 <= i < left.len() implies exists|j: int|
            0 <= j < rows.len() && (#[trigger] rows[j]).0 == #[trigger] left[i] by {
            if i < t.len() {
                assert(t[i] == left[i]);
                let j = choose|j: int| 0 <= j < before.len() && (#[trigger] before[j]).0 == t[i];
                assert(rows[j] == before[j]);
            } else {
                assert(f(x).len() > 0);
                assert(f(x)[0].0 == x);
                assert(rows[before.len() as int] == f(x)[0]);
            }
        }
    }
}

/// What the bucket map holds under `k`, as models; nothing where `k` is absent.
pub open spec fn bucket<R: DeepView, K>(map: Map<K, Vec<R>>, k: K) -> Seq<R::V> {
    if map.contains_key(k) {
        map[k].deep_view()
    } else {
        Seq::empty()
    }
}

/// Drains `right` into buckets by key, keeping the order within each bucket.
fn build_buckets<J, K, FR>(right: J, right_key: FR) -> (map: HashMap<K, Vec<J::Item>>) where
    J: Stage,
    K: Eq + Hash,
    FR: Keying<J::Item, Key = K>,

    requires
        right.wf(),
        obeys_key_model::<K>(),
        can_key(right_key, right.remaining()),
    ensures
        forall|k: K|
            #[trigger] bucket(map@, k) == matching(right.remaining(), keying(right_key), k),
{
    broadcast use vstd::std_specs::hash::group_hash_axioms;

    let mut source = right;
    let ghost all = right.remaining();
    let ghost rk = keying(right_key);
    let mut map: HashMap<K, Vec<J::Item>> = HashMap::new();
    assert forall|k: K| #[trigger] bucket(map@, k) + matching(source.remaining(), rk, k) == matching(
        all,
        rk,
        k,
    ) by {
        assert(bucket(map@, k) + matching(all, rk, k) =~= matching(all, rk, k));
    }
    loop
        invariant
            source.wf(),
            obeys_key_model::<K>(),
            can_key(right_key, source.remaining()),
            all == right.remaining(),
            rk == keying(right_key),
            forall|k: K| #[trigger]
                bucket(map@, k) + matching(source.remaining(), rk, k) == matching(all, rk, k),
        decreases source.remaining().len(),
    {
        let ghost before = source.remaining();
        let ghost old_map = map@;
        match source.next() {
            None => {
                assert forall|k: K| #[trigger] bucket(map@, k) == matching(all, rk, k) by {
                    assert(matching(before, rk, k) =~= Seq::empty());
                    assert(bucket(map@, k) + matching(before, rk, k) =~= bucket(map@, k));
                }
                return map;
            },
            Some(item) => {
                proof {
                    assert(before.contains(before[0]));
                    assert forall|i: int| 0 <= i < before.skip(1).len() implies right_key.ready(
                        #[trigger] before.skip(1)[i],
                    ) by {
                        assert(before.skip(1)[i] == before[i + 1]);
                    }
                }
                let key = right_key.key(&item);
                assert(key == rk(item.deep_view()));
                let slot = map.entry(key).or_insert(Vec::new());
                slot.push(item);
                proof {
                    let m = item.deep_view();
                    assert(map@.contains_key(key));
                    assert(map@[key]@ == (if old_map.contains_key(key) {
                        old_map[key]@
                    } else {
                        Seq::empty()
                    }).push(item));
                    assert(bucket(map@, key) =~= bucket(old_map, key).push(m));
                    assert forall|k: K| #[trigger]
                        bucket(map@, k) + matching(source.remaining(), rk, k) == matching(
                            all,
                            rk,
                            k,
                        ) by {
                        lemma_filter_head(before, |r: <J::Item as DeepView>::V| rk(r) == k);
                        assert(bucket(old_map, k) + matching(before, rk, k) == matching(all, rk, k));
                        if k == key {
                            assert(bucket(map@, k) + matching(before.skip(1), rk, k) =~= bucket(
                                old_map,
                                k,
                            ) + matching(before, rk, k));
                        } else {
                            assert(map@.contains_key(k) == old_map.contains_key(k));
                            assert(bucket(map@, k) == bucket(old_map, k));
                            assert(matching(before.skip(1), rk, k) =~= matching(before, rk, k));
                        }
                    }
                }
            },
        }
    }
}

/// The inner join of a left stage with buckets built from a right stage.
pub struct InnerJoinIterator<I: Stage, R, FL: Keying<I::Item>> {
    left: I,
    right_map: HashMap<FL::Key, Vec<R>>,
    left_key: FL,
    current_left: Option<I::Item>,
    current_right_idx: usize,
}

impl<I, R, FL> InnerJoinIterator<I, R, FL> where
    I: Stage,
    I::Item: Clone,
    R: DeepView + Clone,
    FL: Keying<I::Item>,
    FL::Key: Eq + Hash,
 {
    /// Models of the left items that the key function may still be called on:
    /// the held one, then those still to be pulled.
    pub closed spec fn pending_left(&self) -> Seq<<I::Item as DeepView>::V> {
        match self.current_left {
            Some(l) => seq![l.deep_view()] + self.left.remaining(),
            None => self.left.remaining(),
        }
    }

    /// The rows still owed for the held left item.
    pub closed spec fn current_rows(&self) -> Seq<(<I::Item as DeepView>::V, R::V)> {
        match self.current_left {
            Some(l) => {
                let b = bucket(self.right_map@, self.left_key.key_of(l.deep_view()));
                if self.current_right_idx < b.len() {
                    pairs(l.deep_view(), b.skip(self.current_right_idx as int))
                } else {
                    Seq::empty()
                }
            },
            None => Seq::empty(),
        }
    }

    /// The rows that the left items still to be pulled will give.
    pub closed spec fn later_rows(&self) -> Seq<(<I::Item as DeepView>::V, R::V)> {
        self.left.remaining().flat_map(
            |l: <I::Item as DeepView>::V|
                pairs(l, bucket(self.right_map@, self.left_key.key_of(l))),
        )
    }

    /// Builds the join: drains `right` into buckets at once; `left` is pulled
    /// only as rows are asked for.
    pub fn new<J, FR>(left: I, right: J, left_key: FL, right_key: FR) -> (r: Self) where
        J: Stage<Item = R>,
        FR: Keying<R, Key = FL::Key>,

        requires
            left.wf(),
            right.wf(),
            obeys_key_model::<FL::Key>(),
            clone_keeps_view::<I::Item>(),
            clone_keeps_view::<R>(),
            can_key(left_key, left.remaining()),
            can_key(right_key, right.remaining()),
        ensures
            r.wf(),
            r.remaining() == inner_rows(
                left.remaining(),
                right.remaining(),
                keying(left_key),
                keying(right_key),
            ),
    {
        let right_map = build_buckets(right, right_key);
        let r = InnerJoinIterator {
            left,
            right_map,
            left_key,
            current_left: None,
            current_right_idx: 0,
        };
        proof {
            let g = |l: <I::Item as DeepView>::V|
                pairs(l, bucket(r.right_map@, r.left_key.key_of(l)));
            let lk = keying(left_key);
            let rk = keying(right_key);
            let h = |l: <I::Item as DeepView>::V| pairs(l, matching(right.remaining(), rk, lk(l)));
            assert forall|i: int| 0 <= i < left.remaining().len() implies g(
                #[trigger] left.remaining()[i],
            ) == h(left.remaining()[i]) by {
                let l = left.remaining()[i];
                assert(bucket(r.right_map@, lk(l)) == matching(right.remaining(), rk, lk(l)));
            }
            lemma_flat_map_agree(left.remaining(), g, h);
            assert(r.current_rows() + r.later_rows() =~= r.later_rows());
        }
        r
    }
}

impl<I, R, FL> Stage for InnerJoinIterator<I, R, FL> where
    I: Stage,
    I::Item: Clone,
    R: DeepView + Clone,
    FL: Keying<I::Item>,
    FL::Key: Eq + Hash,
 {
    type Item = (I::Item, R);

    closed spec fn wf(&self) -> bool {
        &&& self.left.wf()
        &&& obeys_key_model::<FL::Key>()
        &&& clone_keeps_view::<I::Item>()
        &&& clone_keeps_view::<R>()
        &&& can_key(self.left_key, self.pending_left())
    }

    closed spec fn remaining(&self) -> Seq<(<I::Item as DeepView>::V, R::V)> {
        self.current_rows() + self.later_rows()
    }

    fn next(&mut self) -> (r: Option<(I::Item, R)>) {
        broadcast use vstd::std_specs::hash::group_hash_axioms;

        loop
            invariant
                self.wf(),
                self.remaining() == old(self).remaining(),
            decreases self.left.remaining().len(),
        {
            let ghost rows = self.remaining();
            if let Some(left_item) = &self.current_left {
                assert(self.pending_left().contains(self.pending_left()[0]));
                let key = self.left_key.key(left_item);
                let ghost held = left_item.deep_view();
                let ghost b = bucket(self.right_map@, key);
                if let Some(right_items) = self.right_map.get(&key) {
                    assert(b == right_items.deep_view());
                    if self.current_right_idx < right_items.len() {
                        let ghost idx = self.current_right_idx as int;
                        let ghost pending = self.pending_left();
                        let right_item = right_items[self.current_right_idx].clone();
                        let left_out = self.current_left.take().unwrap();
                        self.current_right_idx += 1;
                        if self.current_right_idx < right_items.len() {
                            let again = left_out.clone();
                            assert(cloned(left_out, again));
                            self.current_left = Some(again);
                        }
                        proof {
                            assert(cloned(right_items[idx], right_item));
                            assert(right_item.deep_view() == b[idx]);
                            assert(self.pending_left() =~= pending || self.pending_left()
                                =~= pending.skip(1));
                            assert forall|i: int| 0 <= i < self.pending_left().len() implies pending.contains(
                                #[trigger] self.pending_left()[i],
                            ) by {
                                if self.pending_left() =~= pending {
                                    assert(pending[i] == self.pending_left()[i]);
                                } else {
                                    assert(pending[i + 1] == self.pending_left()[i]);
                                }
                            }
                            assert forall|i: int| 0 <= i < self.pending_left().len() implies self.left_key.ready(
                                #[trigger] self.pending_left()[i],
                            ) by {
                                let j = choose|j: int|
                                    0 <= j < pending.len() && pending[j] == self.pending_left()[i];
                                assert(self.left_key.ready(pending[j]));
                            }
                            assert(self.current_rows() =~= pairs(held, b.skip(idx)).skip(1));
                            assert(self.remaining() =~= rows.skip(1));
                            assert(rows[0] == (held, b[idx]));
                        }
                        return Some((left_out, right_item));
                    }
                }
                proof {
                    assert(self.current_rows() =~= Seq::empty());
                }
                let ghost pending = self.pending_left();
                self.current_left = None;
                self.current_right_idx = 0;
                proof {
                    assert(self.pending_left() =~= pending.skip(1));
                    assert forall|i: int| 0 <= i < self.pending_left().len() implies pending.contains(
                        #[trigger] self.pending_left()[i],
                    ) by {
                        assert(pending[i + 1] == self.pending_left()[i]);
                    }
                    assert forall|i: int| 0 <= i < self.pending_left().len() implies self.left_key.ready(
                        #[trigger] self.pending_left()[i],
                    ) by {
                        let j = choose|j: int|
                            0 <= j < pending.len() && pending[j] == self.pending_left()[i];
                        assert(self.left_key.ready(pending[j]));
                    }
                    assert(self.current_rows() =~= Seq::empty());
                    assert(self.remaining() =~= rows);
                }
            }
            let ghost before = self.left.remaining();
            let ghost g = |l: <I::Item as DeepView>::V|
                pairs(l, bucket(self.right_map@, self.left_key.key_of(l)));
            match self.left.next() {
                Some(left_item) => {
                    proof {
                        lemma_flat_map_head(before, g);
                    }
                    self.current_left = Some(left_item);
                    self.current_right_idx = 0;
                    proof {
                        assert(self.pending_left() =~= before);
                        let b = bucket(self.right_map@, self.left_key.key_of(before[0]));
                        assert(b.skip(0) =~= b);
                        assert(self.current_rows() =~= g(before[0]));
                        assert(self.remaining() =~= rows);
                    }
                },
                None => {
                    proof {
                        lemma_flat_map_empty(before, g);
                    }
                    return None;
                },
            }
        }
    }
}

/// The left outer join of a left stage with buckets built from a right stage.
pub struct LeftJoinIterator<I: Stage, R, FL: Keying<I::Item>> {
    left: I,
    right_map: HashMap<FL::Key, Vec<R>>,
    left_key: FL,
    current_left: Option<I::Item>,
    current_right_idx: usize,
    emitted_current: bool,
}

impl<I, R, FL> LeftJoinIterator<I, R, FL> where
    I: Stage,
    I::Item: Clone,
    R: DeepView + Clone,
    FL: Keying<I::Item>,
    FL::Key: Eq + Hash,
 {
    /// Models of the left items that the key function may still be called on:
    /// the held one, then those still to be pulled.
    pub closed spec fn pending_left(&self) -> Seq<<I::Item as DeepView>::V> {
        match self.current_left {
            Some(l) => seq![l.deep_view()] + self.left.remaining(),
            None => self.left.remaining(),
        }
    }

    /// The rows still owed for the held left item: its unread matches, or
    /// the row without a right value if it has given no row yet.
    pub closed spec fn current_rows(&self) -> Seq<(<I::Item as DeepView>::V, Option<R::V>)> {
        match self.current_left {
            Some(l) => {
                let b = bucket(self.right_map@, self.left_key.key_of(l.deep_view()));
                if self.current_right_idx < b.len() {
                    b.skip(self.current_right_idx as int).map_values(
                        |r: R::V| (l.deep_view(), Some(r)),
                    )
                } else if !self.emitted_current {
                    seq![(l.deep_view(), None)]
                } else {
                    Seq::empty()
                }
            },
            None => Seq::empty(),
        }
    }

    /// The rows that the left items still to be pulled will give.
    pub closed spec fn later_rows(&self) -> Seq<(<I::Item as DeepView>::V, Option<R::V>)> {
        self.left.remaining().flat_map(
            |l: <I::Item as DeepView>::V|
                outer_pairs(l, bucket(self.right_map@, self.left_key.key_of(l))),
        )
    }

    /// Builds the join: drains `right` into buckets at once; `left` is pulled
    /// only as rows are asked for.
    pub fn new<J, FR>(left: I, right: J, left_key: FL, right_key: FR) -> (r: Self) where
        J: Stage<Item = R>,
        FR: Keying<R, Key = FL::Key>,

        requires
            left.wf(),
            right.wf(),
            obeys_key_model::<FL::Key>(),
            clone_keeps_view::<I::Item>(),
            clone_keeps_view::<R>(),
            can_key(left_key, left.remaining()),
            can_key(right_key, right.remaining()),
        ensures
            r.wf(),
            r.remaining() == left_rows(
                left.remaining(),
                right.remaining(),
                keying(left_key),
                keying(right_key),
            ),
    {
        let right_map = build_buckets(right, right_key);
        let r = LeftJoinIterator {
            left,
            right_map,
            left_key,
            current_left: None,
            current_right_idx: 0,
            emitted_current: false,
        };
        proof {
            let g = |l: <I::Item as DeepView>::V|
                outer_pairs(l, bucket(r.right_map@, r.left_key.key_of(l)));
            let lk = keying(left_key);
            let rk = keying(right_key);
            let h = |l: <I::Item as DeepView>::V|
                outer_pairs(l, matching(right.remaining(), rk, lk(l)));
            assert forall|i: int| 0 <= i < left.remaining().len() implies g(
                #[trigger] left.remaining()[i],
            ) == h(left.remaining()[i]) by {
                let l = left.remaining()[i];
                assert(bucket(r.right_map@, lk(l)) == matching(right.remaining(), rk, lk(l)));
            }
            lemma_flat_map_agree(left.remaining(), g, h);
            assert(r.current_rows() + r.later_rows() =~= r.later_rows());
        }
        r
    }
}

impl<I, R, FL> Stage for LeftJoinIterator<I, R, FL> where
    I: Stage,
    I::Item: Clone,
    R: DeepView + Clone,
    FL: Keying<I::Item>,
    FL::Key: Eq + Hash,
 {
    type Item = (I::Item, Option<R>);

    closed spec fn wf(&self) -> bool {
        &&& self.left.wf()
        &&& obeys_key_model::<FL::Key>()
        &&& clone_keeps_view::<I::Item>()
        &&& clone_keeps_view::<R>()
        &&& can_key(self.left_key, self.pending_left())
    }

    closed spec fn remaining(&self) -> Seq<(<I::Item as DeepView>::V, Option<R::V>)> {
        self.current_rows() + self.later_rows()
    }

    fn next(&mut self) -> (r: Option<(I::Item, Option<R>)>) {
        broadcast use vstd::std_specs::hash::group_hash_axioms;

        loop
            invariant
                self.wf(),
                self.remaining() == old(self).remaining(),
            decreases self.left.remaining().len(),
        {
            let ghost rows = self.remaining();
            if let Some(left_item) = &self.current_left {
                assert(self.pending_left().contains(self.pending_left()[0]));
                let key = self.left_key.key(left_item);
                let ghost held = left_item.deep_view();
                let ghost b = bucket(self.right_map@, key);
                let ghost pending = self.pending_left();
                if let Some(right_items) = self.right_map.get(&key) {
                    assert(b == right_items.deep_view());
                    if self.current_right_idx < right_items.len() {
                        let ghost idx = self.current_right_idx as int;
                        let right_item = right_items[self.current_right_idx].clone();
                        let left_out = self.current_left.take().unwrap();
                        self.current_right_idx += 1;
                        self.emitted_current = true;
                        if self.current_right_idx < right_items.len() {
                            let again = left_out.clone();
                            assert(cloned(left_out, again));
                            self.current_left = Some(again);
                        }
                        proof {
                            assert(cloned(right_items[idx], right_item));
                            assert(right_item.deep_view() == b[idx]);
                            assert(self.pending_left() =~= pending || self.pending_left()
                                =~= pending.skip(1));
                            assert forall|i: int| 0 <= i < self.pending_left().len() implies pending.contains(
                                #[trigger] self.pending_left()[i],
                            ) by {
                                if self.pending_left() =~= pending {
                                    assert(pending[i] == self.pending_left()[i]);
                                } else {
                                    assert(pending[i + 1] == self.pending_left()[i]);
                                }
                            }
                            assert forall|i: int| 0 <= i < self.pending_left().len() implies self.left_key.ready(
                                #[trigger] self.pending_left()[i],
                            ) by {
                                let j = choose|j: int|
                                    0 <= j < pending.len() && pending[j] == self.pending_left()[i];
                                assert(self.left_key.ready(pending[j]));
                            }
                            assert(self.current_rows() =~= b.skip(idx).map_values(
                                |r: R::V| (held, Some(r)),
                            ).skip(1));
                            assert(self.remaining() =~= rows.skip(1));
                            assert(rows[0] == (held, Some(b[idx])));
                        }
                        return Some((left_out, Some(right_item)));
                    }
                }
                if !self.emitted_current {
                    self.emitted_current = true;
                    let left_out = self.current_left.take().unwrap();
                    proof {
                        assert(self.pending_left() =~= pending.skip(1));
                        assert forall|i: int| 0 <= i < self.pending_left().len() implies pending.contains(
                            #[trigger] self.pending_left()[i],
                        ) by {
                            assert(pending[i + 1] == self.pending_left()[i]);
                        }
                        assert forall|i: int| 0 <= i < self.pending_left().len() implies self.left_key.ready(
                            #[trigger] self.pending_left()[i],
                        ) by {
                            let j = choose|j: int|
                                0 <= j < pending.len() && pending[j] == self.pending_left()[i];
                            assert(self.left_key.ready(pending[j]));
                        }
                        assert(self.current_rows() =~= Seq::empty());
                        assert(self.remaining() =~= rows.skip(1));
                        assert(rows[0] == (held, None::<R::V>));
                    }
                    return Some((left_out, None));
                }
                proof {
                    assert(self.current_rows() =~= Seq::empty());
                }
                self.current_left = None;
                self.current_right_idx = 0;
                self.emitted_current = false;
                proof {
                    assert(self.pending_left() =~= pending.skip(1));
                    assert forall|i: int| 0 <= i < self.pending_left().len() implies pending.contains(
                        #[trigger] self.pending_left()[i],
                    ) by {
                        assert(pending[i + 1] == self.pending_left()[i]);
                    }
                    assert forall|i: int| 0 <= i < self.pending_left().len() implies self.left_key.ready(
                        #[trigger] self.pending_left()[i],
                    ) by {
                        let j = choose|j: int|
                            0 <= j < pending.len() && pending[j] == self.pending_left()[i];
                        assert(self.left_key.ready(pending[j]));
                    }
                    assert(self.current_rows() =~= Seq::empty());
                    assert(self.remaining() =~= rows);
                }
            }
            let ghost before = self.left.remaining();
            let ghost g = |l: <I::Item as DeepView>::V|
                outer_pairs(l, bucket(self.right_map@, self.left_key.key_of(l)));
            match self.left.next() {
                Some(left_item) => {
                    proof {
                        lemma_flat_map_head(before, g);
                    }
                    self.current_left = Some(left_item);
                    self.current_right_idx = 0;
                    self.emitted_current = false;
                    proof {
                        assert(self.pending_left() =~= before);
                        let b = bucket(self.right_map@, self.left_key.key_of(before[0]));
                        assert(b.skip(0) =~= b);
                        assert(self.current_rows() =~= g(before[0]));
                        assert(self.remaining() =~= rows);
                    }
                },
                None => {
                    proof {
                        lemma_flat_map_empty(before, g);
                    }
                    return None;
                },
            }
        }
    }
}

} // verus!
