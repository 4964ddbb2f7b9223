//! Grouping stages: fixed-size chunks, sliding windows, groups by key.

use crate::function::{can_key, Keying, keying};
use crate::seqs::{fresh, lemma_fresh_distinct, lemma_remove_duplicates_fresh, matching};
use crate::source::VecSource;
use crate::stage::{clone_keeps_view, Stage};
use std::collections::{HashMap, VecDeque};
use std::hash::Hash;
use vstd::prelude::*;
use vstd::std_specs::hash::obeys_key_model;

verus! {

/// How many chunks of size `n` a sequence of length `len` falls into.
pub open spec fn chunk_count(len: nat, n: nat) -> nat {
    if n == 0 {
        0
    } else {
        ((len + n - 1) / (n as int)) as nat
    }
}

/// The `i`-th chunk of size `n` of `s`: from position `i * n` up to
/// `(i + 1) * n`, or to the end of `s` if that comes first.
pub open spec fn chunk_at<A>(s: Seq<A>, n: nat, i: int) -> Seq<A> {
    s.subrange(
        i * n,
        if (i + 1) * n <= s.len() {
            (i + 1) * n
        } else {
            s.len() as int
        },
    )
}

/// `s` cut into consecutive chunks of size `n`; the last one may be shorter.
pub open spec fn chunks<A>(s: Seq<A>, n: nat) -> Seq<Seq<A>> {
    Seq::new(chunk_count(s.len(), n), |i: int| chunk_at(s, n, i))
}

/// The windows of size `n` of `s`: one for each position at which `n`
/// consecutive elements start.
pub open spec fn windows<A>(s: Seq<A>, n: nat) -> Seq<Seq<A>> {
    Seq::new(
        if n >= 1 && s.len() >= n {
            (s.len() - n + 1) as nat
        } else {
            0
        },
        |i: int| s.subrange(i, i + n),
    )
}

/// The first chunk is the first `n` elements (or all of them, if fewer);
/// the other chunks are the chunks of what follows.
pub proof fn lemma_chunks_head<A>(s: Seq<A>, n: nat)
    requires
        n > 0,
        s.len() > 0,
    ensures
        ({
            let c = if s.len() < n {
                s.len() as int
            } else {
                n as int
            };
            chunks(s, n) == seq![s.take(c)] + chunks(s.skip(c), n)
        }),
{
    let len = s.len() as int;
    let d = n as int;
    let c = if len < d {
        len
    } else {
        d
    };
    let t = s.skip(c);
    if len <= d {
        assert((len + d - 1) / d == 1) by (nonlinear_arith)
            requires
                1 <= len <= d,
        ;
        assert((0 + d - 1) / d == 0) by (nonlinear_arith)
            requires
                d > 0,
        ;
        assert(t.len() == 0);
    } else {
        assert((len + d - 1) / d == (len - d + d - 1) / d + 1) by (nonlinear_arith)
            requires
                len > d,
                d > 0,
        ;
    }
    assert(chunk_count(s.len(), n) == chunk_count(t.len(), n) + 1);
    assert(len <= d ==> chunk_count(t.len(), n) == 0);
    assert forall|i: int| 0 <= i < chunk_count(s.len(), n) implies #[trigger] chunks(s, n)[i] == (
    seq![s.take(c)] + chunks(t, n))[i] by {
        if i == 0 {
            assert(0 * d == 0) by (nonlinear_arith);
            assert((0 + 1) * d == d) by (nonlinear_arith);
            assert(chunk_at(s, n, 0) =~= s.take(c));
        } else {
            assert(len > d);
            assert(i * d == (i - 1) * d + d) by (nonlinear_arith);
            assert((i + 1) * d == (i - 1 + 1) * d + d) by (nonlinear_arith);
            assert((i - 1) * d >= 0) by (nonlinear_arith)
                requires
                    i >= 1,
                    d > 0,
            ;
            lemma_chunk_bounds(s.len(), n, i);
            assert(chunk_at(s, n, i) =~= chunk_at(t, n, i - 1));
        }
    }
    assert(chunks(s, n) =~= seq![s.take(c)] + chunks(t, n));
}

/// The `i`-th of the chunks starts inside the sequence.
pub proof fn lemma_chunk_bounds(len: nat, n: nat, i: int)
    requires
        n > 0,
        0 <= i < chunk_count(len, n),
    ensures
        0 <= i * n < len,
        i + 1 < chunk_count(len, n) ==> (i + 1) * n < len,
{
    let d = n as int;
    let x = len + d - 1;
    let q = x / d;
    vstd::arithmetic::div_mod::lemma_fundamental_div_mod(x, d);
    vstd::arithmetic::div_mod::lemma_mod_bound(x, d);
    assert(x == d * q + x % d);
    assert(i * d <= (q - 1) * d) by (nonlinear_arith)
        requires
            i <= q - 1,
            d > 0,
    ;
    assert((q - 1) * d == d * q - d) by (nonlinear_arith);
    assert(i * d >= 0) by (nonlinear_arith)
        requires
            i >= 0,
            d > 0,
    ;
    if i + 1 < q {
        assert((i + 1) * d <= (q - 1) * d) by (nonlinear_arith)
            requires
                i + 1 <= q - 1,
                d > 0,
        ;
    }
}

/// Windows of the sequence without its first element are the windows of
/// the sequence without the first window.
pub proof fn lemma_windows_tail<A>(s: Seq<A>, n: nat)
    requires
        n >= 1,
        s.len() >= n,
    ensures
        windows(s, n)[0] == s.take(n as int),
        windows(s, n).skip(1) == windows(s.skip(1), n),
{
    assert(windows(s, n)[0] =~= s.take(n as int));
    assert forall|i: int| 0 <= i < windows(s.skip(1), n).len() implies #[trigger] windows(
        s.skip(1),
        n,
    )[i] == windows(s, n).skip(1)[i] by {
        assert(s.skip(1).subrange(i, i + n) =~= s.subrange(i + 1, i + 1 + n));
    }
    assert(windows(s, n).skip(1) =~= windows(s.skip(1), n));
}

/// Chunking loses and adds nothing, and only the last chunk may be short:
/// the chunks of `s`, laid end to end, are `s`; no chunk is empty or longer
/// than `n`; every chunk but the last has exactly `n` elements.
pub proof fn chunks_partition<A>(s: Seq<A>, n: nat)
    requires
        n >= 1,
    ensures
        chunks(s, n).flatten() == s,
        forall|i: int| 0 <= i < chunks(s, n).len() ==> 1 <= (#[trigger] chunks(s, n)[i]).len() <= n,
        forall|i: int|
            0 <= i < chunks(s, n).len() - 1 ==> (#[trigger] chunks(s, n)[i]).len() == n,
    decreases s.len(),
{
    let d = n as int;
    assert forall|i: int| 0 <= i < chunks(s, n).len() implies 1 <= (#[trigger] chunks(
        s,
        n,
    )[i]).len() <= n && (i < chunks(s, n).len() - 1 ==> chunks(s, n)[i].len() == n) by {
        lemma_chunk_bounds(s.len(), n, i);
        assert((i + 1) * d == i * d + d) by (nonlinear_arith);
    }
    if s.len() == 0 {
        assert((0 + d - 1) / d == 0) by (nonlinear_arith)
            requires
                d > 0,
        ;
        assert(chunks(s, n) =~= Seq::empty());
        assert(s =~= Seq::empty());
    } else {
        let c = if s.len() < n {
            s.len() as int
        } else {
            d
        };
        lemma_chunks_head(s, n);
        chunks_partition(s.skip(c), n);
        let all = seq![s.take(c)] + chunks(s.skip(c), n);
        assert(all.drop_first() =~= chunks(s.skip(c), n));
        assert(all.first() == s.take(c));
        assert(s.take(c) + s.skip(c) =~= s);
    }
}

/// Windows slide by one: there are `len - n + 1` of them (none where `s` is
/// shorter than `n`), each has `n` elements, and each window after the
/// first is the one before it without its first element and with the next
/// element of `s` at its end.
pub proof fn windows_slide<A>(s: Seq<A>, n: nat)
    requires
        n >= 1,
    ensures
        windows(s, n).len() == if s.len() >= n {
            s.len() - n + 1
        } else {
            0
        },
        forall|i: int| 0 <= i < windows(s, n).len() ==> (#[trigger] windows(s, n)[i]).len() == n,
        forall|i: int|
            0 <= i < windows(s, n).len() - 1 ==> #[trigger] windows(s, n)[i + 1] == windows(
                s,
                n,
            )[i].skip(1).push(s[i + n]),
{
    assert forall|i: int| 0 <= i < windows(s, n).len() - 1 implies #[trigger] windows(s, n)[i + 1]
        == windows(s, n)[i].skip(1).push(s[i + n]) by {
        assert(s.subrange(i + 1, i + 1 + n) =~= s.subrange(i, i + n).skip(1).push(s[i + n]));
    }
}

/// Batches the items of a stage into vectors of `chunk_size` items.
pub struct ChunkIterator<I> {
    iter: I,
    chunk_size: usize,
}

impl<I: Stage> ChunkIterator<I> {
    /// Chunks of `chunk_size` items; `chunk_size` must be at least 1.
    pub fn new(iter: I, chunk_size: usize) -> (r: Self)
        requires
            iter.wf(),
            chunk_size > 0,
        ensures
            r.wf(),
            r.remaining() == chunks(iter.remaining(), chunk_size as nat),
    {
        ChunkIterator { iter, chunk_size }
    }
}

impl<I: Stage> Stage for ChunkIterator<I> {
    type Item = Vec<I::Item>;

    closed spec fn wf(&self) -> bool {
        self.iter.wf() && self.chunk_size > 0
    }

    closed spec fn remaining(&self) -> Seq<Seq<<I::Item as DeepView>::V>> {
        chunks(self.iter.remaining(), self.chunk_size as nat)
    }

    fn next(&mut self) -> (r: Option<Vec<I::Item>>) {
        let ghost before = self.iter.remaining();
        let mut chunk: Vec<I::Item> = Vec::with_capacity(self.chunk_size);
        let mut taken: usize = 0;
        while taken < self.chunk_size
            invariant
                self.iter.wf(),
                self.chunk_size == old(self).chunk_size,
                taken <= self.chunk_size,
                taken <= before.len(),
                chunk.deep_view() == before.take(taken as int),
                self.iter.remaining() == before.skip(taken as int),
                before == old(self).iter.remaining(),
            ensures
                taken == (if before.len() < self.chunk_size {
                    before.len()
                } else {
                    self.chunk_size as nat
                }),
            decreases self.chunk_size - taken,
        {
            let ghost had = chunk.deep_view();
            match self.iter.next() {
                Some(item) => {
                    chunk.push(item);
                    taken += 1;
                    proof {
                        assert(before.skip(taken as int - 1).skip(1) =~= before.skip(taken as int));
                        assert(before.skip(taken as int - 1)[0] == before[taken as int - 1]);
                        assert(chunk.deep_view() =~= had.push(item.deep_view()));
                        assert(chunk.deep_view() =~= before.take(taken as int));
                    }
                },
                None => {
                    break ;
                },
            }
        }
        if chunk.is_empty() {
            proof {
                assert(chunk.deep_view().len() == 0);
                assert(chunks(before, self.chunk_size as nat) =~= Seq::empty()) by {
                    assert((0 + self.chunk_size as int - 1) / (self.chunk_size as int) == 0)
                        by (nonlinear_arith)
                        requires
                            self.chunk_size as int > 0,
                    ;
                }
            }
            None
        } else {
            proof {
                assert(chunk.deep_view().len() > 0);
                lemma_chunks_head(before, self.chunk_size as nat);
                let rest = chunks(self.iter.remaining(), self.chunk_size as nat);
                assert((seq![before.take(taken as int)] + rest).skip(1) =~= rest);
            }
            Some(chunk)
        }
    }
}

/// Copies the buffer into a vector, front to back.
fn snapshot<T: DeepView + Clone>(buffer: &VecDeque<T>) -> (r: Vec<T>)
    requires
        clone_keeps_view::<T>(),
    ensures
        r.deep_view() == buffer.deep_view(),
{
    let mut out: Vec<T> = Vec::with_capacity(buffer.len());
    let mut i: usize = 0;
    while i < buffer.len()
        invariant
            clone_keeps_view::<T>(),
            i <= buffer.len(),
            out.deep_view() == buffer.deep_view().take(i as int),
        decreases buffer.len() - i,
    {
        let ghost had = out.deep_view();
        let item = buffer[i].clone();
        assert(cloned(buffer@[i as int], item));
        out.push(item);
        i += 1;
        assert(out.deep_view() =~= had.push(item.deep_view()));
        assert(item.deep_view() == buffer.deep_view()[i as int - 1]);
        assert(out.deep_view() =~= buffer.deep_view().take(i as int));
    }
    assert(buffer.deep_view().take(i as int) =~= buffer.deep_view());
    out
}

/// Slides a window of `window_size` items over the items of a stage.
pub struct WindowIterator<I: Stage> {
    iter: I,
    window_size: usize,
    buffer: VecDeque<I::Item>,
    started: bool,
}

impl<I: Stage> WindowIterator<I> where I::Item: Clone {
    /// What is still to come once the first window has been dealt with: the
    /// windows of the buffered items followed by the unread ones, but for
    /// the first.
    pub closed spec fn sliding(&self) -> Seq<Seq<<I::Item as DeepView>::V>> {
        let all = self.buffer.deep_view() + self.iter.remaining();
        if all.len() >= self.window_size {
            windows(all, self.window_size as nat).skip(1)
        } else {
            Seq::empty()
        }
    }

    /// Windows of `window_size` items; `window_size` must be at least 1.
    pub fn new(iter: I, window_size: usize) -> (r: Self)
        requires
            iter.wf(),
            window_size > 0,
            clone_keeps_view::<I::Item>(),
        ensures
            r.wf(),
            r.remaining() == windows(iter.remaining(), window_size as nat),
    {
        WindowIterator {
            iter,
            window_size,
            buffer: VecDeque::with_capacity(window_size),
            started: false,
        }
    }
}

impl<I: Stage> Stage for WindowIterator<I> where I::Item: Clone {
    type Item = Vec<I::Item>;

    closed spec fn wf(&self) -> bool {
        &&& self.iter.wf()
        &&& self.window_size > 0
        &&& clone_keeps_view::<I::Item>()
        &&& !self.started ==> self.buffer@.len() == 0
        &&& self.started ==> self.buffer@.len() == self.window_size || (self.buffer@.len()
            < self.window_size && self.iter.remaining().len() == 0)
    }

    closed spec fn remaining(&self) -> Seq<Seq<<I::Item as DeepView>::V>> {
        if self.started {
            self.sliding()
        } else {
            windows(self.iter.remaining(), self.window_size as nat)
        }
    }

    fn next(&mut self) -> (r: Option<Vec<I::Item>>) {
        broadcast use vstd::std_specs::vecdeque::axiom_spec_len;

        let ghost n = self.window_size as nat;
        if !self.started {
            let ghost before = self.iter.remaining();
            let mut filled: usize = 0;
            while filled < self.window_size
                invariant
                    self.iter.wf(),
                    clone_keeps_view::<I::Item>(),
                    self.window_size == old(self).window_size,
                    self.started == old(self).started,
                    filled <= self.window_size,
                    filled <= before.len(),
                    self.buffer@.len() == filled,
                    self.buffer.deep_view() == before.take(filled as int),
                    self.iter.remaining() == before.skip(filled as int),
                ensures
                    filled == self.window_size || self.iter.remaining().len() == 0,
                decreases self.window_size - filled,
            {
                let ghost had = self.buffer.deep_view();
                match self.iter.next() {
                    Some(item) => {
                        self.buffer.push_back(item);
                        filled += 1;
                        proof {
                            assert(before.skip(filled as int - 1).skip(1) =~= before.skip(
                                filled as int,
                            ));
                            assert(before.skip(filled as int - 1)[0] == before[filled as int - 1]);
                            assert(self.buffer.deep_view() =~= had.push(item.deep_view()));
                            assert(self.buffer.deep_view() =~= before.take(filled as int));
                        }
                    },
                    None => {
                        break ;
                    },
                }
            }
            self.started = true;
            proof {
                assert(self.buffer.deep_view() + self.iter.remaining() =~= before);
            }
            if self.buffer.len() == self.window_size {
                proof {
                    lemma_windows_tail(before, n);
                }
                return Some(snapshot(&self.buffer));
            }
            proof {
                assert(before.len() < n);
                assert(windows(before, n) =~= Seq::empty());
            }
            return None;
        }
        let ghost buffered = self.buffer.deep_view();
        let ghost unread = self.iter.remaining();
        let ghost all = buffered + unread;
        match self.iter.next() {
            Some(item) => {
                self.buffer.pop_front();
                self.buffer.push_back(item);
                proof {
                    assert(self.buffer.deep_view() =~= buffered.skip(1).push(unread[0]));
                    assert(self.buffer.deep_view() + self.iter.remaining() =~= all.skip(1));
                    lemma_windows_tail(all, n);
                    lemma_windows_tail(all.skip(1), n);
                    assert(self.buffer.deep_view() =~= all.skip(1).take(n as int));
                }
                Some(snapshot(&self.buffer))
            },
            None => {
                proof {
                    assert(all =~= buffered);
                    assert(self.sliding() =~= Seq::empty());
                }
                None
            },
        }
    }
}

/// The keys of `s` in the order in which each first occurs.
pub open spec fn distinct_keys<A, K>(s: Seq<A>, key: spec_fn(A) -> K) -> Seq<K> {
    s.map_values(key).remove_duplicates(Seq::empty())
}

/// `s` grouped by key: one pair for each key, in the order in which the keys
/// first occur, holding the elements with that key in their order in `s`.
pub open spec fn groups<A, K>(s: Seq<A>, key: spec_fn(A) -> K) -> Seq<(K, Seq<A>)> {
    distinct_keys(s, key).map_values(|k: K| (k, matching(s, key, k)))
}

/// A group as it is handed out: the model of its key, and its elements.
pub open spec fn keyed<K: DeepView, A>(g: (K, Seq<A>)) -> (K::V, Seq<A>) {
    (g.0.deep_view(), g.1)
}

/// Adding an element with a key that `s` has already leaves the keys as
/// they are; one with a new key adds that key at the end.
pub proof fn lemma_distinct_keys_push<A, K>(s: Seq<A>, key: spec_fn(A) -> K, x: A)
    ensures
        distinct_keys(s, key).contains(key(x)) ==> distinct_keys(s.push(x), key) == distinct_keys(
            s,
            key,
        ),
        !distinct_keys(s, key).contains(key(x)) ==> distinct_keys(s.push(x), key) == distinct_keys(
            s,
            key,
        ).push(key(x)),
        forall|k: K| distinct_keys(s, key).contains(k) <==> s.map_values(key).contains(k),
{
    let ks = s.map_values(key);
    assert(s.push(x).map_values(key) =~= ks + seq![key(x)]);
    ks.lemma_remove_duplicates_append(key(x), Seq::empty());
    ks.lemma_remove_duplicates_properties(Seq::empty());
    assert(ks + Seq::empty() =~= ks);
    assert(distinct_keys(s, key) + seq![key(x)] =~= distinct_keys(s, key).push(key(x)));
}

/// What `matching` gives after one more element.
pub proof fn lemma_matching_push<A, K>(s: Seq<A>, key: spec_fn(A) -> K, x: A, k: K)
    ensures
        matching(s.push(x), key, k) == if key(x) == k {
            matching(s, key, k).push(x)
        } else {
            matching(s, key, k)
        },
{
    let p = |y: A| key(y) == k;
    reveal_with_fuel(Seq::filter, 2);
    assert(s.push(x).drop_last() =~= s);
}

/// Every element of `matching(s, key, k)` is an element of `s` with key `k`,
/// and there is one as soon as `k` is the key of an element of `s`.
pub proof fn lemma_matching_members<A, K>(s: Seq<A>, key: spec_fn(A) -> K, k: K)
    ensures
        forall|i: int|
            0 <= i < matching(s, key, k).len() ==> key(#[trigger] matching(s, key, k)[i]) == k
                && s.contains(matching(s, key, k)[i]),
        s.map_values(key).contains(k) <==> matching(s, key, k).len() > 0,
{
    broadcast use vstd::seq_lib::group_filter_ensures;

    let p = |y: A| key(y) == k;
    let m = s.filter(p);
    assert forall|i: int| 0 <= i < m.len() implies s.contains(#[trigger] m[i]) by {
        assert(m.contains(m[i]));
        s.lemma_filter_contains_rev(p, m[i]);
    }
    if s.map_values(key).contains(k) {
        let i = choose|i: int| 0 <= i < s.len() && s.map_values(key)[i] == k;
        assert(p(s[i]));
        assert(m.contains(s[i]));
    }
    if m.len() > 0 {
        assert(p(m[0]));
        assert(s.contains(m[0]));
        let i = choose|i: int| 0 <= i < s.len() && s[i] == m[0];
        assert(s.map_values(key)[i] == k);
    }
}

/// The keys of `s`, each once.
pub proof fn lemma_distinct_keys_once<A, K>(s: Seq<A>, key: spec_fn(A) -> K)
    ensures
        distinct_keys(s, key).no_duplicates(),
{
    let ks = s.map_values(key);
    let none = Seq::<K>::empty();
    lemma_remove_duplicates_fresh(ks, none);
    lemma_fresh_distinct(ks, none.to_set());
    assert(none + fresh(ks, none.to_set()) =~= fresh(ks, none.to_set()));
}

/// One more element in one of the parts is one more element in the whole.
proof fn lemma_flatten_grow<A>(parts: Seq<Seq<A>>, j: int, x: A)
    requires
        0 <= j < parts.len(),
    ensures
        parts.update(j, parts[j].push(x)).flatten().to_multiset() == parts.flatten().to_multiset().insert(
            x,
        ),
{
    broadcast use {vstd::seq_lib::lemma_multiset_commutative, vstd::seq_lib::to_multiset_build};

    let front = parts.take(j);
    let back = parts.skip(j + 1);
    let old_mid = seq![parts[j]];
    let new_mid = seq![parts[j].push(x)];
    assert(parts =~= front + old_mid + back);
    assert(parts.update(j, parts[j].push(x)) =~= front + new_mid + back);
    vstd::seq_lib::lemma_flatten_concat(front + old_mid, back);
    vstd::seq_lib::lemma_flatten_concat(front, old_mid);
    vstd::seq_lib::lemma_flatten_concat(front + new_mid, back);
    vstd::seq_lib::lemma_flatten_concat(front, new_mid);
    old_mid.lemma_flatten_one_element();
    new_mid.lemma_flatten_one_element();
    let a = front.flatten();
    let b = back.flatten();
    assert((a + parts[j].push(x) + b).to_multiset() =~= (a + parts[j] + b).to_multiset().insert(x));
}

/// The groups of `s`, laid end to end, hold what `s` holds, each element as
/// often.
proof fn lemma_groups_hold_all<A, K>(s: Seq<A>, key: spec_fn(A) -> K)
    ensures
        groups(s, key).map_values(|g: (K, Seq<A>)| g.1).flatten().to_multiset() == s.to_multiset(),
    decreases s.len(),
{
    broadcast use {vstd::seq_lib::to_multiset_build, Seq::lemma_flatten_push};

    let parts = groups(s, key).map_values(|g: (K, Seq<A>)| g.1);
    if s.len() == 0 {
        assert(s.map_values(key) =~= Seq::empty());
        assert(parts =~= Seq::empty());
        assert(parts.flatten() =~= s);
    } else {
        let t = s.drop_last();
        let x = s.last();
        let k = key(x);
        assert(t.push(x) =~= s);
        lemma_groups_hold_all(t, key);
        lemma_distinct_keys_push(t, key, x);
        lemma_distinct_keys_once(t, key);
        let d = distinct_keys(t, key);
        let before = groups(t, key).map_values(|g: (K, Seq<A>)| g.1);
        if d.contains(k) {
            let j = choose|j: int| 0 <= j < d.len() && d[j] == k;
            assert forall|i: int| 0 <= i < parts.len() implies #[trigger] parts[i] == before.update(
                j,
                before[j].push(x),
            )[i] by {
                lemma_matching_push(t, key, x, d[i]);
            }
            assert(parts =~= before.update(j, before[j].push(x)));
            lemma_flatten_grow(before, j, x);
        } else {
            lemma_matching_members(t, key, k);
            lemma_matching_push(t, key, x, k);
            assert(matching(t, key, k) =~= Seq::empty());
            assert(Seq::<A>::empty().push(x) =~= seq![x]);
            assert forall|i: int| 0 <= i < parts.len() implies #[trigger] parts[i] == before.push(
                seq![x],
            )[i] by {
                if i < d.len() {
                    lemma_matching_push(t, key, x, d[i]);
                    assert(d.contains(d[i]));
                }
            }
            assert(parts =~= before.push(seq![x]));
            assert(before.flatten() + seq![x] =~= before.flatten().push(x));
        }
    }
}

/// Grouping partitions: no key heads two groups; each group holds, in
/// their order, exactly the elements with its key, and at least one; every
/// element has a group under its key; and the groups, laid end to end,
/// hold what the sequence holds, each element as often.
pub proof fn groups_partition<A, K>(s: Seq<A>, key: spec_fn(A) -> K)
    ensures
        forall|i: int, j: int|
            0 <= i < j < groups(s, key).len() ==> (#[trigger] groups(s, key)[i]).0 != (
            #[trigger] groups(s, key)[j]).0,
        forall|i: int|
            0 <= i < groups(s, key).len() ==> (#[trigger] groups(s, key)[i]).1.len() > 0 && groups(
                s,
                key,
            )[i].1 == matching(s, key, groups(s, key)[i].0),
        forall|p: int|
            0 <= p < s.len() ==> exists|i: int|
                0 <= i < groups(s, key).len() && (#[trigger] groups(s, key)[i]).0 == key(
                    #[trigger] s[p],
                ),
        groups(s, key).map_values(|g: (K, Seq<A>)| g.1).flatten().to_multiset() == s.to_multiset(),
{
    let d = distinct_keys(s, key);
    let g = groups(s, key);
    lemma_distinct_keys_once(s, key);
    lemma_groups_hold_all(s, key);
    s.map_values(key).lemma_remove_duplicates_properties(Seq::empty());
    assert(s.map_values(key) + Seq::empty() =~= s.map_values(key));
    assert forall|i: int| 0 <= i < g.len() implies (#[trigger] g[i]).1.len() > 0 && g[i].1
        == matching(s, key, g[i].0) by {
        assert(d.contains(d[i]));
        lemma_matching_members(s, key, d[i]);
    }
    assert forall|p: int| 0 <= p < s.len() implies exists|i: int|
        0 <= i < g.len() && (#[trigger] g[i]).0 == key(#[trigger] s[p]) by {
        assert(s.map_values(key)[p] == key(s[p]));
        assert(d.contains(key(s[p])));
        let i = choose|i: int| 0 <= i < d.len() && d[i] == key(s[p]);
        assert(g[i].0 == key(s[p]));
    }
}

/// Drains the stage into one bucket per key: buckets in the order in which
/// their keys first occur, items within a bucket in the order drained.
fn collect_groups<I, K, F>(iter: &mut I, key_fn: &F) -> (buckets: Vec<Vec<I::Item>>) where
    I: Stage,
    K: Eq + Hash,
    F: Keying<I::Item, Key = K>,

    requires
        old(iter).wf(),
        obeys_key_model::<K>(),
        can_key(*key_fn, old(iter).remaining()),
    ensures
        final(iter).wf(),
        final(iter).remaining().len() == 0,
        buckets.deep_view() == groups(old(iter).remaining(), keying(*key_fn)).map_values(
            |g: (K, Seq<<I::Item as DeepView>::V>)| g.1,
        ),
{
    broadcast use vstd::std_specs::hash::group_hash_axioms;

    let ghost all = iter.remaining();
    let ghost kf = keying(*key_fn);
    let mut index: HashMap<K, usize> = HashMap::new();
    let mut buckets: Vec<Vec<I::Item>> = Vec::new();
    let ghost mut seen: Seq<<I::Item as DeepView>::V> = Seq::empty();
    proof {
        assert(all =~= seen + iter.remaining());
        assert(seen.map_values(kf) =~= Seq::empty());
    }
    loop
        invariant
            iter.wf(),
            obeys_key_model::<K>(),
            can_key(*key_fn, iter.remaining()),
            kf == keying(*key_fn),
            all == seen + iter.remaining(),
            all == old(iter).remaining(),
            buckets.len() == distinct_keys(seen, kf).len(),
            forall|k: K| index@.contains_key(k) <==> distinct_keys(seen, kf).contains(k),
            forall|j: int|
                0 <= j < buckets.len() ==> index@.contains_key(
                    #[trigger] distinct_keys(seen, kf)[j],
                ) && index@[distinct_keys(seen, kf)[j]] == j,
            forall|j: int|
                0 <= j < buckets.len() ==> (#[trigger] buckets[j]).deep_view() == matching(
                    seen,
                    kf,
                    distinct_keys(seen, kf)[j],
                ),
        decreases iter.remaining().len(),
    {
        let ghost before = iter.remaining();
        let ghost d = distinct_keys(seen, kf);
        let ghost old_buckets = buckets@;
        let ghost old_index = index@;
        match iter.next() {
            None => {
                proof {
                    assert(seen =~= all);
                    assert(buckets.deep_view() =~= groups(all, kf).map_values(
                        |g: (K, Seq<<I::Item as DeepView>::V>)| g.1,
                    ));
                }
                return buckets;
            },
            Some(item) => {
                proof {
                    assert(before.contains(before[0]));
                    assert forall|i: int| 0 <= i < before.skip(1).len() implies before.contains(
                        #[trigger] before.skip(1)[i],
                    ) by {
                        assert(before[i + 1] == before.skip(1)[i]);
                    }
                    assert forall|i: int| 0 <= i < before.skip(1).len() implies key_fn.ready(
                        #[trigger] before.skip(1)[i],
                    ) by {
                        assert(before.skip(1)[i] == before[i + 1]);
                    }
                }
                let key = key_fn.key(&item);
                let ghost m = item.deep_view();
                proof {
                    lemma_distinct_keys_push(seen, kf, m);
                    assert(kf(m) == key);
                }
                match index.get(&key) {
                    Some(at) => {
                        let j = *at;
                        let ghost had = buckets[j as int].deep_view();
                        assert(d.contains(key));
                        assert(j < buckets.len()) by {
                            let jj = choose|jj: int| 0 <= jj < d.len() && d[jj] == key;
                            assert(index@[d[jj]] == jj);
                        }
                        buckets[j].push(item);
                        proof {
                            assert(d[j as int] == key) by {
                                let jj = choose|jj: int| 0 <= jj < d.len() && d[jj] == key;
                                assert(index@[d[jj]] == jj);
                            }
                            assert(buckets[j as int].deep_view() =~= had.push(m));
                        }
                    },
                    None => {
                        assert(!d.contains(key));
                        let mut fresh: Vec<I::Item> = Vec::new();
                        fresh.push(item);
                        index.insert(key, buckets.len());
                        buckets.push(fresh);
                        proof {
                            assert(fresh.deep_view() =~= seq![m]);
                        }
                    },
                }
                proof {
                    let d2 = distinct_keys(seen.push(m), kf);
                    assert forall|k: K| index@.contains_key(k) <==> d2.contains(k) by {
                        if d.contains(key) {
                        } else {
                            assert(d2 =~= d.push(key));
                            if d2.contains(k) {
                                let i = choose|i: int| 0 <= i < d2.len() && d2[i] == k;
                                if i < d.len() {
                                    assert(d[i] == k);
                                }
                            }
                            if d.contains(k) {
                                let i = choose|i: int| 0 <= i < d.len() && d[i] == k;
                                assert(d2[i] == k);
                            }
                            if k == key {
                                assert(d2[d.len() as int] == k);
                            }
                        }
                    }
                    assert forall|j: int| 0 <= j < buckets.len() implies index@.contains_key(
                        #[trigger] d2[j],
                    ) && index@[d2[j]] == j by {
                        if j < d.len() {
                            assert(d2[j] == d[j]);
                            assert(old_index.contains_key(d[j]) && old_index[d[j]] == j);
                        }
                    }
                    assert forall|j: int| 0 <= j < buckets.len() implies (
                    #[trigger] buckets[j]).deep_view() == matching(seen.push(m), kf, d2[j]) by {
                        lemma_matching_push(seen, kf, m, d2[j]);
                        if j < d.len() {
                            assert(d2[j] == d[j]);
                            assert(old_index[d[j]] == j);
                            assert(old_buckets[j].deep_view() == matching(seen, kf, d[j]));
                            if d[j] == key {
                            } else {
                                assert(buckets[j] == old_buckets[j]);
                            }
                        } else {
                            lemma_matching_members(seen, kf, key);
                            assert(matching(seen, kf, key) =~= Seq::empty());
                            assert(Seq::<<I::Item as DeepView>::V>::empty().push(m) =~= seq![m]);
                        }
                    }
                    seen = seen.push(m);
                    assert(all =~= seen + iter.remaining());
                }
            },
        }
    }
}

/// Groups the items of a stage by key. The whole stage is drained at the
/// first pull; the groups are then handed out one at a time, in the order
/// in which their keys first occurred.
pub struct GroupByCollectIterator<I: Stage, F> {
    iter: I,
    key_fn: F,
    groups: VecSource<Vec<I::Item>>,
    started: bool,
}

impl<I, F> GroupByCollectIterator<I, F> where
    I: Stage,
    F: Keying<I::Item>,
    F::Key: Eq + Hash + DeepView,
 {
    /// The first element of each group that is still to be handed out.
    pub closed spec fn heads(&self) -> Seq<<I::Item as DeepView>::V> {
        self.groups.remaining().map_values(|g: Seq<<I::Item as DeepView>::V>| g[0])
    }

    /// Groups by the key that `key_fn` gives each item.
    pub fn new(iter: I, key_fn: F) -> (r: Self)
        requires
            iter.wf(),
            obeys_key_model::<F::Key>(),
            can_key(key_fn, iter.remaining()),
        ensures
            r.wf(),
            r.remaining() == groups(iter.remaining(), keying(key_fn)).map_values(
                |g: (F::Key, Seq<<I::Item as DeepView>::V>)| keyed(g),
            ),
    {
        GroupByCollectIterator { iter, key_fn, groups: VecSource::new(Vec::new()), started: false }
    }
}

impl<I, F> Stage for GroupByCollectIterator<I, F> where
    I: Stage,
    F: Keying<I::Item>,
    F::Key: Eq + Hash + DeepView,
 {
    type Item = (F::Key, Vec<I::Item>);

    closed spec fn wf(&self) -> bool {
        &&& obeys_key_model::<F::Key>()
        &&& self.groups.wf()
        &&& if self.started {
            &&& can_key(self.key_fn, self.heads())
            &&& forall|i: int|
                0 <= i < self.groups.remaining().len() ==> (
                #[trigger] self.groups.remaining()[i]).len() > 0
        } else {
            self.iter.wf() && can_key(self.key_fn, self.iter.remaining())
        }
    }

    closed spec fn remaining(&self) -> Seq<(<F::Key as DeepView>::V, Seq<<I::Item as DeepView>::V>)> {
        if self.started {
            self.groups.remaining().map_values(
                |g: Seq<<I::Item as DeepView>::V>| (self.key_fn.key_of(g[0]).deep_view(), g),
            )
        } else {
            groups(self.iter.remaining(), keying(self.key_fn)).map_values(
                |g: (F::Key, Seq<<I::Item as DeepView>::V>)| keyed(g),
            )
        }
    }

    fn next(&mut self) -> (r: Option<(F::Key, Vec<I::Item>)>) {
        if !self.started {
            let ghost all = self.iter.remaining();
            let ghost kf = keying(self.key_fn);
            let buckets = collect_groups(&mut self.iter, &self.key_fn);
            self.groups = VecSource::new(buckets);
            self.started = true;
            proof {
                let d = distinct_keys(all, kf);
                let rem = self.groups.remaining();
                assert(rem.len() == d.len());
                all.map_values(kf).lemma_remove_duplicates_properties(Seq::empty());
                assert(all.map_values(kf) + Seq::empty() =~= all.map_values(kf));
                assert forall|i: int| 0 <= i < rem.len() implies (#[trigger] rem[i]).len() > 0
                    && all.contains(rem[i][0]) && kf(rem[i][0]) == d[i] by {
                    assert(rem[i] == matching(all, kf, d[i]));
                    assert(d.contains(d[i]));
                    lemma_matching_members(all, kf, d[i]);
                    assert(kf(rem[i][0]) == d[i]);
                }
                assert forall|i: int| 0 <= i < self.heads().len() implies all.contains(
                    #[trigger] self.heads()[i],
                ) by {
                    assert(self.heads()[i] == rem[i][0]);
                }
                assert forall|i: int| 0 <= i < self.heads().len() implies self.key_fn.ready(
                    #[trigger] self.heads()[i],
                ) by {
                    let j = choose|j: int| 0 <= j < all.len() && all[j] == self.heads()[i];
                    assert(self.key_fn.ready(all[j]));
                }
                assert(self.remaining() =~= old(self).remaining());
            }
        }
        let ghost rem = self.groups.remaining();
        let ghost heads = self.heads();
        match self.groups.next() {
            Some(group) => {
                proof {
                    assert(group.deep_view() == rem[0]);
                    assert(rem[0].len() > 0);
                    assert(heads[0] == rem[0][0]);
                    assert(heads.contains(heads[0]));
                    assert(group[0].deep_view() == rem[0][0]);
                }
                let key = self.key_fn.key(&group[0]);
                proof {
                    assert(self.heads() =~= heads.skip(1));
                    assert forall|i: int| 0 <= i < self.heads().len() implies heads.contains(
                        #[trigger] self.heads()[i],
                    ) by {
                        assert(heads[i + 1] == self.heads()[i]);
                    }
                    assert forall|i: int| 0 <= i < self.heads().len() implies self.key_fn.ready(
                        #[trigger] self.heads()[i],
                    ) by {
                        assert(self.heads()[i] == heads[i + 1]);
                    }
                    assert forall|i: int| 0 <= i < self.groups.remaining().len() implies (
                    #[trigger] self.groups.remaining()[i]).len() > 0 by {
                        assert(self.groups.remaining()[i] == rem[i + 1]);
                    }
                    assert(self.remaining() =~= old(self).remaining().skip(1));
                }
                Some((key, group))
            },
            None => None,
        }
    }
}

} // verus!
