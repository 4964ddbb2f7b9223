//! Where pipelines start: an owned vector, or a half-open integer range.

use crate::fluent::Flu;
use crate::stage::Stage;
use crate::text::{to_chars, to_string, trim, trimmed};
use std::ops::{Range, RangeInclusive};
use vstd::prelude::*;

verus! {

/// The integers from `lo` up to, not including, `hi`.
pub open spec fn span(lo: int, hi: int) -> Seq<int> {
    Seq::new(
        if hi >= lo {
            (hi - lo) as nat
        } else {
            0
        },
        |i: int| lo + i,
    )
}

impl Stage for Range<i64> {
    type Item = i64;

    open spec fn wf(&self) -> bool {
        true
    }

    open spec fn remaining(&self) -> Seq<i64> {
        span(self.start as int, self.end as int).map_values(|v: int| v as i64)
    }

    fn next(&mut self) -> (r: Option<i64>) {
        broadcast use vstd::std_specs::range::group_range_axioms;

        let r = Iterator::next(self);
        assert(old(self).remaining().len() > 0 ==> final(self).remaining() =~= old(
            self,
        ).remaining().skip(1));
        r
    }
}

impl Stage for Range<i32> {
    type Item = i32;

    open spec fn wf(&self) -> bool {
        true
    }

    open spec fn remaining(&self) -> Seq<i32> {
        span(self.start as int, self.end as int).map_values(|v: int| v as i32)
    }

    fn next(&mut self) -> (r: Option<i32>) {
        broadcast use vstd::std_specs::range::group_range_axioms;

        let r = Iterator::next(self);
        assert(old(self).remaining().len() > 0 ==> final(self).remaining() =~= old(
            self,
        ).remaining().skip(1));
        r
    }
}

/// The integers that an inclusive range of `i32` still holds.
pub open spec fn inclusive_i32(r: RangeInclusive<i32>) -> Seq<i32> {
    if r@.exhausted {
        Seq::empty()
    } else {
        span(r@.start as int, r@.end + 1).map_values(|v: int| v as i32)
    }
}

/// The integers that an inclusive range of `i64` still holds.
pub open spec fn inclusive_i64(r: RangeInclusive<i64>) -> Seq<i64> {
    if r@.exhausted {
        Seq::empty()
    } else {
        span(r@.start as int, r@.end + 1).map_values(|v: int| v as i64)
    }
}

/// `Iterator::next` of `RangeInclusive<i32>`: hands out the least integer
/// that the range holds and leaves the others, or hands out nothing and
/// leaves the range as it is when it holds none.
#[verifier::external_body]
fn next_inclusive_i32(r: &mut RangeInclusive<i32>) -> (x: Option<i32>)
    ensures
        match x {
            Some(v) => inclusive_i32(*old(r)).len() > 0 && v == inclusive_i32(*old(r))[0]
                && inclusive_i32(*final(r)) == inclusive_i32(*old(r)).skip(1),
            None => inclusive_i32(*old(r)).len() == 0 && inclusive_i32(*final(r)) == inclusive_i32(
                *old(r),
            ),
        },
{
    Iterator::next(r)
}

/// `Iterator::next` of `RangeInclusive<i64>`: hands out the least integer
/// that the range holds and leaves the others, or hands out nothing and
/// leaves the range as it is when it holds none.
#[verifier::external_body]
fn next_inclusive_i64(r: &mut RangeInclusive<i64>) -> (x: Option<i64>)
    ensures
        match x {
            Some(v) => inclusive_i64(*old(r)).len() > 0 && v == inclusive_i64(*old(r))[0]
                && inclusive_i64(*final(r)) == inclusive_i64(*old(r)).skip(1),
            None => inclusive_i64(*old(r)).len() == 0 && inclusive_i64(*final(r)) == inclusive_i64(
                *old(r),
            ),
        },
{
    Iterator::next(r)
}

impl Stage for RangeInclusive<i32> {
    type Item = i32;

    open spec fn wf(&self) -> bool {
        true
    }

    open spec fn remaining(&self) -> Seq<i32> {
        inclusive_i32(*self)
    }

    fn next(&mut self) -> (r: Option<i32>) {
        next_inclusive_i32(self)
    }
}

impl Stage for RangeInclusive<i64> {
    type Item = i64;

    open spec fn wf(&self) -> bool {
        true
    }

    open spec fn remaining(&self) -> Seq<i64> {
        inclusive_i64(*self)
    }

    fn next(&mut self) -> (r: Option<i64>) {
        next_inclusive_i64(self)
    }
}

/// A source that owns its items and hands them out front to back.
pub struct VecSource<T> {
    /// The items still to come, last one first.
    stack: Vec<T>,
}

impl<T: DeepView> VecSource<T> {
    /// A source that yields the items of `items` in order.
    pub fn new(items: Vec<T>) -> (r: Self)
        ensures
            r.wf(),
            r.remaining() == items.deep_view(),
    {
        let mut items = items;
        let mut stack: Vec<T> = Vec::new();
        let ghost all = items.deep_view();
        while items.len() > 0
            invariant
                items.deep_view() + stack.deep_view().reverse() == all,
            decreases items.len(),
        {
            let ghost before = items.deep_view();
            let ghost done = stack.deep_view();
            let x = items.pop().unwrap();
            stack.push(x);
            assert(before =~= items.deep_view().push(x.deep_view()));
            assert(stack.deep_view() =~= done.push(x.deep_view()));
            assert(stack.deep_view().reverse() =~= seq![x.deep_view()] + done.reverse());
            assert(items.deep_view() + stack.deep_view().reverse() =~= before + done.reverse());
        }
        assert(items.deep_view() =~= Seq::empty());
        assert(stack.deep_view().reverse() =~= all);
        VecSource { stack }
    }
}

impl<T: DeepView> Stage for VecSource<T> {
    type Item = T;

    closed spec fn wf(&self) -> bool {
        true
    }

    closed spec fn remaining(&self) -> Seq<T::V> {
        self.stack.deep_view().reverse()
    }

    fn next(&mut self) -> (r: Option<T>) {
        let r = self.stack.pop();
        proof {
            if r is Some {
                assert(self.stack.deep_view().reverse() =~= old(self).stack.deep_view().reverse().skip(
                    1,
                ));
            }
        }
        r
    }
}

/// What can start a pipeline: a stage, a pipeline, or a vector of items.
pub trait IntoStage: Sized {
    type Stage: Stage;

    /// What `into_stage` asks of the value.
    spec fn ready(&self) -> bool;

    /// Models of the items that the stage will yield.
    spec fn items(&self) -> Seq<<<Self::Stage as Stage>::Item as DeepView>::V>;

    fn into_stage(self) -> (s: Self::Stage)
        requires
            self.ready(),
        ensures
            s.wf(),
            s.remaining() == self.items(),
    ;
}

impl<S: Stage> IntoStage for S {
    type Stage = S;

    open spec fn ready(&self) -> bool {
        self.wf()
    }

    open spec fn items(&self) -> Seq<<S::Item as DeepView>::V> {
        self.remaining()
    }

    fn into_stage(self) -> (s: S) {
        self
    }
}

impl<T: DeepView> IntoStage for Vec<T> {
    type Stage = VecSource<T>;

    open spec fn ready(&self) -> bool {
        true
    }

    open spec fn items(&self) -> Seq<T::V> {
        self.deep_view()
    }

    fn into_stage(self) -> (s: VecSource<T>) {
        VecSource::new(self)
    }
}

impl<S: Stage> IntoStage for Flu<S> {
    type Stage = S;

    open spec fn ready(&self) -> bool {
        self.wf()
    }

    open spec fn items(&self) -> Seq<<S::Item as DeepView>::V> {
        self@
    }

    fn into_stage(self) -> (s: S) {
        self.into_inner()
    }
}

/// A pipeline over the items of a vector, or over what a stage yields.
pub fn flu<I: IntoStage>(iterable: I) -> (r: Flu<I::Stage>)
    requires
        iterable.ready(),
    ensures
        r.wf(),
        r@ == iterable.items(),
{
    Flu::new(iterable.into_stage())
}

/// A pipeline over the integers from `start` up to, not including, `end`.
pub fn range(start: i64, end: i64) -> (r: Flu<Range<i64>>)
    ensures
        r.wf(),
        r@ == span(start as int, end as int).map_values(|v: int| v as i64),
{
    Flu::new(start..end)
}

/// The lines that count as input: each line without the white space at its
/// front and at its end, but for the lines of which nothing is left then.
pub open spec fn input_lines(raw: Seq<Seq<char>>) -> Seq<Seq<char>> {
    raw.map_values(trimming()).filter(not_empty())
}

/// `trim` as a function.
pub open spec fn trimming() -> spec_fn(Seq<char>) -> Seq<char> {
    |l: Seq<char>| trim(l)
}

/// "Holds a character", as a predicate.
pub open spec fn not_empty() -> spec_fn(Seq<char>) -> bool {
    |l: Seq<char>| l.len() > 0
}

/// A pipeline over lines of input as they were read: trimmed, without the
/// empty ones.
pub fn input(raw: Vec<String>) -> (r: Flu<VecSource<String>>)
    ensures
        r.wf(),
        r@ == input_lines(raw.deep_view()),
{
    let mut lines: Vec<String> = Vec::new();
    let ghost all = raw.deep_view();
    let ghost cut = trimming();
    let ghost kept = not_empty();
    let mut i: usize = 0;
    proof {
        assert(all.take(0).map_values(cut) =~= Seq::empty());
        assert(lines.deep_view() =~= Seq::empty());
    }
    while i < raw.len()
        invariant
            i <= raw.len(),
            all == raw.deep_view(),
            cut == trimming(),
            kept == not_empty(),
            lines.deep_view() == all.take(i as int).map_values(cut).filter(kept),
        decreases raw.len() - i,
    {
        let ghost had = lines.deep_view();
        let line = trimmed(&to_chars(raw[i].as_str()));
        proof {
            let front = all.take(i as int).map_values(cut);
            assert(all[i as int] == raw[i as int]@);
            assert(all.take(i as int + 1).map_values(cut) =~= front.push(line@));
            front.lemma_filter_push(line@, kept);
        }
        if line.len() > 0 {
            lines.push(to_string(&line));
            assert(lines.deep_view() =~= had.push(line@));
        }
        i += 1;
    }
    assert(all.take(i as int) =~= all);
    flu(lines)
}

} // verus!
