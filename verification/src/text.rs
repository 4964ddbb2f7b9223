//! Text as sequences of characters: conversions between strings and
//! character vectors, and the searches and cuts that the formatters use.

use crate::seqs::leading;
use vstd::prelude::*;

verus! {

/// White space as Unicode defines it.
pub open spec fn is_space(c: char) -> bool {
    let n = c as u32;
    (0x09 <= n <= 0x0D) || n == 0x20 || n == 0x85 || n == 0xA0 || n == 0x1680 || (0x2000 <= n
        <= 0x200A) || n == 0x2028 || n == 0x2029 || n == 0x202F || n == 0x205F || n == 0x3000
}

/// `is_space` as a predicate.
pub open spec fn spaces() -> spec_fn(char) -> bool {
    |c: char| is_space(c)
}

/// "Is not the character `c`", as a predicate.
pub open spec fn other_than(c: char) -> spec_fn(char) -> bool {
    |x: char| x != c
}

/// How many elements stand at the end of `s` after the last of which `p`
/// does not hold.
pub open spec fn trailing<A>(s: Seq<A>, p: spec_fn(A) -> bool) -> nat
    decreases s.len(),
{
    if s.len() == 0 || !p(s.last()) {
        0
    } else {
        1 + trailing(s.drop_last(), p)
    }
}

/// `s` without the white space at its front.
pub open spec fn trim_start(s: Seq<char>) -> Seq<char> {
    s.skip(leading(s, spaces()) as int)
}

/// `s` without the white space at its end.
pub open spec fn trim_end(s: Seq<char>) -> Seq<char> {
    s.take(s.len() - trailing(s, spaces()))
}

/// `s` without the white space at its front and at its end.
pub open spec fn trim(s: Seq<char>) -> Seq<char> {
    trim_end(trim_start(s))
}

/// `s` holds nothing but white space.
pub open spec fn blank(s: Seq<char>) -> bool {
    leading(s, spaces()) == s.len()
}

/// Where `c` first stands in `s`; the length of `s` if it stands nowhere.
pub open spec fn position(s: Seq<char>, c: char) -> nat {
    leading(s, other_than(c))
}

/// What follows the last `c` in `s`; all of `s` if it holds no `c`.
pub open spec fn after_last(s: Seq<char>, c: char) -> Seq<char> {
    s.skip(s.len() - trailing(s, other_than(c)))
}

/// `pat` stands in `s` at position `i`.
pub open spec fn occurs_at(s: Seq<char>, pat: Seq<char>, i: int) -> bool {
    0 <= i && i + pat.len() <= s.len() && s.subrange(i, i + pat.len()) == pat
}

/// `i` is the first position at which `pat` stands in `s`.
pub open spec fn first_at(s: Seq<char>, pat: Seq<char>, i: int) -> bool {
    occurs_at(s, pat, i) && forall|j: int| 0 <= j < i ==> !occurs_at(s, pat, j)
}

/// The first position at which `pat` stands in `s`, if it stands anywhere.
pub open spec fn find(s: Seq<char>, pat: Seq<char>) -> Option<int> {
    if exists|i: int| first_at(s, pat, i) {
        Some(choose|i: int| first_at(s, pat, i))
    } else {
        None
    }
}

/// `s` without one carriage return at its end, if it has one there.
pub open spec fn without_cr(s: Seq<char>) -> Seq<char> {
    if s.len() > 0 && s.last() == '\r' {
        s.drop_last()
    } else {
        s
    }
}

/// The lines of `s`: the stretches between line feeds, each without the
/// carriage return that may stand before its line feed. A line feed at the
/// very end starts no further line.
pub open spec fn lines(s: Seq<char>) -> Seq<Seq<char>>
    decreases s.len(),
{
    if s.len() == 0 {
        Seq::empty()
    } else {
        let n = position(s, '\n') as int;
        if n >= s.len() {
            seq![s]
        } else {
            seq![without_cr(s.take(n))] + lines(s.skip(n + 1))
        }
    }
}

/// `String::push`: appends one character.
#[verifier::external_body]
fn push_char(s: &mut String, c: char)
    ensures
        final(s)@ == old(s)@.push(c),
{
    s.push(c);
}

/// The characters of `s`, in a vector.
pub fn to_chars(s: &str) -> (v: Vec<char>)
    ensures
        v@ == s@,
{
    let mut v: Vec<char> = Vec::new();
    for c in it: s.chars()
        invariant
            v@ == it.seq().take(it.index()),
            it.seq() == s@,
    {
        v.push(c);
        assert(v@ =~= it.seq().take(it.index() + 1));
    }
    assert(v@ =~= s@);
    v
}

/// The string that holds the characters of `v`.
pub fn to_string(v: &Vec<char>) -> (s: String)
    ensures
        s@ == v@,
{
    let mut s = String::new();
    let mut i: usize = 0;
    while i < v.len()
        invariant
            i <= v.len(),
            s@ == v@.take(i as int),
        decreases v.len() - i,
    {
        push_char(&mut s, v[i]);
        i += 1;
        assert(s@ =~= v@.take(i as int));
    }
    assert(v@.take(i as int) =~= v@);
    s
}

/// Whether `c` is white space.
pub fn is_whitespace(c: char) -> (b: bool)
    ensures
        b == is_space(c),
{
    let n = c as u32;
    (0x09 <= n && n <= 0x0D) || n == 0x20 || n == 0x85 || n == 0xA0 || n == 0x1680 || (0x2000 <= n
        && n <= 0x200A) || n == 0x2028 || n == 0x2029 || n == 0x202F || n == 0x205F || n == 0x3000
}

/// The characters of `v` from `from` up to, not including, `to`.
pub fn slice(v: &Vec<char>, from: usize, to: usize) -> (r: Vec<char>)
    requires
        from <= to <= v.len(),
    ensures
        r@ == v@.subrange(from as int, to as int),
{
    let mut r: Vec<char> = Vec::new();
    let mut i = from;
    while i < to
        invariant
            from <= i <= to <= v.len(),
            r@ == v@.subrange(from as int, i as int),
        decreases to - i,
    {
        r.push(v[i]);
        i += 1;
        assert(r@ =~= v@.subrange(from as int, i as int));
    }
    r
}

/// How many white-space characters stand at the front of `v`.
pub fn leading_spaces(v: &Vec<char>) -> (n: usize)
    ensures
        n == leading(v@, spaces()),
        n <= v.len(),
{
    let mut i: usize = 0;
    proof {
        assert(v@.skip(0) =~= v@);
    }
    while i < v.len() && is_whitespace(v[i])
        invariant
            i <= v.len(),
            leading(v@, spaces()) == i + leading(v@.skip(i as int), spaces()),
        decreases v.len() - i,
    {
        proof {
            assert(v@.skip(i as int).skip(1) =~= v@.skip(i as int + 1));
        }
        i += 1;
    }
    i
}

/// How many white-space characters stand at the end of `v`.
pub fn trailing_spaces(v: &Vec<char>) -> (n: usize)
    ensures
        n == trailing(v@, spaces()),
        n <= v.len(),
{
    let mut j: usize = v.len();
    proof {
        assert(v@.take(j as int) =~= v@);
    }
    while j > 0 && is_whitespace(v[j - 1])
        invariant
            j <= v.len(),
            trailing(v@, spaces()) == (v.len() - j) + trailing(v@.take(j as int), spaces()),
        decreases j,
    {
        proof {
            assert(v@.take(j as int).drop_last() =~= v@.take(j as int - 1));
        }
        j -= 1;
    }
    v.len() - j
}

/// `v` without the white space at its front.
pub fn trimmed_start(v: &Vec<char>) -> (r: Vec<char>)
    ensures
        r@ == trim_start(v@),
{
    let n = leading_spaces(v);
    let r = slice(v, n, v.len());
    assert(r@ =~= trim_start(v@));
    r
}

/// `v` without the white space at its front and at its end.
pub fn trimmed(v: &Vec<char>) -> (r: Vec<char>)
    ensures
        r@ == trim(v@),
{
    let front = trimmed_start(v);
    let n = trailing_spaces(&front);
    let r = slice(&front, 0, front.len() - n);
    assert(r@ =~= trim(v@));
    r
}

/// Where `c` first stands in `v`; the length of `v` if it stands nowhere.
pub fn position_of(v: &Vec<char>, c: char) -> (n: usize)
    ensures
        n == position(v@, c),
        n <= v.len(),
{
    let mut i: usize = 0;
    proof {
        assert(v@.skip(0) =~= v@);
    }
    while i < v.len() && v[i] != c
        invariant
            i <= v.len(),
            position(v@, c) == i + leading(v@.skip(i as int), other_than(c)),
        decreases v.len() - i,
    {
        proof {
            assert(v@.skip(i as int).skip(1) =~= v@.skip(i as int + 1));
        }
        i += 1;
    }
    i
}

/// What follows the last `c` in `v`; all of `v` if it holds no `c`.
pub fn tail_after_last(v: &Vec<char>, c: char) -> (r: Vec<char>)
    ensures
        r@ == after_last(v@, c),
{
    let mut j: usize = v.len();
    proof {
        assert(v@.take(j as int) =~= v@);
    }
    while j > 0 && v[j - 1] != c
        invariant
            j <= v.len(),
            trailing(v@, other_than(c)) == (v.len() - j) + trailing(
                v@.take(j as int),
                other_than(c),
            ),
        decreases j,
    {
        proof {
            assert(v@.take(j as int).drop_last() =~= v@.take(j as int - 1));
        }
        j -= 1;
    }
    let r = slice(v, j, v.len());
    assert(r@ =~= after_last(v@, c));
    r
}

/// Whether `pat` stands in `v` at position `at`.
pub fn matches_at(v: &Vec<char>, pat: &Vec<char>, at: usize) -> (b: bool)
    ensures
        b == occurs_at(v@, pat@, at as int),
{
    if at > v.len() || pat.len() > v.len() - at {
        return false;
    }
    let mut k: usize = 0;
    while k < pat.len()
        invariant
            k <= pat.len(),
            at + pat.len() <= v.len(),
            v@.subrange(at as int, at + k) == pat@.take(k as int),
        decreases pat.len() - k,
    {
        if v[at + k] != pat[k] {
            assert(v@.subrange(at as int, at + pat.len())[k as int] != pat@[k as int]);
            return false;
        }
        k += 1;
        assert(v@.subrange(at as int, at + k) =~= pat@.take(k as int));
    }
    assert(pat@.take(k as int) =~= pat@);
    true
}

/// Whether `v` begins with `pat`.
pub fn starts_with(v: &Vec<char>, pat: &Vec<char>) -> (b: bool)
    ensures
        b == pat@.is_prefix_of(v@),
{
    let b = matches_at(v, pat, 0);
    proof {
        if pat.len() <= v.len() {
            assert(v@.subrange(0, pat.len() as int) =~= v@.take(pat.len() as int));
        }
    }
    b
}

/// The first position at which `pat` stands in `v`, if it stands anywhere.
pub fn find_in(v: &Vec<char>, pat: &Vec<char>) -> (r: Option<usize>)
    ensures
        match r {
            Some(i) => find(v@, pat@) == Some(i as int),
            None => find(v@, pat@) is None,
        },
{
    if pat.len() > v.len() {
        proof {
            assert forall|c: int| !first_at(v@, pat@, c) by {}
        }
        return None;
    }
    let last = v.len() - pat.len();
    let mut i: usize = 0;
    loop
        invariant
            i <= last,
            last == v.len() - pat.len(),
            forall|j: int| 0 <= j < i ==> !occurs_at(v@, pat@, j),
        decreases last - i,
    {
        if matches_at(v, pat, i) {
            proof {
                assert(first_at(v@, pat@, i as int));
                let c = choose|c: int| first_at(v@, pat@, c);
                assert(c == i) by {
                    if c < i {
                        assert(!occurs_at(v@, pat@, c));
                    }
                    if i < c {
                        assert(!occurs_at(v@, pat@, i as int));
                    }
                }
            }
            return Some(i);
        }
        if i == last {
            proof {
                assert forall|c: int| !first_at(v@, pat@, c) by {
                    if occurs_at(v@, pat@, c) {
                        assert(c <= last);
                    }
                }
            }
            return None;
        }
        i += 1;
    }
}

/// `a` followed by `b`.
pub fn joined(a: &Vec<char>, b: &Vec<char>) -> (r: Vec<char>)
    ensures
        r@ == a@ + b@,
{
    let mut r = slice(a, 0, a.len());
    let mut i: usize = 0;
    assert(r@ =~= a@ + b@.take(0));
    while i < b.len()
        invariant
            i <= b.len(),
            r@ == a@ + b@.take(i as int),
        decreases b.len() - i,
    {
        r.push(b[i]);
        i += 1;
        assert(r@ =~= a@ + b@.take(i as int));
    }
    assert(b@.take(i as int) =~= b@);
    r
}

/// The lines of `v`.
pub fn split_lines(v: &Vec<char>) -> (r: Vec<Vec<char>>)
    ensures
        r.deep_view() == lines(v@),
{
    let mut out: Vec<Vec<char>> = Vec::new();
    let mut start: usize = 0;
    proof {
        assert(v@.skip(0) =~= v@);
        assert(out.deep_view() + lines(v@.skip(0)) =~= lines(v@));
    }
    while start < v.len()
        invariant
            start <= v.len(),
            out.deep_view() + lines(v@.skip(start as int)) == lines(v@),
        decreases v.len() - start,
    {
        let ghost rest = v@.skip(start as int);
        let ghost had = out.deep_view();
        let tail = slice(v, start, v.len());
        assert(tail@ =~= rest);
        let n = position_of(&tail, '\n');
        if n >= tail.len() {
            assert(tail.deep_view() =~= rest);
            out.push(tail);
            proof {
                assert(out.deep_view() =~= had.push(rest));
                assert(v@.skip(v.len() as int) =~= Seq::empty());
                assert(out.deep_view() + lines(v@.skip(v.len() as int)) =~= had + seq![rest]);
            }
            start = v.len();
        } else {
            let mut end = n;
            if end > 0 && tail[end - 1] == '\r' {
                end -= 1;
            }
            let line = slice(&tail, 0, end);
            proof {
                assert(rest.take(n as int).len() == n);
                assert(line@ =~= without_cr(rest.take(n as int)));
            }
            assert(line.deep_view() =~= line@);
            out.push(line);
            proof {
                assert(out.deep_view() =~= had.push(line@));
                assert(rest.skip(n + 1) =~= v@.skip(start + n + 1));
                assert(out.deep_view() + lines(v@.skip(start + n + 1)) =~= had + (seq![line@]
                    + lines(rest.skip(n + 1))));
            }
            start = start + n + 1;
        }
    }
    proof {
        assert(v@.skip(start as int) =~= Seq::empty());
        assert(out.deep_view() + Seq::empty() =~= out.deep_view());
    }
    out
}

/// Whether two strings hold the same characters.
pub fn same_text(a: &str, b: &str) -> (r: bool)
    ensures
        r == (a@ == b@),
{
    let x = to_chars(a);
    let y = to_chars(b);
    if x.len() != y.len() {
        return false;
    }
    let mut i: usize = 0;
    while i < x.len()
        invariant
            i <= x.len(),
            x.len() == y.len(),
            x@ == a@,
            y@ == b@,
            x@.take(i as int) == y@.take(i as int),
        decreases x.len() - i,
    {
        if x[i] != y[i] {
            assert(a@[i as int] != b@[i as int]);
            return false;
        }
        i += 1;
        assert(x@.take(i as int) =~= x@.take(i as int - 1).push(x@[i as int - 1]));
        assert(y@.take(i as int) =~= y@.take(i as int - 1).push(y@[i as int - 1]));
    }
    assert(x@.take(i as int) =~= x@);
    assert(y@.take(i as int) =~= y@);
    true
}

} // verus!
