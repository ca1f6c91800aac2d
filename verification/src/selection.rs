//! A compact, canonical set of non-negative integers.
//!
//! [`SelectionRange`] stores a finite set of `usize` values as a flat,
//! strictly increasing sequence of interval boundaries: positions `2k` are
//! interval starts and positions `2k + 1` are interval ends, so each pair
//! stands for the half-open interval `[start, end)`. Keeping the sequence
//! strictly increasing makes every stored interval non-empty and leaves a gap
//! between consecutive intervals, which makes the representation canonical:
//! two well-formed boundary sequences that cover the same integers are equal.

use vstd::prelude::*;

verus! {

/// The canonical-form invariant of a boundary sequence: even length and
/// strictly increasing. Strict increase makes each stored interval non-empty
/// and keeps consecutive intervals from touching or overlapping.
pub open spec fn canonical(s: Seq<usize>) -> bool {
    &&& s.len() % 2 == 0
    &&& forall|i: int, j: int| 0 <= i < j < s.len() ==> s[i] < s[j]
}

/// Membership: `x` lies in one of the half-open intervals encoded by `s`.
pub open spec fn covers(s: Seq<usize>, x: int) -> bool
    decreases s.len(),
{
    if s.len() < 2 {
        false
    } else {
        (s[0] as int <= x < s[1] as int) || covers(s.skip(2), x)
    }
}

/// The number of integers covered by `s`: the sum of the interval widths.
pub open spec fn covered_len(s: Seq<usize>) -> int
    decreases s.len(),
{
    if s.len() < 2 {
        0
    } else {
        (s[1] - s[0]) + covered_len(s.skip(2))
    }
}

/// No integer is covered by an empty boundary sequence.
pub proof fn lemma_covers_empty()
    ensures
        forall|x: int| !covers(Seq::<usize>::empty(), x),
{
    assert forall|x: int| !covers(Seq::<usize>::empty(), x) by {
        reveal_with_fuel(covers, 1);
    }
}

/// Membership in a concatenation of boundary sequences splits into membership
/// in the two halves, provided the first half holds whole intervals.
pub proof fn lemma_covers_append(a: Seq<usize>, b: Seq<usize>)
    requires
        a.len() % 2 == 0,
    ensures
        forall|x: int| covers(a + b, x) <==> covers(a, x) || covers(b, x),
    decreases a.len(),
{
    if a.len() == 0 {
        assert(a + b =~= b);
        lemma_covers_empty();
        assert(a =~= Seq::<usize>::empty());
    } else {
        assert((a + b).skip(2) =~= a.skip(2) + b);
        lemma_covers_append(a.skip(2), b);
        assert forall|x: int| covers(a + b, x) <==> covers(a, x) || covers(b, x) by {
            assert((a + b)[0] == a[0]);
            assert((a + b)[1] == a[1]);
            assert(covers(a + b, x) == ((a[0] as int <= x < a[1] as int) || covers(
                (a + b).skip(2),
                x,
            )));
            assert(covers(a, x) == ((a[0] as int <= x < a[1] as int) || covers(a.skip(2), x)));
        }
    }
}

/// A two-element boundary sequence covers exactly its one interval.
pub proof fn lemma_covers_pair(a: usize, b: usize)
    ensures
        forall|x: int| covers(seq![a, b], x) <==> (a as int <= x < b as int),
{
    lemma_covers_empty();
    assert forall|x: int| covers(seq![a, b], x) <==> (a as int <= x < b as int) by {
        assert(seq![a, b].skip(2) =~= Seq::<usize>::empty());
        assert(covers(seq![a, b], x) == ((a as int <= x < b as int) || covers(
            seq![a, b].skip(2),
            x,
        )));
    }
}

/// The covered count of a concatenation is the sum of the halves' counts.
pub proof fn lemma_covered_len_append(a: Seq<usize>, b: Seq<usize>)
    requires
        a.len() % 2 == 0,
    ensures
        covered_len(a + b) == covered_len(a) + covered_len(b),
    decreases a.len(),
{
    if a.len() == 0 {
        assert(a + b =~= b);
        assert(a =~= Seq::<usize>::empty());
    } else {
        assert((a + b).skip(2) =~= a.skip(2) + b);
        assert((a + b)[0] == a[0]);
        assert((a + b)[1] == a[1]);
        lemma_covered_len_append(a.skip(2), b);
    }
}

/// Appending one interval strictly above every stored boundary keeps the
/// sequence canonical.
pub proof fn lemma_push_pair(s: Seq<usize>, a: usize, b: usize)
    requires
        canonical(s),
        s.len() > 0 ==> s[s.len() - 1] < a,
        a < b,
    ensures
        canonical(s.push(a).push(b)),
        forall|x: int| covers(s.push(a).push(b), x) <==> covers(s, x) || (a as int <= x
            < b as int),
{
    let t = s.push(a).push(b);
    assert forall|i: int, j: int| 0 <= i < j < t.len() implies t[i] < t[j] by {
        if j < s.len() {
        } else if i < s.len() {
            assert(s[i] <= s[s.len() - 1]);
        }
    }
    assert(t =~= s + seq![a, b]);
    lemma_covers_append(s, seq![a, b]);
    lemma_covers_pair(a, b);
}

/// Every covered integer lies at or above the least stored boundary.
pub proof fn lemma_covers_lower_bound(s: Seq<usize>)
    requires
        canonical(s),
    ensures
        forall|x: int| covers(s, x) ==> s.len() >= 2 && s[0] as int <= x,
    decreases s.len(),
{
    if s.len() >= 2 {
        assert forall|i: int, j: int| 0 <= i < j < s.skip(2).len() implies s.skip(2)[i] < s.skip(
            2,
        )[j] by {}
        lemma_covers_lower_bound(s.skip(2));
        assert forall|x: int| covers(s, x) implies s[0] as int <= x by {
            if covers(s.skip(2), x) {
                assert(s.skip(2)[0] == s[2]);
            }
        }
    }
}

/// `x` lies in the half-open interval `r`.
pub open spec fn range_covers(r: core::ops::Range<usize>, x: int) -> bool {
    r.start as int <= x < r.end as int
}

/// `x` lies in one of the (possibly overlapping, unordered) ranges of `rs`.
pub open spec fn in_ranges(rs: Seq<core::ops::Range<usize>>, x: int) -> bool {
    exists|k: int| 0 <= k < rs.len() && range_covers(rs[k], x)
}

/// With the boundaries sorted, an integer is covered exactly when an odd
/// number of boundaries lie at or below it: each start at or below it opens an
/// interval and each end at or below it closes one again.
proof fn lemma_rank_parity(s: Seq<usize>, v: usize, rank: int)
    requires
        canonical(s),
        0 <= rank <= s.len(),
        forall|k: int| 0 <= k < rank ==> (s[k] <= v),
        forall|k: int| rank <= k < s.len() ==> (s[k] > v),
    ensures
        covers(s, v as int) <==> rank % 2 == 1,
    decreases s.len(),
{
    if s.len() == 0 {
        assert(rank == 0);
    } else {
        assert(s.len() >= 2);
        let t = s.skip(2);
        assert forall|i: int, j: int| 0 <= i < j < t.len() implies t[i] < t[j] by {
            assert(t[i] == s[i + 2] && t[j] == s[j + 2]);
        }
        if rank == 0 {
            lemma_rank_parity(t, v, 0);
        } else if rank == 1 {
            lemma_rank_parity(t, v, 0);
            assert(s[0] <= v && v < s[1]);
        } else {
            assert(s[1] <= v);
            lemma_rank_parity(t, v, rank - 2);
        }
    }
}

/// An ordered, canonical collection of disjoint half-open `usize` intervals,
/// supporting union (`add`), difference (`remove`) and membership queries.
#[derive(Debug)]
pub struct SelectionRange {
    ranges: Vec<usize>,
}

impl View for SelectionRange {
    type V = Seq<usize>;

    closed spec fn view(&self) -> Seq<usize> {
        self.ranges@
    }
}

impl SelectionRange {
    /// Well-formedness: the boundary sequence is in canonical form.
    pub open spec fn inv(&self) -> bool {
        canonical(self@)
    }

    /// The set holding exactly the integers of `range`.
    pub fn new(range: core::ops::Range<usize>) -> (r: Self)
        ensures
            r.inv(),
            forall|x: int| covers(r@, x) <==> (range.start as int <= x < range.end as int),
            range.start < range.end ==> r@ == seq![range.start, range.end],
            range.start >= range.end ==> r@ == Seq::<usize>::empty(),
    {
        let mut v: Vec<usize> = Vec::new();
        if range.start < range.end {
            v.push(range.start);
            v.push(range.end);
        }
        proof {
            if range.start < range.end {
                assert(v@ =~= seq![range.start, range.end]);
                lemma_covers_pair(range.start, range.end);
            } else {
                assert(v@ =~= Seq::<usize>::empty());
                lemma_covers_empty();
            }
        }
        SelectionRange { ranges: v }
    }

    /// Inserts every integer of `range`: the set becomes the union of the old
    /// set and `[range.start, range.end)`. Stored intervals that overlap or
    /// touch the new range are merged with it into a single interval; all
    /// others are kept as they are. An empty input range is a no-op.
    pub fn add(&mut self, range: core::ops::Range<usize>)
        requires
            old(self).inv(),
        ensures
            final(self).inv(),
            forall|x: int|
                covers(final(self)@, x) <==> covers(old(self)@, x) || (range.start as int <= x
                    < range.end as int),
            range.start >= range.end ==> final(self)@ == old(self)@,
    {
        if range.start >= range.end {
            return ;
        }
        let ghost s = self.ranges@;
        let n = self.ranges.len();
        let mut out: Vec<usize> = Vec::new();
        let mut i: usize = 0;

        // Copy the intervals that lie entirely below the new range without
        // touching it.
        while i < n && self.ranges[i + 1] < range.start
            invariant
                canonical(s),
                self.ranges@ == s,
                n == s.len(),
                i % 2 == 0,
                i <= n,
                out@ == s.take(i as int),
                forall|k: int| 0 <= k < i ==> (s[k] as int) < range.start as int,
            decreases n - i,
        {
            let a = self.ranges[i];
            let b = self.ranges[i + 1];
            out.push(a);
            out.push(b);
            proof {
                assert(out@ =~= s.take(i as int + 2));
            }
            i = i + 2;
        }
        let ghost i0 = i as int;

        // Swallow every interval that overlaps or touches the new range,
        // widening the pending interval as needed.
        let mut ns = range.start;
        let mut ne = range.end;
        proof {
            assert(s.subrange(i0, i0) =~= Seq::<usize>::empty());
            lemma_covers_empty();
        }
        while i < n && self.ranges[i] <= ne
            invariant
                canonical(s),
                self.ranges@ == s,
                n == s.len(),
                i % 2 == 0,
                i0 % 2 == 0,
                0 <= i0 <= i <= n,
                out@ == s.take(i0),
                forall|k: int| 0 <= k < i0 ==> (s[k] as int) < range.start as int,
                i0 < n ==> range.start as int <= s[i0 + 1] as int,
                ns <= range.start,
                range.end <= ne,
                i0 > 0 ==> (s[i0 - 1] as int) < ns as int,
                forall|x: int|
                    (ns as int <= x < ne as int) <==> (range.start as int <= x
                        < range.end as int) || covers(s.subrange(i0, i as int), x),
            decreases n - i,
        {
            proof {
                assert(i + 2 <= n) by {
                    assert(i % 2 == 0 && n % 2 == 0 && i < n);
                }
            }
            let a = self.ranges[i];
            let b = self.ranges[i + 1];
            let ghost ons = ns;
            let ghost one = ne;
            if a < ns {
                ns = a;
            }
            if b > ne {
                ne = b;
            }
            proof {
                assert(a == s[i as int] && b == s[i as int + 1]);
                assert(s.subrange(i0, i as int + 2) =~= s.subrange(i0, i as int) + seq![a, b]);
                lemma_covers_append(s.subrange(i0, i as int), seq![a, b]);
                lemma_covers_pair(a, b);
                // The swallowed interval overlaps or touches the pending one.
                assert(a <= one);
                assert(range.start as int <= b as int) by {
                    if i0 < i as int {
                        assert(s[i0 + 1] <= s[i as int + 1]);
                    }
                }
                assert forall|x: int|
                    #![trigger covers(s.subrange(i0, i as int + 2), x)]
                    (ns as int <= x < ne as int) <==> (range.start as int <= x
                        < range.end as int) || covers(s.subrange(i0, i as int + 2), x) by {
                    assert(covers(s.subrange(i0, i as int) + seq![a, b], x) <==> covers(
                        s.subrange(i0, i as int),
                        x,
                    ) || covers(seq![a, b], x));
                    assert(covers(seq![a, b], x) <==> (a as int <= x < b as int));
                    assert(covers(s.subrange(i0, i as int + 2), x) <==> covers(
                        s.subrange(i0, i as int),
                        x,
                    ) || (a as int <= x < b as int));
                    assert((ons as int <= x < one as int) <==> (range.start as int <= x
                        < range.end as int) || covers(s.subrange(i0, i as int), x));
                }
            }
            i = i + 2;
        }
        let ghost i1 = i as int;

        // Write the merged interval.
        let ghost before_pair = out@;
        out.push(ns);
        out.push(ne);
        proof {
            lemma_push_pair(before_pair, ns, ne);
            assert(out@ =~= s.take(i0) + seq![ns, ne]);
            assert(s.subrange(i1, i1) =~= Seq::<usize>::empty());
            assert(out@ =~= s.take(i0) + seq![ns, ne] + s.subrange(i1, i1));
        }

        // Copy the intervals that lie entirely above the merged interval.
        while i < n
            invariant
                canonical(s),
                self.ranges@ == s,
                n == s.len(),
                i % 2 == 0,
                i1 % 2 == 0,
                i0 % 2 == 0,
                0 <= i0 <= i1 <= i <= n,
                out@ == s.take(i0) + seq![ns, ne] + s.subrange(i1, i as int),
                canonical(out@),
                out@.len() > 0,
                i < n ==> (out@[out@.len() - 1] as int) < s[i as int] as int,
                forall|x: int|
                    (ns as int <= x < ne as int) <==> (range.start as int <= x
                        < range.end as int) || covers(s.subrange(i0, i1), x),
            decreases n - i,
        {
            let a = self.ranges[i];
            let b = self.ranges[i + 1];
            let ghost ob = out@;
            out.push(a);
            out.push(b);
            proof {
                lemma_push_pair(ob, a, b);
                assert(out@ =~= s.take(i0) + seq![ns, ne] + s.subrange(i1, i as int + 2));
            }
            i = i + 2;
        }

        proof {
            let tail = s.subrange(i1, n as int);
            let mid = s.subrange(i0, i1);
            lemma_covers_append(s.take(i0) + seq![ns, ne], tail);
            lemma_covers_append(s.take(i0), seq![ns, ne]);
            lemma_covers_pair(ns, ne);
            assert(s =~= (s.take(i0) + mid) + tail);
            lemma_covers_append(s.take(i0) + mid, tail);
            lemma_covers_append(s.take(i0), mid);
            assert forall|x: int|
                covers(out@, x) <==> covers(s, x) || (range.start as int <= x
                    < range.end as int) by {
                assert(covers((s.take(i0) + seq![ns, ne]) + tail, x) <==> covers(
                    s.take(i0) + seq![ns, ne],
                    x,
                ) || covers(tail, x));
                assert(covers(s.take(i0) + seq![ns, ne], x) <==> covers(s.take(i0), x) || covers(
                    seq![ns, ne],
                    x,
                ));
                assert(covers(seq![ns, ne], x) <==> (ns as int <= x < ne as int));
                assert(covers((s.take(i0) + mid) + tail, x) <==> covers(s.take(i0) + mid, x)
                    || covers(tail, x));
                assert(covers(s.take(i0) + mid, x) <==> covers(s.take(i0), x) || covers(mid, x));
                assert((ns as int <= x < ne as int) <==> (range.start as int <= x
                    < range.end as int) || covers(s.subrange(i0, i1), x));
                assert(out@ == (s.take(i0) + seq![ns, ne]) + tail);
                assert(s == (s.take(i0) + mid) + tail);
            }
        }
        self.ranges = out;
    }

    /// Removes every integer of `range`: the set becomes the difference of
    /// the old set and `[range.start, range.end)`. Stored intervals wholly
    /// inside the range are deleted, partially overlapping ones are truncated,
    /// and an interval strictly containing the range is split in two. Returns
    /// `true` iff the set changed, i.e. iff the removed range shared at least
    /// one integer with the set. An empty input range is a no-op.
    pub fn remove(&mut self, range: &core::ops::Range<usize>) -> (r: bool)
        requires
            old(self).inv(),
        ensures
            final(self).inv(),
            forall|x: int|
                covers(final(self)@, x) <==> covers(old(self)@, x) && !(range.start as int <= x
                    < range.end as int),
            r <==> exists|x: int|
                covers(old(self)@, x) && (range.start as int <= x < range.end as int),
            !r ==> final(self)@ == old(self)@,
            r ==> final(self)@ != old(self)@,
    {
        if range.start >= range.end {
            return false;
        }
        if self.ranges.len() == 0 {
            proof {
                assert(self.ranges@ =~= Seq::<usize>::empty());
                lemma_covers_empty();
            }
            return false;
        }
        let ghost s = self.ranges@;
        let n = self.ranges.len();
        let mut out: Vec<usize> = Vec::new();
        let mut changed = false;
        let mut i: usize = 0;
        proof {
            assert(s.take(0) =~= Seq::<usize>::empty());
            lemma_covers_empty();
        }
        while i < n
            invariant
                canonical(s),
                self.ranges@ == s,
                n == s.len(),
                i % 2 == 0,
                i <= n,
                range.start < range.end,
                canonical(out@),
                i < n ==> (out@.len() > 0 ==> (out@[out@.len() - 1] as int) < s[i as int] as int),
                forall|x: int|
                    covers(out@, x) <==> covers(s.take(i as int), x) && !(range.start as int <= x
                        < range.end as int),
                changed <==> exists|x: int|
                    covers(s.take(i as int), x) && (range.start as int <= x < range.end as int),
                !changed ==> out@ == s.take(i as int),
            decreases n - i,
        {
            proof {
                assert(i + 2 <= n) by {
                    assert(i % 2 == 0 && n % 2 == 0 && i < n);
                }
            }
            let a = self.ranges[i];
            let b = self.ranges[i + 1];
            let ghost ob = out@;
            let ghost ochanged = changed;
            proof {
                assert(a == s[i as int] && b == s[i as int + 1]);
                assert(a < b);
                assert(s.take(i as int + 2) =~= s.take(i as int) + seq![a, b]);
                lemma_covers_append(s.take(i as int), seq![a, b]);
                lemma_covers_pair(a, b);
            }
            if b <= range.start || a >= range.end {
                // The stored interval is disjoint from the removed range.
                out.push(a);
                out.push(b);
                proof {
                    lemma_push_pair(ob, a, b);
                    if ochanged {
                        let x0 = choose|x: int|
                            covers(s.take(i as int), x) && (range.start as int <= x
                                < range.end as int);
                        assert(covers(s.take(i as int + 2), x0));
                    }
                    if !ochanged {
                        assert(out@ =~= s.take(i as int + 2));
                    }
                    assert forall|x: int|
                        covers(out@, x) <==> covers(s.take(i as int + 2), x) && !(
                        range.start as int <= x < range.end as int) by {
                        assert(covers(out@, x) <==> covers(ob, x) || (a as int <= x < b as int));
                        assert(covers(s.take(i as int + 2), x) <==> covers(s.take(i as int), x)
                            || covers(seq![a, b], x));
                    }
                    assert forall|x: int|
                        covers(s.take(i as int + 2), x) && (range.start as int <= x
                            < range.end as int) implies covers(s.take(i as int), x) && (
                    range.start as int <= x < range.end as int) by {
                        assert(covers(s.take(i as int + 2), x) <==> covers(s.take(i as int), x)
                            || covers(seq![a, b], x));
                    }
                }
            } else {
                // The stored interval meets the removed range: keep only the
                // parts outside it.
                changed = true;
                if a < range.start {
                    out.push(a);
                    out.push(range.start);
                    proof {
                        lemma_push_pair(ob, a, range.start);
                    }
                }
                let ghost om = out@;
                if range.end < b {
                    out.push(range.end);
                    out.push(b);
                    proof {
                        lemma_push_pair(om, range.end, b);
                    }
                }
                proof {
                    // The set changed: the overlap holds at least one integer.
                    let x0: int = if a >= range.start {
                        a as int
                    } else {
                        range.start as int
                    };
                    assert(covers(seq![a, b], x0));
                    assert(covers(s.take(i as int + 2), x0));
                    assert(range.start as int <= x0 < range.end as int);
                    assert forall|x: int|
                        covers(out@, x) <==> covers(s.take(i as int + 2), x) && !(
                        range.start as int <= x < range.end as int) by {
                        assert(covers(s.take(i as int + 2), x) <==> covers(s.take(i as int), x)
                            || covers(seq![a, b], x));
                        assert(covers(ob, x) <==> covers(s.take(i as int), x) && !(
                        range.start as int <= x < range.end as int));
                    }
                }
            }
            i = i + 2;
        }
        proof {
            assert(s.take(n as int) =~= s);
            if changed {
                let x0 = choose|x: int|
                    covers(s.take(n as int), x) && (range.start as int <= x < range.end as int);
                assert(covers(s, x0));
                assert(!covers(out@, x0));
                if out@ == s {
                    assert(covers(out@, x0) == covers(s, x0));
                    assert(false);
                }
            }
        }
        self.ranges = out;
        changed
    }

    /// The smallest stored boundary (the least covered integer), if any.
    pub fn start(&self) -> (r: Option<usize>)
        ensures
            self@.len() == 0 ==> r is None,
            self@.len() > 0 ==> r == Some(self@[0]),
    {
        if self.ranges.len() == 0 {
            None
        } else {
            Some(self.ranges[0])
        }
    }

    /// The largest stored boundary (one past the greatest covered integer),
    /// if any.
    pub fn end(&self) -> (r: Option<usize>)
        ensures
            self@.len() == 0 ==> r is None,
            self@.len() > 0 ==> r == Some(self@[self@.len() - 1]),
    {
        if self.ranges.len() == 0 {
            None
        } else {
            Some(self.ranges[self.ranges.len() - 1])
        }
    }

    /// True iff `value` is covered by one of the stored intervals. A binary
    /// search for the number of boundaries at or below `value` decides this
    /// by parity.
    pub fn contains(&self, value: &usize) -> (r: bool)
        requires
            self.inv(),
        ensures
            r == covers(self@, *value as int),
    {
        let v = *value;
        let ghost s = self.ranges@;
        let n = self.ranges.len();
        let mut lo: usize = 0;
        let mut hi: usize = n;
        while lo < hi
            invariant
                canonical(s),
                self.ranges@ == s,
                n == s.len(),
                lo <= hi <= n,
                forall|k: int| 0 <= k < lo ==> (s[k] <= v),
                forall|k: int| hi <= k < n ==> (s[k] > v),
            decreases hi - lo,
        {
            let mid = lo + (hi - lo) / 2;
            if self.ranges[mid] <= v {
                proof {
                    assert forall|k: int| 0 <= k < mid + 1 implies s[k] <= v by {
                        if k < mid {
                            assert(s[k] < s[mid as int]);
                        }
                    }
                }
                lo = mid + 1;
            } else {
                proof {
                    assert forall|k: int| mid <= k < n implies s[k] > v by {
                        if k > mid {
                            assert(s[mid as int] < s[k]);
                        }
                    }
                }
                hi = mid;
            }
        }
        proof {
            lemma_rank_parity(s, v, lo as int);
        }
        lo % 2 == 1
    }

    /// The total count of covered integers: the sum of the interval widths.
    pub fn len(&self) -> (r: usize)
        requires
            self.inv(),
        ensures
            r as int == covered_len(self@),
    {
        let ghost s = self.ranges@;
        let n = self.ranges.len();
        let mut total: usize = 0;
        let mut i: usize = 0;
        proof {
            assert(s.take(0) =~= Seq::<usize>::empty());
        }
        while i < n
            invariant
                canonical(s),
                self.ranges@ == s,
                n == s.len(),
                i % 2 == 0,
                i <= n,
                total as int == covered_len(s.take(i as int)),
                i > 0 ==> total <= s[i - 1],
                i == 0 ==> total == 0,
            decreases n - i,
        {
            proof {
                assert(i + 2 <= n) by {
                    assert(i % 2 == 0 && n % 2 == 0 && i < n);
                }
            }
            let a = self.ranges[i];
            let b = self.ranges[i + 1];
            proof {
                assert(a == s[i as int] && b == s[i as int + 1]);
                assert(a < b);
                assert(s.take(i as int + 2) =~= s.take(i as int) + seq![a, b]);
                lemma_covered_len_append(s.take(i as int), seq![a, b]);
                assert(covered_len(Seq::<usize>::empty()) == 0);
                assert(seq![a, b].skip(2) =~= Seq::<usize>::empty());
                assert(covered_len(seq![a, b]) == b - a);
                if i > 0 {
                    assert(s[i as int - 1] < a);
                }
            }
            total = total + (b - a);
            i = i + 2;
        }
        proof {
            assert(s.take(n as int) =~= s);
        }
        total
    }

    /// Consumes the set and yields its canonical intervals in ascending
    /// order. Re-inserting every yielded interval into a fresh empty set
    /// reproduces the identical boundary sequence.
    pub fn into_ranges(self) -> (r: Vec<core::ops::Range<usize>>)
        requires
            self.inv(),
        ensures
            r@.len() == self@.len() / 2,
            forall|k: int|
                0 <= k < r@.len() ==> (#[trigger] r@[k]).start == self@[2 * k] && r@[k].end
                    == self@[2 * k + 1],
    {
        let ghost s = self.ranges@;
        let n = self.ranges.len();
        let mut r: Vec<core::ops::Range<usize>> = Vec::new();
        let mut i: usize = 0;
        while i < n
            invariant
                canonical(s),
                self.ranges@ == s,
                n == s.len(),
                i % 2 == 0,
                i <= n,
                r@.len() == i / 2,
                forall|k: int|
                    0 <= k < r@.len() ==> (#[trigger] r@[k]).start == s[2 * k] && r@[k].end == s[2
                        * k + 1],
            decreases n - i,
        {
            proof {
                assert(i + 2 <= n) by {
                    assert(i % 2 == 0 && n % 2 == 0 && i < n);
                }
            }
            let a = self.ranges[i];
            let b = self.ranges[i + 1];
            r.push(a..b);
            proof {
                assert(i as int == 2 * (i as int / 2));
            }
            i = i + 2;
        }
        r
    }

    /// Builds the set holding the union of the given ranges, folding each one
    /// in with `add`. The result depends only on the union of the inputs, not
    /// on their order.
    pub fn from_iter(ranges: Vec<core::ops::Range<usize>>) -> (r: Self)
        ensures
            r.inv(),
            forall|x: int| covers(r@, x) <==> in_ranges(ranges@, x),
    {
        let mut me = SelectionRange::default();
        let n = ranges.len();
        let mut i: usize = 0;
        proof {
            assert(ranges@.take(0) =~= Seq::<core::ops::Range<usize>>::empty());
        }
        let ghost rs = ranges@;
        while i < n
            invariant
                me.inv(),
                n == rs.len(),
                ranges@ == rs,
                i <= n,
                forall|x: int| covers(me@, x) <==> in_ranges(rs.take(i as int), x),
            decreases n - i,
        {
            let rg = &ranges[i];
            let rstart = rg.start;
            let rend = rg.end;
            let ghost omev = me@;
            me.add(rstart..rend);
            proof {
                assert((rstart..rend).start == rstart && (rstart..rend).end == rend);
                assert(rstart == rs[i as int].start && rend == rs[i as int].end);
                assert(rs.take(i as int + 1) =~= rs.take(i as int).push(rs[i as int]));
                assert forall|x: int|
                    in_ranges(rs.take(i as int + 1), x) <==> in_ranges(rs.take(i as int), x)
                        || range_covers(rs[i as int], x) by {
                    if in_ranges(rs.take(i as int + 1), x) {
                        let k = choose|k: int|
                            0 <= k < rs.take(i as int + 1).len() && #[trigger] range_covers(
                                rs.take(i as int + 1)[k],
                                x,
                            );
                        if k < i as int {
                            assert(range_covers(rs.take(i as int)[k], x));
                        }
                    }
                    if in_ranges(rs.take(i as int), x) {
                        let k = choose|k: int|
                            0 <= k < rs.take(i as int).len() && #[trigger] range_covers(
                                rs.take(i as int)[k],
                                x,
                            );
                        assert(range_covers(rs.take(i as int + 1)[k], x));
                    }
                    if range_covers(rs[i as int], x) {
                        assert(range_covers(rs.take(i as int + 1)[i as int], x));
                    }
                }
                assert forall|x: int| covers(me@, x) <==> in_ranges(rs.take(i as int + 1), x) by {
                    assert(covers(me@, x) <==> covers(omev, x) || (rstart as int <= x
                        < rend as int));
                    assert(covers(omev, x) <==> in_ranges(rs.take(i as int), x));
                    assert(range_covers(rs[i as int], x) == (rstart as int <= x < rend as int));
                }
            }
            i = i + 1;
        }
        proof {
            assert(rs.take(n as int) =~= rs);
        }
        me
    }

    /// The set holding exactly the integers of `range`.
    pub fn from(range: core::ops::Range<usize>) -> (r: Self)
        ensures
            r.inv(),
            forall|x: int| covers(r@, x) <==> (range.start as int <= x < range.end as int),
            range.start < range.end ==> r@ == seq![range.start, range.end],
            range.start >= range.end ==> r@ == Seq::<usize>::empty(),
    {
        Self::new(range)
    }

    /// True iff no integer is covered.
    pub fn is_empty(&self) -> (r: bool)
        ensures
            r == (self@.len() == 0),
    {
        self.ranges.len() == 0
    }

    /// The number of stored boundary values (twice the number of intervals).
    pub fn boundary_count(&self) -> (r: usize)
        ensures
            r == self@.len(),
    {
        self.ranges.len()
    }
}

impl Default for SelectionRange {
    /// The empty set.
    fn default() -> (r: Self)
        ensures
            r.inv(),
            r@ == Seq::<usize>::empty(),
    {
        let v: Vec<usize> = Vec::new();
        proof {
            assert(v@ =~= Seq::<usize>::empty());
        }
        SelectionRange { ranges: v }
    }
}

} // verus!
