//! The algebraic laws of [`crate::selection::SelectionRange`].
//!
//! The central fact is that the canonical boundary encoding is unique: two
//! canonical sequences covering the same integers are equal
//! ([`lemma_canonical_unique`]). From it follow the laws that relate whole
//! call sequences: adding a range twice is the same as adding it once, adds
//! commute, and re-adding the decomposed intervals of a set reproduces the
//! very same boundary sequence. A counting law connects the reported length
//! with the cardinality of the covered set.

use vstd::prelude::*;
use vstd::set_lib::lemma_int_range;
use vstd::set_lib::set_int_range;

use crate::selection::canonical;
use crate::selection::covered_len;
use crate::selection::covers;
use crate::selection::in_ranges;
use crate::selection::lemma_covers_lower_bound;
use crate::selection::range_covers;

verus! {

/// The tail of a canonical sequence past its first interval is canonical.
proof fn lemma_skip2_canonical(s: Seq<usize>)
    requires
        canonical(s),
        s.len() >= 2,
    ensures
        canonical(s.skip(2)),
{
    assert forall|i: int, j: int| 0 <= i < j < s.skip(2).len() implies s.skip(2)[i] < s.skip(
        2,
    )[j] by {
        assert(s.skip(2)[i] == s[i + 2] && s.skip(2)[j] == s[j + 2]);
    }
}

/// The canonical form is unique: two canonical boundary sequences that cover
/// exactly the same integers are the same sequence.
pub proof fn lemma_canonical_unique(s1: Seq<usize>, s2: Seq<usize>)
    requires
        canonical(s1),
        canonical(s2),
        forall|x: int| covers(s1, x) <==> covers(s2, x),
    ensures
        s1 == s2,
    decreases s1.len(),
{
    if s1.len() == 0 {
        if s2.len() != 0 {
            assert(covers(s2, s2[0] as int));
            assert(covers(s1, s2[0] as int));
            assert(false);
        }
        assert(s1 =~= s2);
    } else if s2.len() == 0 {
        assert(covers(s1, s1[0] as int));
        assert(covers(s2, s1[0] as int));
        assert(false);
    } else {
        lemma_covers_lower_bound(s1);
        lemma_covers_lower_bound(s2);
        lemma_skip2_canonical(s1);
        lemma_skip2_canonical(s2);
        lemma_covers_lower_bound(s1.skip(2));
        lemma_covers_lower_bound(s2.skip(2));
        // The least covered integer is the first boundary of both.
        assert(covers(s1, s1[0] as int));
        assert(covers(s2, s2[0] as int));
        assert(s1[0] == s2[0]);
        // The first gap is the second boundary of both.
        assert(!covers(s1, s1[1] as int)) by {
            if covers(s1.skip(2), s1[1] as int) {
                assert(s1.skip(2)[0] == s1[2]);
            }
        }
        assert(!covers(s2, s2[1] as int)) by {
            if covers(s2.skip(2), s2[1] as int) {
                assert(s2.skip(2)[0] == s2[2]);
            }
        }
        if s1[1] < s2[1] {
            assert(covers(s2, s1[1] as int));
            assert(false);
        }
        if s2[1] < s1[1] {
            assert(covers(s1, s2[1] as int));
            assert(false);
        }
        // The tails cover the same integers, so they are equal by induction.
        assert forall|x: int| covers(s1.skip(2), x) <==> covers(s2.skip(2), x) by {
            if covers(s1.skip(2), x) {
                assert(s1.skip(2)[0] == s1[2]);
                assert(covers(s1, x));
                assert(covers(s2, x));
                assert(!(s2[0] as int <= x < s2[1] as int));
            }
            if covers(s2.skip(2), x) {
                assert(s2.skip(2)[0] == s2[2]);
                assert(covers(s2, x));
                assert(covers(s1, x));
                assert(!(s1[0] as int <= x < s1[1] as int));
            }
        }
        lemma_canonical_unique(s1.skip(2), s2.skip(2));
        assert forall|k: int| 0 <= k < s1.len() implies s1[k] == s2[k] by {
            if k >= 2 {
                assert(s1.skip(2)[k - 2] == s1[k]);
                assert(s2.skip(2)[k - 2] == s2[k]);
            }
        }
        assert(s1 =~= s2);
    }
}

/// Pairwise membership: the boundary pair `k` of `s` brackets `x`.
pub open spec fn pair_covers(s: Seq<usize>, k: int, x: int) -> bool {
    0 <= k && 2 * k + 1 < s.len() && s[2 * k] as int <= x && x < s[2 * k + 1] as int
}

/// Membership read pair by pair: `x` is covered iff some boundary pair
/// brackets it.
pub proof fn lemma_covers_index_at(s: Seq<usize>, x: int)
    requires
        s.len() % 2 == 0,
    ensures
        covers(s, x) <==> exists|k: int| pair_covers(s, k, x),
    decreases s.len(),
{
    if s.len() == 0 {
        if exists|k: int| pair_covers(s, k, x) {
            let k = choose|k: int| pair_covers(s, k, x);
            assert(false);
        }
    } else {
        lemma_covers_index_at(s.skip(2), x);
        if covers(s, x) {
            if s[0] as int <= x < s[1] as int {
                assert(pair_covers(s, 0, x));
            } else {
                assert(covers(s.skip(2), x));
                let k = choose|k: int| pair_covers(s.skip(2), k, x);
                assert(pair_covers(s.skip(2), k, x));
                assert(s.skip(2)[2 * k] == s[2 * k + 2]);
                assert(s.skip(2)[2 * k + 1] == s[2 * k + 3]);
                assert(pair_covers(s, k + 1, x));
            }
        }
        if exists|k: int| pair_covers(s, k, x) {
            let k = choose|k: int| pair_covers(s, k, x);
            if k == 0 {
                assert(covers(s, x));
            } else {
                assert(s.skip(2)[2 * (k - 1)] == s[2 * k]);
                assert(s.skip(2)[2 * (k - 1) + 1] == s[2 * k + 1]);
                assert(pair_covers(s.skip(2), k - 1, x));
                assert(covers(s.skip(2), x));
            }
        }
    }
}

/// The set of integers covered by a boundary sequence.
pub open spec fn covered_set(s: Seq<usize>) -> Set<int> {
    Set::new(|x: int| covers(s, x))
}

/// The cardinality of the union of two disjoint finite sets is the sum of
/// their cardinalities.
proof fn lemma_disjoint_union_len(a: Set<int>, b: Set<int>)
    requires
        a.finite(),
        b.finite(),
        a.disjoint(b),
    ensures
        a.union(b).len() == a.len() + b.len(),
    decreases a.len(),
{
    broadcast use vstd::set::group_set_axioms;

    if a.is_empty() {
        assert(a.union(b) =~= b);
    } else {
        let x = a.choose();
        assert(a.union(b).remove(x) =~= a.remove(x).union(b));
        assert(a.remove(x).disjoint(b));
        lemma_disjoint_union_len(a.remove(x), b);
    }
}

/// Counting law: the sum of the interval widths of a canonical sequence is
/// the cardinality of the set of integers it covers.
pub proof fn lemma_len_is_cardinality(s: Seq<usize>)
    requires
        canonical(s),
    ensures
        covered_set(s).finite(),
        covered_set(s).len() == covered_len(s),
    decreases s.len(),
{
    broadcast use vstd::set::group_set_axioms;

    if s.len() == 0 {
        assert(covered_set(s) =~= Set::<int>::empty());
    } else {
        lemma_skip2_canonical(s);
        lemma_len_is_cardinality(s.skip(2));
        lemma_int_range(s[0] as int, s[1] as int);
        lemma_covers_lower_bound(s.skip(2));
        let head = set_int_range(s[0] as int, s[1] as int);
        let tail = covered_set(s.skip(2));
        assert(covered_set(s) =~= head.union(tail));
        assert(head.disjoint(tail)) by {
            assert forall|x: int| head.contains(x) implies !tail.contains(x) by {
                if covers(s.skip(2), x) {
                    assert(s.skip(2)[0] == s[2]);
                }
            }
        }
        lemma_disjoint_union_len(head, tail);
    }
}

/// The covered count of a canonical sequence is zero exactly when the
/// sequence is empty: every stored interval holds at least one integer.
pub proof fn lemma_len_zero_iff_empty(s: Seq<usize>)
    requires
        canonical(s),
    ensures
        covered_len(s) == 0 <==> s.len() == 0,
        covered_len(s) >= 0,
    decreases s.len(),
{
    if s.len() >= 2 {
        lemma_skip2_canonical(s);
        lemma_len_zero_iff_empty(s.skip(2));
    }
}

/// The relation `SelectionRange::add` establishes between the boundary
/// sequences before and after adding `[start, end)`.
pub open spec fn add_result(pre: Seq<usize>, start: usize, end: usize, post: Seq<usize>) -> bool {
    &&& canonical(post)
    &&& forall|x: int| covers(post, x) <==> covers(pre, x) || (start as int <= x < end as int)
}

/// Idempotence: adding the same range twice yields the very sequence the
/// first add yielded.
pub proof fn lemma_add_idempotent(
    pre: Seq<usize>,
    start: usize,
    end: usize,
    once: Seq<usize>,
    twice: Seq<usize>,
)
    requires
        add_result(pre, start, end, once),
        add_result(once, start, end, twice),
    ensures
        twice == once,
{
    lemma_canonical_unique(twice, once);
}

/// Commutativity: adding two ranges in either order yields the same canonical
/// sequence.
pub proof fn lemma_add_commutes(
    pre: Seq<usize>,
    a: core::ops::Range<usize>,
    b: core::ops::Range<usize>,
    ab1: Seq<usize>,
    ab2: Seq<usize>,
    ba1: Seq<usize>,
    ba2: Seq<usize>,
)
    requires
        add_result(pre, a.start, a.end, ab1),
        add_result(ab1, b.start, b.end, ab2),
        add_result(pre, b.start, b.end, ba1),
        add_result(ba1, a.start, a.end, ba2),
    ensures
        ab2 == ba2,
{
    lemma_canonical_unique(ab2, ba2);
}

/// Union correctness is order-blind: folding the same collection of ranges in
/// any order yields the same canonical sequence, because membership in the
/// union depends only on which ranges occur, not on where they stand.
pub proof fn lemma_union_order_blind(
    rs1: Seq<core::ops::Range<usize>>,
    rs2: Seq<core::ops::Range<usize>>,
    t1: Seq<usize>,
    t2: Seq<usize>,
)
    requires
        rs1.to_multiset() == rs2.to_multiset(),
        canonical(t1),
        canonical(t2),
        forall|x: int| covers(t1, x) <==> in_ranges(rs1, x),
        forall|x: int| covers(t2, x) <==> in_ranges(rs2, x),
    ensures
        t1 == t2,
{
    rs1.to_multiset_ensures();
    rs2.to_multiset_ensures();
    assert forall|x: int| in_ranges(rs1, x) <==> in_ranges(rs2, x) by {
        if in_ranges(rs1, x) {
            let k = choose|k: int| 0 <= k < rs1.len() && #[trigger] range_covers(rs1[k], x);
            assert(rs1.contains(rs1[k]));
            assert(rs1.to_multiset().count(rs1[k]) > 0);
            assert(rs2.contains(rs1[k]));
            let j = choose|j: int| 0 <= j < rs2.len() && rs2[j] == rs1[k];
            assert(range_covers(rs2[j], x));
        }
        if in_ranges(rs2, x) {
            let k = choose|k: int| 0 <= k < rs2.len() && #[trigger] range_covers(rs2[k], x);
            assert(rs2.contains(rs2[k]));
            assert(rs2.to_multiset().count(rs2[k]) > 0);
            assert(rs1.contains(rs2[k]));
            let j = choose|j: int| 0 <= j < rs1.len() && rs1[j] == rs2[k];
            assert(range_covers(rs1[j], x));
        }
    }
    lemma_canonical_unique(t1, t2);
}

/// Round trip: any canonical sequence whose membership is the union of the
/// intervals that `into_ranges` yields from `s` is `s` itself.
pub proof fn lemma_round_trip(s: Seq<usize>, rs: Seq<core::ops::Range<usize>>, t: Seq<usize>)
    requires
        canonical(s),
        canonical(t),
        rs.len() == s.len() / 2,
        forall|k: int|
            0 <= k < rs.len() ==> (#[trigger] rs[k]).start == s[2 * k] && rs[k].end == s[2 * k
                + 1],
        forall|x: int| covers(t, x) <==> in_ranges(rs, x),
    ensures
        t == s,
{
    assert forall|x: int| covers(t, x) <==> covers(s, x) by {
        lemma_covers_index_at(s, x);
        if in_ranges(rs, x) {
            let k = choose|k: int| 0 <= k < rs.len() && #[trigger] range_covers(rs[k], x);
            assert(pair_covers(s, k, x));
        }
        if covers(s, x) {
            let k = choose|k: int| pair_covers(s, k, x);
            assert(0 <= k < rs.len());
            assert(range_covers(rs[k], x));
        }
    }
    lemma_canonical_unique(t, s);
}

} // verus!
