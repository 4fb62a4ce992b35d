//! The count of intersecting pairs in an ordered collection of segments.
//!
//! Every unordered pair of positions is looked at once, as the pair `(i, j)`
//! with `i < j`. Equal segments at different positions are different members
//! of the collection, and a pair of them counts like any other.

use crate::geometry::{intersect, segments_intersect, Segment};
use vstd::prelude::*;
use vstd::set_lib::{
    lemma_int_range, lemma_len_subset, lemma_map_size, lemma_set_disjoint_lens, set_int_range,
};

verus! {

/// Whether the segments at the positions `i` and `j` of `segments` intersect.
pub open spec fn pair_intersects(segments: Seq<Segment>, i: int, j: int) -> bool {
    segments_intersect(segments[i].p1, segments[i].p2, segments[j].p1, segments[j].p2)
}

/// The pairs of positions `(i, j)`, `i < j`, at which `segments` holds two
/// segments that intersect.
pub open spec fn intersecting_pairs(segments: Seq<Segment>) -> Set<(int, int)> {
    Set::new(
        |pair: (int, int)|
            0 <= pair.0 < pair.1 < segments.len() && pair_intersects(segments, pair.0, pair.1),
    )
}

/// The positions of `segments` at which the segment intersects `other`.
pub open spec fn partners(segments: Seq<Segment>, other: Segment) -> Set<int> {
    Set::new(
        |i: int|
            0 <= i < segments.len() && segments_intersect(
                segments[i].p1,
                segments[i].p2,
                other.p1,
                other.p2,
            ),
    )
}

/// The intersecting pairs that come before `(i, j)` when the pairs are walked
/// row by row: those of an earlier row, and those of row `i` up to column `j`.
spec fn pairs_before(segments: Seq<Segment>, i: int, j: int) -> Set<(int, int)> {
    Set::new(
        |pair: (int, int)|
            intersecting_pairs(segments).contains(pair) && (pair.0 < i || (pair.0 == i && pair.1
                < j)),
    )
}

proof fn lemma_next_row(n: int, i: int)
    by (nonlinear_arith)
    ensures
        (i - 1) * (2 * n - i) + 2 * (n - i) == i * (2 * n - i - 1),
{
}

/// The pairs before `(i, j)` are finitely many, and no more than the places
/// walked so far: `n - 1 - k` in each finished row `k`, and `j - i - 1` in
/// row `i`.
proof fn lemma_pairs_before(segments: Seq<Segment>, i: int, j: int)
    requires
        0 <= i <= segments.len(),
        i < j,
        j <= segments.len() || j == i + 1,
    ensures
        pairs_before(segments, i, j).finite(),
        2 * pairs_before(segments, i, j).len() <= i * (2 * segments.len() - i - 1) + 2 * (j - i
            - 1),
    decreases i, j,
{
    let n = segments.len() as int;
    if j > i + 1 {
        lemma_pairs_before(segments, i, j - 1);
        let earlier = pairs_before(segments, i, j - 1);
        if pair_intersects(segments, i, j - 1) {
            assert(pairs_before(segments, i, j) =~= earlier.insert((i, j - 1)));
        } else {
            assert(pairs_before(segments, i, j) =~= earlier);
        }
    } else if i > 0 {
        lemma_pairs_before(segments, i - 1, n);
        assert(pairs_before(segments, i, j) =~= pairs_before(segments, i - 1, n));
        lemma_next_row(n, i);
    } else {
        assert(pairs_before(segments, i, j) =~= Set::<(int, int)>::empty());
    }
}

/// Among `n` segments no more than `n * (n - 1) / 2` pairs intersect, for
/// there are no more pairs.
pub proof fn lemma_count_bound(segments: Seq<Segment>)
    ensures
        intersecting_pairs(segments).finite(),
        intersecting_pairs(segments).len() <= segments.len() * (segments.len() - 1) / 2,
{
    let n = segments.len() as int;
    lemma_pairs_before(segments, n, n + 1);
    assert(intersecting_pairs(segments) =~= pairs_before(segments, n, n + 1));
}

/// Where a position of the collection moves to when a segment is put in at
/// position `k`.
spec fn moved(k: int, i: int) -> int {
    if i < k {
        i
    } else {
        i + 1
    }
}

/// Putting a segment into the collection, at any position, raises the count
/// by the number of segments that the new one intersects. So the count never
/// falls when a segment is added.
pub proof fn lemma_count_after_insert(segments: Seq<Segment>, k: int, added: Segment)
    requires
        0 <= k <= segments.len(),
    ensures
        partners(segments, added).finite(),
        intersecting_pairs(segments.insert(k, added)).len() == intersecting_pairs(segments).len()
            + partners(segments, added).len(),
        intersecting_pairs(segments.insert(k, added)).len() >= intersecting_pairs(segments).len(),
{
    let n = segments.len() as int;
    let grown = segments.insert(k, added);
    let old_pairs = intersecting_pairs(segments);
    let new_pairs = intersecting_pairs(grown);
    let met = partners(segments, added);
    lemma_count_bound(segments);
    lemma_int_range(0, n);
    lemma_len_subset(met, set_int_range(0, n));

    let carry = |pair: (int, int)| (moved(k, pair.0), moved(k, pair.1));
    let join = |i: int|
        if i < k {
            (i, k)
        } else {
            (k, i + 1)
        };
    let kept = old_pairs.map(carry);
    let gained = met.map(join);
    lemma_map_size(old_pairs, kept, carry);
    lemma_map_size(met, gained, join);

    assert forall|pair: (int, int)| new_pairs.contains(pair) implies kept.contains(pair)
        || gained.contains(pair) by {
        let (c, d) = pair;
        if c == k {
            assert(met.contains(d - 1));
        } else if d == k {
            assert(met.contains(c));
        } else {
            let a = if c < k {
                c
            } else {
                c - 1
            };
            let b = if d < k {
                d
            } else {
                d - 1
            };
            assert(old_pairs.contains((a, b)));
        }
    }
    assert forall|pair: (int, int)| kept.contains(pair) implies new_pairs.contains(pair) by {
        let from = choose|from: (int, int)| old_pairs.contains(from) && carry(from) == pair;
    }
    assert forall|pair: (int, int)| gained.contains(pair) implies new_pairs.contains(pair)
        && !kept.contains(pair) by {
        let i = choose|i: int| met.contains(i) && join(i) == pair;
        if kept.contains(pair) {
            let from = choose|from: (int, int)| old_pairs.contains(from) && carry(from) == pair;
        }
    }
    assert(new_pairs =~= kept.union(gained));
    lemma_set_disjoint_lens(kept, gained);
}

/// Appending a segment to the collection does not lower the count.
pub proof fn lemma_count_monotone(segments: Seq<Segment>, added: Segment)
    ensures
        intersecting_pairs(segments.push(added)).len() >= intersecting_pairs(segments).len(),
{
    lemma_count_after_insert(segments, segments.len() as int, added);
    assert(segments.insert(segments.len() as int, added) =~= segments.push(added));
}

proof fn lemma_count_fits(n: int, pairs: int)
    by (nonlinear_arith)
    requires
        0 <= n <= 0xffff_ffff_ffff_ffff,
        pairs <= n * (n - 1) / 2,
    ensures
        pairs < 0x8000_0000_0000_0000_0000_0000_0000_0000,
{
}

/// Counts the pairs of segments that intersect.
pub fn count_intersections(segments: &Vec<Segment>) -> (count: u128)
    ensures
        count == intersecting_pairs(segments@).len(),
        count <= segments.len() * (segments.len() - 1) / 2,
{
    let n: usize = segments.len();
    let mut count: u128 = 0;
    proof {
        lemma_count_bound(segments@);
        lemma_count_fits(n as int, intersecting_pairs(segments@).len() as int);
        assert(pairs_before(segments@, 0, 1) =~= Set::<(int, int)>::empty());
    }
    for i in 0..n
        invariant
            n == segments.len(),
            intersecting_pairs(segments@).finite(),
            intersecting_pairs(segments@).len() < 0x8000_0000_0000_0000_0000_0000_0000_0000,
            count == pairs_before(segments@, i as int, i + 1).len(),
    {
        for j in (i + 1)..n
            invariant
                i < n,
                n == segments.len(),
                intersecting_pairs(segments@).finite(),
                intersecting_pairs(segments@).len() < 0x8000_0000_0000_0000_0000_0000_0000_0000,
                count == pairs_before(segments@, i as int, j as int).len(),
        {
            let line: &Segment = &segments[i];
            let other_line: &Segment = &segments[j];
            let b = intersect(&line.p1, &line.p2, &other_line.p1, &other_line.p2);
            proof {
                let earlier = pairs_before(segments@, i as int, j as int);
                let later = pairs_before(segments@, i as int, j + 1);
                lemma_len_subset(earlier, intersecting_pairs(segments@));
                if b {
                    assert(later =~= earlier.insert((i as int, j as int)));
                } else {
                    assert(later =~= earlier);
                }
            }
            if b {
                count += 1;
            }
        }
        proof {
            assert(pairs_before(segments@, i + 1, i + 2) =~= pairs_before(
                segments@,
                i as int,
                n as int,
            ));
        }
    }
    proof {
        assert(intersecting_pairs(segments@) =~= pairs_before(segments@, n as int, n + 1));
    }
    count
}

} // verus!
