use vstd::prelude::*;

use crate::polygon::{Point, all_in_range, dist_spec, max_len, lemma_dist_bound};

verus! {

/// Length of the segment between vertices `a` and `b` of `vs`.
pub open spec fn seg_len(vs: Seq<Point>, a: int, b: int) -> int {
    dist_spec(vs[a], vs[b]) as int
}

/// Cost of splitting the sub-polygon `s_i .. s_{i+t-1}` (indices mod n) at the
/// triangle `(s_i, s_{i+k}, s_{i+t-1})`: the new chords among its two other
/// sides plus the optimal costs of the two sub-polygons on either side.
pub open spec fn split_cost(vs: Seq<Point>, i: int, t: int, k: int) -> int
    decreases t, 0int,
{
    if 1 <= k && k <= t - 2 {
        let n = vs.len() as int;
        let ik = (i + k) % n;
        let it1 = (i + t - 1) % n;
        (if k >= 2 { seg_len(vs, i, ik) } else { 0 })
            + (if k <= t - 3 { seg_len(vs, ik, it1) } else { 0 })
            + opt(vs, i, k + 1)
            + opt(vs, ik, t - k)
    } else {
        0
    }
}

/// Smallest `split_cost(vs, i, t, k)` over `1 <= k <= m`.
pub open spec fn min_split(vs: Seq<Point>, i: int, t: int, m: int) -> int
    decreases t, m,
{
    if m < 1 {
        0
    } else if m == 1 {
        split_cost(vs, i, t, 1)
    } else {
        let a = min_split(vs, i, t, m - 1);
        let b = split_cost(vs, i, t, m);
        if b < a { b } else { a }
    }
}

/// Minimum total chord length of a triangulation of the sub-polygon
/// `s_i, s_{i+1}, .., s_{i+t-1}` (indices mod n), the base `(s_i, s_{i+t-1})`
/// not counted.
pub open spec fn opt(vs: Seq<Point>, i: int, t: int) -> int
    decreases t, t,
{
    if t < 3 {
        0
    } else {
        min_split(vs, i, t, t - 2)
    }
}

/// `k` is the smallest split point that reaches the optimum of `(i, t)`.
pub open spec fn is_best_split(vs: Seq<Point>, i: int, t: int, k: int) -> bool {
    &&& 1 <= k <= t - 2
    &&& split_cost(vs, i, t, k) == opt(vs, i, t)
    &&& forall|k2: int| 1 <= k2 < k ==> split_cost(vs, i, t, k2) > opt(vs, i, t)
}

/// `min_split` is a lower bound of the splits it ranges over, and reached by one.
pub proof fn lemma_min_split(vs: Seq<Point>, i: int, t: int, m: int)
    requires
        1 <= m <= t - 2,
    ensures
        forall|k: int| 1 <= k <= m ==> min_split(vs, i, t, m) <= #[trigger] split_cost(vs, i, t, k),
        exists|k: int| 1 <= k <= m && min_split(vs, i, t, m) == #[trigger] split_cost(vs, i, t, k),
    decreases m,
{
    if m > 1 {
        lemma_min_split(vs, i, t, m - 1);
        let k0 = choose|k: int| 1 <= k <= m - 1 && min_split(vs, i, t, m - 1) == #[trigger] split_cost(vs, i, t, k);
        if split_cost(vs, i, t, m) < min_split(vs, i, t, m - 1) {
            assert(min_split(vs, i, t, m) == split_cost(vs, i, t, m));
        } else {
            assert(min_split(vs, i, t, m) == split_cost(vs, i, t, k0));
        }
    } else {
        assert(min_split(vs, i, t, m) == split_cost(vs, i, t, 1));
    }
}

/// All vertices are in range, so every segment is shorter than `max_len()`.
pub proof fn lemma_seg_len_bound(vs: Seq<Point>, a: int, b: int)
    requires
        all_in_range(vs),
        0 <= a < vs.len(),
        0 <= b < vs.len(),
    ensures
        0 <= seg_len(vs, a, b) < max_len(),
{
    lemma_dist_bound(vs[a], vs[b]);
}

/// The optimum of a sub-polygon with `t` vertices lies in `[0, t * max_len()]`.
pub proof fn lemma_opt_bound(vs: Seq<Point>, i: int, t: int)
    requires
        all_in_range(vs),
        vs.len() > 0,
        0 <= i < vs.len(),
        0 <= t,
    ensures
        0 <= opt(vs, i, t) <= t * max_len(),
    decreases t,
{
    if t >= 3 {
        let n = vs.len() as int;
        lemma_min_split(vs, i, t, t - 2);
        let k0 = choose|k: int| 1 <= k <= t - 2 && min_split(vs, i, t, t - 2) == #[trigger] split_cost(vs, i, t, k);
        let ik = (i + k0) % n;
        let it1 = (i + t - 1) % n;
        lemma_opt_bound(vs, i, k0 + 1);
        lemma_opt_bound(vs, ik, t - k0);
        lemma_seg_len_bound(vs, i, ik);
        lemma_seg_len_bound(vs, ik, it1);
        // upper bound through the split at k = 1
        let i1 = (i + 1) % n;
        lemma_opt_bound(vs, i1, t - 1);
        lemma_seg_len_bound(vs, i1, it1);
        assert(split_cost(vs, i, t, 1) <= max_len() + (t - 1) * max_len());
    }
}


/// `c = (a, b)` is a chord of the sub-polygon `s_lo .. s_hi` (`a < b`, the two
/// vertices not adjacent) other than its base `(s_lo, s_hi)`.
pub open spec fn chord_in(c: (int, int), lo: int, hi: int) -> bool {
    &&& lo <= c.0
    &&& c.0 + 2 <= c.1
    &&& c.1 <= hi
    &&& !(c.0 == lo && c.1 == hi)
}

/// The chords `c` and `d` (each written with its smaller vertex first) cross:
/// their endpoints interleave around the polygon.
pub open spec fn crosses(c: (int, int), d: (int, int)) -> bool {
    (c.0 < d.0 && d.0 < c.1 && c.1 < d.1) || (d.0 < c.0 && c.0 < d.1 && d.1 < c.1)
}

/// No two chords of `s` cross.
pub open spec fn non_crossing(s: Seq<(int, int)>) -> bool {
    forall|c: (int, int), d: (int, int)|
        #[trigger] s.contains(c) && #[trigger] s.contains(d) ==> !crosses(c, d)
}

/// Every element of `s` is a chord of the sub-polygon `s_lo .. s_hi` other than its base.
pub open spec fn all_chords_in(s: Seq<(int, int)>, lo: int, hi: int) -> bool {
    forall|c: (int, int)| #[trigger] s.contains(c) ==> chord_in(c, lo, hi)
}

/// `s` is a triangulation of the convex polygon `s_0 .. s_{n-1}`: `n - 3`
/// distinct chords, no two of which cross.
pub open spec fn is_triangulation(n: int, s: Seq<(int, int)>) -> bool {
    &&& s.len() == n - 3
    &&& s.no_duplicates()
    &&& all_chords_in(s, 0, n - 1)
    &&& non_crossing(s)
}

/// Total length of the chords of `s`.
pub open spec fn chords_cost(vs: Seq<Point>, s: Seq<(int, int)>) -> int
    decreases s.len(),
{
    if s.len() == 0 {
        0
    } else {
        chords_cost(vs, s.drop_last()) + seg_len(vs, s.last().0, s.last().1)
    }
}

/// The cost of a concatenation is the sum of the costs.
pub proof fn lemma_chords_cost_concat(vs: Seq<Point>, a: Seq<(int, int)>, b: Seq<(int, int)>)
    ensures
        chords_cost(vs, a + b) == chords_cost(vs, a) + chords_cost(vs, b),
    decreases b.len(),
{
    if b.len() > 0 {
        lemma_chords_cost_concat(vs, a, b.drop_last());
        assert((a + b).drop_last() =~= a + b.drop_last());
    } else {
        assert(a + b =~= a);
    }
}

} // verus!
