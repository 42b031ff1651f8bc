use vstd::prelude::*;

use crate::polygon::Point;
use crate::seq_facts::{
    lemma_filter_contains_iff, lemma_filter_no_dup, lemma_filter_single, lemma_last_split,
};
use crate::decomposition::{chords_by, choices_ok, lemma_small_mod};
use crate::triangulation::{
    all_chords_in, chord_in, chords_cost, crosses, is_triangulation, lemma_min_split, min_split,
    non_crossing, opt, seg_len, split_cost,
};

verus! {

broadcast use vstd::seq_lib::group_seq_properties;

/// Total lengths are never negative.
pub proof fn lemma_chords_cost_nonneg(vs: Seq<Point>, s: Seq<(int, int)>)
    ensures
        chords_cost(vs, s) >= 0,
    decreases s.len(),
{
    if s.len() > 0 {
        lemma_chords_cost_nonneg(vs, s.drop_last());
    }
}

proof fn lemma_cost_push(vs: Seq<Point>, s: Seq<(int, int)>, c: (int, int))
    ensures
        chords_cost(vs, s.push(c)) == chords_cost(vs, s) + seg_len(vs, c.0, c.1),
{
    assert(s.push(c).drop_last() =~= s);
}

/// Splitting a sequence by a predicate and its negation splits its length and cost.
proof fn lemma_filter_split(
    vs: Seq<Point>,
    s: Seq<(int, int)>,
    p: spec_fn((int, int)) -> bool,
    q: spec_fn((int, int)) -> bool,
)
    requires
        forall|c: (int, int)| #[trigger] q(c) == !p(c),
    ensures
        s.filter(p).len() + s.filter(q).len() == s.len(),
        chords_cost(vs, s.filter(p)) + chords_cost(vs, s.filter(q)) == chords_cost(vs, s),
    decreases s.len(),
{
    reveal(Seq::filter);
    if s.len() > 0 {
        let r = s.drop_last();
        let c = s.last();
        lemma_filter_split(vs, r, p, q);
        lemma_cost_push(vs, r.filter(p), c);
        lemma_cost_push(vs, r.filter(q), c);
        assert(s.filter(p) == (if p(c) { r.filter(p).push(c) } else { r.filter(p) }));
        assert(s.filter(q) == (if q(c) { r.filter(q).push(c) } else { r.filter(q) }));
    }
}

/// Largest `b` such that `(lo, b)` is in `s`, or `lo + 1` when there is none.
pub open spec fn far_end(s: Seq<(int, int)>, lo: int) -> int
    decreases s.len(),
{
    if s.len() == 0 {
        lo + 1
    } else {
        let m = far_end(s.drop_last(), lo);
        let c = s.last();
        if c.0 == lo && c.1 > m {
            c.1
        } else {
            m
        }
    }
}

proof fn lemma_far_end(s: Seq<(int, int)>, lo: int)
    ensures
        far_end(s, lo) >= lo + 1,
        forall|c: (int, int)| #[trigger] s.contains(c) && c.0 == lo ==> c.1 <= far_end(s, lo),
        far_end(s, lo) == lo + 1 || s.contains((lo, far_end(s, lo))),
    decreases s.len(),
{
    if s.len() > 0 {
        let r = s.drop_last();
        lemma_far_end(r, lo);
        lemma_last_split(s);
    }
}

/// Removing the chords a predicate rejects keeps a set of chords non-crossing.
proof fn lemma_filter_non_crossing(s: Seq<(int, int)>, p: spec_fn((int, int)) -> bool)
    requires
        non_crossing(s),
    ensures
        non_crossing(s.filter(p)),
{
    assert forall|c: (int, int), d: (int, int)|
        #[trigger] s.filter(p).contains(c) && #[trigger] s.filter(p).contains(d) implies !crosses(c, d) by {
        lemma_filter_contains_iff(s, p, c);
        lemma_filter_contains_iff(s, p, d);
    }
}

/// The chords that end at vertex `k` or before it.
pub open spec fn ends_by(k: int) -> spec_fn((int, int)) -> bool {
    |c: (int, int)| c.1 <= k
}

/// The chords that end after vertex `k`.
pub open spec fn ends_after(k: int) -> spec_fn((int, int)) -> bool {
    |c: (int, int)| !(c.1 <= k)
}

/// The chords equal to `x`.
pub open spec fn equals(x: (int, int)) -> spec_fn((int, int)) -> bool {
    |c: (int, int)| c == x
}

/// The chords other than `x`.
pub open spec fn differs(x: (int, int)) -> spec_fn((int, int)) -> bool {
    |c: (int, int)| !(c == x)
}

/// The chords of `s` on the side of the apex `s_k` (`k = far_end(s, lo)`)
/// towards `s_lo`, the side `(s_lo, s_k)` excluded.
pub open spec fn left_part(s: Seq<(int, int)>, lo: int) -> Seq<(int, int)> {
    let k = far_end(s, lo);
    s.filter(ends_by(k)).filter(differs((lo, k)))
}

/// The chords of `s` on the side of the apex `s_k` towards `s_hi`, the side
/// `(s_k, s_hi)` excluded.
pub open spec fn right_part(s: Seq<(int, int)>, lo: int, hi: int) -> Seq<(int, int)> {
    let k = far_end(s, lo);
    s.filter(ends_after(k)).filter(differs((k, hi)))
}

/// Splitting a non-empty set of distinct, pairwise non-crossing chords of
/// `s_lo .. s_hi` at the apex `s_k` of the triangle on the base `(s_lo, s_hi)`:
/// every chord is a side of that triangle or lies on one side of the apex.
proof fn lemma_apex_split(vs: Seq<Point>, s: Seq<(int, int)>, lo: int, hi: int)
    requires
        0 <= lo < hi,
        s.len() > 0,
        s.no_duplicates(),
        all_chords_in(s, lo, hi),
        non_crossing(s),
    ensures
        hi - lo >= 3,
        lo + 1 <= far_end(s, lo) <= hi - 1,
        far_end(s, lo) >= lo + 2 <==> s.contains((lo, far_end(s, lo))),
        s.contains((far_end(s, lo), hi)) ==> hi - far_end(s, lo) >= 2,
        left_part(s, lo).no_duplicates(),
        right_part(s, lo, hi).no_duplicates(),
        non_crossing(left_part(s, lo)),
        non_crossing(right_part(s, lo, hi)),
        all_chords_in(left_part(s, lo), lo, far_end(s, lo)),
        all_chords_in(right_part(s, lo, hi), far_end(s, lo), hi),
        forall|c: (int, int)|
            #[trigger] s.contains(c) <==> left_part(s, lo).contains(c) || right_part(s, lo, hi).contains(c) || (c
                == (lo, far_end(s, lo)) && s.contains(c)) || (c == (far_end(s, lo), hi) && s.contains(c)),
        s.len() == left_part(s, lo).len() + right_part(s, lo, hi).len() + (if s.contains((lo, far_end(s, lo))) {
            1int
        } else {
            0
        }) + (if s.contains((far_end(s, lo), hi)) { 1int } else { 0 }),
        chords_cost(vs, s) == chords_cost(vs, left_part(s, lo)) + chords_cost(vs, right_part(s, lo, hi)) + (if s.contains(
            (lo, far_end(s, lo)),
        ) {
            seg_len(vs, lo, far_end(s, lo))
        } else {
            0
        }) + (if s.contains((far_end(s, lo), hi)) { seg_len(vs, far_end(s, lo), hi) } else { 0 }),
{
    assert(s.contains(s[0]));
    lemma_far_end(s, lo);
    let kk = far_end(s, lo);
    let x1 = (lo, kk);
    let x2 = (kk, hi);
    assert(kk <= hi - 1) by {
        if kk != lo + 1 {
            assert(chord_in(x1, lo, hi));
        }
    }
    let p1 = ends_by(kk);
    let q1 = ends_after(kk);
    let sl = s.filter(p1);
    let sr = s.filter(q1);
    let pe1 = equals(x1);
    let pn1 = differs(x1);
    let pe2 = equals(x2);
    let pn2 = differs(x2);
    let sl2 = sl.filter(pn1);
    let sr2 = sr.filter(pn2);
    assert(sl2 == left_part(s, lo));
    assert(sr2 == right_part(s, lo, hi));

    lemma_filter_split(vs, s, p1, q1);
    lemma_filter_no_dup(s, p1);
    lemma_filter_no_dup(s, q1);
    lemma_filter_split(vs, sl, pn1, pe1);
    lemma_filter_split(vs, sr, pn2, pe2);
    lemma_filter_no_dup(sl, pn1);
    lemma_filter_no_dup(sr, pn2);
    lemma_filter_single(sl, pe1, x1);
    lemma_filter_single(sr, pe2, x2);
    lemma_filter_non_crossing(s, p1);
    lemma_filter_non_crossing(s, q1);
    lemma_filter_non_crossing(sl, pn1);
    lemma_filter_non_crossing(sr, pn2);

    // The left part lies in s_lo .. s_kk
    assert forall|c: (int, int)| #[trigger] sl2.contains(c) implies chord_in(c, lo, kk) by {
        lemma_filter_contains_iff(sl, pn1, c);
        lemma_filter_contains_iff(s, p1, c);
    }
    // The right part lies in s_kk .. s_hi: a chord leaving the left side
    // would cross the side (s_lo, s_kk)
    assert forall|c: (int, int)| #[trigger] sr2.contains(c) implies chord_in(c, kk, hi) by {
        lemma_filter_contains_iff(sr, pn2, c);
        lemma_filter_contains_iff(s, q1, c);
        if c.0 < kk {
            if c.0 == lo {
            } else {
                assert(s.contains(x1));
                assert(crosses(x1, c));
            }
        }
    }
    assert forall|c: (int, int)| #[trigger] s.contains(c) <==> sl2.contains(c) || sr2.contains(c) || (c == x1
        && s.contains(c)) || (c == x2 && s.contains(c)) by {
        lemma_filter_contains_iff(s, p1, c);
        lemma_filter_contains_iff(s, q1, c);
        lemma_filter_contains_iff(sl, pn1, c);
        lemma_filter_contains_iff(sr, pn2, c);
    }
    if sl.contains(x1) || s.contains(x1) {
        lemma_filter_contains_iff(s, p1, x1);
    }
    if sr.contains(x2) || s.contains(x2) {
        lemma_filter_contains_iff(s, q1, x2);
    }
    assert(chords_cost(vs, Seq::<(int, int)>::empty()) == 0);
    assert(chords_cost(vs, seq![x1]) == seg_len(vs, lo, kk)) by {
        assert(seq![x1].drop_last() =~= Seq::<(int, int)>::empty());
        assert(seq![x1].last() == x1);
    }
    assert(chords_cost(vs, seq![x2]) == seg_len(vs, kk, hi)) by {
        assert(seq![x2].drop_last() =~= Seq::<(int, int)>::empty());
        assert(seq![x2].last() == x2);
    }
}

/// A set of distinct, pairwise non-crossing chords of the sub-polygon
/// `s_lo .. s_hi` (its base excluded) has at most `hi - lo - 2` chords, and
/// when it has exactly that many its total length is at least the optimum
/// of the sub-polygon.
pub proof fn lemma_non_crossing_bound(vs: Seq<Point>, s: Seq<(int, int)>, lo: int, hi: int)
    requires
        0 <= lo < hi < vs.len(),
        s.no_duplicates(),
        all_chords_in(s, lo, hi),
        non_crossing(s),
    ensures
        s.len() <= (if hi - lo >= 2 { hi - lo - 2 } else { 0 }),
        s.len() == hi - lo - 2 ==> chords_cost(vs, s) >= opt(vs, lo, hi - lo + 1),
    decreases hi - lo,
{
    let n = vs.len() as int;
    lemma_chords_cost_nonneg(vs, s);
    if s.len() == 0 {
        if hi - lo == 2 {
            let t = 3int;
            assert(opt(vs, lo, 2) == 0);
            assert(opt(vs, (lo + 1) % n, 2) == 0);
            assert(split_cost(vs, lo, t, 1) == 0);
            assert(min_split(vs, lo, t, 1) == 0);
            assert(opt(vs, lo, t) == 0);
        }
        return;
    }
    lemma_apex_split(vs, s, lo, hi);
    let kk = far_end(s, lo);
    let sl2 = left_part(s, lo);
    let sr2 = right_part(s, lo, hi);
    lemma_non_crossing_bound(vs, sl2, lo, kk);
    lemma_non_crossing_bound(vs, sr2, kk, hi);
    lemma_chords_cost_nonneg(vs, sl2);
    lemma_chords_cost_nonneg(vs, sr2);
    if s.len() == hi - lo - 2 {
        // Every bound above is tight: both sides of the apex triangle that can
        // be chords are in s, and both parts are full triangulations.
        let t = hi - lo + 1;
        let k = kk - lo;
        lemma_small_mod(lo + k, n);
        lemma_small_mod(lo + t - 1, n);
        lemma_min_split(vs, lo, t, t - 2);
        assert(chords_cost(vs, s) >= split_cost(vs, lo, t, k));
    }
}

/// No set of distinct, pairwise non-crossing chords of a convex polygon with
/// `n >= 3` vertices has more than `n - 3` chords.
pub proof fn lemma_non_crossing_at_most_n_minus_3(s: Seq<(int, int)>, n: int)
    requires
        n >= 3,
        s.no_duplicates(),
        all_chords_in(s, 0, n - 1),
        non_crossing(s),
    ensures
        s.len() <= n - 3,
{
    let vs = Seq::new(n as nat, |i: int| Point { x: 0, y: 0 });
    lemma_non_crossing_bound(vs, s, 0, n - 1);
}

/// Every triangulation of the polygon costs at least the optimum `opt(vs, 0, n)`.
pub proof fn lemma_triangulation_cost_at_least_opt(vs: Seq<Point>, s: Seq<(int, int)>)
    requires
        vs.len() >= 3,
        is_triangulation(vs.len() as int, s),
    ensures
        chords_cost(vs, s) >= opt(vs, 0, vs.len() as int),
{
    lemma_non_crossing_bound(vs, s, 0, vs.len() - 1);
}


/// A set of distinct, pairwise non-crossing chords of the sub-polygon
/// `s_lo .. s_hi` (its base excluded) with fewer than `hi - lo - 2` chords can
/// be extended: some chord of the sub-polygon is not in it and crosses none
/// of its chords.
pub proof fn lemma_non_crossing_extends(s: Seq<(int, int)>, lo: int, hi: int) -> (c: (int, int))
    requires
        0 <= lo < hi,
        s.no_duplicates(),
        all_chords_in(s, lo, hi),
        non_crossing(s),
        s.len() < hi - lo - 2,
    ensures
        chord_in(c, lo, hi),
        !s.contains(c),
        forall|d: (int, int)| #[trigger] s.contains(d) ==> !crosses(c, d),
    decreases hi - lo,
{
    if s.len() == 0 {
        let c = (lo, lo + 2);
        assert forall|d: (int, int)| #[trigger] s.contains(d) implies !crosses(c, d) by {
            assert(s.len() == 0);
        }
        return c;
    }
    let vs = Seq::new((hi + 1) as nat, |i: int| Point { x: 0, y: 0 });
    lemma_apex_split(vs, s, lo, hi);
    let kk = far_end(s, lo);
    let x2 = (kk, hi);
    let sl2 = left_part(s, lo);
    let sr2 = right_part(s, lo, hi);
    lemma_non_crossing_bound(vs, sl2, lo, kk);
    lemma_non_crossing_bound(vs, sr2, kk, hi);
    if hi - kk >= 2 && !s.contains(x2) {
        // the side (kk, hi) of the apex triangle is missing
        x2
    } else if kk - lo >= 3 && sl2.len() < kk - lo - 2 {
        // the part before the apex is not full
        lemma_non_crossing_extends(sl2, lo, kk)
    } else {
        // the part after the apex is not full
        lemma_non_crossing_extends(sr2, kk, hi)
    }
}

/// A set of distinct, pairwise non-crossing chords of a convex polygon with
/// `n >= 3` vertices is maximal (no other chord can be added without crossing
/// one of its chords) exactly when it has `n - 3` chords: every triangulation
/// has `n - 3` chords.
pub proof fn lemma_maximal_iff_n_minus_3(s: Seq<(int, int)>, n: int)
    requires
        n >= 3,
        s.no_duplicates(),
        all_chords_in(s, 0, n - 1),
        non_crossing(s),
    ensures
        (forall|c: (int, int)|
            chord_in(c, 0, n - 1) && !s.contains(c) ==> exists|d: (int, int)| #[trigger] s.contains(d) && crosses(c, d))
            <==> s.len() == n - 3,
{
    lemma_non_crossing_at_most_n_minus_3(s, n);
    if s.len() < n - 3 {
        let c = lemma_non_crossing_extends(s, 0, n - 1);
        assert(!(exists|d: (int, int)| #[trigger] s.contains(d) && crosses(c, d)));
    } else {
        assert forall|c: (int, int)| chord_in(c, 0, n - 1) && !s.contains(c) implies exists|d: (int, int)|
            #[trigger] s.contains(d) && crosses(c, d) by {
            if !(exists|d: (int, int)| #[trigger] s.contains(d) && crosses(c, d)) {
                let s2 = s.push(c);
                assert forall|p: int, q: int| 0 <= p < s2.len() && 0 <= q < s2.len() && p != q implies s2[p] != s2[q] by {
                    if p < s.len() && q < s.len() {
                    } else if p == s.len() {
                        assert(s.contains(s2[q]));
                    } else {
                        assert(s.contains(s2[p]));
                    }
                }
                assert(non_crossing(s2)) by {
                    assert forall|a: (int, int), b: (int, int)| #[trigger] s2.contains(a) && #[trigger] s2.contains(b) implies !crosses(a, b) by {
                        if a == c && b != c {
                            assert(s.contains(b));
                        } else if b == c && a != c {
                            assert(s.contains(a));
                            assert(!crosses(c, a));
                        } else if a != c && b != c {
                            assert(s.contains(a));
                            assert(s.contains(b));
                        }
                    }
                }
                lemma_non_crossing_at_most_n_minus_3(s2, n);
            }
        }
    }
}

/// Two choice functions that agree on every sub-polygon within
/// `s_i .. s_{i+t-1}` select the same chords for it.
proof fn lemma_chords_by_local(
    ch1: spec_fn(int, int) -> int,
    ch2: spec_fn(int, int) -> int,
    n: int,
    i: int,
    t: int,
)
    requires
        0 <= i,
        0 <= t,
        i + t <= n,
        forall|i2: int, t2: int| i <= i2 && 3 <= t2 && i2 + t2 <= i + t ==> #[trigger] ch1(i2, t2) == ch2(i2, t2),
    ensures
        chords_by(ch1, n, i, t) == chords_by(ch2, n, i, t),
    decreases t,
{
    if t >= 3 {
        let k = ch1(i, t);
        if 1 <= k && k <= t - 2 {
            lemma_small_mod(i + k, n);
            lemma_chords_by_local(ch1, ch2, n, i, k + 1);
            lemma_chords_by_local(ch1, ch2, n, i + k, t - k);
        }
    }
}

/// The choice of the apex `s_k` for the whole sub-polygon `s_lo .. s_hi` and
/// of `left` before it and `right` after it.
pub open spec fn join_choices(
    lo: int,
    hi: int,
    k: int,
    left: spec_fn(int, int) -> int,
    right: spec_fn(int, int) -> int,
) -> spec_fn(int, int) -> int {
    |i: int, t: int|
        if i == lo && t == hi - lo + 1 {
            k - lo
        } else if i + t - 1 <= k {
            left(i, t)
        } else {
            right(i, t)
        }
}

/// Every triangulation of the sub-polygon `s_lo .. s_hi` (its base excluded)
/// is the set of chords of a decomposition: some choice of apexes builds
/// exactly its chords.
pub proof fn lemma_decomposition_exists(s: Seq<(int, int)>, n: int, lo: int, hi: int) -> (ch: spec_fn(int, int) -> int)
    requires
        0 <= lo < hi < n,
        s.no_duplicates(),
        all_chords_in(s, lo, hi),
        non_crossing(s),
        s.len() == hi - lo - 2,
    ensures
        choices_ok(ch, n),
        forall|c: (int, int)| #[trigger] s.contains(c) <==> chords_by(ch, n, lo, hi - lo + 1).contains(c),
    decreases hi - lo,
{
    let one = |i: int, t: int| 1int;
    if s.len() == 0 {
        let t = hi - lo + 1;
        lemma_small_mod(lo + 1, n);
        assert(chords_by(one, n, lo, t) =~= Seq::<(int, int)>::empty()) by {
            assert(chords_by(one, n, lo, 2) =~= Seq::<(int, int)>::empty());
            assert(chords_by(one, n, lo + 1, 2) =~= Seq::<(int, int)>::empty());
        }
        return one;
    }
    let vs = Seq::new(n as nat, |i: int| Point { x: 0, y: 0 });
    lemma_apex_split(vs, s, lo, hi);
    let kk = far_end(s, lo);
    let sl2 = left_part(s, lo);
    let sr2 = right_part(s, lo, hi);
    lemma_non_crossing_bound(vs, sl2, lo, kk);
    lemma_non_crossing_bound(vs, sr2, kk, hi);
    let left = if kk - lo >= 2 { lemma_decomposition_exists(sl2, n, lo, kk) } else { one };
    let right = if hi - kk >= 2 { lemma_decomposition_exists(sr2, n, kk, hi) } else { one };
    let ch = join_choices(lo, hi, kk, left, right);
    let t = hi - lo + 1;
    assert(choices_ok(ch, n));
    lemma_chords_by_local(ch, left, n, lo, kk - lo + 1);
    lemma_chords_by_local(ch, right, n, kk, hi - kk + 1);
    lemma_small_mod(kk, n);
    lemma_small_mod(hi, n);
    let a = chords_by(ch, n, lo, kk - lo + 1);
    let b = chords_by(ch, n, kk, hi - kk + 1);
    let first: Seq<(int, int)> = if kk - lo >= 2 { seq![(lo, kk)] } else { seq![] };
    let second: Seq<(int, int)> = if kk - lo <= t - 3 { seq![(kk, hi)] } else { seq![] };
    assert(ch(lo, t) == kk - lo);
    assert(chords_by(ch, n, lo, t) == first + second + a + b);
    if kk - lo < 2 {
        assert(a =~= Seq::<(int, int)>::empty());
        assert(sl2.len() == 0);
    }
    if hi - kk < 2 {
        assert(b =~= Seq::<(int, int)>::empty());
        assert(sr2.len() == 0);
    }
    assert forall|c: (int, int)| #[trigger] s.contains(c) <==> chords_by(ch, n, lo, t).contains(c) by {
        broadcast use vstd::seq_lib::group_seq_properties;

        if kk - lo >= 2 {
            assert(first[0] == (lo, kk));
        }
        if kk - lo <= t - 3 {
            assert(second[0] == (kk, hi));
        }
        if sl2.contains(c) {
            assert(kk - lo >= 2) by {
                assert(chord_in(c, lo, kk));
            }
        }
        if sr2.contains(c) {
            assert(hi - kk >= 2) by {
                assert(chord_in(c, kk, hi));
            }
        }
    }
    ch
}

/// Every triangulation of a convex polygon with `n >= 3` vertices is the set
/// of chords of some decomposition of the polygon into the triangle on the
/// base `(s_0, s_{n-1})` and two sub-polygons, decomposed in turn: the
/// dynamic programme ranges over all triangulations.
pub proof fn lemma_every_triangulation_decomposes(s: Seq<(int, int)>, n: int) -> (ch: spec_fn(int, int) -> int)
    requires
        n >= 3,
        is_triangulation(n, s),
    ensures
        choices_ok(ch, n),
        forall|c: (int, int)| #[trigger] s.contains(c) <==> chords_by(ch, n, 0, n).contains(c),
{
    lemma_decomposition_exists(s, n, 0, n - 1)
}

} // verus!
