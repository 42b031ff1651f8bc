use vstd::prelude::*;

use crate::triangulation::{all_chords_in, chord_in, crosses, non_crossing};

verus! {

/// The chords of a triangulation of the sub-polygon `s_i .. s_{i+t-1}`
/// (indices mod n) built by choosing, for each sub-polygon `(i, t)` met, the
/// apex `s_{i+k}` with `k = ch(i, t)` of the triangle on its base
/// `(s_i, s_{i+t-1})`, then doing the same on the sub-polygons
/// `s_i .. s_{i+k}` and `s_{i+k} .. s_{i+t-1}`.
pub open spec fn chords_by(ch: spec_fn(int, int) -> int, n: int, i: int, t: int) -> Seq<(int, int)>
    decreases t,
{
    if t < 3 {
        seq![]
    } else {
        let k = ch(i, t);
        if 1 <= k && k <= t - 2 {
            let ik = (i + k) % n;
            let it1 = (i + t - 1) % n;
            (if k >= 2 { seq![(i, ik)] } else { seq![] }) + (if k <= t - 3 { seq![(ik, it1)] } else { seq![] })
                + chords_by(ch, n, i, k + 1) + chords_by(ch, n, ik, t - k)
        } else {
            seq![]
        }
    }
}

/// Every sub-polygon of at least three vertices that does not wrap around gets
/// a valid apex.
pub open spec fn choices_ok(ch: spec_fn(int, int) -> int, n: int) -> bool {
    forall|i: int, t: int| 0 <= i && 3 <= t && i + t <= n ==> 1 <= #[trigger] ch(i, t) <= t - 2
}

pub proof fn lemma_small_mod(x: int, n: int)
    requires
        0 <= x < n,
    ensures
        x % n == x,
{
    assert(x % n == x) by (nonlinear_arith)
        requires
            0 <= x < n,
    ;
}

/// Without wrap-around, the chords that valid choices select for the
/// sub-polygon `s_i .. s_{i+t-1}` are `t - 3` distinct, pairwise non-crossing
/// chords of that sub-polygon.
pub proof fn lemma_chords_by_shape(ch: spec_fn(int, int) -> int, n: int, i: int, t: int)
    requires
        choices_ok(ch, n),
        0 <= i,
        0 <= t,
        i + t <= n,
    ensures
        chords_by(ch, n, i, t).len() == (if t >= 3 { t - 3 } else { 0 }),
        all_chords_in(chords_by(ch, n, i, t), i, i + t - 1),
        non_crossing(chords_by(ch, n, i, t)),
        chords_by(ch, n, i, t).no_duplicates(),
    decreases t,
{
    broadcast use vstd::seq_lib::group_seq_properties;

    let s = chords_by(ch, n, i, t);
    if t < 3 {
        assert(s =~= seq![]);
    } else {
        let k = ch(i, t);
        let ik = (i + k) % n;
        let it1 = (i + t - 1) % n;
        lemma_small_mod(i + k, n);
        lemma_small_mod(i + t - 1, n);
        let first: Seq<(int, int)> = if k >= 2 { seq![(i, ik)] } else { seq![] };
        let second: Seq<(int, int)> = if k <= t - 3 { seq![(ik, it1)] } else { seq![] };
        let a = chords_by(ch, n, i, k + 1);
        let b = chords_by(ch, n, ik, t - k);
        lemma_chords_by_shape(ch, n, i, k + 1);
        lemma_chords_by_shape(ch, n, ik, t - k);
        let x = first + second;
        assert(s == x + a + b);
        assert forall|c: (int, int)| #[trigger] first.contains(c) implies c == (i, i + k) && k >= 2 by {
            if k >= 2 {
                assert(first[0] == (i, ik));
            }
        }
        assert forall|c: (int, int)| #[trigger] second.contains(c) implies c == (i + k, i + t - 1) && k <= t - 3 by {
            if k <= t - 3 {
                assert(second[0] == (ik, it1));
            }
        }
        assert(all_chords_in(s, i, i + t - 1));
        assert(non_crossing(s));
        assert(x.no_duplicates());
        vstd::seq_lib::lemma_no_dup_in_concat(first, second);
        assert forall|p: int, q: int| 0 <= p < x.len() && 0 <= q < a.len() implies x[p] != a[q] by {
            assert(x.contains(x[p]));
            assert(a.contains(a[q]));
        }
        vstd::seq_lib::lemma_no_dup_in_concat(x, a);
        assert forall|p: int, q: int| 0 <= p < (x + a).len() && 0 <= q < b.len() implies (x + a)[p] != b[q] by {
            assert((x + a).contains((x + a)[p]));
            assert(b.contains(b[q]));
        }
        vstd::seq_lib::lemma_no_dup_in_concat(x + a, b);
    }
}




/// The choice functions `ch1` and `ch2` pick the same apex for every
/// sub-polygon that the decomposition of `s_i .. s_{i+t-1}` meets.
pub open spec fn same_decomposition(
    ch1: spec_fn(int, int) -> int,
    ch2: spec_fn(int, int) -> int,
    n: int,
    i: int,
    t: int,
) -> bool
    decreases t,
{
    if t < 3 {
        true
    } else {
        let k = ch1(i, t);
        &&& ch1(i, t) == ch2(i, t)
        &&& (1 <= k && k <= t - 2) ==> same_decomposition(ch1, ch2, n, i, k + 1) && same_decomposition(
            ch1,
            ch2,
            n,
            (i + k) % n,
            t - k,
        )
    }
}

/// Two decompositions of `s_i .. s_{i+t-1}` that yield the same set of
/// chords are the same decomposition.
pub proof fn lemma_decomposition_unique(ch1: spec_fn(int, int) -> int, ch2: spec_fn(int, int) -> int, n: int, i: int, t: int)
    requires
        choices_ok(ch1, n),
        choices_ok(ch2, n),
        0 <= i,
        0 <= t,
        i + t <= n,
        forall|c: (int, int)| #[trigger] chords_by(ch1, n, i, t).contains(c) <==> chords_by(ch2, n, i, t).contains(c),
    ensures
        same_decomposition(ch1, ch2, n, i, t),
    decreases t,
{
    broadcast use vstd::seq_lib::group_seq_properties;

    if t >= 3 {
        let s1 = chords_by(ch1, n, i, t);
        let s2 = chords_by(ch2, n, i, t);
        lemma_chords_by_shape(ch1, n, i, t);
        lemma_chords_by_shape(ch2, n, i, t);
        let k1 = ch1(i, t);
        let k2 = ch2(i, t);
        lemma_small_mod(i + k1, n);
        lemma_small_mod(i + k2, n);
        lemma_small_mod(i + t - 1, n);
        // With a different apex, a side of one apex triangle would cross a
        // side of the other.
        if k1 < k2 {
            assert(s1.contains((i + k1, i + t - 1))) by {
                let f: Seq<(int, int)> = if k1 >= 2 { seq![(i, i + k1)] } else { seq![] };
                let g: Seq<(int, int)> = seq![(i + k1, i + t - 1)];
                assert(g[0] == (i + k1, i + t - 1));
                assert(s1 == f + g + chords_by(ch1, n, i, k1 + 1) + chords_by(ch1, n, i + k1, t - k1));
            }
            assert(s2.contains((i, i + k2))) by {
                let f: Seq<(int, int)> = seq![(i, i + k2)];
                assert(f[0] == (i, i + k2));
                let g: Seq<(int, int)> = if k2 <= t - 3 { seq![(i + k2, i + t - 1)] } else { seq![] };
                assert(s2 == f + g + chords_by(ch2, n, i, k2 + 1) + chords_by(ch2, n, i + k2, t - k2));
            }
            assert(crosses((i, i + k2), (i + k1, i + t - 1)));
            assert(false);
        }
        if k2 < k1 {
            assert(s2.contains((i + k2, i + t - 1))) by {
                let f: Seq<(int, int)> = if k2 >= 2 { seq![(i, i + k2)] } else { seq![] };
                let g: Seq<(int, int)> = seq![(i + k2, i + t - 1)];
                assert(g[0] == (i + k2, i + t - 1));
                assert(s2 == f + g + chords_by(ch2, n, i, k2 + 1) + chords_by(ch2, n, i + k2, t - k2));
            }
            assert(s1.contains((i, i + k1))) by {
                let f: Seq<(int, int)> = seq![(i, i + k1)];
                assert(f[0] == (i, i + k1));
                let g: Seq<(int, int)> = if k1 <= t - 3 { seq![(i + k1, i + t - 1)] } else { seq![] };
                assert(s1 == f + g + chords_by(ch1, n, i, k1 + 1) + chords_by(ch1, n, i + k1, t - k1));
            }
            assert(crosses((i, i + k1), (i + k2, i + t - 1)));
            assert(false);
        }
        let k = k1;
        let first: Seq<(int, int)> = if k >= 2 { seq![(i, i + k)] } else { seq![] };
        let second: Seq<(int, int)> = if k <= t - 3 { seq![(i + k, i + t - 1)] } else { seq![] };
        let a1 = chords_by(ch1, n, i, k + 1);
        let a2 = chords_by(ch2, n, i, k + 1);
        let b1 = chords_by(ch1, n, i + k, t - k);
        let b2 = chords_by(ch2, n, i + k, t - k);
        assert(s1 == first + second + a1 + b1);
        assert(s2 == first + second + a2 + b2);
        lemma_chords_by_shape(ch1, n, i, k + 1);
        lemma_chords_by_shape(ch2, n, i, k + 1);
        lemma_chords_by_shape(ch1, n, i + k, t - k);
        lemma_chords_by_shape(ch2, n, i + k, t - k);
        assert forall|c: (int, int)| #[trigger] first.contains(c) implies c == (i, i + k) by {
            if k >= 2 {
                assert(first[0] == (i, i + k));
            }
        }
        assert forall|c: (int, int)| #[trigger] second.contains(c) implies c == (i + k, i + t - 1) by {
            if k <= t - 3 {
                assert(second[0] == (i + k, i + t - 1));
            }
        }
        // The chords before the apex, and those after it, are the same
        assert forall|c: (int, int)| #[trigger] a1.contains(c) <==> a2.contains(c) by {
            if a1.contains(c) {
                assert(chord_in(c, i, i + k));
                assert((first + second + a1).contains(c));
                assert(s1.contains(c));
                assert(s2.contains(c));
                if b2.contains(c) {
                    assert(chord_in(c, i + k, i + t - 1));
                }
            }
            if a2.contains(c) {
                assert(chord_in(c, i, i + k));
                assert((first + second + a2).contains(c));
                assert(s2.contains(c));
                assert(s1.contains(c));
                if b1.contains(c) {
                    assert(chord_in(c, i + k, i + t - 1));
                }
            }
        }
        assert forall|c: (int, int)| #[trigger] b1.contains(c) <==> b2.contains(c) by {
            if b1.contains(c) {
                assert(chord_in(c, i + k, i + t - 1));
                assert(s1.contains(c));
                assert(s2.contains(c));
                if a2.contains(c) {
                    assert(chord_in(c, i, i + k));
                }
            }
            if b2.contains(c) {
                assert(chord_in(c, i + k, i + t - 1));
                assert(s2.contains(c));
                assert(s1.contains(c));
                if a1.contains(c) {
                    assert(chord_in(c, i, i + k));
                }
            }
        }
        lemma_decomposition_unique(ch1, ch2, n, i, k + 1);
        lemma_decomposition_unique(ch1, ch2, n, i + k, t - k);
    }
}

} // verus!
