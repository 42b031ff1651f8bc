use vstd::prelude::*;

use crate::backtracking::{
    Chord, clear_of, compatible, drawable, edges_clear, is_polygon_chord, list_cost, same_chord,
};
use crate::dynamic::{chords_of, choice_table_ok, lemma_dp_chords_are_optimal_triangulation};
use crate::lower_bound::lemma_triangulation_cost_at_least_opt;
use crate::polygon::{Point, all_in_range, cross_spec, max_len, segments_intersect_spec, strictly_convex};
use crate::triangulation::{
    all_chords_in, chord_in, chords_cost, crosses, is_best_split, is_triangulation, lemma_opt_bound,
    lemma_seg_len_bound, non_crossing, opt, seg_len,
};

verus! {

broadcast use vstd::seq_lib::group_seq_properties;

/// In a strictly convex polygon, two chords without a common vertex cross
/// geometrically exactly when their endpoints interleave around the polygon.
pub proof fn lemma_convex_crossing(vs: Seq<Point>, a: int, b: int, e: int, f: int)
    requires
        strictly_convex(vs),
        0 <= a < b < vs.len(),
        0 <= e < f < vs.len(),
        a != e,
        a != f,
        b != e,
        b != f,
    ensures
        segments_intersect_spec(vs[a], vs[b], vs[e], vs[f]) == crosses((a, b), (e, f)),
{
    let d1 = cross_spec(vs[e], vs[f], vs[a]);
    let d2 = cross_spec(vs[e], vs[f], vs[b]);
    let d3 = cross_spec(vs[a], vs[b], vs[e]);
    let d4 = cross_spec(vs[a], vs[b], vs[f]);
}

/// In a strictly convex polygon, no chord crosses a polygon edge.
pub proof fn lemma_convex_edges(vs: Seq<Point>, a: int, b: int)
    requires
        strictly_convex(vs),
        0 <= a < b < vs.len(),
    ensures
        forall|e: int| 0 <= e < vs.len() ==> #[trigger] clear_of(vs, a, b, e, (e + 1) % (vs.len() as int)),
{
    let n = vs.len() as int;
    assert forall|e: int| 0 <= e < n implies #[trigger] clear_of(vs, a, b, e, (e + 1) % n) by {
        let nx = (e + 1) % n;
        if e + 1 < n {
            assert(nx == e + 1) by (nonlinear_arith)
                requires
                    nx == (e + 1) % n,
                    0 <= e + 1 < n,
            ;
        } else {
            assert(nx == 0) by (nonlinear_arith)
                requires
                    nx == (e + 1) % n,
                    e + 1 == n,
                    n >= 1,
            ;
        }
        if !(e == a || e == b || nx == a || nx == b) {
            let d3 = cross_spec(vs[a], vs[b], vs[e]);
            let d4 = cross_spec(vs[a], vs[b], vs[nx]);
        }
    }
}


/// The vertex pairs of a list of chords.
pub open spec fn chord_pairs(s: Seq<Chord>) -> Seq<(int, int)> {
    s.map_values(|c: Chord| (c.i as int, c.j as int))
}

/// The chords joining the given vertex pairs, each with its length.
pub open spec fn as_chord_list(vs: Seq<Point>, s: Seq<(int, int)>) -> Seq<Chord> {
    s.map_values(|c: (int, int)| Chord { i: c.0 as usize, j: c.1 as usize, length: seg_len(vs, c.0, c.1) as u64 })
}

proof fn lemma_list_cost_pairs(vs: Seq<Point>, s: Seq<Chord>)
    requires
        forall|q: int| 0 <= q < s.len() ==> (#[trigger] s[q]).length == seg_len(vs, s[q].i as int, s[q].j as int),
    ensures
        list_cost(s) == chords_cost(vs, chord_pairs(s)),
    decreases s.len(),
{
    if s.len() > 0 {
        lemma_list_cost_pairs(vs, s.drop_last());
        assert(chord_pairs(s).drop_last() =~= chord_pairs(s.drop_last()));
    }
}

/// Chords that share a vertex never cross.
proof fn lemma_shared_vertex_no_cross(c: (int, int), d: (int, int))
    requires
        c.0 < c.1,
        d.0 < d.1,
        c.0 == d.0 || c.0 == d.1 || c.1 == d.0 || c.1 == d.1,
    ensures
        !crosses(c, d),
{
}

/// In a strictly convex polygon, every list of `n - 3` chords that can be
/// drawn one after another without crossing costs at least the optimum.
pub proof fn lemma_drawable_cost_at_least_opt(vs: Seq<Point>, s: Seq<Chord>)
    requires
        strictly_convex(vs),
        vs.len() >= 3,
        s.len() == vs.len() - 3,
        forall|q: int| 0 <= q < s.len() ==> is_polygon_chord(vs, #[trigger] s[q]),
        drawable(vs, s),
    ensures
        is_triangulation(vs.len() as int, chord_pairs(s)),
        list_cost(s) >= opt(vs, 0, vs.len() as int),
{
    let n = vs.len() as int;
    let ps = chord_pairs(s);
    assert forall|c: (int, int)| #[trigger] ps.contains(c) implies chord_in(c, 0, n - 1) by {
        let k = choose|k: int| 0 <= k < ps.len() && ps[k] == c;
        assert(is_polygon_chord(vs, s[k]));
    }
    // two positions p < q of the list: compatible chords do not cross
    assert forall|p: int, q: int|
        #![trigger ps[p], ps[q]]
        0 <= p < q < s.len() implies !crosses(ps[p], ps[q]) && !crosses(ps[q], ps[p]) && ps[p] != ps[q] by {
        assert(compatible(vs, s[q], s[p]));
        assert(is_polygon_chord(vs, s[p]));
        assert(is_polygon_chord(vs, s[q]));
        let c = ps[q];
        let d = ps[p];
        if c.0 == d.0 || c.0 == d.1 || c.1 == d.0 || c.1 == d.1 {
            lemma_shared_vertex_no_cross(c, d);
            lemma_shared_vertex_no_cross(d, c);
        } else {
            lemma_convex_crossing(vs, c.0, c.1, d.0, d.1);
        }
    }
    assert(non_crossing(ps)) by {
        assert forall|c: (int, int), d: (int, int)| #[trigger] ps.contains(c) && #[trigger] ps.contains(d) implies !crosses(c, d) by {
            let p = choose|p: int| 0 <= p < ps.len() && ps[p] == c;
            let q = choose|q: int| 0 <= q < ps.len() && ps[q] == d;
            if p == q {
            } else if p < q {
            } else {
            }
        }
    }
    assert(ps.no_duplicates()) by {
        assert forall|p: int, q: int| 0 <= p < ps.len() && 0 <= q < ps.len() && p != q implies ps[p] != ps[q] by {
            if p < q {
                assert(ps[p] != ps[q]);
            } else {
                assert(ps[q] != ps[p]);
            }
        }
    }
    assert(all_chords_in(ps, 0, n - 1));
    lemma_triangulation_cost_at_least_opt(vs, ps);
    assert forall|q: int| 0 <= q < s.len() implies (#[trigger] s[q]).length == seg_len(vs, s[q].i as int, s[q].j as int) by {
        assert(is_polygon_chord(vs, s[q]));
    }
    lemma_list_cost_pairs(vs, s);
}

/// In a strictly convex polygon, the chords of any triangulation, each with
/// its length, can be drawn one after another and cost the triangulation's
/// total length.
pub proof fn lemma_triangulation_drawable(vs: Seq<Point>, t: Seq<(int, int)>)
    requires
        strictly_convex(vs),
        all_in_range(vs),
        3 <= vs.len() <= usize::MAX,
        is_triangulation(vs.len() as int, t),
    ensures
        as_chord_list(vs, t).len() == vs.len() - 3,
        forall|q: int| 0 <= q < as_chord_list(vs, t).len() ==> is_polygon_chord(vs, #[trigger] as_chord_list(vs, t)[q]),
        drawable(vs, as_chord_list(vs, t)),
        list_cost(as_chord_list(vs, t)) == chords_cost(vs, t),
{
    let n = vs.len() as int;
    let s = as_chord_list(vs, t);
    assert forall|q: int| 0 <= q < s.len() implies #[trigger] s[q].i == t[q].0 && s[q].j == t[q].1 && chord_in(t[q], 0, n - 1)
        && s[q].length == seg_len(vs, t[q].0, t[q].1) by {
        assert(t.contains(t[q]));
        lemma_seg_len_bound(vs, t[q].0, t[q].1);
    }
    assert forall|q: int| 0 <= q < s.len() implies is_polygon_chord(vs, #[trigger] s[q]) by {
        assert(s[q].i == t[q].0);
    }
    assert forall|q: int| 0 <= q < s.len() implies edges_clear(vs, #[trigger] s[q]) by {
        assert(s[q].i == t[q].0);
        lemma_convex_edges(vs, t[q].0, t[q].1);
    }
    assert forall|p: int, q: int| 0 <= p < q < s.len() implies #[trigger] compatible(vs, s[q], s[p]) by {
        assert(s[q].i == t[q].0);
        assert(s[p].i == t[p].0);
        assert(t[p] != t[q]);
        assert(t.contains(t[p]));
        assert(t.contains(t[q]));
        let c = t[q];
        let d = t[p];
        assert(!same_chord(s[p], s[q].i as int, s[q].j as int));
        if !(d.0 == c.0 || d.0 == c.1 || d.1 == c.0 || d.1 == c.1) {
            lemma_convex_crossing(vs, c.0, c.1, d.0, d.1);
        }
    }
    assert forall|q: int| 0 <= q < s.len() implies (#[trigger] s[q]).length == seg_len(vs, s[q].i as int, s[q].j as int) by {
        assert(s[q].i == t[q].0);
    }
    lemma_list_cost_pairs(vs, s);
    assert(chord_pairs(s) =~= t) by {
        assert forall|q: int| 0 <= q < t.len() implies chord_pairs(s)[q] == t[q] by {
            assert(s[q].i == t[q].0);
        }
    }
}


/// On a strictly convex polygon, exhaustive search and dynamic programming
/// agree: a cost that is at most that of every list of `n - 3` chords that can
/// be drawn without crossing, and that is the cost of such a list whenever it
/// is below `u64::MAX` (what `min_triangulation_backtrack_verbose` returns),
/// is the cost `opt(vs, 0, n)` that `min_triangulation_dp` returns, whose
/// choice table `ch` is given.
pub proof fn lemma_backtrack_cost_is_dp_cost(vs: Seq<Point>, ch: Seq<Vec<usize>>, cost: u64, sol: Seq<Chord>)
    requires
        strictly_convex(vs),
        all_in_range(vs),
        3 <= vs.len() < 0xffff_ffff,
        choice_table_ok(ch, vs.len() as int),
        forall|i: int, t: int|
            0 <= i < vs.len() && 3 <= t <= vs.len() ==> is_best_split(vs, i, t, #[trigger] ch[i]@[t] as int),
        forall|s: Seq<Chord>|
            s.len() == vs.len() - 3 && (forall|q: int| 0 <= q < s.len() ==> is_polygon_chord(vs, #[trigger] s[q]))
                && #[trigger] drawable(vs, s) ==> cost <= list_cost(s),
        cost < u64::MAX ==> {
            &&& sol.len() == vs.len() - 3
            &&& forall|q: int| 0 <= q < sol.len() ==> is_polygon_chord(vs, #[trigger] sol[q])
            &&& drawable(vs, sol)
            &&& list_cost(sol) == cost
        },
    ensures
        cost == opt(vs, 0, vs.len() as int),
{
    let n = vs.len() as int;
    let t = chords_of(ch, n, 0, n);
    lemma_dp_chords_are_optimal_triangulation(vs, ch);
    lemma_triangulation_drawable(vs, t);
    let s = as_chord_list(vs, t);
    assert(cost <= list_cost(s));
    lemma_opt_bound(vs, 0, n);
    assert(n * max_len() < 0x1_0000_0000 * 0x8000_0000) by (nonlinear_arith)
        requires
            n < 0xffff_ffff,
            max_len() == 0x8000_0000,
    ;
    lemma_drawable_cost_at_least_opt(vs, sol);
}

} // verus!
