use vstd::prelude::*;

use crate::decomposition::{chords_by, choices_ok, lemma_chords_by_shape, lemma_small_mod};
use crate::lower_bound::lemma_triangulation_cost_at_least_opt;
use crate::polygon::{Point, lemma_dist_symmetric};
use crate::triangulation::{
    chord_in, chords_cost, crosses, is_triangulation, lemma_chords_cost_concat, lemma_min_split,
    min_split, opt, seg_len, split_cost,
};

verus! {

broadcast use vstd::seq_lib::group_seq_properties;

/// The vertex list `vs` read from vertex `r` on: position `i` holds
/// `vs[(i + r) % n]`.
pub open spec fn rotated(vs: Seq<Point>, r: int) -> Seq<Point> {
    Seq::new(vs.len(), |i: int| vs[(i + r) % (vs.len() as int)])
}

/// The vertex list `vs` in the opposite order.
pub open spec fn reversed(vs: Seq<Point>) -> Seq<Point> {
    Seq::new(vs.len(), |i: int| vs[vs.len() - 1 - i])
}

/// For each sub-polygon of at least three vertices, an apex whose split
/// reaches the optimum.
pub open spec fn opt_choice(vs: Seq<Point>) -> spec_fn(int, int) -> int {
    |i: int, t: int| choose|k: int| 1 <= k <= t - 2 && split_cost(vs, i, t, k) == opt(vs, i, t)
}

proof fn lemma_opt_choice(vs: Seq<Point>, i: int, t: int)
    requires
        t >= 3,
    ensures
        1 <= opt_choice(vs)(i, t) <= t - 2,
        split_cost(vs, i, t, opt_choice(vs)(i, t)) == opt(vs, i, t),
{
    lemma_min_split(vs, i, t, t - 2);
    let k0 = choose|k: int| 1 <= k <= t - 2 && min_split(vs, i, t, t - 2) == #[trigger] split_cost(vs, i, t, k);
    assert(1 <= k0 <= t - 2 && split_cost(vs, i, t, k0) == opt(vs, i, t));
}

/// The chords that optimal apexes select for `s_i .. s_{i+t-1}` (no
/// wrap-around) cost exactly the optimum.
proof fn lemma_opt_choice_cost(vs: Seq<Point>, i: int, t: int)
    requires
        0 <= i,
        0 <= t,
        i + t <= vs.len(),
    ensures
        chords_cost(vs, chords_by(opt_choice(vs), vs.len() as int, i, t)) == opt(vs, i, t),
    decreases t,
{
    let n = vs.len() as int;
    let ch = opt_choice(vs);
    let s = chords_by(ch, n, i, t);
    if t < 3 {
        assert(s =~= Seq::<(int, int)>::empty());
    } else {
        lemma_opt_choice(vs, i, t);
        let k = ch(i, t);
        let ik = (i + k) % n;
        let it1 = (i + t - 1) % n;
        lemma_small_mod(i + k, n);
        lemma_small_mod(i + t - 1, n);
        let first: Seq<(int, int)> = if k >= 2 { seq![(i, ik)] } else { seq![] };
        let second: Seq<(int, int)> = if k <= t - 3 { seq![(ik, it1)] } else { seq![] };
        let a = chords_by(ch, n, i, k + 1);
        let b = chords_by(ch, n, ik, t - k);
        assert(s == first + second + a + b);
        lemma_opt_choice_cost(vs, i, k + 1);
        lemma_opt_choice_cost(vs, ik, t - k);
        assert(chords_cost(vs, Seq::<(int, int)>::empty()) == 0);
        if k >= 2 {
            assert(first.drop_last() =~= Seq::<(int, int)>::empty());
        }
        if k <= t - 3 {
            assert(second.drop_last() =~= Seq::<(int, int)>::empty());
        }
        lemma_chords_cost_concat(vs, first, second);
        lemma_chords_cost_concat(vs, first + second, a);
        lemma_chords_cost_concat(vs, first + second + a, b);
    }
}

/// Relabelling the chords of `s` by `g` keeps the total length when `g`
/// keeps the length of every chord.
proof fn lemma_relabel_cost(
    v: Seq<Point>,
    w: Seq<Point>,
    g: spec_fn((int, int)) -> (int, int),
    s: Seq<(int, int)>,
)
    requires
        forall|q: int| 0 <= q < s.len() ==> chord_in(#[trigger] s[q], 0, v.len() - 1),
        forall|c: (int, int)|
            chord_in(c, 0, v.len() - 1) ==> seg_len(w, #[trigger] g(c).0, g(c).1) == seg_len(v, c.0, c.1),
    ensures
        chords_cost(w, s.map_values(g)) == chords_cost(v, s),
    decreases s.len(),
{
    if s.len() > 0 {
        assert(s.map_values(g).drop_last() =~= s.drop_last().map_values(g));
        lemma_relabel_cost(v, w, g, s.drop_last());
        assert(chord_in(s[s.len() - 1], 0, v.len() - 1));
    }
}

/// When a relabelling `g` of the vertices maps the chords of `v` one to one
/// onto chords of `w`, keeps their lengths and creates no crossing, the
/// optimum of `w` is at most that of `v`.
proof fn lemma_opt_le_by_relabel(v: Seq<Point>, w: Seq<Point>, g: spec_fn((int, int)) -> (int, int))
    requires
        v.len() >= 3,
        w.len() == v.len(),
        forall|c: (int, int)| chord_in(c, 0, v.len() - 1) ==> chord_in(#[trigger] g(c), 0, v.len() - 1),
        forall|c: (int, int)|
            chord_in(c, 0, v.len() - 1) ==> seg_len(w, #[trigger] g(c).0, g(c).1) == seg_len(v, c.0, c.1),
        forall|c: (int, int), d: (int, int)|
            #![trigger g(c), g(d)]
            chord_in(c, 0, v.len() - 1) && chord_in(d, 0, v.len() - 1) && crosses(g(c), g(d)) ==> crosses(c, d),
        forall|c: (int, int), d: (int, int)|
            #![trigger g(c), g(d)]
            chord_in(c, 0, v.len() - 1) && chord_in(d, 0, v.len() - 1) && g(c) == g(d) ==> c == d,
    ensures
        opt(w, 0, w.len() as int) <= opt(v, 0, v.len() as int),
{
    let n = v.len() as int;
    let ch = opt_choice(v);
    assert(choices_ok(ch, n)) by {
        assert forall|i: int, t: int| 0 <= i && 3 <= t && i + t <= n implies 1 <= #[trigger] ch(i, t) <= t - 2 by {
            lemma_opt_choice(v, i, t);
        }
    }
    let s = chords_by(ch, n, 0, n);
    lemma_chords_by_shape(ch, n, 0, n);
    lemma_opt_choice_cost(v, 0, n);
    let s2 = s.map_values(g);
    assert forall|q: int| 0 <= q < s.len() implies chord_in(#[trigger] s[q], 0, n - 1) by {
        assert(s.contains(s[q]));
    }
    assert(s2.no_duplicates()) by {
        assert forall|p: int, q: int| 0 <= p < s2.len() && 0 <= q < s2.len() && p != q implies s2[p] != s2[q] by {
            assert(chord_in(s[p], 0, n - 1));
            assert(chord_in(s[q], 0, n - 1));
            assert(g(s[p]) != g(s[q]) || s[p] == s[q]);
        }
    }
    assert forall|x: (int, int)| #[trigger] s2.contains(x) implies chord_in(x, 0, n - 1) by {
        let q = choose|q: int| 0 <= q < s2.len() && s2[q] == x;
        assert(chord_in(s[q], 0, n - 1));
    }
    assert forall|x: (int, int), y: (int, int)| #[trigger] s2.contains(x) && #[trigger] s2.contains(y) implies !crosses(
        x,
        y,
    ) by {
        let p = choose|p: int| 0 <= p < s2.len() && s2[p] == x;
        let q = choose|q: int| 0 <= q < s2.len() && s2[q] == y;
        assert(s.contains(s[p]));
        assert(s.contains(s[q]));
        assert(chord_in(s[p], 0, n - 1));
        assert(chord_in(s[q], 0, n - 1));
        assert(!crosses(s[p], s[q]));
        assert(g(s[p]) == x && g(s[q]) == y);
    }
    assert(is_triangulation(n, s2));
    lemma_relabel_cost(v, w, g, s);
    lemma_triangulation_cost_at_least_opt(w, s2);
}

/// The relabelling of chords that reverses the vertex order.
spec fn reversal_map(n: int) -> spec_fn((int, int)) -> (int, int) {
    |c: (int, int)| (n - 1 - c.1, n - 1 - c.0)
}

proof fn lemma_reversed_opt_le(vs: Seq<Point>)
    requires
        vs.len() >= 3,
    ensures
        opt(reversed(vs), 0, vs.len() as int) <= opt(vs, 0, vs.len() as int),
{
    let n = vs.len() as int;
    let w = reversed(vs);
    let g = reversal_map(n);
    assert forall|c: (int, int)| chord_in(c, 0, n - 1) implies seg_len(w, #[trigger] g(c).0, g(c).1) == seg_len(
        vs,
        c.0,
        c.1,
    ) by {
        assert(w[n - 1 - c.1] == vs[c.1]);
        assert(w[n - 1 - c.0] == vs[c.0]);
        lemma_dist_symmetric(vs[c.0], vs[c.1]);
    }
    lemma_opt_le_by_relabel(vs, w, g);
}

/// The optimum does not depend on the direction in which the vertices are
/// listed: reversing the vertex list keeps the optimum.
pub proof fn lemma_opt_reversal_invariant(vs: Seq<Point>)
    requires
        vs.len() >= 3,
    ensures
        opt(reversed(vs), 0, vs.len() as int) == opt(vs, 0, vs.len() as int),
{
    lemma_reversed_opt_le(vs);
    lemma_reversed_opt_le(reversed(vs));
    assert(reversed(reversed(vs)) =~= vs);
}

/// The relabelling of chords of `vs` as chords of `rotated(vs, 1)`: vertex
/// `x >= 1` becomes `x - 1`, vertex `0` becomes `n - 1`.
spec fn shift_down(n: int) -> spec_fn((int, int)) -> (int, int) {
    |c: (int, int)| if c.0 == 0 { (c.1 - 1, n - 1) } else { (c.0 - 1, c.1 - 1) }
}

/// The inverse relabelling: chords of `rotated(vs, 1)` as chords of `vs`.
spec fn shift_up(n: int) -> spec_fn((int, int)) -> (int, int) {
    |c: (int, int)| if c.1 == n - 1 { (0, c.0 + 1) } else { (c.0 + 1, c.1 + 1) }
}

proof fn lemma_rotated_one(vs: Seq<Point>)
    requires
        vs.len() >= 3,
    ensures
        opt(rotated(vs, 1), 0, vs.len() as int) == opt(vs, 0, vs.len() as int),
{
    let n = vs.len() as int;
    let w = rotated(vs, 1);
    assert forall|x: int| 0 <= x < n - 1 implies #[trigger] w[x] == vs[x + 1] by {
        lemma_small_mod(x + 1, n);
    }
    assert(w[n - 1] == vs[0]) by {
        assert(n % n == 0) by (nonlinear_arith)
            requires
                n >= 3,
        ;
    }
    let g = shift_down(n);
    assert forall|c: (int, int)| chord_in(c, 0, n - 1) implies seg_len(w, #[trigger] g(c).0, g(c).1) == seg_len(
        vs,
        c.0,
        c.1,
    ) by {
        if c.0 == 0 {
            assert(w[c.1 - 1] == vs[c.1]);
            lemma_dist_symmetric(vs[c.0], vs[c.1]);
        } else {
            assert(w[c.0 - 1] == vs[c.0]);
            assert(w[c.1 - 1] == vs[c.1]);
        }
    }
    lemma_opt_le_by_relabel(vs, w, g);
    let h = shift_up(n);
    assert forall|c: (int, int)| chord_in(c, 0, n - 1) implies seg_len(vs, #[trigger] h(c).0, h(c).1) == seg_len(
        w,
        c.0,
        c.1,
    ) by {
        if c.1 == n - 1 {
            assert(w[c.0] == vs[c.0 + 1]);
            lemma_dist_symmetric(w[c.0], w[c.1]);
        } else {
            assert(w[c.0] == vs[c.0 + 1]);
            assert(w[c.1] == vs[c.1 + 1]);
        }
    }
    lemma_opt_le_by_relabel(w, vs, h);
}

/// The optimum does not depend on which vertex is listed first: rotating the
/// vertex list keeps the optimum.
pub proof fn lemma_opt_rotation_invariant(vs: Seq<Point>, r: int)
    requires
        vs.len() >= 3,
        0 <= r < vs.len(),
    ensures
        opt(rotated(vs, r), 0, vs.len() as int) == opt(vs, 0, vs.len() as int),
    decreases r,
{
    let n = vs.len() as int;
    if r == 0 {
        assert forall|i: int| 0 <= i < n implies #[trigger] rotated(vs, 0)[i] == vs[i] by {
            lemma_small_mod(i, n);
        }
        assert(rotated(vs, 0) =~= vs);
    } else {
        let u = rotated(vs, r - 1);
        lemma_opt_rotation_invariant(vs, r - 1);
        lemma_rotated_one(u);
        assert forall|i: int| 0 <= i < n implies #[trigger] rotated(u, 1)[i] == rotated(vs, r)[i] by {
            if i < n - 1 {
                lemma_small_mod(i + 1, n);
            } else {
                assert(n % n == 0) by (nonlinear_arith)
                    requires
                        n >= 3,
                ;
                lemma_small_mod(r - 1, n);
                assert((n - 1 + r) % n == r - 1) by (nonlinear_arith)
                    requires
                        1 <= r < n,
                ;
            }
        }
        assert(rotated(u, 1) =~= rotated(vs, r));
    }
}

} // verus!
