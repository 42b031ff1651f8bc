use vstd::prelude::*;

use crate::polygon::{Point, all_in_range, distance, lemma_dist_symmetric};
use crate::lower_bound::lemma_triangulation_cost_at_least_opt;
use crate::triangulation::{
    chord_in, chords_cost, crosses, is_triangulation, lemma_seg_len_bound, non_crossing, opt, seg_len,
};

verus! {

/// Greedy triangulation.
///
/// An "exterior chord" of a polygon is a chord that forms a triangle with two
/// consecutive edges of the remaining polygon: for a polygon with vertices
/// [v_0, v_1, ..., v_{m-1}], the exterior chords are the diagonals
/// (v_{i-1}, v_{i+1}), v_i being the "ear tip".
///
/// Strategy: repeatedly pick the shortest exterior chord, remove the
/// corresponding ear, repeat until fully triangulated.
#[derive(Debug, Clone)]
pub struct GreedyResult {
    pub cost: u64,
    /// Each chord as (vertex_index_a, vertex_index_b, length)
    pub chords: Vec<(usize, usize, u64)>,
}

/// The exterior chord that cuts off the ear with tip `ring[e]`:
/// `(ring[e-1], ring[e+1])`, positions taken cyclically.
pub open spec fn ear_chord(ring: Seq<usize>, e: int) -> (int, int) {
    let m = ring.len() as int;
    (ring[(e + m - 1) % m] as int, ring[(e + 1) % m] as int)
}

/// Length of the exterior chord of the ear with tip `ring[e]`.
pub open spec fn ear_len(vs: Seq<Point>, ring: Seq<usize>, e: int) -> int {
    let c = ear_chord(ring, e);
    seg_len(vs, c.0, c.1)
}

/// The first position among `0 ..= j` whose ear has the shortest exterior chord.
pub open spec fn first_shortest_ear(vs: Seq<Point>, ring: Seq<usize>, j: int) -> int
    decreases j,
{
    if j <= 0 {
        0
    } else {
        let b = first_shortest_ear(vs, ring, j - 1);
        if ear_len(vs, ring, j) < ear_len(vs, ring, b) {
            j
        } else {
            b
        }
    }
}

/// The exterior chords, in order, that the greedy strategy cuts from the
/// polygon whose vertices, in order, are `ring`.
pub open spec fn greedy_chords(vs: Seq<Point>, ring: Seq<usize>) -> Seq<(int, int)>
    decreases ring.len(),
{
    if ring.len() <= 3 {
        seq![]
    } else {
        let e = first_shortest_ear(vs, ring, ring.len() - 1);
        if 0 <= e < ring.len() {
            seq![ear_chord(ring, e)] + greedy_chords(vs, ring.remove(e))
        } else {
            seq![]
        }
    }
}

/// The ring `0, 1, .., n-1` of all vertices.
pub open spec fn full_ring(n: nat) -> Seq<usize> {
    Seq::new(n, |i: int| i as usize)
}

/// The chords of a greedy result without their lengths.
pub open spec fn greedy_pairs(s: Seq<(usize, usize, u64)>) -> Seq<(int, int)> {
    s.map_values(|c: (usize, usize, u64)| (c.0 as int, c.1 as int))
}

proof fn lemma_first_shortest_ear(vs: Seq<Point>, ring: Seq<usize>, j: int)
    requires
        0 <= j,
    ensures
        0 <= first_shortest_ear(vs, ring, j) <= j,
        forall|i: int|
            0 <= i <= j ==> ear_len(vs, ring, first_shortest_ear(vs, ring, j)) <= #[trigger] ear_len(vs, ring, i),
        forall|i: int|
            0 <= i < first_shortest_ear(vs, ring, j) ==> #[trigger] ear_len(vs, ring, i) > ear_len(
                vs,
                ring,
                first_shortest_ear(vs, ring, j),
            ),
    decreases j,
{
    if j > 0 {
        lemma_first_shortest_ear(vs, ring, j - 1);
    }
}

/// Position before `i` on a ring of `m` vertices.
fn ring_prev(i: usize, m: usize) -> (r: usize)
    requires
        i < m,
    ensures
        r == (i + m - 1) % (m as int),
        r < m,
{
    if i == 0 {
        assert((0 + m - 1) % (m as int) == m - 1) by (nonlinear_arith)
            requires
                m >= 1,
        ;
        m - 1
    } else {
        assert((i + m - 1) % (m as int) == i - 1) by (nonlinear_arith)
            requires
                1 <= i < m,
        ;
        i - 1
    }
}

/// Position after `i` on a ring of `m` vertices.
fn ring_next(i: usize, m: usize) -> (r: usize)
    requires
        i < m,
    ensures
        r == (i + 1) % (m as int),
        r < m,
{
    if i + 1 == m {
        assert((i + 1) % (m as int) == 0) by (nonlinear_arith)
            requires
                i + 1 == m,
        ;
        0
    } else {
        assert((i + 1) % (m as int) == i + 1) by (nonlinear_arith)
            requires
                i + 1 < m,
        ;
        i + 1
    }
}

/// Length of the exterior chord of the ear with tip `ring[i]`.
fn ear_length(vertices: &[Point], ring: &Vec<usize>, i: usize) -> (r: u64)
    requires
        all_in_range(vertices@),
        i < ring@.len(),
        forall|p: int| 0 <= p < ring@.len() ==> (#[trigger] ring@[p]) < vertices@.len(),
    ensures
        r == ear_len(vertices@, ring@, i as int),
        r < 0x8000_0000,
{
    let m = ring.len();
    let prev = ring[ring_prev(i, m)];
    let next = ring[ring_next(i, m)];
    distance(&vertices[prev], &vertices[next])
}

/// Greedy triangulation: cut the ear with the shortest exterior chord (the
/// first such ear on ties) until a triangle remains.
pub fn min_triangulation_greedy(vertices: &[Point]) -> (r: GreedyResult)
    requires
        vertices@.len() < 0xffff_ffff,
        all_in_range(vertices@),
    ensures
        greedy_pairs(r.chords@) == greedy_chords(vertices@, full_ring(vertices@.len())),
        forall|p: int|
            0 <= p < r.chords@.len() ==> (#[trigger] r.chords@[p]).2 == seg_len(
                vertices@,
                r.chords@[p].0 as int,
                r.chords@[p].1 as int,
            ),
        r.cost == chords_cost(vertices@, greedy_chords(vertices@, full_ring(vertices@.len()))),
{
    let ghost vs = vertices@;
    let n = vertices.len();
    // Work with indices into the vertices array
    let mut ring: Vec<usize> = Vec::new();
    for i in 0..n
        invariant
            n == vs.len(),
            ring@ == full_ring(i as nat),
    {
        ring.push(i);
        assert(ring@ =~= full_ring((i + 1) as nat));
    }
    let ghost r0 = ring@;
    let mut chords: Vec<(usize, usize, u64)> = Vec::new();
    let mut total_cost: u64 = 0;

    // Each round cuts one ear and adds one chord, until a triangle remains
    while ring.len() > 3
        invariant
            n == vs.len(),
            vs == vertices@,
            n < 0xffff_ffff,
            all_in_range(vs),
            r0 == full_ring(n as nat),
            forall|p: int| 0 <= p < ring@.len() ==> (#[trigger] ring@[p]) < n,
            greedy_chords(vs, r0) == greedy_pairs(chords@) + greedy_chords(vs, ring@),
            forall|p: int|
                0 <= p < chords@.len() ==> (#[trigger] chords@[p]).2 == seg_len(
                    vs,
                    chords@[p].0 as int,
                    chords@[p].1 as int,
                ),
            total_cost == chords_cost(vs, greedy_pairs(chords@)),
            total_cost <= chords@.len() * 0x8000_0000,
            chords@.len() + ring@.len() == n,
        decreases ring@.len(),
    {
        // Find the shortest exterior chord (first one on ties)
        let m = ring.len();
        let mut best_len = ear_length(vertices, &ring, 0);
        let mut best_ear: usize = 0;
        for i in 1..m
            invariant
                vs == vertices@,
                all_in_range(vs),
                m == ring@.len(),
                m > 3,
                forall|p: int| 0 <= p < ring@.len() ==> (#[trigger] ring@[p]) < vs.len(),
                best_ear == first_shortest_ear(vs, ring@, i - 1),
                best_len == ear_len(vs, ring@, best_ear as int),
                best_ear < i,
        {
            let len = ear_length(vertices, &ring, i);
            if len < best_len {
                best_len = len;
                best_ear = i;
            }
        }
        proof {
            lemma_first_shortest_ear(vs, ring@, m - 1);
        }

        // Add the best exterior chord
        let prev = ring[ring_prev(best_ear, m)];
        let next = ring[ring_next(best_ear, m)];
        let ghost before = greedy_pairs(chords@);
        let ghost old_ring = ring@;
        proof {
            lemma_seg_len_bound(vs, prev as int, next as int);
            assert(chords_cost(vs, before.push((prev as int, next as int))) == total_cost + best_len) by {
                assert(before.push((prev as int, next as int)).drop_last() =~= before);
            }
        }
        total_cost = total_cost + best_len;
        chords.push((prev, next, best_len));

        // Remove the ear tip from the ring
        ring.remove(best_ear);
        proof {
            assert(greedy_pairs(chords@) =~= before.push((prev as int, next as int)));
            assert(greedy_chords(vs, old_ring) == seq![ear_chord(old_ring, best_ear as int)] + greedy_chords(
                vs,
                ring@,
            ));
            assert(greedy_chords(vs, r0) =~= greedy_pairs(chords@) + greedy_chords(vs, ring@));
            assert forall|p: int| 0 <= p < ring@.len() implies (#[trigger] ring@[p]) < n by {
                if p < best_ear {
                    assert(ring@[p] == old_ring[p]);
                } else {
                    assert(ring@[p] == old_ring[p + 1]);
                }
            }
        }
    }
    proof {
        assert(greedy_chords(vs, ring@) =~= Seq::<(int, int)>::empty());
        assert(greedy_chords(vs, r0) =~= greedy_pairs(chords@));
    }
    // The last triangle needs no chord (its three sides are already edges/committed chords)
    GreedyResult { cost: total_cost, chords }
}


/// The chord `c` with its smaller vertex first.
pub open spec fn norm(c: (int, int)) -> (int, int) {
    if c.0 <= c.1 {
        c
    } else {
        (c.1, c.0)
    }
}

/// Every chord of `s` with its smaller vertex first.
pub open spec fn norm_all(s: Seq<(int, int)>) -> Seq<(int, int)> {
    s.map_values(|c: (int, int)| norm(c))
}

/// The ring lists vertices in increasing order.
pub open spec fn increasing(ring: Seq<usize>) -> bool {
    forall|p: int, q: int| 0 <= p < q < ring.len() ==> ring[p] < ring[q]
}

/// `c` joins two vertices of the ring, with another ring vertex strictly
/// between them and another strictly outside them.
pub open spec fn ring_chord(ring: Seq<usize>, c: (int, int)) -> bool {
    &&& c.0 < c.1
    &&& exists|p: int| 0 <= p < ring.len() && ring[p] as int == c.0
    &&& exists|p: int| 0 <= p < ring.len() && ring[p] as int == c.1
    &&& exists|p: int| 0 <= p < ring.len() && c.0 < ring[p] as int && (ring[p] as int) < c.1
    &&& exists|p: int| 0 <= p < ring.len() && ((ring[p] as int) < c.0 || (ring[p] as int) > c.1)
}

proof fn lemma_remove_index(ring: Seq<usize>, e: int, j: int)
    requires
        0 <= e < ring.len(),
        0 <= j < ring.len() - 1,
    ensures
        ring.remove(e)[j] == (if j < e { ring[j] } else { ring[j + 1] }),
{
}

/// No vertex of `ring` lies strictly inside `x`, or none lies strictly outside it.
pub open spec fn cuts_off(ring: Seq<usize>, x: (int, int)) -> bool {
    (forall|j: int| 0 <= j < ring.len() ==> !(x.0 < #[trigger] ring[j] as int && (ring[j] as int) < x.1))
        || (forall|j: int| 0 <= j < ring.len() ==> x.0 <= #[trigger] ring[j] as int && (ring[j] as int) <= x.1)
}

proof fn lemma_remove_all(ring: Seq<usize>, e: int)
    requires
        0 <= e < ring.len(),
        increasing(ring),
    ensures
        ring.remove(e).len() == ring.len() - 1,
        forall|j: int|
            0 <= j < ring.len() - 1 ==> #[trigger] ring.remove(e)[j] == (if j < e { ring[j] } else { ring[j + 1] }),
        increasing(ring.remove(e)),
{
    let r2 = ring.remove(e);
    assert forall|j: int| 0 <= j < ring.len() - 1 implies #[trigger] r2[j] == (if j < e { ring[j] } else { ring[j + 1] }) by {
        lemma_remove_index(ring, e, j);
    }
}

/// The chord cut at ear `e` is a chord of the ring, and the ring left after
/// removing the ear tip lies on one closed side of it.
proof fn lemma_cut_chord(ring: Seq<usize>, e: int)
    requires
        increasing(ring),
        ring.len() >= 4,
        0 <= e < ring.len(),
    ensures
        ring_chord(ring, norm(ear_chord(ring, e))),
        cuts_off(ring.remove(e), norm(ear_chord(ring, e))),
{
    let m = ring.len() as int;
    lemma_remove_all(ring, e);
    let r2 = ring.remove(e);
    let x = norm(ear_chord(ring, e));
    if e == 0 {
        assert((e + m - 1) % m == m - 1) by (nonlinear_arith)
            requires
                e == 0,
                m >= 4,
        ;
        assert((e + 1) % m == 1) by (nonlinear_arith)
            requires
                e == 0,
                m >= 4,
        ;
        assert(x == (ring[1] as int, ring[m - 1] as int));
        assert(ring[2] > ring[1] && ring[2] < ring[m - 1]);
        assert(ring[0] < ring[1]);
        assert forall|j: int| 0 <= j < m - 1 implies x.0 <= #[trigger] r2[j] as int && r2[j] as int <= x.1 by {
            if j + 1 < m - 1 {
                assert(ring[j + 1] < ring[m - 1]);
            }
            if 1 < j + 1 {
                assert(ring[1] < ring[j + 1]);
            }
        }
    } else if e == m - 1 {
        assert((e + m - 1) % m == m - 2) by (nonlinear_arith)
            requires
                e == m - 1,
                m >= 4,
        ;
        assert((e + 1) % m == 0) by (nonlinear_arith)
            requires
                e == m - 1,
                m >= 4,
        ;
        assert(x == (ring[0] as int, ring[m - 2] as int));
        assert(ring[1] > ring[0] && ring[1] < ring[m - 2]);
        assert(ring[m - 1] > ring[m - 2]);
        assert forall|j: int| 0 <= j < m - 1 implies x.0 <= #[trigger] r2[j] as int && r2[j] as int <= x.1 by {
            if j < m - 2 {
                assert(ring[j] < ring[m - 2]);
            }
            if 0 < j {
                assert(ring[0] < ring[j]);
            }
        }
    } else {
        assert((e + m - 1) % m == e - 1) by (nonlinear_arith)
            requires
                1 <= e < m - 1,
        ;
        assert((e + 1) % m == e + 1) by (nonlinear_arith)
            requires
                1 <= e < m - 1,
        ;
        assert(x == (ring[e - 1] as int, ring[e + 1] as int));
        assert(ring[e] > ring[e - 1] && ring[e] < ring[e + 1]);
        if e >= 2 {
            assert(ring[0] < ring[e - 1]);
        } else {
            assert(ring[m - 1] > ring[e + 1]);
        }
        assert forall|j: int| 0 <= j < m - 1 implies !(x.0 < #[trigger] r2[j] as int && (r2[j] as int) < x.1) by {
            if j < e {
                if j < e - 1 {
                    assert(ring[j] < ring[e - 1]);
                }
            } else {
                if j + 1 > e + 1 {
                    assert(ring[e + 1] < ring[j + 1]);
                }
            }
        }
    }
}

/// A chord of the ring left after the cut is a chord of the whole ring, is not
/// the cut chord, and does not cross it.
proof fn lemma_after_cut(ring: Seq<usize>, e: int, d: (int, int))
    requires
        increasing(ring),
        ring.len() >= 4,
        0 <= e < ring.len(),
        ring_chord(ring.remove(e), d),
        cuts_off(ring.remove(e), norm(ear_chord(ring, e))),
    ensures
        ring_chord(ring, d),
        d != norm(ear_chord(ring, e)),
        !crosses(norm(ear_chord(ring, e)), d),
{
    lemma_remove_all(ring, e);
    let r2 = ring.remove(e);
    let p0 = choose|p: int| 0 <= p < r2.len() && r2[p] as int == d.0;
    let p1 = choose|p: int| 0 <= p < r2.len() && r2[p] as int == d.1;
    let pi = choose|p: int| 0 <= p < r2.len() && d.0 < r2[p] as int && (r2[p] as int) < d.1;
    let po = choose|p: int| 0 <= p < r2.len() && ((r2[p] as int) < d.0 || (r2[p] as int) > d.1);
    let i0 = if p0 < e { p0 } else { p0 + 1 };
    let i1 = if p1 < e { p1 } else { p1 + 1 };
    let ii = if pi < e { pi } else { pi + 1 };
    let io = if po < e { po } else { po + 1 };
    assert(ring[i0] == r2[p0]);
    assert(ring[i1] == r2[p1]);
    assert(ring[ii] == r2[pi]);
    assert(ring[io] == r2[po]);
    assert(r2[p0] as int == d.0);
    assert(r2[p1] as int == d.1);
}

/// Cutting ears greedily from a ring of at least three vertices yields
/// `m - 3` distinct, pairwise non-crossing chords of the ring.
pub proof fn lemma_greedy_shape(vs: Seq<Point>, ring: Seq<usize>)
    requires
        increasing(ring),
        ring.len() >= 3,
    ensures
        norm_all(greedy_chords(vs, ring)).len() == ring.len() - 3,
        norm_all(greedy_chords(vs, ring)).no_duplicates(),
        non_crossing(norm_all(greedy_chords(vs, ring))),
        forall|c: (int, int)| #[trigger] norm_all(greedy_chords(vs, ring)).contains(c) ==> ring_chord(ring, c),
    decreases ring.len(),
{
    broadcast use vstd::seq_lib::group_seq_properties;

    let m = ring.len() as int;
    let g = norm_all(greedy_chords(vs, ring));
    if m == 3 {
        assert(g =~= Seq::<(int, int)>::empty());
        return;
    }
    lemma_first_shortest_ear(vs, ring, m - 1);
    let e = first_shortest_ear(vs, ring, m - 1);
    lemma_remove_all(ring, e);
    let r2 = ring.remove(e);
    lemma_greedy_shape(vs, r2);
    let g2 = norm_all(greedy_chords(vs, r2));
    let raw = ear_chord(ring, e);
    let x = norm(raw);
    assert(greedy_chords(vs, ring) == seq![raw] + greedy_chords(vs, r2));
    assert(g =~= seq![x] + g2);
    lemma_cut_chord(ring, e);

    assert forall|d: (int, int)| #[trigger] g2.contains(d) implies ring_chord(ring, d) && d != x && !crosses(x, d) by {
        lemma_after_cut(ring, e, d);
    }
    assert forall|c: (int, int)| #[trigger] g.contains(c) implies ring_chord(ring, c) by {
        if c != x {
            assert(g2.contains(c));
        }
    }
    assert(non_crossing(g)) by {
        assert forall|c: (int, int), d: (int, int)| #[trigger] g.contains(c) && #[trigger] g.contains(d) implies !crosses(c, d) by {
            if c != x && d != x {
                assert(g2.contains(c));
                assert(g2.contains(d));
            } else if c == x && d != x {
                assert(g2.contains(d));
            } else if c != x && d == x {
                assert(g2.contains(c));
            }
        }
    }
    assert forall|p: int, q: int| 0 <= p < 1 && 0 <= q < g2.len() implies seq![x][p] != g2[q] by {
        assert(g2.contains(g2[q]));
    }
    vstd::seq_lib::lemma_no_dup_in_concat(seq![x], g2);
}


/// Writing each chord with its smaller vertex first does not change the total length.
proof fn lemma_norm_cost(vs: Seq<Point>, s: Seq<(int, int)>)
    ensures
        chords_cost(vs, norm_all(s)) == chords_cost(vs, s),
    decreases s.len(),
{
    if s.len() > 0 {
        lemma_norm_cost(vs, s.drop_last());
        assert(norm_all(s).drop_last() =~= norm_all(s.drop_last()));
        let c = s.last();
        lemma_dist_symmetric(vs[c.0], vs[c.1]);
    }
}

/// Position before `f` on a ring of `m` positions.
pub open spec fn pos_before(m: int, f: int) -> int {
    (f + m - 1) % m
}

/// Position after `f` on a ring of `m` positions.
pub open spec fn pos_after(m: int, f: int) -> int {
    (f + 1) % m
}

/// Each round of the greedy strategy cuts an ear whose exterior chord is no
/// longer than the exterior chord of any ear of the current ring, the ear at
/// every position of the ring (the last one included) considered, and the
/// first such ear on ties; the later rounds then work on the ring without
/// that ear's tip.
pub proof fn lemma_greedy_cuts_a_shortest_ear(vs: Seq<Point>, ring: Seq<usize>)
    requires
        ring.len() > 3,
    ensures
        exists|e: int|
            #![trigger ring.remove(e)]
            {
                let m = ring.len() as int;
                &&& 0 <= e < m
                &&& greedy_chords(vs, ring) == seq![
                    (ring[pos_before(m, e)] as int, ring[pos_after(m, e)] as int),
                ] + greedy_chords(vs, ring.remove(e))
                &&& forall|f: int|
                    0 <= f < m ==> seg_len(vs, ring[pos_before(m, e)] as int, ring[pos_after(m, e)] as int)
                        <= #[trigger] seg_len(vs, ring[pos_before(m, f)] as int, ring[pos_after(m, f)] as int)
                &&& forall|f: int|
                    0 <= f < e ==> seg_len(vs, ring[pos_before(m, e)] as int, ring[pos_after(m, e)] as int)
                        < #[trigger] seg_len(vs, ring[pos_before(m, f)] as int, ring[pos_after(m, f)] as int)
            },
{
    let m = ring.len() as int;
    let e = first_shortest_ear(vs, ring, m - 1);
    lemma_first_shortest_ear(vs, ring, m - 1);
    assert forall|f: int| 0 <= f < m implies seg_len(vs, ring[pos_before(m, e)] as int, ring[pos_after(m, e)] as int)
        <= #[trigger] seg_len(vs, ring[pos_before(m, f)] as int, ring[pos_after(m, f)] as int) by {
        assert(ear_len(vs, ring, e) <= ear_len(vs, ring, f));
    }
    assert forall|f: int| 0 <= f < e implies seg_len(vs, ring[pos_before(m, e)] as int, ring[pos_after(m, e)] as int)
        < #[trigger] seg_len(vs, ring[pos_before(m, f)] as int, ring[pos_after(m, f)] as int) by {
        assert(ear_len(vs, ring, f) > ear_len(vs, ring, e));
    }
    assert(greedy_chords(vs, ring) == seq![(ring[pos_before(m, e)] as int, ring[pos_after(m, e)] as int)]
        + greedy_chords(vs, ring.remove(e)));
}

/// The greedy chords of a polygon with at least three vertices form a
/// triangulation, so they cost at least the optimum.
pub proof fn lemma_greedy_is_triangulation(vs: Seq<Point>)
    requires
        3 <= vs.len() <= usize::MAX,
    ensures
        is_triangulation(vs.len() as int, norm_all(greedy_chords(vs, full_ring(vs.len())))),
        chords_cost(vs, greedy_chords(vs, full_ring(vs.len()))) >= opt(vs, 0, vs.len() as int),
{
    let n = vs.len();
    let ring = full_ring(n);
    assert(increasing(ring));
    lemma_greedy_shape(vs, ring);
    let g = norm_all(greedy_chords(vs, ring));
    assert forall|c: (int, int)| #[trigger] g.contains(c) implies chord_in(c, 0, n - 1) by {
        assert(ring_chord(ring, c));
        let p0 = choose|p: int| 0 <= p < ring.len() && ring[p] as int == c.0;
        let p1 = choose|p: int| 0 <= p < ring.len() && ring[p] as int == c.1;
        let pi = choose|p: int| 0 <= p < ring.len() && c.0 < ring[p] as int && (ring[p] as int) < c.1;
        let po = choose|p: int| 0 <= p < ring.len() && ((ring[p] as int) < c.0 || (ring[p] as int) > c.1);
        assert(ring[p0] as int == p0);
        assert(ring[p1] as int == p1);
        assert(ring[pi] as int == pi);
        assert(ring[po] as int == po);
    }
    lemma_triangulation_cost_at_least_opt(vs, g);
    lemma_norm_cost(vs, greedy_chords(vs, ring));
}

} // verus!
