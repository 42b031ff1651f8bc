use vstd::prelude::*;

use crate::polygon::{Point, all_in_range, distance, segments_intersect, segments_intersect_spec};
use crate::triangulation::{chord_in, lemma_seg_len_bound, seg_len};
use crate::seq_facts::{
    lemma_filter_contains_iff, lemma_filter_increasing, lemma_filter_no_dup, lemma_filter_single,
};

verus! {

broadcast use vstd::seq_lib::group_seq_properties;

/// A chord between vertex i and vertex j with precomputed length
#[derive(Debug, Clone, Copy)]
pub struct Chord {
    pub i: usize,
    pub j: usize,
    pub length: u64,
}

/// `a` comes before `b` in the order by length, then by first vertex, then by
/// second vertex.
pub open spec fn chord_before(a: Chord, b: Chord) -> bool {
    a.length < b.length || (a.length == b.length && (a.i < b.i || (a.i == b.i && a.j < b.j)))
}

/// `s` is strictly increasing in the order `chord_before`.
pub open spec fn chords_sorted(s: Seq<Chord>) -> bool {
    forall|p: int, q: int| 0 <= p < q < s.len() ==> chord_before(s[p], s[q])
}

/// `c` is a chord of the polygon `vs` (smaller vertex first, the two vertices
/// not adjacent) carrying its length.
pub open spec fn is_polygon_chord(vs: Seq<Point>, c: Chord) -> bool {
    chord_in((c.i as int, c.j as int), 0, vs.len() - 1) && c.length == seg_len(vs, c.i as int, c.j as int)
}

/// Some element of `s` joins vertices `a` and `b`.
pub open spec fn lists_chord(s: Seq<Chord>, a: int, b: int) -> bool {
    exists|p: int| 0 <= p < s.len() && s[p].i == a && s[p].j == b
}

/// Number of chords whose smaller vertex is below `i` in a polygon with `n` vertices.
pub open spec fn chords_below(n: int, i: int) -> int
    decreases i,
{
    if i <= 0 {
        0
    } else {
        let r = i - 1;
        chords_below(n, i - 1) + (if r + 2 < n { n - r - 2 - (if r == 0 { 1int } else { 0 }) } else { 0 })
    }
}

proof fn lemma_chords_below(n: int, i: int)
    requires
        n >= 3,
        1 <= i <= n - 2,
    ensures
        2 * chords_below(n, i) == 2 * i * (n - 2) - i * (i - 1) - 2,
    decreases i,
{
    if i == 1 {
        assert(chords_below(n, 0) == 0);
        assert(chords_below(n, 1) == n - 3);
        assert(2 * i * (n - 2) - i * (i - 1) - 2 == 2 * (n - 3)) by (nonlinear_arith)
            requires
                i == 1,
        ;
    } else {
        lemma_chords_below(n, i - 1);
        assert(2 * (i - 1) * (n - 2) - (i - 1) * (i - 2) - 2 + 2 * (n - i - 1) == 2 * i * (n - 2) - i * (i - 1) - 2)
            by (nonlinear_arith);
    }
}

/// A polygon with `n >= 3` vertices has `n (n - 3) / 2` chords.
pub proof fn lemma_chord_count(n: int)
    requires
        n >= 3,
    ensures
        2 * chords_below(n, n) == n * (n - 3),
{
    lemma_chords_below(n, n - 2);
    assert(chords_below(n, n - 1) == chords_below(n, n - 2));
    assert(chords_below(n, n) == chords_below(n, n - 1));
    assert(2 * (n - 2) * (n - 2) - (n - 2) * (n - 3) - 2 == n * (n - 3)) by (nonlinear_arith);
}

/// Insert `c` into the sorted vector `v` at its place.
fn insert_sorted(v: &mut Vec<Chord>, c: Chord)
    requires
        chords_sorted(old(v)@),
        forall|p: int| 0 <= p < old(v)@.len() ==> #[trigger] old(v)@[p] != c,
    ensures
        chords_sorted(final(v)@),
        final(v)@.len() == old(v)@.len() + 1,
        forall|x: Chord| #[trigger] final(v)@.contains(x) <==> old(v)@.contains(x) || x == c,
{
    let mut pos: usize = 0;
    while pos < v.len() && !(c.length < v[pos].length || (c.length == v[pos].length && (c.i < v[pos].i
        || (c.i == v[pos].i && c.j < v[pos].j))))
        invariant
            pos <= v@.len(),
            forall|p: int| 0 <= p < pos ==> !chord_before(c, #[trigger] v@[p]),
        decreases v@.len() - pos,
    {
        pos += 1;
    }
    let ghost old_v = v@;
    v.insert(pos, c);
    proof {
        assert forall|p: int, q: int| 0 <= p < q < v@.len() implies chord_before(v@[p], v@[q]) by {
            if q < pos {
            } else if q == pos {
                assert(!chord_before(c, old_v[p]));
                assert(old_v[p] != c);
            } else if p < pos {
                assert(!chord_before(c, old_v[p]));
                assert(old_v[p] != c);
                if pos < old_v.len() {
                    assert(chord_before(c, old_v[pos as int]));
                    assert(pos == q - 1 || chord_before(old_v[pos as int], old_v[q - 1]));
                }
            } else if p == pos {
                assert(chord_before(c, old_v[pos as int]));
                assert(pos == q - 1 || chord_before(old_v[pos as int], old_v[q - 1]));
            } else {
            }
        }
        assert forall|x: Chord| #[trigger] v@.contains(x) implies old_v.contains(x) || x == c by {
            let p = choose|p: int| 0 <= p < v@.len() && v@[p] == x;
            if p < pos {
                assert(old_v[p] == x);
            } else if p > pos {
                assert(old_v[p - 1] == x);
            }
        }
        assert forall|x: Chord| old_v.contains(x) || x == c implies #[trigger] v@.contains(x) by {
            if x == c {
                assert(v@[pos as int] == c);
            } else {
                let p = choose|p: int| 0 <= p < old_v.len() && old_v[p] == x;
                if p < pos {
                    assert(v@[p] == x);
                } else {
                    assert(v@[p + 1] == x);
                }
            }
        }
    }
}

proof fn lemma_lists_chord_kept(old_s: Seq<Chord>, new_s: Seq<Chord>, a: int, b: int)
    requires
        lists_chord(old_s, a, b),
        forall|x: Chord| old_s.contains(x) ==> #[trigger] new_s.contains(x),
    ensures
        lists_chord(new_s, a, b),
{
    let p = choose|p: int| 0 <= p < old_s.len() && old_s[p].i == a && old_s[p].j == b;
    assert(old_s.contains(old_s[p]));
    assert(new_s.contains(old_s[p]));
    let q = choose|q: int| 0 <= q < new_s.len() && new_s[q] == old_s[p];
    assert(new_s[q].i == a && new_s[q].j == b);
}

/// `cs` is the chord list of the polygon `vs`: each of its chords, with its
/// length, in the order `chord_before`.
pub open spec fn is_chord_list(vs: Seq<Point>, cs: Seq<Chord>) -> bool {
    &&& chords_sorted(cs)
    &&& forall|p: int| 0 <= p < cs.len() ==> is_polygon_chord(vs, #[trigger] cs[p])
    &&& forall|a: int, b: int| chord_in((a, b), 0, vs.len() - 1) ==> #[trigger] lists_chord(cs, a, b)
}

/// Two lists sorted by `chord_before` that hold the same chords are equal.
proof fn lemma_sorted_unique(a: Seq<Chord>, b: Seq<Chord>)
    requires
        chords_sorted(a),
        chords_sorted(b),
        forall|x: Chord| a.contains(x) <==> #[trigger] b.contains(x),
    ensures
        a == b,
    decreases a.len(),
{
    if a.len() == 0 {
        if b.len() > 0 {
            assert(b.contains(b[0]));
        }
        assert(a =~= b);
    } else {
        assert(a.contains(a[0]));
        assert(b.contains(a[0]));
        let q = choose|q: int| 0 <= q < b.len() && b[q] == a[0];
        assert(b.contains(b[0]));
        let p = choose|p: int| 0 <= p < a.len() && a[p] == b[0];
        if q > 0 {
            assert(chord_before(b[0], b[q]));
            if p > 0 {
                assert(chord_before(a[0], a[p]));
            }
        }
        assert(a[0] == b[0]);
        let a2 = a.subrange(1, a.len() as int);
        let b2 = b.subrange(1, b.len() as int);
        assert forall|x: Chord| a2.contains(x) <==> #[trigger] b2.contains(x) by {
            if a2.contains(x) {
                let k = choose|k: int| 0 <= k < a2.len() && a2[k] == x;
                assert(a[k + 1] == x);
                assert(chord_before(a[0], a[k + 1]));
                assert(a.contains(x));
                assert(b.contains(x));
                let m = choose|m: int| 0 <= m < b.len() && b[m] == x;
                assert(m != 0);
                assert(b2[m - 1] == x);
            }
            if b2.contains(x) {
                let k = choose|k: int| 0 <= k < b2.len() && b2[k] == x;
                assert(b[k + 1] == x);
                assert(chord_before(b[0], b[k + 1]));
                assert(b.contains(x));
                let m = choose|m: int| 0 <= m < a.len() && a[m] == x;
                assert(m != 0);
                assert(a2[m - 1] == x);
            }
        }
        lemma_sorted_unique(a2, b2);
        assert(a =~= b) by {
            assert forall|k: int| 0 <= k < a.len() implies a[k] == b[k] by {
                if k > 0 {
                    assert(a2[k - 1] == b2[k - 1]);
                }
            }
        }
    }
}

/// The chord list of a polygon is determined by the polygon.
pub proof fn lemma_chord_list_unique(vs: Seq<Point>, a: Seq<Chord>, b: Seq<Chord>)
    requires
        is_chord_list(vs, a),
        is_chord_list(vs, b),
    ensures
        a == b,
{
    assert forall|x: Chord| a.contains(x) implies #[trigger] b.contains(x) by {
        let p = choose|p: int| 0 <= p < a.len() && a[p] == x;
        assert(is_polygon_chord(vs, a[p]));
        assert(lists_chord(b, x.i as int, x.j as int));
        let q = choose|q: int| 0 <= q < b.len() && b[q].i == x.i && b[q].j == x.j;
        assert(is_polygon_chord(vs, b[q]));
        assert(b[q] == x);
    }
    assert forall|x: Chord| b.contains(x) implies #[trigger] a.contains(x) by {
        let p = choose|p: int| 0 <= p < b.len() && b[p] == x;
        assert(is_polygon_chord(vs, b[p]));
        assert(lists_chord(a, x.i as int, x.j as int));
        let q = choose|q: int| 0 <= q < a.len() && a[q].i == x.i && a[q].j == x.j;
        assert(is_polygon_chord(vs, a[q]));
        assert(a[q] == x);
    }
    lemma_sorted_unique(a, b);
}

/// Build the sorted list of all possible chords for an n-vertex polygon
/// (non-adjacent pairs only), sorted by length ascending (ties by vertices).
pub fn all_chords(vertices: &[Point]) -> (chords: Vec<Chord>)
    requires
        vertices@.len() < 0xffff_ffff,
        all_in_range(vertices@),
    ensures
        chords_sorted(chords@),
        forall|p: int| 0 <= p < chords@.len() ==> is_polygon_chord(vertices@, #[trigger] chords@[p]),
        forall|a: int, b: int|
            chord_in((a, b), 0, vertices@.len() - 1) ==> #[trigger] lists_chord(chords@, a, b),
        vertices@.len() >= 3 ==> 2 * chords@.len() == vertices@.len() * (vertices@.len() - 3),
{
    let ghost vs = vertices@;
    let n = vertices.len();
    let mut chords: Vec<Chord> = Vec::new();
    let mut i: usize = 0;
    while i < n
        invariant
            vs == vertices@,
            n == vs.len(),
            n < 0xffff_ffff,
            all_in_range(vs),
            i <= n,
            chords_sorted(chords@),
            chords@.len() == chords_below(n as int, i as int),
            forall|x: Chord| #[trigger] chords@.contains(x) ==> is_polygon_chord(vs, x) && x.i < i,
            forall|a: int, b: int|
                chord_in((a, b), 0, n - 1) && a < i ==> #[trigger] lists_chord(chords@, a, b),
        decreases n - i,
    {
        let ghost before = chords@.len();
        let mut j: usize = i + 2;
        while j < n
            invariant
                vs == vertices@,
                n == vs.len(),
                n < 0xffff_ffff,
                all_in_range(vs),
                i < n,
                i + 2 <= j,
                j <= n || j == i + 2,
                chords_sorted(chords@),
                chords@.len() == before + (j - i - 2) - (if i == 0 && j == n && n >= 3 { 1int } else { 0 }),
                forall|x: Chord| #[trigger] chords@.contains(x) ==> is_polygon_chord(vs, x) && x.i <= i,
                forall|x: Chord| #[trigger] chords@.contains(x) && x.i == i ==> x.j < j,
                forall|a: int, b: int|
                    chord_in((a, b), 0, n - 1) && (a < i || (a == i && b < j)) ==> #[trigger] lists_chord(
                        chords@,
                        a,
                        b,
                    ),
            decreases n - j,
        {
            // Exclude the edge (0, n-1) which is also adjacent
            if !(i == 0 && j == n - 1) {
                let length = distance(&vertices[i], &vertices[j]);
                let c = Chord { i, j, length };
                let ghost old_s = chords@;
                proof {
                    assert forall|p: int| 0 <= p < old_s.len() implies #[trigger] old_s[p] != c by {
                        assert(old_s.contains(old_s[p]));
                    }
                }
                insert_sorted(&mut chords, c);
                proof {
                    assert forall|a: int, b: int|
                        chord_in((a, b), 0, n - 1) && (a < i || (a == i && b < j + 1)) implies #[trigger] lists_chord(
                        chords@,
                        a,
                        b,
                    ) by {
                        if a == i && b == j {
                            assert(chords@.contains(c));
                            let q = choose|q: int| 0 <= q < chords@.len() && chords@[q] == c;
                            assert(chords@[q].i == a && chords@[q].j == b);
                        } else {
                            lemma_lists_chord_kept(old_s, chords@, a, b);
                        }
                    }
                }
            }
            j += 1;
        }
        proof {
            if i + 2 > n {
                assert(chords@.len() == before);
            }
            assert(chords_below(n as int, i + 1) == chords_below(n as int, i as int) + (if i + 2 < n {
                n - i - 2 - (if i == 0 { 1int } else { 0 })
            } else {
                0
            }));
        }
        i += 1;
    }
    proof {
        if n >= 3 {
            lemma_chord_count(n as int);
        }
        assert forall|p: int| 0 <= p < chords@.len() implies is_polygon_chord(vs, #[trigger] chords@[p]) by {
            assert(chords@.contains(chords@[p]));
        }
    }
    chords
}


/// The drawn chord `d` is the chord `(ci, cj)`, in either direction.
pub open spec fn same_chord(d: Chord, ci: int, cj: int) -> bool {
    (d.i == ci && d.j == cj) || (d.i == cj && d.j == ci)
}

/// The segment `(s_a, s_b)` shares a vertex with the chord `(ci, cj)` or does
/// not cross it.
pub open spec fn clear_of(vs: Seq<Point>, ci: int, cj: int, a: int, b: int) -> bool {
    a == ci || a == cj || b == ci || b == cj || !segments_intersect_spec(vs[ci], vs[cj], vs[a], vs[b])
}

/// The chord `(ci, cj)` has not been drawn yet, and crosses neither a drawn
/// chord nor a polygon edge.
pub open spec fn valid_chord_spec(vs: Seq<Point>, ci: int, cj: int, drawn: Seq<Chord>) -> bool {
    &&& forall|p: int| 0 <= p < drawn.len() ==> !same_chord(#[trigger] drawn[p], ci, cj)
    &&& forall|p: int| 0 <= p < drawn.len() ==> clear_of(vs, ci, cj, (#[trigger] drawn[p]).i as int, drawn[p].j as int)
    &&& forall|e: int| 0 <= e < vs.len() ==> #[trigger] clear_of(vs, ci, cj, e, (e + 1) % (vs.len() as int))
}

/// What `valid_chord` accepts: the chord `(ci, cj)` is accepted exactly when
/// no drawn chord joins the same two vertices (in either direction), no drawn
/// chord without a common vertex properly crosses it, and no polygon edge
/// `(s_e, s_{(e+1) mod n})` without a common vertex properly crosses it, the
/// closing edge `(s_{n-1}, s_0)` included.
pub proof fn lemma_valid_chord_meaning(vs: Seq<Point>, ci: int, cj: int, drawn: Seq<Chord>)
    requires
        vs.len() > 0,
    ensures
        valid_chord_spec(vs, ci, cj, drawn) <==> {
            &&& forall|p: int|
                0 <= p < drawn.len() ==> !((#[trigger] drawn[p].i == ci && drawn[p].j == cj) || (drawn[p].i == cj
                    && drawn[p].j == ci))
            &&& forall|p: int|
                #![trigger drawn[p]]
                0 <= p < drawn.len() ==> drawn[p].i == ci || drawn[p].i == cj || drawn[p].j == ci || drawn[p].j
                    == cj || !segments_intersect_spec(vs[ci], vs[cj], vs[drawn[p].i as int], vs[drawn[p].j as int])
            &&& forall|e: int|
                #![trigger vs[e]]
                0 <= e < vs.len() ==> e == ci || e == cj || (e + 1) % (vs.len() as int) == ci || (e + 1) % (
                vs.len() as int) == cj || !segments_intersect_spec(
                    vs[ci],
                    vs[cj],
                    vs[e],
                    vs[(e + 1) % (vs.len() as int)],
                )
        },
        valid_chord_spec(vs, ci, cj, drawn) ==> vs.len() - 1 == ci || vs.len() - 1 == cj || 0 == ci || 0 == cj
            || !segments_intersect_spec(vs[ci], vs[cj], vs[vs.len() - 1], vs[0]),
{
    let n = vs.len() as int;
    assert(n % n == 0) by (nonlinear_arith)
        requires
            n > 0,
    ;
    assert((n - 1 + 1) % n == 0);
    if valid_chord_spec(vs, ci, cj, drawn) {
        assert forall|e: int| #![trigger vs[e]] 0 <= e < n implies e == ci || e == cj || (e + 1) % n == ci || (e + 1) % n
            == cj || !segments_intersect_spec(vs[ci], vs[cj], vs[e], vs[(e + 1) % n]) by {
            assert(clear_of(vs, ci, cj, e, (e + 1) % n));
        }
        assert(clear_of(vs, ci, cj, n - 1, (n - 1 + 1) % n));
    }
    if forall|e: int|
        #![trigger vs[e]]
        0 <= e < n ==> e == ci || e == cj || (e + 1) % n == ci || (e + 1) % n == cj || !segments_intersect_spec(
            vs[ci],
            vs[cj],
            vs[e],
            vs[(e + 1) % n],
        ) {
        assert forall|e: int| 0 <= e < n implies #[trigger] clear_of(vs, ci, cj, e, (e + 1) % n) by {
            let x = vs[e];
        }
    }
}

/// Every drawn chord joins two vertices of the polygon.
pub open spec fn chords_within(s: Seq<Chord>, n: int) -> bool {
    forall|p: int| 0 <= p < s.len() ==> (#[trigger] s[p]).i < n && s[p].j < n
}

/// Returns true if the chord (i,j) has not already been
/// drawn and does not intersect any already-drawn chord.
/// `drawn` is the list of chords already selected.
pub fn valid_chord(ci: usize, cj: usize, drawn: &[Chord], vertices: &[Point]) -> (r: bool)
    requires
        (ci < vertices@.len() && cj < vertices@.len() && chords_within(drawn@, vertices@.len() as int))
            || exists|p: int| 0 <= p < drawn@.len() && same_chord(#[trigger] drawn@[p], ci as int, cj as int),
        all_in_range(vertices@),
    ensures
        r == valid_chord_spec(vertices@, ci as int, cj as int, drawn@),
{
    let ghost vs = vertices@;
    let n = vertices.len();
    // Check not already drawn
    let mut p: usize = 0;
    while p < drawn.len()
        invariant
            p <= drawn@.len(),
            (ci < vs.len() && cj < vs.len() && chords_within(drawn@, vs.len() as int))
                || exists|q: int| 0 <= q < drawn@.len() && same_chord(#[trigger] drawn@[q], ci as int, cj as int),
            forall|q: int| 0 <= q < p ==> !same_chord(#[trigger] drawn@[q], ci as int, cj as int),
        decreases drawn@.len() - p,
    {
        let c = drawn[p];
        if (c.i == ci && c.j == cj) || (c.i == cj && c.j == ci) {
            return false;
        }
        p += 1;
    }
    // Check no intersection with already drawn chords:
    // two chords (a,b) and (c,d) intersect if they share no endpoint and cross
    let pi = &vertices[ci];
    let pj = &vertices[cj];
    let mut p: usize = 0;
    while p < drawn.len()
        invariant
            vs == vertices@,
            n == vs.len(),
            ci < n,
            cj < n,
            *pi == vs[ci as int],
            *pj == vs[cj as int],
            chords_within(drawn@, n as int),
            all_in_range(vs),
            p <= drawn@.len(),
            forall|q: int|
                0 <= q < p ==> clear_of(vs, ci as int, cj as int, (#[trigger] drawn@[q]).i as int, drawn@[q].j as int),
        decreases drawn@.len() - p,
    {
        let ca = drawn[p].i;
        let cb = drawn[p].j;
        // Skip if they share an endpoint (adjacent chords don't cross)
        if !(ca == ci || ca == cj || cb == ci || cb == cj) {
            if segments_intersect(pi, pj, &vertices[ca], &vertices[cb]) {
                return false;
            }
        }
        p += 1;
    }
    // For a strictly convex polygon, any chord between two non-adjacent vertices
    // lies entirely inside the polygon and cannot cross any polygon edge.
    // The check keeps the function correct for non-convex inputs as well.
    let mut e: usize = 0;
    while e < n
        invariant
            vs == vertices@,
            n == vs.len(),
            ci < n,
            cj < n,
            *pi == vs[ci as int],
            *pj == vs[cj as int],
            all_in_range(vs),
            e <= n,
            forall|f: int| 0 <= f < e ==> #[trigger] clear_of(vs, ci as int, cj as int, f, (f + 1) % (n as int)),
        decreases n - e,
    {
        let next = if e + 1 == n { 0 } else { e + 1 };
        proof {
            if e + 1 == n {
                assert((e + 1) % (n as int) == 0) by (nonlinear_arith)
                    requires
                        e + 1 == n,
                ;
            } else {
                assert((e + 1) % (n as int) == e + 1) by (nonlinear_arith)
                    requires
                        e + 1 < n,
                ;
            }
        }
        // Skip edges that share an endpoint with our chord
        if !(e == ci || e == cj || next == ci || next == cj) {
            if segments_intersect(pi, pj, &vertices[e], &vertices[next]) {
                assert(!clear_of(vs, ci as int, cj as int, e as int, (e + 1) % (n as int)));
                return false;
            }
        }
        e += 1;
    }
    true
}


/// Sum of the lengths of the chords of `s`.
pub open spec fn list_cost(s: Seq<Chord>) -> int
    decreases s.len(),
{
    if s.len() == 0 {
        0
    } else {
        list_cost(s.drop_last()) + s.last().length
    }
}

/// The chords of `cs` at the positions listed in `t`.
pub open spec fn picked(cs: Seq<Chord>, t: Seq<usize>) -> Seq<Chord> {
    t.map_values(|p: usize| cs[p as int])
}

/// `valid_chord` accepts the chord `c` beside the drawn chord `d`: they are
/// not the same chord, and share a vertex or do not cross.
pub open spec fn compatible(vs: Seq<Point>, c: Chord, d: Chord) -> bool {
    !same_chord(d, c.i as int, c.j as int) && clear_of(vs, c.i as int, c.j as int, d.i as int, d.j as int)
}

/// The chord `c` crosses no polygon edge.
pub open spec fn edges_clear(vs: Seq<Point>, c: Chord) -> bool {
    forall|e: int| 0 <= e < vs.len() ==> #[trigger] clear_of(vs, c.i as int, c.j as int, e, (e + 1) % (vs.len() as int))
}

/// The chords of `s` can be drawn in order, each accepted by `valid_chord`
/// given the ones before it.
pub open spec fn drawable(vs: Seq<Point>, s: Seq<Chord>) -> bool {
    &&& forall|q: int| 0 <= q < s.len() ==> edges_clear(vs, #[trigger] s[q])
    &&& forall|p: int, q: int| 0 <= p < q < s.len() ==> #[trigger] compatible(vs, s[q], s[p])
}

/// `t` lists increasing positions of `cs` whose chords can be drawn.
pub open spec fn feasible(vs: Seq<Point>, cs: Seq<Chord>, t: Seq<usize>) -> bool {
    &&& forall|p: int| 0 <= p < t.len() ==> #[trigger] t[p] < cs.len()
    &&& forall|p: int, q: int| 0 <= p < q < t.len() ==> t[p] < t[q]
    &&& drawable(vs, picked(cs, t))
}

/// `t` is a complete selection of `needed` chords that extends `sel` with
/// positions from `start` on.
pub open spec fn completes(
    vs: Seq<Point>,
    cs: Seq<Chord>,
    needed: int,
    sel: Seq<usize>,
    start: int,
    t: Seq<usize>,
) -> bool {
    &&& feasible(vs, cs, t)
    &&& t.len() == needed
    &&& sel.len() <= t.len()
    &&& t.subrange(0, sel.len() as int) == sel
    &&& forall|p: int| sel.len() <= p < t.len() ==> #[trigger] t[p] >= start
}

/// Sum of the lengths of the `k` chords of `cs` from position `idx` on.
pub open spec fn range_cost(cs: Seq<Chord>, idx: int, k: int) -> int
    decreases k,
{
    if k <= 0 {
        0
    } else {
        range_cost(cs, idx, k - 1) + cs[idx + k - 1].length
    }
}

/// What the search leaves behind when it is called with the selection `sel`
/// and the position `start`, from the best cost `best`, the best selection
/// `sol` and the call count `calls`: the best cost, the best selection and
/// the call count afterwards. The call counts itself (the count stays at
/// `u64::MAX` once there); a complete selection is compared with the best;
/// otherwise the search stops when too few chords are left or the selection
/// already costs the best, and else tries the positions from `start` on.
pub open spec fn search(
    vs: Seq<Point>,
    cs: Seq<Chord>,
    needed: int,
    sel: Seq<usize>,
    start: int,
    best: int,
    sol: Seq<usize>,
    calls: int,
) -> (int, Seq<usize>, int)
    decreases cs.len() - start, 1int,
{
    let calls1 = if calls < u64::MAX { calls + 1 } else { calls };
    if sel.len() == needed {
        let cost = list_cost(picked(cs, sel));
        if cost < best {
            (cost, sel, calls1)
        } else {
            (best, sol, calls1)
        }
    } else if cs.len() - start < needed - sel.len() || list_cost(picked(cs, sel)) >= best {
        (best, sol, calls1)
    } else {
        search_from(vs, cs, needed, sel, start, best, sol, calls1)
    }
}

/// The positions tried by the search on the selection `sel`, from `idx` on:
/// it stops when fewer chords than missing are left, or when the selection
/// plus the next missing chords in the list cost at least the best;
/// otherwise a position whose chord can be drawn beside the selection is
/// searched with that chord added, from the next position on.
pub open spec fn search_from(
    vs: Seq<Point>,
    cs: Seq<Chord>,
    needed: int,
    sel: Seq<usize>,
    idx: int,
    best: int,
    sol: Seq<usize>,
    calls: int,
) -> (int, Seq<usize>, int)
    decreases cs.len() - idx, 0int,
{
    let k = needed - sel.len();
    if idx >= cs.len() || k > cs.len() - idx || list_cost(picked(cs, sel)) + range_cost(cs, idx, k) >= best {
        (best, sol, calls)
    } else if valid_chord_spec(vs, cs[idx].i as int, cs[idx].j as int, picked(cs, sel)) {
        let r = search(vs, cs, needed, sel.push(idx as usize), idx + 1, best, sol, calls);
        search_from(vs, cs, needed, sel, idx + 1, r.0, r.1, r.2)
    } else {
        search_from(vs, cs, needed, sel, idx + 1, best, sol, calls)
    }
}

/// The `k` chords from position `idx` on cost their total length.
proof fn lemma_range_cost_is_list_cost(cs: Seq<Chord>, idx: int, k: int)
    requires
        0 <= idx,
        0 <= k,
        idx + k <= cs.len(),
    ensures
        range_cost(cs, idx, k) == list_cost(cs.subrange(idx, idx + k)),
    decreases k,
{
    if k > 0 {
        lemma_range_cost_is_list_cost(cs, idx, k - 1);
        assert(cs.subrange(idx, idx + k).drop_last() =~= cs.subrange(idx, idx + k - 1));
    }
}

/// Every call of the search is counted: the count afterwards is at least
/// one more than before (or stays at `u64::MAX`).
pub proof fn lemma_search_counts_itself(
    vs: Seq<Point>,
    cs: Seq<Chord>,
    needed: int,
    sel: Seq<usize>,
    start: int,
    best: int,
    sol: Seq<usize>,
    calls: int,
)
    ensures
        search(vs, cs, needed, sel, start, best, sol, calls).2 >= (if calls < u64::MAX { calls + 1 } else { calls }),
    decreases cs.len() - start, 1int,
{
    let calls1 = if calls < u64::MAX { calls + 1 } else { calls };
    if sel.len() != needed && !(cs.len() - start < needed - sel.len() || list_cost(picked(cs, sel)) >= best) {
        lemma_search_from_keeps_count(vs, cs, needed, sel, start, best, sol, calls1);
    }
}

/// The positions tried never lower the call count.
pub proof fn lemma_search_from_keeps_count(
    vs: Seq<Point>,
    cs: Seq<Chord>,
    needed: int,
    sel: Seq<usize>,
    idx: int,
    best: int,
    sol: Seq<usize>,
    calls: int,
)
    ensures
        search_from(vs, cs, needed, sel, idx, best, sol, calls).2 >= calls,
    decreases cs.len() - idx, 0int,
{
    let k = needed - sel.len();
    if !(idx >= cs.len() || k > cs.len() - idx || list_cost(picked(cs, sel)) + range_cost(cs, idx, k) >= best) {
        if valid_chord_spec(vs, cs[idx].i as int, cs[idx].j as int, picked(cs, sel)) {
            let r = search(vs, cs, needed, sel.push(idx as usize), idx + 1, best, sol, calls);
            lemma_search_counts_itself(vs, cs, needed, sel.push(idx as usize), idx + 1, best, sol, calls);
            lemma_search_from_keeps_count(vs, cs, needed, sel, idx + 1, r.0, r.1, r.2);
        } else {
            lemma_search_from_keeps_count(vs, cs, needed, sel, idx + 1, best, sol, calls);
        }
    }
}

/// The first three cuts of the search, each after counting the call: a
/// complete selection only replaces the best when it is strictly cheaper; an
/// incomplete one is dropped, with no further call, when fewer chords are
/// left from `start` on than are missing, or when it already costs at least
/// the best.
pub proof fn lemma_search_prunes(
    vs: Seq<Point>,
    cs: Seq<Chord>,
    needed: int,
    sel: Seq<usize>,
    start: int,
    best: int,
    sol: Seq<usize>,
    calls: int,
)
    ensures
        ({
            let r = search(vs, cs, needed, sel, start, best, sol, calls);
            let calls1 = if calls < u64::MAX { calls + 1 } else { calls };
            let cost = list_cost(picked(cs, sel));
            &&& sel.len() == needed && cost < best ==> r == (cost, sel, calls1)
            &&& sel.len() == needed && cost >= best ==> r == (best, sol, calls1)
            &&& sel.len() != needed && cs.len() - start < needed - sel.len() ==> r == (best, sol, calls1)
            &&& sel.len() != needed && cost >= best ==> r == (best, sol, calls1)
        }),
{
}

/// The cut by the sorted list: when the selection plus the next missing
/// chords of the list, taken from position `idx` on, already cost at least
/// the best, trying the positions from `idx` on changes nothing and makes no
/// call.
pub proof fn lemma_search_from_cut(
    vs: Seq<Point>,
    cs: Seq<Chord>,
    needed: int,
    sel: Seq<usize>,
    idx: int,
    best: int,
    sol: Seq<usize>,
    calls: int,
)
    requires
        0 <= idx,
        sel.len() <= needed,
        idx + (needed - sel.len()) <= cs.len(),
        list_cost(picked(cs, sel)) + list_cost(cs.subrange(idx, idx + (needed - sel.len()))) >= best,
    ensures
        search_from(vs, cs, needed, sel, idx, best, sol, calls) == (best, sol, calls),
{
    lemma_range_cost_is_list_cost(cs, idx, needed - sel.len());
}

/// Without that cut, a position whose chord can be drawn beside the
/// selection is searched: at least one more call is made.
pub proof fn lemma_search_from_tries_drawable(
    vs: Seq<Point>,
    cs: Seq<Chord>,
    needed: int,
    sel: Seq<usize>,
    idx: int,
    best: int,
    sol: Seq<usize>,
    calls: int,
)
    requires
        0 <= idx < cs.len(),
        sel.len() <= needed,
        idx + (needed - sel.len()) <= cs.len(),
        list_cost(picked(cs, sel)) + list_cost(cs.subrange(idx, idx + (needed - sel.len()))) < best,
        valid_chord_spec(vs, cs[idx].i as int, cs[idx].j as int, picked(cs, sel)),
        calls < u64::MAX,
    ensures
        search_from(vs, cs, needed, sel, idx, best, sol, calls).2 > calls,
{
    lemma_range_cost_is_list_cost(cs, idx, needed - sel.len());
    let r = search(vs, cs, needed, sel.push(idx as usize), idx + 1, best, sol, calls);
    lemma_search_counts_itself(vs, cs, needed, sel.push(idx as usize), idx + 1, best, sol, calls);
    lemma_search_from_keeps_count(vs, cs, needed, sel, idx + 1, r.0, r.1, r.2);
}

/// State shared across the recursive search
pub struct BacktrackState<'a> {
    pub vertices: &'a [Point],
    pub chords: &'a [Chord],
    /// Number of chords needed for a full triangulation (= n - 3)
    pub needed: usize,
    /// Current set of selected chord indices (into `chords`)
    pub selected: Vec<usize>,
    /// Cost of the best complete selection found, `u64::MAX` while there is none
    pub best_cost: u64,
    pub best_solution: Vec<usize>,
    /// Number of recursive calls (for complexity analysis)
    pub call_count: u64,
}

/// The search can run over the chord list: the vertices are within the
/// coordinate bound, and the chords join vertices of the polygon and have
/// lengths below `2^31`.
pub open spec fn chord_list_usable(vs: Seq<Point>, cs: Seq<Chord>) -> bool {
    &&& all_in_range(vs)
    &&& chords_within(cs, vs.len() as int)
    &&& forall|p: int| 0 <= p < cs.len() ==> (#[trigger] cs[p]).length < 0x8000_0000
}

/// The chord list suits the search: it is usable and sorted by length.
pub open spec fn chord_list_ok(vs: Seq<Point>, cs: Seq<Chord>) -> bool {
    &&& chord_list_usable(vs, cs)
    &&& forall|p: int, q: int| 0 <= p < q < cs.len() ==> cs[p].length <= cs[q].length
}

/// Number of subsets of at most `r` elements of a set of `m` elements.
pub open spec fn subsets_upto(m: int, r: int) -> nat
    decreases m,
{
    if m <= 0 || r <= 0 {
        1
    } else {
        subsets_upto(m - 1, r) + subsets_upto(m - 1, r - 1)
    }
}

/// `subsets_upto(j, r)` summed over `j < m`.
pub open spec fn subsets_sum(m: int, r: int) -> nat
    decreases m,
{
    if m <= 0 {
        0
    } else {
        subsets_sum(m - 1, r) + subsets_upto(m - 1, r)
    }
}

/// Counting the subsets by their first element: the empty set, then for each
/// first element the subsets of the elements after it.
proof fn lemma_subsets_by_first(m: int, r: int)
    requires
        m >= 0,
        r >= 1,
    ensures
        subsets_upto(m, r) == 1 + subsets_sum(m, r - 1),
    decreases m,
{
    if m > 0 {
        lemma_subsets_by_first(m - 1, r);
    }
}

impl<'a> BacktrackState<'a> {
    /// The search can run on this state: the chord list is usable and the
    /// selection holds at most `needed` positions of it.
    pub open spec fn runnable(&self) -> bool {
        &&& chord_list_usable(self.vertices@, self.chords@)
        &&& self.needed < 0xffff_ffff
        &&& self.selected@.len() <= self.needed
        &&& forall|p: int| 0 <= p < self.selected@.len() ==> #[trigger] self.selected@[p] < self.chords@.len()
    }

    /// A best cost other than `u64::MAX` is the total length of the recorded
    /// selection of `needed` positions of the chord list.
    pub open spec fn best_recorded(&self) -> bool {
        self.best_cost == u64::MAX || {
            &&& self.best_solution@.len() == self.needed
            &&& forall|p: int|
                0 <= p < self.best_solution@.len() ==> #[trigger] self.best_solution@[p] < self.chords@.len()
            &&& list_cost(picked(self.chords@, self.best_solution@)) == self.best_cost
        }
    }

    /// No best selection is recorded yet, or the recorded one can be drawn.
    pub open spec fn best_drawable(&self) -> bool {
        self.best_cost == u64::MAX || feasible(self.vertices@, self.chords@, self.best_solution@)
    }

    /// The search state is consistent: it is runnable, the chord list is
    /// sorted by length, the selection can be drawn, and so can the recorded
    /// best selection.
    pub open spec fn wf(&self) -> bool {
        &&& self.runnable()
        &&& self.best_recorded()
        &&& chord_list_ok(self.vertices@, self.chords@)
        &&& feasible(self.vertices@, self.chords@, self.selected@)
        &&& self.best_drawable()
    }

    /// The search from position `start` on is set up as the top-level call
    /// sets it up: the state is runnable, the selection can be drawn, and
    /// every selected position lies before `start` in the chord list.
    pub open spec fn ready(&self, start: int) -> bool {
        &&& self.runnable()
        &&& feasible(self.vertices@, self.chords@, self.selected@)
        &&& start <= self.chords@.len()
        &&& forall|p: int| 0 <= p < self.selected@.len() ==> #[trigger] self.selected@[p] < start
    }

    pub fn new(vertices: &'a [Point], chords: &'a [Chord]) -> (s: Self)
        requires
            vertices@.len() >= 3,
        ensures
            chord_list_usable(vertices@, chords@) && vertices@.len() < 0xffff_ffff ==> s.runnable(),
            chord_list_ok(vertices@, chords@) && vertices@.len() < 0xffff_ffff ==> s.wf(),
            s.vertices@ == vertices@,
            s.chords@ == chords@,
            s.needed == vertices@.len() - 3,
            s.selected@.len() == 0,
            s.best_cost == u64::MAX,
            s.best_solution@.len() == 0,
            s.call_count == 0,
    {
        let needed = vertices.len() - 3;
        let s = Self {
            vertices,
            chords,
            needed,
            selected: Vec::new(),
            best_cost: u64::MAX,
            best_solution: Vec::new(),
            call_count: 0,
        };
        proof {
            assert(picked(chords@, s.selected@) =~= Seq::<Chord>::empty());
        }
        s
    }

    /// Current total length of selected chords
    fn current_cost(&self) -> (c: u64)
        requires
            self.runnable(),
        ensures
            c == list_cost(picked(self.chords@, self.selected@)),
    {
        let ghost cs = self.chords@;
        let ghost sel = self.selected@;
        let mut total: u64 = 0;
        let mut k: usize = 0;
        while k < self.selected.len()
            invariant
                self.runnable(),
                cs == self.chords@,
                sel == self.selected@,
                k <= sel.len(),
                total == list_cost(picked(cs, sel.subrange(0, k as int))),
                total <= k * 0x8000_0000,
            decreases sel.len() - k,
        {
            let idx = self.selected[k];
            assert(sel[k as int] < cs.len());
            proof {
                assert(picked(cs, sel.subrange(0, k + 1)).drop_last() =~= picked(cs, sel.subrange(0, k as int)));
            }
            total = total + self.chords[idx].length;
            k += 1;
        }
        assert(sel.subrange(0, k as int) =~= sel);
        total
    }
}

proof fn lemma_list_cost_concat(a: Seq<Chord>, b: Seq<Chord>)
    ensures
        list_cost(a + b) == list_cost(a) + list_cost(b),
    decreases b.len(),
{
    if b.len() > 0 {
        lemma_list_cost_concat(a, b.drop_last());
        assert((a + b).drop_last() =~= a + b.drop_last());
    } else {
        assert(a + b =~= a);
    }
}

proof fn lemma_list_cost_nonneg(s: Seq<Chord>)
    ensures
        list_cost(s) >= 0,
    decreases s.len(),
{
    if s.len() > 0 {
        lemma_list_cost_nonneg(s.drop_last());
    }
}

/// A strictly increasing run of positions starting at `idx` or later fits in
/// the list and costs at least the same number of chords taken from `idx` on.
proof fn lemma_tail_bound(cs: Seq<Chord>, u: Seq<usize>, idx: int)
    requires
        forall|p: int, q: int| 0 <= p < q < cs.len() ==> cs[p].length <= cs[q].length,
        forall|p: int| 0 <= p < u.len() ==> #[trigger] u[p] < cs.len(),
        forall|p: int, q: int| 0 <= p < q < u.len() ==> u[p] < u[q],
        u.len() > 0 ==> u[0] >= idx,
        idx >= 0,
    ensures
        forall|p: int| 0 <= p < u.len() ==> #[trigger] u[p] >= idx + p,
        idx + u.len() <= cs.len() || u.len() == 0,
        list_cost(picked(cs, u)) >= range_cost(cs, idx, u.len() as int),
    decreases u.len(),
{
    if u.len() > 0 {
        let v = u.drop_last();
        lemma_tail_bound(cs, v, idx);
        assert(picked(cs, u).drop_last() =~= picked(cs, v));
        let l = u.len() - 1;
        if l > 0 {
            assert(u[l - 1] < u[l]);
            assert(v[l - 1] == u[l - 1]);
        }
        assert forall|p: int| 0 <= p < u.len() implies #[trigger] u[p] >= idx + p by {
            if p < l {
                assert(v[p] == u[p]);
            }
        }
        assert(cs[idx + l].length <= cs[u[l] as int].length);
    }
}

/// Every complete extension of `sel` whose next position is at least `idx`
/// fits in the list and costs at least the selection plus the next chords
/// from `idx` on.
proof fn lemma_completion_bound(
    vs: Seq<Point>,
    cs: Seq<Chord>,
    needed: int,
    sel: Seq<usize>,
    start: int,
    t: Seq<usize>,
    idx: int,
)
    requires
        chord_list_ok(vs, cs),
        completes(vs, cs, needed, sel, start, t),
        sel.len() < needed,
        t[sel.len() as int] >= idx,
        idx >= 0,
    ensures
        idx + (needed - sel.len()) <= cs.len(),
        list_cost(picked(cs, t)) >= list_cost(picked(cs, sel)) + range_cost(cs, idx, needed - sel.len()),
{
    let u = t.subrange(sel.len() as int, t.len() as int);
    assert(t =~= sel + u);
    assert(picked(cs, t) =~= picked(cs, sel) + picked(cs, u));
    lemma_list_cost_concat(picked(cs, sel), picked(cs, u));
    assert forall|p: int, q: int| 0 <= p < q < u.len() implies u[p] < u[q] by {
        assert(u[p] == t[p + sel.len()]);
        assert(u[q] == t[q + sel.len()]);
    }
    assert forall|p: int| 0 <= p < u.len() implies #[trigger] u[p] < cs.len() by {
        assert(u[p] == t[p + sel.len()]);
    }
    lemma_tail_bound(cs, u, idx);
}

/// Lengths below `2^31` bound a total cost.
proof fn lemma_list_cost_bound(s: Seq<Chord>)
    requires
        forall|p: int| 0 <= p < s.len() ==> (#[trigger] s[p]).length < 0x8000_0000,
    ensures
        0 <= list_cost(s) <= s.len() * 0x8000_0000,
    decreases s.len(),
{
    if s.len() > 0 {
        lemma_list_cost_bound(s.drop_last());
    }
}


/// The chords accepted by `valid_chord` after the selection are those that
/// extend it to a selection that can still be drawn.
proof fn lemma_valid_extends(vs: Seq<Point>, cs: Seq<Chord>, sel: Seq<usize>, idx: usize)
    requires
        chord_list_usable(vs, cs),
        feasible(vs, cs, sel),
        idx < cs.len(),
        forall|p: int| 0 <= p < sel.len() ==> #[trigger] sel[p] < idx,
    ensures
        valid_chord_spec(vs, cs[idx as int].i as int, cs[idx as int].j as int, picked(cs, sel)) <==> feasible(
            vs,
            cs,
            sel.push(idx),
        ),
{
    let s2 = sel.push(idx);
    let d = picked(cs, sel);
    assert(picked(cs, s2) =~= d.push(cs[idx as int]));
    let c = cs[idx as int];
    if valid_chord_spec(vs, c.i as int, c.j as int, d) {
        assert forall|p: int, q: int| 0 <= p < q < s2.len() implies #[trigger] compatible(
            vs,
            picked(cs, s2)[q],
            picked(cs, s2)[p],
        ) by {
            if q == sel.len() {
                assert(picked(cs, s2)[p] == d[p]);
            } else {
                assert(picked(cs, s2)[p] == d[p]);
                assert(picked(cs, s2)[q] == d[q]);
            }
        }
        assert forall|q: int| 0 <= q < s2.len() implies edges_clear(vs, #[trigger] picked(cs, s2)[q]) by {
            if q < sel.len() {
                assert(picked(cs, s2)[q] == d[q]);
            }
        }
        assert forall|p: int, q: int| 0 <= p < q < s2.len() implies s2[p] < s2[q] by {
            assert(s2[p] == sel[p]);
            if q < sel.len() {
                assert(s2[q] == sel[q]);
            }
        }
    }
    if feasible(vs, cs, s2) {
        assert forall|p: int| 0 <= p < d.len() implies !same_chord(#[trigger] d[p], c.i as int, c.j as int) by {
            assert(compatible(vs, picked(cs, s2)[sel.len() as int], picked(cs, s2)[p]));
        }
        assert forall|p: int| 0 <= p < d.len() implies clear_of(vs, c.i as int, c.j as int, (#[trigger] d[p]).i as int, d[p].j as int) by {
            assert(compatible(vs, picked(cs, s2)[sel.len() as int], picked(cs, s2)[p]));
        }
        assert(edges_clear(vs, picked(cs, s2)[sel.len() as int]));
    }
}

/// Main backtracking entry point.
/// Explores all subsets of chords, each considered at most once (iterate in order).
/// `start` is the index in `chords` from which to consider next chords.
///
/// The best cost, best selection and call count afterwards are those that
/// `search` gives. Whatever the state, the search leaves the vertices, the
/// chord list, the number needed and the selection as they were, never
/// raises the best cost, replaces the best selection only together with a
/// lower cost and then records a selection of `needed` chords of that total
/// length, and makes at most one call per subset of at most the missing
/// number of chords from `start` on. From a state set up as the top-level
/// call sets it up (the selection can be drawn and lies before `start`),
/// whatever the recorded best, the state stays so, a drawable recorded best
/// stays drawable, and a lowered best cost is that of a complete extension
/// of the selection from `start` on; when the chord list is moreover sorted
/// by length, the best cost afterwards is at most that of every such
/// extension.
pub fn backtrack(state: &mut BacktrackState, start: usize)
    requires
        old(state).runnable(),
        old(state).selected@.len() == old(state).needed || start <= old(state).chords@.len(),
    ensures
        (final(state).best_cost as int, final(state).best_solution@, final(state).call_count as int) == search(
            old(state).vertices@,
            old(state).chords@,
            old(state).needed as int,
            old(state).selected@,
            start as int,
            old(state).best_cost as int,
            old(state).best_solution@,
            old(state).call_count as int,
        ),
        final(state).runnable(),
        final(state).vertices@ == old(state).vertices@,
        final(state).chords@ == old(state).chords@,
        final(state).needed == old(state).needed,
        final(state).selected@ == old(state).selected@,
        final(state).best_cost <= old(state).best_cost,
        final(state).best_cost < old(state).best_cost || final(state).best_solution@ == old(state).best_solution@,
        final(state).best_cost < old(state).best_cost ==> final(state).best_recorded(),
        old(state).best_recorded() ==> final(state).best_recorded(),
        final(state).call_count > old(state).call_count || final(state).call_count == u64::MAX,
        final(state).call_count <= old(state).call_count + subsets_upto(
            old(state).chords@.len() - start,
            old(state).needed - old(state).selected@.len(),
        ),
        old(state).ready(start as int) ==> final(state).ready(start as int),
        old(state).ready(start as int) && old(state).best_drawable() ==> final(state).best_drawable(),
        old(state).ready(start as int) && chord_list_ok(old(state).vertices@, old(state).chords@) ==> forall|
            t: Seq<usize>,
        |
            #[trigger] completes(
                old(state).vertices@,
                old(state).chords@,
                old(state).needed as int,
                old(state).selected@,
                start as int,
                t,
            ) ==> final(state).best_cost <= list_cost(picked(old(state).chords@, t)),
        old(state).ready(start as int) && final(state).best_cost < old(state).best_cost ==> completes(
            old(state).vertices@,
            old(state).chords@,
            old(state).needed as int,
            old(state).selected@,
            start as int,
            final(state).best_solution@,
        ),
    decreases old(state).chords@.len() - start,
{
    let ghost vs = state.vertices@;
    let ghost cs = state.chords@;
    let ghost sel = state.selected@;
    let ghost needed = state.needed as int;
    let ghost best0 = state.best_cost;
    let ghost sol0 = state.best_solution@;
    let ghost calls0 = state.call_count;
    let ghost rdy = state.ready(start as int);
    let ghost srt = chord_list_ok(vs, cs);
    let ghost target = search(vs, cs, needed, sel, start as int, best0 as int, sol0, calls0 as int);

    if state.call_count < u64::MAX {
        state.call_count = state.call_count + 1;
    }

    // === Pruning ===

    // 1. Already have enough chords: for a convex polygon, exactly n-3 mutually
    //    non-crossing chords always form a complete triangulation.
    if state.selected.len() == state.needed {
        let cost = state.current_cost();
        if cost < state.best_cost {
            state.best_cost = cost;
            state.best_solution = state.selected.clone();
            assert(state.best_solution@ =~= sel);
        }
        proof {
            if rdy {
                assert(sel.subrange(0, sel.len() as int) =~= sel);
                assert forall|t: Seq<usize>| #[trigger] completes(vs, cs, needed, sel, start as int, t) implies state.best_cost
                    <= list_cost(picked(cs, t)) by {
                    assert(t =~= t.subrange(0, sel.len() as int));
                }
            }
        }
        return;
    }

    let remaining_chords = state.chords.len() - start;
    let still_needed = state.needed - state.selected.len();
    proof {
        lemma_subsets_by_first(remaining_chords as int, still_needed as int);
    }

    // 2. Not enough chords left to complete a triangulation
    if remaining_chords < still_needed {
        proof {
            if rdy && srt {
                assert forall|t: Seq<usize>| #[trigger] completes(vs, cs, needed, sel, start as int, t) implies state.best_cost
                    <= list_cost(picked(cs, t)) by {
                    lemma_completion_bound(vs, cs, needed, sel, start as int, t, start as int);
                }
            }
        }
        return;
    }

    // 3. Current cost already exceeds best known (branch-and-bound)
    let current = state.current_cost();
    proof {
        assert forall|p: int| 0 <= p < picked(cs, sel).len() implies (#[trigger] picked(cs, sel)[p]).length
            < 0x8000_0000 by {
            assert(sel[p] < cs.len());
        }
        lemma_list_cost_bound(picked(cs, sel));
    }
    if current >= state.best_cost {
        proof {
            if rdy && srt {
                assert forall|t: Seq<usize>| #[trigger] completes(vs, cs, needed, sel, start as int, t) implies state.best_cost
                    <= list_cost(picked(cs, t)) by {
                    lemma_completion_bound(vs, cs, needed, sel, start as int, t, start as int);
                    lemma_list_cost_nonneg(picked(cs, t.subrange(sel.len() as int, t.len() as int)));
                    assert(range_cost(cs, start as int, needed - sel.len()) >= 0) by {
                        lemma_range_cost_nonneg(cs, start as int, needed - sel.len());
                    }
                }
            }
        }
        return;
    }

    // The chords drawn so far
    let mut drawn_chords: Vec<Chord> = Vec::new();
    for p in 0..state.selected.len()
        invariant
            state.runnable(),
            cs == state.chords@,
            sel == state.selected@,
            drawn_chords@ == picked(cs, sel.subrange(0, p as int)),
    {
        let idx = state.selected[p];
        assert(sel[p as int] < cs.len());
        drawn_chords.push(state.chords[idx]);
        assert(drawn_chords@ =~= picked(cs, sel.subrange(0, p + 1)));
    }
    assert(sel.subrange(0, sel.len() as int) =~= sel);
    assert(chords_within(drawn_chords@, vs.len() as int)) by {
        assert forall|p: int| 0 <= p < drawn_chords@.len() implies (#[trigger] drawn_chords@[p]).i < vs.len()
            && drawn_chords@[p].j < vs.len() by {
            assert(sel[p] < cs.len());
        }
    }

    // Explore: try including each remaining chord in turn, or implicitly skip it.
    let len = state.chords.len();
    let mut idx = start;
    let mut stop = false;
    while idx < len && !stop
        invariant
            state.runnable(),
            vs == state.vertices@,
            cs == state.chords@,
            cs == old(state).chords@,
            sel == state.selected@,
            needed == state.needed,
            len == cs.len(),
            start <= idx <= len,
            sel.len() < needed,
            still_needed == needed - sel.len(),
            remaining_chords == len - start,
            current == list_cost(picked(cs, sel)),
            current <= sel.len() * 0x8000_0000,
            drawn_chords@ == picked(cs, sel),
            chords_within(drawn_chords@, vs.len() as int),
            state.best_cost <= best0,
            state.best_cost < best0 || state.best_solution@ == sol0,
            state.best_cost < best0 ==> state.best_recorded(),
            srt == chord_list_ok(vs, cs),
            rdy ==> feasible(vs, cs, sel),
            rdy ==> forall|p: int| 0 <= p < sel.len() ==> #[trigger] sel[p] < start,
            rdy && state.best_cost < best0 ==> completes(vs, cs, needed, sel, start as int, state.best_solution@),
            rdy && srt ==> forall|t: Seq<usize>|
                #[trigger] completes(vs, cs, needed, sel, start as int, t) && t[sel.len() as int] < idx
                    ==> state.best_cost <= list_cost(picked(cs, t)),
            rdy && srt && stop ==> forall|t: Seq<usize>|
                #[trigger] completes(vs, cs, needed, sel, start as int, t) ==> state.best_cost <= list_cost(
                    picked(cs, t),
                ),
            !stop ==> search_from(
                vs,
                cs,
                needed,
                sel,
                idx as int,
                state.best_cost as int,
                state.best_solution@,
                state.call_count as int,
            ) == target,
            stop ==> (state.best_cost as int, state.best_solution@, state.call_count as int) == target,
            state.call_count > calls0 || state.call_count == u64::MAX,
            state.call_count + subsets_sum(len - idx, still_needed - 1) <= calls0 + 1 + subsets_sum(
                len - start,
                still_needed - 1,
            ),
        decreases len - idx, (if stop { 0int } else { 1int }),
    {
        // Since chords are sorted by length ascending, the cheapest possible
        // completion uses the next `still_needed` chords. If even that lower
        // bound reaches the best cost, stop the loop entirely.
        if still_needed > len - idx {
            proof {
                if rdy && srt {
                    assert forall|t: Seq<usize>| #[trigger] completes(vs, cs, needed, sel, start as int, t) implies state.best_cost
                        <= list_cost(picked(cs, t)) by {
                        if t[sel.len() as int] >= idx {
                            lemma_completion_bound(vs, cs, needed, sel, start as int, t, idx as int);
                        }
                    }
                }
            }
            stop = true;
        } else {
            let mut lower_bound = current;
            let mut k: usize = 0;
            while k < still_needed
                invariant
                    state.runnable(),
                    cs == state.chords@,
                    len == cs.len(),
                    idx + still_needed <= len,
                    sel.len() + still_needed <= needed,
                    needed < 0xffff_ffff,
                    k <= still_needed,
                    current <= sel.len() * 0x8000_0000,
                    lower_bound == current + range_cost(cs, idx as int, k as int),
                    lower_bound <= (sel.len() + k) * 0x8000_0000,
                decreases still_needed - k,
            {
                lower_bound = lower_bound + state.chords[idx + k].length;
                k += 1;
            }
            if lower_bound >= state.best_cost {
                proof {
                    if rdy && srt {
                        assert forall|t: Seq<usize>| #[trigger] completes(vs, cs, needed, sel, start as int, t) implies state.best_cost
                            <= list_cost(picked(cs, t)) by {
                            if t[sel.len() as int] >= idx {
                                lemma_completion_bound(vs, cs, needed, sel, start as int, t, idx as int);
                            }
                        }
                    }
                }
                stop = true;
            } else {
                let chord = state.chords[idx];
                let ghost best1 = state.best_cost;
                proof {
                    if rdy {
                        lemma_valid_extends(vs, cs, sel, idx);
                    }
                    assert(subsets_sum(len - idx, still_needed - 1) == subsets_sum(len - idx - 1, still_needed - 1)
                        + subsets_upto(len - idx - 1, still_needed - 1));
                }
                if valid_chord(chord.i, chord.j, drawn_chords.as_slice(), state.vertices) {
                    state.selected.push(idx);
                    proof {
                        if rdy {
                            assert forall|p: int| 0 <= p < state.selected@.len() implies #[trigger] state.selected@[p]
                                < idx + 1 by {
                                if p < sel.len() {
                                    assert(state.selected@[p] == sel[p]);
                                }
                            }
                            assert(state.ready(idx + 1));
                        }
                    }
                    backtrack(state, idx + 1);
                    state.selected.pop();
                    proof {
                        if rdy {
                            let s2 = sel.push(idx);
                            assert(s2.subrange(0, sel.len() as int) =~= sel);
                            assert forall|t: Seq<usize>| #[trigger] completes(vs, cs, needed, sel, start as int, t)
                                && t[sel.len() as int] == idx implies completes(vs, cs, needed, s2, idx + 1, t) by {
                                assert(t.subrange(0, s2.len() as int) =~= t.subrange(0, sel.len() as int).push(idx));
                                assert forall|p: int| s2.len() <= p < t.len() implies #[trigger] t[p] >= idx + 1 by {
                                    assert(t[sel.len() as int] < t[p]);
                                }
                            }
                            if state.best_cost < best1 {
                                let b = state.best_solution@;
                                assert(b.subrange(0, sel.len() as int) =~= b.subrange(0, s2.len() as int).subrange(
                                    0,
                                    sel.len() as int,
                                ));
                                assert forall|p: int| sel.len() <= p < b.len() implies #[trigger] b[p] >= start by {
                                    if p > sel.len() {
                                        assert(b[p] >= idx + 1);
                                    } else {
                                        assert(b.subrange(0, s2.len() as int)[p] == s2[p]);
                                    }
                                }
                            }
                        }
                    }
                } else {
                    proof {
                        if rdy {
                            assert forall|t: Seq<usize>| #[trigger] completes(vs, cs, needed, sel, start as int, t)
                                implies t[sel.len() as int] != idx by {
                                if t[sel.len() as int] == idx {
                                    let s2 = sel.push(idx);
                                    let t2 = t.subrange(0, s2.len() as int);
                                    assert(t2 =~= s2) by {
                                        assert(t.subrange(0, sel.len() as int) == sel);
                                        assert forall|p: int| 0 <= p < sel.len() implies t2[p] == s2[p] by {
                                            assert(t.subrange(0, sel.len() as int)[p] == t[p]);
                                        }
                                    }
                                    assert(picked(cs, t2) =~= picked(cs, t).subrange(0, s2.len() as int));
                                    assert(feasible(vs, cs, s2));
                                }
                            }
                        }
                    }
                }
                idx += 1;
            }
        }
    }
    proof {
        if rdy && srt && !stop {
            assert forall|t: Seq<usize>| #[trigger] completes(vs, cs, needed, sel, start as int, t) implies state.best_cost
                <= list_cost(picked(cs, t)) by {
                assert(t[sel.len() as int] < cs.len());
            }
        }
    }
}

proof fn lemma_range_cost_nonneg(cs: Seq<Chord>, idx: int, k: int)
    ensures
        range_cost(cs, idx, k) >= 0,
    decreases k,
{
    if k > 0 {
        lemma_range_cost_nonneg(cs, idx, k - 1);
    }
}


proof fn lemma_list_cost_filter_split(s: Seq<Chord>, p: spec_fn(Chord) -> bool, q: spec_fn(Chord) -> bool)
    requires
        forall|c: Chord| #[trigger] q(c) == !p(c),
    ensures
        s.filter(p).len() + s.filter(q).len() == s.len(),
        list_cost(s.filter(p)) + list_cost(s.filter(q)) == list_cost(s),
    decreases s.len(),
{
    reveal(Seq::filter);
    if s.len() > 0 {
        let r = s.drop_last();
        let c = s.last();
        lemma_list_cost_filter_split(r, p, q);
        assert(r.filter(p).push(c).drop_last() =~= r.filter(p));
        assert(r.filter(q).push(c).drop_last() =~= r.filter(q));
        assert(s.filter(p) == (if p(c) { r.filter(p).push(c) } else { r.filter(p) }));
        assert(s.filter(q) == (if q(c) { r.filter(q).push(c) } else { r.filter(q) }));
    }
}

/// Two lists without repeats that hold the same chords have the same length
/// and the same total length.
proof fn lemma_same_members(a: Seq<Chord>, b: Seq<Chord>)
    requires
        a.no_duplicates(),
        b.no_duplicates(),
        forall|x: Chord| a.contains(x) <==> #[trigger] b.contains(x),
    ensures
        a.len() == b.len(),
        list_cost(a) == list_cost(b),
    decreases a.len(),
{
    if a.len() == 0 {
        if b.len() > 0 {
            assert(b.contains(b[0]));
        }
    } else {
        let x = a.last();
        let a2 = a.drop_last();
        assert(a.contains(x));
        let pn = |c: Chord| !(c == x);
        let pe = |c: Chord| c == x;
        let b2 = b.filter(pn);
        lemma_filter_no_dup(b, pn);
        lemma_filter_single(b, pe, x);
        lemma_list_cost_filter_split(b, pn, pe);
        assert(a2.no_duplicates());
        assert forall|y: Chord| a2.contains(y) <==> #[trigger] b2.contains(y) by {
            lemma_filter_contains_iff(b, pn, y);
            if a2.contains(y) {
                let k = choose|k: int| 0 <= k < a2.len() && a2[k] == y;
                assert(a[k] == y);
                assert(y != x);
            }
            if a.contains(y) && y != x {
                let k = choose|k: int| 0 <= k < a.len() && a[k] == y;
                assert(a2[k] == y);
            }
        }
        lemma_same_members(a2, b2);
        assert(seq![x].drop_last() =~= Seq::<Chord>::empty());
        assert(list_cost(Seq::<Chord>::empty()) == 0);
        assert(seq![x].last() == x);
        assert(list_cost(seq![x]) == x.length);
    }
}

/// The positions in `cs` of the chords of a drawable list `s` form a
/// feasible selection of the same size and total length.
proof fn lemma_positions_of(vs: Seq<Point>, cs: Seq<Chord>, s: Seq<Chord>) -> (t: Seq<usize>)
    requires
        chords_sorted(cs),
        cs.len() <= usize::MAX,
        forall|q: int| 0 <= q < s.len() ==> cs.contains(#[trigger] s[q]),
        drawable(vs, s),
    ensures
        feasible(vs, cs, t),
        t.len() == s.len(),
        list_cost(picked(cs, t)) == list_cost(s),
{
    let all = Seq::new(cs.len(), |p: int| p as usize);
    let keep = |p: usize| s.contains(cs[p as int]);
    let t = all.filter(keep);
    lemma_filter_increasing(all, keep);
    let pk = picked(cs, t);
    assert forall|p: int| 0 <= p < t.len() implies #[trigger] t[p] < cs.len() && s.contains(cs[t[p] as int]) by {
        assert(t.contains(t[p]));
        lemma_filter_contains_iff(all, keep, t[p]);
    }
    assert(s.no_duplicates()) by {
        assert forall|i: int, j: int| 0 <= i < s.len() && 0 <= j < s.len() && i != j implies s[i] != s[j] by {
            if i < j {
                assert(compatible(vs, s[j], s[i]));
            } else {
                assert(compatible(vs, s[i], s[j]));
            }
        }
    }
    assert(pk.no_duplicates()) by {
        assert forall|i: int, j: int| 0 <= i < pk.len() && 0 <= j < pk.len() && i != j implies pk[i] != pk[j] by {
            if i < j {
                assert(chord_before(cs[t[i] as int], cs[t[j] as int]));
            } else {
                assert(chord_before(cs[t[j] as int], cs[t[i] as int]));
            }
        }
    }
    assert forall|x: Chord| pk.contains(x) <==> #[trigger] s.contains(x) by {
        if pk.contains(x) {
            let k = choose|k: int| 0 <= k < pk.len() && pk[k] == x;
            assert(s.contains(cs[t[k] as int]));
        }
        if s.contains(x) {
            let q = choose|q: int| 0 <= q < s.len() && s[q] == x;
            assert(cs.contains(s[q]));
            let p = choose|p: int| 0 <= p < cs.len() && cs[p] == x;
            assert(all[p] == p as usize);
            assert(keep(all[p]));
            lemma_filter_contains_iff(all, keep, all[p]);
            let k = choose|k: int| 0 <= k < t.len() && t[k] == all[p];
            assert(pk[k] == x);
        }
    }
    lemma_same_members(pk, s);
    // every pair of picked chords is compatible, in the order of the positions
    assert forall|p: int, q: int| 0 <= p < q < pk.len() implies #[trigger] compatible(vs, pk[q], pk[p]) by {
        assert(pk.contains(pk[p]));
        assert(pk.contains(pk[q]));
        assert(s.contains(pk[p]));
        assert(s.contains(pk[q]));
        let i = choose|i: int| 0 <= i < s.len() && s[i] == pk[p];
        let j = choose|j: int| 0 <= j < s.len() && s[j] == pk[q];
        assert(i != j);
        if i < j {
            assert(compatible(vs, s[j], s[i]));
        } else {
            assert(compatible(vs, s[i], s[j]));
        }
    }
    assert forall|q: int| 0 <= q < pk.len() implies edges_clear(vs, #[trigger] pk[q]) by {
        assert(pk.contains(pk[q]));
        assert(s.contains(pk[q]));
        let j = choose|j: int| 0 <= j < s.len() && s[j] == pk[q];
        assert(edges_clear(vs, s[j]));
    }
    t
}

/// What the search gives on the polygon `vs` and its chord list `cs` when
/// started from the top: no selection, position 0, no best cost yet and no
/// call made.
pub open spec fn top_search(vs: Seq<Point>, cs: Seq<Chord>) -> (int, Seq<usize>, int) {
    search(vs, cs, vs.len() - 3, Seq::empty(), 0, u64::MAX as int, Seq::empty(), 0)
}

/// Find the minimum triangulation via backtracking.
/// Also returns the recursive call count for complexity analysis.
pub fn min_triangulation_backtrack_verbose(vertices: &[Point]) -> (r: (u64, Vec<Chord>, u64))
    requires
        3 <= vertices@.len() < 0xffff_ffff,
        all_in_range(vertices@),
    ensures
        forall|s: Seq<Chord>|
            s.len() == vertices@.len() - 3 && (forall|q: int| 0 <= q < s.len() ==> is_polygon_chord(vertices@, #[trigger] s[q]))
                && #[trigger] drawable(vertices@, s) ==> r.0 <= list_cost(s),
        r.0 < u64::MAX ==> {
            &&& r.1@.len() == vertices@.len() - 3
            &&& forall|q: int| 0 <= q < r.1@.len() ==> is_polygon_chord(vertices@, #[trigger] r.1@[q])
            &&& drawable(vertices@, r.1@)
            &&& list_cost(r.1@) == r.0
        },
        r.0 == u64::MAX ==> r.1@.len() == 0,
        chords_sorted(r.1@),
        forall|cs: Seq<Chord>|
            #[trigger] is_chord_list(vertices@, cs) ==> r.0 == top_search(vertices@, cs).0 && r.1@ == picked(
                cs,
                top_search(vertices@, cs).1,
            ) && r.2 == top_search(vertices@, cs).2,
        1 <= r.2 <= subsets_upto(vertices@.len() * (vertices@.len() - 3) / 2, vertices@.len() - 3),
{
    let ghost vs = vertices@;
    let chords = all_chords(vertices);
    let ghost cs = chords@;
    assert(cs.len() == chords.len());
    proof {
        assert forall|p: int| 0 <= p < cs.len() implies (#[trigger] cs[p]).length < 0x8000_0000 by {
            assert(is_polygon_chord(vs, cs[p]));
            lemma_seg_len_bound(vs, cs[p].i as int, cs[p].j as int);
        }
        assert forall|p: int, q: int| 0 <= p < q < cs.len() implies cs[p].length <= cs[q].length by {
            assert(chord_before(cs[p], cs[q]));
        }
        assert(chords_within(cs, vs.len() as int)) by {
            assert forall|p: int| 0 <= p < cs.len() implies (#[trigger] cs[p]).i < vs.len() && cs[p].j < vs.len() by {
                assert(is_polygon_chord(vs, cs[p]));
            }
        }
    }
    let mut state = BacktrackState::new(vertices, chords.as_slice());
    proof {
        assert(state.selected@ =~= Seq::<usize>::empty());
        assert(state.best_solution@ =~= Seq::<usize>::empty());
    }
    backtrack(&mut state, 0);
    let ghost best = state.best_solution@;
    let mut solution: Vec<Chord> = Vec::new();
    let mut p: usize = 0;
    while p < state.best_solution.len()
        invariant
            state.wf(),
            state.chords@ == cs,
            chords@ == cs,
            cs.len() <= usize::MAX,
            best == state.best_solution@,
            state.best_cost < u64::MAX ==> feasible(vs, cs, best),
            state.best_cost == u64::MAX ==> best.len() == 0,
            p <= best.len(),
            solution@ == picked(cs, best.subrange(0, p as int)),
        decreases best.len() - p,
    {
        let idx = state.best_solution[p];
        assert(best[p as int] < cs.len());
        solution.push(chords[idx]);
        assert(solution@ =~= picked(cs, best.subrange(0, p + 1)));
        p += 1;
    }
    proof {
        assert(best.subrange(0, best.len() as int) =~= best);
        assert forall|s: Seq<Chord>|
            s.len() == vs.len() - 3 && (forall|q: int| 0 <= q < s.len() ==> is_polygon_chord(vs, #[trigger] s[q]))
                && #[trigger] drawable(vs, s) implies state.best_cost <= list_cost(s) by {
            assert forall|q: int| 0 <= q < s.len() implies cs.contains(#[trigger] s[q]) by {
                assert(is_polygon_chord(vs, s[q]));
                assert(lists_chord(cs, s[q].i as int, s[q].j as int));
                let k = choose|k: int| 0 <= k < cs.len() && cs[k].i == s[q].i && cs[k].j == s[q].j;
                assert(is_polygon_chord(vs, cs[k]));
                assert(cs[k] == s[q]);
            }
            let t = lemma_positions_of(vs, cs, s);
            assert(t.subrange(0, 0) =~= Seq::<usize>::empty());
            assert(completes(vs, cs, (vs.len() - 3) as int, Seq::<usize>::empty(), 0, t));
        }
        if state.best_cost < u64::MAX {
            assert forall|q: int| 0 <= q < solution@.len() implies is_polygon_chord(vs, #[trigger] solution@[q]) by {
                assert(best[q] < cs.len());
                assert(is_polygon_chord(vs, cs[best[q] as int]));
            }
            assert forall|p: int, q: int| 0 <= p < q < solution@.len() implies chord_before(
                solution@[p],
                solution@[q],
            ) by {
                assert(best[p] < best[q]);
                assert(best[q] < cs.len());
            }
        }
        assert(cs.len() == vs.len() * (vs.len() - 3) / 2);
        assert(is_chord_list(vs, cs));
        assert forall|cs2: Seq<Chord>| #[trigger] is_chord_list(vs, cs2) implies state.best_cost == top_search(vs, cs2).0
            && solution@ == picked(cs2, top_search(vs, cs2).1) && state.call_count == top_search(vs, cs2).2 by {
            lemma_chord_list_unique(vs, cs2, cs);
        }
    }
    (state.best_cost, solution, state.call_count)
}

} // verus!
