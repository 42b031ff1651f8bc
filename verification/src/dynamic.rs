use vstd::prelude::*;

use crate::decomposition::{chords_by, choices_ok, lemma_chords_by_shape, lemma_small_mod};
use crate::polygon::{Point, all_in_range, distance, max_len};
use crate::triangulation::{
    all_chords_in, chords_cost, is_best_split, is_triangulation, lemma_chords_cost_concat,
    lemma_min_split, lemma_opt_bound, lemma_seg_len_bound, min_split, non_crossing, opt, seg_len,
    split_cost,
};

verus! {

/// Result of the dynamic programme.
///
/// T[i][t] = minimum chord cost of triangulating the sub-polygon
/// s_i, s_{i+1}, ..., s_{i+t-1} (indices mod n), its base (s_i, s_{i+t-1})
/// not counted. For t >= 3 it is the minimum over 1 <= k <= t-2 of
///   [k >= 2] d(s_i, s_{i+k}) + [k <= t-3] d(s_{i+k}, s_{i+t-1})
///     + T[i][k+1] + T[i+k][t-k],
/// and T[i][1] = T[i][2] = 0.
pub struct DpResult {
    pub cost: u64,
    /// Which split point k was chosen at each (i, t), for reconstructing the triangulation
    pub choice: Vec<Vec<usize>>,
    pub n: usize,
}

impl DpResult {
    /// The choice table has `n` rows of `n + 1` entries, and each entry for a
    /// sub-polygon of at least three vertices is a valid split point.
    pub open spec fn wf(&self) -> bool {
        choice_table_ok(self.choice@, self.n as int)
    }
}

/// `ch` has `n` rows of `n + 1` entries, and each entry for a sub-polygon of
/// at least three vertices is a valid split point.
pub open spec fn choice_table_ok(ch: Seq<Vec<usize>>, n: int) -> bool {
    &&& ch.len() == n
    &&& forall|i: int| 0 <= i < n ==> (#[trigger] ch[i])@.len() == n + 1
    &&& forall|i: int, t: int| 0 <= i < n && 3 <= t <= n ==> 1 <= #[trigger] ch[i]@[t] <= t - 2
}

/// Table of all segment lengths between vertices.
fn distance_table(vertices: &[Point]) -> (d: Vec<Vec<u64>>)
    requires
        all_in_range(vertices@),
    ensures
        d@.len() == vertices@.len(),
        forall|a: int| 0 <= a < vertices@.len() ==> (#[trigger] d@[a])@.len() == vertices@.len(),
        forall|a: int, b: int|
            0 <= a < vertices@.len() && 0 <= b < vertices@.len() ==> #[trigger] d@[a]@[b] == seg_len(
                vertices@,
                a,
                b,
            ),
{
    let n = vertices.len();
    let mut d: Vec<Vec<u64>> = Vec::new();
    for i in 0..n
        invariant
            n == vertices@.len(),
            all_in_range(vertices@),
            d@.len() == i,
            forall|a: int| 0 <= a < i ==> (#[trigger] d@[a])@.len() == n,
            forall|a: int, b: int|
                0 <= a < i && 0 <= b < n ==> #[trigger] d@[a]@[b] == seg_len(vertices@, a, b),
    {
        let mut row: Vec<u64> = Vec::new();
        for j in 0..n
            invariant
                n == vertices@.len(),
                all_in_range(vertices@),
                i < n,
                row@.len() == j,
                forall|b: int| 0 <= b < j ==> #[trigger] row@[b] == seg_len(vertices@, i as int, b),
        {
            row.push(distance(&vertices[i], &vertices[j]));
        }
        d.push(row);
    }
    d
}

/// The rows `0 .. t` of the table by sub-polygon size hold the optimum.
pub open spec fn rows_hold_opt(vs: Seq<Point>, tab: Seq<Vec<u64>>, t: int) -> bool {
    &&& tab.len() >= t
    &&& forall|t2: int| 0 <= t2 < t ==> (#[trigger] tab[t2])@.len() == vs.len()
    &&& forall|t2: int, i: int|
        0 <= t2 < t && 0 <= i < vs.len() ==> #[trigger] tab[t2]@[i] == opt(vs, i, t2)
}

/// `(i + k) % n`, without overflow.
fn wrap_add(i: usize, k: usize, n: usize) -> (r: usize)
    requires
        i < n,
        k < n,
    ensures
        r == (i + k) % (n as int),
        r < n,
{
    if k >= n - i {
        let r = k - (n - i);
        assert((i + k) % (n as int) == (i + k) - n) by (nonlinear_arith)
            requires
                n <= i + k < 2 * n,
        ;
        r
    } else {
        assert((i + k) % (n as int) == i + k) by (nonlinear_arith)
            requires
                0 <= i + k < n,
        ;
        i + k
    }
}

/// Cost of splitting `(i, t)` at `k`, read from the distance table and the
/// optimal costs of smaller sub-polygons.
fn split_value(
    vertices: &[Point],
    dist: &Vec<Vec<u64>>,
    tab: &Vec<Vec<u64>>,
    i: usize,
    t: usize,
    k: usize,
) -> (c: u64)
    requires
        all_in_range(vertices@),
        0 < vertices@.len() < 0xffff_ffff,
        i < vertices@.len(),
        3 <= t <= vertices@.len(),
        1 <= k <= t - 2,
        dist@.len() == vertices@.len(),
        forall|a: int| 0 <= a < vertices@.len() ==> (#[trigger] dist@[a])@.len() == vertices@.len(),
        forall|a: int, b: int|
            0 <= a < vertices@.len() && 0 <= b < vertices@.len() ==> #[trigger] dist@[a]@[b]
                == seg_len(vertices@, a, b),
        rows_hold_opt(vertices@, tab@, t as int),
    ensures
        c == split_cost(vertices@, i as int, t as int, k as int),
{
    let ghost vs = vertices@;
    let n = vertices.len();
    let ik = wrap_add(i, k, n);
    let it1 = wrap_add(i, t - 1, n);
    let chord_ik = if k >= 2 { dist[i][ik] } else { 0 };
    let chord_ikt1 = if k <= t - 3 { dist[ik][it1] } else { 0 };
    let a = tab[k + 1][i];
    let b = tab[t - k][ik];
    proof {
        lemma_seg_len_bound(vs, i as int, ik as int);
        lemma_seg_len_bound(vs, ik as int, it1 as int);
        lemma_opt_bound(vs, i as int, k + 1);
        lemma_opt_bound(vs, ik as int, t - k);
        let m = max_len() as int;
        assert((k + 1) * m + (t - k) * m == (t + 1) * m) by (nonlinear_arith);
        assert((t + 1) * m <= 0x1_0000_0000 * m) by (nonlinear_arith)
            requires
                t + 1 <= 0x1_0000_0000,
                m >= 0,
        ;
    }
    chord_ik + chord_ikt1 + a + b
}

/// Minimum-weight triangulation by dynamic programming, O(n^3).
pub fn min_triangulation_dp(vertices: &[Point]) -> (r: DpResult)
    requires
        1 <= vertices@.len() < 0xffff_ffff,
        all_in_range(vertices@),
    ensures
        r.n == vertices@.len(),
        r.wf(),
        r.cost == opt(vertices@, 0, r.n as int),
        forall|i: int, t: int|
            0 <= i < r.n && 3 <= t <= r.n ==> is_best_split(
                vertices@,
                i,
                t,
                #[trigger] r.choice@[i]@[t] as int,
            ),
        forall|i: int, t: int|
            0 <= i < r.n && 0 <= t < 3 && t <= r.n ==> #[trigger] r.choice@[i]@[t] == 0,
{
    let ghost vs = vertices@;
    let n = vertices.len();
    let dist = distance_table(vertices);

    // tab[t][i] = T[i][t], computed by increasing sub-polygon size t
    let mut tab: Vec<Vec<u64>> = Vec::new();
    let mut by_size: Vec<Vec<usize>> = Vec::new();

    // Base cases: sub-polygons of fewer than three vertices cost nothing
    let mut t: usize = 0;
    while t < 3 && t <= n
        invariant
            n == vs.len(),
            vs == vertices@,
            t <= 3,
            t <= n + 1,
            tab@.len() == t,
            by_size@.len() == t,
            rows_hold_opt(vs, tab@, t as int),
            forall|t2: int| 0 <= t2 < t ==> (#[trigger] by_size@[t2])@.len() == n,
            forall|t2: int, i: int| 0 <= t2 < t && 0 <= i < n ==> #[trigger] by_size@[t2]@[i] == 0,
        decreases 3 - t,
    {
        let row = vec![0u64; n];
        let crow = vec![0usize; n];
        proof {
            assert forall|i: int| 0 <= i < n implies row@[i] == opt(vs, i, t as int) by {
                assert(row@[i] == 0);
            }
        }
        tab.push(row);
        by_size.push(crow);
        t += 1;
    }

    // Fill by increasing sub-problem size t
    while t <= n
        invariant
            n == vs.len(),
            vs == vertices@,
            1 <= n < 0xffff_ffff,
            all_in_range(vs),
            t <= n + 1,
            t >= 3 || t == n + 1,
            tab@.len() == t,
            by_size@.len() == t,
            dist@.len() == n,
            forall|a: int| 0 <= a < n ==> (#[trigger] dist@[a])@.len() == n,
            forall|a: int, b: int| 0 <= a < n && 0 <= b < n ==> #[trigger] dist@[a]@[b] == seg_len(vs, a, b),
            rows_hold_opt(vs, tab@, t as int),
            forall|t2: int| 0 <= t2 < t ==> (#[trigger] by_size@[t2])@.len() == n,
            forall|t2: int, i: int|
                0 <= t2 < t && 3 <= t2 && 0 <= i < n ==> is_best_split(
                    vs,
                    i,
                    t2,
                    #[trigger] by_size@[t2]@[i] as int,
                ),
            forall|t2: int, i: int|
                0 <= t2 < t && t2 < 3 && 0 <= i < n ==> #[trigger] by_size@[t2]@[i] == 0,
        decreases n + 1 - t,
    {
        let mut row: Vec<u64> = Vec::new();
        let mut crow: Vec<usize> = Vec::new();
        let mut i: usize = 0;
        while i < n
            invariant
                n == vs.len(),
                vs == vertices@,
                1 <= n < 0xffff_ffff,
                all_in_range(vs),
                3 <= t <= n,
                i <= n,
                dist@.len() == n,
                forall|a: int| 0 <= a < n ==> (#[trigger] dist@[a])@.len() == n,
                forall|a: int, b: int|
                    0 <= a < n && 0 <= b < n ==> #[trigger] dist@[a]@[b] == seg_len(vs, a, b),
                rows_hold_opt(vs, tab@, t as int),
                row@.len() == i,
                crow@.len() == i,
                forall|i2: int| 0 <= i2 < i ==> #[trigger] row@[i2] == opt(vs, i2, t as int),
                forall|i2: int| 0 <= i2 < i ==> is_best_split(vs, i2, t as int, #[trigger] crow@[i2] as int),
            decreases n - i,
        {
            // The triangle formed is (s_i, s_{i+k}, s_{i+t-1}), 1 <= k <= t-2
            let mut best = split_value(vertices, &dist, &tab, i, t, 1);
            let mut best_k: usize = 1;
            let mut k: usize = 2;
            while k <= t - 2
                invariant
                    n == vs.len(),
                    vs == vertices@,
                    1 <= n < 0xffff_ffff,
                    all_in_range(vs),
                    3 <= t <= n,
                    i < n,
                    2 <= k <= t - 1,
                    1 <= best_k < k,
                    dist@.len() == n,
                    forall|a: int| 0 <= a < n ==> (#[trigger] dist@[a])@.len() == n,
                    forall|a: int, b: int|
                        0 <= a < n && 0 <= b < n ==> #[trigger] dist@[a]@[b] == seg_len(vs, a, b),
                    rows_hold_opt(vs, tab@, t as int),
                    best == min_split(vs, i as int, t as int, k - 1),
                    split_cost(vs, i as int, t as int, best_k as int) == best,
                    forall|k2: int| 1 <= k2 < best_k ==> #[trigger] split_cost(vs, i as int, t as int, k2) > best,
                decreases t - k,
            {
                let cost = split_value(vertices, &dist, &tab, i, t, k);
                proof {
                    lemma_min_split(vs, i as int, t as int, (k - 1) as int);
                }
                if cost < best {
                    best = cost;
                    best_k = k;
                }
                k += 1;
            }
            row.push(best);
            crow.push(best_k);
            i += 1;
        }
        tab.push(row);
        by_size.push(crow);
        t += 1;
    }

    // Lay the choices out by vertex: choice[i][t]
    let mut choice: Vec<Vec<usize>> = Vec::new();
    for i in 0..n
        invariant
            n == vs.len(),
            vs == vertices@,
            1 <= n < 0xffff_ffff,
            by_size@.len() == n + 1,
            forall|t2: int| 0 <= t2 <= n ==> (#[trigger] by_size@[t2])@.len() == n,
            choice@.len() == i,
            forall|a: int| 0 <= a < i ==> (#[trigger] choice@[a])@.len() == n + 1,
            forall|a: int, t2: int|
                0 <= a < i && 0 <= t2 <= n ==> #[trigger] choice@[a]@[t2] == by_size@[t2]@[a],
    {
        let mut crow: Vec<usize> = Vec::new();
        for t2 in 0..n + 1
            invariant
                n == vs.len(),
                vs == vertices@,
                1 <= n < 0xffff_ffff,
                i < n,
                by_size@.len() == n + 1,
                forall|t3: int| 0 <= t3 <= n ==> (#[trigger] by_size@[t3])@.len() == n,
                crow@.len() == t2,
                forall|t3: int| 0 <= t3 < t2 ==> #[trigger] crow@[t3] == by_size@[t3]@[i as int],
        {
            crow.push(by_size[t2][i]);
        }
        choice.push(crow);
    }
    DpResult { cost: tab[n][0], choice, n }
}


/// The choice table read as a function of `(i, t)`.
pub open spec fn table_choice(ch: Seq<Vec<usize>>) -> spec_fn(int, int) -> int {
    |i: int, t: int| ch[i]@[t] as int
}

/// The chords that the choice table `ch` selects for the sub-polygon
/// `s_i .. s_{i+t-1}` (indices mod n), in the order in which the
/// reconstruction emits them.
pub open spec fn chords_of(ch: Seq<Vec<usize>>, n: int, i: int, t: int) -> Seq<(int, int)> {
    chords_by(table_choice(ch), n, i, t)
}

/// A valid choice table makes valid choices.
pub proof fn lemma_table_choices_ok(ch: Seq<Vec<usize>>, n: int)
    requires
        choice_table_ok(ch, n),
    ensures
        choices_ok(table_choice(ch), n),
{
    assert forall|i: int, t: int| 0 <= i && 3 <= t && i + t <= n implies 1 <= #[trigger] table_choice(ch)(i, t) <= t - 2 by {
        assert(1 <= ch[i]@[t] <= t - 2);
    }
}

/// Without wrap-around, the chords that a valid choice table selects for the
/// sub-polygon `s_i .. s_{i+t-1}` are `t - 3` distinct, pairwise non-crossing
/// chords of that sub-polygon.
pub proof fn lemma_chords_of_shape(ch: Seq<Vec<usize>>, n: int, i: int, t: int)
    requires
        choice_table_ok(ch, n),
        0 <= i,
        0 <= t,
        i + t <= n,
    ensures
        chords_of(ch, n, i, t).len() == (if t >= 3 { t - 3 } else { 0 }),
        all_chords_in(chords_of(ch, n, i, t), i, i + t - 1),
        non_crossing(chords_of(ch, n, i, t)),
        chords_of(ch, n, i, t).no_duplicates(),
{
    lemma_table_choices_ok(ch, n);
    lemma_chords_by_shape(table_choice(ch), n, i, t);
}

/// A sequence of vertex pairs, read as mathematical integers.
pub open spec fn pairs_view(s: Seq<(usize, usize)>) -> Seq<(int, int)> {
    s.map_values(|c: (usize, usize)| (c.0 as int, c.1 as int))
}

fn reconstruct(i: usize, t: usize, result: &DpResult, chords: &mut Vec<(usize, usize)>)
    requires
        result.wf(),
        t < 3 || (i < result.n && t <= result.n),
    ensures
        pairs_view(final(chords)@) == pairs_view(old(chords)@) + chords_of(
            result.choice@,
            result.n as int,
            i as int,
            t as int,
        ),
        i + t <= result.n ==> {
            let added = chords_of(result.choice@, result.n as int, i as int, t as int);
            &&& added.len() == (if t >= 3 { t - 3 } else { 0 })
            &&& all_chords_in(added, i as int, i + t - 1)
            &&& non_crossing(added)
            &&& added.no_duplicates()
        },
    decreases t,
{
    proof {
        if i + t <= result.n {
            lemma_chords_of_shape(result.choice@, result.n as int, i as int, t as int);
        }
    }
    let ghost start = pairs_view(chords@);
    if t < 3 {
        assert(pairs_view(chords@) =~= start + seq![]);
        return;
    }
    let n = result.n;
    let k = result.choice[i][t];
    let ik = wrap_add(i, k, n);
    let it1 = wrap_add(i, t - 1, n);

    // The three sides of the chosen triangle are:
    //   (i, ik)   a chord iff k >= 2 (k = 1 gives the edge s_i -> s_{i+1})
    //   (ik, it1) a chord iff k <= t-3 (k = t-2 gives the edge s_{i+t-2} -> s_{i+t-1})
    //   (i, it1)  the base of the sub-problem, an edge or a chord committed by the parent
    let ghost first: Seq<(int, int)> = if k >= 2 { seq![(i as int, ik as int)] } else { seq![] };
    let ghost second: Seq<(int, int)> = if k <= t - 3 { seq![(ik as int, it1 as int)] } else { seq![] };
    if k >= 2 {
        chords.push((i, ik));
    }
    assert(pairs_view(chords@) =~= start + first);
    if k <= t - 3 {
        chords.push((ik, it1));
    }
    assert(pairs_view(chords@) =~= start + first + second);
    reconstruct(i, k + 1, result, chords);
    reconstruct(ik, t - k, result, chords);
    assert(pairs_view(chords@) =~= start + (first + second + chords_of(result.choice@, n as int, i as int, k + 1)
        + chords_of(result.choice@, n as int, ik as int, t - k)));
}

/// Reconstruct the list of chords from the DP choice table.
/// Returns pairs (i, j) of vertex indices that are chords (not polygon edges).
pub fn reconstruct_chords(result: &DpResult) -> (chords: Vec<(usize, usize)>)
    requires
        result.wf(),
    ensures
        pairs_view(chords@) == chords_of(result.choice@, result.n as int, 0, result.n as int),
        pairs_view(chords@).len() == (if result.n >= 3 { result.n - 3 } else { 0 }),
        all_chords_in(pairs_view(chords@), 0, result.n - 1),
        non_crossing(pairs_view(chords@)),
        pairs_view(chords@).no_duplicates(),
{
    let n = result.n;
    let mut chords = Vec::new();
    proof {
        assert(pairs_view(chords@) =~= seq![]);
    }
    reconstruct(0, n, result, &mut chords);
    assert(pairs_view(chords@) =~= seq![] + chords_of(result.choice@, n as int, 0, n as int));
    chords
}


/// When every entry of the choice table is a best split, the chords it
/// selects for `s_i .. s_{i+t-1}` (no wrap-around) cost exactly the optimum.
pub proof fn lemma_chords_of_cost(vs: Seq<Point>, ch: Seq<Vec<usize>>, i: int, t: int)
    requires
        choice_table_ok(ch, vs.len() as int),
        forall|i2: int, t2: int|
            0 <= i2 < vs.len() && 3 <= t2 <= vs.len() ==> is_best_split(vs, i2, t2, #[trigger] ch[i2]@[t2] as int),
        0 <= i,
        0 <= t,
        i + t <= vs.len(),
    ensures
        chords_cost(vs, chords_of(ch, vs.len() as int, i, t)) == opt(vs, i, t),
    decreases t,
{
    let n = vs.len() as int;
    let s = chords_of(ch, n, i, t);
    lemma_table_choices_ok(ch, n);
    if t < 3 {
        assert(s =~= Seq::<(int, int)>::empty());
    } else {
        let k = ch[i]@[t] as int;
        let ik = (i + k) % n;
        let it1 = (i + t - 1) % n;
        lemma_small_mod(i + k, n);
        lemma_small_mod(i + t - 1, n);
        let first: Seq<(int, int)> = if k >= 2 { seq![(i, ik)] } else { seq![] };
        let second: Seq<(int, int)> = if k <= t - 3 { seq![(ik, it1)] } else { seq![] };
        assert(k == table_choice(ch)(i, t));
        let a = chords_of(ch, n, i, k + 1);
        let b = chords_of(ch, n, ik, t - k);
        lemma_chords_of_cost(vs, ch, i, k + 1);
        lemma_chords_of_cost(vs, ch, ik, t - k);
        assert(chords_cost(vs, Seq::<(int, int)>::empty()) == 0);
        if k >= 2 {
            assert(first.drop_last() =~= Seq::<(int, int)>::empty());
        }
        if k <= t - 3 {
            assert(second.drop_last() =~= Seq::<(int, int)>::empty());
        }
        lemma_chords_cost_concat(vs, first, second);
        lemma_chords_cost_concat(vs, first + second, a);
        lemma_chords_cost_concat(vs, first + second + a, b);
    }
}

/// The chords that the dynamic programme selects (for a polygon of at least
/// three vertices, every choice a best split) form a triangulation whose
/// total length is the optimum.
pub proof fn lemma_dp_chords_are_optimal_triangulation(vs: Seq<Point>, ch: Seq<Vec<usize>>)
    requires
        vs.len() >= 3,
        choice_table_ok(ch, vs.len() as int),
        forall|i: int, t: int|
            0 <= i < vs.len() && 3 <= t <= vs.len() ==> is_best_split(vs, i, t, #[trigger] ch[i]@[t] as int),
    ensures
        is_triangulation(vs.len() as int, chords_of(ch, vs.len() as int, 0, vs.len() as int)),
        chords_cost(vs, chords_of(ch, vs.len() as int, 0, vs.len() as int)) == opt(vs, 0, vs.len() as int),
{
    let n = vs.len() as int;
    lemma_chords_of_shape(ch, n, 0, n);
    lemma_chords_of_cost(vs, ch, 0, n);
}

} // verus!
