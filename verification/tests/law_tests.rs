//! Exact checks of the library on concrete polygons: lengths, the reference
//! heptagon, degenerate polygons, and the laws relating the three algorithms.

use triangulation::backtracking::{
    all_chords, backtrack, min_triangulation_backtrack_verbose, valid_chord, BacktrackState, Chord,
};
use triangulation::dynamic::{min_triangulation_dp, reconstruct_chords};
use triangulation::greedy::min_triangulation_greedy;
use triangulation::polygon::{distance, heptagon, segments_intersect, Point, MAX_COORD, SCALE};

fn square() -> Vec<Point> {
    vec![Point::new(0, 0), Point::new(10, 0), Point::new(10, 10), Point::new(0, 10)]
}

fn sorted_pairs(mut v: Vec<(usize, usize)>) -> Vec<(usize, usize)> {
    v.sort();
    v
}

#[test]
fn distance_is_floor_of_euclidean_length() {
    assert_eq!(distance(&Point::new(0, 0), &Point::new(3, 4)), 5);
    assert_eq!(distance(&Point::new(0, 0), &Point::new(1, 1)), 1);
    assert_eq!(distance(&Point::new(7, -2), &Point::new(7, -2)), 0);
    assert_eq!(distance(&Point::new(0, 0), &Point::new(0, 2)), 2);
    let lo = Point::new(-MAX_COORD, -MAX_COORD);
    let hi = Point::new(MAX_COORD, MAX_COORD);
    assert_eq!(distance(&lo, &hi), 1518500249);
    assert_eq!(distance(&hi, &lo), 1518500249);
}

#[test]
fn heptagon_vertices() {
    let h = heptagon();
    let expected = [(0, 10), (0, 20), (8, 26), (15, 26), (27, 21), (22, 12), (10, 0)];
    assert_eq!(h.len(), 7);
    for (p, &(x, y)) in h.iter().zip(expected.iter()) {
        assert_eq!((p.x, p.y), (x * SCALE, y * SCALE));
    }
}

#[test]
fn heptagon_dp_exact() {
    let h = heptagon();
    let dp = min_triangulation_dp(&h);
    assert_eq!(dp.cost, 75430729);
    assert_eq!(dp.n, 7);
    let chords = reconstruct_chords(&dp);
    assert_eq!(chords, vec![(0, 5), (0, 2), (2, 5), (3, 5)]);
    let sum: u64 = chords.iter().map(|&(a, b)| distance(&h[a], &h[b])).sum();
    assert_eq!(sum, dp.cost);
    // choice table layout: n rows of n + 1 entries, zero below size 3
    assert_eq!(dp.choice.len(), 7);
    for row in &dp.choice {
        assert_eq!(row.len(), 8);
        assert_eq!(row[0], 0);
        assert_eq!(row[1], 0);
        assert_eq!(row[2], 0);
    }
}

#[test]
fn heptagon_greedy_exact() {
    let h = heptagon();
    let gr = min_triangulation_greedy(&h);
    assert_eq!(
        gr.chords,
        vec![(3, 5, 15652475), (1, 3, 16155494), (0, 3, 21931712), (0, 5, 22090722)]
    );
    assert_eq!(gr.cost, 75830403);
    assert!(gr.cost > min_triangulation_dp(&h).cost);
}

#[test]
fn heptagon_backtracking_exact() {
    let h = heptagon();
    let (cost, chords, calls) = min_triangulation_backtrack_verbose(&h);
    assert_eq!(cost, 75430729);
    let pairs: Vec<(usize, usize)> = chords.iter().map(|c| (c.i, c.j)).collect();
    assert_eq!(sorted_pairs(pairs), vec![(0, 2), (0, 5), (2, 5), (3, 5)]);
    let sum: u64 = chords.iter().map(|c| c.length).sum();
    assert_eq!(sum, cost);
    assert!(calls >= 1);
}

#[test]
fn heptagon_all_chords_sorted() {
    let h = heptagon();
    let chords = all_chords(&h);
    assert_eq!(chords.len(), 14);
    assert_eq!((chords[0].i, chords[0].j, chords[0].length), (3, 5, 15652475));
    assert_eq!((chords[1].i, chords[1].j, chords[1].length), (1, 3, 16155494));
    assert_eq!((chords[2].i, chords[2].j, chords[2].length), (0, 2, 17888543));
    for w in chords.windows(2) {
        assert!(w[0].length <= w[1].length);
    }
    for c in &chords {
        assert!(c.i + 2 <= c.j && !(c.i == 0 && c.j == 6));
        assert_eq!(c.length, distance(&h[c.i], &h[c.j]));
    }
}

#[test]
fn all_chords_small_polygons() {
    assert_eq!(all_chords(&[]).len(), 0);
    assert_eq!(all_chords(&[Point::new(0, 0)]).len(), 0);
    assert_eq!(all_chords(&square()[..3]).len(), 0);
    let sq = all_chords(&square());
    assert_eq!(sq.len(), 2);
    // equal lengths: ordered by vertices
    assert_eq!((sq[0].i, sq[0].j), (0, 2));
    assert_eq!((sq[1].i, sq[1].j), (1, 3));
    assert_eq!(sq[0].length, 14);
}

#[test]
fn degenerate_polygons() {
    let one = [Point::new(1, 1)];
    let dp = min_triangulation_dp(&one);
    assert_eq!(dp.cost, 0);
    assert_eq!(reconstruct_chords(&dp).len(), 0);
    let two = [Point::new(1, 1), Point::new(4, 5)];
    let dp = min_triangulation_dp(&two);
    assert_eq!(dp.cost, 0);
    assert_eq!(reconstruct_chords(&dp).len(), 0);
    for k in 0..3 {
        let gr = min_triangulation_greedy(&square()[..k]);
        assert_eq!(gr.cost, 0);
        assert!(gr.chords.is_empty());
    }
    let (cost, chords, _) = min_triangulation_backtrack_verbose(&square()[..3]);
    assert_eq!(cost, 0);
    assert!(chords.is_empty());
}

#[test]
fn square_one_diagonal() {
    let sq = square();
    let dp = min_triangulation_dp(&sq);
    assert_eq!(dp.cost, 14);
    assert_eq!(reconstruct_chords(&dp), vec![(1, 3)]);
    assert_eq!(dp.choice[0][4], 1);
    let gr = min_triangulation_greedy(&sq);
    assert_eq!(gr.chords, vec![(3, 1, 14)]);
    assert_eq!(gr.cost, 14);
    let (cost, chords, _) = min_triangulation_backtrack_verbose(&sq);
    assert_eq!(cost, 14);
    assert_eq!(chords.len(), 1);
}

#[test]
fn backtrack_from_fresh_state() {
    let h = heptagon();
    let chords = all_chords(&h);
    let mut state = BacktrackState::new(&h, &chords);
    assert_eq!(state.needed, 4);
    assert_eq!(state.best_cost, u64::MAX);
    assert!(state.selected.is_empty());
    backtrack(&mut state, 0);
    assert_eq!(state.best_cost, 75430729);
    assert!(state.selected.is_empty());
    let total: u64 = state.best_solution.iter().map(|&k| chords[k].length).sum();
    assert_eq!(total, state.best_cost);
    assert!(state.call_count >= 1);
}

#[test]
fn backtrack_from_start_past_the_end_finds_nothing() {
    let h = heptagon();
    let chords = all_chords(&h);
    let mut state = BacktrackState::new(&h, &chords);
    backtrack(&mut state, chords.len());
    assert_eq!(state.best_cost, u64::MAX);
    assert!(state.best_solution.is_empty());
}

#[test]
fn valid_chord_rejects_repeat_and_edge_crossing() {
    let h = heptagon();
    let drawn = [Chord { i: 0, j: 3, length: 0 }];
    assert!(!valid_chord(0, 3, &drawn, &h));
    assert!(!valid_chord(3, 0, &drawn, &h));
    // a non-convex "dart": the chord (0, 2) leaves the polygon through edge (3, 4)
    let dart = vec![
        Point::new(0, 0),
        Point::new(10, 0),
        Point::new(10, 10),
        Point::new(5, -5),
        Point::new(0, 10),
    ];
    assert!(!valid_chord(0, 2, &[], &dart));
    assert!(valid_chord(1, 3, &[], &dart));
}

#[test]
fn segments_intersect_is_symmetric() {
    let a = Point::new(0, 0);
    let b = Point::new(4, 4);
    let c = Point::new(4, 0);
    let d = Point::new(0, 4);
    assert!(segments_intersect(&a, &b, &c, &d));
    assert!(segments_intersect(&c, &d, &a, &b));
    // touching at an interior point of one segment is not a proper crossing
    let e = Point::new(2, 2);
    assert!(!segments_intersect(&a, &b, &c, &e));
}

#[test]
fn greedy_never_beats_dp_and_bt_matches_dp() {
    let polys = vec![heptagon(), square(), {
        let mut v = heptagon();
        v.reverse();
        v
    }];
    for p in &polys {
        let dp = min_triangulation_dp(p);
        let gr = min_triangulation_greedy(p);
        assert!(gr.cost >= dp.cost);
        let (bt, _, _) = min_triangulation_backtrack_verbose(p);
        assert_eq!(bt, dp.cost);
        let gsum: u64 = gr.chords.iter().map(|&(a, b, l)| {
            assert_eq!(l, distance(&p[a], &p[b]));
            l
        }).sum();
        assert_eq!(gsum, gr.cost);
    }
}

fn hexagon() -> Vec<Point> {
    vec![
        Point::new(2000, 0),
        Point::new(1000, 1732),
        Point::new(-1000, 1732),
        Point::new(-2000, 0),
        Point::new(-1000, -1732),
        Point::new(1000, -1732),
    ]
}

#[test]
fn dp_triangulation_is_maximal() {
    let h = heptagon();
    let dp = min_triangulation_dp(&h);
    let pairs = reconstruct_chords(&dp);
    let drawn: Vec<Chord> = pairs.iter().map(|&(a, b)| Chord { i: a, j: b, length: distance(&h[a], &h[b]) }).collect();
    for c in all_chords(&h) {
        // no chord can be added to a triangulation
        assert!(!valid_chord(c.i, c.j, &drawn, &h), "({}, {}) should be rejected", c.i, c.j);
    }
    // with one chord removed, some chord fits again
    let fewer = &drawn[1..];
    assert!(all_chords(&h).iter().any(|c| valid_chord(c.i, c.j, fewer, &h)));
}

#[test]
fn convex_crossing_is_interleaving() {
    let h = hexagon();
    let chords = all_chords(&h);
    for c in &chords {
        for d in &chords {
            if c.i == d.i || c.i == d.j || c.j == d.i || c.j == d.j {
                continue;
            }
            let interleave = (c.i < d.i && d.i < c.j && c.j < d.j) || (d.i < c.i && c.i < d.j && d.j < c.j);
            assert_eq!(segments_intersect(&h[c.i], &h[c.j], &h[d.i], &h[d.j]), interleave);
        }
        // no chord crosses an edge of a convex polygon
        assert!(valid_chord(c.i, c.j, &[], &h));
    }
}

fn regular_polygon(n: usize) -> Vec<Point> {
    (0..n)
        .map(|i| {
            let angle = 2.0 * std::f64::consts::PI * i as f64 / n as f64;
            let x = angle.cos() * 100.0 * SCALE as f64;
            let y = angle.sin() * 100.0 * SCALE as f64;
            Point::new(x.round() as i64, y.round() as i64)
        })
        .collect()
}

/// Number of subsets of at most `r` elements of a set of `m` elements.
fn subsets_upto(m: u64, r: u64) -> u64 {
    if m == 0 || r == 0 {
        1
    } else {
        subsets_upto(m - 1, r) + subsets_upto(m - 1, r - 1)
    }
}

#[test]
fn optimum_kept_under_rotation_and_reversal() {
    let h = heptagon();
    for r in 0..h.len() {
        let rotated: Vec<Point> = (0..h.len()).map(|i| h[(i + r) % h.len()]).collect();
        assert_eq!(min_triangulation_dp(&rotated).cost, 75430729);
        let mut reversed = rotated.clone();
        reversed.reverse();
        assert_eq!(min_triangulation_dp(&reversed).cost, 75430729);
    }
}

#[test]
fn backtrack_call_count_within_subset_bound() {
    let h = heptagon();
    let (_, chords, calls) = min_triangulation_backtrack_verbose(&h);
    assert!(1 <= calls && calls <= subsets_upto(14, 4));
    assert_eq!(subsets_upto(14, 4), 1 + 14 + 91 + 364 + 1001);
    // the chords come in the order of the chord list: by length
    for w in chords.windows(2) {
        assert!(w[0].length <= w[1].length);
    }
    for n in 4..10 {
        let p = regular_polygon(n);
        let (_, _, calls) = min_triangulation_backtrack_verbose(&p);
        let m = (n * (n - 3) / 2) as u64;
        assert!(1 <= calls && calls <= subsets_upto(m, (n - 3) as u64));
    }
}

#[test]
fn backtrack_call_count_regular_quadrilateral() {
    // the root call, then one call with the shorter diagonal drawn; the
    // other diagonal is no cheaper and is cut off by the bound
    let (_, chords, calls) = min_triangulation_backtrack_verbose(&regular_polygon(4));
    assert_eq!(calls, 2);
    assert_eq!(chords.len(), 1);
}

#[test]
fn backtrack_keeps_any_selection() {
    let h = heptagon();
    let chords = all_chords(&h);
    let mut state = BacktrackState::new(&h, &chords);
    state.selected = vec![5];
    backtrack(&mut state, 0);
    assert_eq!(state.selected, vec![5]);
    assert_eq!(state.needed, 4);
    assert_eq!(state.chords.len(), 14);
    assert!(state.call_count >= 1);
    if state.best_cost < u64::MAX {
        let total: u64 = state.best_solution.iter().map(|&k| chords[k].length).sum();
        assert_eq!(total, state.best_cost);
        assert_eq!(state.best_solution.len(), 4);
    }
}

#[test]
fn backtrack_complete_selection_ignores_start() {
    let h = heptagon();
    let chords = all_chords(&h);
    let mut state = BacktrackState::new(&h, &chords);
    state.selected = vec![0, 1, 2, 3];
    backtrack(&mut state, chords.len() + 10);
    assert_eq!(state.call_count, 1);
    assert_eq!(state.selected, vec![0, 1, 2, 3]);
    let total: u64 = (0..4).map(|k| chords[k].length).sum();
    assert_eq!(state.best_cost, total);
    assert_eq!(state.best_solution, vec![0, 1, 2, 3]);
}

#[test]
fn valid_chord_rejects_drawn_chord_before_reading_vertices() {
    let h = heptagon();
    let drawn = [Chord { i: 20, j: 10, length: 0 }];
    assert!(!valid_chord(10, 20, &drawn, &h));
    assert!(!valid_chord(20, 10, &drawn, &h));
}

#[test]
fn regular_polygon_optimum_matches_the_reported_values() {
    let units = |c: u64| c as f64 / SCALE as f64;
    for &(n, dp_cost, greedy_cost) in &[
        (10usize, 968.21f64, 984.05f64),
        (20, 1586.24, 1626.43),
        (50, 2415.15, 2463.41),
        (100, 3043.06, 3094.65),
    ] {
        let p = regular_polygon(n);
        let dp = min_triangulation_dp(&p);
        let gr = min_triangulation_greedy(&p);
        assert!((units(dp.cost) - dp_cost).abs() < 0.006, "n = {}: dp {}", n, units(dp.cost));
        // the greedy ears tie on a regular polygon; which of the tied ears
        // goes first depends on the rounding of the lengths, so only the
        // ordering and the size of the gap are checked
        assert!(gr.cost >= dp.cost);
        assert!(units(gr.cost) < 1.05 * dp_cost && greedy_cost < 1.05 * dp_cost);
    }
}

#[test]
fn backtrack_minimum_whatever_the_recorded_best() {
    let h = heptagon();
    let chords = all_chords(&h);
    // a recorded best that cannot be drawn: the four shortest chords
    let bogus: u64 = (0..4).map(|k| chords[k].length).sum();
    let mut state = BacktrackState::new(&h, &chords);
    state.best_cost = bogus;
    state.best_solution = vec![0, 1, 2, 3];
    backtrack(&mut state, 0);
    assert_eq!(state.best_cost, bogus.min(75430729));
    // another recorded selection of four chords
    let other: u64 = [0usize, 1, 2, 4].iter().map(|&k| chords[k].length).sum();
    let mut state = BacktrackState::new(&h, &chords);
    state.best_cost = other;
    state.best_solution = vec![0, 1, 2, 4];
    backtrack(&mut state, 0);
    assert_eq!(state.best_cost, other.min(75430729));
    // an incumbent cost that no recorded selection backs
    for &incumbent in &[80_000_000u64, 70_000_000] {
        let mut state = BacktrackState::new(&h, &chords);
        state.best_cost = incumbent;
        backtrack(&mut state, 0);
        assert_eq!(state.best_cost, incumbent.min(75430729));
        assert_eq!(state.best_solution.is_empty(), incumbent <= 75430729);
    }
}

#[test]
fn backtrack_on_unsorted_list_keeps_a_drawable_best() {
    let h = heptagon();
    let mut chords = all_chords(&h);
    chords.reverse();
    let mut state = BacktrackState::new(&h, &chords);
    backtrack(&mut state, 0);
    assert!(state.selected.is_empty());
    assert!(state.best_cost < u64::MAX);
    assert!(state.best_cost >= 75430729);
    let picked: Vec<Chord> = state.best_solution.iter().map(|&k| chords[k]).collect();
    let total: u64 = picked.iter().map(|c| c.length).sum();
    assert_eq!(total, state.best_cost);
    for (p, c) in picked.iter().enumerate() {
        assert!(valid_chord(c.i, c.j, &picked[..p], &h));
    }
}
