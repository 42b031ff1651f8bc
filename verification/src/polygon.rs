use vstd::prelude::*;

verus! {

/// Number of integer coordinate units per unit of length.
pub const SCALE: i64 = 1_000_000;

/// Largest absolute value a coordinate may take.
pub const MAX_COORD: i64 = 536_870_912;

/// A polygon vertex with fixed-point integer coordinates.
#[derive(Debug, Clone, Copy)]
pub struct Point {
    pub x: i64,
    pub y: i64,
}

impl Point {
    pub fn new(x: i64, y: i64) -> (p: Self)
        ensures
            p.x == x,
            p.y == y,
    {
        Self { x, y }
    }

    /// Both coordinates lie within `[-MAX_COORD, MAX_COORD]`.
    pub open spec fn in_range(self) -> bool {
        -MAX_COORD <= self.x <= MAX_COORD && -MAX_COORD <= self.y <= MAX_COORD
    }
}

/// Every vertex of the sequence is in range.
pub open spec fn all_in_range(vs: Seq<Point>) -> bool {
    forall|i: int| 0 <= i < vs.len() ==> (#[trigger] vs[i]).in_range()
}

/// Cross product of `a - o` and `b - o`: positive when `o, a, b` turn left.
pub open spec fn cross_spec(o: Point, a: Point, b: Point) -> int {
    (a.x - o.x) * (b.y - o.y) - (a.y - o.y) * (b.x - o.x)
}

/// Segments `(p1,p2)` and `(p3,p4)` cross properly: each segment has the two
/// endpoints of the other strictly on opposite sides of its line.
pub open spec fn segments_intersect_spec(p1: Point, p2: Point, p3: Point, p4: Point) -> bool {
    let d1 = cross_spec(p3, p4, p1);
    let d2 = cross_spec(p3, p4, p2);
    let d3 = cross_spec(p1, p2, p3);
    let d4 = cross_spec(p1, p2, p4);
    ((d1 > 0 && d2 < 0) || (d1 < 0 && d2 > 0)) && ((d3 > 0 && d4 < 0) || (d3 < 0 && d4 > 0))
}

proof fn lemma_mul_bound(a: int, b: int, m: int)
    by (nonlinear_arith)
    requires
        0 <= m,
        -m <= a <= m,
        -m <= b <= m,
    ensures
        -(m * m) <= a * b <= m * m,
{
}

fn cross(o: &Point, a: &Point, b: &Point) -> (r: i64)
    requires
        o.in_range(),
        a.in_range(),
        b.in_range(),
    ensures
        r == cross_spec(*o, *a, *b),
{
    let ax = a.x - o.x;
    let ay = a.y - o.y;
    let bx = b.x - o.x;
    let by = b.y - o.y;
    proof {
        lemma_mul_bound(ax as int, by as int, 1_073_741_824);
        lemma_mul_bound(ay as int, bx as int, 1_073_741_824);
    }
    ax * by - ay * bx
}

/// Returns true if segment (p1,p2) and segment (p3,p4) properly intersect
/// (not counting shared endpoints, which happen for adjacent chords).
pub fn segments_intersect(p1: &Point, p2: &Point, p3: &Point, p4: &Point) -> (r: bool)
    requires
        p1.in_range(),
        p2.in_range(),
        p3.in_range(),
        p4.in_range(),
    ensures
        r == segments_intersect_spec(*p1, *p2, *p3, *p4),
{
    let d1 = cross(p3, p4, p1);
    let d2 = cross(p3, p4, p2);
    let d3 = cross(p1, p2, p3);
    let d4 = cross(p1, p2, p4);
    if ((d1 > 0 && d2 < 0) || (d1 < 0 && d2 > 0)) && ((d3 > 0 && d4 < 0) || (d3 < 0 && d4 > 0)) {
        return true;
    }
    false
}


/// `r` is the integer square root of `d`.
pub open spec fn is_floor_sqrt(d: nat, r: nat) -> bool {
    r * r <= d && d < (r + 1) * (r + 1)
}

/// The largest natural number whose square does not exceed `d`.
pub open spec fn floor_sqrt_spec(d: nat) -> nat {
    choose|r: nat| is_floor_sqrt(d, r)
}

proof fn lemma_floor_sqrt_unique(d: nat, r: nat, s: nat)
    requires
        is_floor_sqrt(d, r),
        is_floor_sqrt(d, s),
    ensures
        r == s,
{
    if r < s {
        assert((r + 1) * (r + 1) <= s * s) by (nonlinear_arith)
            requires
                r + 1 <= s,
        ;
    } else if s < r {
        assert((s + 1) * (s + 1) <= r * r) by (nonlinear_arith)
            requires
                s + 1 <= r,
        ;
    }
}

proof fn lemma_floor_sqrt_exists(d: nat)
    ensures
        exists|r: nat| is_floor_sqrt(d, r),
    decreases d,
{
    if d == 0 {
        assert(0nat * 0nat <= 0nat && 0nat < (0nat + 1) * (0nat + 1)) by (nonlinear_arith);
        assert(is_floor_sqrt(0, 0));
    } else {
        let dm = (d - 1) as nat;
        lemma_floor_sqrt_exists(dm);
        let r = choose|r: nat| is_floor_sqrt(dm, r);
        if (r + 1) * (r + 1) <= d {
            assert((r + 2) * (r + 2) == (r + 1) * (r + 1) + 2 * r + 3) by (nonlinear_arith);
            assert(is_floor_sqrt(d, r + 1));
        } else {
            assert(is_floor_sqrt(d, r));
        }
    }
}

/// `floor_sqrt_spec(d)` is the integer square root of `d`.
pub proof fn lemma_floor_sqrt_is(d: nat)
    ensures
        is_floor_sqrt(d, floor_sqrt_spec(d)),
{
    lemma_floor_sqrt_exists(d);
}

/// Segments that share an endpoint never cross properly.
pub proof fn lemma_shared_endpoint_no_intersection(p1: Point, p2: Point, p3: Point, p4: Point)
    requires
        p1 == p3 || p1 == p4 || p2 == p3 || p2 == p4,
    ensures
        !segments_intersect_spec(p1, p2, p3, p4),
{
    if p2 == p3 {
        assert(cross_spec(p1, p2, p3) == 0) by (nonlinear_arith)
            requires
                p2 == p3,
        ;
    } else if p2 == p4 {
        assert(cross_spec(p1, p2, p4) == 0) by (nonlinear_arith)
            requires
                p2 == p4,
        ;
    }
}

/// Whether two segments cross does not depend on which one is named first.
pub proof fn lemma_segments_intersect_symmetric(p1: Point, p2: Point, p3: Point, p4: Point)
    ensures
        segments_intersect_spec(p1, p2, p3, p4) == segments_intersect_spec(p3, p4, p1, p2),
{
}

/// The vertices are in strictly convex position, listed counter-clockwise:
/// for every pair `x < y`, the vertices between them in the list lie strictly
/// to the right of the directed line from `s_x` to `s_y`, all others strictly
/// to its left.
pub open spec fn convex_ccw(vs: Seq<Point>) -> bool {
    forall|x: int, y: int, z: int|
        0 <= x < y < vs.len() && 0 <= z < vs.len() && z != x && z != y ==> (if x < z && z < y {
            #[trigger] cross_spec(vs[x], vs[y], vs[z]) < 0
        } else {
            cross_spec(vs[x], vs[y], vs[z]) > 0
        })
}

/// The vertices are in strictly convex position, listed clockwise: for every
/// pair `x < y`, the vertices between them in the list lie strictly to the
/// left of the directed line from `s_x` to `s_y`, all others strictly to its
/// right.
pub open spec fn convex_cw(vs: Seq<Point>) -> bool {
    forall|x: int, y: int, z: int|
        0 <= x < y < vs.len() && 0 <= z < vs.len() && z != x && z != y ==> (if x < z && z < y {
            #[trigger] cross_spec(vs[x], vs[y], vs[z]) > 0
        } else {
            cross_spec(vs[x], vs[y], vs[z]) < 0
        })
}

/// The vertices form a strictly convex polygon, in either orientation.
pub open spec fn strictly_convex(vs: Seq<Point>) -> bool {
    convex_ccw(vs) || convex_cw(vs)
}

/// `is_floor_sqrt` pins down `floor_sqrt_spec`.
pub proof fn lemma_floor_sqrt_spec(d: nat, r: nat)
    requires
        is_floor_sqrt(d, r),
    ensures
        floor_sqrt_spec(d) == r,
{
    let s = floor_sqrt_spec(d);
    assert(is_floor_sqrt(d, s));
    lemma_floor_sqrt_unique(d, r, s);
}

/// Integer square root by bisection.
fn floor_sqrt(d: u64) -> (r: u64)
    ensures
        r == floor_sqrt_spec(d as nat),
        is_floor_sqrt(d as nat, r as nat),
        r < 0x1_0000_0000,
{
    let mut lo: u64 = 0;
    let mut hi: u64 = 0x1_0000_0000;
    assert(0x1_0000_0000 * 0x1_0000_0000 > 0xffff_ffff_ffff_ffffu64) by (nonlinear_arith);
    while hi - lo > 1
        invariant
            lo < hi <= 0x1_0000_0000,
            lo * lo <= d,
            (d as int) < hi * hi,
        decreases hi - lo,
    {
        let mid = lo + (hi - lo) / 2;
        assert(mid * mid <= 0xffff_ffff * 0xffff_ffff) by (nonlinear_arith)
            requires
                mid <= 0xffff_ffff,
        ;
        if mid * mid <= d {
            lo = mid;
        } else {
            hi = mid;
        }
    }
    proof {
        lemma_floor_sqrt_spec(d as nat, lo as nat);
    }
    lo
}

/// Squared Euclidean distance between two points.
pub open spec fn sq_dist(p: Point, q: Point) -> int {
    (p.x - q.x) * (p.x - q.x) + (p.y - q.y) * (p.y - q.y)
}

/// Length of the segment `(p, q)`: the floor of its Euclidean length.
pub open spec fn dist_spec(p: Point, q: Point) -> nat {
    floor_sqrt_spec(sq_dist(p, q) as nat)
}

/// Every length between in-range points is below this bound.
pub open spec fn max_len() -> nat {
    0x8000_0000
}

/// Squared distances between in-range points lie in `[0, 2^61]`.
proof fn lemma_sq_dist_bound(p: Point, q: Point)
    requires
        p.in_range(),
        q.in_range(),
    ensures
        0 <= sq_dist(p, q) <= 0x2000_0000_0000_0000,
{
    let dx = p.x - q.x;
    let dy = p.y - q.y;
    lemma_mul_bound(dx, dx, 1_073_741_824);
    lemma_mul_bound(dy, dy, 1_073_741_824);
    assert(dx * dx >= 0) by (nonlinear_arith);
    assert(dy * dy >= 0) by (nonlinear_arith);
}

/// Length does not depend on the direction of the segment.
pub proof fn lemma_dist_symmetric(p: Point, q: Point)
    ensures
        dist_spec(p, q) == dist_spec(q, p),
{
    assert(sq_dist(p, q) == sq_dist(q, p)) by (nonlinear_arith);
}

/// Lengths between in-range points are below `max_len()`.
pub proof fn lemma_dist_bound(p: Point, q: Point)
    requires
        p.in_range(),
        q.in_range(),
    ensures
        dist_spec(p, q) < max_len(),
{
    lemma_sq_dist_bound(p, q);
    let d = sq_dist(p, q) as nat;
    lemma_floor_sqrt_is(d);
    let r = floor_sqrt_spec(d) as int;
    if r >= 0x8000_0000 {
        assert(r * r >= 0x8000_0000 * 0x8000_0000) by (nonlinear_arith)
            requires
                r >= 0x8000_0000,
        ;
    }
}

/// Length of the segment `(p, q)` (floor of the Euclidean length).
pub fn distance(p: &Point, q: &Point) -> (d: u64)
    requires
        p.in_range(),
        q.in_range(),
    ensures
        d == dist_spec(*p, *q),
        d < max_len(),
{
    let dx = p.x - q.x;
    let dy = p.y - q.y;
    proof {
        lemma_mul_bound(dx as int, dx as int, 1_073_741_824);
        lemma_mul_bound(dy as int, dy as int, 1_073_741_824);
        assert(dx * dx >= 0) by (nonlinear_arith);
        assert(dy * dy >= 0) by (nonlinear_arith);
    }
    let sq = (dx * dx) as u64 + (dy * dy) as u64;
    let r = floor_sqrt(sq);
    proof {
        lemma_dist_bound(*p, *q);
    }
    r
}

/// The reference heptagon s0 .. s6, used as a test case (coordinates in units of `SCALE`).
pub fn heptagon() -> (v: Vec<Point>)
    ensures
        v@ == heptagon_spec(),
        all_in_range(v@),
{
    vec![
        Point::new(0, 10 * SCALE),
        Point::new(0, 20 * SCALE),
        Point::new(8 * SCALE, 26 * SCALE),
        Point::new(15 * SCALE, 26 * SCALE),
        Point::new(27 * SCALE, 21 * SCALE),
        Point::new(22 * SCALE, 12 * SCALE),
        Point::new(10 * SCALE, 0),
    ]
}

/// The vertices `s0 .. s6` of the reference heptagon.
pub open spec fn heptagon_spec() -> Seq<Point> {
    seq![
        Point { x: 0i64, y: 10000000i64 },
        Point { x: 0i64, y: 20000000i64 },
        Point { x: 8000000i64, y: 26000000i64 },
        Point { x: 15000000i64, y: 26000000i64 },
        Point { x: 27000000i64, y: 21000000i64 },
        Point { x: 22000000i64, y: 12000000i64 },
        Point { x: 10000000i64, y: 0i64 },
    ]
}

} // verus!
