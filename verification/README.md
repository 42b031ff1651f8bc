# triangulation

Minimum-weight triangulation of a convex polygon, verified with Verus.

Vertices have fixed-point integer coordinates (`SCALE` units per unit of
length); a chord weighs the floor of its Euclidean length in those units.

- `src/polygon.rs`: points, exact orientation tests, segment crossing, integer
  square root and chord lengths, strict convexity.
- `src/triangulation.rs`: the optimum `opt` of a sub-polygon, chords,
  crossing, triangulations and their total length.
- `src/decomposition.rs`: decompositions of a sub-polygon by choices of apex
  triangles, the chords they build, and their uniqueness.
- `src/dynamic.rs`: the O(n^3) dynamic programme and the reconstruction of its
  chords, proved to give an optimal triangulation.
- `src/lower_bound.rs`: every set of pairwise non-crossing chords has at most
  n - 3 chords, is maximal exactly when it has n - 3, every triangulation comes
  from a decomposition, and a triangulation costs at least the optimum.
- `src/greedy.rs`: greedy ear cutting, proved to give a triangulation.
- `src/backtracking.rs`: enumeration of chords, chord validity and the
  branch-and-bound search, proved to return the cheapest drawable selection.
- `src/convex.rs`: on a strictly convex polygon, geometric and combinatorial
  crossing agree, so the search and the dynamic programme find the same cost.
- `src/symmetry.rs`: the optimum depends neither on which vertex is listed
  first nor on the direction in which the vertices are listed.
- `app/main.rs`: the driver that prints results and timings.
