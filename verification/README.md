# kika

A robust 2D geometry kernel whose combinatorial core is verified with
Verus: segment classification, convex hulls, polygon checks, Delaunay and
constrained Delaunay triangulation, polygon triangulation (with holes),
point location and Voronoi topology.

The exact geometric predicates (orientation, in-circle) work on `f64`
coordinates with floating-point expansion arithmetic. The verified library
never computes with floats: it sees each coordinate as an `i64` order key
that compares as the coordinate does, and it receives the predicates as
functions, so every contract states what the library does with whatever
answers the predicates give.

Layout:

- `src/` — the verified library (`kika`).
  - `sign.rs`, `kinds.rs`, `ids.rs`, `error.rs` — the shared vocabulary.
  - `segments.rs` — point/segment, point/triangle and point/ring relations,
    segment intersection classification.
  - `geometry.rs` — self-intersection and ring-intersection searches, cheap
    polygon validity.
  - `hull.rs` — sorted deduplication and the monotone-chain convex hull.
  - `triangulation/` — topology assembly and validation, incremental
    Delaunay construction, constraint insertion by edge flips, constrained
    Delaunay triangulation, polygon triangulation, point location, union
    find and Voronoi topology.
- `tests/` — tests against the library, with exact integer predicates.
- `app/` — the `f64` front end: point types, the exact predicates and
  constructions, and the entry points that hand order keys and predicates
  to the library.
