# rat-king

Pattern fills for pen plotters: read the shapes of an SVG document, fill
each with one of thirty patterns (hatching, spirals, space-filling curves,
tilings, …), order the shapes to shorten pen travel, and write the strokes
as SVG or JSON. A terminal viewer previews the fills.

## Layout

- `src/` — the verified library (Verus): the logic of the program that
  works on integers, text and flags, each function with a contract:
  - `patterns` — the pattern catalogue: names, aliases, UI labels;
  - `hilbert`, `peano` — the Hilbert and Peano curves as sequences of grid
    cells, with proofs that each visits every cell exactly once;
  - `lsystem` — the L-system string of the Sierpiński curve and the
    turtle's heading at each step;
  - `contour` — the cell table of the contour tracing behind the gyroid;
  - `rng` — the linear congruential and xorshift generators, including the
    exact double-precision index draw;
  - `order` — the greedy nearest-neighbour ordering of shapes over
    distance keys;
  - `sketchy`, `chain` — polygon outlines and polylines as segments, and
    the counts of a set of chains;
  - `linking` — the order in which segments are joined into polylines,
    with proofs that each segment is used once and each joins the next;
  - `clipping` — what clipping keeps of a segment, from its crossings;
  - `coverage` — the pixel counts comparing a pattern with a solid fill;
  - `dedup` — removal of repeated segments;
  - `svg` — the `viewBox` attribute, document framing, errors, and the
    assembly of holes into their outer polygons;
  - `viewer` — key bindings, list navigation and layout of the terminal
    viewer;
  - `args` — the reading of the `fill`, `benchmark` and `harness` options.
- `app/` — the command-line program and terminal viewer, with the
  floating-point geometry (intersections, hatching, the pattern
  generators, endpoint matching, the hand-drawn effect), rendering,
  and the SVG parsing.
- `tests/` — tests of the library.
