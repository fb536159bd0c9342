# fractal_glyph

Draws ordered, labelled samples as miniatures along a Hilbert curve: each
sample gets the pixel of its rank on the curve, colored by its class.

- `src/` is the verified library (Verus):
  - `sample`: samples and records, ordering of the records, fake data,
    divergence relabelling, correct-prediction count, class count;
  - `sort`: a stable sort by key;
  - `colors`: colors and palettes;
  - `raster`: images, drawing placements, the relative (neighbour-based) image;
  - `curve`: the Hilbert curve (through the `hilbert` crate);
  - `builder`: `FractalImageBuilder`, which places and draws the samples;
  - `quality`: the neighbourhood quality sums;
  - `gosper`: the index descent of the Gosper curve;
  - `border`: the border box used by the barycentric layout.
- `app/` is the command-line program: file reading and writing, the
  floating-point parts (accuracy percentage, color gradient, Gosper geometry,
  barycentric layout) and the argument handling.
- `tests/` exercises the library on concrete values.
