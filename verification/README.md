# flo_curves (verified core)

Routines for inspecting and combining cubic Bézier curves and paths, written in Verus with their
behaviour stated as contracts and proved.

Coordinates live on an integer grid (`Coord2(i32, i32)`), so every computation is exact:

- distances and tolerances become exact comparisons (two points "within a small distance" of each
  other on the grid are equal points);
- the control points of the straight edge that closes a graph made from an open path (33% and 66%
  of the way along) are rounded down to the grid, less than one grid step from the exact points;
- stroke outlines are built in thirds of a grid step (`Coord2Thirds`), so the control points of a
  butt end cap, a third and two thirds of the way along, are exact;
- the classification of a cubic curve works on the exact rational canonical form of the curve.

Modules:

- `geo`: grid coordinates and exact arithmetic on them.
- `curve`: cubic curves, bounding boxes, reversal.
- `characteristics`: the canonical form of a cubic curve and its category (point, line, arch,
  inflections, cusp, loop).
- `path`: paths made of a start point and cubic sections; their curves and fast bounds.
- `fill`: the ray-casting helpers of the flood fill (nearest collision, long edges, direction).
- `stroke`: line styles, butt end caps, assembling a stroked outline into a path.
- `graph_path`: graph paths used for path arithmetic: building them from paths, merging, reverse
  connections, following edges, marking connected edges, finding and healing gaps in the exterior
  edges, tracing exterior edges back into paths, and removing very short edges.
- `arithmetic`, `scan`: the descriptions of path arithmetic operations and the scan converter
  configuration.

Edge lists inside a graph path are `smallvec::SmallVec`s, reached through small trusted wrappers
whose contracts state what each `SmallVec` operation does to the list.

Not part of this library: the algorithms that need real-valued arithmetic (intersecting, fitting,
offsetting and stroking curves with round joins and caps, flood filling and rasterizing, and tight
bounding boxes, which need the curves' extreme points). Everything here works on the grid and is exact.
