# geokernel

A small mesh geometry kernel: binary STL files, indexed triangle meshes with
their neighbour relation, and the discrete steps of mesh boolean operations.

- `src/` is the verified library. `bo::stl` reads and writes the binary STL
  format (bytes in, bytes out; little-endian numbers through `byteorder`);
  `bo::mesh` keeps each point once, maintains the neighbour lists of the
  triangles and builds a mesh from the triangles read from a file; `cf::enumerate` lists the triangle pairs to intersect;
  `cf::perform_bool_op::separate` spreads inner/outer sides over a cut mesh;
  `cf::triangulate` picks the working plane of the triangulation and moves
  points into it and back. Coordinates are carried as the bit patterns of `f32` values.
- `app/` holds the floating-point geometry (points, vectors, segments, lines,
  planes, triangles, their intersections, the triangulation and the boolean
  operations), the STL readers and writers on `std::io`, and the timing
  metric.
- `tests/` exercises the library.
