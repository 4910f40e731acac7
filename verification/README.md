# triangulator

Two small programs around one verified library.

- The image triangulator reads a picture, finds its edges, scatters points where the
  edges are strong, triangulates them and paints each triangle with the mean colour of
  its pixels.
- The maze runner scatters points, connects them, prunes the connections (chaotic,
  planar or Delaunay) and finds shortest paths from the first point.

`src/` is the library, proved with Verus:

- `ndgrid`: owned `ndarray` arrays of bytes and indices, seen as maps from coordinates
  to values, behind thin trusted wrappers;
- `utl`: RGB buffers to rasters and back, the brush that draws a mesh picture, the
  colour lookup table of a triangle mesh and the painting that applies it;
- `picture`: a picture with a fixed `(height, width, 3)` shape and its colour map;
- `graph`: which connections of a maze survive the Delaunay and planar passes, given
  the geometric tests on the points.

`app/` holds `main`, file I/O and the floating-point geometry (edge detection, point
sampling, point-in-triangle tests, distances, circumcircles, Dijkstra's search); it hands
the library plain values and takes plain values back. `tests/` exercises the library.
