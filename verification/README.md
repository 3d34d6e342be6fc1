# drawlings

Turns a line drawing into the two cam disks of a drawing machine: the line
is traced pixel by pixel into a list of points, and the points' offsets from
the image centre along x and along y become the profiles of the two disks.

Layout:

- `src/` is the verified library (Verus): points and their arithmetic
  (`point`), the RGBA image model (`image`), neighbour orders (`directions`),
  flood fills (`region`), following the line across a crossing colour
  (`search`), the tracer itself (`tracing`), and the disk and plot
  coordinates (`disk`, `plotting`). Every function states its result in its
  contract; the tracer's contract is a step-by-step model of the trace.
- `app/` is the command-line program: argument parsing, image decoding, the
  points file, the circle layouts computed in floating point, and drawing
  the disk and debug images.
- `tests/` exercises the library on small images built in memory.

Limits: an image side may not exceed `i32::MAX` pixels (see
`image::MAX_SIDE`), so that every pixel position is a pair of `i32`
coordinates. A crossing search whose circles leave `i32` coordinates stops
with `TraceError::Overflow`.
