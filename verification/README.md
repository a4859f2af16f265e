# gdssim

Loads GDS-II chip layouts, builds their nets, extracts their transistors and
runs a three-valued switch-level simulation, with proofs in Verus.

- `src/` is the verified library. Coordinates are whole database units; a query
  point may lie on a finer grid. Each function states what it returns over
  mathematical models; the functions whose names begin with `law_` state what
  holds of several of them together.
- `tests/` runs the library on examples.
- `app/` is a host around it, which answers commands on standard input: it reads
  files, triangulates polygons, and places what leaves the database grid (any
  angle or magnification, slanted paths).

The library trusts one outside crate, `gds21`, to parse a stream: see
`src/reader.rs`.
