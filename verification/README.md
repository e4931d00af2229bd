# orion

Voxel terrain for a small Bevy engine, with its logic verified by Verus.

- `src/` is the verified library:
  - `shape`: `ndshape`'s linear indexing of 3D arrays, called through two
    trusted wrappers.
  - `voxels`: chunk grids of samples, built by sampling a caller's function
    and read back by linear index.
  - `lex`: concatenations over a cube of cells, the specification tool for
    the meshing loops.
  - `surface_nets`: surface-nets mesh topology from inside/outside flags:
    which cells carry vertices, their numbering, and the triangle list.
  - `render_views`: which root views the camera driver renders and which
    windows are left to clear.
  - `input`: cursor capture and free-camera movement keys.
  - `sdf`: the CSG nodes (union, subtraction).
- `app/` is the engine: Bevy plugins and render passes, signed distance
  fields and everything else that works on floating-point values.
- `tests/` runs the library on concrete chunks and inputs.
