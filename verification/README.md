# kerr_march

Renders an accretion disk around a Kerr black hole from a GR-MHD simulation snapshot.

- `src/` is the verified library: how the cells of the simulation grid are divided among mesh
  blocks (`layout`, over an `ndarray` table in `ndgrid`), the search for the cell that holds a
  point (`search`), which pixels a render samples and how progress is counted (`sampling`), and
  the choice of render mode and other integer decisions of the renderer (`render`).
- `app/` is the program: reading the HDF5 snapshot, the floating-point geodesic integration and
  shading, the disk radii formulas, and writing the PNG image.
