# rerecast

A navigation-mesh building library whose integer core carries
machine-checked contracts and proofs.

- `src/` holds the verified library: spans and heightfields, the compact
  heightfield and its neighbour links, erosion, region building, contour
  setup, polygon geometry, ear-clipping triangulation, the polygon-mesh
  helpers (vertex welding, merging, adjacency, and the removal of a
  vertex with the re-triangulation of the hole it leaves), the building
  of the polygon mesh from a contour set, the
  height patches of the detail mesh, area marking and triangle-mesh
  topology. Each public function states what it returns or changes; the
  `law_*` proof functions state properties that hold across calls.
- `tests/` runs the library on concrete inputs.
- `app/` is the world-space layer: bounding boxes, cell sizes, the
  contour error and the floating-point sampling of the detail mesh, which convert to and from the
  grid values the library works on.
