# clovers

A spectral path tracer, split into a verified library and a renderer.

- `src/` is the library, written and proved with Verus. It holds the parts
  of the renderer whose behaviour is discrete and can be stated exactly:
  - `wavelength`: hero wavelength sampling and rotation over the visible spectrum;
  - `hitable`, `bvh`, `traversal`: the tree of scene entities, building a
    bounding volume hierarchy (longest-axis midpoint and surface area
    heuristic), flattening lists, counting, and the traversal that searches
    the tree for a hit. Shapes and bounding boxes are opaque type parameters;
    every numeric judgement about them is asked of the renderer through the
    `Geometry` and `RayQuery` traits, and the contracts state what the library
    does with each answer the renderer may give;
  - `closest_hit`: the closest-hit laws. Where the ray answers consistently
    and every node's box bounds the hits below it, the search finds a hit
    exactly when one of the tree's primitives is hit, and a nearest one; the
    counting search finds a hit at the same distance;
  - `render`: pixel indexing, thread chunking and row-padded buffer readback;
  - `objects`, `materials`, `pdf`, `axis`: mesh index handling, shared
    material lookup, raw texel access, and the plain data types of the scene;
  - `timing`: presentation helpers for timing statistics.
- `app/` is the command line renderer: file and image I/O, threads, and all
  floating-point geometry and colour computations, which the library cannot hold.
- `tests/` exercises the library on concrete values.
