# graphics_engine

A small software renderer split in two.

- `src/` is a Verus-verified library: points and triangles generic over
  their coordinate type (`geometry`), triangle meshes whose faces always
  index existing vertices and carry one normal each (`object`), vertex
  merging by key (vertices with an infinite or NaN coordinate are
  never merged), the
  painter's order of faces by integer depth key (`order`), the binary STL format read from bytes with coordinates
  kept as `f32` bit patterns (`stl`), and the integer layout of the two
  colours of a checkerboard floor (`plane`).
- `app/` is the viewer: file reading, rotations and projections in `f32`,
  lighting, and drawing with macroquad.
