//! Geometry and triangle meshes for a small software renderer.
//!
//! The library holds the parts of the renderer that do not depend on
//! floating point: points and triangles generic over their coordinate
//! type, triangle meshes with their index structure, the binary STL
//! format, vertex deduplication, and the integer layout of checkerboard
//! planes. Coordinates read from STL files are held as the bit patterns
//! of their `f32` values.
pub mod geometry;
pub mod object;
pub mod order;
pub mod plane;
pub mod stl;
