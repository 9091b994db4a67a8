//! Core of a path-tracing renderer: the discrete heart of the system.
//!
//! Geometry enters this library through *order keys*: every coordinate is an
//! unsigned integer whose ordering mirrors the ordering of the renderer's own
//! coordinate values (the renderer embeds them through a strictly monotone
//! map, so minima, maxima and comparisons computed here agree with the ones it
//! would compute itself).  On top of the keys the library builds and checks
//! the pieces a renderer must get right: bounding boxes and their unions, the
//! bounding volume hierarchy (construction and a traversal driver), the
//! closest-hit selection rule, the bounce budget of the path integrator, and
//! the textual formats at the edges (mesh face records, image headers).
//! Everything numeric that needs real arithmetic — intersection formulas,
//! shading, sampling — stays with the renderer, which feeds its results back
//! in as answers to the queries this library poses.

pub mod aabb;
pub mod bvh;
pub mod loader;
pub mod ppm;
pub mod search;
pub mod shapes;
pub mod trace;
