//! Meshes: the vertices and the indices that the renderer draws, and the
//! scanning of their text format.

pub mod geometry;
pub mod text;
