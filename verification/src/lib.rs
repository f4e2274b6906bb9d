//! The core of a small real-time engine: a scene graph of entities with
//! stable identities, kept in one registry, parented and re-parented without
//! cycles, and queried by ancestry and descendancy; and the meshes that the
//! engine draws, with the scanning of their text format.

pub mod entities;
pub mod mesh;
