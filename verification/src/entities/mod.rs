//! The entity hierarchy: the entities, their payloads and the tree that
//! owns them.

pub mod entity;
pub mod entity_tree;
pub mod hierarchy;
pub mod identity;
pub mod laws;
pub mod scene;
pub mod traversal;
pub mod types;
