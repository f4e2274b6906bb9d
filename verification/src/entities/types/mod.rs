//! The payloads an entity can carry.

pub mod game_type;
pub mod io_service;
