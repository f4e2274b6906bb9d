//! Contains the `Game` entity payload.

use vstd::prelude::*;

verus! {

/// The game's genre.
#[derive(Debug, Clone, Copy, PartialEq, Eq, Structural)]
pub enum GameGenre {
    /// Action
    Action,
    /// Adventure
    Adventure,
    /// None
    Undefined,
}

impl Default for GameGenre {
    fn default() -> (genre: Self)
        ensures
            genre == GameGenre::Undefined,
    {
        GameGenre::Undefined
    }
}

/// The game payload, carried by the head of an `EntityTree`.
#[derive(Debug, Clone, Copy, PartialEq, Eq, Structural)]
pub struct Game {
    /// The game genre
    pub genre: GameGenre,
}

impl Game {
    /// Creates a new `Game` payload of the given genre.
    pub fn new(genre: GameGenre) -> (game: Self)
        ensures
            game.genre == genre,
    {
        Self { genre }
    }
}

impl Default for Game {
    fn default() -> (game: Self)
        ensures
            game.genre == GameGenre::Undefined,
    {
        Self { genre: GameGenre::Undefined }
    }
}

} // verus!
