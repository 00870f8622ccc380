//! Rules engine of a sliding-tile merge puzzle: a rectangular grid of numeric
//! tiles that shift and merge when pushed in one of four directions, with
//! seeded tile spawns, a running score and bounded undo.
//!
//! Every executable function carries a contract over the mathematical model
//! of the state ([`model::GameView`]); the general properties of the engine
//! are proved in [`laws`].
//!
//! - [`pair`], [`direction`]: the origins of a cell, and the four directions.
//! - [`grid`]: matrices, reversing their rows and transposing them.
//! - [`tiles`]: the push to the left on one row: slide, merge, slide.
//! - [`board`]: a push on the whole board, and what it does to tiles and origins.
//! - [`sums`]: a push neither makes nor loses value.
//! - [`generator`], [`spawn`]: the seeded generator and where new tiles appear.
//! - [`model`], [`game`]: the model of a game, and the game itself.
//! - [`laws`]: what holds of every game.

pub mod board;
pub mod direction;
pub mod game;
pub mod generator;
pub mod grid;
pub mod laws;
pub mod model;
pub mod pair;
pub mod spawn;
pub mod sums;
pub mod tiles;

pub use direction::Direction;
pub use game::{Game, PushResult};
pub use model::{DEFAULT_SIZE, MAX_SIZE, MIN_SIZE};
pub use pair::Pair;
