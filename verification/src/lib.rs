//! Board transition engine for a sliding-tile merge puzzle.
//!
//! A rectangular grid holds optional tiles; a step slides every tile as far
//! as possible in a chosen compass direction, merging colliding equal tiles
//! into one tile of the next generation. The engine returns the ordered list
//! of moves that occurred, which an (unverified) rendering layer interpolates
//! over an animation clock.

pub mod animation;
pub mod game;
pub mod lemmas;
pub mod model;
pub mod layout;
pub mod rng;
pub mod traversal;
pub mod v2;
