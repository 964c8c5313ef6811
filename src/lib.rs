//! A two-player naval combat game: boards with randomly laid out fleets, the
//! fire / hit / sink rules, and the turn machine that alternates the shooters.

pub mod board;
pub mod game;
pub mod input;
pub mod laws;
mod random;
