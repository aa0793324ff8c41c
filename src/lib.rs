//! A procedurally carved grid maze and a grid-stepped player that walks it.
//!
//! `map` holds the maze and its carver, `player` the player's state machine and
//! animation integrators, `news` the direction algebra both rest on.
pub mod map;
pub mod news;
pub mod player;
mod random;
