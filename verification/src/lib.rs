//! A verified state engine for the game of Go.
//!
//! The engine tracks stone placement, connected-group (chain) formation,
//! liberties, captures, and move legality (including suicide and positional
//! superko), and keeps an immutable history of game states.  Rendering and
//! move selection are collaborator concerns and live outside this crate.

pub mod error;
pub mod game;
pub mod goboard;
pub mod gostring;
pub mod gotypes;
