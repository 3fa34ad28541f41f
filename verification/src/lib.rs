//! Rules and opponent search for an 11×11 tafl game: a king and his
//! defenders against attackers.
//!
//! Every function is verified against a contract stated over the grid of a
//! [`game::board::Board`], a sequence of eleven rows of eleven tiles.

pub mod game;
