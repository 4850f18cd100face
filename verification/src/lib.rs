//! The rules of Go on a nine-line board: which placements are legal, what they
//! capture, and the position that results.

pub mod board;
pub mod bot;
pub mod facts;
pub mod frac;
pub mod game;
pub mod notation;
pub mod render;
pub mod rules;
