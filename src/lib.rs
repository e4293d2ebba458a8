//! A 9×9 block-placement puzzle: boards with a line-clearing rule, a shape
//! catalog, and an exhaustive search for the best way to play a hand.

pub mod board;
pub mod search;
pub mod hand;
pub mod catalog;
pub mod game;
