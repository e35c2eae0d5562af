//! Rule engine of a falling-block puzzle game.
//!
//! The library owns the play-field, the active piece, collision testing,
//! rotation and translation legality, line-clear detection, scoring and
//! level progression.  Rendering, input decoding, timing and the high-score
//! file live outside; they drive this core through its public methods and
//! read its state back.

pub mod highscore;
pub mod tetrimino;
pub mod tetris;
