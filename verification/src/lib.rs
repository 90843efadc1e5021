//! Puzzle logic of a pipe-rotation game: tiles, the maze that seeds a level,
//! the tracker of connected regions, and the board that ties them together.

pub mod audio_effect;
pub mod board;
pub mod colors;
pub mod digits;
pub mod game;
pub mod grid;
pub mod input;
pub mod laws;
pub mod level;
pub mod maze;
pub mod pipe;
pub mod play;
pub mod random;
pub mod tracker;
pub mod update;
pub mod win;
