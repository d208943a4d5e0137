//! Analysis of Tetris setups: which piece orders let every piece of a setup
//! be dropped into place.

pub mod encoder;
pub mod extract;
pub mod field;
pub mod fieldmatrix;
pub mod fumen;
pub mod percentage;
pub mod piece;
pub mod piece_col;
pub mod placement;
