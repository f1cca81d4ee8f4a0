//! Exact cover by dancing links, and the reduction of polyomino tilings to it.
pub mod blocks;
pub mod courses;
pub mod nodes;

pub use blocks::{Block2D, Game2D, PieceError, TilingError};
pub use courses::matrix_from_courses;
pub use nodes::{MatrixError, Node};
