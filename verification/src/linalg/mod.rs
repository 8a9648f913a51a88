//! Dense vectors and square matrices over any element type.

pub mod matrix;
pub mod vector;

pub use matrix::SquareMatrix;
pub use vector::Vector;
