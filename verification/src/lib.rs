//! A small numerical linear-algebra core over exact fixed-point scalars:
//! a dense matrix type with explicit row-major / column-major layout,
//! an algebraic trait hierarchy, and construction utilities.

pub mod fixed;
pub mod math;
pub mod matrix;
pub mod non_macro;
