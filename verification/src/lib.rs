//! A generic in-memory tree kept in an arena, its recursion-free postorder
//! traversal, and the small puzzle solvers that are built on top of it.

pub mod traversal;
pub mod algorithm;
pub mod days;
pub mod direction;
pub mod lines;
pub mod sums;
pub mod text;
pub mod tree;
pub mod window_iter;
