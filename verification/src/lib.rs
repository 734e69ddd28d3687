//! Exact-cover solving with dancing links.
//!
//! The crate builds a sparse 0/1 matrix as a toroidal, quadruply linked
//! structure held in contiguous vectors, keeps the minimum-size primary
//! column in a priority queue, and enumerates exact covers with an
//! iterative realisation of Knuth's Algorithm X.

pub mod builders;
pub mod cells;
pub mod item;
pub mod matrix;
pub mod queue;
pub mod solver;

pub use builders::{BuilderError, MatrixBuilder, MatrixColBuilder, MatrixRowBuilder, ProtoMatrix};
pub use cells::{Cell, CellRow, ColumnInfo, ColumnName, ProtoCell, ProtoColumn};
pub use item::Item;
pub use matrix::{ColumnSpec, DancingLinksMatrix, MatState};
pub use solver::{IterativeAlgorithmXSolver, Solution};
