//! Exact geometric (Clifford) algebra over an orthonormal basis.
//!
//! A `Component` is a single canonical blade: a rational coefficient times an
//! ascending, duplicate-free sequence of basis vectors. A `Multivector` is a
//! grade-sorted sum of components. The canonicalization algorithm and every
//! product built on it (geometric, outer, contractions, duality) are verified
//! against mathematical specifications.

pub mod basis;
pub mod canon;
pub mod component;
pub mod determinant;
pub mod geometry;
pub mod laws;
pub mod multivector;
pub mod rational;
pub mod text;
