//! Static type analysis for a compiler front end: interned semantic types,
//! lowering of syntax-level type descriptors, algebraic data type
//! definitions, type alias resolution with recursion detection, and a
//! unification-based expression checker. Failures are reported as
//! diagnostics that travel next to the results.

pub mod diagnostics;
pub mod hir;
pub mod ty;
pub mod model;
pub mod db;
pub mod cycle;
pub mod lower;
pub mod adt;
pub mod queries;
pub mod ty_check;
pub mod laws;
