//! Integer core of a boundary element engine with a kernel-independent fast
//! multipole method.
//!
//! The heart of the library is the step of the fast multipole method that
//! takes the fields of sources to targets: Morton keys (`morton`), the octree of one
//! process (`tree`, built in `grow`), the interaction lists and displacement
//! tables (`parents`, `displacement`, `transfer`, `groups`), and the plans
//! that say which coefficients meet in which order (`chunk`, `schedule`,
//! `layout`, `scale`, `fmm`). Around it stand the integer parts of the grids
//! and of the assembly of operators (`shapes`, `builder`, `grid`, `gmsh`,
//! `dofs`, `assembly`, `green`).
//!
//! The library never computes with real or complex numbers. Coefficients
//! pass through it as values of any type that can be copied, and scales are
//! held as powers of two.

pub mod assembly;
pub mod builder;
pub mod chunk;
pub mod displacement;
pub mod dofs;
pub mod fmm;
pub mod gmsh;
pub mod green;
pub mod grid;
pub mod groups;
pub mod grow;
pub mod layout;
pub mod morton;
pub mod parents;
pub mod scale;
pub mod schedule;
pub mod shapes;
pub mod transfer;
pub mod tree;
