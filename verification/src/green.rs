//! The kernels of the Laplace equation that the engine can be run with.
//!
//! A kernel is named here and evaluated by whoever holds the coordinates:
//! its value at a pair of points is a real or a complex number, which this
//! library never computes with.

use vstd::prelude::*;

verus! {

/// The single-layer kernel of the Laplace equation: one over `4 pi` times the
/// distance between the two points.
#[derive(Clone, Copy, Debug, Default, PartialEq, Eq, Structural)]
pub struct LaplaceGreenKernel {}

/// The derivative of the single-layer kernel of the Laplace equation along
/// the normal at the first point.
#[derive(Clone, Copy, Debug, Default, PartialEq, Eq, Structural)]
pub struct LaplaceGreenDxKernel {}

/// The derivative of the single-layer kernel of the Laplace equation along
/// the normal at the second point.
#[derive(Clone, Copy, Debug, Default, PartialEq, Eq, Structural)]
pub struct LaplaceGreenDyKernel {}

} // verus!
