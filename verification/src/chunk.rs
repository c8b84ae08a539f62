//! Sizes of the convolution grid and of the chunks of parents that the
//! sibling-group translation works through.

use vstd::prelude::*;

verus! {

/// Number of coefficients of an expansion of the given order: the points of
/// a grid of `order` points along each edge of a cube that lie on the cube's
/// surface.
pub open spec fn spec_ncoeffs(order: int) -> int {
    6 * (order - 1) * (order - 1) + 2
}

/// The points on the surface of a cubic grid are the grid without the grid
/// of its inner points.
pub proof fn lemma_ncoeffs_is_surface(order: int)
    requires
        order >= 2,
    ensures
        spec_ncoeffs(order) == order * order * order - (order - 2) * (order - 2) * (order - 2),
{
    assert(6 * (order - 1) * (order - 1) + 2 == order * order * order - (order - 2) * (order - 2)
        * (order - 2)) by (nonlinear_arith);
}

/// Number of coefficients of an expansion of the given order, or `None`
/// where that number does not fit.
pub fn ncoeffs(order: usize) -> (n: Option<usize>)
    requires
        order >= 1,
    ensures
        match n {
            Some(n) => n == spec_ncoeffs(order as int),
            None => spec_ncoeffs(order as int) > usize::MAX,
        },
{
    let edge = order - 1;
    match edge.checked_mul(edge) {
        Some(square) => {
            proof {
                assert(6 * (order - 1) * (order - 1) == 6 * (edge * edge)) by (nonlinear_arith)
                    requires
                        edge == order - 1,
                ;
            }
            match square.checked_mul(6) {
                Some(faces) => faces.checked_add(2),
                None => None,
            }
        },
        None => {
            proof {
                assert(6 * (order - 1) * (order - 1) >= edge * edge) by (nonlinear_arith)
                    requires
                        edge == order - 1,
                ;
            }
            None
        },
    }
}

/// Sizes of the padded grid on which sibling groups are convolved.
#[derive(Clone, Copy, Debug, PartialEq, Eq, Structural)]
pub struct ConvolutionGrid {
    /// Side of the grid before padding, `2 order - 1`.
    pub n: usize,
    /// Side of the padded grid, `n + 1`.
    pub npad: usize,
    /// Number of points of the padded grid, `npad^3`.
    pub size: usize,
    /// Number of complex bins of its real-to-complex transform,
    /// `npad^2 (npad / 2 + 1)`.
    pub size_real: usize,
}

impl ConvolutionGrid {
    /// The sizes are those of the grid of the given order.
    pub open spec fn is_for(self, order: int) -> bool {
        &&& self.n == 2 * order - 1
        &&& self.npad == self.n + 1
        &&& self.size == self.npad * self.npad * self.npad
        &&& self.size_real == self.npad * self.npad * (self.npad / 2 + 1)
    }

    /// The grid of the given order, or `None` where its number of points
    /// does not fit.
    pub fn new(order: usize) -> (grid: Option<ConvolutionGrid>)
        requires
            order >= 1,
        ensures
            match grid {
                Some(grid) => grid.is_for(order as int),
                None => 8 * order * order * order > usize::MAX,
            },
    {
        let npad = match order.checked_mul(2) {
            Some(npad) => npad,
            None => {
                proof {
                    assert(8 * order * order * order >= 2 * order) by (nonlinear_arith)
                        requires
                            order >= 1,
                    ;
                }
                return None;
            },
        };
        let square = match npad.checked_mul(npad) {
            Some(square) => square,
            None => {
                proof {
                    assert(8 * order * order * order >= npad * npad) by (nonlinear_arith)
                        requires
                            order >= 1,
                            npad == 2 * order,
                    ;
                }
                return None;
            },
        };
        let size = match square.checked_mul(npad) {
            Some(size) => size,
            None => {
                proof {
                    assert(8 * order * order * order == square * npad) by (nonlinear_arith)
                        requires
                            npad == 2 * order,
                            square == npad * npad,
                    ;
                }
                return None;
            },
        };
        proof {
            assert(square * (npad / 2 + 1) <= square * npad) by (nonlinear_arith)
                requires
                    npad >= 2,
                    square >= 0,
            ;
        }
        let size_real = square * (npad / 2 + 1);
        Some(ConvolutionGrid { n: npad - 1, npad, size, size_real })
    }
}

/// Most parents that a chunk holds at `level`.
pub open spec fn spec_max_chunk_size(level: int) -> int {
    if level == 2 {
        8
    } else if level == 3 {
        64
    } else {
        128
    }
}

/// Most parents that a chunk holds at `level`.
pub fn max_chunk_size(level: u64) -> (size: usize)
    ensures
        size == spec_max_chunk_size(level as int),
{
    if level == 2 {
        8
    } else if level == 3 {
        64
    } else {
        128
    }
}

/// `size` is the greatest divisor of `n` that is at most `max_chunk_size`, or
/// one where `max_chunk_size` is zero.
pub open spec fn is_chunk_size(size: int, n: int, max_chunk_size: int) -> bool {
    if max_chunk_size == 0 {
        size == 1
    } else {
        &&& 1 <= size <= max_chunk_size
        &&& n % size == 0
        &&& forall|d: int| size < d <= max_chunk_size ==> #[trigger] (n % d) != 0
    }
}

/// Number of parents in a chunk: the greatest divisor of `n` that is at most
/// `max_chunk_size`.
pub fn find_chunk_size(n: usize, max_chunk_size: usize) -> (size: usize)
    ensures
        is_chunk_size(size as int, n as int, max_chunk_size as int),
{
    let mut divisor = max_chunk_size;
    while divisor >= 1
        invariant
            divisor <= max_chunk_size,
            forall|d: int| divisor < d <= max_chunk_size ==> #[trigger] (n as int % d) != 0,
        decreases divisor,
    {
        if n % divisor == 0 {
            return divisor;
        }
        divisor = divisor - 1;
    }
    proof {
        if max_chunk_size >= 1 {
            assert(n as int % 1 == 0);
        }
    }
    1
}

} // verus!
