//! The integer side of the batched assembly of potential operators: the
//! options of an assembler, the batches that the cells of one colour are cut
//! into, and the places of the entries that a batch adds to.

use vstd::prelude::*;
use std::collections::HashMap;

verus! {

broadcast use vstd::std_specs::hash::group_hash_axioms;

/// The type of a reference cell.
#[derive(Clone, Copy, Debug, PartialEq, Eq, Structural, Hash)]
pub enum ReferenceCellType {
    /// A point.
    Point,
    /// A line interval.
    Interval,
    /// A triangle.
    Triangle,
    /// A quadrilateral.
    Quadrilateral,
    /// A tetrahedron.
    Tetrahedron,
    /// A hexahedron.
    Hexahedron,
    /// A triangular prism.
    Prism,
    /// A square-based pyramid.
    Pyramid,
}

impl ReferenceCellType {
    /// Number under which the options of an assembler keep a cell type.
    pub open spec fn spec_code(self) -> u8 {
        match self {
            ReferenceCellType::Point => 0,
            ReferenceCellType::Interval => 1,
            ReferenceCellType::Triangle => 2,
            ReferenceCellType::Quadrilateral => 3,
            ReferenceCellType::Tetrahedron => 4,
            ReferenceCellType::Hexahedron => 5,
            ReferenceCellType::Prism => 6,
            ReferenceCellType::Pyramid => 7,
        }
    }

    /// Number under which the options of an assembler keep a cell type.
    pub fn code(&self) -> (code: u8)
        ensures
            code == self.spec_code(),
    {
        match self {
            ReferenceCellType::Point => 0,
            ReferenceCellType::Interval => 1,
            ReferenceCellType::Triangle => 2,
            ReferenceCellType::Quadrilateral => 3,
            ReferenceCellType::Tetrahedron => 4,
            ReferenceCellType::Hexahedron => 5,
            ReferenceCellType::Prism => 6,
            ReferenceCellType::Pyramid => 7,
        }
    }
}

/// Options for a batched assembler.
pub struct BatchedPotentialAssemblerOptions {
    /// Number of points used in quadrature for non-singular integrals, by
    /// the code of the cell type.
    pub quadrature_degrees: HashMap<u8, usize>,
    /// Maximum size of each batch of cells to send to an assembly function.
    pub batch_size: usize,
}

impl Default for BatchedPotentialAssemblerOptions {
    /// Thirty-seven quadrature points on triangles and on quadrilaterals,
    /// and batches of at most 128 cells.
    fn default() -> (options: Self)
        ensures
            options.batch_size == 128,
            options.quadrature_degrees@ == Map::<u8, usize>::empty().insert(
                ReferenceCellType::Triangle.spec_code(),
                37,
            ).insert(ReferenceCellType::Quadrilateral.spec_code(), 37),
    {
        let mut quadrature_degrees: HashMap<u8, usize> = HashMap::new();
        quadrature_degrees.insert(ReferenceCellType::Triangle.code(), 37);
        quadrature_degrees.insert(ReferenceCellType::Quadrilateral.code(), 37);
        BatchedPotentialAssemblerOptions { quadrature_degrees, batch_size: 128 }
    }
}

impl BatchedPotentialAssemblerOptions {
    /// Set the (non-singular) quadrature degree for a cell type that the
    /// options hold a degree for.
    pub fn quadrature_degree(&mut self, cell: ReferenceCellType, degree: usize)
        requires
            old(self).quadrature_degrees@.contains_key(cell.spec_code()),
        ensures
            final(self).quadrature_degrees@ == old(self).quadrature_degrees@.insert(
                cell.spec_code(),
                degree,
            ),
            final(self).batch_size == old(self).batch_size,
    {
        self.quadrature_degrees.insert(cell.code(), degree);
    }

    /// The quadrature degree for a cell type, if the options hold one.
    pub fn degree(&self, cell: ReferenceCellType) -> (degree: Option<usize>)
        ensures
            match degree {
                Some(d) => self.quadrature_degrees@.contains_key(cell.spec_code()) && d
                    == self.quadrature_degrees@[cell.spec_code()],
                None => !self.quadrature_degrees@.contains_key(cell.spec_code()),
            },
    {
        match self.quadrature_degrees.get(&cell.code()) {
            Some(d) => Some(*d),
            None => None,
        }
    }

    /// Set the maximum size of a batch of cells to send to an assembly
    /// function.
    pub fn batch_size(&mut self, size: usize)
        ensures
            final(self).batch_size == size,
            final(self).quadrature_degrees@ == old(self).quadrature_degrees@,
    {
        self.batch_size = size;
    }
}

/// End of the batch that starts at cell `start`, among `len` cells cut into
/// batches of at most `batch_size`.
pub open spec fn batch_end(start: int, len: int, batch_size: int) -> int {
    if start + batch_size < len {
        start + batch_size
    } else {
        len
    }
}

/// `batches` cuts the cells `0` to `len` into ranges of `batch_size` cells,
/// one after the other, the last one shorter where the cells run out.
pub open spec fn is_batching(batches: Seq<(usize, usize)>, len: int, batch_size: int) -> bool {
    &&& len == 0 ==> batches.len() == 0
    &&& len > 0 ==> batches.len() > 0 && batches.last().1 == len
    &&& forall|k: int|
        0 <= k < batches.len() ==> (#[trigger] batches[k]).0 == k * batch_size && batches[k].1
            == batch_end(k * batch_size, len, batch_size) && batches[k].0 < batches[k].1
}

/// The batches that `len` cells of one colour are sent to the assembly
/// function in, each as the range of its cells.
pub fn batches(len: usize, batch_size: usize) -> (batches: Vec<(usize, usize)>)
    requires
        batch_size >= 1,
    ensures
        is_batching(batches@, len as int, batch_size as int),
{
    let mut batches: Vec<(usize, usize)> = Vec::new();
    let mut start: usize = 0;
    proof {
        assert(0 * batch_size == 0) by (nonlinear_arith);
    }
    while start < len
        invariant
            batch_size >= 1,
            start <= len,
            start == len || start == batches.len() * batch_size,
            start == 0 ==> batches.len() == 0,
            start > 0 ==> batches.len() > 0 && batches@.last().1 == start,
            forall|k: int|
                0 <= k < batches.len() ==> (#[trigger] batches[k]).0 == k * batch_size && batches[k].1
                    == batch_end(k * batch_size, len as int, batch_size as int) && batches[k].0
                    < batches[k].1,
        decreases len - start,
    {
        let end = if batch_size < len - start {
            start + batch_size
        } else {
            len
        };
        proof {
            assert((batches.len() + 1) * batch_size == batches.len() * batch_size + batch_size)
                by (nonlinear_arith);
        }
        batches.push((start, end));
        start = end;
    }
    batches
}

/// Why a dense matrix cannot be assembled into.
#[derive(Clone, Copy, Debug, PartialEq, Eq, Structural)]
pub enum AssemblyError {
    /// The function space is spread over processes.
    NotSerial,
    /// The matrix does not have a row for each point and a column for each
    /// degree of freedom.
    WrongShape,
}

/// Whether a matrix of the given shape can take the potential operator of a
/// function space with `global_size` degrees of freedom at `npoints` points.
pub fn check_dense_shape(
    is_serial: bool,
    shape: [usize; 2],
    npoints: usize,
    global_size: usize,
) -> (checked: Result<(), AssemblyError>)
    ensures
        match checked {
            Ok(()) => is_serial && shape[0] == npoints && shape[1] == global_size,
            Err(AssemblyError::NotSerial) => !is_serial,
            Err(AssemblyError::WrongShape) => is_serial && (shape[0] != npoints || shape[1]
                != global_size),
        },
{
    if !is_serial {
        return Err(AssemblyError::NotSerial);
    }
    if shape[0] != npoints || shape[1] != global_size {
        return Err(AssemblyError::WrongShape);
    }
    Ok(())
}

/// Place of the entry `(row, col)` in a matrix of `nrows` rows that is kept
/// column after column.
pub fn dense_index(row: usize, col: usize, nrows: usize, ncols: usize) -> (index: usize)
    requires
        row < nrows,
        col < ncols,
        nrows * ncols <= usize::MAX,
    ensures
        index == row + nrows * col,
        index < nrows * ncols,
{
    proof {
        crate::layout::lemma_cell_in_table(col as int, row as int, ncols as int, nrows as int);
        assert(nrows * col == col * nrows) by (nonlinear_arith);
        assert(nrows * ncols == ncols * nrows) by (nonlinear_arith);
    }
    row + nrows * col
}

/// Place of the value of the kernel at quadrature point `index` and
/// evaluation point `point_index` in the values for `npts` quadrature points
/// and `deriv_size` derivatives, of which the first is read.
pub fn kernel_index(
    index: usize,
    point_index: usize,
    npts: usize,
    deriv_size: usize,
    nevalpts: usize,
) -> (place: usize)
    requires
        index < npts,
        point_index < nevalpts,
        deriv_size >= 1,
        npts * deriv_size * nevalpts <= usize::MAX,
    ensures
        place == index + npts * (deriv_size * point_index),
        place < npts * deriv_size * nevalpts,
{
    proof {
        let block = npts * deriv_size;
        assert(block >= npts) by (nonlinear_arith)
            requires
                block == npts * deriv_size,
                deriv_size >= 1,
                npts >= 0,
        ;
        crate::layout::lemma_row_in_table(point_index as int, nevalpts as int, block as int);
        assert(npts * (deriv_size * point_index) == point_index * block) by (nonlinear_arith)
            requires
                block == npts * deriv_size,
        ;
        assert(npts * deriv_size * nevalpts == nevalpts * block) by (nonlinear_arith)
            requires
                block == npts * deriv_size,
        ;
        assert(0 <= deriv_size * point_index <= npts * (deriv_size * point_index))
            by (nonlinear_arith)
            requires
                npts >= 1,
                deriv_size >= 0,
                point_index >= 0,
        ;
    }
    index + npts * (deriv_size * point_index)
}

} // verus!
