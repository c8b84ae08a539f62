//! The cells of a grid as elements of a gmsh file.

use vstd::prelude::*;

verus! {

/// A cell as gmsh writes it.
pub struct GmshElement {
    /// Number of the element type: 2 for a triangle, 3 for a quadrangle.
    pub kind: usize,
    /// The corners of the cell, in the order in which gmsh lists them.
    pub vertices: Vec<usize>,
}

/// Place, in a cell with `len` corners, of the corner that gmsh lists
/// `j`-th: a triangle keeps its order, a quadrilateral swaps its last two
/// corners.
pub open spec fn gmsh_vertex(len: int, j: int) -> int {
    if len == 4 && j >= 2 {
        5 - j
    } else {
        j
    }
}

/// The cell as gmsh writes it, or `None` for a cell that is neither a
/// triangle nor a quadrilateral.
pub fn gmsh_element(cell: &[usize]) -> (element: Option<GmshElement>)
    ensures
        match element {
            Some(element) => {
                &&& cell.len() == 3 || cell.len() == 4
                &&& element.kind == cell.len() - 1
                &&& element.vertices.len() == cell.len()
                &&& forall|j: int|
                    0 <= j < cell.len() ==> #[trigger] element.vertices[j] == cell[gmsh_vertex(
                        cell.len() as int,
                        j,
                    )]
            },
            None => cell.len() != 3 && cell.len() != 4,
        },
{
    if cell.len() == 3 {
        let mut vertices: Vec<usize> = Vec::new();
        vertices.push(cell[0]);
        vertices.push(cell[1]);
        vertices.push(cell[2]);
        Some(GmshElement { kind: 2, vertices })
    } else if cell.len() == 4 {
        let mut vertices: Vec<usize> = Vec::new();
        vertices.push(cell[0]);
        vertices.push(cell[1]);
        vertices.push(cell[3]);
        vertices.push(cell[2]);
        Some(GmshElement { kind: 3, vertices })
    } else {
        None
    }
}

/// Number of zero coordinates that gmsh wants behind the coordinates of a
/// point of a grid of the given dimension, to make them three.
pub fn padding(dim: usize) -> (zeros: usize)
    ensures
        zeros == (if dim <= 3 {
            3 - dim
        } else {
            0
        }),
{
    if dim <= 3 {
        3 - dim
    } else {
        0
    }
}

} // verus!
