//! Grid builder for grids of flat triangles.
//!
//! Points and cells are added under identifiers of the caller's choice; the
//! builder numbers them in the order in which they come and keeps the passage
//! between identifiers and numbers. The coordinates are carried, never
//! computed with, so they may be of any type that can be copied.

use vstd::prelude::*;
use std::collections::HashMap;

verus! {

broadcast use vstd::std_specs::hash::group_hash_axioms;

/// `ids` lists distinct identifiers and `indices` sends each to its place in
/// `ids`, and holds nothing else.
pub open spec fn numbers(ids: Seq<usize>, indices: Map<usize, usize>) -> bool {
    &&& forall|i: int| 0 <= i < ids.len() ==> indices.contains_key(#[trigger] ids[i])
    &&& forall|id: usize| #[trigger]
        indices.contains_key(id) ==> indices[id] < ids.len() && ids[indices[id] as int] == id
    &&& forall|i: int| 0 <= i < ids.len() ==> #[trigger] indices[ids[i]] == i
}

/// Grid builder for a flat triangle grid.
pub struct FlatTriangleGridBuilder<T: Copy> {
    /// Coordinates of the points, three for each point.
    pub points: Vec<T>,
    /// Numbers of the corners of the cells, three for each cell.
    pub cells: Vec<usize>,
    /// Identifier of each point, by its number.
    pub point_indices_to_ids: Vec<usize>,
    /// Number of each point, by its identifier.
    pub point_ids_to_indices: HashMap<usize, usize>,
    /// Identifier of each cell, by its number.
    pub cell_indices_to_ids: Vec<usize>,
    /// Number of each cell, by its identifier.
    pub cell_ids_to_indices: HashMap<usize, usize>,
}

/// A grid of flat triangles.
pub struct FlatTriangleGrid<T: Copy> {
    /// Coordinates of the points, three for each point.
    pub points: Vec<T>,
    /// Numbers of the corners of the cells, three for each cell.
    pub cells: Vec<usize>,
    /// Identifier of each point, by its number.
    pub point_indices_to_ids: Vec<usize>,
    /// Number of each point, by its identifier.
    pub point_ids_to_indices: HashMap<usize, usize>,
    /// Identifier of each cell, by its number.
    pub cell_indices_to_ids: Vec<usize>,
    /// Number of each cell, by its identifier.
    pub cell_ids_to_indices: HashMap<usize, usize>,
}

impl<T: Copy> FlatTriangleGrid<T> {
    /// The grid holds three coordinates for each point and three corners for
    /// each cell, every corner a point of the grid, and the identifiers
    /// number its points and cells.
    pub open spec fn wf(self) -> bool {
        &&& self.points.len() == 3 * self.point_indices_to_ids.len()
        &&& self.cells.len() == 3 * self.cell_indices_to_ids.len()
        &&& numbers(self.point_indices_to_ids@, self.point_ids_to_indices@)
        &&& numbers(self.cell_indices_to_ids@, self.cell_ids_to_indices@)
        &&& forall|k: int|
            0 <= k < self.cells.len() ==> #[trigger] self.cells[k] < self.point_indices_to_ids.len()
    }
}

impl<T: Copy> FlatTriangleGridBuilder<T> {
    /// The builder holds three coordinates for each point and three corners
    /// for each cell, every corner a point added before, and the identifiers
    /// number its points and cells.
    pub open spec fn wf(self) -> bool {
        &&& self.points.len() == 3 * self.point_indices_to_ids.len()
        &&& self.cells.len() == 3 * self.cell_indices_to_ids.len()
        &&& numbers(self.point_indices_to_ids@, self.point_ids_to_indices@)
        &&& numbers(self.cell_indices_to_ids@, self.cell_ids_to_indices@)
        &&& forall|k: int|
            0 <= k < self.cells.len() ==> #[trigger] self.cells[k] < self.point_indices_to_ids.len()
    }

    /// A builder without points or cells.
    pub fn new(_data: ()) -> (builder: Self)
        ensures
            builder.wf(),
            builder.points@.len() == 0,
            builder.cells@.len() == 0,
            builder.point_indices_to_ids@.len() == 0,
            builder.cell_indices_to_ids@.len() == 0,
    {
        FlatTriangleGridBuilder {
            points: Vec::new(),
            cells: Vec::new(),
            point_indices_to_ids: Vec::new(),
            point_ids_to_indices: HashMap::new(),
            cell_indices_to_ids: Vec::new(),
            cell_ids_to_indices: HashMap::new(),
        }
    }

    /// A builder without points or cells, with room for the given numbers of
    /// them.
    pub fn new_with_capacity(npoints: usize, ncells: usize, _data: ()) -> (builder: Self)
        requires
            3 * npoints <= usize::MAX,
            3 * ncells <= usize::MAX,
        ensures
            builder.wf(),
            builder.points@.len() == 0,
            builder.cells@.len() == 0,
            builder.point_indices_to_ids@.len() == 0,
            builder.cell_indices_to_ids@.len() == 0,
    {
        FlatTriangleGridBuilder {
            points: Vec::with_capacity(npoints * 3),
            cells: Vec::with_capacity(ncells * 3),
            point_indices_to_ids: Vec::with_capacity(npoints),
            point_ids_to_indices: HashMap::new(),
            cell_indices_to_ids: Vec::with_capacity(ncells),
            cell_ids_to_indices: HashMap::new(),
        }
    }

    /// Whether a point has been added under the identifier `id`.
    pub fn has_point(&self, id: usize) -> (known: bool)
        requires
            self.wf(),
        ensures
            known == self.point_ids_to_indices@.contains_key(id),
            known == self.point_indices_to_ids@.contains(id),
    {
        let known = self.point_ids_to_indices.contains_key(&id);
        proof {
            if known {
                assert(self.point_indices_to_ids@[self.point_ids_to_indices@[id] as int] == id);
            }
        }
        known
    }

    /// Whether a cell has been added under the identifier `id`.
    pub fn has_cell(&self, id: usize) -> (known: bool)
        requires
            self.wf(),
        ensures
            known == self.cell_ids_to_indices@.contains_key(id),
            known == self.cell_indices_to_ids@.contains(id),
    {
        let known = self.cell_ids_to_indices.contains_key(&id);
        proof {
            if known {
                assert(self.cell_indices_to_ids@[self.cell_ids_to_indices@[id] as int] == id);
            }
        }
        known
    }

    /// Adds a point under an identifier that no point has yet.
    pub fn add_point(&mut self, id: usize, data: [T; 3])
        requires
            old(self).wf(),
            !old(self).point_ids_to_indices@.contains_key(id),
        ensures
            final(self).wf(),
            final(self).point_indices_to_ids@ == old(self).point_indices_to_ids@.push(id),
            final(self).point_ids_to_indices@ == old(self).point_ids_to_indices@.insert(
                id,
                old(self).point_indices_to_ids.len(),
            ),
            final(self).points@ == old(self).points@.push(data[0]).push(data[1]).push(data[2]),
            final(self).cells@ == old(self).cells@,
            final(self).cell_indices_to_ids@ == old(self).cell_indices_to_ids@,
            final(self).cell_ids_to_indices@ == old(self).cell_ids_to_indices@,
    {
        let index = self.point_indices_to_ids.len();
        self.point_ids_to_indices.insert(id, index);
        self.point_indices_to_ids.push(id);
        self.points.push(data[0]);
        self.points.push(data[1]);
        self.points.push(data[2]);
    }

    /// Adds a cell under an identifier that no cell has yet. Its corners
    /// are given by the identifiers of points added before.
    pub fn add_cell(&mut self, id: usize, cell_data: [usize; 3])
        requires
            old(self).wf(),
            !old(self).cell_ids_to_indices@.contains_key(id),
            old(self).point_ids_to_indices@.contains_key(cell_data[0]),
            old(self).point_ids_to_indices@.contains_key(cell_data[1]),
            old(self).point_ids_to_indices@.contains_key(cell_data[2]),
        ensures
            final(self).wf(),
            final(self).cell_indices_to_ids@ == old(self).cell_indices_to_ids@.push(id),
            final(self).cell_ids_to_indices@ == old(self).cell_ids_to_indices@.insert(
                id,
                old(self).cell_indices_to_ids.len(),
            ),
            final(self).cells@ == old(self).cells@.push(
                old(self).point_ids_to_indices@[cell_data[0]],
            ).push(old(self).point_ids_to_indices@[cell_data[1]]).push(
                old(self).point_ids_to_indices@[cell_data[2]],
            ),
            final(self).points@ == old(self).points@,
            final(self).point_indices_to_ids@ == old(self).point_indices_to_ids@,
            final(self).point_ids_to_indices@ == old(self).point_ids_to_indices@,
    {
        let index = self.cell_indices_to_ids.len();
        self.cell_ids_to_indices.insert(id, index);
        self.cell_indices_to_ids.push(id);
        let first = *self.point_ids_to_indices.get(&cell_data[0]).unwrap();
        let second = *self.point_ids_to_indices.get(&cell_data[1]).unwrap();
        let third = *self.point_ids_to_indices.get(&cell_data[2]).unwrap();
        self.cells.push(first);
        self.cells.push(second);
        self.cells.push(third);
    }

    /// The grid of the points and cells that were added.
    pub fn create_grid(self) -> (grid: FlatTriangleGrid<T>)
        requires
            self.wf(),
        ensures
            grid.wf(),
            grid.points@ == self.points@,
            grid.cells@ == self.cells@,
            grid.point_indices_to_ids@ == self.point_indices_to_ids@,
            grid.point_ids_to_indices@ == self.point_ids_to_indices@,
            grid.cell_indices_to_ids@ == self.cell_indices_to_ids@,
            grid.cell_ids_to_indices@ == self.cell_ids_to_indices@,
    {
        FlatTriangleGrid {
            points: self.points,
            cells: self.cells,
            point_indices_to_ids: self.point_indices_to_ids,
            point_ids_to_indices: self.point_ids_to_indices,
            cell_indices_to_ids: self.cell_indices_to_ids,
            cell_ids_to_indices: self.cell_ids_to_indices,
        }
    }
}

} // verus!
