//! What a grid offers to the code that works on it: the count of its
//! entities, and the passage between the numbering of one process and the
//! numbering of all.

use vstd::prelude::*;

verus! {

/// Where an entity of a grid that is spread over processes lives.
#[derive(Clone, Copy, Debug, PartialEq, Eq, Structural)]
pub enum Locality {
    /// The entity is owned by this process.
    Local,
    /// The entity is a copy of one that the process of the given rank owns.
    Halo(usize),
    /// The entity lives on another process and this one holds no copy.
    Remote,
}

/// The entities of a grid and how they are numbered.
pub trait Topology {
    /// The dimension of the grid.
    fn dim(&self) -> usize;

    /// Where the entity with the given global number lives.
    fn locality(&self, global_id: usize) -> Locality;

    /// The global number of the entity with the given local number.
    fn local2global(&self, local_id: usize) -> usize;

    /// The local number of the entity with the given global number, if this
    /// process holds it.
    fn global2local(&self, global_id: usize) -> Option<usize>;

    /// Number of entities of the given dimension.
    fn entity_count(&self, dim: usize) -> usize;
}

} // verus!
