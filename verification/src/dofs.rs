//! Numbering the degrees of freedom of a function space: every entity of
//! the grid that carries degrees of freedom of an element gets numbers for
//! them, once, and every cell learns the numbers of its own.

use vstd::prelude::*;

verus! {

/// Whether an entity is owned by this process or is a copy of an entity of
/// another.
#[derive(Clone, Copy, Debug, PartialEq, Eq, Structural)]
pub enum Ownership {
    /// The entity is owned by this process.
    Owned,
    /// The entity is a copy of the entity with the given index on the
    /// process with the given rank.
    Halo(usize, usize),
}

/// What the numbering reads of a finite element.
pub struct Element {
    /// Number of degrees of freedom of the element.
    pub dim: usize,
    /// For each dimension and each sub-entity of that dimension of the
    /// reference cell, the degrees of freedom of the element that belong to
    /// it.
    pub entity_dofs: Vec<Vec<Vec<usize>>>,
}

/// What the numbering reads of a cell of the grid.
pub struct Cell {
    /// Index of the cell on this process.
    pub local_index: usize,
    /// Place of the cell's element among the elements.
    pub element: usize,
    /// For each dimension, the indices of the sub-entities of the cell of
    /// that dimension.
    pub sub_entities: Vec<Vec<usize>>,
}

/// The numbers of the degrees of freedom: by cell, by entity, how many
/// there are, and for each of them who owns it.
pub struct DofMap {
    /// For each cell, the number of each of its degrees of freedom.
    pub cell_dofs: Vec<Vec<usize>>,
    /// For each of the four dimensions and each entity of that dimension,
    /// the numbers of the degrees of freedom that belong to it.
    pub entity_dofs: Vec<Vec<Vec<usize>>>,
    /// Number of degrees of freedom.
    pub size: usize,
    /// For each degree of freedom: the rank of the process that owns its
    /// entity, the dimension of the entity, the index of the entity on that
    /// process, and the place of the degree of freedom on the entity.
    pub owner_data: Vec<(usize, usize, usize, usize)>,
}

/// The grid and the elements fit together: every cell has an index below
/// the number of cells, an element, and sub-entities of every dimension up
/// to `tdim` that the grid counts and that the element knows.
pub open spec fn fits(
    tdim: int,
    entity_counts: Seq<usize>,
    ownership: Seq<Vec<Ownership>>,
    elements: Seq<Element>,
    cells: Seq<Cell>,
) -> bool {
    &&& 0 <= tdim <= 2
    &&& entity_counts.len() == tdim + 1
    &&& ownership.len() == tdim + 1
    &&& forall|d: int| 0 <= d <= tdim ==> (#[trigger] ownership[d]).len() == entity_counts[d]
    &&& forall|c: int|
        0 <= c < cells.len() ==> {
            &&& (#[trigger] cells[c]).local_index < entity_counts[tdim]
            &&& cells[c].element < elements.len()
            &&& cells[c].sub_entities.len() == tdim + 1
            &&& elements[cells[c].element as int].entity_dofs.len() == tdim + 1
        }
    &&& forall|c: int, d: int|
        0 <= c < cells.len() && 0 <= d <= tdim ==> (#[trigger] cells[c].sub_entities[d]).len()
            <= elements[cells[c].element as int].entity_dofs[d].len()
    &&& forall|c: int, d: int, i: int|
        0 <= c < cells.len() && 0 <= d <= tdim && 0 <= i < cells[c].sub_entities[d].len()
            ==> #[trigger] cells[c].sub_entities[d][i] < entity_counts[d]
    &&& forall|c: int, d: int, i: int, k: int|
        0 <= c < cells.len() && 0 <= d <= tdim && 0 <= i < cells[c].sub_entities[d].len() && 0 <= k
            < elements[cells[c].element as int].entity_dofs[d][i].len()
            ==> #[trigger] elements[cells[c].element as int].entity_dofs[d][i][k]
            < elements[cells[c].element as int].dim
}

/// The owner of the degree of freedom at place `k` of the entity `e` of
/// dimension `d`.
pub open spec fn owner_of(rank: usize, ownership: Ownership, d: int, e: int, k: int) -> (
    usize,
    usize,
    usize,
    usize,
) {
    match ownership {
        Ownership::Owned => (rank, d as usize, e as usize, k as usize),
        Ownership::Halo(process, index) => (process, d as usize, index, k as usize),
    }
}

/// `g` is the number at place `k` of the entity `e` of dimension `d`.
pub open spec fn numbered(entity_dofs: Seq<Vec<Vec<usize>>>, d: int, e: int, k: int, g: int) -> bool {
    &&& 0 <= d < entity_dofs.len()
    &&& 0 <= e < entity_dofs[d].len()
    &&& 0 <= k < entity_dofs[d][e].len()
    &&& entity_dofs[d][e][k] == g
}

/// Some entity has the number `g` at some place.
pub open spec fn is_numbered(entity_dofs: Seq<Vec<Vec<usize>>>, g: int) -> bool {
    exists|d: int, e: int, k: int| numbered(entity_dofs, d, e, k, g)
}

/// The numbering by entity: the numbers of an entity follow one another;
/// the numbers are those below `size`, each at one place; and `owner_data`
/// holds the owner of each.
pub open spec fn is_numbering(
    entity_dofs: Seq<Vec<Vec<usize>>>,
    size: int,
    owner_data: Seq<(usize, usize, usize, usize)>,
    rank: usize,
    ownership: Seq<Vec<Ownership>>,
) -> bool {
    &&& owner_data.len() == size
    &&& forall|d: int, e: int, k: int|
        0 <= d < entity_dofs.len() && 0 <= e < entity_dofs[d].len() && 0 <= k
            < entity_dofs[d][e].len() ==> {
            &&& 0 <= #[trigger] entity_dofs[d][e][k] < size
            &&& entity_dofs[d][e][k] == entity_dofs[d][e][0] + k
            &&& d < ownership.len() && e < ownership[d].len()
            &&& owner_data[entity_dofs[d][e][k] as int] == owner_of(rank, ownership[d][e], d, e, k)
        }
    &&& forall|d1: int, e1: int, k1: int, d2: int, e2: int, k2: int|
        numbered(entity_dofs, d1, e1, k1, #[trigger] entity_dofs[d1][e1][k1] as int) && numbered(
            entity_dofs,
            d2,
            e2,
            k2,
            #[trigger] entity_dofs[d2][e2][k2] as int,
        ) && entity_dofs[d1][e1][k1] == entity_dofs[d2][e2][k2] ==> d1 == d2 && e1 == e2 && k1
            == k2
    &&& forall|g: int| 0 <= g < size ==> #[trigger] is_numbered(entity_dofs, g)
}

/// Gives the degrees of freedom of an entity that has none yet the next
/// free numbers, and records their owner.
fn number_entity(
    entity_dofs: &mut Vec<Vec<Vec<usize>>>,
    owner_data: &mut Vec<(usize, usize, usize, usize)>,
    rank: usize,
    ownership: &Vec<Vec<Ownership>>,
    d: usize,
    e: usize,
    count: usize,
)
    requires
        d < old(entity_dofs).len(),
        e < old(entity_dofs)[d as int].len(),
        old(entity_dofs)[d as int][e as int].len() == 0,
        is_numbering(old(entity_dofs)@, old(owner_data).len() as int, old(owner_data)@, rank, ownership@),
        d < ownership.len(),
        e < ownership[d as int].len(),
    ensures
        is_numbering(final(entity_dofs)@, final(owner_data).len() as int, final(owner_data)@, rank, ownership@),
        final(owner_data).len() == old(owner_data).len() + count,
        final(entity_dofs).len() == old(entity_dofs).len(),
        forall|x: int|
            0 <= x < final(entity_dofs).len() ==> (#[trigger] final(entity_dofs)[x]).len() == old(
                entity_dofs,
            )[x].len(),
        forall|x: int, y: int|
            0 <= x < final(entity_dofs).len() && 0 <= y < final(entity_dofs)[x].len() && (x != d
                || y != e) ==> #[trigger] final(entity_dofs)[x][y] == old(entity_dofs)[x][y],
        final(entity_dofs)[d as int][e as int].len() == count,
        forall|k: int|
            0 <= k < count ==> #[trigger] final(entity_dofs)[d as int][e as int][k] == old(
                owner_data,
            ).len() + k,
{
    let ghost before = entity_dofs@;
    let ghost owners_before = owner_data@;
    let ghost first = owner_data.len() as int;
    let mut dof_i: usize = 0;
    while dof_i < count
        invariant
            dof_i <= count,
            first == owners_before.len(),
            d < ownership.len(),
            e < ownership[d as int].len(),
            is_numbering(before, first, owners_before, rank, ownership@),
            before[d as int][e as int].len() == 0,
            d < before.len(),
            e < before[d as int].len(),
            entity_dofs.len() == before.len(),
            forall|x: int| 0 <= x < before.len() ==> (#[trigger] entity_dofs[x]).len() == before[x].len(),
            forall|x: int, y: int|
                0 <= x < before.len() && 0 <= y < before[x].len() && (x != d || y != e)
                    ==> #[trigger] entity_dofs[x][y] == before[x][y],
            entity_dofs[d as int][e as int].len() == dof_i,
            forall|k: int| 0 <= k < dof_i ==> #[trigger] entity_dofs[d as int][e as int][k] == first + k,
            owner_data.len() == first + dof_i,
            owner_data@.subrange(0, first) == owners_before,
            forall|k: int|
                0 <= k < dof_i ==> #[trigger] owner_data[first + k] == owner_of(
                    rank,
                    ownership[d as int][e as int],
                    d as int,
                    e as int,
                    k,
                ),
        decreases count - dof_i,
    {
        let ghost kept = owner_data@;
        let size = owner_data.len();
        entity_dofs[d][e].push(size);
        match ownership[d][e] {
            Ownership::Halo(process, index) => {
                owner_data.push((process, d, index, dof_i));
            },
            Ownership::Owned => {
                owner_data.push((rank, d, e, dof_i));
            },
        }
        proof {
            assert(owner_data@.subrange(0, first) =~= kept.subrange(0, first));
        }
        dof_i = dof_i + 1;
    }
    proof {
        let after = entity_dofs@;
        let size = first + count;
        assert forall|x: int, y: int, k: int|
            0 <= x < after.len() && 0 <= y < after[x].len() && 0 <= k < after[x][y].len() implies {
            &&& 0 <= #[trigger] after[x][y][k] < size
            &&& after[x][y][k] == after[x][y][0] + k
            &&& x < ownership.len() && y < ownership[x].len()
            &&& owner_data[after[x][y][k] as int] == owner_of(rank, ownership[x][y], x, y, k)
        } by {
            if x != d || y != e {
                assert(after[x][y] == before[x][y]);
                assert(0 <= before[x][y][k] < first);
                assert(owner_data@.subrange(0, first)[before[x][y][k] as int]
                    == owners_before[before[x][y][k] as int]);
            } else {
                assert(after[x][y][k] == first + k);
                assert(after[x][y][0] == first + 0);
            }
        }
        assert forall|d1: int, e1: int, k1: int, d2: int, e2: int, k2: int|
            numbered(after, d1, e1, k1, #[trigger] after[d1][e1][k1] as int) && numbered(
                after,
                d2,
                e2,
                k2,
                #[trigger] after[d2][e2][k2] as int,
            ) && after[d1][e1][k1] == after[d2][e2][k2] implies d1 == d2 && e1 == e2 && k1
            == k2 by {
            let new1 = d1 == d && e1 == e;
            let new2 = d2 == d && e2 == e;
            if new1 {
                assert(after[d1][e1][k1] == first + k1);
            } else {
                assert(after[d1][e1] == before[d1][e1]);
                assert(0 <= before[d1][e1][k1] < first);
            }
            if new2 {
                assert(after[d2][e2][k2] == first + k2);
            } else {
                assert(after[d2][e2] == before[d2][e2]);
                assert(0 <= before[d2][e2][k2] < first);
            }
            if !new1 && !new2 {
                assert(numbered(before, d1, e1, k1, before[d1][e1][k1] as int));
                assert(numbered(before, d2, e2, k2, before[d2][e2][k2] as int));
            }
        }
        assert forall|g: int| 0 <= g < size implies #[trigger] is_numbered(after, g) by {
            if g < first {
                assert(is_numbered(before, g));
                let (x, y, k) = choose|x: int, y: int, k: int| numbered(before, x, y, k, g);
                assert(after[x][y] == before[x][y]);
                assert(numbered(after, x, y, k, g));
            } else {
                assert(after[d as int][e as int][g - first] == first + (g - first));
                assert(numbered(after, d as int, e as int, g - first, g));
            }
        }
    }
}

/// No two cells have the same index, and no degree of freedom of the
/// element of a cell belongs to two of the cell's sub-entities or twice to
/// one.
pub open spec fn one_owner_each(tdim: int, elements: Seq<Element>, cells: Seq<Cell>) -> bool {
    &&& forall|c1: int, c2: int|
        0 <= c1 < c2 < cells.len() ==> (#[trigger] cells[c1]).local_index != (#[trigger] cells[c2]).local_index
    &&& forall|c: int, d1: int, i1: int, k1: int, d2: int, i2: int, k2: int|
        0 <= c < cells.len() && 0 <= d1 <= tdim && 0 <= i1 < cells[c].sub_entities[d1].len() && 0
            <= k1 < elements[cells[c].element as int].entity_dofs[d1][i1].len() && 0 <= d2 <= tdim
            && 0 <= i2 < cells[c].sub_entities[d2].len() && 0 <= k2
            < elements[cells[c].element as int].entity_dofs[d2][i2].len() && (d1 != d2 || i1 != i2
            || k1 != k2) ==> #[trigger] elements[cells[c].element as int].entity_dofs[d1][i1][k1]
            != #[trigger] elements[cells[c].element as int].entity_dofs[d2][i2][k2]
}

/// The cell `c` knows the numbers of the degrees of freedom of its `i`-th
/// sub-entity of dimension `d`: where the element has degrees of freedom
/// there, the entity is numbered and the cell holds, for each of them, the
/// number at the same place of the entity.
pub open spec fn cell_linked(
    cell_dofs: Seq<Vec<usize>>,
    entity_dofs: Seq<Vec<Vec<usize>>>,
    elements: Seq<Element>,
    cells: Seq<Cell>,
    c: int,
    d: int,
    i: int,
) -> bool {
    let cell = cells[c];
    let e = cell.sub_entities[d][i] as int;
    let e_dofs = elements[cell.element as int].entity_dofs[d][i];
    &&& e_dofs.len() > 0 ==> entity_dofs[d][e].len() > 0
    &&& forall|k: int|
        0 <= k < e_dofs.len() && k < entity_dofs[d][e].len() ==> #[trigger] cell_dofs[cell.local_index as int][e_dofs[k] as int]
            == entity_dofs[d][e][k]
}

/// The cell `c` has the entity `e` of dimension `d` at its place `i`, and
/// the element of the cell has degrees of freedom there.
pub open spec fn carries(
    elements: Seq<Element>,
    cells: Seq<Cell>,
    c: int,
    d: int,
    i: int,
    e: int,
) -> bool {
    &&& 0 <= c < cells.len()
    &&& 0 <= i < cells[c].sub_entities[d].len()
    &&& cells[c].sub_entities[d][i] == e
    &&& elements[cells[c].element as int].entity_dofs[d][i].len() > 0
}

/// Of the cells that carry the entity `e` of dimension `d`, the cell `c`
/// comes first in the list, and of the places at which it does, `i`.
pub open spec fn first_carrier(
    elements: Seq<Element>,
    cells: Seq<Cell>,
    c: int,
    d: int,
    i: int,
    e: int,
) -> bool {
    &&& carries(elements, cells, c, d, i, e)
    &&& forall|c2: int, i2: int| #[trigger]
        carries(elements, cells, c2, d, i2, e) ==> c < c2 || (c == c2 && i <= i2)
}

/// Some cell is the first to carry the entity `e` of dimension `d`.
pub open spec fn has_first_carrier(elements: Seq<Element>, cells: Seq<Cell>, d: int, e: int) -> bool {
    exists|c: int, i: int| first_carrier(elements, cells, c, d, i, e)
}

/// Every entity has as many numbers as the element of the first cell that
/// carries it has degrees of freedom on it, and none where no cell carries
/// it. An entity that a cell carries has a first cell that carries it.
pub open spec fn is_counted(
    entity_dofs: Seq<Vec<Vec<usize>>>,
    tdim: int,
    elements: Seq<Element>,
    cells: Seq<Cell>,
) -> bool {
    &&& forall|c: int, d: int, i: int, e: int|
        0 <= d <= tdim && #[trigger] first_carrier(elements, cells, c, d, i, e)
            ==> entity_dofs[d][e].len() == elements[cells[c].element as int].entity_dofs[d][i].len()
    &&& forall|d: int, e: int|
        0 <= d <= tdim && 0 <= e < entity_dofs[d].len() && (forall|c: int, i: int|
            !#[trigger] carries(elements, cells, c, d, i, e)) ==> (#[trigger] entity_dofs[d][e]).len()
            == 0
    &&& forall|c: int, d: int, i: int, e: int|
        0 <= d <= tdim && #[trigger] carries(elements, cells, c, d, i, e) ==> has_first_carrier(
            elements,
            cells,
            d,
            e,
        )
}

/// Where the cells that carry an entity agree on the number of its degrees
/// of freedom, the entity has that many numbers: each of those cells finds
/// all its degrees of freedom on the entity numbered.
pub proof fn lemma_agreed_count(
    entity_dofs: Seq<Vec<Vec<usize>>>,
    tdim: int,
    elements: Seq<Element>,
    cells: Seq<Cell>,
    c: int,
    d: int,
    i: int,
)
    requires
        is_counted(entity_dofs, tdim, elements, cells),
        0 <= d <= tdim,
        carries(elements, cells, c, d, i, cells[c].sub_entities[d][i] as int),
        forall|c2: int, i2: int| #[trigger]
            carries(elements, cells, c2, d, i2, cells[c].sub_entities[d][i] as int)
                ==> elements[cells[c2].element as int].entity_dofs[d][i2].len()
                == elements[cells[c].element as int].entity_dofs[d][i].len(),
    ensures
        entity_dofs[d][cells[c].sub_entities[d][i] as int].len()
            == elements[cells[c].element as int].entity_dofs[d][i].len(),
{
    let e = cells[c].sub_entities[d][i] as int;
    assert(has_first_carrier(elements, cells, d, e));
    let (c0, i0) = choose|c0: int, i0: int| first_carrier(elements, cells, c0, d, i0, e);
    assert(first_carrier(elements, cells, c0, d, i0, e));
    assert(carries(elements, cells, c0, d, i0, e));
}

/// The entities get their numbers in the order in which the cells that
/// carry them first are walked: cell by cell, in a cell dimension by
/// dimension, and in a dimension place by place.
pub open spec fn is_in_walking_order(
    entity_dofs: Seq<Vec<Vec<usize>>>,
    tdim: int,
    elements: Seq<Element>,
    cells: Seq<Cell>,
) -> bool {
    forall|c1: int, d1: int, i1: int, e1: int, c2: int, d2: int, i2: int, e2: int|
        0 <= d1 <= tdim && 0 <= d2 <= tdim && #[trigger] first_carrier(elements, cells, c1, d1, i1, e1)
            && #[trigger] first_carrier(elements, cells, c2, d2, i2, e2) && met(c1, d1, i1, c2, d2, i2)
            ==> entity_dofs[d1][e1][0] < entity_dofs[d2][e2][0]
}

/// The place `i` of dimension `d` of the cell `c` is walked before the place
/// `i0` of dimension `d0` of the cell `c0`.
pub open spec fn met(c: int, d: int, i: int, c0: int, d0: int, i0: int) -> bool {
    c < c0 || (c == c0 && (d < d0 || (d == d0 && i < i0)))
}

/// Of the places walked before `(c0, d0, i0)`, the place `i` of the cell `c`
/// is the first that carries the entity `e` of dimension `d`, and the entity
/// has the numbers of that place.
pub open spec fn first_met(
    lists: Seq<Vec<Vec<usize>>>,
    elements: Seq<Element>,
    cells: Seq<Cell>,
    tdim: int,
    c: int,
    d: int,
    i: int,
    e: int,
    c0: int,
    d0: int,
    i0: int,
) -> bool {
    &&& 0 <= d <= tdim
    &&& 0 <= e < lists[d].len()
    &&& carries(elements, cells, c, d, i, e)
    &&& met(c, d, i, c0, d0, i0)
    &&& lists[d][e].len() == elements[cells[c].element as int].entity_dofs[d][i].len()
    &&& forall|c2: int, i2: int| #[trigger]
        carries(elements, cells, c2, d, i2, e) && met(c2, d, i2, c0, d0, i0) ==> c < c2 || (c == c2
            && i <= i2)
}

/// What holds of the numbers given so far when the walk stands at
/// `(c0, d0, i0)`: `origin` knows, for each entity with numbers, the place
/// that gave them, the first that carries the entity; and every entity
/// carried at a place already walked has numbers.
pub open spec fn counted(
    lists: Seq<Vec<Vec<usize>>>,
    origin: Map<(int, int), (int, int)>,
    tdim: int,
    elements: Seq<Element>,
    cells: Seq<Cell>,
    c0: int,
    d0: int,
    i0: int,
) -> bool {
    &&& forall|d: int, e: int|
        0 <= d <= tdim && 0 <= e < lists[d].len() && (#[trigger] lists[d][e]).len() > 0
            ==> origin.contains_key((d, e))
    &&& forall|d: int, e: int| #[trigger]
        origin.contains_key((d, e)) ==> first_met(
            lists,
            elements,
            cells,
            tdim,
            origin[(d, e)].0,
            d,
            origin[(d, e)].1,
            e,
            c0,
            d0,
            i0,
        )
    &&& forall|c: int, d: int, i: int, e: int|
        0 <= d <= tdim && #[trigger] carries(elements, cells, c, d, i, e) && met(c, d, i, c0, d0, i0)
            ==> origin.contains_key((d, e))
}

/// Of two entities with numbers, the one whose numbers come from the place
/// walked first has the smaller numbers.
pub open spec fn runs_ordered(lists: Seq<Vec<Vec<usize>>>, origin: Map<(int, int), (int, int)>) -> bool {
    forall|d1: int, e1: int, d2: int, e2: int|
        #[trigger] origin.contains_key((d1, e1)) && #[trigger] origin.contains_key((d2, e2)) && met(
            origin[(d1, e1)].0,
            d1,
            origin[(d1, e1)].1,
            origin[(d2, e2)].0,
            d2,
            origin[(d2, e2)].1,
        ) ==> lists[d1][e1][0] < lists[d2][e2][0]
}

/// One step of the walk keeps the runs of numbers in order: an entity that
/// gets its numbers now gets numbers above all that were given.
proof fn lemma_runs_step(
    before: Seq<Vec<Vec<usize>>>,
    after: Seq<Vec<Vec<usize>>>,
    origin: Map<(int, int), (int, int)>,
    next: Map<(int, int), (int, int)>,
    tdim: int,
    elements: Seq<Element>,
    cells: Seq<Cell>,
    c: int,
    d: int,
    i: int,
    size: int,
)
    requires
        0 <= d <= tdim,
        counted(before, origin, tdim, elements, cells, c, d, i),
        runs_ordered(before, origin),
        forall|x: int, y: int, k: int|
            0 <= x <= tdim && 0 <= y < before[x].len() && 0 <= k < before[x][y].len()
                ==> #[trigger] before[x][y][k] < size,
        forall|x: int, y: int|
            0 <= x <= tdim && 0 <= y < before[x].len() && (x != d || y
                != cells[c].sub_entities[d][i]) ==> #[trigger] after[x][y] == before[x][y],
        ({
            let e = cells[c].sub_entities[d][i] as int;
            let n = elements[cells[c].element as int].entity_dofs[d][i].len();
            if n > 0 && before[d][e].len() == 0 {
                after[d][e].len() > 0 && after[d][e][0] == size && next == origin.insert(
                    (d, e),
                    (c, i),
                )
            } else {
                after[d][e] == before[d][e] && next == origin
            }
        }),
    ensures
        runs_ordered(after, next),
{
    let here = cells[c].sub_entities[d][i] as int;
    let n = elements[cells[c].element as int].entity_dofs[d][i].len();
    let fresh = n > 0 && before[d][here].len() == 0;
    if fresh && origin.contains_key((d, here)) {
        assert(first_met(
            before,
            elements,
            cells,
            tdim,
            origin[(d, here)].0,
            d,
            origin[(d, here)].1,
            here,
            c,
            d,
            i,
        ));
    }
    assert forall|d1: int, e1: int, d2: int, e2: int|
        #[trigger] next.contains_key((d1, e1)) && #[trigger] next.contains_key((d2, e2)) && met(
            next[(d1, e1)].0,
            d1,
            next[(d1, e1)].1,
            next[(d2, e2)].0,
            d2,
            next[(d2, e2)].1,
        ) implies after[d1][e1][0] < after[d2][e2][0] by {
        let new1 = fresh && d1 == d && e1 == here;
        let new2 = fresh && d2 == d && e2 == here;
        if !new1 {
            assert(origin.contains_key((d1, e1)));
            assert(first_met(
                before,
                elements,
                cells,
                tdim,
                origin[(d1, e1)].0,
                d1,
                origin[(d1, e1)].1,
                e1,
                c,
                d,
                i,
            ));
            assert(after[d1][e1] == before[d1][e1]);
            assert(before[d1][e1][0] < size);
        }
        if !new2 {
            assert(origin.contains_key((d2, e2)));
            assert(first_met(
                before,
                elements,
                cells,
                tdim,
                origin[(d2, e2)].0,
                d2,
                origin[(d2, e2)].1,
                e2,
                c,
                d,
                i,
            ));
            assert(after[d2][e2] == before[d2][e2]);
        }
    }
}

/// When every place has been walked, the runs of numbers stand in the
/// order of the first places that carry their entities.
proof fn lemma_runs_all(
    lists: Seq<Vec<Vec<usize>>>,
    origin: Map<(int, int), (int, int)>,
    tdim: int,
    elements: Seq<Element>,
    cells: Seq<Cell>,
)
    requires
        counted(lists, origin, tdim, elements, cells, cells.len() as int, 0, 0),
        runs_ordered(lists, origin),
    ensures
        is_in_walking_order(lists, tdim, elements, cells),
{
    assert forall|c1: int, d1: int, i1: int, e1: int, c2: int, d2: int, i2: int, e2: int|
        0 <= d1 <= tdim && 0 <= d2 <= tdim && #[trigger] first_carrier(elements, cells, c1, d1, i1, e1)
            && #[trigger] first_carrier(elements, cells, c2, d2, i2, e2) && met(
            c1,
            d1,
            i1,
            c2,
            d2,
            i2,
        ) implies lists[d1][e1][0] < lists[d2][e2][0] by {
        assert(carries(elements, cells, c1, d1, i1, e1));
        assert(carries(elements, cells, c2, d2, i2, e2));
        assert(met(c1, d1, i1, cells.len() as int, 0, 0));
        assert(met(c2, d2, i2, cells.len() as int, 0, 0));
        assert(origin.contains_key((d1, e1)));
        assert(origin.contains_key((d2, e2)));
        let (a1, b1) = origin[(d1, e1)];
        let (a2, b2) = origin[(d2, e2)];
        assert(first_met(lists, elements, cells, tdim, a1, d1, b1, e1, cells.len() as int, 0, 0));
        assert(first_met(lists, elements, cells, tdim, a2, d2, b2, e2, cells.len() as int, 0, 0));
        assert(carries(elements, cells, a1, d1, b1, e1));
        assert(carries(elements, cells, a2, d2, b2, e2));
        assert(a1 == c1 && b1 == i1);
        assert(a2 == c2 && b2 == i2);
    }
}

/// The walk may be said to stand at another place, where the same places
/// that carry an entity have been walked.
proof fn lemma_counted_same(
    lists: Seq<Vec<Vec<usize>>>,
    origin: Map<(int, int), (int, int)>,
    tdim: int,
    elements: Seq<Element>,
    cells: Seq<Cell>,
    c0: int,
    d0: int,
    i0: int,
    c1: int,
    d1: int,
    i1: int,
)
    requires
        counted(lists, origin, tdim, elements, cells, c0, d0, i0),
        forall|c: int, d: int, i: int, e: int|
            0 <= d <= tdim && #[trigger] carries(elements, cells, c, d, i, e) ==> (met(
                c,
                d,
                i,
                c0,
                d0,
                i0,
            ) <==> met(c, d, i, c1, d1, i1)),
    ensures
        counted(lists, origin, tdim, elements, cells, c1, d1, i1),
{
    assert forall|d: int, e: int| #[trigger] origin.contains_key((d, e)) implies first_met(
        lists,
        elements,
        cells,
        tdim,
        origin[(d, e)].0,
        d,
        origin[(d, e)].1,
        e,
        c1,
        d1,
        i1,
    ) by {
        assert(first_met(
            lists,
            elements,
            cells,
            tdim,
            origin[(d, e)].0,
            d,
            origin[(d, e)].1,
            e,
            c0,
            d0,
            i0,
        ));
    }
}

/// One step of the walk: the place `(c, d, i)` gave its entity numbers if
/// it carries it and the entity had none, and changed nothing else.
proof fn lemma_counted_step(
    before: Seq<Vec<Vec<usize>>>,
    after: Seq<Vec<Vec<usize>>>,
    origin: Map<(int, int), (int, int)>,
    next: Map<(int, int), (int, int)>,
    tdim: int,
    elements: Seq<Element>,
    cells: Seq<Cell>,
    c: int,
    d: int,
    i: int,
)
    requires
        0 <= c < cells.len(),
        0 <= d <= tdim,
        0 <= i < cells[c].sub_entities[d].len(),
        cells[c].sub_entities[d][i] < before[d].len(),
        counted(before, origin, tdim, elements, cells, c, d, i),
        forall|x: int| 0 <= x <= tdim ==> (#[trigger] after[x]).len() == before[x].len(),
        forall|x: int, y: int|
            0 <= x <= tdim && 0 <= y < before[x].len() && (x != d || y
                != cells[c].sub_entities[d][i]) ==> #[trigger] after[x][y] == before[x][y],
        ({
            let e = cells[c].sub_entities[d][i] as int;
            let n = elements[cells[c].element as int].entity_dofs[d][i].len();
            if n > 0 && before[d][e].len() == 0 {
                after[d][e].len() == n && next == origin.insert((d, e), (c, i))
            } else {
                after[d][e] == before[d][e] && next == origin
            }
        }),
    ensures
        counted(after, next, tdim, elements, cells, c, d, i + 1),
{
    let here = cells[c].sub_entities[d][i] as int;
    let n = elements[cells[c].element as int].entity_dofs[d][i].len();
    let fresh = n > 0 && before[d][here].len() == 0;
    if fresh && origin.contains_key((d, here)) {
        assert(first_met(
            before,
            elements,
            cells,
            tdim,
            origin[(d, here)].0,
            d,
            origin[(d, here)].1,
            here,
            c,
            d,
            i,
        ));
    }
    assert forall|x: int, e: int| #[trigger] next.contains_key((x, e)) implies first_met(
        after,
        elements,
        cells,
        tdim,
        next[(x, e)].0,
        x,
        next[(x, e)].1,
        e,
        c,
        d,
        i + 1,
    ) by {
        if fresh && x == d && e == here {
            assert(carries(elements, cells, c, d, i, here));
            assert forall|c2: int, i2: int| #[trigger]
                carries(elements, cells, c2, d, i2, here) && met(c2, d, i2, c, d, i + 1) implies c
                < c2 || (c == c2 && i <= i2) by {
                if met(c2, d, i2, c, d, i) {
                    assert(origin.contains_key((d, here)));
                }
            }
        } else {
            assert(origin.contains_key((x, e)));
            assert(first_met(
                before,
                elements,
                cells,
                tdim,
                origin[(x, e)].0,
                x,
                origin[(x, e)].1,
                e,
                c,
                d,
                i,
            ));
            assert(after[x][e] == before[x][e]);
        }
    }
    assert forall|x: int, e: int|
        0 <= x <= tdim && 0 <= e < after[x].len() && (#[trigger] after[x][e]).len()
            > 0 implies next.contains_key((x, e)) by {
        if x != d || e != here {
            assert(after[x][e] == before[x][e]);
            assert(before[x][e].len() > 0);
        } else if !fresh {
            assert(before[x][e].len() > 0);
        }
    }
    assert forall|c2: int, x: int, i2: int, e: int|
        0 <= x <= tdim && #[trigger] carries(elements, cells, c2, x, i2, e) && met(
            c2,
            x,
            i2,
            c,
            d,
            i + 1,
        ) implies next.contains_key((x, e)) by {
        if met(c2, x, i2, c, d, i) {
            assert(origin.contains_key((x, e)));
        } else {
            assert(c2 == c && x == d && i2 == i);
            assert(e == here);
            assert(n > 0);
            if !fresh {
                assert(before[d][here].len() > 0);
                assert(origin.contains_key((d, here)));
            }
        }
    }
}

/// When every place has been walked, every entity has the numbers of the
/// first place that carries it.
proof fn lemma_counted_all(
    lists: Seq<Vec<Vec<usize>>>,
    origin: Map<(int, int), (int, int)>,
    tdim: int,
    elements: Seq<Element>,
    cells: Seq<Cell>,
)
    requires
        counted(lists, origin, tdim, elements, cells, cells.len() as int, 0, 0),
    ensures
        is_counted(lists, tdim, elements, cells),
{
    assert forall|c: int, d: int, i: int, e: int|
        0 <= d <= tdim && #[trigger] first_carrier(elements, cells, c, d, i, e) implies lists[d][e].len()
        == elements[cells[c].element as int].entity_dofs[d][i].len() by {
        assert(carries(elements, cells, c, d, i, e));
        assert(met(c, d, i, cells.len() as int, 0, 0));
        assert(origin.contains_key((d, e)));
        let (c0, i0) = origin[(d, e)];
        assert(first_met(lists, elements, cells, tdim, c0, d, i0, e, cells.len() as int, 0, 0));
        assert(carries(elements, cells, c0, d, i0, e));
        assert(c0 == c && i0 == i);
    }
    assert forall|d: int, e: int|
        0 <= d <= tdim && 0 <= e < lists[d].len() && (forall|c: int, i: int|
            !#[trigger] carries(elements, cells, c, d, i, e)) implies (#[trigger] lists[d][e]).len()
        == 0 by {
        if lists[d][e].len() > 0 {
            assert(origin.contains_key((d, e)));
            let (c0, i0) = origin[(d, e)];
            assert(first_met(lists, elements, cells, tdim, c0, d, i0, e, cells.len() as int, 0, 0));
            assert(carries(elements, cells, c0, d, i0, e));
        }
    }
    assert forall|c: int, d: int, i: int, e: int|
        0 <= d <= tdim && #[trigger] carries(elements, cells, c, d, i, e) implies has_first_carrier(
        elements,
        cells,
        d,
        e,
    ) by {
        assert(met(c, d, i, cells.len() as int, 0, 0));
        assert(origin.contains_key((d, e)));
        let (c0, i0) = origin[(d, e)];
        assert(first_met(lists, elements, cells, tdim, c0, d, i0, e, cells.len() as int, 0, 0));
        assert forall|c2: int, i2: int| #[trigger]
            carries(elements, cells, c2, d, i2, e) implies c0 < c2 || (c0 == c2 && i0 <= i2) by {
            assert(met(c2, d, i2, cells.len() as int, 0, 0));
        }
        assert(first_carrier(elements, cells, c0, d, i0, e));
    }
}

/// The place `p` of the row of the cell `c` is that of the `k`-th degree
/// of freedom on the cell's `i`-th sub-entity of dimension `d`, and the
/// entity has a `k`-th number.
pub open spec fn linked_at(
    entity_dofs: Seq<Vec<Vec<usize>>>,
    elements: Seq<Element>,
    cells: Seq<Cell>,
    c: int,
    d: int,
    i: int,
    k: int,
    p: int,
) -> bool {
    &&& 0 <= i < cells[c].sub_entities[d].len()
    &&& 0 <= k < elements[cells[c].element as int].entity_dofs[d][i].len()
    &&& k < entity_dofs[d][cells[c].sub_entities[d][i] as int].len()
    &&& elements[cells[c].element as int].entity_dofs[d][i][k] == p
}

/// The place `p` of the row of the cell `c` is that of a degree of freedom
/// that has a number on one of the cell's sub-entities.
pub open spec fn is_linked_place(
    entity_dofs: Seq<Vec<Vec<usize>>>,
    tdim: int,
    elements: Seq<Element>,
    cells: Seq<Cell>,
    c: int,
    p: int,
) -> bool {
    exists|d: int, i: int, k: int|
        0 <= d <= tdim && #[trigger] linked_at(entity_dofs, elements, cells, c, d, i, k, p)
}

/// The rows of the first `n` cells hold zero wherever they hold no number
/// of a sub-entity.
pub open spec fn zero_else(
    cell_dofs: Seq<Vec<usize>>,
    entity_dofs: Seq<Vec<Vec<usize>>>,
    tdim: int,
    elements: Seq<Element>,
    cells: Seq<Cell>,
    n: int,
) -> bool {
    forall|b: int, p: int|
        0 <= b < n && 0 <= p < cell_dofs[cells[b].local_index as int].len()
            && #[trigger] cell_dofs[cells[b].local_index as int][p] != 0 ==> is_linked_place(
            entity_dofs,
            tdim,
            elements,
            cells,
            b,
            p,
        )
}

/// In a cell, the place `i` of dimension `d` is walked before the place
/// `i0` of dimension `d0`.
pub open spec fn walked(d: int, i: int, d0: int, i0: int) -> bool {
    d < d0 || (d == d0 && i < i0)
}

/// The place `p` of the row of the cell `c` got a number from a sub-entity
/// walked before the place `i0` of dimension `d0`.
pub open spec fn touched(
    lists: Seq<Vec<Vec<usize>>>,
    tdim: int,
    elements: Seq<Element>,
    cells: Seq<Cell>,
    c: int,
    d0: int,
    i0: int,
    p: int,
) -> bool {
    exists|d: int, i: int, k: int|
        0 <= d <= tdim && walked(d, i, d0, i0) && #[trigger] linked_at(
            lists,
            elements,
            cells,
            c,
            d,
            i,
            k,
            p,
        )
}

/// The row holds zero wherever it got no number so far.
pub open spec fn row_zero_else(
    row: Seq<usize>,
    lists: Seq<Vec<Vec<usize>>>,
    tdim: int,
    elements: Seq<Element>,
    cells: Seq<Cell>,
    c: int,
    d0: int,
    i0: int,
) -> bool {
    forall|p: int|
        0 <= p < row.len() && #[trigger] row[p] != 0 ==> touched(
            lists,
            tdim,
            elements,
            cells,
            c,
            d0,
            i0,
            p,
        )
}

/// No entity has fewer numbers in `after` than in `before`.
pub open spec fn grown(before: Seq<Vec<Vec<usize>>>, after: Seq<Vec<Vec<usize>>>, tdim: int) -> bool {
    forall|x: int, y: int|
        0 <= x <= tdim && 0 <= y < before[x].len() ==> (#[trigger] after[x][y]).len()
            >= before[x][y].len()
}

/// Rows that hold zero wherever they hold no number of a sub-entity still
/// do when entities get numbers.
proof fn lemma_zero_kept(
    cell_dofs: Seq<Vec<usize>>,
    before: Seq<Vec<Vec<usize>>>,
    after: Seq<Vec<Vec<usize>>>,
    tdim: int,
    entity_counts: Seq<usize>,
    ownership: Seq<Vec<Ownership>>,
    elements: Seq<Element>,
    cells: Seq<Cell>,
    n: int,
)
    requires
        0 <= n <= cells.len(),
        fits(tdim, entity_counts, ownership, elements, cells),
        forall|x: int| 0 <= x <= tdim ==> (#[trigger] before[x]).len() == entity_counts[x],
        grown(before, after, tdim),
        zero_else(cell_dofs, before, tdim, elements, cells, n),
    ensures
        zero_else(cell_dofs, after, tdim, elements, cells, n),
{
    assert forall|b: int, p: int|
        0 <= b < n && 0 <= p < cell_dofs[cells[b].local_index as int].len()
            && #[trigger] cell_dofs[cells[b].local_index as int][p] != 0 implies is_linked_place(
        after,
        tdim,
        elements,
        cells,
        b,
        p,
    ) by {
        assert(is_linked_place(before, tdim, elements, cells, b, p));
        let (d, i, k) = choose|d: int, i: int, k: int|
            0 <= d <= tdim && #[trigger] linked_at(before, elements, cells, b, d, i, k, p);
        let e = cells[b].sub_entities[d][i] as int;
        assert(cells[b].sub_entities[d][i] < entity_counts[d]);
        assert(after[d][e].len() >= before[d][e].len());
        assert(linked_at(after, elements, cells, b, d, i, k, p));
    }
}

/// One step of the walk keeps the row at zero wherever it got no number.
proof fn lemma_row_zero_step(
    row_before: Seq<usize>,
    row: Seq<usize>,
    before: Seq<Vec<Vec<usize>>>,
    after: Seq<Vec<Vec<usize>>>,
    tdim: int,
    entity_counts: Seq<usize>,
    ownership: Seq<Vec<Ownership>>,
    elements: Seq<Element>,
    cells: Seq<Cell>,
    c: int,
    d: int,
    i: int,
)
    requires
        0 <= c < cells.len(),
        0 <= d <= tdim,
        0 <= i < cells[c].sub_entities[d].len(),
        fits(tdim, entity_counts, ownership, elements, cells),
        forall|x: int| 0 <= x <= tdim ==> (#[trigger] before[x]).len() == entity_counts[x],
        grown(before, after, tdim),
        row.len() == row_before.len(),
        row_zero_else(row_before, before, tdim, elements, cells, c, d, i),
        forall|p: int|
            0 <= p < row.len() && #[trigger] row[p] != row_before[p] ==> exists|k: int| #[trigger]
                linked_at(after, elements, cells, c, d, i, k, p),
    ensures
        row_zero_else(row, after, tdim, elements, cells, c, d, i + 1),
{
    assert forall|p: int| 0 <= p < row.len() && #[trigger] row[p] != 0 implies touched(
        after,
        tdim,
        elements,
        cells,
        c,
        d,
        i + 1,
        p,
    ) by {
        if row[p] != row_before[p] {
            let k = choose|k: int| #[trigger] linked_at(after, elements, cells, c, d, i, k, p);
            assert(linked_at(after, elements, cells, c, d, i, k, p));
        } else {
            assert(touched(before, tdim, elements, cells, c, d, i, p));
            let (x, j, k) = choose|x: int, j: int, k: int|
                0 <= x <= tdim && walked(x, j, d, i) && #[trigger] linked_at(
                    before,
                    elements,
                    cells,
                    c,
                    x,
                    j,
                    k,
                    p,
                );
            let e = cells[c].sub_entities[x][j] as int;
            assert(cells[c].sub_entities[x][j] < entity_counts[x]);
            assert(after[x][e].len() >= before[x][e].len());
            assert(linked_at(after, elements, cells, c, x, j, k, p));
        }
    }
}

/// The walk of a row may be said to stand at another place, where the same
/// sub-entities have been walked.
proof fn lemma_row_zero_same(
    row: Seq<usize>,
    lists: Seq<Vec<Vec<usize>>>,
    tdim: int,
    elements: Seq<Element>,
    cells: Seq<Cell>,
    c: int,
    d0: int,
    i0: int,
    d1: int,
    i1: int,
)
    requires
        row_zero_else(row, lists, tdim, elements, cells, c, d0, i0),
        forall|d: int, i: int|
            0 <= d <= tdim && 0 <= i < cells[c].sub_entities[d].len() && #[trigger] walked(
                d,
                i,
                d0,
                i0,
            ) ==> walked(d, i, d1, i1),
    ensures
        row_zero_else(row, lists, tdim, elements, cells, c, d1, i1),
{
    assert forall|p: int| 0 <= p < row.len() && #[trigger] row[p] != 0 implies touched(
        lists,
        tdim,
        elements,
        cells,
        c,
        d1,
        i1,
        p,
    ) by {
        assert(touched(lists, tdim, elements, cells, c, d0, i0, p));
        let (x, j, k) = choose|x: int, j: int, k: int|
            0 <= x <= tdim && walked(x, j, d0, i0) && #[trigger] linked_at(
                lists,
                elements,
                cells,
                c,
                x,
                j,
                k,
                p,
            );
        assert(linked_at(lists, elements, cells, c, x, j, k, p));
    }
}

/// A finished row holds zero wherever it holds no number of a sub-entity.
proof fn lemma_row_zero_done(
    row: Seq<usize>,
    lists: Seq<Vec<Vec<usize>>>,
    tdim: int,
    elements: Seq<Element>,
    cells: Seq<Cell>,
    c: int,
)
    requires
        row_zero_else(row, lists, tdim, elements, cells, c, tdim + 1, 0),
    ensures
        forall|p: int|
            0 <= p < row.len() && #[trigger] row[p] != 0 ==> is_linked_place(
                lists,
                tdim,
                elements,
                cells,
                c,
                p,
            ),
{
    assert forall|p: int| 0 <= p < row.len() && #[trigger] row[p] != 0 implies is_linked_place(
        lists,
        tdim,
        elements,
        cells,
        c,
        p,
    ) by {
        assert(touched(lists, tdim, elements, cells, c, tdim + 1, 0, p));
        let (x, j, k) = choose|x: int, j: int, k: int|
            0 <= x <= tdim && walked(x, j, tdim + 1, 0) && #[trigger] linked_at(
                lists,
                elements,
                cells,
                c,
                x,
                j,
                k,
                p,
            );
        assert(linked_at(lists, elements, cells, c, x, j, k, p));
    }
}

/// Copies the numbers of an entity to the places of a cell that the element
/// names for them.
fn link_cell(row: &mut Vec<usize>, e_dofs: &Vec<usize>, numbers: &Vec<usize>)
    requires
        forall|k: int| 0 <= k < e_dofs.len() ==> #[trigger] e_dofs[k] < old(row).len(),
    ensures
        final(row).len() == old(row).len(),
        forall|k: int|
            0 <= k < e_dofs.len() && k < numbers.len() && (forall|k2: int|
                k < k2 < e_dofs.len() && k2 < numbers.len() ==> e_dofs[k2] != e_dofs[k])
                ==> #[trigger] final(row)[e_dofs[k] as int] == numbers[k],
        forall|p: int|
            0 <= p < final(row).len() && (forall|k: int|
                0 <= k < e_dofs.len() && k < numbers.len() ==> e_dofs[k] != p)
                ==> #[trigger] final(row)[p] == old(row)[p],
{
    let mut k: usize = 0;
    while k < e_dofs.len() && k < numbers.len()
        invariant
            k <= e_dofs.len(),
            k <= numbers.len(),
            row.len() == old(row).len(),
            forall|k: int| 0 <= k < e_dofs.len() ==> #[trigger] e_dofs[k] < row.len(),
            forall|j: int|
                0 <= j < k && (forall|k2: int| j < k2 < k ==> e_dofs[k2] != e_dofs[j])
                    ==> #[trigger] row[e_dofs[j] as int] == numbers[j],
            forall|p: int|
                0 <= p < row.len() && (forall|j: int| 0 <= j < k ==> e_dofs[j] != p)
                    ==> #[trigger] row[p] == old(row)[p],
        decreases e_dofs.len() - k,
    {
        row[e_dofs[k]] = numbers[k];
        k = k + 1;
    }
}

/// Numbers the degrees of freedom of a function space. `entity_counts` and
/// `ownership` give, for each dimension up to `tdim`, the number of entities
/// of the grid and who owns each; the cells come in the order in which the
/// grid lists them. An entity is numbered when the first cell that has it
/// is met, as many numbers as the element of that cell has degrees of
/// freedom on it.
pub fn assign_dofs(
    rank: usize,
    tdim: usize,
    entity_counts: &Vec<usize>,
    ownership: &Vec<Vec<Ownership>>,
    elements: &Vec<Element>,
    cells: &Vec<Cell>,
) -> (map: DofMap)
    requires
        fits(tdim as int, entity_counts@, ownership@, elements@, cells@),
    ensures
        map.size == map.owner_data.len(),
        map.cell_dofs.len() == entity_counts[tdim as int],
        map.entity_dofs.len() == 4,
        forall|d: int|
            0 <= d < 4 ==> (#[trigger] map.entity_dofs[d]).len() == (if d <= tdim {
                entity_counts[d] as int
            } else {
                0
            }),
        is_numbering(map.entity_dofs@, map.size as int, map.owner_data@, rank, ownership@),
        is_counted(map.entity_dofs@, tdim as int, elements@, cells@),
        is_in_walking_order(map.entity_dofs@, tdim as int, elements@, cells@),
        one_owner_each(tdim as int, elements@, cells@) ==> zero_else(
            map.cell_dofs@,
            map.entity_dofs@,
            tdim as int,
            elements@,
            cells@,
            cells.len() as int,
        ),
        one_owner_each(tdim as int, elements@, cells@) ==> forall|c: int, d: int, i: int|
            0 <= c < cells.len() && 0 <= d <= tdim && 0 <= i < cells[c].sub_entities[d].len()
                ==> #[trigger] cell_linked(map.cell_dofs@, map.entity_dofs@, elements@, cells@, c, d, i),
        one_owner_each(tdim as int, elements@, cells@) ==> forall|c: int|
            0 <= c < cells.len() ==> (#[trigger] map.cell_dofs[cells[c].local_index as int]).len()
                == elements[cells[c].element as int].dim,
{
    let mut entity_dofs: Vec<Vec<Vec<usize>>> = Vec::new();
    let mut d: usize = 0;
    while d < 4
        invariant
            d <= 4,
            tdim <= 2,
            entity_counts.len() == tdim + 1,
            entity_dofs.len() == d,
            forall|x: int|
                0 <= x < d ==> (#[trigger] entity_dofs[x]).len() == (if x <= tdim {
                    entity_counts[x] as int
                } else {
                    0
                }),
            forall|x: int, y: int|
                0 <= x < d && 0 <= y < entity_dofs[x].len() ==> (#[trigger] entity_dofs[x][y]).len() == 0,
        decreases 4 - d,
    {
        let mut lists: Vec<Vec<usize>> = Vec::new();
        if d <= tdim {
            let mut e: usize = 0;
            while e < entity_counts[d]
                invariant
                    d <= tdim,
                    entity_counts.len() == tdim + 1,
                    e <= entity_counts[d as int],
                    lists.len() == e,
                    forall|y: int| 0 <= y < e ==> (#[trigger] lists[y]).len() == 0,
                decreases entity_counts[d as int] - e,
            {
                lists.push(Vec::new());
                e = e + 1;
            }
        }
        entity_dofs.push(lists);
        d = d + 1;
    }
    let mut cell_dofs: Vec<Vec<usize>> = Vec::new();
    let mut c: usize = 0;
    while c < entity_counts[tdim]
        invariant
            entity_counts.len() == tdim + 1,
            c <= entity_counts[tdim as int],
            cell_dofs.len() == c,
        decreases entity_counts[tdim as int] - c,
    {
        cell_dofs.push(Vec::new());
        c = c + 1;
    }
    let mut owner_data: Vec<(usize, usize, usize, usize)> = Vec::new();
    let ghost mut origin: Map<(int, int), (int, int)> = Map::empty();
    proof {
        assert(is_numbering(entity_dofs@, 0, owner_data@, rank, ownership@));
    }
    let mut c: usize = 0;
    while c < cells.len()
        invariant
            c <= cells.len(),
            counted(entity_dofs@, origin, tdim as int, elements@, cells@, c as int, 0, 0),
            runs_ordered(entity_dofs@, origin),
            one_owner_each(tdim as int, elements@, cells@) ==> zero_else(
                cell_dofs@,
                entity_dofs@,
                tdim as int,
                elements@,
                cells@,
                c as int,
            ),
            fits(tdim as int, entity_counts@, ownership@, elements@, cells@),
            cell_dofs.len() == entity_counts[tdim as int],
            entity_dofs.len() == 4,
            forall|x: int|
                0 <= x < 4 ==> (#[trigger] entity_dofs[x]).len() == (if x <= tdim {
                    entity_counts[x] as int
                } else {
                    0
                }),
            is_numbering(entity_dofs@, owner_data.len() as int, owner_data@, rank, ownership@),
            one_owner_each(tdim as int, elements@, cells@) ==> forall|b: int, x: int, i: int|
                0 <= b < c && 0 <= x <= tdim && 0 <= i < cells[b].sub_entities[x].len()
                    ==> #[trigger] cell_linked(cell_dofs@, entity_dofs@, elements@, cells@, b, x, i),
            one_owner_each(tdim as int, elements@, cells@) ==> forall|b: int|
                0 <= b < c ==> (#[trigger] cell_dofs[cells[b].local_index as int]).len()
                    == elements[cells[b].element as int].dim,
        decreases cells.len() - c,
    {
        let cell = &cells[c];
        let element = &elements[cell.element];
        let li = cell.local_index;
        let mut row: Vec<usize> = Vec::new();
        let mut z: usize = 0;
        while z < element.dim
            invariant
                z <= element.dim,
                row.len() == z,
                forall|q: int| 0 <= q < z ==> #[trigger] row[q] == 0,
            decreases element.dim - z,
        {
            row.push(0);
            z = z + 1;
        }
        let mut d: usize = 0;
        while d <= tdim
            invariant
                d <= tdim + 1,
                c < cells.len(),
                counted(entity_dofs@, origin, tdim as int, elements@, cells@, c as int, d as int, 0),
                runs_ordered(entity_dofs@, origin),
                one_owner_each(tdim as int, elements@, cells@) ==> zero_else(
                    cell_dofs@,
                    entity_dofs@,
                    tdim as int,
                    elements@,
                    cells@,
                    c as int,
                ),
                row_zero_else(
                    row@,
                    entity_dofs@,
                    tdim as int,
                    elements@,
                    cells@,
                    c as int,
                    d as int,
                    0,
                ),
                cell == &cells[c as int],
                element == &elements[cell.element as int],
                li == cell.local_index,
                row.len() == element.dim,
                fits(tdim as int, entity_counts@, ownership@, elements@, cells@),
                cell_dofs.len() == entity_counts[tdim as int],
                entity_dofs.len() == 4,
                forall|x: int|
                    0 <= x < 4 ==> (#[trigger] entity_dofs[x]).len() == (if x <= tdim {
                        entity_counts[x] as int
                    } else {
                        0
                    }),
                is_numbering(entity_dofs@, owner_data.len() as int, owner_data@, rank, ownership@),
                one_owner_each(tdim as int, elements@, cells@) ==> forall|b: int, x: int, i: int|
                    0 <= b < c && 0 <= x <= tdim && 0 <= i < cells[b].sub_entities[x].len()
                        ==> #[trigger] cell_linked(
                        cell_dofs@,
                        entity_dofs@,
                        elements@,
                        cells@,
                        b,
                        x,
                        i,
                    ),
                one_owner_each(tdim as int, elements@, cells@) ==> forall|b: int|
                    0 <= b < c ==> (#[trigger] cell_dofs[cells[b].local_index as int]).len()
                        == elements[cells[b].element as int].dim,
                one_owner_each(tdim as int, elements@, cells@) ==> forall|x: int, i: int|
                    0 <= x < d && 0 <= i < cell.sub_entities[x].len() ==> #[trigger] row_linked(
                        row@,
                        entity_dofs@,
                        *element,
                        *cell,
                        x,
                        i,
                    ),
            decreases tdim + 1 - d,
        {
            let mut i: usize = 0;
            while i < cell.sub_entities[d].len()
                invariant
                    d <= tdim,
                    i <= cell.sub_entities[d as int].len(),
                    c < cells.len(),
                    counted(
                        entity_dofs@,
                        origin,
                        tdim as int,
                        elements@,
                        cells@,
                        c as int,
                        d as int,
                        i as int,
                    ),
                    runs_ordered(entity_dofs@, origin),
                    one_owner_each(tdim as int, elements@, cells@) ==> zero_else(
                        cell_dofs@,
                        entity_dofs@,
                        tdim as int,
                        elements@,
                        cells@,
                        c as int,
                    ),
                    row_zero_else(
                        row@,
                        entity_dofs@,
                        tdim as int,
                        elements@,
                        cells@,
                        c as int,
                        d as int,
                        i as int,
                    ),
                    cell == &cells[c as int],
                    element == &elements[cell.element as int],
                    li == cell.local_index,
                    row.len() == element.dim,
                    fits(tdim as int, entity_counts@, ownership@, elements@, cells@),
                    cell_dofs.len() == entity_counts[tdim as int],
                    entity_dofs.len() == 4,
                    forall|x: int|
                        0 <= x < 4 ==> (#[trigger] entity_dofs[x]).len() == (if x <= tdim {
                            entity_counts[x] as int
                        } else {
                            0
                        }),
                    is_numbering(entity_dofs@, owner_data.len() as int, owner_data@, rank, ownership@),
                    one_owner_each(tdim as int, elements@, cells@) ==> forall|
                        b: int,
                        x: int,
                        j: int,
                    |
                        0 <= b < c && 0 <= x <= tdim && 0 <= j < cells[b].sub_entities[x].len()
                            ==> #[trigger] cell_linked(
                            cell_dofs@,
                            entity_dofs@,
                            elements@,
                            cells@,
                            b,
                            x,
                            j,
                        ),
                    one_owner_each(tdim as int, elements@, cells@) ==> forall|b: int|
                        0 <= b < c ==> (#[trigger] cell_dofs[cells[b].local_index as int]).len()
                            == elements[cells[b].element as int].dim,
                    one_owner_each(tdim as int, elements@, cells@) ==> forall|x: int, j: int|
                        (0 <= x < d && 0 <= j < cell.sub_entities[x].len()) || (x == d && 0 <= j
                            < i) ==> #[trigger] row_linked(
                            row@,
                            entity_dofs@,
                            *element,
                            *cell,
                            x,
                            j,
                        ),
                decreases cell.sub_entities[d as int].len() - i,
            {
                let e = cell.sub_entities[d][i];
                let ghost lists_before = entity_dofs@;
                let ghost row_before = row@;
                let ghost size_before = owner_data.len() as int;
                proof {
                    assert(cells[c as int].sub_entities[d as int][i as int] < entity_counts[d as int]);
                    assert(cells[c as int].sub_entities[d as int].len()
                        <= elements[cells[c as int].element as int].entity_dofs[d as int].len());
                    assert(ownership[d as int].len() == entity_counts[d as int]);
                }
                let e_dofs = &element.entity_dofs[d][i];
                if e_dofs.len() > 0 {
                    if entity_dofs[d][e].len() == 0 {
                        number_entity(
                            &mut entity_dofs,
                            &mut owner_data,
                            rank,
                            ownership,
                            d,
                            e,
                            e_dofs.len(),
                        );
                    }
                    proof {
                        assert forall|k: int| 0 <= k < e_dofs.len() implies #[trigger] e_dofs[k]
                            < row.len() by {
                            assert(elements[cells[c as int].element as int].entity_dofs[d as int][i as int][k]
                                < elements[cells[c as int].element as int].dim);
                        }
                    }
                    link_cell(&mut row, e_dofs, &entity_dofs[d][e]);
                }
                proof {
                    if one_owner_each(tdim as int, elements@, cells@) {
                        lemma_links_kept(
                            cell_dofs@,
                            lists_before,
                            entity_dofs@,
                            elements@,
                            cells@,
                            tdim as int,
                            c as int,
                            d as int,
                            e as int,
                        );
                        lemma_row_links(
                            row_before,
                            row@,
                            lists_before,
                            entity_dofs@,
                            elements@,
                            cells@,
                            tdim as int,
                            c as int,
                            d as int,
                            i as int,
                        );
                    }
                    let next = if e_dofs.len() > 0 && lists_before[d as int][e as int].len() == 0 {
                        origin.insert((d as int, e as int), (c as int, i as int))
                    } else {
                        origin
                    };
                    lemma_counted_step(
                        lists_before,
                        entity_dofs@,
                        origin,
                        next,
                        tdim as int,
                        elements@,
                        cells@,
                        c as int,
                        d as int,
                        i as int,
                    );
                    lemma_runs_step(
                        lists_before,
                        entity_dofs@,
                        origin,
                        next,
                        tdim as int,
                        elements@,
                        cells@,
                        c as int,
                        d as int,
                        i as int,
                        size_before,
                    );
                    origin = next;
                    assert(grown(lists_before, entity_dofs@, tdim as int));
                    if one_owner_each(tdim as int, elements@, cells@) {
                        lemma_zero_kept(
                            cell_dofs@,
                            lists_before,
                            entity_dofs@,
                            tdim as int,
                            entity_counts@,
                            ownership@,
                            elements@,
                            cells@,
                            c as int,
                        );
                    }
                    assert forall|p: int|
                        0 <= p < row.len() && #[trigger] row[p] != row_before[p] implies exists|
                        k: int,
                    | #[trigger]
                        linked_at(entity_dofs@, elements@, cells@, c as int, d as int, i as int, k, p) by {
                        let k = choose|k: int|
                            0 <= k < e_dofs.len() && k < entity_dofs[d as int][e as int].len()
                                && e_dofs[k] == p;
                        assert(linked_at(
                            entity_dofs@,
                            elements@,
                            cells@,
                            c as int,
                            d as int,
                            i as int,
                            k,
                            p,
                        ));
                    }
                    lemma_row_zero_step(
                        row_before,
                        row@,
                        lists_before,
                        entity_dofs@,
                        tdim as int,
                        entity_counts@,
                        ownership@,
                        elements@,
                        cells@,
                        c as int,
                        d as int,
                        i as int,
                    );
                }
                i = i + 1;
            }
            proof {
                lemma_counted_same(
                    entity_dofs@,
                    origin,
                    tdim as int,
                    elements@,
                    cells@,
                    c as int,
                    d as int,
                    i as int,
                    c as int,
                    d + 1,
                    0,
                );
                lemma_row_zero_same(
                    row@,
                    entity_dofs@,
                    tdim as int,
                    elements@,
                    cells@,
                    c as int,
                    d as int,
                    i as int,
                    d + 1,
                    0,
                );
            }
            d = d + 1;
        }
        proof {
            lemma_counted_same(
                entity_dofs@,
                origin,
                tdim as int,
                elements@,
                cells@,
                c as int,
                d as int,
                0,
                c + 1,
                0,
                0,
            );
        }
        let ghost rows_before = cell_dofs@;
        proof {
            lemma_row_zero_same(
                row@,
                entity_dofs@,
                tdim as int,
                elements@,
                cells@,
                c as int,
                d as int,
                0,
                tdim + 1,
                0,
            );
            lemma_row_zero_done(row@, entity_dofs@, tdim as int, elements@, cells@, c as int);
        }
        cell_dofs[li] = row;
        proof {
            if one_owner_each(tdim as int, elements@, cells@) {
                assert forall|b: int, p: int|
                    0 <= b < c + 1 && 0 <= p < cell_dofs[cells[b].local_index as int].len()
                        && #[trigger] cell_dofs[cells[b].local_index as int][p]
                        != 0 implies is_linked_place(
                    entity_dofs@,
                    tdim as int,
                    elements@,
                    cells@,
                    b,
                    p,
                ) by {
                    if b < c {
                        assert(cells[b].local_index != cells[c as int].local_index);
                        assert(cell_dofs@[cells[b].local_index as int]
                            == rows_before[cells[b].local_index as int]);
                        assert(rows_before[cells[b].local_index as int][p] != 0);
                    }
                }
                assert forall|b: int, x: int, j: int|
                    0 <= b < c + 1 && 0 <= x <= tdim && 0 <= j
                        < cells[b].sub_entities[x].len() implies #[trigger] cell_linked(
                    cell_dofs@,
                    entity_dofs@,
                    elements@,
                    cells@,
                    b,
                    x,
                    j,
                ) by {
                    if b < c {
                        assert(cell_linked(rows_before, entity_dofs@, elements@, cells@, b, x, j));
                        assert(cells[b].local_index != cells[c as int].local_index);
                        assert(cell_dofs@[cells[b].local_index as int]
                            == rows_before[cells[b].local_index as int]);
                    } else {
                        assert(row_linked(row@, entity_dofs@, *element, *cell, x, j));
                    }
                }
                assert forall|b: int| 0 <= b < c + 1 implies (#[trigger] cell_dofs[cells[b].local_index as int]).len()
                    == elements[cells[b].element as int].dim by {
                    if b < c {
                        assert(cells[b].local_index != cells[c as int].local_index);
                        assert(cell_dofs@[cells[b].local_index as int]
                            == rows_before[cells[b].local_index as int]);
                    }
                }
            }
        }
        c = c + 1;
    }
    proof {
        lemma_counted_all(entity_dofs@, origin, tdim as int, elements@, cells@);
        lemma_runs_all(entity_dofs@, origin, tdim as int, elements@, cells@);
    }
    let size = owner_data.len();
    DofMap { cell_dofs, entity_dofs, size, owner_data }
}

/// The row of a cell knows the numbers of the degrees of freedom of the
/// cell's `i`-th sub-entity of dimension `d`.
pub open spec fn row_linked(
    row: Seq<usize>,
    entity_dofs: Seq<Vec<Vec<usize>>>,
    element: Element,
    cell: Cell,
    d: int,
    i: int,
) -> bool {
    let e = cell.sub_entities[d][i] as int;
    let e_dofs = element.entity_dofs[d][i];
    &&& e_dofs.len() > 0 ==> entity_dofs[d][e].len() > 0
    &&& forall|k: int|
        0 <= k < e_dofs.len() && k < entity_dofs[d][e].len() ==> #[trigger] row[e_dofs[k] as int]
            == entity_dofs[d][e][k]
}

/// What the cells before `c` know of their degrees of freedom stays true
/// when an entity that had no numbers gets numbers.
proof fn lemma_links_kept(
    cell_dofs: Seq<Vec<usize>>,
    before: Seq<Vec<Vec<usize>>>,
    after: Seq<Vec<Vec<usize>>>,
    elements: Seq<Element>,
    cells: Seq<Cell>,
    tdim: int,
    c: int,
    d: int,
    e: int,
)
    requires
        0 <= c < cells.len(),
        0 <= d <= tdim,
        before.len() == after.len(),
        d < before.len(),
        0 <= e < before[d].len(),
        forall|x: int| 0 <= x < before.len() ==> (#[trigger] after[x]).len() == before[x].len(),
        forall|x: int, y: int|
            0 <= x < before.len() && 0 <= y < before[x].len() && (x != d || y != e)
                ==> #[trigger] after[x][y] == before[x][y],
        after[d][e] == before[d][e] || before[d][e].len() == 0,
        tdim < before.len(),
        forall|b: int, x: int, j: int|
            0 <= b < c && 0 <= x <= tdim && 0 <= j < cells[b].sub_entities[x].len()
                ==> cells[b].sub_entities[x][j] < before[x].len(),
        forall|b: int, x: int, j: int|
            0 <= b < c && 0 <= x <= tdim && 0 <= j < cells[b].sub_entities[x].len()
                ==> #[trigger] cell_linked(cell_dofs, before, elements, cells, b, x, j),
    ensures
        forall|b: int, x: int, j: int|
            0 <= b < c && 0 <= x <= tdim && 0 <= j < cells[b].sub_entities[x].len()
                ==> #[trigger] cell_linked(cell_dofs, after, elements, cells, b, x, j),
{
    assert forall|b: int, x: int, j: int|
        0 <= b < c && 0 <= x <= tdim && 0 <= j
            < cells[b].sub_entities[x].len() implies #[trigger] cell_linked(
        cell_dofs,
        after,
        elements,
        cells,
        b,
        x,
        j,
    ) by {
        assert(cell_linked(cell_dofs, before, elements, cells, b, x, j));
        let y = cells[b].sub_entities[x][j] as int;
        if x != d || y != e {
            assert(after[x][y] == before[x][y]);
        }
    }
}

/// The row of the cell `c` knows the numbers of the sub-entities met so
/// far, the `i`-th of dimension `d` among them, once the numbers of that
/// sub-entity were copied into it.
proof fn lemma_row_links(
    row_before: Seq<usize>,
    row: Seq<usize>,
    before: Seq<Vec<Vec<usize>>>,
    after: Seq<Vec<Vec<usize>>>,
    elements: Seq<Element>,
    cells: Seq<Cell>,
    tdim: int,
    c: int,
    d: int,
    i: int,
)
    requires
        0 <= c < cells.len(),
        0 <= d <= tdim,
        0 <= i < cells[c].sub_entities[d].len(),
        one_owner_each(tdim, elements, cells),
        before.len() == after.len(),
        tdim < before.len(),
        forall|x: int| 0 <= x < before.len() ==> (#[trigger] after[x]).len() == before[x].len(),
        forall|x: int, j: int|
            0 <= x <= tdim && 0 <= j < cells[c].sub_entities[x].len()
                ==> cells[c].sub_entities[x][j] < before[x].len(),
        ({
            let e = cells[c].sub_entities[d][i] as int;
            let e_dofs = elements[cells[c].element as int].entity_dofs[d][i];
            &&& forall|x: int, y: int|
                0 <= x < before.len() && 0 <= y < before[x].len() && (x != d || y != e)
                    ==> #[trigger] after[x][y] == before[x][y]
            &&& after[d][e] == before[d][e] || before[d][e].len() == 0
            &&& e_dofs.len() > 0 ==> after[d][e].len() > 0
            &&& e_dofs.len() == 0 ==> row == row_before && after[d][e] == before[d][e]
            &&& row.len() == row_before.len()
            &&& forall|k: int| 0 <= k < e_dofs.len() ==> #[trigger] e_dofs[k] < row.len()
            &&& e_dofs.len() > 0 ==> forall|k: int|
                0 <= k < e_dofs.len() && k < after[d][e].len() && (forall|k2: int|
                    k < k2 < e_dofs.len() && k2 < after[d][e].len() ==> e_dofs[k2] != e_dofs[k])
                    ==> #[trigger] row[e_dofs[k] as int] == after[d][e][k]
            &&& e_dofs.len() > 0 ==> forall|p: int|
                0 <= p < row.len() && (forall|k: int|
                    0 <= k < e_dofs.len() && k < after[d][e].len() ==> e_dofs[k] != p)
                    ==> #[trigger] row[p] == row_before[p]
        }),
        forall|x: int, j: int, k: int|
            0 <= x <= tdim && 0 <= j < cells[c].sub_entities[x].len() && 0 <= k
                < elements[cells[c].element as int].entity_dofs[x][j].len()
                ==> #[trigger] elements[cells[c].element as int].entity_dofs[x][j][k] < row.len(),
        forall|x: int, j: int|
            (0 <= x < d && 0 <= j < cells[c].sub_entities[x].len()) || (x == d && 0 <= j < i)
                ==> #[trigger] row_linked(
                row_before,
                before,
                elements[cells[c].element as int],
                cells[c],
                x,
                j,
            ),
    ensures
        forall|x: int, j: int|
            (0 <= x < d && 0 <= j < cells[c].sub_entities[x].len()) || (x == d && 0 <= j < i + 1)
                ==> #[trigger] row_linked(
                row,
                after,
                elements[cells[c].element as int],
                cells[c],
                x,
                j,
            ),
{
    let cell = cells[c];
    let element = elements[cell.element as int];
    let e = cell.sub_entities[d][i] as int;
    let e_dofs = element.entity_dofs[d][i];
    assert forall|x: int, j: int|
        (0 <= x < d && 0 <= j < cell.sub_entities[x].len()) || (x == d && 0 <= j < i
            + 1) implies #[trigger] row_linked(row, after, element, cell, x, j) by {
        let y = cell.sub_entities[x][j] as int;
        let other = element.entity_dofs[x][j];
        if x == d && j == i {
            assert forall|k: int| 0 <= k < e_dofs.len() && k < after[d][e].len() implies #[trigger] row[e_dofs[k] as int]
                == after[d][e][k] by {
                assert forall|k2: int|
                    k < k2 < e_dofs.len() && k2 < after[d][e].len() implies e_dofs[k2]
                    != e_dofs[k] by {
                    assert(element.entity_dofs[d][i][k2] != element.entity_dofs[d][i][k]);
                }
            }
        } else {
            assert(row_linked(row_before, before, element, cell, x, j));
            if x == d && y == e {
                if other.len() > 0 {
                    assert(before[d][e].len() > 0);
                }
            } else {
                assert(after[x][y] == before[x][y]);
            }
            assert forall|k: int| 0 <= k < other.len() && k < after[x][y].len() implies #[trigger] row[other[k] as int]
                == after[x][y][k] by {
                assert(element.entity_dofs[x][j][k] < row.len());
                if e_dofs.len() > 0 {
                    assert forall|k3: int|
                        0 <= k3 < e_dofs.len() && k3 < after[d][e].len() implies e_dofs[k3]
                        != other[k] by {
                        assert(element.entity_dofs[d][i][k3] != element.entity_dofs[x][j][k]);
                    }
                    assert(row[other[k] as int] == row_before[other[k] as int]);
                }
                assert(row_before[other[k] as int] == before[x][y][k]);
            }
        }
    }
}

/// Whether the sub-entities of dimension `d` of the cell `c` are entities
/// that the grid counts and that the element of the cell knows, with degrees
/// of freedom of the element.
fn sub_entities_fit(
    tdim: usize,
    entity_counts: &Vec<usize>,
    elements: &Vec<Element>,
    cells: &Vec<Cell>,
    c: usize,
    d: usize,
) -> (fit: bool)
    requires
        c < cells.len(),
        d <= tdim,
        entity_counts.len() == tdim + 1,
        cells[c as int].element < elements.len(),
        cells[c as int].sub_entities.len() == tdim + 1,
        elements[cells[c as int].element as int].entity_dofs.len() == tdim + 1,
    ensures
        fit == {
            let cell = cells[c as int];
            let element = elements[cell.element as int];
            &&& cell.sub_entities[d as int].len() <= element.entity_dofs[d as int].len()
            &&& forall|i: int|
                0 <= i < cell.sub_entities[d as int].len() ==> #[trigger] cells[c as int].sub_entities[d as int][i]
                    < entity_counts[d as int]
            &&& forall|i: int, k: int|
                0 <= i < cell.sub_entities[d as int].len() && 0 <= k
                    < element.entity_dofs[d as int][i].len()
                    ==> #[trigger] elements[cells[c as int].element as int].entity_dofs[d as int][i][k]
                    < element.dim
        },
{
    let cell = &cells[c];
    let element = &elements[cell.element];
    if cell.sub_entities[d].len() > element.entity_dofs[d].len() {
        return false;
    }
    let mut i: usize = 0;
    while i < cell.sub_entities[d].len()
        invariant
            c < cells.len(),
            d <= tdim,
            entity_counts.len() == tdim + 1,
            cell == &cells[c as int],
            element == &elements[cell.element as int],
            cell.sub_entities.len() == tdim + 1,
            element.entity_dofs.len() == tdim + 1,
            cell.sub_entities[d as int].len() <= element.entity_dofs[d as int].len(),
            i <= cell.sub_entities[d as int].len(),
            forall|j: int|
                0 <= j < i ==> #[trigger] cells[c as int].sub_entities[d as int][j]
                    < entity_counts[d as int],
            forall|j: int, k: int|
                0 <= j < i && 0 <= k < element.entity_dofs[d as int][j].len()
                    ==> #[trigger] elements[cells[c as int].element as int].entity_dofs[d as int][j][k]
                    < element.dim,
        decreases cell.sub_entities[d as int].len() - i,
    {
        if cell.sub_entities[d][i] >= entity_counts[d] {
            proof {
                assert(!(cells[c as int].sub_entities[d as int][i as int] < entity_counts[d as int]));
            }
            return false;
        }
        let e_dofs = &element.entity_dofs[d][i];
        let mut k: usize = 0;
        while k < e_dofs.len()
            invariant
                c < cells.len(),
                cell == &cells[c as int],
                element == &elements[cell.element as int],
                d < element.entity_dofs.len(),
                d < cell.sub_entities.len(),
                i < cell.sub_entities[d as int].len(),
                i < element.entity_dofs[d as int].len(),
                e_dofs == &element.entity_dofs[d as int][i as int],
                k <= e_dofs.len(),
                forall|q: int|
                    0 <= q < k ==> #[trigger] elements[cells[c as int].element as int].entity_dofs[d as int][i as int][q]
                        < element.dim,
            decreases e_dofs.len() - k,
        {
            if e_dofs[k] >= element.dim {
                proof {
                    assert(!(elements[cells[c as int].element as int].entity_dofs[d as int][i as int][k as int]
                        < element.dim));
                }
                return false;
            }
            k = k + 1;
        }
        i = i + 1;
    }
    true
}

/// Whether the grid and the elements fit together, so that the degrees of
/// freedom can be numbered.
pub fn fits_together(
    tdim: usize,
    entity_counts: &Vec<usize>,
    ownership: &Vec<Vec<Ownership>>,
    elements: &Vec<Element>,
    cells: &Vec<Cell>,
) -> (fit: bool)
    ensures
        fit == fits(tdim as int, entity_counts@, ownership@, elements@, cells@),
{
    if tdim > 2 || entity_counts.len() != tdim + 1 || ownership.len() != tdim + 1 {
        return false;
    }
    let mut d: usize = 0;
    while d <= tdim
        invariant
            tdim <= 2,
            d <= tdim + 1,
            entity_counts.len() == tdim + 1,
            ownership.len() == tdim + 1,
            forall|x: int| 0 <= x < d ==> (#[trigger] ownership[x]).len() == entity_counts[x],
        decreases tdim + 1 - d,
    {
        if ownership[d].len() != entity_counts[d] {
            return false;
        }
        d = d + 1;
    }
    let mut c: usize = 0;
    while c < cells.len()
        invariant
            tdim <= 2,
            c <= cells.len(),
            entity_counts.len() == tdim + 1,
            ownership.len() == tdim + 1,
            forall|x: int| 0 <= x <= tdim ==> (#[trigger] ownership[x]).len() == entity_counts[x],
            fits(tdim as int, entity_counts@, ownership@, elements@, cells@.take(c as int)),
        decreases cells.len() - c,
    {
        let cell = &cells[c];
        let ghost seen = cells@.take(c as int);
        let ghost next = cells@.take(c + 1);
        proof {
            assert forall|b: int| 0 <= b < c implies next[b] == seen[b] by {}
            assert(next[c as int] == cells[c as int]);
        }
        if cell.local_index >= entity_counts[tdim] || cell.element >= elements.len()
            || cell.sub_entities.len() != tdim + 1 || elements[cell.element].entity_dofs.len()
            != tdim + 1 {
            proof {
                assert(!fits(tdim as int, entity_counts@, ownership@, elements@, cells@)) by {
                    let x = cells[c as int];
                    if fits(tdim as int, entity_counts@, ownership@, elements@, cells@) {
                        assert(x.local_index < entity_counts[tdim as int]);
                    }
                }
            }
            return false;
        }
        let mut d: usize = 0;
        while d <= tdim
            invariant
                tdim <= 2,
                d <= tdim + 1,
                c < cells.len(),
                cell == &cells[c as int],
                entity_counts.len() == tdim + 1,
                cell.element < elements.len(),
                cell.sub_entities.len() == tdim + 1,
                elements[cell.element as int].entity_dofs.len() == tdim + 1,
                forall|x: int|
                    0 <= x < d ==> (#[trigger] cells[c as int].sub_entities[x]).len()
                        <= elements[cells[c as int].element as int].entity_dofs[x].len(),
                forall|x: int, i: int|
                    0 <= x < d && 0 <= i < cells[c as int].sub_entities[x].len()
                        ==> #[trigger] cells[c as int].sub_entities[x][i] < entity_counts[x],
                forall|x: int, i: int, k: int|
                    0 <= x < d && 0 <= i < cells[c as int].sub_entities[x].len() && 0 <= k
                        < elements[cells[c as int].element as int].entity_dofs[x][i].len()
                        ==> #[trigger] elements[cells[c as int].element as int].entity_dofs[x][i][k]
                        < elements[cells[c as int].element as int].dim,
            decreases tdim + 1 - d,
        {
            if !sub_entities_fit(tdim, entity_counts, elements, cells, c, d) {
                proof {
                    if fits(tdim as int, entity_counts@, ownership@, elements@, cells@) {
                        assert(cells[c as int].sub_entities[d as int].len()
                            <= elements[cells[c as int].element as int].entity_dofs[d as int].len());
                    }
                }
                return false;
            }
            d = d + 1;
        }
        proof {
            assert(fits(tdim as int, entity_counts@, ownership@, elements@, next)) by {
                assert forall|b: int, x: int|
                    0 <= b < next.len() && 0 <= x <= tdim implies (#[trigger] next[b].sub_entities[x]).len()
                    <= elements[next[b].element as int].entity_dofs[x].len() by {
                    if b < c {
                        assert(seen[b].sub_entities[x].len()
                            <= elements[seen[b].element as int].entity_dofs[x].len());
                    } else {
                        assert(cells[c as int].sub_entities[x].len()
                            <= elements[cells[c as int].element as int].entity_dofs[x].len());
                    }
                }
                assert forall|b: int, x: int, i: int|
                    0 <= b < next.len() && 0 <= x <= tdim && 0 <= i
                        < next[b].sub_entities[x].len() implies #[trigger] next[b].sub_entities[x][i]
                    < entity_counts[x] by {
                    if b < c {
                        assert(seen[b].sub_entities[x][i] < entity_counts[x]);
                    } else {
                        assert(cells[c as int].sub_entities[x][i] < entity_counts[x]);
                    }
                }
                assert forall|b: int, x: int, i: int, k: int|
                    0 <= b < next.len() && 0 <= x <= tdim && 0 <= i < next[b].sub_entities[x].len()
                        && 0 <= k < elements[next[b].element as int].entity_dofs[x][i].len() implies #[trigger] elements[next[b].element as int].entity_dofs[x][i][k]
                    < elements[next[b].element as int].dim by {
                    if b < c {
                        assert(elements[seen[b].element as int].entity_dofs[x][i][k]
                            < elements[seen[b].element as int].dim);
                    } else {
                        assert(elements[cells[c as int].element as int].entity_dofs[x][i][k]
                            < elements[cells[c as int].element as int].dim);
                    }
                }
            }
        }
        c = c + 1;
    }
    proof {
        assert(cells@.take(cells.len() as int) =~= cells@);
    }
    true
}

} // verus!
