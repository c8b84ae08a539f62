use bempp::assembly::{
    batches, check_dense_shape, dense_index, kernel_index, AssemblyError,
    BatchedPotentialAssemblerOptions, ReferenceCellType,
};
use bempp::dofs::{assign_dofs, fits_together, Cell, Element, Ownership};
use bempp::gmsh::{gmsh_element, padding};
use bempp::green::{LaplaceGreenDxKernel, LaplaceGreenDyKernel, LaplaceGreenKernel};
use bempp::grid::{Locality, Topology};

#[test]
fn test_options_default() {
    let options = BatchedPotentialAssemblerOptions::default();
    assert_eq!(options.batch_size, 128);
    assert_eq!(options.degree(ReferenceCellType::Triangle), Some(37));
    assert_eq!(options.degree(ReferenceCellType::Quadrilateral), Some(37));
    assert_eq!(options.degree(ReferenceCellType::Interval), None);
    assert_eq!(options.quadrature_degrees.len(), 2);
}

#[test]
fn test_options_setters() {
    let mut options = BatchedPotentialAssemblerOptions::default();
    options.quadrature_degree(ReferenceCellType::Triangle, 16);
    options.batch_size(4);
    assert_eq!(options.degree(ReferenceCellType::Triangle), Some(16));
    assert_eq!(options.degree(ReferenceCellType::Quadrilateral), Some(37));
    assert_eq!(options.batch_size, 4);
}

#[test]
fn test_cell_codes() {
    let all = [
        ReferenceCellType::Point,
        ReferenceCellType::Interval,
        ReferenceCellType::Triangle,
        ReferenceCellType::Quadrilateral,
        ReferenceCellType::Tetrahedron,
        ReferenceCellType::Hexahedron,
        ReferenceCellType::Prism,
        ReferenceCellType::Pyramid,
    ];
    for (i, cell) in all.iter().enumerate() {
        assert_eq!(cell.code() as usize, i);
    }
}

#[test]
fn test_batches() {
    assert_eq!(batches(10, 4), vec![(0, 4), (4, 8), (8, 10)]);
    assert_eq!(batches(8, 4), vec![(0, 4), (4, 8)]);
    assert_eq!(batches(3, 128), vec![(0, 3)]);
    assert_eq!(batches(0, 128), vec![]);
    assert_eq!(batches(2, 1), vec![(0, 1), (1, 2)]);
    assert_eq!(batches(5, usize::MAX), vec![(0, 5)]);
}

#[test]
fn test_check_dense_shape() {
    assert_eq!(check_dense_shape(true, [3, 8], 3, 8), Ok(()));
    assert_eq!(check_dense_shape(false, [3, 8], 3, 8), Err(AssemblyError::NotSerial));
    assert_eq!(check_dense_shape(false, [3, 7], 3, 8), Err(AssemblyError::NotSerial));
    assert_eq!(check_dense_shape(true, [8, 3], 3, 8), Err(AssemblyError::WrongShape));
    assert_eq!(check_dense_shape(true, [3, 7], 3, 8), Err(AssemblyError::WrongShape));
}

#[test]
fn test_dense_and_kernel_index() {
    assert_eq!(dense_index(2, 5, 3, 8), 2 + 3 * 5);
    assert_eq!(dense_index(0, 0, 3, 8), 0);
    assert_eq!(dense_index(2, 7, 3, 8), 23);
    // values for 37 quadrature points, one derivative, 3 evaluation points
    assert_eq!(kernel_index(5, 2, 37, 1, 3), 5 + 37 * 2);
    // four derivatives: the first of them is read
    assert_eq!(kernel_index(5, 2, 37, 4, 3), 5 + 37 * 4 * 2);
}

#[test]
fn test_gmsh_element() {
    let triangle = gmsh_element(&[7, 8, 9]).unwrap();
    assert_eq!(triangle.kind, 2);
    assert_eq!(triangle.vertices, vec![7, 8, 9]);
    let quadrilateral = gmsh_element(&[0, 1, 3, 4]).unwrap();
    assert_eq!(quadrilateral.kind, 3);
    assert_eq!(quadrilateral.vertices, vec![0, 1, 4, 3]);
    assert!(gmsh_element(&[0, 1]).is_none());
    assert!(gmsh_element(&[0, 1, 2, 3, 4]).is_none());
    assert!(gmsh_element(&[]).is_none());
    assert_eq!(padding(2), 1);
    assert_eq!(padding(3), 0);
    assert_eq!(padding(0), 3);
    assert_eq!(padding(5), 0);
}

/// Two triangles (0, 1, 2) and (1, 3, 2) that share the edge (1, 2).
fn two_triangles(element: usize) -> Vec<Cell> {
    vec![
        Cell { local_index: 0, element, sub_entities: vec![vec![0, 1, 2], vec![0, 1, 2], vec![0]] },
        Cell { local_index: 1, element, sub_entities: vec![vec![1, 3, 2], vec![3, 0, 4], vec![1]] },
    ]
}

fn owned(counts: &[usize]) -> Vec<Vec<Ownership>> {
    counts.iter().map(|n| vec![Ownership::Owned; *n]).collect()
}

#[test]
fn test_assign_dofs_on_vertices() {
    let linear = Element { dim: 3, entity_dofs: vec![vec![vec![0], vec![1], vec![2]], vec![vec![], vec![], vec![]], vec![vec![]]] };
    let counts = vec![4, 5, 2];
    let map = assign_dofs(0, 2, &counts, &owned(&counts), &vec![linear], &two_triangles(0));
    assert_eq!(map.size, 4);
    assert_eq!(map.cell_dofs, vec![vec![0, 1, 2], vec![1, 3, 2]]);
    assert_eq!(map.entity_dofs.len(), 4);
    assert_eq!(map.entity_dofs[0], vec![vec![0], vec![1], vec![2], vec![3]]);
    assert_eq!(map.entity_dofs[1], vec![Vec::<usize>::new(); 5]);
    assert_eq!(map.entity_dofs[2], vec![Vec::<usize>::new(); 2]);
    assert!(map.entity_dofs[3].is_empty());
    assert_eq!(map.owner_data, vec![(0, 0, 0, 0), (0, 0, 1, 0), (0, 0, 2, 0), (0, 0, 3, 0)]);
}

#[test]
fn test_assign_dofs_on_cells() {
    let constant = Element { dim: 1, entity_dofs: vec![vec![vec![], vec![], vec![]], vec![vec![], vec![], vec![]], vec![vec![0]]] };
    let counts = vec![4, 5, 2];
    let map = assign_dofs(3, 2, &counts, &owned(&counts), &vec![constant], &two_triangles(0));
    assert_eq!(map.size, 2);
    assert_eq!(map.cell_dofs, vec![vec![0], vec![1]]);
    assert_eq!(map.entity_dofs[2], vec![vec![0], vec![1]]);
    assert_eq!(map.owner_data, vec![(3, 2, 0, 0), (3, 2, 1, 0)]);
}

#[test]
fn test_assign_dofs_edges_and_halo() {
    // one degree of freedom on each vertex and two on each edge
    let element = Element {
        dim: 9,
        entity_dofs: vec![
            vec![vec![0], vec![1], vec![2]],
            vec![vec![3, 4], vec![5, 6], vec![7, 8]],
            vec![vec![]],
        ],
    };
    let counts = vec![4, 5, 2];
    let mut ownership = owned(&counts);
    ownership[0][3] = Ownership::Halo(1, 70);
    ownership[1][4] = Ownership::Halo(2, 90);
    let cells = two_triangles(0);
    let map = assign_dofs(0, 2, &counts, &ownership, &vec![element], &cells);
    assert_eq!(map.size, 4 + 2 * 5);
    // first cell: vertices 0, 1, 2 get 0, 1, 2; its edges 0, 1, 2 get (3, 4), (5, 6), (7, 8)
    assert_eq!(map.cell_dofs[0], vec![0, 1, 2, 3, 4, 5, 6, 7, 8]);
    // second cell: vertex 3 is new; edge 0 is shared; edges 3 and 4 are new
    assert_eq!(map.cell_dofs[1], vec![1, 9, 2, 10, 11, 3, 4, 12, 13]);
    assert_eq!(map.entity_dofs[0][3], vec![9]);
    assert_eq!(map.entity_dofs[1][0], vec![3, 4]);
    assert_eq!(map.entity_dofs[1][3], vec![10, 11]);
    assert_eq!(map.entity_dofs[1][4], vec![12, 13]);
    assert_eq!(map.owner_data[9], (1, 0, 70, 0));
    assert_eq!(map.owner_data[12], (2, 1, 90, 0));
    assert_eq!(map.owner_data[13], (2, 1, 90, 1));
    assert_eq!(map.owner_data[4], (0, 1, 0, 1));
    // every number below the size stands at one place
    let mut seen = vec![0; map.size];
    for lists in map.entity_dofs.iter() {
        for list in lists.iter() {
            for g in list.iter() {
                seen[*g] += 1;
            }
        }
    }
    assert!(seen.iter().all(|n| *n == 1));
}

#[test]
fn test_assign_dofs_no_cells() {
    let map = assign_dofs(0, 1, &vec![3, 2], &owned(&[3, 2]), &Vec::new(), &Vec::new());
    assert_eq!(map.size, 0);
    assert_eq!(map.cell_dofs, vec![Vec::<usize>::new(); 2]);
    assert_eq!(map.entity_dofs[0].len(), 3);
    assert_eq!(map.entity_dofs[1].len(), 2);
    assert!(map.entity_dofs[2].is_empty() && map.entity_dofs[3].is_empty());
    assert!(map.owner_data.is_empty());
}

struct Strip {
    cells: usize,
}

impl Topology for Strip {
    fn dim(&self) -> usize {
        1
    }
    fn locality(&self, global_id: usize) -> Locality {
        if global_id < self.cells {
            Locality::Local
        } else if global_id == self.cells {
            Locality::Halo(1)
        } else {
            Locality::Remote
        }
    }
    fn local2global(&self, local_id: usize) -> usize {
        local_id
    }
    fn global2local(&self, global_id: usize) -> Option<usize> {
        if global_id <= self.cells {
            Some(global_id)
        } else {
            None
        }
    }
    fn entity_count(&self, dim: usize) -> usize {
        if dim == 1 {
            self.cells
        } else if dim == 0 {
            self.cells + 1
        } else {
            0
        }
    }
}

#[test]
fn test_topology_and_locality() {
    let strip = Strip { cells: 4 };
    assert_eq!(strip.dim(), 1);
    assert_eq!(strip.entity_count(0), 5);
    assert_eq!(strip.locality(2), Locality::Local);
    assert_eq!(strip.locality(4), Locality::Halo(1));
    assert_eq!(strip.locality(5), Locality::Remote);
    assert_eq!(strip.global2local(strip.local2global(3)), Some(3));
    assert_eq!(strip.global2local(9), None);
}

#[test]
fn test_kernel_names() {
    assert_eq!(LaplaceGreenKernel::default(), LaplaceGreenKernel {});
    assert_eq!(LaplaceGreenDxKernel::default(), LaplaceGreenDxKernel {});
    assert_eq!(LaplaceGreenDyKernel::default(), LaplaceGreenDyKernel {});
}

#[test]
fn test_fits_together() {
    let element = || Element { dim: 3, entity_dofs: vec![vec![vec![0], vec![1], vec![2]], vec![vec![], vec![], vec![]], vec![vec![]]] };
    let counts = vec![4, 5, 2];
    assert!(fits_together(2, &counts, &owned(&counts), &vec![element()], &two_triangles(0)));
    // a cell without an element
    assert!(!fits_together(2, &counts, &owned(&counts), &vec![element()], &two_triangles(1)));
    // a vertex that the grid does not count
    assert!(!fits_together(2, &vec![3, 5, 2], &owned(&[3, 5, 2]), &vec![element()], &two_triangles(0)));
    // ownership of too few entities
    assert!(!fits_together(2, &counts, &owned(&[4, 4, 2]), &vec![element()], &two_triangles(0)));
    // a degree of freedom beyond the element's
    let short = Element { dim: 2, entity_dofs: element().entity_dofs };
    assert!(!fits_together(2, &counts, &owned(&counts), &vec![short], &two_triangles(0)));
    // cells of three dimensions
    assert!(!fits_together(3, &vec![4, 5, 2, 1], &owned(&[4, 5, 2, 1]), &vec![element()], &Vec::new()));
    assert!(fits_together(1, &vec![3, 2], &owned(&[3, 2]), &Vec::new(), &Vec::new()));
}

#[test]
fn test_assign_dofs_counts_by_first_cell() {
    // the first cell has two degrees of freedom on each edge, the second one
    let two = Element {
        dim: 6,
        entity_dofs: vec![vec![vec![], vec![], vec![]], vec![vec![0, 1], vec![2, 3], vec![4, 5]], vec![vec![]]],
    };
    let one = Element {
        dim: 3,
        entity_dofs: vec![vec![vec![], vec![], vec![]], vec![vec![0], vec![1], vec![2]], vec![vec![]]],
    };
    let mut cells = two_triangles(0);
    cells[1].element = 1;
    let counts = vec![4, 6, 2];
    let map = assign_dofs(0, 2, &counts, &owned(&counts), &vec![two, one], &cells);
    // the shared edge 0 keeps the two numbers that the first cell gave it
    assert_eq!(map.entity_dofs[1][0], vec![0, 1]);
    assert_eq!(map.entity_dofs[1][1], vec![2, 3]);
    assert_eq!(map.entity_dofs[1][2], vec![4, 5]);
    // the edges that only the second cell has get one number each
    assert_eq!(map.entity_dofs[1][3], vec![6]);
    assert_eq!(map.entity_dofs[1][4], vec![7]);
    // the edge that no cell has gets none, and neither does a vertex or a cell
    assert!(map.entity_dofs[1][5].is_empty());
    assert!(map.entity_dofs[0].iter().all(|list| list.is_empty()));
    assert!(map.entity_dofs[2].iter().all(|list| list.is_empty()));
    assert_eq!(map.size, 8);
    assert_eq!(map.cell_dofs[0], vec![0, 1, 2, 3, 4, 5]);
    assert_eq!(map.cell_dofs[1], vec![6, 0, 7]);
}

#[test]
fn test_assign_dofs_leaves_other_places_at_zero() {
    // an element with a degree of freedom that no sub-entity carries, and more
    // degrees of freedom on an edge than the first cell gave the edge numbers
    let first = Element {
        dim: 4,
        entity_dofs: vec![vec![vec![], vec![], vec![]], vec![vec![1], vec![2], vec![3]], vec![vec![]]],
    };
    let second = Element {
        dim: 5,
        entity_dofs: vec![vec![vec![], vec![], vec![]], vec![vec![1], vec![3, 4], vec![2]], vec![vec![]]],
    };
    let mut cells = two_triangles(0);
    cells[1].element = 1;
    let counts = vec![4, 5, 2];
    let map = assign_dofs(0, 2, &counts, &owned(&counts), &vec![first, second], &cells);
    assert_eq!(map.size, 5);
    // place 0 belongs to no sub-entity
    assert_eq!(map.cell_dofs[0], vec![0, 0, 1, 2]);
    // the second cell's edges are 3, 0 and 4: edge 0 has the one number of the first cell,
    // which goes to place 3, and place 4 stays as it was
    assert_eq!(map.cell_dofs[1], vec![0, 3, 4, 0, 0]);
    assert_eq!(map.entity_dofs[1], vec![vec![0], vec![1], vec![2], vec![3], vec![4]]);
}
