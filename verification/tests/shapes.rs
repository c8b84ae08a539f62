use bempp::builder::FlatTriangleGridBuilder;
use bempp::shapes::{refine, regular_sphere, RegularSphere, SpherePoint};

/// Coordinates of the points of a sphere, found by walking the points in
/// order.
fn coordinates(sphere: &RegularSphere) -> Vec<[f64; 3]> {
    let mut points: Vec<[f64; 3]> = Vec::new();
    for point in sphere.points.iter() {
        let mut p = match *point {
            SpherePoint::Corner(x, y, z) => [x as f64, y as f64, z as f64],
            SpherePoint::EdgeMidpoint(a, b) => [
                0.5 * (points[a][0] + points[b][0]),
                0.5 * (points[a][1] + points[b][1]),
                0.5 * (points[a][2] + points[b][2]),
            ],
            SpherePoint::Centroid(a, b, c) => [
                (points[a][0] + points[b][0] + points[c][0]) / 3.0,
                (points[a][1] + points[b][1] + points[c][1]) / 3.0,
                (points[a][2] + points[b][2] + points[c][2]) / 3.0,
            ],
        };
        let size = (p[0] * p[0] + p[1] * p[1] + p[2] * p[2]).sqrt();
        for x in p.iter_mut() {
            *x /= size;
        }
        points.push(p);
    }
    points
}

#[test]
fn test_regular_sphere_0() {
    let _g = regular_sphere(0);
}

#[test]
fn test_regular_spheres() {
    let _g1 = regular_sphere(1);
    let _g2 = regular_sphere(2);
    let _g3 = regular_sphere(3);
}

#[test]
fn test_normal_is_outward() {
    for i in 0..3 {
        let g = regular_sphere(i);
        let x = coordinates(&g);
        for cell in g.cells.iter() {
            let (a, b, c) = (x[cell[0]], x[cell[1]], x[cell[2]]);
            let mapped_pt = [
                a[0] + (b[0] - a[0]) / 3.0 + (c[0] - a[0]) / 3.0,
                a[1] + (b[1] - a[1]) / 3.0 + (c[1] - a[1]) / 3.0,
                a[2] + (b[2] - a[2]) / 3.0 + (c[2] - a[2]) / 3.0,
            ];
            let u = [b[0] - a[0], b[1] - a[1], b[2] - a[2]];
            let v = [c[0] - a[0], c[1] - a[1], c[2] - a[2]];
            let normal = [
                u[1] * v[2] - u[2] * v[1],
                u[2] * v[0] - u[0] * v[2],
                u[0] * v[1] - u[1] * v[0],
            ];
            let dot = mapped_pt
                .iter()
                .zip(&normal)
                .map(|(i, j)| i * j)
                .sum::<f64>();
            assert!(dot > 0.0);
        }
    }
}

#[test]
fn test_regular_sphere_counts() {
    let mut cells = 8;
    let mut points = 6;
    for level in 0..5 {
        let g = regular_sphere(level);
        assert_eq!(g.cells.len(), cells);
        assert_eq!(g.points.len(), points);
        assert_eq!(g.points.len(), 2 + 4 * usize::pow(6, level));
        points += 5 * cells / 2;
        cells *= 6;
    }
}

#[test]
fn test_octahedron() {
    let g = regular_sphere(0);
    assert_eq!(
        g.points,
        vec![
            SpherePoint::Corner(0, 0, 1),
            SpherePoint::Corner(1, 0, 0),
            SpherePoint::Corner(0, 1, 0),
            SpherePoint::Corner(-1, 0, 0),
            SpherePoint::Corner(0, -1, 0),
            SpherePoint::Corner(0, 0, -1),
        ]
    );
    assert_eq!(
        g.cells,
        vec![
            [0, 1, 2],
            [0, 2, 3],
            [0, 3, 4],
            [0, 4, 1],
            [5, 2, 1],
            [5, 3, 2],
            [5, 4, 3],
            [5, 1, 4]
        ]
    );
}

#[test]
fn test_first_refinement() {
    let g = refine(regular_sphere(0));
    assert_eq!(g.points.len(), 26);
    assert_eq!(g.cells.len(), 48);
    // the first triangle (0, 1, 2) makes the midpoints of (1, 2), (0, 2), (0, 1), then its centre
    assert_eq!(g.points[6], SpherePoint::EdgeMidpoint(1, 2));
    assert_eq!(g.points[7], SpherePoint::EdgeMidpoint(0, 2));
    assert_eq!(g.points[8], SpherePoint::EdgeMidpoint(0, 1));
    assert_eq!(g.points[9], SpherePoint::Centroid(0, 1, 2));
    assert_eq!(g.cells[0], [0, 8, 9]);
    assert_eq!(g.cells[1], [0, 9, 7]);
    assert_eq!(g.cells[2], [1, 6, 9]);
    assert_eq!(g.cells[3], [1, 9, 8]);
    assert_eq!(g.cells[4], [2, 7, 9]);
    assert_eq!(g.cells[5], [2, 9, 6]);
    // the second triangle (0, 2, 3) shares the edge (0, 2) with the first
    assert_eq!(g.points[10], SpherePoint::EdgeMidpoint(2, 3));
    assert_eq!(g.points[11], SpherePoint::EdgeMidpoint(0, 3));
    assert_eq!(g.points[12], SpherePoint::Centroid(0, 2, 3));
    assert_eq!(g.cells[6], [0, 7, 12]);
    assert_eq!(g.cells[7], [0, 12, 11]);
}

#[test]
fn test_no_point_twice() {
    let g = regular_sphere(3);
    for i in 0..g.points.len() {
        for j in 0..i {
            assert_ne!(g.points[i], g.points[j]);
        }
    }
}

#[test]
fn test_points_on_unit_sphere() {
    let g = regular_sphere(2);
    for p in coordinates(&g) {
        let r = (p[0] * p[0] + p[1] * p[1] + p[2] * p[2]).sqrt();
        assert!((r - 1.0).abs() < 1e-12);
    }
}

#[test]
fn test_builder_from_sphere() {
    let g = regular_sphere(1);
    let x = coordinates(&g);
    let mut b = FlatTriangleGridBuilder::<f64>::new_with_capacity(g.points.len(), g.cells.len(), ());
    for (i, p) in x.iter().enumerate() {
        b.add_point(i, *p);
    }
    for (i, c) in g.cells.iter().enumerate() {
        b.add_cell(i, *c);
    }
    let grid = b.create_grid();
    assert_eq!(grid.points.len(), 3 * 26);
    assert_eq!(grid.cells.len(), 3 * 48);
    assert_eq!(&grid.cells[0..3], &[0, 8, 9]);
    assert_eq!(grid.points[3 * 1], 1.0);
}

#[test]
fn test_builder_ids() {
    let mut b = FlatTriangleGridBuilder::<f64>::new(());
    b.add_point(2, [0.0, 0.0, 0.0]);
    b.add_point(0, [1.0, 0.0, 0.0]);
    b.add_point(1, [0.0, 1.0, 0.0]);
    assert!(b.has_point(2));
    assert!(!b.has_point(3));
    b.add_point(3, [1.0, 1.0, 0.0]);
    b.add_cell(7, [0, 1, 2]);
    assert!(b.has_cell(7));
    assert!(!b.has_cell(0));
    b.add_cell(0, [1, 2, 3]);
    let grid = b.create_grid();
    assert_eq!(grid.point_indices_to_ids, vec![2, 0, 1, 3]);
    assert_eq!(grid.cell_indices_to_ids, vec![7, 0]);
    // cells hold the numbers of the points, not their identifiers
    assert_eq!(grid.cells, vec![1, 2, 0, 2, 0, 3]);
    assert_eq!(grid.point_ids_to_indices[&2], 0);
    assert_eq!(grid.cell_ids_to_indices[&0], 1);
}

#[test]
fn test_new_points_are_numbered_in_turn() {
    for level in 0..3 {
        let coarse = regular_sphere(level);
        let fine = regular_sphere(level + 1);
        assert_eq!(fine.points[..coarse.points.len()], coarse.points[..]);
        let mut next = coarse.points.len();
        for c in 0..coarse.cells.len() {
            // the points above the edges opposite the first, second and third corner
            let edges = [fine.cells[6 * c + 2][1], fine.cells[6 * c + 4][1], fine.cells[6 * c][1]];
            for e in edges {
                if e >= next {
                    assert_eq!(e, next);
                    next += 1;
                }
            }
            assert_eq!(fine.cells[6 * c][2], next);
            next += 1;
        }
        assert_eq!(next, fine.points.len());
    }
}
