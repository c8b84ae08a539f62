use bempp::displacement::sibling_displacements;
use bempp::fmm::{is_sibling_grouped, level_index_pointer, FmmEvalType, KiFmm, M2lError};
use bempp::grow::sort_points;
use bempp::morton::MortonKey;
use bempp::parents::parents_of;
use bempp::scale::m2l_scale;
use bempp::transfer::{compute_transfer_vectors, interaction_list, transfer_displacements, x_list, TransferVector};
use bempp::tree::{MultiNodeTree, Point};
use std::collections::HashSet;

fn one_point_per_box(depth: u64) -> Vec<MortonKey> {
    let n = 1u64 << depth;
    let s = 16 - depth;
    let mut keys = Vec::new();
    for x in 0..n {
        for y in 0..n {
            for z in 0..n {
                keys.push(MortonKey::from_grid(16, x << s, y << s, z << s));
            }
        }
    }
    keys
}

fn uniform(depth: u64) -> MultiNodeTree {
    let base_keys = one_point_per_box(depth);
    let global_idxs: Vec<usize> = (0..base_keys.len()).collect();
    MultiNodeTree::uniform_tree(0, 1, &base_keys, depth, &global_idxs)
}

fn fmm(depth: u64, order: usize, eval: FmmEvalType) -> KiFmm {
    KiFmm::new(uniform(depth), uniform(depth), order, eval, false)
}

/// A tree refined to level 2 in the first octant only.
fn adaptive_tree() -> MultiNodeTree {
    let point = |k: MortonKey, idx: usize| Point { base_key: k, encoded_key: k, global_idx: idx };
    let mut points = Vec::new();
    for (s, child) in MortonKey::root().children().iter().enumerate() {
        if s == 0 {
            for (t, grandchild) in child.children().iter().enumerate() {
                points.push(point(*grandchild, 10 + t));
                points.push(point(*grandchild, 20 + t));
            }
        } else {
            points.push(point(*child, s));
        }
    }
    sort_points(&mut points);
    MultiNodeTree::assemble(0, 2, points, &Vec::new())
}

#[test]
fn test_m2l_scale_law() {
    assert_eq!(m2l_scale(2).exponent, -1);
    for level in 3..40u64 {
        assert_eq!(m2l_scale(level).exponent, level as i128 - 3);
    }
    let fmm = fmm(1, 2, FmmEvalType::Vector);
    assert_eq!(fmm.m2l_scale(2).exponent, -1);
    assert_eq!(fmm.m2l_scale(5).exponent, 2);
    assert_eq!(2f64.powi(m2l_scale(2).exponent as i32), 0.5);
    assert_eq!(2f64.powi(m2l_scale(6).exponent as i32), 8.0);
}

#[test]
fn test_compute_transfer_vectors() {
    let tvs = compute_transfer_vectors();
    assert_eq!(tvs.len(), 316);
    let hashes: HashSet<u64> = tvs.iter().map(|t| t.hash).collect();
    assert_eq!(hashes.len(), 316);
    for tv in tvs.iter() {
        let c = tv.components;
        assert!(c.iter().all(|d| -3 <= *d && *d <= 3));
        assert!(c.iter().any(|d| d.abs() >= 2));
        let source = MortonKey::from_grid(4, 8, 8, 8);
        let target = MortonKey::from_grid(4, (8 + c[0]) as u64, (8 + c[1]) as u64, (8 + c[2]) as u64);
        assert_eq!(target.find_transfer_vector(&source), tv.hash);
    }
    assert_eq!(tvs[0].components, [-3, -3, -3]);
    assert_eq!(tvs[315].components, [3, 3, 3]);
    // (-1, -1, 2) follows (-1, -1, -2): the offsets next to the source are left out
    let at = tvs.iter().position(|t| t.components == [-1, -1, -2]).unwrap();
    assert_eq!(tvs[at + 1].components, [-1, -1, 2]);
}

#[test]
fn test_level_index_pointer() {
    let tree = uniform(2);
    let maps = level_index_pointer(&tree);
    assert_eq!(maps.len(), 3);
    for level in 0..3u64 {
        let keys = tree.keys(level).unwrap();
        assert_eq!(maps[level as usize].len(), keys.len());
        for (i, key) in keys.iter().enumerate() {
            assert_eq!(maps[level as usize][&key.morton], i);
        }
    }
}

#[test]
fn test_interaction_list() {
    let tree = uniform(3);
    let keys = tree.all_keys_set().unwrap();
    // a box whose parent (1, 1, 1) has all its neighbours: the children of the 27 boxes
    // around the parent without the 27 boxes around the source, 6^3 - 3^3
    let source = MortonKey::from_grid(3, 3, 3, 3);
    let list = interaction_list(&source, keys);
    assert_eq!(list.len(), 189);
    let codes: HashSet<u64> = list.iter().map(|k| k.morton).collect();
    assert_eq!(codes.len(), 189);
    for target in list.iter() {
        assert_eq!(target.level(), 3);
        assert!(!source.is_adjacent(target));
        let (x, y, z) = target.grid();
        assert!((0..6).contains(&x) && (0..6).contains(&y) && (0..6).contains(&z));
        assert!(x.abs_diff(3) >= 2 || y.abs_diff(3) >= 2 || z.abs_diff(3) >= 2);
    }
    // a box in the corner: the children of the 7 neighbours of its parent, 56 boxes,
    // none of them next to the corner box
    let corner = MortonKey::from_grid(3, 0, 0, 0);
    assert_eq!(interaction_list(&corner, keys).len(), 56);
    // the other corner of the same parent touches 19 of them
    let inner = MortonKey::from_grid(3, 1, 1, 1);
    assert_eq!(interaction_list(&inner, keys).len(), 56 - 19);
    // a tree that holds none of the boxes
    assert!(interaction_list(&source, &HashSet::new()).is_empty());
}

#[test]
fn test_fft_displacements_consistency() {
    for (depth, level) in [(2u64, 2u64), (3, 3), (3, 2)] {
        let fmm = fmm(depth, 3, FmmEvalType::Vector);
        let table = fmm.fft_displacements(level);
        let keys = fmm.source_tree.keys(level).unwrap();
        let parents = parents_of(keys);
        let nparents = parents.len();
        assert_eq!(nparents, keys.len() / 8);
        assert_eq!(table.len(), 26);
        let in_tree = fmm.source_tree.all_keys_set().unwrap();
        for i in 0..26 {
            assert_eq!(table[i].len(), nparents);
            for (p, parent) in parents.iter().enumerate() {
                match parent.all_neighbors()[i] {
                    Some(neighbor) if in_tree.contains(&neighbor.morton) => {
                        let slot = table[i][p];
                        assert!(slot < keys.len());
                        assert_eq!(keys[slot].morton, neighbor.first_child().morton);
                        assert_eq!(slot % 8, 0);
                    }
                    _ => assert_eq!(table[i][p], nparents * 8),
                }
            }
        }
        assert_eq!(
            table,
            sibling_displacements(&parents, &fmm.level_index_pointer_multipoles[level as usize])
        );
    }
}

#[test]
fn test_fft_displacements_values() {
    let fmm = fmm(2, 3, FmmEvalType::Vector);
    let table = fmm.fft_displacements(2);
    // the parents are the eight boxes of level 1; parent 0 is (0, 0, 0)
    // direction 25 is (1, 1, 1): the neighbour is parent 7, its children start at slot 56
    assert_eq!(table[25][0], 56);
    // direction 0 is (-1, -1, -1): outside the domain
    assert_eq!(table[0][0], 64);
    // direction 13 is (0, 0, 1): parent 1
    assert_eq!(table[13][0], 8);
    // seen from parent 7 = (1, 1, 1), direction 0 leads to parent 0
    assert_eq!(table[0][7], 0);
    assert_eq!(table[25][7], 64);
}

#[test]
fn test_blas_displacements_bijection() {
    for (depth, level) in [(2u64, 2u64), (3, 3), (3, 2)] {
        let fmm = fmm(depth, 3, FmmEvalType::Vector);
        let table = fmm.displacements(level);
        let sources = fmm.source_tree.keys(level).unwrap();
        let targets = fmm.target_tree.keys(level).unwrap();
        assert_eq!(table.len(), 316);
        for (j, source) in sources.iter().enumerate() {
            let v_list = interaction_list(source, fmm.target_tree.all_keys_set().unwrap());
            let mut seen = HashSet::new();
            for i in 0..316 {
                assert_eq!(table[i].len(), sources.len());
                let slot = table[i][j];
                if slot != -1 {
                    let target = &targets[slot as usize];
                    assert_eq!(target.find_transfer_vector(source), fmm.transfer_vectors[i].hash);
                    assert!(v_list.iter().any(|t| t.morton == target.morton));
                    assert!(seen.insert(slot));
                }
            }
            assert_eq!(seen.len(), v_list.len());
        }
    }
}

#[test]
fn test_blas_displacements_values() {
    let fmm = fmm(2, 3, FmmEvalType::Vector);
    let table = fmm.displacements(2);
    let keys = fmm.source_tree.keys(2).unwrap();
    let source = keys.iter().position(|k| k.grid() == (0, 0, 0)).unwrap();
    let target = keys.iter().position(|k| k.grid() == (2, 0, 3)).unwrap();
    let row = fmm.transfer_vectors.iter().position(|t| t.components == [2, 0, 3]).unwrap();
    assert_eq!(table[row][source], target as i64);
    let back = fmm.transfer_vectors.iter().position(|t| t.components == [-2, 0, -3]).unwrap();
    assert_eq!(table[back][target], source as i64);
    assert_eq!(table[back][source], -1);
    // fewer transfer vectors: the rows beyond them hold -1
    let few: Vec<TransferVector> = fmm.transfer_vectors[0..10].to_vec();
    let table = transfer_displacements(
        keys,
        fmm.target_tree.all_keys_set().unwrap(),
        &fmm.level_index_pointer_locals[2],
        &few,
    );
    assert_eq!(table.len(), 316);
    assert!(table[10..].iter().all(|row| row.iter().all(|d| *d == -1)));
}

#[test]
fn test_is_sibling_grouped() {
    let tree = uniform(2);
    let keys = tree.keys(2).unwrap();
    let parents = parents_of(keys);
    assert!(is_sibling_grouped(keys, &parents));
    assert!(!is_sibling_grouped(&keys[0..63], &parents));
    assert!(!is_sibling_grouped(&keys[8..64], &parents));
    let mut swapped = keys.to_vec();
    swapped.swap(3, 4);
    assert!(!is_sibling_grouped(&swapped, &parents));
    assert!(is_sibling_grouped(&keys[8..16], &parents[1..2]));
    assert!(is_sibling_grouped(&[], &[]));
}

#[test]
fn test_m2l_fft_plan() {
    let fmm = fmm(3, 6, FmmEvalType::Vector);
    let plan = fmm.m2l_fft(3).unwrap().unwrap();
    assert_eq!(plan.nparents, 64);
    assert_eq!(plan.ntargets, 512);
    assert_eq!(plan.chunk_size, 64);
    assert_eq!((plan.grid.n, plan.grid.npad, plan.grid.size, plan.grid.size_real), (11, 12, 1728, 1008));
    assert_eq!(plan.signal_len, 1008 * 520);
    assert_eq!(plan.check_len, 1008 * 512);
    assert_eq!(plan.grid_len, 1728 * 512);
    assert_eq!(plan.products.len(), 26 * 64);
    assert_eq!(plan.scale.exponent, 0);
    assert_eq!(plan.displacements, fmm.fft_displacements(3));
    assert_eq!(plan.parents.len(), 64);
    for product in plan.products.iter() {
        assert!(product.source + 8 <= plan.ntargets + 8);
        assert!(product.target + 8 <= plan.ntargets);
        assert_eq!(product.source, plan.displacements[product.direction][product.target / 8]);
    }
    let plan = fmm.m2l_fft(2).unwrap().unwrap();
    assert_eq!((plan.nparents, plan.ntargets, plan.chunk_size), (8, 64, 8));
    assert_eq!(plan.scale.exponent, -1);
    assert!(matches!(fmm.m2l_fft(4), Ok(None)));
}

#[test]
fn test_m2l_fft_errors() {
    let huge = KiFmm::new(uniform(2), uniform(2), usize::MAX / 4, FmmEvalType::Vector, false);
    assert!(matches!(huge.m2l_fft(2), Err(M2lError::Size)));
    // a tree of one point has one key at every level
    let lone = MortonKey::from_grid(16, 5, 5, 5);
    let tree = || MultiNodeTree::uniform_tree(0, 1, &[lone], 2, &[0]);
    let fmm = KiFmm::new(tree(), tree(), 3, FmmEvalType::Vector, false);
    assert!(matches!(fmm.m2l_fft(2), Err(M2lError::SiblingGroups)));
}

#[test]
fn test_m2l_blas_plan() {
    let fmm = fmm(2, 4, FmmEvalType::Matrix(3));
    let plan = fmm.m2l_blas(2).unwrap();
    assert_eq!((plan.nsources, plan.ntargets, plan.n_rhs), (64, 64, 3));
    assert_eq!(plan.scale.exponent, -1);
    assert_eq!(plan.displacements, fmm.displacements(2));
    assert_eq!(plan.multipole_idxs.len(), 316);
    assert_eq!(plan.local_idxs.len(), 316);
    let mut pairs = 0;
    for i in 0..316 {
        let expected: Vec<usize> = (0..64).filter(|j| plan.displacements[i][*j] != -1).collect();
        assert_eq!(plan.multipole_idxs[i], expected);
        let slots: Vec<usize> = expected.iter().map(|j| plan.displacements[i][*j] as usize).collect();
        assert_eq!(plan.local_idxs[i], slots);
        pairs += expected.len();
    }
    let keys = fmm.target_tree.all_keys_set().unwrap();
    let lists: usize = fmm.source_tree.keys(2).unwrap().iter().map(|s| interaction_list(s, keys).len()).sum();
    assert_eq!(pairs, lists);
    assert!(fmm.m2l_blas(3).is_none());
    let vector = KiFmm::new(uniform(2), uniform(3), 4, FmmEvalType::Vector, false);
    assert_eq!(vector.m2l_blas(2).unwrap().n_rhs, 1);
    assert!(vector.m2l_blas(3).is_none());
}

#[test]
fn test_x_list() {
    let tree = adaptive_tree();
    // a leaf of level 1 beside the refined octant: the small leaves on the
    // far side of the octant do not touch it, and their parent does
    let beside = MortonKey::from_grid(1, 1, 0, 0);
    let list = x_list(&beside, &tree).unwrap();
    let grids: Vec<(u64, u64, u64)> = list.iter().map(|k| k.grid()).collect();
    assert_eq!(grids, vec![(0, 0, 0), (0, 0, 1), (0, 1, 0), (0, 1, 1)]);
    for leaf in list.iter() {
        assert_eq!(leaf.level(), 2);
        assert!(!beside.is_adjacent(leaf));
        assert!(beside.is_adjacent(&leaf.parent()));
    }
    // across an edge six of the small leaves are out of touch, across the
    // corner seven
    assert_eq!(x_list(&MortonKey::from_grid(1, 1, 1, 0), &tree).unwrap().len(), 6);
    let list = x_list(&MortonKey::from_grid(1, 1, 1, 1), &tree).unwrap();
    assert_eq!(list.len(), 7);
    assert!(list.iter().all(|k| k.grid() != (1, 1, 1)));
    // the refined octant contains its leaves, and so does the root
    assert!(x_list(&MortonKey::from_grid(1, 0, 0, 0), &tree).is_none());
    assert!(x_list(&MortonKey::root(), &tree).is_none());
    // a small leaf lies inside the parent of every other
    assert!(x_list(&MortonKey::from_grid(2, 0, 0, 0), &tree).is_none());
    // in a tree of one depth the leaves of the octants that a box touches
    // are in its list, those that touch the box themselves left out
    let flat = uniform(2);
    let inner = MortonKey::from_grid(2, 1, 1, 1);
    let list = x_list(&inner, &flat).unwrap();
    for leaf in list.iter() {
        assert!(!inner.is_adjacent(leaf));
        assert!(inner.is_adjacent(&leaf.parent()));
    }
    // the 56 boxes in the seven octants beside its own, less those that touch it
    assert_eq!(list.len(), 56 - 19);
    // the box in the corner of the domain touches no octant but its own
    assert!(x_list(&MortonKey::from_grid(2, 0, 0, 0), &flat).is_none());
}

#[test]
fn test_p2l() {
    let adaptive = KiFmm::new(adaptive_tree(), adaptive_tree(), 3, FmmEvalType::Vector, true);
    let tasks = adaptive.p2l(1).unwrap();
    let targets = adaptive.target_tree.keys(1).unwrap();
    assert_eq!(tasks.len(), 8);
    for (t, task) in tasks.iter().enumerate() {
        assert_eq!(task.target, t);
        let expected = match x_list(&targets[t], &adaptive.target_tree) {
            Some(list) => list.len(),
            None => 0,
        };
        assert_eq!(task.sources.len(), expected);
        // a target that shares a face, an edge or a corner with the refined
        // octant takes in four, six or seven of its leaves
        let (x, y, z) = targets[t].grid();
        assert_eq!(task.sources.len(), [0, 4, 6, 7][(x + y + z) as usize]);
        for range in task.sources.iter() {
            // every leaf of level 2 holds two points
            assert_eq!(range.1 - range.0, 2);
        }
        // the ranges come along the curve, none twice
        assert!(task.sources.windows(2).all(|w| w[0].1 <= w[1].0));
    }
    // across the corner: the leaves 0 to 6 of the refined octant, two points each
    assert_eq!(tasks[7].sources, vec![(0, 2), (2, 4), (4, 6), (6, 8), (8, 10), (10, 12), (12, 14)]);
    // the targets of level 2 lie inside the parent of every small leaf
    let tasks = adaptive.p2l(2).unwrap();
    assert_eq!(tasks.len(), 8);
    assert!(tasks.iter().all(|task| task.sources.is_empty()));
    // the root contains every box
    let tasks = adaptive.p2l(0).unwrap();
    assert_eq!(tasks.len(), 1);
    assert_eq!(tasks[0].target, 0);
    assert!(tasks[0].sources.is_empty());
    assert!(adaptive.p2l(3).is_none());
    // nothing to do on trees of one depth, at any level
    let flat = fmm(2, 3, FmmEvalType::Vector);
    assert!(flat.p2l(0).is_none());
    assert!(flat.p2l(1).is_none());
    assert!(flat.p2l(2).is_none());
}

#[test]
fn test_method_holds_all_transfer_vectors() {
    let fmm = fmm(2, 3, FmmEvalType::Vector);
    assert_eq!(fmm.transfer_vectors.len(), 316);
    let expected = compute_transfer_vectors();
    for (tv, e) in fmm.transfer_vectors.iter().zip(expected.iter()) {
        assert_eq!(tv.components, e.components);
        assert_eq!(tv.hash, e.hash);
    }
}

#[test]
fn test_products_follow_the_sibling_groups() {
    // twice the points in the same boxes: as many products
    let base_keys = one_point_per_box(2);
    let mut doubled = base_keys.clone();
    doubled.extend(base_keys.iter().copied());
    let global_idxs: Vec<usize> = (0..doubled.len()).collect();
    let tree = || MultiNodeTree::uniform_tree(0, 1, &doubled, 2, &global_idxs);
    let dense = KiFmm::new(tree(), tree(), 3, FmmEvalType::Vector, false);
    let plain = fmm(2, 3, FmmEvalType::Vector);
    let a = dense.m2l_fft(2).unwrap().unwrap();
    let b = plain.m2l_fft(2).unwrap().unwrap();
    assert_eq!(a.products.len(), 26 * 8);
    assert_eq!(a.grid.size_real, 6 * 6 * 4);
    assert_eq!(a.products.len() * a.grid.size_real, b.products.len() * b.grid.size_real);
    assert_eq!(a.products.len() * a.grid.size_real, 26 * 6 * 6 * 4 * 8);
}

#[test]
fn test_interaction_list_order() {
    let tree = uniform(3);
    let keys = tree.all_keys_set().unwrap();
    let source = MortonKey::from_grid(3, 2, 5, 7);
    let list = interaction_list(&source, keys);
    // the children of the boxes around the parent, box after box, those next to the
    // source left out
    let mut expected = Vec::new();
    for around in source.parent().neighbors() {
        for child in around.children() {
            if !source.is_adjacent(&child) {
                expected.push(child.morton);
            }
        }
    }
    let codes: Vec<u64> = list.iter().map(|k| k.morton).collect();
    assert_eq!(codes, expected);
    assert!(!codes.is_empty());
}
