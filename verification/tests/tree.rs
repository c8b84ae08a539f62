use bempp::grow::{assign_nodes_to_points, block_leaves, eighth_fits, encode_points, group_points, rank_block, sort_points};
use bempp::morton::MortonKey;
use bempp::tree::{point_places, MultiNodeTree, Point};

/// The key of the box of the deepest level in the lowest corner of the box
/// `(x, y, z)` of level `depth`, moved by `shift` boxes along every axis.
fn base_key(depth: u64, x: u64, y: u64, z: u64, shift: u64) -> MortonKey {
    let s = 16 - depth;
    MortonKey::from_grid(16, (x << s) + shift, (y << s) + shift, (z << s) + shift)
}

/// One point in every box of level `depth`, the boxes in row-major order.
fn one_point_per_box(depth: u64) -> Vec<MortonKey> {
    let n = 1u64 << depth;
    let mut keys = Vec::new();
    for x in 0..n {
        for y in 0..n {
            for z in 0..n {
                keys.push(base_key(depth, x, y, z, 1));
            }
        }
    }
    keys
}

fn uniform(depth: u64) -> MultiNodeTree {
    let base_keys = one_point_per_box(depth);
    let global_idxs: Vec<usize> = (0..base_keys.len()).collect();
    MultiNodeTree::uniform_tree(0, 1, &base_keys, depth, &global_idxs)
}

#[test]
fn test_minimum_depth() {
    assert_eq!(MultiNodeTree::minimum_depth(10000, 50, 1), 3);
    assert_eq!(MultiNodeTree::minimum_depth(10000, 50, 4), 2);
    assert_eq!(MultiNodeTree::minimum_depth(50, 50, 1), 0);
    assert_eq!(MultiNodeTree::minimum_depth(51, 50, 1), 1);
    assert_eq!(MultiNodeTree::minimum_depth(400, 50, 1), 1);
    assert_eq!(MultiNodeTree::minimum_depth(408, 50, 1), 2);
    assert_eq!(MultiNodeTree::minimum_depth(0, 0, 3), 0);
    assert_eq!(MultiNodeTree::minimum_depth(u64::MAX, 0, 1), 22);
}

#[test]
fn test_rank_block() {
    // four processes at depth 2: 64 boxes, 16 for each, four boxes along an axis
    assert_eq!(rank_block(0, 4, 2), ([0, 0, 0], [1, 0, 0]));
    assert_eq!(rank_block(1, 4, 2), ([1, 0, 0], [2, 0, 0]));
    assert_eq!(rank_block(3, 4, 2), ([3, 0, 0], [4, 0, 0]));
    // three processes at depth 1: 8 boxes, 2 for each
    assert_eq!(rank_block(1, 3, 1), ([0, 1, 0], [1, 0, 0]));
    assert_eq!(rank_block(2, 3, 1), ([1, 0, 0], [1, 1, 0]));
    assert_eq!(rank_block(0, 1, 0), ([0, 0, 0], [1, 0, 0]));
}

#[test]
fn test_block_leaves() {
    let leaves = block_leaves(&[1, 0, 2], &[3, 2, 4], 2);
    assert_eq!(leaves.len(), 8);
    let grids: Vec<(u64, u64, u64)> = leaves.iter().map(|k| k.grid()).collect();
    assert_eq!(
        grids,
        vec![(1, 0, 2), (1, 0, 3), (1, 1, 2), (1, 1, 3), (2, 0, 2), (2, 0, 3), (2, 1, 2), (2, 1, 3)]
    );
    for leaf in leaves.iter() {
        assert_eq!(leaf.level(), 2);
    }
    assert!(block_leaves(&[1, 0, 0], &[2, 0, 0], 2).is_empty());
    assert!(block_leaves(&[2, 0, 0], &[1, 4, 4], 2).is_empty());
}

#[test]
fn test_encode_points() {
    let base_keys = vec![base_key(3, 5, 2, 7, 3), base_key(3, 0, 0, 1, 0)];
    let points = encode_points(&base_keys, 2, &[40, 41, 42]);
    assert_eq!(points.len(), 2);
    assert_eq!(points[0].encoded_key.level(), 2);
    assert_eq!(points[0].encoded_key.grid(), (2, 1, 3));
    assert_eq!(points[0].base_key.morton, base_keys[0].morton);
    assert_eq!(points[0].global_idx, 40);
    assert_eq!(points[1].encoded_key.grid(), (0, 0, 0));
    assert_eq!(points[1].global_idx, 41);
}

#[test]
fn test_assign_nodes_to_points() {
    // nodes of two levels; a point goes to the smallest node that holds it
    let coarse = MortonKey::from_grid(1, 1, 0, 0);
    let fine = MortonKey::from_grid(2, 0, 0, 0);
    let empty = MortonKey::from_grid(2, 0, 0, 1);
    let nodes = vec![coarse, fine, empty];
    let outside = base_key(1, 0, 1, 1, 5);
    let base_keys = vec![base_key(2, 2, 1, 0, 9), base_key(2, 0, 0, 0, 2), outside];
    let mut points = encode_points(&base_keys, 2, &[0, 1, 2]);
    let unmapped = assign_nodes_to_points(&nodes, &mut points);
    assert_eq!(points[0].encoded_key.morton, coarse.morton);
    assert_eq!(points[1].encoded_key.morton, fine.morton);
    // no node holds the third point: it keeps its leaf
    assert_eq!(points[2].encoded_key.grid(), (0, 2, 2));
    assert_eq!(points[2].encoded_key.level(), 2);
    assert_eq!(unmapped.len(), 1);
    assert_eq!(unmapped[0].morton, empty.morton);
    for (i, p) in points.iter().enumerate() {
        assert_eq!(p.global_idx, i);
        assert_eq!(p.base_key.morton, base_keys[i].morton);
    }
}

#[test]
fn test_sort_and_group_points() {
    let a = MortonKey::from_grid(2, 0, 0, 1);
    let b = MortonKey::from_grid(2, 1, 0, 0);
    let c = MortonKey::from_grid(2, 3, 3, 3);
    let make = |key: MortonKey, idx: usize| Point { base_key: key, encoded_key: key, global_idx: idx };
    let mut points = vec![make(c, 0), make(a, 1), make(b, 2), make(a, 3), make(c, 4), make(c, 5)];
    sort_points(&mut points);
    let codes: Vec<u64> = points.iter().map(|p| p.encoded_key.morton).collect();
    assert_eq!(codes, vec![a.morton, a.morton, b.morton, c.morton, c.morton, c.morton]);
    let mut indices: Vec<usize> = points.iter().map(|p| p.global_idx).collect();
    indices.sort();
    assert_eq!(indices, vec![0, 1, 2, 3, 4, 5]);
    let (ranges, leaves) = group_points(&points);
    assert_eq!(ranges.len(), 3);
    assert_eq!(ranges[&a.morton], (0, 2));
    assert_eq!(ranges[&b.morton], (2, 3));
    assert_eq!(ranges[&c.morton], (3, 6));
    let leaf_codes: Vec<u64> = leaves.iter().map(|k| k.morton).collect();
    assert_eq!(leaf_codes, vec![a.morton, b.morton, c.morton]);
}

#[test]
fn test_uniform_tree_levels() {
    let tree = uniform(2);
    assert_eq!(tree.depth(), 2);
    assert_eq!(tree.nkeys_tot(), Some(1 + 8 + 64));
    assert_eq!(tree.nleaves(), Some(64));
    assert_eq!(tree.nkeys(0), Some(1));
    assert_eq!(tree.nkeys(1), Some(8));
    assert_eq!(tree.nkeys(2), Some(64));
    assert_eq!(tree.nkeys(3), None);
    assert!(tree.keys(3).is_none());
    assert_eq!(tree.node(0).unwrap().morton, 0);
    for level in 0..3u64 {
        let keys = tree.keys(level).unwrap();
        for (i, key) in keys.iter().enumerate() {
            assert_eq!(key.level(), level);
            if i > 0 {
                assert!(keys[i - 1].morton < key.morton);
            }
            assert!(tree.all_keys_set().unwrap().contains(&key.morton));
        }
    }
    // the eight children of a parent stand side by side, in their order
    let keys = tree.keys(2).unwrap();
    let parents = tree.keys(1).unwrap();
    for (p, parent) in parents.iter().enumerate() {
        for s in 0..8 {
            assert_eq!(keys[8 * p + s].morton, parent.child(s as u64).morton);
        }
    }
    assert_eq!(tree.all_keys().unwrap().len(), 73);
    assert_eq!(tree.all_leaves().unwrap().len(), 64);
    assert_eq!(tree.range[0], 0);
    assert_eq!(tree.range[1], tree.leaves[0].morton);
    assert_eq!(tree.range[2], tree.leaves[63].morton);
}

#[test]
fn test_uniform_tree_index() {
    let tree = uniform(2);
    for (i, key) in tree.all_keys().unwrap().iter().enumerate() {
        assert_eq!(tree.index(key), Some(&i));
    }
    for (i, leaf) in tree.all_leaves().unwrap().iter().enumerate() {
        assert_eq!(tree.leaf_index(leaf), Some(&i));
        assert!(tree.all_leaves_set().unwrap().contains(&leaf.morton));
    }
    let absent = MortonKey::from_grid(3, 0, 0, 0);
    assert_eq!(tree.index(&absent), None);
    assert_eq!(tree.leaf_index(&absent), None);
    assert_eq!(tree.leaf_index(&MortonKey::root()), None);
}

#[test]
fn test_uniform_tree_points() {
    // the points are given row by row and come out along the curve
    let tree = uniform(2);
    assert_eq!(tree.points.len(), 64);
    let global = tree.all_global_indices().unwrap();
    let mut sorted: Vec<usize> = global.to_vec();
    sorted.sort();
    assert_eq!(sorted, (0..64).collect::<Vec<usize>>());
    assert_ne!(global.to_vec(), sorted);
    for (i, leaf) in tree.all_leaves().unwrap().iter().enumerate() {
        // one point in each leaf, three coordinates a point
        assert_eq!(tree.coordinates(leaf), Some((3 * i, 3 * i + 3)));
        let indices = tree.global_indices(leaf).unwrap();
        assert_eq!(indices.len(), 1);
        // global index of the point that was given for this box
        let (x, y, z) = leaf.grid();
        assert_eq!(indices[0] as u64, 16 * x + 4 * y + z);
        assert_eq!(tree.points[i].encoded_key.morton, leaf.morton);
    }
    assert_eq!(tree.coordinates(&MortonKey::root()), None);
    assert!(tree.global_indices(&MortonKey::root()).is_none());
}

#[test]
fn test_uniform_tree_block_of_a_rank() {
    // rank 1 of 4 at depth 2 takes the block x = 1, which is empty along y and z;
    // its leaves are the boxes of its points
    let base_keys = vec![base_key(2, 3, 1, 2, 0), base_key(2, 0, 0, 0, 0), base_key(2, 3, 1, 2, 7)];
    let tree = MultiNodeTree::uniform_tree(1, 4, &base_keys, 2, &[7, 8, 9]);
    assert_eq!(tree.range[0], 1);
    assert_eq!(tree.nleaves(), Some(2));
    assert_eq!(tree.leaves[0].grid(), (0, 0, 0));
    assert_eq!(tree.leaves[1].grid(), (3, 1, 2));
    assert_eq!(tree.nkeys(0), Some(1));
    assert_eq!(tree.nkeys(1), Some(2));
    assert_eq!(tree.nkeys(2), Some(2));
    assert_eq!(tree.coordinates(&tree.leaves[0]), Some((0, 3)));
    assert_eq!(tree.coordinates(&tree.leaves[1]), Some((3, 9)));
    assert_eq!(tree.global_indices(&tree.leaves[0]).unwrap(), &[8]);
    let mut far = tree.global_indices(&tree.leaves[1]).unwrap().to_vec();
    far.sort();
    assert_eq!(far, vec![7, 9]);
}

#[test]
fn test_uniform_tree_sparse() {
    // points in the boxes (0, 0, 0) and (3, 3, 3) of depth 2: the block between them,
    // the greatest left out, is [0, 3)^3; of its boxes without points the siblings of
    // (0, 0, 0) are kept, and (2, 2, 2), the one sibling of (3, 3, 3) in the block
    let base_keys = vec![base_key(2, 3, 3, 3, 1), base_key(2, 0, 0, 0, 1)];
    let tree = MultiNodeTree::uniform_tree_sparse(2, &base_keys, 2, &[0, 1]);
    assert_eq!(tree.range[0], 2);
    assert_eq!(tree.depth(), 2);
    assert_eq!(tree.nleaves(), Some(10));
    let first = MortonKey::from_grid(2, 0, 0, 0);
    for (s, sibling) in first.siblings().iter().enumerate() {
        assert_eq!(tree.leaves[s].morton, sibling.morton);
    }
    assert_eq!(tree.leaves[8].grid(), (2, 2, 2));
    assert_eq!(tree.leaves[9].grid(), (3, 3, 3));
    assert_eq!(tree.nkeys(1), Some(2));
    assert_eq!(tree.coordinates(&tree.leaves[0]), Some((0, 3)));
    assert_eq!(tree.coordinates(&tree.leaves[1]), None);
    assert_eq!(tree.coordinates(&tree.leaves[8]), None);
    assert_eq!(tree.coordinates(&tree.leaves[9]), Some((3, 6)));
}

#[test]
fn test_new_tree() {
    let base_keys = one_point_per_box(2);
    let global_idxs: Vec<usize> = (0..64).collect();
    // 64 points, at most 8 in a leaf: one division by eight
    let tree = MultiNodeTree::new(0, 1, &base_keys, 64, Some(8), false, &global_idxs);
    assert_eq!(tree.depth(), 1);
    assert_eq!(tree.nleaves(), Some(8));
    for leaf in tree.all_leaves().unwrap() {
        assert_eq!(tree.global_indices(leaf).unwrap().len(), 8);
    }
    // without a bound of the caller's a leaf may hold 150 points
    let tree = MultiNodeTree::new(0, 1, &base_keys, 64, None, false, &global_idxs);
    assert_eq!(tree.depth(), 0);
    assert_eq!(tree.nleaves(), Some(1));
    let tree = MultiNodeTree::new(0, 1, &base_keys, 64, Some(8), true, &global_idxs);
    assert_eq!(tree.depth(), 1);
    // the block between the least and the greatest leaf leaves the greatest out
    assert_eq!(tree.nleaves(), Some(8));
}

#[test]
fn test_assemble_mixed_levels() {
    let key = |k: MortonKey, idx: usize| Point { base_key: k, encoded_key: k, global_idx: idx };
    let deep = MortonKey::from_grid(2, 0, 1, 1);
    let shallow = MortonKey::from_grid(1, 1, 1, 0);
    let mut points = vec![key(shallow, 0), key(deep, 1), key(shallow, 2)];
    sort_points(&mut points);
    let empty = MortonKey::from_grid(2, 0, 0, 0);
    let tree = MultiNodeTree::assemble(5, 2, points, &vec![empty, empty]);
    assert_eq!(tree.range[0], 5);
    assert_eq!(tree.nleaves(), Some(3));
    // keys: the root; (0,0,0) and (1,1,0) of level 1; the two leaves of level 2
    assert_eq!(tree.nkeys_tot(), Some(5));
    assert_eq!(tree.nkeys(1), Some(2));
    assert_eq!(tree.nkeys(2), Some(2));
    assert_eq!(tree.coordinates(&shallow), Some((3 * tree.leaves_to_coordinates[&shallow.morton].0, 3 * tree.leaves_to_coordinates[&shallow.morton].1)));
    assert_eq!(tree.global_indices(&deep).unwrap(), &[1]);
    assert_eq!(tree.coordinates(&empty), None);
    assert!(tree.leaf_index(&empty).is_some());
    assert!(tree.index(&shallow).is_some());
}

#[test]
fn test_eighth_fits() {
    assert!(eighth_fits(64, 2, 1));
    assert!(!eighth_fits(64, 1, 7));
    assert!(eighth_fits(64, 1, 8));
    assert!(eighth_fits(7, 1, 0));
    assert!(!eighth_fits(8, 0, 7));
    assert!(eighth_fits(u64::MAX, 22, 0));
    assert!(!eighth_fits(u64::MAX, 21, 0));
}

#[test]
fn test_tree_holds_leaves_and_boxes_above() {
    let base_keys = vec![base_key(3, 5, 1, 2, 0), base_key(3, 0, 7, 0, 3), base_key(3, 5, 1, 3, 0)];
    let tree = MultiNodeTree::uniform_tree_sparse(0, &base_keys, 3, &[4, 5, 6]);
    // every level from the root to the depth has keys
    for level in 0..=3 {
        let keys = tree.keys(level).unwrap();
        assert!(!keys.is_empty());
        assert!(keys.iter().all(|k| k.level() == level));
        assert!(keys.windows(2).all(|w| w[0].morton < w[1].morton));
    }
    assert!(tree.keys(4).is_none());
    // a key is a leaf or has a child among the keys, and its parent is a key
    let all = tree.all_keys_set().unwrap();
    let leaves = tree.all_leaves_set().unwrap();
    for key in tree.all_keys().unwrap() {
        if key.level() > 0 {
            assert!(all.contains(&key.parent().morton));
        }
        if !leaves.contains(&key.morton) {
            assert!(key.children().iter().any(|c| all.contains(&c.morton)));
        }
    }
    for leaf in tree.all_leaves().unwrap() {
        assert!(all.contains(&leaf.morton));
        assert!(leaf.ancestors().iter().all(|a| all.contains(&a.morton)));
    }
    // the range names the least and the greatest leaf
    let codes: Vec<u64> = tree.all_leaves().unwrap().iter().map(|k| k.morton).collect();
    assert_eq!(tree.range[1], *codes.iter().min().unwrap());
    assert_eq!(tree.range[2], *codes.iter().max().unwrap());
    assert_eq!(tree.range[1], codes[0]);
    // a leaf answers with its points exactly where it holds one
    for leaf in tree.all_leaves().unwrap() {
        let held: Vec<usize> = (0..tree.points.len())
            .filter(|i| tree.points[*i].encoded_key.morton == leaf.morton)
            .collect();
        match tree.coordinates(leaf) {
            Some((start, end)) => {
                assert_eq!(start, 3 * held[0]);
                assert_eq!(end, 3 * (held[held.len() - 1] + 1));
                assert_eq!(end - start, 3 * held.len());
            },
            None => assert!(held.is_empty()),
        }
    }
    for point in tree.points.iter() {
        assert!(tree.coordinates(&point.encoded_key).is_some());
    }
}

#[test]
fn test_point_places() {
    assert_eq!(point_places(&[7, 5, 7], &[5, 6, 7]), Some(vec![2, 0, 2]));
    // an index that was given twice is found at its last place
    assert_eq!(point_places(&[4], &[4, 9, 4]), Some(vec![2]));
    assert_eq!(point_places(&[], &[1, 2]), Some(vec![]));
    assert_eq!(point_places(&[3], &[1, 2]), None);
    assert_eq!(point_places(&[1, 3], &[1, 2]), None);
    // the points of a tree are found among the points that it was built from
    let tree = uniform(1);
    let given: Vec<usize> = (0..8).collect();
    let places = point_places(tree.all_global_indices().unwrap(), &given).unwrap();
    assert_eq!(places, tree.all_global_indices().unwrap().to_vec());
}

#[test]
fn test_empty_nodes_keep_their_order() {
    let nodes = vec![
        MortonKey::from_grid(2, 3, 3, 3),
        MortonKey::from_grid(2, 0, 0, 0),
        MortonKey::from_grid(2, 1, 2, 3),
        MortonKey::from_grid(2, 0, 0, 1),
        MortonKey::from_grid(2, 3, 3, 3),
    ];
    let mut points = encode_points(&[base_key(2, 0, 0, 0, 4)], 2, &[0]);
    let unmapped = assign_nodes_to_points(&nodes, &mut points);
    // the nodes without points as they were given, one given twice coming twice
    let codes: Vec<u64> = unmapped.iter().map(|k| k.morton).collect();
    assert_eq!(codes, vec![nodes[0].morton, nodes[2].morton, nodes[3].morton, nodes[4].morton]);
}

#[test]
fn test_points_of_a_leaf_keep_their_order() {
    // five points in two boxes of depth 1, given in turn
    let near = |shift: u64| base_key(1, 0, 0, 0, shift);
    let far = |shift: u64| base_key(1, 1, 1, 1, shift);
    let base_keys = vec![far(3), near(9), far(1), near(2), far(2)];
    let tree = MultiNodeTree::uniform_tree(0, 1, &base_keys, 1, &[50, 40, 30, 20, 10]);
    let first = MortonKey::from_grid(1, 0, 0, 0);
    let last = MortonKey::from_grid(1, 1, 1, 1);
    assert_eq!(tree.global_indices(&first).unwrap(), &[40, 20]);
    assert_eq!(tree.global_indices(&last).unwrap(), &[50, 30, 10]);
    assert_eq!(tree.all_global_indices().unwrap(), &[40, 20, 50, 30, 10]);
    let codes: Vec<u64> = tree.points.iter().map(|p| p.base_key.morton).collect();
    assert_eq!(
        codes,
        vec![near(9).morton, near(2).morton, far(3).morton, far(1).morton, far(2).morton]
    );
}
