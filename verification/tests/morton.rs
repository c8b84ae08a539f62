use bempp::morton::{encode_anchor, MortonKey, DEEPEST_LEVEL, LEVEL_SIZE};
use bempp::parents::{dedup_keys, parents_of, sort_keys};

fn anchor_of(key: &MortonKey) -> [u64; 3] {
    key.anchor
}

#[test]
fn test_root_key() {
    let root = MortonKey::root();
    assert_eq!(root.morton, 0);
    assert_eq!(root.anchor, [0, 0, 0]);
    assert_eq!(root.level(), 0);
}

#[test]
fn test_encode_anchor_places_bits() {
    // level bits sit in the low fifteen bits
    assert_eq!(encode_anchor(&[0, 0, 0], 3), 3);
    // the lowest bit of z is the lowest bit of the code, then y, then x
    assert_eq!(encode_anchor(&[0, 0, 1], 16), (1 << 15) | 16);
    assert_eq!(encode_anchor(&[0, 1, 0], 16), (2 << 15) | 16);
    assert_eq!(encode_anchor(&[1, 0, 0], 16), (4 << 15) | 16);
    assert_eq!(encode_anchor(&[3, 0, 1], 16), ((4 + 32 + 1) << 15) | 16);
    // the highest of the sixteen bits of x is bit 47 of the interleaving
    assert_eq!(encode_anchor(&[32768, 0, 0], 1), (1u64 << 62) | 1);
    assert_eq!(encode_anchor(&[0, 0, 32768], 1), (1u64 << 60) | 1);
    // bits above the sixteenth are left out
    assert_eq!(encode_anchor(&[LEVEL_SIZE, 0, 0], 2), 2);
    assert_eq!(
        encode_anchor(&[65535, 65535, 65535], DEEPEST_LEVEL),
        (((1u64 << 48) - 1) << 15) | 16
    );
}

#[test]
fn test_from_grid_and_grid() {
    let key = MortonKey::from_grid(3, 5, 2, 7);
    assert_eq!(key.level(), 3);
    assert_eq!(key.grid(), (5, 2, 7));
    assert_eq!(anchor_of(&key), [5 * 8192, 2 * 8192, 7 * 8192]);
    assert_eq!(key.morton, encode_anchor(&key.anchor, 3));
    let anchored = MortonKey::from_anchor(&key.anchor, 3);
    assert_eq!(anchored.morton, key.morton);
}

#[test]
fn test_parent_and_children() {
    let key = MortonKey::from_grid(3, 5, 2, 7);
    let parent = key.parent();
    assert_eq!(parent.level(), 2);
    assert_eq!(parent.grid(), (2, 1, 3));
    let children = parent.children();
    assert_eq!(children.len(), 8);
    for (s, child) in children.iter().enumerate() {
        assert_eq!(child.level(), 3);
        assert_eq!(
            child.grid(),
            (4 + (s as u64) / 4, 2 + ((s as u64) / 2) % 2, 6 + (s as u64) % 2)
        );
        assert_eq!(child.parent().morton, parent.morton);
    }
    // (5, 2, 7) is child 4 * 1 + 2 * 0 + 1 of its parent
    assert_eq!(children[5].morton, key.morton);
    assert_eq!(parent.first_child().morton, children[0].morton);
    assert_eq!(parent.child(5).morton, key.morton);
    // the children follow one another along the curve
    for s in 1..8 {
        assert!(children[s - 1].morton < children[s].morton);
    }
    let siblings = key.siblings();
    for s in 0..8 {
        assert_eq!(siblings[s].morton, children[s].morton);
    }
}

#[test]
fn test_children_follow_parents_along_the_curve() {
    let a = MortonKey::from_grid(2, 1, 3, 0);
    let b = MortonKey::from_grid(2, 1, 3, 1);
    assert!(a.morton < b.morton);
    assert!(a.children()[7].morton < b.children()[0].morton);
}

#[test]
fn test_ancestors() {
    let key = MortonKey::from_grid(4, 11, 6, 13);
    let chain = key.ancestors();
    assert_eq!(chain.len(), 5);
    assert_eq!(chain[0].morton, key.morton);
    assert_eq!(chain[1].grid(), (5, 3, 6));
    assert_eq!(chain[2].grid(), (2, 1, 3));
    assert_eq!(chain[3].grid(), (1, 0, 1));
    assert_eq!(chain[4].morton, 0);
    for (n, ancestor) in chain.iter().enumerate() {
        assert_eq!(ancestor.level(), 4 - n as u64);
    }
}

#[test]
fn test_all_neighbors_inside() {
    let key = MortonKey::from_grid(2, 1, 1, 1);
    let around = key.all_neighbors();
    assert_eq!(around.len(), 26);
    // the directions come in lexicographic order, (0, 0, 0) left out
    assert_eq!(around[0].unwrap().grid(), (0, 0, 0));
    assert_eq!(around[1].unwrap().grid(), (0, 0, 1));
    assert_eq!(around[2].unwrap().grid(), (0, 0, 2));
    assert_eq!(around[3].unwrap().grid(), (0, 1, 0));
    assert_eq!(around[12].unwrap().grid(), (1, 1, 0));
    assert_eq!(around[13].unwrap().grid(), (1, 1, 2));
    assert_eq!(around[25].unwrap().grid(), (2, 2, 2));
    for n in around.iter() {
        assert_eq!(n.unwrap().level(), 2);
    }
    assert_eq!(key.neighbors().len(), 26);
}

#[test]
fn test_all_neighbors_at_the_corner() {
    let key = MortonKey::from_grid(2, 0, 0, 3);
    let around = key.all_neighbors();
    let inside: Vec<usize> = (0..26).filter(|i| around[*i].is_some()).collect();
    // dx and dy in {0, 1}, dz in {-1, 0}, the box itself left out
    assert_eq!(inside.len(), 7);
    assert!(around[0].is_none());
    assert_eq!(around[12].unwrap().grid(), (0, 0, 2));
    assert!(around[13].is_none());
    let neighbors = key.neighbors();
    assert_eq!(neighbors.len(), 7);
    for (k, i) in inside.iter().enumerate() {
        assert_eq!(neighbors[k].morton, around[*i].unwrap().morton);
    }
    assert_eq!(MortonKey::root().neighbors().len(), 0);
}

#[test]
fn test_is_adjacent_same_level() {
    let key = MortonKey::from_grid(3, 4, 4, 4);
    assert!(!key.is_adjacent(&key));
    assert!(key.is_adjacent(&MortonKey::from_grid(3, 5, 5, 5)));
    assert!(key.is_adjacent(&MortonKey::from_grid(3, 3, 4, 4)));
    assert!(!key.is_adjacent(&MortonKey::from_grid(3, 6, 4, 4)));
    assert!(!key.is_adjacent(&MortonKey::from_grid(3, 4, 2, 5)));
    for n in key.neighbors() {
        assert!(key.is_adjacent(&n));
        assert!(n.is_adjacent(&key));
    }
}

#[test]
fn test_is_adjacent_across_levels() {
    let key = MortonKey::from_grid(3, 4, 4, 4);
    // an ancestor and a descendant are not adjacent
    assert!(!key.is_adjacent(&key.parent()));
    assert!(!key.parent().is_adjacent(&key));
    assert!(!key.is_adjacent(&key.first_child()));
    // a box of the level above that touches the key from outside
    let coarse = MortonKey::from_grid(2, 1, 2, 2);
    assert!(key.is_adjacent(&coarse));
    assert!(coarse.is_adjacent(&key));
    // (5, 4, 4) lies one box away from that coarse box
    assert!(!MortonKey::from_grid(3, 5, 4, 4).is_adjacent(&coarse));
    // a child of a neighbour that touches the key
    let fine = MortonKey::from_grid(4, 10, 9, 9);
    assert!(key.is_adjacent(&fine));
    assert!(!key.is_adjacent(&MortonKey::from_grid(4, 11, 9, 9)));
}

#[test]
fn test_find_transfer_vector() {
    let source = MortonKey::from_grid(3, 4, 4, 4);
    // offset (2, 0, 0): mapped components (4, 0, 0)
    let target = MortonKey::from_grid(3, 6, 4, 4);
    assert_eq!(target.find_transfer_vector(&source), 4 << 32);
    // offset (-2, 1, -3): mapped components (5, 2, 7)
    let target = MortonKey::from_grid(3, 2, 5, 1);
    assert_eq!(target.find_transfer_vector(&source), (5 << 32) | (2 << 16) | 7);
    // the hash does not depend on the level
    let source = MortonKey::from_grid(5, 20, 9, 30);
    let target = MortonKey::from_grid(5, 18, 10, 27);
    assert_eq!(target.find_transfer_vector(&source), (5 << 32) | (2 << 16) | 7);
}

#[test]
fn test_sort_and_dedup_keys() {
    let mut keys = vec![
        MortonKey::from_grid(2, 3, 3, 3),
        MortonKey::from_grid(2, 0, 0, 1),
        MortonKey::from_grid(2, 3, 3, 3),
        MortonKey::from_grid(2, 1, 0, 0),
        MortonKey::from_grid(2, 0, 0, 1),
    ];
    let before: Vec<u64> = keys.iter().map(|k| k.morton).collect();
    sort_keys(&mut keys);
    let after: Vec<u64> = keys.iter().map(|k| k.morton).collect();
    assert_ne!(before, after);
    let mut expected = before.clone();
    expected.sort();
    assert_eq!(after, expected);
    let distinct = dedup_keys(&keys);
    assert_eq!(distinct.len(), 3);
    assert_eq!(distinct[0].grid(), (0, 0, 1));
    assert_eq!(distinct[1].grid(), (1, 0, 0));
    assert_eq!(distinct[2].grid(), (3, 3, 3));
}

#[test]
fn test_parents_of() {
    // two sibling groups, given out of order
    let mut keys = MortonKey::from_grid(1, 1, 0, 1).children();
    keys.extend(MortonKey::from_grid(1, 0, 1, 0).children());
    let parents = parents_of(&keys);
    assert_eq!(parents.len(), 2);
    assert_eq!(parents[0].grid(), (0, 1, 0));
    assert_eq!(parents[1].grid(), (1, 0, 1));
    assert!(parents[0].morton < parents[1].morton);
}

#[test]
fn test_is_wf() {
    assert!(MortonKey::root().is_wf());
    assert!(MortonKey::from_grid(3, 5, 2, 7).is_wf());
    assert!(MortonKey::from_anchor(&[8192, 0, 16384], 3).is_wf());
    // an anchor off the grid of the level
    assert!(!MortonKey::from_anchor(&[8191, 0, 16384], 3).is_wf());
    assert!(MortonKey::from_anchor(&[8191, 0, 16384], 16).is_wf());
    // an anchor outside the domain
    assert!(!MortonKey::from_anchor(&[65536, 0, 0], 3).is_wf());
    // a level below the deepest
    assert!(!MortonKey::from_anchor(&[0, 0, 0], 17).is_wf());
    // a code that is not the anchor's
    let key = MortonKey::from_grid(3, 5, 2, 7);
    assert!(!MortonKey { anchor: key.anchor, morton: key.morton + (1 << 15) }.is_wf());
    assert!(!MortonKey { anchor: [0, 0, 0], morton: key.morton }.is_wf());
}
