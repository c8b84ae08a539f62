//! The octree held by one process: its keys level by level, its leaves, and
//! the maps from a key to its place among them and to its points.
//!
//! Point coordinates are not kept here. A leaf owns a half-open range of
//! point indices; whoever holds the coordinates, three numbers a point, reads
//! them at three times those indices.

use vstd::prelude::*;
use std::collections::HashMap;
use std::collections::HashSet;
use crate::morton::MortonKey;
use crate::morton::Octant;
use crate::morton::all_wf;
use crate::morton::has_view;
use crate::morton::DEEPEST_LEVEL;

verus! {

broadcast use vstd::std_specs::hash::group_hash_axioms;

/// A point of the cloud, by the keys of the boxes that hold it.
#[derive(Clone, Copy, Debug)]
pub struct Point {
    /// Key of the box of the deepest level that holds the point.
    pub base_key: MortonKey,
    /// Key of the leaf that the point is assigned to.
    pub encoded_key: MortonKey,
    /// Index of the point in the global cloud.
    pub global_idx: usize,
}

/// The keys come in the order of the curve, none twice.
pub open spec fn strictly_sorted(keys: Seq<MortonKey>) -> bool {
    forall|i: int, j: int| 0 <= i < j < keys.len() ==> keys[i].morton < keys[j].morton
}

/// `index` sends the code of each key to the key's place in `keys`, and holds
/// nothing else.
pub open spec fn indexes(index: Map<u64, usize>, keys: Seq<MortonKey>) -> bool {
    &&& forall|i: int| 0 <= i < keys.len() ==> index.contains_key(#[trigger] keys[i].morton)
    &&& forall|m: u64| #[trigger]
        index.contains_key(m) ==> index[m] < keys.len() && keys[index[m] as int].morton == m
}

/// `set` holds the codes of `keys` and nothing else.
pub open spec fn holds_codes(set: Set<u64>, keys: Seq<MortonKey>) -> bool {
    &&& forall|i: int| 0 <= i < keys.len() ==> set.contains(#[trigger] keys[i].morton)
    &&& forall|m: u64| #[trigger]
        set.contains(m) ==> exists|i: int| 0 <= i < keys.len() && keys[i].morton == m
}

/// The points come in the order of the codes of their leaves.
pub open spec fn grouped_by_leaf(points: Seq<Point>) -> bool {
    forall|i: int, j: int|
        0 <= i <= j < points.len() ==> points[i].encoded_key.morton <= points[j].encoded_key.morton
}

/// `ranges` holds, under the code of each leaf that a point is assigned to,
/// the range of the points of that leaf, and nothing else.
pub open spec fn is_leaf_ranges(ranges: Map<u64, (usize, usize)>, points: Seq<Point>) -> bool {
    &&& forall|i: int|
        0 <= i < points.len() ==> ranges.contains_key((#[trigger] points[i]).encoded_key.morton)
    &&& forall|m: u64| #[trigger]
        ranges.contains_key(m) ==> {
            let (start, end) = ranges[m];
            &&& start < end <= points.len()
            &&& forall|i: int|
                0 <= i < points.len() ==> ((#[trigger] points[i]).encoded_key.morton == m <==> start
                    <= i < end)
        }
}

/// Some box of the sequence, at or below `level`, has `o` as its ancestor at
/// `level`.
#[verifier::opaque]
pub open spec fn is_ancestor_in(leaves: Seq<MortonKey>, o: Octant) -> bool {
    exists|l: int|
        0 <= l < leaves.len() && o.level <= leaves[l]@.level && leaves[l]@.ancestor(
            (leaves[l]@.level - o.level) as nat,
        ) == o
}

/// The keys are the leaves and the boxes that contain one, and no others.
pub open spec fn spans(keys: Seq<MortonKey>, leaves: Seq<MortonKey>) -> bool {
    &&& forall|i: int| 0 <= i < keys.len() ==> is_ancestor_in(leaves, (#[trigger] keys[i])@)
    &&& forall|l: int, level: int|
        0 <= l < leaves.len() && 0 <= level <= leaves[l]@.level ==> #[trigger] has_view(
            keys,
            leaves[l]@.ancestor((leaves[l]@.level - level) as nat),
        )
}

/// Every index of `wanted` stands in `given`.
pub open spec fn all_given(wanted: Seq<usize>, given: Seq<usize>) -> bool {
    forall|t: int| 0 <= t < wanted.len() ==> given.contains(#[trigger] wanted[t])
}

/// For each global index of `wanted`, the last place at which it stands in
/// `given`; `None` where one of them does not stand there.
pub fn point_places(wanted: &[usize], given: &[usize]) -> (places: Option<Vec<usize>>)
    ensures
        match places {
            Some(places) => {
                &&& all_given(wanted@, given@)
                &&& places.len() == wanted.len()
                &&& forall|t: int|
                    0 <= t < places.len() ==> (#[trigger] places[t]) < given.len() && given[places[t] as int]
                        == wanted[t]
                &&& forall|t: int, j: int|
                    0 <= t < places.len() && places[t] < j < given.len() ==> #[trigger] given[j]
                        != #[trigger] wanted[t]
            },
            None => !all_given(wanted@, given@),
        },
{
    let mut place: HashMap<usize, usize> = HashMap::new();
    let mut i: usize = 0;
    while i < given.len()
        invariant
            i <= given.len(),
            forall|j: int| 0 <= j < i ==> place@.contains_key(#[trigger] given[j]),
            forall|idx: usize| #[trigger]
                place@.contains_key(idx) ==> place@[idx] < i && given[place@[idx] as int] == idx
                    && forall|j: int| place@[idx] < j < i ==> #[trigger] given[j] != idx,
        decreases given.len() - i,
    {
        place.insert(given[i], i);
        i = i + 1;
    }
    let mut places: Vec<usize> = Vec::new();
    let mut t: usize = 0;
    while t < wanted.len()
        invariant
            t <= wanted.len(),
            places.len() == t,
            forall|j: int| 0 <= j < given.len() ==> place@.contains_key(#[trigger] given[j]),
            forall|idx: usize| #[trigger]
                place@.contains_key(idx) ==> place@[idx] < given.len() && given[place@[idx] as int]
                    == idx && forall|j: int|
                    place@[idx] < j < given.len() ==> #[trigger] given[j] != idx,
            forall|u: int| 0 <= u < t ==> given@.contains(#[trigger] wanted[u]),
            forall|u: int|
                0 <= u < t ==> (#[trigger] places[u]) < given.len() && given[places[u] as int]
                    == wanted[u],
            forall|u: int, j: int|
                0 <= u < t && places[u] < j < given.len() ==> #[trigger] given[j]
                    != #[trigger] wanted[u],
        decreases wanted.len() - t,
    {
        match place.get(&wanted[t]) {
            Some(found) => {
                proof {
                    assert(given[*found as int] == wanted[t as int]);
                }
                places.push(*found);
            },
            None => {
                proof {
                    if given@.contains(wanted[t as int]) {
                        let j = choose|j: int| 0 <= j < given.len() && given[j] == wanted[t as int];
                        assert(place@.contains_key(given[j]));
                    }
                }
                return None;
            },
        }
        t = t + 1;
    }
    Some(places)
}

/// The part of an octree that one process holds.
pub struct MultiNodeTree {
    /// Deepest level of the tree.
    pub depth: u64,
    /// The points, grouped by leaf.
    pub points: Vec<Point>,
    /// Global index of each point, in the order of `points`.
    pub global_indices: Vec<usize>,
    /// The leaves.
    pub leaves: Vec<MortonKey>,
    /// All keys, level by level and along the curve within a level.
    pub keys: Vec<MortonKey>,
    /// For the code of a leaf that holds points, their range in `points`.
    pub leaves_to_coordinates: HashMap<u64, (usize, usize)>,
    /// For a level, the range of its keys in `keys`.
    pub levels_to_keys: HashMap<u64, (usize, usize)>,
    /// Codes of the leaves.
    pub leaves_set: HashSet<u64>,
    /// Codes of all keys.
    pub keys_set: HashSet<u64>,
    /// Rank of the process, then the least and the greatest code of a leaf.
    pub range: [u64; 3],
    /// For the code of a key, its place in `keys`.
    pub key_to_index: HashMap<u64, usize>,
    /// For the code of a leaf, its place in `leaves`.
    pub leaf_to_index: HashMap<u64, usize>,
}

impl MultiNodeTree {
    /// The keys of `level` are the keys in the range that the tree holds for
    /// that level.
    pub open spec fn level_keys(self, level: u64) -> Seq<MortonKey> {
        let (start, end) = self.levels_to_keys@[level];
        self.keys@.subrange(start as int, end as int)
    }

    /// The tree's collections agree with one another.
    pub open spec fn wf(self) -> bool {
        &&& self.depth <= DEEPEST_LEVEL
        &&& all_wf(self.keys@)
        &&& all_wf(self.leaves@)
        &&& self.leaves.len() > 0
        &&& strictly_sorted(self.leaves@)
        &&& self.range[1] == self.leaves[0].morton
        &&& self.range[2] == self.leaves[self.leaves.len() - 1].morton
        &&& spans(self.keys@, self.leaves@)
        &&& forall|i: int| 0 <= i < self.keys.len() ==> (#[trigger] self.keys[i])@.level <= self.depth
        &&& forall|i: int, j: int|
            0 <= i <= j < self.keys.len() ==> (#[trigger] self.keys[i])@.level <= (#[trigger] self.keys[j])@.level
        &&& indexes(self.key_to_index@, self.keys@)
        &&& indexes(self.leaf_to_index@, self.leaves@)
        &&& holds_codes(self.keys_set@, self.keys@)
        &&& holds_codes(self.leaves_set@, self.leaves@)
        &&& forall|i: int|
            0 <= i < self.leaves.len() ==> self.keys_set@.contains(#[trigger] self.leaves[i].morton)
        &&& forall|level: u64| #[trigger]
            self.levels_to_keys@.contains_key(level) ==> {
                let (start, end) = self.levels_to_keys@[level];
                &&& start < end <= self.keys.len()
                &&& level <= self.depth
                &&& forall|i: int|
                    0 <= i < self.keys.len() ==> ((#[trigger] self.keys[i])@.level == level <==> start
                        <= i < end)
                &&& strictly_sorted(self.keys@.subrange(start as int, end as int))
            }
        &&& forall|i: int|
            0 <= i < self.keys.len() ==> self.levels_to_keys@.contains_key(
                (#[trigger] self.keys[i]).morton % crate::morton::LEVEL_MODULUS,
            )
        &&& self.global_indices.len() == self.points.len()
        &&& forall|i: int|
            0 <= i < self.points.len() ==> self.global_indices[i] == (#[trigger] self.points[i]).global_idx
        &&& grouped_by_leaf(self.points@)
        &&& is_leaf_ranges(self.leaves_to_coordinates@, self.points@)
        &&& forall|m: u64| #[trigger]
            self.leaves_to_coordinates@.contains_key(m) ==> self.leaves_set@.contains(m)
    }

    /// A key of the tree stands at the place that the index holds for its
    /// code, and a leaf at the place that the index of the leaves holds.
    pub proof fn lemma_index_of_place(self, i: int)
        requires
            self.wf(),
        ensures
            0 <= i < self.keys.len() ==> self.key_to_index@.contains_key(self.keys[i].morton)
                && self.key_to_index@[self.keys[i].morton] == i,
            0 <= i < self.leaves.len() ==> self.leaf_to_index@.contains_key(self.leaves[i].morton)
                && self.leaf_to_index@[self.leaves[i].morton] == i,
    {
        if 0 <= i < self.keys.len() {
            let m = self.keys[i].morton;
            let j = self.key_to_index@[m] as int;
            let level = m % crate::morton::LEVEL_MODULUS;
            assert(self.levels_to_keys@.contains_key(level));
            let (start, end) = self.levels_to_keys@[level];
            assert(self.keys[j].morton == m);
            assert(start <= i < end && start <= j < end);
            let part = self.keys@.subrange(start as int, end as int);
            assert(part[i - start] == self.keys[i] && part[j - start] == self.keys[j]);
        }
        if 0 <= i < self.leaves.len() {
            let m = self.leaves[i].morton;
            let j = self.leaf_to_index@[m] as int;
            assert(self.leaves[j].morton == m);
        }
    }

    /// The key at place `idx` among all keys.
    pub fn node(&self, idx: usize) -> (key: Option<&MortonKey>)
        requires
            idx < self.keys.len(),
        ensures
            key == Some(&self.keys[idx as int]),
    {
        Some(&self.keys[idx])
    }

    /// Number of keys of the tree.
    pub fn nkeys_tot(&self) -> (n: Option<usize>)
        ensures
            n == Some(self.keys.len()),
    {
        Some(self.keys.len())
    }

    /// Number of keys at `level`, if the tree has any there.
    pub fn nkeys(&self, level: u64) -> (n: Option<usize>)
        requires
            self.wf(),
        ensures
            match n {
                Some(n) => self.levels_to_keys@.contains_key(level) && n == self.level_keys(
                    level,
                ).len() && n > 0,
                None => !self.levels_to_keys@.contains_key(level),
            },
    {
        match self.levels_to_keys.get(&level) {
            Some(range) => Some(range.1 - range.0),
            None => None,
        }
    }

    /// Number of leaves.
    pub fn nleaves(&self) -> (n: Option<usize>)
        ensures
            n == Some(self.leaves.len()),
    {
        Some(self.leaves.len())
    }

    /// The keys at `level`, along the curve, if the tree has any there.
    pub fn keys(&self, level: u64) -> (keys: Option<&[MortonKey]>)
        requires
            self.wf(),
        ensures
            match keys {
                Some(keys) => {
                    &&& self.levels_to_keys@.contains_key(level)
                    &&& keys@ == self.level_keys(level)
                    &&& all_wf(keys@)
                    &&& strictly_sorted(keys@)
                    &&& forall|i: int| 0 <= i < keys@.len() ==> (#[trigger] keys@[i])@.level == level
                },
                None => !self.levels_to_keys@.contains_key(level),
            },
    {
        match self.levels_to_keys.get(&level) {
            Some(range) => {
                let keys = vstd::slice::slice_subrange(self.keys.as_slice(), range.0, range.1);
                Some(keys)
            },
            None => None,
        }
    }

    /// Codes of all keys.
    pub fn all_keys_set(&self) -> (set: Option<&HashSet<u64>>)
        ensures
            set == Some(&self.keys_set),
    {
        Some(&self.keys_set)
    }

    /// Codes of the leaves.
    pub fn all_leaves_set(&self) -> (set: Option<&HashSet<u64>>)
        ensures
            set == Some(&self.leaves_set),
    {
        Some(&self.leaves_set)
    }

    /// Where the coordinates of the points of leaf `key` stand in the flat
    /// coordinate array, three numbers a point; `None` for a key that holds
    /// no points.
    pub fn coordinates(&self, key: &MortonKey) -> (range: Option<(usize, usize)>)
        requires
            self.wf(),
            3 * self.points.len() <= usize::MAX,
        ensures
            match range {
                Some((start, end)) => {
                    &&& self.leaves_to_coordinates@.contains_key(key.morton)
                    &&& start == 3 * self.leaves_to_coordinates@[key.morton].0
                    &&& end == 3 * self.leaves_to_coordinates@[key.morton].1
                    &&& start < end <= 3 * self.points.len()
                    &&& forall|i: int|
                        0 <= i < self.points.len() ==> ((#[trigger] self.points[i]).encoded_key.morton
                            == key.morton <==> start <= 3 * i < end)
                },
                None => forall|i: int|
                    0 <= i < self.points.len() ==> (#[trigger] self.points[i]).encoded_key.morton
                        != key.morton,
            },
    {
        match self.leaves_to_coordinates.get(&key.morton) {
            Some(range) => Some((range.0 * 3, range.1 * 3)),
            None => None,
        }
    }

    /// Global indices of all points, grouped by leaf.
    pub fn all_global_indices(&self) -> (indices: Option<&[usize]>)
        ensures
            indices matches Some(slice) && slice@ == self.global_indices@,
    {
        Some(self.global_indices.as_slice())
    }

    /// Global indices of the points of leaf `key`; `None` for a key that
    /// holds no points.
    pub fn global_indices(&self, key: &MortonKey) -> (indices: Option<&[usize]>)
        requires
            self.wf(),
        ensures
            match indices {
                Some(slice) => {
                    &&& self.leaves_to_coordinates@.contains_key(key.morton)
                    &&& slice@ == self.global_indices@.subrange(
                        self.leaves_to_coordinates@[key.morton].0 as int,
                        self.leaves_to_coordinates@[key.morton].1 as int,
                    )
                    &&& forall|i: int|
                        0 <= i < self.points.len() ==> ((#[trigger] self.points[i]).encoded_key.morton
                            == key.morton <==> self.leaves_to_coordinates@[key.morton].0 <= i
                            < self.leaves_to_coordinates@[key.morton].1)
                },
                None => forall|i: int|
                    0 <= i < self.points.len() ==> (#[trigger] self.points[i]).encoded_key.morton
                        != key.morton,
            },
    {
        match self.leaves_to_coordinates.get(&key.morton) {
            Some(range) => {
                let slice = vstd::slice::slice_subrange(
                    self.global_indices.as_slice(),
                    range.0,
                    range.1,
                );
                Some(slice)
            },
            None => None,
        }
    }

    /// Place of `key` among all keys, if the tree holds it.
    pub fn index(&self, key: &MortonKey) -> (index: Option<&usize>)
        requires
            self.wf(),
        ensures
            match index {
                Some(i) => *i < self.keys.len() && self.keys[*i as int].morton == key.morton,
                None => forall|i: int| 0 <= i < self.keys.len() ==> self.keys[i].morton != key.morton,
            },
    {
        self.key_to_index.get(&key.morton)
    }

    /// Place of `key` among the leaves, if it is one.
    pub fn leaf_index(&self, key: &MortonKey) -> (index: Option<&usize>)
        requires
            self.wf(),
        ensures
            match index {
                Some(i) => *i < self.leaves.len() && self.leaves[*i as int].morton == key.morton,
                None => forall|i: int|
                    0 <= i < self.leaves.len() ==> self.leaves[i].morton != key.morton,
            },
    {
        self.leaf_to_index.get(&key.morton)
    }

    /// All keys, level by level.
    pub fn all_keys(&self) -> (keys: Option<&[MortonKey]>)
        ensures
            keys matches Some(slice) && slice@ == self.keys@,
    {
        Some(self.keys.as_slice())
    }

    /// The leaves.
    pub fn all_leaves(&self) -> (leaves: Option<&[MortonKey]>)
        ensures
            leaves matches Some(slice) && slice@ == self.leaves@,
    {
        Some(self.leaves.as_slice())
    }

    /// Deepest level of the tree.
    pub fn depth(&self) -> (depth: u64)
        ensures
            depth == self.depth,
    {
        self.depth
    }
}

} // verus!
