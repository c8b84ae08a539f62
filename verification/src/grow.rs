//! Building the octree of one process from its points and leaves.

use vstd::prelude::*;
use std::collections::HashMap;
use std::collections::HashSet;
use crate::morton::MortonKey;
use crate::morton::Octant;
use crate::morton::all_wf;
use crate::morton::has_view;
use crate::morton::lemma_same_morton;
use crate::morton::lemma_same_view;
use crate::morton::lemma_wf_view;
use crate::morton::DEEPEST_LEVEL;
use crate::morton::grid_side;
use crate::morton::lemma_side_bound;
use crate::morton::side;
use vstd::arithmetic::power2::pow2;
use crate::morton::LEVEL_MODULUS;
use crate::parents::Coded;
use crate::parents::dedup_keys;
use crate::parents::sort_by_code;
use crate::parents::has_code;
use crate::parents::sort_keys;
use crate::parents::with_code;
use crate::tree::MultiNodeTree;
use crate::tree::Point;
use crate::tree::grouped_by_leaf;
use crate::tree::holds_codes;
use crate::tree::indexes;
use crate::tree::is_ancestor_in;
use crate::tree::is_leaf_ranges;
use crate::tree::spans;
use crate::tree::strictly_sorted;

verus! {

broadcast use vstd::std_specs::hash::group_hash_axioms;

/// Some point is assigned to the leaf with the key `key`.
#[verifier::opaque]
pub open spec fn is_leaf_of(points: Seq<Point>, key: MortonKey) -> bool {
    exists|i: int| 0 <= i < points.len() && points[i].encoded_key == key
}

impl Coded for Point {
    open spec fn spec_code(&self) -> u64 {
        self.encoded_key.morton
    }

    fn code(&self) -> (code: u64) {
        self.encoded_key.morton
    }
}

/// Orders the points by the codes of their leaves.
pub fn sort_points(points: &mut Vec<Point>)
    ensures
        final(points)@.len() == old(points)@.len(),
        grouped_by_leaf(final(points)@),
        final(points)@.to_multiset() == old(points)@.to_multiset(),
        forall|p: Point| #[trigger] final(points)@.contains(p) <==> old(points)@.contains(p),
        forall|code: u64| #[trigger] with_code(final(points)@, code) == with_code(old(points)@, code),
{
    let ghost before = points@;
    sort_by_code(points);
    proof {
        before.to_multiset_ensures();
        points@.to_multiset_ensures();
        assert forall|p: Point| #[trigger] points@.contains(p) <==> before.contains(p) by {
            assert(points@.contains(p) <==> points@.to_multiset().count(p) > 0);
            assert(before.contains(p) <==> before.to_multiset().count(p) > 0);
        }
    }
}

/// For each leaf that a point is assigned to, the range of its points; and
/// the keys of those leaves, in the order of their codes.
pub fn group_points(points: &Vec<Point>) -> (groups: (HashMap<u64, (usize, usize)>, Vec<MortonKey>))
    requires
        grouped_by_leaf(points@),
    ensures
        is_leaf_ranges(groups.0@, points@),
        strictly_sorted(groups.1@),
        groups.1.len() <= points.len(),
        forall|i: int| 0 <= i < points.len() ==> #[trigger] has_code(groups.1@, points[i].encoded_key.morton),
        forall|k: int| 0 <= k < groups.1.len() ==> #[trigger] is_leaf_of(points@, groups.1[k]),
{
    let mut ranges: HashMap<u64, (usize, usize)> = HashMap::new();
    let mut leaves: Vec<MortonKey> = Vec::new();
    let n = points.len();
    let mut start: usize = 0;
    while start < n
        invariant
            start <= n,
            n == points.len(),
            grouped_by_leaf(points@),
            start < n && start > 0 ==> points[start - 1].encoded_key.morton
                < points[start as int].encoded_key.morton,
            forall|i: int|
                0 <= i < start ==> ranges@.contains_key((#[trigger] points[i]).encoded_key.morton),
            forall|m: u64| #[trigger]
                ranges@.contains_key(m) ==> {
                    let (a, b) = ranges@[m];
                    &&& a < b <= start
                    &&& forall|i: int|
                        0 <= i < points.len() ==> ((#[trigger] points[i]).encoded_key.morton == m
                            <==> a <= i < b)
                },
            strictly_sorted(leaves@),
            leaves.len() <= start,
            forall|i: int|
                0 <= i < start ==> #[trigger] has_code(leaves@, points[i].encoded_key.morton),
            forall|k: int|
                0 <= k < leaves.len() ==> exists|i: int|
                    0 <= i < start && points[i].encoded_key == #[trigger] leaves[k],
        decreases n - start,
    {
        let key = points[start].encoded_key;
        let mut end = start + 1;
        while end < n && points[end].encoded_key.morton == key.morton
            invariant
                start < end <= n,
                n == points.len(),
                key == points[start as int].encoded_key,
                forall|i: int| start <= i < end ==> (#[trigger] points[i]).encoded_key.morton == key.morton,
            decreases n - end,
        {
            end = end + 1;
        }
        let ghost before = leaves@;
        ranges.insert(key.morton, (start, end));
        leaves.push(key);
        proof {
            assert forall|i: int| 0 <= i < points.len() implies ((#[trigger] points[i]).encoded_key.morton
                == key.morton <==> start <= i < end) by {
                if i < start {
                    if start > 0 {
                        assert(points[i].encoded_key.morton <= points[start - 1].encoded_key.morton);
                    }
                } else if i >= end {
                    assert(points[end as int].encoded_key.morton <= points[i].encoded_key.morton);
                    assert(points[start as int].encoded_key.morton
                        <= points[end as int].encoded_key.morton);
                }
            }
            assert forall|a: int, b: int| 0 <= a < b < leaves.len() implies leaves[a].morton
                < leaves[b].morton by {
                if b == leaves.len() - 1 {
                    let i = choose|i: int| 0 <= i < start && points[i].encoded_key == before[a];
                    assert(points[i].encoded_key.morton != key.morton);
                    assert(points[i].encoded_key.morton <= points[start as int].encoded_key.morton);
                } else {
                    assert(before[a].morton < before[b].morton);
                }
            }
            assert forall|i: int| 0 <= i < end implies #[trigger] has_code(
                leaves@,
                points[i].encoded_key.morton,
            ) by {
                if i < start {
                    assert(has_code(before, points[i].encoded_key.morton));
                    let k = choose|k: int|
                        0 <= k < before.len() && before[k].morton == points[i].encoded_key.morton;
                    assert(leaves@[k].morton == points[i].encoded_key.morton);
                } else {
                    assert(leaves@[leaves.len() - 1].morton == points[i].encoded_key.morton);
                }
            }
            assert forall|k: int| 0 <= k < leaves.len() implies exists|i: int|
                0 <= i < end && points[i].encoded_key == #[trigger] leaves[k] by {
                if k < before.len() {
                    let i = choose|i: int| 0 <= i < start && points[i].encoded_key == before[k];
                    assert(points[i].encoded_key == leaves[k]);
                } else {
                    assert(points[start as int].encoded_key == leaves[k]);
                }
            }
        }
        start = end;
    }
    proof {
        reveal(is_leaf_of);
        assert forall|k: int| 0 <= k < leaves.len() implies #[trigger] is_leaf_of(
            points@,
            leaves[k],
        ) by {
            let i = choose|i: int| 0 <= i < start && points[i].encoded_key == leaves[k];
            assert(0 <= i < points.len() && points[i].encoded_key == leaves[k]);
        }
    }
    (ranges, leaves)
}

/// The ancestor of the key at `level`, a level not below the key's own.
pub fn ancestor_at(key: &MortonKey, level: u64) -> (ancestor: MortonKey)
    requires
        key.wf(),
        level <= key@.level,
    ensures
        ancestor.wf(),
        ancestor@ == key@.ancestor((key@.level - level) as nat),
        ancestor@.level == level,
{
    let mut current = *key;
    let mut n: u64 = 0;
    let up = key.level() - level;
    while n < up
        invariant
            n <= up,
            up == key@.level - level,
            key.wf(),
            current.wf(),
            current@ == key@.ancestor(n as nat),
            current@.level == key@.level - n,
        decreases up - n,
    {
        current = current.parent();
        n = n + 1;
    }
    current
}

/// The keys at `level` of the tree above the given leaves: the ancestors at
/// that level of the leaves at or below it, along the curve and each once.
pub fn level_ancestors(leaves: &Vec<MortonKey>, level: u64) -> (keys: Vec<MortonKey>)
    requires
        all_wf(leaves@),
    ensures
        all_wf(keys@),
        strictly_sorted(keys@),
        forall|k: int| 0 <= k < keys.len() ==> (#[trigger] keys[k])@.level == level,
        forall|k: int| 0 <= k < keys.len() ==> is_ancestor_in(leaves@, (#[trigger] keys[k])@),
        forall|l: int|
            0 <= l < leaves.len() && level <= leaves[l]@.level ==> has_view(
                keys@,
                (#[trigger] leaves[l])@.ancestor((leaves[l]@.level - level) as nat),
            ),
{
    let mut all: Vec<MortonKey> = Vec::new();
    let mut l: usize = 0;
    while l < leaves.len()
        invariant
            l <= leaves.len(),
            all_wf(leaves@),
            all_wf(all@),
            forall|k: int| 0 <= k < all.len() ==> (#[trigger] all[k])@.level == level,
            forall|k: int| 0 <= k < all.len() ==> is_ancestor_in(leaves@, (#[trigger] all[k])@),
            forall|m: int|
                0 <= m < l && level <= leaves[m]@.level ==> has_view(
                    all@,
                    (#[trigger] leaves[m])@.ancestor((leaves[m]@.level - level) as nat),
                ),
        decreases leaves.len() - l,
    {
        let ghost before = all@;
        if leaves[l].level() >= level {
            let ancestor = ancestor_at(&leaves[l], level);
            all.push(ancestor);
            proof {
                reveal(is_ancestor_in);
                assert(all@[all.len() - 1]@ == leaves[l as int]@.ancestor(
                    (leaves[l as int]@.level - level) as nat,
                ));
                assert(is_ancestor_in(leaves@, ancestor@));
            }
        }
        proof {
            assert forall|m: int| 0 <= m < l + 1 && level <= leaves[m]@.level implies has_view(
                all@,
                (#[trigger] leaves[m])@.ancestor((leaves[m]@.level - level) as nat),
            ) by {
                let o = leaves[m]@.ancestor((leaves[m]@.level - level) as nat);
                if m < l {
                    assert(has_view(before, o));
                    let k = choose|k: int| 0 <= k < before.len() && before[k]@ == o;
                    assert(all@[k]@ == o);
                }
            }
        }
        l = l + 1;
    }
    let ghost unsorted = all@;
    sort_keys(&mut all);
    let keys = dedup_keys(&all);
    proof {
        assert forall|k: int| 0 <= k < keys.len() implies (#[trigger] keys[k]).wf() && keys[k]@.level
            == level && is_ancestor_in(leaves@, keys[k]@) by {
            assert(all@.contains(keys[k]));
            assert(unsorted.contains(keys[k]));
            let u = choose|u: int| 0 <= u < unsorted.len() && unsorted[u] == keys[k];
            assert(unsorted[u].wf());
        }
        assert forall|m: int| 0 <= m < leaves.len() && level <= leaves[m]@.level implies has_view(
            keys@,
            (#[trigger] leaves[m])@.ancestor((leaves[m]@.level - level) as nat),
        ) by {
            let o = leaves[m]@.ancestor((leaves[m]@.level - level) as nat);
            assert(has_view(unsorted, o));
            let u = choose|u: int| 0 <= u < unsorted.len() && unsorted[u]@ == o;
            assert(unsorted.contains(unsorted[u]));
            assert(all@.contains(unsorted[u]));
            let a = choose|a: int| 0 <= a < all.len() && all[a] == unsorted[u];
            assert(has_code(keys@, all[a].morton));
            let k = choose|k: int| 0 <= k < keys.len() && keys[k].morton == all[a].morton;
            assert(all@.contains(keys[k]));
            assert(unsorted.contains(keys[k]));
            let v = choose|v: int| 0 <= v < unsorted.len() && unsorted[v] == keys[k];
            assert(unsorted[v].wf());
            lemma_same_morton(keys[k], all[a]);
        }
    }
    keys
}

/// No two keys of the sequence have the same code.
pub open spec fn distinct_codes(keys: Seq<MortonKey>) -> bool {
    forall|i: int, j: int| 0 <= i < j < keys.len() ==> keys[i].morton != keys[j].morton
}

/// The map from the code of each key to its place, and the set of the codes.
pub fn index_keys(keys: &Vec<MortonKey>) -> (index: (HashMap<u64, usize>, HashSet<u64>))
    requires
        distinct_codes(keys@),
    ensures
        indexes(index.0@, keys@),
        holds_codes(index.1@, keys@),
{
    let mut places: HashMap<u64, usize> = HashMap::new();
    let mut codes: HashSet<u64> = HashSet::new();
    let mut i: usize = 0;
    while i < keys.len()
        invariant
            i <= keys.len(),
            distinct_codes(keys@),
            forall|k: int| 0 <= k < i ==> places@.contains_key(#[trigger] keys[k].morton),
            forall|m: u64| #[trigger]
                places@.contains_key(m) ==> places@[m] < i && keys[places@[m] as int].morton == m,
            forall|k: int| 0 <= k < i ==> codes@.contains(#[trigger] keys[k].morton),
            forall|m: u64| #[trigger]
                codes@.contains(m) ==> exists|k: int| 0 <= k < i && keys[k].morton == m,
        decreases keys.len() - i,
    {
        places.insert(keys[i].morton, i);
        codes.insert(keys[i].morton);
        proof {
            assert forall|m: u64| #[trigger] codes@.contains(m) implies exists|k: int|
                0 <= k < i + 1 && keys[k].morton == m by {
                if m != keys[i as int].morton {
                    let k = choose|k: int| 0 <= k < i && keys[k].morton == m;
                    assert(0 <= k < i + 1 && keys[k].morton == m);
                }
            }
        }
        i = i + 1;
    }
    (places, codes)
}

/// `ranges` holds, for each level that has keys, the range of its keys in
/// `keys`, where they stand along the curve, and nothing else.
pub open spec fn is_level_ranges(
    ranges: Map<u64, (usize, usize)>,
    keys: Seq<MortonKey>,
    depth: u64,
) -> bool {
    &&& forall|level: u64| #[trigger]
        ranges.contains_key(level) ==> {
            let (start, end) = ranges[level];
            &&& start < end <= keys.len()
            &&& level <= depth
            &&& forall|i: int|
                0 <= i < keys.len() ==> ((#[trigger] keys[i])@.level == level <==> start <= i < end)
            &&& strictly_sorted(keys.subrange(start as int, end as int))
        }
    &&& forall|i: int|
        0 <= i < keys.len() ==> ranges.contains_key((#[trigger] keys[i]).morton % LEVEL_MODULUS)
}

/// All keys of the tree above the given leaves, level by level and along the
/// curve within a level, with the range of each level.
pub fn collect_keys(leaves: &Vec<MortonKey>, depth: u64) -> (out: (
    Vec<MortonKey>,
    HashMap<u64, (usize, usize)>,
))
    requires
        all_wf(leaves@),
        depth <= DEEPEST_LEVEL,
        forall|l: int| 0 <= l < leaves.len() ==> (#[trigger] leaves[l])@.level <= depth,
    ensures
        all_wf(out.0@),
        distinct_codes(out.0@),
        is_level_ranges(out.1@, out.0@, depth),
        forall|i: int| 0 <= i < out.0.len() ==> (#[trigger] out.0[i])@.level <= depth,
        forall|i: int, j: int|
            0 <= i <= j < out.0.len() ==> (#[trigger] out.0[i])@.level <= (#[trigger] out.0[j])@.level,
        forall|i: int| 0 <= i < out.0.len() ==> is_ancestor_in(leaves@, (#[trigger] out.0[i])@),
        forall|l: int, level: int|
            0 <= l < leaves.len() && 0 <= level <= leaves[l]@.level ==> #[trigger] has_view(
                out.0@,
                leaves[l]@.ancestor((leaves[l]@.level - level) as nat),
            ),
{
    let mut keys: Vec<MortonKey> = Vec::new();
    let mut ranges: HashMap<u64, (usize, usize)> = HashMap::new();
    let mut level: u64 = 0;
    while level <= depth
        invariant
            level <= depth + 1,
            depth <= DEEPEST_LEVEL,
            all_wf(leaves@),
            forall|l: int| 0 <= l < leaves.len() ==> (#[trigger] leaves[l])@.level <= depth,
            all_wf(keys@),
            forall|i: int| 0 <= i < keys.len() ==> (#[trigger] keys[i])@.level < level,
            forall|i: int, j: int|
                0 <= i <= j < keys.len() ==> (#[trigger] keys[i])@.level <= (#[trigger] keys[j])@.level,
            forall|l: u64| #[trigger]
                ranges@.contains_key(l) ==> {
                    let (start, end) = ranges@[l];
                    &&& start < end <= keys.len()
                    &&& l < level
                    &&& forall|i: int|
                        0 <= i < keys.len() ==> ((#[trigger] keys[i])@.level == l <==> start <= i
                            < end)
                    &&& strictly_sorted(keys@.subrange(start as int, end as int))
                },
            forall|i: int|
                0 <= i < keys.len() ==> ranges@.contains_key(
                    (#[trigger] keys[i]).morton % LEVEL_MODULUS,
                ),
            forall|i: int| 0 <= i < keys.len() ==> is_ancestor_in(leaves@, (#[trigger] keys[i])@),
            forall|l: int, lower: int|
                0 <= l < leaves.len() && 0 <= lower <= leaves[l]@.level && lower < level
                    ==> #[trigger] has_view(
                    keys@,
                    leaves[l]@.ancestor((leaves[l]@.level - lower) as nat),
                ),
        decreases depth + 1 - level,
    {
        let found = level_ancestors(leaves, level);
        let ghost before = keys@;
        let ghost ranges_before = ranges@;
        let start = keys.len();
        let mut k: usize = 0;
        while k < found.len()
            invariant
                k <= found.len(),
                start == before.len(),
                keys.len() == start + k,
                keys@.subrange(0, start as int) == before,
                forall|q: int| 0 <= q < k ==> #[trigger] keys[start + q] == found[q],
            decreases found.len() - k,
        {
            let ghost kept = keys@;
            keys.push(found[k]);
            proof {
                assert(keys@.subrange(0, start as int) =~= kept.subrange(0, start as int));
            }
            k = k + 1;
        }
        let end = keys.len();
        if found.len() > 0 {
            ranges.insert(level, (start, end));
        }
        proof {
            assert forall|i: int| 0 <= i < keys.len() implies (#[trigger] keys[i]).wf() && keys[i]@.level
                < level + 1 && is_ancestor_in(leaves@, keys[i]@) && (i < start ==> keys[i]
                == before[i]) && (i >= start ==> keys[i] == found[i - start] && keys[i]@.level
                == level) by {
                if i < start {
                    assert(keys@.subrange(0, start as int)[i] == before[i]);
                } else {
                    assert(keys[start + (i - start)] == found[i - start]);
                }
            }
            assert(keys@.subrange(start as int, end as int) =~= found@);
            assert forall|l: u64| #[trigger] ranges@.contains_key(l) implies {
                let (a, b) = ranges@[l];
                &&& a < b <= keys.len()
                &&& l < level + 1
                &&& forall|i: int|
                    0 <= i < keys.len() ==> ((#[trigger] keys[i])@.level == l <==> a <= i < b)
                &&& strictly_sorted(keys@.subrange(a as int, b as int))
            } by {
                if l != level {
                    assert(ranges_before.contains_key(l));
                    let (a, b) = ranges_before[l];
                    assert(keys@.subrange(a as int, b as int) =~= before.subrange(
                        a as int,
                        b as int,
                    ));
                    assert forall|i: int| 0 <= i < keys.len() implies ((#[trigger] keys[i])@.level
                        == l <==> a <= i < b) by {
                        if i < start {
                            assert(before[i]@.level == l <==> a <= i < b);
                        }
                    }
                }
            }
            assert forall|i: int| 0 <= i < keys.len() implies ranges@.contains_key(
                (#[trigger] keys[i]).morton % LEVEL_MODULUS,
            ) by {
                if i < start {
                    assert(ranges_before.contains_key(before[i].morton % LEVEL_MODULUS));
                }
            }
            assert forall|l: int, lower: int|
                0 <= l < leaves.len() && 0 <= lower <= leaves[l]@.level && lower < level
                    + 1 implies #[trigger] has_view(
                keys@,
                leaves[l]@.ancestor((leaves[l]@.level - lower) as nat),
            ) by {
                let o = leaves[l]@.ancestor((leaves[l]@.level - lower) as nat);
                if lower < level {
                    assert(has_view(before, o));
                    let i = choose|i: int| 0 <= i < before.len() && before[i]@ == o;
                    assert(keys[i]@ == o);
                } else {
                    assert(has_view(found@, leaves[l]@.ancestor((leaves[l]@.level - level) as nat)));
                    let q = choose|q: int| 0 <= q < found.len() && found[q]@ == o;
                    assert(keys[start + q]@ == o);
                }
            }
        }
        level = level + 1;
    }
    proof {
        assert forall|i: int, j: int| 0 <= i < j < keys.len() implies keys[i].morton
            != keys[j].morton by {
            let l = keys[i].morton % LEVEL_MODULUS;
            assert(ranges@.contains_key(l));
            let (a, b) = ranges@[l];
            if keys[j]@.level == keys[i]@.level {
                let sub = keys@.subrange(a as int, b as int);
                assert(sub[i - a].morton < sub[j - a].morton);
            }
        }
    }
    (keys, ranges)
}

/// The leaves of a tree: the leaves that points are assigned to and the
/// leaves that hold no point, along the curve and each once.
fn gather_leaves(
    points: &Vec<Point>,
    mapped: &Vec<MortonKey>,
    unmapped: &Vec<MortonKey>,
    depth: u64,
) -> (leaves: Vec<MortonKey>)
    requires
        points.len() > 0,
        forall|i: int|
            0 <= i < points.len() ==> (#[trigger] points[i]).encoded_key.wf()
                && points[i].encoded_key@.level <= depth,
        forall|i: int| 0 <= i < points.len() ==> #[trigger] has_code(mapped@, points[i].encoded_key.morton),
        forall|k: int| 0 <= k < mapped.len() ==> #[trigger] is_leaf_of(points@, mapped[k]),
        all_wf(unmapped@),
        forall|k: int| 0 <= k < unmapped.len() ==> (#[trigger] unmapped[k])@.level <= depth,
    ensures
        all_wf(leaves@),
        strictly_sorted(leaves@),
        leaves.len() > 0,
        forall|l: int| 0 <= l < leaves.len() ==> (#[trigger] leaves[l])@.level <= depth,
        forall|i: int| 0 <= i < points.len() ==> #[trigger] has_code(leaves@, points[i].encoded_key.morton),
        forall|k: int| 0 <= k < unmapped.len() ==> #[trigger] has_code(leaves@, unmapped[k].morton),
        forall|l: int|
            0 <= l < leaves.len() ==> is_leaf_of(points@, #[trigger] leaves[l]) || unmapped@.contains(
                leaves[l],
            ),
{
    let mut all: Vec<MortonKey> = Vec::new();
    let mut k: usize = 0;
    while k < mapped.len()
        invariant
            k <= mapped.len(),
            all.len() == k,
            forall|q: int| 0 <= q < k ==> #[trigger] all[q] == mapped[q],
        decreases mapped.len() - k,
    {
        all.push(mapped[k]);
        k = k + 1;
    }
    let mut u: usize = 0;
    while u < unmapped.len()
        invariant
            u <= unmapped.len(),
            all.len() == mapped.len() + u,
            forall|q: int| 0 <= q < mapped.len() ==> #[trigger] all[q] == mapped[q],
            forall|q: int| 0 <= q < u ==> #[trigger] all[mapped.len() + q] == unmapped[q],
        decreases unmapped.len() - u,
    {
        all.push(unmapped[u]);
        u = u + 1;
    }
    let ghost unsorted = all@;
    proof {
        reveal(is_leaf_of);
        assert forall|q: int| 0 <= q < all.len() implies (#[trigger] all[q]).wf() && all[q]@.level
            <= depth && (is_leaf_of(points@, all[q]) || unmapped@.contains(all[q])) by {
            if q < mapped.len() {
                assert(is_leaf_of(points@, mapped[q]));
                let i = choose|i: int| 0 <= i < points.len() && points[i].encoded_key == mapped[q];
                assert(points[i].encoded_key.wf());
            } else {
                assert(all[mapped.len() + (q - mapped.len())] == unmapped[q - mapped.len()]);
            }
        }
    }
    sort_keys(&mut all);
    let leaves = dedup_keys(&all);
    proof {
        assert forall|l: int| 0 <= l < leaves.len() implies (#[trigger] leaves[l]).wf()
            && leaves[l]@.level <= depth && (is_leaf_of(points@, leaves[l]) || unmapped@.contains(
            leaves[l],
        )) by {
            assert(all@.contains(leaves[l]));
            assert(unsorted.contains(leaves[l]));
            let q = choose|q: int| 0 <= q < unsorted.len() && unsorted[q] == leaves[l];
            assert(unsorted[q].wf());
        }
        assert forall|i: int| 0 <= i < points.len() implies #[trigger] has_code(
            leaves@,
            points[i].encoded_key.morton,
        ) by {
            assert(has_code(mapped@, points[i].encoded_key.morton));
            let q = choose|q: int|
                0 <= q < mapped.len() && mapped[q].morton == points[i].encoded_key.morton;
            assert(unsorted[q] == mapped[q]);
            assert(unsorted.contains(unsorted[q]));
            assert(all@.contains(unsorted[q]));
            let a = choose|a: int| 0 <= a < all.len() && all[a] == unsorted[q];
            assert(has_code(leaves@, all[a].morton));
        }
        assert forall|k: int| 0 <= k < unmapped.len() implies #[trigger] has_code(
            leaves@,
            unmapped[k].morton,
        ) by {
            assert(unsorted[mapped.len() + k] == unmapped[k]);
            assert(unsorted.contains(unsorted[mapped.len() + k]));
            assert(all@.contains(unsorted[mapped.len() + k]));
            let a = choose|a: int| 0 <= a < all.len() && all[a] == unsorted[mapped.len() + k];
            assert(has_code(leaves@, all[a].morton));
        }
        assert(has_code(leaves@, points[0].encoded_key.morton));
    }
    leaves
}

/// The ranges of the points of the leaves that hold points, and all leaves
/// of the tree.
fn prepare_leaves(points: &Vec<Point>, unmapped: &Vec<MortonKey>, depth: u64) -> (out: (
    HashMap<u64, (usize, usize)>,
    Vec<MortonKey>,
))
    requires
        points.len() > 0,
        grouped_by_leaf(points@),
        forall|i: int|
            0 <= i < points.len() ==> (#[trigger] points[i]).encoded_key.wf()
                && points[i].encoded_key@.level <= depth,
        all_wf(unmapped@),
        forall|k: int| 0 <= k < unmapped.len() ==> (#[trigger] unmapped[k])@.level <= depth,
    ensures
        is_leaf_ranges(out.0@, points@),
        all_wf(out.1@),
        strictly_sorted(out.1@),
        out.1.len() > 0,
        forall|l: int| 0 <= l < out.1.len() ==> (#[trigger] out.1[l])@.level <= depth,
        forall|i: int| 0 <= i < points.len() ==> #[trigger] has_code(out.1@, points[i].encoded_key.morton),
        forall|k: int| 0 <= k < unmapped.len() ==> #[trigger] has_code(out.1@, unmapped[k].morton),
        forall|l: int|
            0 <= l < out.1.len() ==> is_leaf_of(points@, #[trigger] out.1[l]) || unmapped@.contains(
                out.1[l],
            ),
{
    let (leaves_to_coordinates, mapped) = group_points(points);
    let leaves = gather_leaves(points, &mapped, unmapped, depth);
    (leaves_to_coordinates, leaves)
}

/// The global index of each point, in the order of the points.
fn global_indices_of(points: &Vec<Point>) -> (indices: Vec<usize>)
    ensures
        indices.len() == points.len(),
        forall|q: int| 0 <= q < points.len() ==> indices[q] == (#[trigger] points[q]).global_idx,
{
    let mut indices: Vec<usize> = Vec::new();
    let mut i: usize = 0;
    while i < points.len()
        invariant
            i <= points.len(),
            indices.len() == i,
            forall|q: int| 0 <= q < i ==> indices[q] == (#[trigger] points[q]).global_idx,
        decreases points.len() - i,
    {
        indices.push(points[i].global_idx);
        i = i + 1;
    }
    indices
}

impl MultiNodeTree {
    /// The tree of a process from its points, which come grouped by the
    /// leaves that they are assigned to, and from the leaves that hold no
    /// point. The leaves of the tree are the leaves of the points and the
    /// empty ones; its keys are the leaves and all boxes that contain one.
    pub fn assemble(rank: u64, depth: u64, points: Vec<Point>, unmapped: &Vec<MortonKey>) -> (tree:
        MultiNodeTree)
        requires
            depth <= DEEPEST_LEVEL,
            points.len() > 0,
            grouped_by_leaf(points@),
            forall|i: int|
                0 <= i < points.len() ==> (#[trigger] points[i]).encoded_key.wf()
                    && points[i].encoded_key@.level <= depth,
            all_wf(unmapped@),
            forall|k: int| 0 <= k < unmapped.len() ==> (#[trigger] unmapped[k])@.level <= depth,
        ensures
            tree.wf(),
            tree.depth == depth,
            tree.points@ == points@,
            tree.range[0] == rank,
            forall|i: int|
                0 <= i < points.len() ==> #[trigger] has_code(
                    tree.leaves@,
                    points[i].encoded_key.morton,
                ),
            forall|k: int| 0 <= k < unmapped.len() ==> #[trigger] has_code(tree.leaves@, unmapped[k].morton),
            forall|l: int|
                0 <= l < tree.leaves.len() ==> is_leaf_of(points@, #[trigger] tree.leaves[l])
                    || unmapped@.contains(tree.leaves[l]),
    {
        let (leaves_to_coordinates, leaves) = prepare_leaves(&points, unmapped, depth);
        let (keys, levels_to_keys) = collect_keys(&leaves, depth);
        let (key_to_index, keys_set) = index_keys(&keys);
        let (leaf_to_index, leaves_set) = index_keys(&leaves);
        let global_indices = global_indices_of(&points);
        let range: [u64; 3] = [rank, leaves[0].morton, leaves[leaves.len() - 1].morton];
        let tree = MultiNodeTree {
            depth,
            points,
            global_indices,
            leaves,
            keys,
            leaves_to_coordinates,
            levels_to_keys,
            leaves_set,
            keys_set,
            range,
            key_to_index,
            leaf_to_index,
        };
        proof {
            assert forall|l: int| 0 <= l < tree.leaves.len() implies #[trigger] has_view(
                tree.keys@,
                tree.leaves[l]@,
            ) by {
                assert(has_view(
                    tree.keys@,
                    tree.leaves[l]@.ancestor((tree.leaves[l]@.level - tree.leaves[l]@.level) as nat),
                ));
            }
            lemma_assembled(tree);
        }
        tree
    }
}

/// A tree whose parts are each what the building steps make them is well
/// formed.
proof fn lemma_assembled(tree: MultiNodeTree)
    requires
        tree.depth <= DEEPEST_LEVEL,
        all_wf(tree.keys@),
        all_wf(tree.leaves@),
        forall|i: int| 0 <= i < tree.keys.len() ==> (#[trigger] tree.keys[i])@.level <= tree.depth,
        forall|i: int, j: int|
            0 <= i <= j < tree.keys.len() ==> (#[trigger] tree.keys[i])@.level <= (#[trigger] tree.keys[j])@.level,
        indexes(tree.key_to_index@, tree.keys@),
        indexes(tree.leaf_to_index@, tree.leaves@),
        holds_codes(tree.keys_set@, tree.keys@),
        holds_codes(tree.leaves_set@, tree.leaves@),
        is_level_ranges(tree.levels_to_keys@, tree.keys@, tree.depth),
        is_leaf_ranges(tree.leaves_to_coordinates@, tree.points@),
        tree.global_indices.len() == tree.points.len(),
        forall|i: int|
            0 <= i < tree.points.len() ==> tree.global_indices[i] == (#[trigger] tree.points[i]).global_idx,
        forall|i: int|
            0 <= i < tree.points.len() ==> #[trigger] has_code(
                tree.leaves@,
                tree.points[i].encoded_key.morton,
            ),
        forall|l: int| 0 <= l < tree.leaves.len() ==> #[trigger] has_view(tree.keys@, tree.leaves[l]@),
        tree.leaves.len() > 0,
        strictly_sorted(tree.leaves@),
        tree.range[1] == tree.leaves[0].morton,
        tree.range[2] == tree.leaves[tree.leaves.len() - 1].morton,
        spans(tree.keys@, tree.leaves@),
        grouped_by_leaf(tree.points@),
    ensures
        tree.wf(),
{
    assert forall|l: int| 0 <= l < tree.leaves.len() implies tree.keys_set@.contains(
        #[trigger] tree.leaves[l].morton,
    ) by {
        assert(has_view(tree.keys@, tree.leaves[l]@));
        let q = choose|q: int| 0 <= q < tree.keys.len() && tree.keys[q]@ == tree.leaves[l]@;
        lemma_same_view(tree.keys[q], tree.leaves[l]);
    }
    assert forall|m: u64| #[trigger]
        tree.leaves_to_coordinates@.contains_key(m) implies tree.leaves_set@.contains(m) by {
        let (start, end) = tree.leaves_to_coordinates@[m];
        assert(tree.points[start as int].encoded_key.morton == m);
        assert(has_code(tree.leaves@, tree.points[start as int].encoded_key.morton));
        let l = choose|l: int| 0 <= l < tree.leaves.len() && tree.leaves[l].morton == m;
        assert(tree.leaves_set@.contains(tree.leaves[l].morton));
    }
}

/// Most points that a leaf may hold where the caller names no bound.
pub const N_CRIT: u64 = 150;

/// `t` divided by eight `n` times, rounding down each time.
pub open spec fn eighth(t: int, n: nat) -> int
    decreases n,
{
    if n == 0 {
        t
    } else {
        eighth(t, (n - 1) as nat) / 8
    }
}

/// Whether `t` divided by eight `n` times, rounding down each time, is at
/// most `bound`.
pub fn eighth_fits(t: u64, n: u64, bound: u64) -> (fits: bool)
    ensures
        fits == (eighth(t as int, n as nat) <= bound),
{
    let mut tmp = t;
    let mut k: u64 = 0;
    while k < n
        invariant
            k <= n,
            tmp == eighth(t as int, k as nat),
        decreases n - k,
    {
        tmp = tmp / 8;
        k = k + 1;
    }
    tmp <= bound
}

/// The key's box holds the box of the deepest level with the key `base`.
pub open spec fn holds_base(key: MortonKey, base: MortonKey) -> bool {
    &&& key@.level <= base@.level
    &&& base@.ancestor((base@.level - key@.level) as nat) == key@
}

/// What the assignment to the smallest box does to a point: where one of
/// the boxes that hold the point is among the nodes, the point goes to the
/// smallest of them; and else it keeps its leaf.
pub open spec fn is_assigned(nodes: Seq<MortonKey>, before: Point, after: Point) -> bool {
    let base = before.base_key@;
    &&& after.base_key == before.base_key
    &&& after.global_idx == before.global_idx
    &&& if exists|n: nat| n <= base.level && has_code(nodes, #[trigger] base.ancestor(n).morton() as u64) {
        exists|n: nat|
            n <= base.level && has_code(nodes, #[trigger] base.ancestor(n).morton() as u64)
                && after.encoded_key.wf() && after.encoded_key@ == base.ancestor(n) && forall|
                m: nat,
            |
                m < n ==> !has_code(nodes, #[trigger] base.ancestor(m).morton() as u64)
    } else {
        after.encoded_key == before.encoded_key
    }
}

/// Some point lies in the box of the key `node`.
pub open spec fn is_mapped(points: Seq<Point>, node: MortonKey) -> bool {
    exists|i: int| 0 <= i < points.len() && points[i].encoded_key.morton == node.morton
}

/// The first of the ancestors of `base`, from `base` itself upwards, whose
/// code is in `nodes`.
fn finest_ancestor_in(base: &MortonKey, nodes: &HashSet<u64>) -> (found: Option<MortonKey>)
    requires
        base.wf(),
    ensures
        match found {
            Some(key) => {
                &&& key.wf()
                &&& holds_base(key, *base)
                &&& nodes@.contains(key.morton)
                &&& forall|n: nat|
                    n < base@.level - key@.level ==> !nodes@.contains(
                        #[trigger] base@.ancestor(n).morton() as u64,
                    )
            },
            None => forall|n: nat|
                n <= base@.level ==> !nodes@.contains(#[trigger] base@.ancestor(n).morton() as u64),
        },
{
    let mut current = *base;
    let mut n: u64 = 0;
    let level = base.level();
    loop
        invariant
            n <= level,
            level == base@.level,
            base.wf(),
            current.wf(),
            current@ == base@.ancestor(n as nat),
            current@.level == level - n,
            forall|m: nat| m < n ==> !nodes@.contains(#[trigger] base@.ancestor(m).morton() as u64),
        decreases level - n,
    {
        proof {
            lemma_wf_view(current);
        }
        if nodes.contains(&current.morton) {
            return Some(current);
        }
        if n == level {
            return None;
        }
        current = current.parent();
        n = n + 1;
    }
}

/// Two tests that agree on the items of a sequence keep the same items.
proof fn lemma_filter_same<A>(items: Seq<A>, p: spec_fn(A) -> bool, q: spec_fn(A) -> bool)
    requires
        forall|i: int| 0 <= i < items.len() ==> p(#[trigger] items[i]) == q(items[i]),
    ensures
        items.filter(p) == items.filter(q),
    decreases items.len(),
{
    reveal(Seq::filter);
    if items.len() > 0 {
        let rest = items.drop_last();
        assert forall|i: int| 0 <= i < rest.len() implies p(#[trigger] rest[i]) == q(rest[i]) by {
            assert(rest[i] == items[i]);
        }
        lemma_filter_same(rest, p, q);
    }
}

/// Assigns each point to the smallest of the given boxes that holds it, and
/// returns the boxes that hold no point, in the order in which they were
/// given. A point that none of the boxes holds keeps its leaf.
pub fn assign_nodes_to_points(nodes: &Vec<MortonKey>, points: &mut Vec<Point>) -> (unmapped: Vec<
    MortonKey,
>)
    requires
        all_wf(nodes@),
        forall|i: int| 0 <= i < old(points).len() ==> (#[trigger] old(points)[i]).base_key.wf(),
    ensures
        final(points).len() == old(points).len(),
        forall|i: int|
            0 <= i < final(points).len() ==> (#[trigger] final(points)[i]).base_key == old(
                points,
            )[i].base_key && final(points)[i].global_idx == old(points)[i].global_idx,
        forall|i: int|
            0 <= i < final(points).len() ==> has_code(nodes@, (#[trigger] final(points)[i]).encoded_key.morton)
                && final(points)[i].encoded_key.wf() && holds_base(
                final(points)[i].encoded_key,
                final(points)[i].base_key,
            ) || final(points)[i].encoded_key == old(points)[i].encoded_key,
        forall|i: int|
            0 <= i < final(points).len() ==> is_assigned(
                nodes@,
                old(points)[i],
                #[trigger] final(points)[i],
            ),
        forall|k: int|
            0 <= k < unmapped.len() ==> nodes@.contains(#[trigger] unmapped[k]) && !is_mapped(
                final(points)@,
                unmapped[k],
            ),
        forall|j: int|
            0 <= j < nodes.len() && !is_mapped(final(points)@, nodes[j]) ==> unmapped@.contains(
                #[trigger] nodes[j],
            ),
        unmapped@ == nodes@.filter(|node: MortonKey| !is_mapped(final(points)@, node)),
{
    let mut codes: HashSet<u64> = HashSet::new();
    let mut j: usize = 0;
    while j < nodes.len()
        invariant
            j <= nodes.len(),
            forall|k: int| 0 <= k < j ==> codes@.contains(#[trigger] nodes[k].morton),
            forall|m: u64| #[trigger] codes@.contains(m) ==> has_code(nodes@, m),
        decreases nodes.len() - j,
    {
        codes.insert(nodes[j].morton);
        j = j + 1;
    }
    let mut mapped: HashSet<u64> = HashSet::new();
    let n = points.len();
    let mut i: usize = 0;
    proof {
        assert forall|m: u64| has_code(nodes@, m) implies #[trigger] codes@.contains(m) by {
            let k = choose|k: int| 0 <= k < nodes.len() && nodes[k].morton == m;
            assert(codes@.contains(nodes[k].morton));
        }
    }
    while i < n
        invariant
            i <= n,
            n == points.len(),
            n == old(points).len(),
            forall|m: u64| #[trigger] codes@.contains(m) <==> has_code(nodes@, m),
            forall|q: int|
                0 <= q < i ==> is_assigned(nodes@, old(points)[q], #[trigger] points[q]),
            forall|q: int| 0 <= q < n ==> (#[trigger] points[q]).base_key == old(points)[q].base_key
                && points[q].global_idx == old(points)[q].global_idx,
            forall|q: int| i <= q < n ==> (#[trigger] points[q]).encoded_key == old(points)[q].encoded_key,
            forall|q: int| 0 <= q < n ==> (#[trigger] old(points)[q]).base_key.wf(),
            forall|q: int|
                0 <= q < i ==> has_code(nodes@, (#[trigger] points[q]).encoded_key.morton)
                    && points[q].encoded_key.wf() && holds_base(
                    points[q].encoded_key,
                    points[q].base_key,
                ) && mapped@.contains(points[q].encoded_key.morton) || points[q].encoded_key
                    == old(points)[q].encoded_key && !codes@.contains(points[q].encoded_key.morton)
                    || points[q].encoded_key == old(points)[q].encoded_key && mapped@.contains(
                    points[q].encoded_key.morton,
                ),
            forall|m: u64| #[trigger]
                mapped@.contains(m) ==> exists|q: int|
                    0 <= q < i && points[q].encoded_key.morton == m,
        decreases n - i,
    {
        let point = points[i];
        let ghost before = points@;
        match finest_ancestor_in(&point.base_key, &codes) {
            Some(ancestor) => {
                proof {
                    lemma_wf_view(ancestor);
                    let base = point.base_key@;
                    let n = (base.level - ancestor@.level) as nat;
                    assert(has_code(nodes@, base.ancestor(n).morton() as u64));
                }
                mapped.insert(ancestor.morton);
                points.set(
                    i,
                    Point {
                        base_key: point.base_key,
                        encoded_key: ancestor,
                        global_idx: point.global_idx,
                    },
                );
            },
            None => {
                if codes.contains(&point.encoded_key.morton) {
                    mapped.insert(point.encoded_key.morton);
                }
            },
        }
        proof {
            assert forall|m: u64| #[trigger] mapped@.contains(m) implies exists|q: int|
                0 <= q < i + 1 && points[q].encoded_key.morton == m by {
                if m == points[i as int].encoded_key.morton {
                    assert(0 <= i < i + 1 && points[i as int].encoded_key.morton == m);
                } else {
                    let q = choose|q: int| 0 <= q < i && before[q].encoded_key.morton == m;
                    assert(points[q] == before[q]);
                    assert(0 <= q < i + 1 && points[q].encoded_key.morton == m);
                }
            }
            assert forall|q: int| 0 <= q < i implies points[q] == before[q] by {}
            assert(is_assigned(nodes@, old(points)[i as int], points[i as int]));
        }
        i = i + 1;
    }
    let mut unmapped: Vec<MortonKey> = Vec::new();
    let mut j: usize = 0;
    while j < nodes.len()
        invariant
            j <= nodes.len(),
            n == points.len(),
            forall|k: int| 0 <= k < nodes.len() ==> codes@.contains(#[trigger] nodes[k].morton),
            forall|q: int|
                0 <= q < n ==> mapped@.contains((#[trigger] points[q]).encoded_key.morton)
                    || !codes@.contains(points[q].encoded_key.morton),
            forall|m: u64| #[trigger]
                mapped@.contains(m) ==> exists|q: int|
                    0 <= q < n && points[q].encoded_key.morton == m,
            forall|k: int|
                0 <= k < unmapped.len() ==> nodes@.subrange(0, j as int).contains(
                    #[trigger] unmapped[k],
                ) && !mapped@.contains(unmapped[k].morton),
            forall|k: int|
                0 <= k < j && !mapped@.contains(nodes[k].morton) ==> unmapped@.contains(
                    #[trigger] nodes[k],
                ),
            unmapped@ == nodes@.subrange(0, j as int).filter(
                |node: MortonKey| !mapped@.contains(node.morton),
            ),
        decreases nodes.len() - j,
    {
        let ghost before = unmapped@;
        let ghost seen = nodes@.subrange(0, j as int);
        let ghost seen_next = nodes@.subrange(0, j + 1);
        if !mapped.contains(&nodes[j].morton) {
            unmapped.push(nodes[j]);
        }
        proof {
            reveal(Seq::filter);
            assert(seen_next.drop_last() =~= seen);
            assert(seen_next.last() == nodes[j as int]);
            assert forall|k: int| 0 <= k < unmapped.len() implies seen_next.contains(
                #[trigger] unmapped[k],
            ) && !mapped@.contains(unmapped[k].morton) by {
                if k < before.len() {
                    assert(seen.contains(before[k]));
                    let w = choose|w: int| 0 <= w < seen.len() && seen[w] == before[k];
                    assert(seen_next[w] == unmapped[k]);
                } else {
                    assert(seen_next[j as int] == unmapped[k]);
                }
            }
            assert forall|k: int|
                0 <= k < j + 1 && !mapped@.contains(nodes[k].morton) implies unmapped@.contains(
                #[trigger] nodes[k],
            ) by {
                if k < j {
                    assert(before.contains(nodes[k]));
                    let w = choose|w: int| 0 <= w < before.len() && before[w] == nodes[k];
                    assert(unmapped@[w] == nodes[k]);
                } else {
                    assert(unmapped@[unmapped.len() - 1] == nodes[k]);
                }
            }
        }
        j = j + 1;
    }
    proof {
        assert(nodes@.subrange(0, nodes.len() as int) =~= nodes@);
        assert forall|w: int| 0 <= w < nodes.len() implies (mapped@.contains(
            (#[trigger] nodes[w]).morton,
        ) <==> is_mapped(points@, nodes[w])) by {
            if is_mapped(points@, nodes[w]) {
                let q = choose|q: int|
                    0 <= q < points.len() && points[q].encoded_key.morton == nodes[w].morton;
                assert(codes@.contains(nodes[w].morton));
                assert(mapped@.contains(points[q].encoded_key.morton));
            }
        }
        lemma_filter_same(
            nodes@,
            |node: MortonKey| !mapped@.contains(node.morton),
            |node: MortonKey| !is_mapped(points@, node),
        );
        assert forall|k: int| 0 <= k < unmapped.len() implies nodes@.contains(
            #[trigger] unmapped[k],
        ) && !is_mapped(points@, unmapped[k]) by {
            if is_mapped(points@, unmapped[k]) {
                let q = choose|q: int|
                    0 <= q < points.len() && points[q].encoded_key.morton == unmapped[k].morton;
                let w = choose|w: int| 0 <= w < nodes.len() && nodes[w] == unmapped[k];
                assert(codes@.contains(nodes[w].morton));
                assert(mapped@.contains(points[q].encoded_key.morton));
            }
        }
        assert forall|j: int|
            0 <= j < nodes.len() && !is_mapped(points@, nodes[j]) implies unmapped@.contains(
            #[trigger] nodes[j],
        ) by {
            if mapped@.contains(nodes[j].morton) {
                let q = choose|q: int|
                    0 <= q < n && points[q].encoded_key.morton == nodes[j].morton;
                assert(is_mapped(points@, nodes[j]));
            }
        }
    }
    unmapped
}

impl MultiNodeTree {
    /// Estimate of the least depth at which a leaf holds at most `n_crit`
    /// points, for points spread evenly over the processes and over the
    /// boxes: the least number of times that the points of one process have
    /// to be divided by eight to come down to `n_crit`.
    pub fn minimum_depth(nglobal_points: u64, n_crit: u64, world_size: u64) -> (depth: u64)
        requires
            world_size > 0,
        ensures
            eighth(nglobal_points as int / world_size as int, depth as nat) <= n_crit,
            forall|l: nat|
                l < depth ==> #[trigger] eighth(nglobal_points as int / world_size as int, l)
                    > n_crit,
    {
        let mut tmp = nglobal_points / world_size;
        let ghost first = tmp as int;
        let mut level: u64 = 0;
        while tmp > n_crit
            invariant
                tmp == eighth(first, level as nat),
                level + tmp <= u64::MAX,
                forall|l: nat| l < level ==> #[trigger] eighth(first, l) > n_crit,
            decreases tmp,
        {
            level += 1;
            tmp /= 8;
        }
        level
    }
}

/// The box `o` of level `depth` lies in the block of boxes from `lo` up to,
/// but not with, `hi` along every axis.
pub open spec fn in_block(o: Octant, lo: [u64; 3], hi: [u64; 3], depth: u64) -> bool {
    &&& o.level == depth
    &&& lo[0] <= o.x < hi[0]
    &&& lo[1] <= o.y < hi[1]
    &&& lo[2] <= o.z < hi[2]
}

/// The box `a` comes before the box `b` where boxes are counted row by row,
/// the last axis running fastest.
pub open spec fn row_before(a: Octant, b: Octant) -> bool {
    a.x < b.x || a.x == b.x && (a.y < b.y || a.y == b.y && a.z < b.z)
}

/// The keys come row by row, none twice.
pub open spec fn in_rows(keys: Seq<MortonKey>) -> bool {
    forall|a: int, b: int| 0 <= a < b < keys.len() ==> row_before(#[trigger] keys[a]@, #[trigger] keys[b]@)
}

/// The keys of the boxes of level `depth` in the block from `lo` up to, but
/// not with, `hi`, the last axis running fastest.
pub fn block_leaves(lo: &[u64; 3], hi: &[u64; 3], depth: u64) -> (leaves: Vec<MortonKey>)
    requires
        depth <= DEEPEST_LEVEL,
        hi[0] <= grid_side(depth as int),
        hi[1] <= grid_side(depth as int),
        hi[2] <= grid_side(depth as int),
    ensures
        all_wf(leaves@),
        forall|l: int| 0 <= l < leaves.len() ==> in_block((#[trigger] leaves[l])@, *lo, *hi, depth),
        forall|o: Octant| in_block(o, *lo, *hi, depth) ==> #[trigger] has_view(leaves@, o),
        in_rows(leaves@),
{
    let mut leaves: Vec<MortonKey> = Vec::new();
    let mut x = lo[0];
    while x < hi[0]
        invariant
            lo[0] <= x,
            depth <= DEEPEST_LEVEL,
            hi[0] <= grid_side(depth as int),
            hi[1] <= grid_side(depth as int),
            hi[2] <= grid_side(depth as int),
            all_wf(leaves@),
            forall|l: int|
                0 <= l < leaves.len() ==> in_block((#[trigger] leaves[l])@, *lo, *hi, depth),
            forall|o: Octant|
                in_block(o, *lo, *hi, depth) && o.x < x ==> #[trigger] has_view(leaves@, o),
            in_rows(leaves@),
            forall|l: int| 0 <= l < leaves.len() ==> (#[trigger] leaves[l])@.x < x,
        decreases hi[0] - x,
    {
        let mut y = lo[1];
        while y < hi[1]
            invariant
                lo[0] <= x < hi[0],
                lo[1] <= y,
                depth <= DEEPEST_LEVEL,
                hi[0] <= grid_side(depth as int),
                hi[1] <= grid_side(depth as int),
                hi[2] <= grid_side(depth as int),
                all_wf(leaves@),
                forall|l: int|
                    0 <= l < leaves.len() ==> in_block((#[trigger] leaves[l])@, *lo, *hi, depth),
                forall|o: Octant|
                    in_block(o, *lo, *hi, depth) && (o.x < x || o.x == x && o.y < y)
                        ==> #[trigger] has_view(leaves@, o),
                in_rows(leaves@),
                forall|l: int|
                    0 <= l < leaves.len() ==> (#[trigger] leaves[l])@.x < x || leaves[l]@.x == x
                        && leaves[l]@.y < y,
            decreases hi[1] - y,
        {
            let mut z = lo[2];
            while z < hi[2]
                invariant
                    lo[0] <= x < hi[0],
                    lo[1] <= y < hi[1],
                    lo[2] <= z,
                    depth <= DEEPEST_LEVEL,
                    hi[0] <= grid_side(depth as int),
                    hi[1] <= grid_side(depth as int),
                    hi[2] <= grid_side(depth as int),
                    all_wf(leaves@),
                    forall|l: int|
                        0 <= l < leaves.len() ==> in_block((#[trigger] leaves[l])@, *lo, *hi, depth),
                    forall|o: Octant|
                        in_block(o, *lo, *hi, depth) && (o.x < x || o.x == x && (o.y < y || o.y == y
                            && o.z < z)) ==> #[trigger] has_view(leaves@, o),
                    in_rows(leaves@),
                    forall|l: int|
                        0 <= l < leaves.len() ==> (#[trigger] leaves[l])@.x < x || leaves[l]@.x == x
                            && (leaves[l]@.y < y || leaves[l]@.y == y && leaves[l]@.z < z),
                decreases hi[2] - z,
            {
                let ghost before = leaves@;
                let key = MortonKey::from_grid(depth, x, y, z);
                leaves.push(key);
                proof {
                    assert forall|a: int, b: int| 0 <= a < b < leaves.len() implies row_before(
                        #[trigger] leaves[a]@,
                        #[trigger] leaves[b]@,
                    ) by {
                        if b < before.len() {
                            assert(row_before(before[a]@, before[b]@));
                        } else {
                            assert(leaves[a] == before[a]);
                        }
                    }
                    assert forall|o: Octant|
                        in_block(o, *lo, *hi, depth) && (o.x < x || o.x == x && (o.y < y || o.y == y
                            && o.z < z + 1)) implies #[trigger] has_view(leaves@, o) by {
                        if o.x == x && o.y == y && o.z == z {
                            assert(leaves@[leaves.len() - 1]@ == o);
                        } else {
                            assert(has_view(before, o));
                            let w = choose|w: int| 0 <= w < before.len() && before[w]@ == o;
                            assert(leaves@[w]@ == o);
                        }
                    }
                }
                z = z + 1;
            }
            y = y + 1;
        }
        x = x + 1;
    }
    leaves
}

/// Eight to the power `depth`, written as a power of two.
pub open spec fn boxes_at(depth: int) -> int {
    pow2((3 * depth) as nat) as int
}

/// The boxes of level `depth` are numbered row by row: `n` counts the box
/// with these coordinates.
pub open spec fn row_major(n: int, depth: int) -> (int, int, int) {
    let steps = grid_side(depth);
    (n / (steps * steps), (n % (steps * steps)) / steps, n % steps)
}

/// `lo` and `hi` are the corners of the block of boxes of level `depth`
/// that falls to `rank` among `size` processes.
pub open spec fn is_rank_block(lo: [u64; 3], hi: [u64; 3], rank: i32, size: i32, depth: u64) -> bool {
    let share = boxes_at(depth as int) / size as int;
    &&& lo[0] == row_major(rank * share, depth as int).0
    &&& lo[1] == row_major(rank * share, depth as int).1
    &&& lo[2] == row_major(rank * share, depth as int).2
    &&& hi[0] == row_major((rank + 1) * share, depth as int).0
    &&& hi[1] == row_major((rank + 1) * share, depth as int).1
    &&& hi[2] == row_major((rank + 1) * share, depth as int).2
}

/// The block of boxes of level `depth` that falls to the process of the given
/// rank among `size` processes: from the box that `rank` shares of the boxes
/// count up to, to the box that `rank + 1` shares count up to, each end
/// taken row by row.
pub fn rank_block(rank: i32, size: i32, depth: u64) -> (block: ([u64; 3], [u64; 3]))
    requires
        depth <= 10,
        size >= 1,
        0 <= rank < size,
    ensures
        is_rank_block(block.0, block.1, rank, size, depth),
        block.1[0] <= grid_side(depth as int),
        block.1[1] <= grid_side(depth as int),
        block.1[2] <= grid_side(depth as int),
{
    let steps = side(depth);
    proof {
        vstd::arithmetic::power2::lemma2_to64();
        lemma_side_bound(depth as int);
        vstd::arithmetic::power2::lemma_pow2_adds(depth as nat, depth as nat);
        vstd::arithmetic::power2::lemma_pow2_adds((2 * depth) as nat, depth as nat);
        vstd::arithmetic::power2::lemma_pow2_strictly_increases(depth as nat, 11);
        vstd::arithmetic::power2::lemma_pow2_strictly_increases((2 * depth) as nat, 22);
        vstd::arithmetic::power2::lemma_pow2_strictly_increases((3 * depth) as nat, 31);
    }
    let steps2 = steps * steps;
    let n_global: i32 = (steps2 * steps) as i32;
    let n_local = n_global / size;
    proof {
        assert(rank * n_local <= (size - 1) * n_local) by (nonlinear_arith)
            requires
                0 <= rank <= size - 1,
                n_local >= 0,
        ;
        assert((size - 1) * n_local + n_local == size * n_local) by (nonlinear_arith);
        vstd::arithmetic::div_mod::lemma_fundamental_div_mod(n_global as int, size as int);
        assert(size * n_local <= n_global);
        assert(0 <= rank * n_local) by (nonlinear_arith)
            requires
                0 <= rank,
                0 <= n_local,
        ;
        assert((rank + 1) * n_local == rank * n_local + n_local) by (nonlinear_arith);
    }
    let n_prev = rank * n_local;
    let n_min = n_prev as u64;
    let n_max = (n_prev + n_local) as u64;
    proof {
        lemma_row_bound(n_max as int, steps as int);
    }
    let lo: [u64; 3] = [n_min / steps2, (n_min % steps2) / steps, n_min % steps];
    let hi: [u64; 3] = [n_max / steps2, (n_max % steps2) / steps, n_max % steps];
    (lo, hi)
}

/// The row-by-row coordinates of a count of at most `steps^3` boxes are at
/// most `steps`.
proof fn lemma_row_bound(n: int, steps: int)
    requires
        steps >= 1,
        0 <= n <= steps * steps * steps,
    ensures
        n / (steps * steps) <= steps,
        (n % (steps * steps)) / steps < steps,
        n % steps < steps,
{
    let square = steps * steps;
    assert(square >= 1) by (nonlinear_arith)
        requires
            square == steps * steps,
            steps >= 1,
    ;
    vstd::arithmetic::div_mod::lemma_fundamental_div_mod(n, square);
    let q = n / square;
    assert(q <= steps) by (nonlinear_arith)
        requires
            square * q <= n,
            n <= square * steps,
            square >= 1,
    ;
    let r = n % square;
    vstd::arithmetic::div_mod::lemma_fundamental_div_mod(r, steps);
    let p = r / steps;
    assert(p < steps) by (nonlinear_arith)
        requires
            steps * p <= r,
            r < steps * steps,
            steps >= 1,
    ;
}

/// The points of the given boxes of the deepest level, each assigned to the
/// box of level `depth` that holds it.
pub fn encode_points(base_keys: &[MortonKey], depth: u64, global_idxs: &[usize]) -> (points: Vec<
    Point,
>)
    requires
        all_wf(base_keys@),
        forall|i: int| 0 <= i < base_keys.len() ==> depth <= (#[trigger] base_keys[i])@.level,
        base_keys.len() <= global_idxs.len(),
    ensures
        points.len() == base_keys.len(),
        forall|i: int|
            0 <= i < points.len() ==> {
                &&& (#[trigger] points[i]).base_key == base_keys[i]
                &&& points[i].global_idx == global_idxs[i]
                &&& points[i].encoded_key.wf()
                &&& points[i].encoded_key@.level == depth
                &&& holds_base(points[i].encoded_key, points[i].base_key)
            },
{
    let mut points: Vec<Point> = Vec::new();
    let mut i: usize = 0;
    while i < base_keys.len()
        invariant
            i <= base_keys.len(),
            base_keys.len() <= global_idxs.len(),
            all_wf(base_keys@),
            forall|i: int| 0 <= i < base_keys.len() ==> depth <= (#[trigger] base_keys[i])@.level,
            points.len() == i,
            forall|q: int|
                0 <= q < i ==> {
                    &&& (#[trigger] points[q]).base_key == base_keys[q]
                    &&& points[q].global_idx == global_idxs[q]
                    &&& points[q].encoded_key.wf()
                    &&& points[q].encoded_key@.level == depth
                    &&& holds_base(points[q].encoded_key, points[q].base_key)
                },
        decreases base_keys.len() - i,
    {
        let encoded_key = ancestor_at(&base_keys[i], depth);
        points.push(Point { base_key: base_keys[i], encoded_key, global_idx: global_idxs[i] });
        i = i + 1;
    }
    points
}

/// The point `p` is one of the given points after its assignment.
#[verifier::opaque]
pub open spec fn assigned_from(nodes: Seq<MortonKey>, given: Seq<Point>, p: Point) -> bool {
    exists|j: int| 0 <= j < given.len() && is_assigned(nodes, given[j], p)
}

/// The given point `p` is, after its assignment, one of the settled points.
#[verifier::opaque]
pub open spec fn assigned_to(nodes: Seq<MortonKey>, settled: Seq<Point>, p: Point) -> bool {
    exists|i: int| 0 <= i < settled.len() && is_assigned(nodes, p, settled[i])
}

/// Some point has the key `base` of the deepest level and the global index
/// `idx`.
#[verifier::opaque]
pub open spec fn holds_point(points: Seq<Point>, base: MortonKey, idx: usize) -> bool {
    exists|i: int| 0 <= i < points.len() && points[i].base_key == base && points[i].global_idx == idx
}

/// The point is one of those given by their keys of the deepest level and
/// their global indices.
#[verifier::opaque]
pub open spec fn is_given(base_keys: Seq<MortonKey>, global_idxs: Seq<usize>, p: Point) -> bool {
    exists|j: int|
        0 <= j < base_keys.len() && j < global_idxs.len() && p.base_key == base_keys[j]
            && p.global_idx == global_idxs[j]
}

/// `placed` holds the given points in the order in which they were given,
/// each with the key of the box of level `depth` that holds it.
pub open spec fn is_placement(
    placed: Seq<Point>,
    base_keys: Seq<MortonKey>,
    global_idxs: Seq<usize>,
    depth: u64,
) -> bool {
    &&& placed.len() == base_keys.len()
    &&& base_keys.len() <= global_idxs.len()
    &&& forall|j: int|
        0 <= j < placed.len() ==> {
            &&& (#[trigger] placed[j]).base_key == base_keys[j]
            &&& placed[j].global_idx == global_idxs[j]
            &&& placed[j].encoded_key.wf()
            &&& placed[j].encoded_key@.level == depth
            &&& holds_base(placed[j].encoded_key, placed[j].base_key)
        }
}

/// The points are the given points, each as often as it was given and each
/// with the key of the box of level `depth` that holds it; the points of a
/// box come in the order in which they were given.
pub open spec fn holds_given(
    points: Seq<Point>,
    base_keys: Seq<MortonKey>,
    global_idxs: Seq<usize>,
    depth: u64,
) -> bool {
    exists|placed: Seq<Point>| #[trigger]
        is_placement(placed, base_keys, global_idxs, depth) && is_regrouping(points, placed)
}

/// `points` holds what `placed` holds, as often, and the points of a box in
/// the same order.
pub open spec fn is_regrouping(points: Seq<Point>, placed: Seq<Point>) -> bool {
    &&& points.to_multiset() == placed.to_multiset()
    &&& forall|code: u64| #[trigger] with_code(points, code) == with_code(placed, code)
}

/// `assigned` holds the points of `given` in their order, each after its
/// assignment, in a box of level `depth`.
pub open spec fn is_assignment(
    nodes: Seq<MortonKey>,
    given: Seq<Point>,
    assigned: Seq<Point>,
    depth: u64,
) -> bool {
    &&& assigned.len() == given.len()
    &&& forall|i: int|
        0 <= i < assigned.len() ==> is_assigned(nodes, given[i], #[trigger] assigned[i])
            && assigned[i].encoded_key.wf() && assigned[i].encoded_key@.level == depth
}

/// Points placed in boxes of level `depth` stay placed there when they are
/// assigned to nodes of that level.
proof fn lemma_placed(
    nodes: Seq<MortonKey>,
    given: Seq<Point>,
    assigned: Seq<Point>,
    base_keys: Seq<MortonKey>,
    global_idxs: Seq<usize>,
    depth: u64,
)
    requires
        is_placement(given, base_keys, global_idxs, depth),
        is_assignment(nodes, given, assigned, depth),
    ensures
        is_placement(assigned, base_keys, global_idxs, depth),
{
    assert forall|j: int| 0 <= j < assigned.len() implies {
        &&& (#[trigger] assigned[j]).base_key == base_keys[j]
        &&& assigned[j].global_idx == global_idxs[j]
        &&& assigned[j].encoded_key.wf()
        &&& assigned[j].encoded_key@.level == depth
        &&& holds_base(assigned[j].encoded_key, assigned[j].base_key)
    } by {
        assert(is_assigned(nodes, given[j], assigned[j]));
        assert(given[j].base_key == base_keys[j]);
        let base = given[j].base_key@;
        if assigned[j].encoded_key != given[j].encoded_key {
            let n = choose|n: nat|
                n <= base.level && has_code(nodes, #[trigger] base.ancestor(n).morton() as u64)
                    && assigned[j].encoded_key.wf() && assigned[j].encoded_key@ == base.ancestor(n)
                    && forall|m: nat|
                    m < n ==> !has_code(nodes, #[trigger] base.ancestor(m).morton() as u64);
            lemma_ancestor_level(base, n);
        }
    }
}

/// The points ordered by leaf, after each was assigned to the smallest of
/// the given boxes that holds it; and the boxes that hold no point.
fn settle_points(nodes: &Vec<MortonKey>, points: Vec<Point>, depth: u64) -> (out: (
    Vec<Point>,
    Vec<MortonKey>,
))
    requires
        all_wf(nodes@),
        forall|j: int| 0 <= j < nodes.len() ==> (#[trigger] nodes[j])@.level == depth,
        forall|i: int|
            0 <= i < points.len() ==> (#[trigger] points[i]).base_key.wf() && points[i].encoded_key.wf()
                && points[i].encoded_key@.level == depth,
    ensures
        out.0.len() == points.len(),
        grouped_by_leaf(out.0@),
        exists|assigned: Seq<Point>| #[trigger]
            is_assignment(nodes@, points@, assigned, depth) && is_regrouping(out.0@, assigned),
        forall|i: int|
            0 <= i < out.0.len() ==> (#[trigger] out.0[i]).encoded_key.wf() && out.0[i].encoded_key@.level
                == depth,
        forall|i: int| 0 <= i < out.0.len() ==> assigned_from(nodes@, points@, #[trigger] out.0[i]),
        forall|j: int| 0 <= j < points.len() ==> assigned_to(nodes@, out.0@, #[trigger] points[j]),
        all_wf(out.1@),
        forall|k: int|
            0 <= k < out.1.len() ==> (#[trigger] out.1[k])@.level == depth && nodes@.contains(
                out.1[k],
            ) && !is_mapped(out.0@, out.1[k]),
        forall|j: int|
            0 <= j < nodes.len() ==> is_mapped(out.0@, #[trigger] nodes[j]) || out.1@.contains(nodes[j]),
{
    let mut points = points;
    let ghost given = points@;
    let unmapped = assign_nodes_to_points(nodes, &mut points);
    let ghost assigned = points@;
    proof {
        assert forall|i: int| 0 <= i < assigned.len() implies (#[trigger] assigned[i]).encoded_key.wf()
            && assigned[i].encoded_key@.level == depth by {
            if assigned[i].encoded_key != given[i].encoded_key {
                assert(has_code(nodes@, assigned[i].encoded_key.morton));
                let j = choose|j: int|
                    0 <= j < nodes.len() && nodes[j].morton == assigned[i].encoded_key.morton;
                lemma_same_morton(nodes[j], assigned[i].encoded_key);
            }
        }
    }
    sort_points(&mut points);
    proof {
        assert(is_assignment(nodes@, given, assigned, depth) && is_regrouping(points@, assigned));
        assert forall|i: int| 0 <= i < points.len() implies (#[trigger] points[i]).encoded_key.wf()
            && points[i].encoded_key@.level == depth by {
            assert(points@.contains(points[i]));
            assert(assigned.contains(points[i]));
            let q = choose|q: int| 0 <= q < assigned.len() && assigned[q] == points[i];
            assert(assigned[q].encoded_key.wf());
        }
        assert forall|i: int| 0 <= i < points.len() implies assigned_from(
            nodes@,
            given,
            #[trigger] points[i],
        ) by {
            reveal(assigned_from);
            assert(points@.contains(points[i]));
            assert(assigned.contains(points[i]));
            let q = choose|q: int| 0 <= q < assigned.len() && assigned[q] == points[i];
            assert(is_assigned(nodes@, given[q], assigned[q]));
        }
        assert forall|j: int| 0 <= j < given.len() implies assigned_to(
            nodes@,
            points@,
            #[trigger] given[j],
        ) by {
            reveal(assigned_to);
            assert(assigned.contains(assigned[j]));
            assert(points@.contains(assigned[j]));
            let r = choose|r: int| 0 <= r < points.len() && points[r] == assigned[j];
            assert(is_assigned(nodes@, given[j], points[r]));
        }
        assert forall|k: int| 0 <= k < unmapped.len() implies (#[trigger] unmapped[k]).wf()
            && unmapped[k]@.level == depth && nodes@.contains(unmapped[k]) && !is_mapped(
            points@,
            unmapped[k],
        ) by {
            assert(nodes@.contains(unmapped[k]));
            let j = choose|j: int| 0 <= j < nodes.len() && nodes[j] == unmapped[k];
            assert(nodes[j].wf());
            if is_mapped(points@, unmapped[k]) {
                let q = choose|q: int|
                    0 <= q < points.len() && points[q].encoded_key.morton == unmapped[k].morton;
                assert(points@.contains(points[q]));
                assert(assigned.contains(points[q]));
                let r = choose|r: int| 0 <= r < assigned.len() && assigned[r] == points[q];
                assert(is_mapped(assigned, unmapped[k]));
            }
        }
        assert forall|j: int| 0 <= j < nodes.len() implies is_mapped(points@, #[trigger] nodes[j])
            || unmapped@.contains(nodes[j]) by {
            if !unmapped@.contains(nodes[j]) {
                assert(is_mapped(assigned, nodes[j]));
                let q = choose|q: int|
                    0 <= q < assigned.len() && assigned[q].encoded_key.morton == nodes[j].morton;
                assert(assigned.contains(assigned[q]));
                assert(points@.contains(assigned[q]));
                let r = choose|r: int| 0 <= r < points.len() && points[r] == assigned[q];
                assert(points[r].encoded_key.morton == nodes[j].morton);
            }
        }
    }
    (points, unmapped)
}

/// The settled points are the given points, each in a box of level `depth`
/// that holds it.
proof fn lemma_settled(
    nodes: Seq<MortonKey>,
    given: Seq<Point>,
    settled: Seq<Point>,
    base_keys: Seq<MortonKey>,
    global_idxs: Seq<usize>,
    depth: u64,
)
    requires
        given.len() == base_keys.len(),
        base_keys.len() <= global_idxs.len(),
        forall|j: int|
            0 <= j < given.len() ==> (#[trigger] given[j]).base_key == base_keys[j] && given[j].global_idx
                == global_idxs[j] && given[j].encoded_key@.level == depth && holds_base(
                given[j].encoded_key,
                given[j].base_key,
            ),
        forall|i: int| 0 <= i < settled.len() ==> (#[trigger] settled[i]).encoded_key@.level == depth,
        forall|i: int| 0 <= i < settled.len() ==> assigned_from(nodes, given, #[trigger] settled[i]),
        forall|j: int| 0 <= j < given.len() ==> assigned_to(nodes, settled, #[trigger] given[j]),
    ensures
        forall|i: int|
            0 <= i < settled.len() ==> is_given(base_keys, global_idxs, #[trigger] settled[i])
                && settled[i].encoded_key@.level == depth && holds_base(
                settled[i].encoded_key,
                settled[i].base_key,
            ),
        forall|j: int|
            0 <= j < base_keys.len() ==> holds_point(settled, #[trigger] base_keys[j], global_idxs[j]),
{
    assert forall|i: int| 0 <= i < settled.len() implies is_given(
        base_keys,
        global_idxs,
        #[trigger] settled[i],
    ) && settled[i].encoded_key@.level == depth && holds_base(
        settled[i].encoded_key,
        settled[i].base_key,
    ) by {
        reveal(assigned_from);
        reveal(is_given);
        assert(assigned_from(nodes, given, settled[i]));
        let j = choose|j: int| 0 <= j < given.len() && is_assigned(nodes, given[j], settled[i]);
        assert(given[j].base_key == base_keys[j]);
        let base = given[j].base_key@;
        if settled[i].encoded_key != given[j].encoded_key {
            let n = choose|n: nat|
                n <= base.level && has_code(nodes, #[trigger] base.ancestor(n).morton() as u64)
                    && settled[i].encoded_key.wf() && settled[i].encoded_key@ == base.ancestor(n)
                    && forall|m: nat|
                    m < n ==> !has_code(nodes, #[trigger] base.ancestor(m).morton() as u64);
            lemma_ancestor_level(base, n);
        }
    }
    assert forall|j: int| 0 <= j < base_keys.len() implies holds_point(
        settled,
        #[trigger] base_keys[j],
        global_idxs[j],
    ) by {
        reveal(assigned_to);
        reveal(holds_point);
        assert(assigned_to(nodes, settled, given[j]));
        let i = choose|i: int| 0 <= i < settled.len() && is_assigned(nodes, given[j], settled[i]);
        assert(settled[i].base_key == base_keys[j]);
    }
}

/// The ancestor `n` levels up lies `n` levels up.
proof fn lemma_ancestor_level(o: Octant, n: nat)
    ensures
        o.ancestor(n).level == o.level - n,
    decreases n,
{
    if n > 0 {
        lemma_ancestor_level(o, (n - 1) as nat);
    }
}

/// A tree has keys at every level from the root down to any of its leaves.
pub proof fn lemma_levels_present(tree: MultiNodeTree, l: int, level: u64)
    requires
        tree.wf(),
        0 <= l < tree.leaves.len(),
        level <= tree.leaves[l]@.level,
    ensures
        tree.levels_to_keys@.contains_key(level),
{
    let up = (tree.leaves[l]@.level - level) as nat;
    lemma_ancestor_level(tree.leaves[l]@, up);
    assert(has_view(tree.keys@, tree.leaves[l]@.ancestor((tree.leaves[l]@.level - level) as nat)));
    let q = choose|q: int| 0 <= q < tree.keys.len() && tree.keys[q]@ == tree.leaves[l]@.ancestor(up);
    assert(tree.levels_to_keys@.contains_key(tree.keys[q].morton % LEVEL_MODULUS));
}

/// The leaves of the tree of `rank` among `size` processes: the boxes of
/// its block and the boxes that hold its points.
pub open spec fn is_block_tree(
    leaves: Seq<MortonKey>,
    points: Seq<Point>,
    rank: i32,
    size: i32,
    depth: u64,
) -> bool {
    forall|lo: [u64; 3], hi: [u64; 3]| #[trigger]
        is_rank_block(lo, hi, rank, size, depth) ==> covers_block(leaves, lo, hi, depth)
            && block_or_points(leaves, points, lo, hi, depth)
}

/// The box lies in the block that begins at the box `first` and ends before
/// the box `last` along every axis.
pub open spec fn between(o: Octant, first: Octant, last: Octant) -> bool {
    &&& first.x <= o.x < last.x
    &&& first.y <= o.y < last.y
    &&& first.z <= o.z < last.z
}

/// Some point lies in a box that has the same parent as `o`.
pub open spec fn beside_point(points: Seq<Point>, o: Octant) -> bool {
    exists|i: int| 0 <= i < points.len() && #[trigger] points[i].encoded_key@.parent() == o.parent()
}

/// The leaves of a sparse tree of the given depth: the boxes that hold
/// points, and the boxes beside them in the block between the first and the
/// last box of a point along the curve.
pub open spec fn is_sparse_leaves(leaves: Seq<MortonKey>, points: Seq<Point>, depth: u64) -> bool {
    let first = points[0].encoded_key@;
    let last = points[points.len() - 1].encoded_key@;
    &&& forall|l: int|
        0 <= l < leaves.len() ==> is_mapped(points, #[trigger] leaves[l]) || (between(
            leaves[l]@,
            first,
            last,
        ) && beside_point(points, leaves[l]@))
    &&& forall|o: Octant|
        o.level == depth && between(o, first, last) && beside_point(points, o) ==> #[trigger] has_view(
            leaves,
            o,
        )
}

/// Two keys of boxes of one level that hold the same box of the deepest
/// level have the same code.
proof fn lemma_same_placement(x: MortonKey, y: MortonKey, base: MortonKey)
    requires
        x.wf(),
        y.wf(),
        x@.level == y@.level,
        holds_base(x, base),
        holds_base(y, base),
    ensures
        x.morton == y.morton,
        x@ == y@,
{
    lemma_same_view(x, y);
}

/// The first and the last of the points along the curve lie in the boxes
/// with the least and the greatest code among the boxes of the given
/// points.
proof fn lemma_ends(
    given: Seq<Point>,
    assigned: Seq<Point>,
    sorted: Seq<Point>,
    base_keys: Seq<MortonKey>,
    global_idxs: Seq<usize>,
    depth: u64,
    a: int,
    b: int,
)
    requires
        is_placement(given, base_keys, global_idxs, depth),
        is_placement(assigned, base_keys, global_idxs, depth),
        sorted.to_multiset() == assigned.to_multiset(),
        sorted.len() == given.len(),
        grouped_by_leaf(sorted),
        0 <= a < given.len(),
        0 <= b < given.len(),
        forall|q: int|
            0 <= q < given.len() ==> given[a].encoded_key.morton <= (#[trigger] given[q]).encoded_key.morton
                <= given[b].encoded_key.morton,
    ensures
        sorted[0].encoded_key@ == given[a].encoded_key@,
        sorted[sorted.len() - 1].encoded_key@ == given[b].encoded_key@,
{
    sorted.to_multiset_ensures();
    assigned.to_multiset_ensures();
    let last = sorted.len() - 1;
    assert forall|r: int| 0 <= r < sorted.len() implies given[a].encoded_key.morton <= (#[trigger] sorted[r]).encoded_key.morton
        <= given[b].encoded_key.morton && sorted[r].encoded_key.wf() by {
        assert(sorted.contains(sorted[r]));
        assert(sorted.to_multiset().count(sorted[r]) > 0);
        assert(assigned.contains(sorted[r]));
        let j = choose|j: int| 0 <= j < assigned.len() && assigned[j] == sorted[r];
        lemma_same_placement(assigned[j].encoded_key, given[j].encoded_key, base_keys[j]);
    }
    assert(assigned.contains(assigned[a]));
    assert(assigned.to_multiset().count(assigned[a]) > 0);
    assert(sorted.contains(assigned[a]));
    let ra = choose|r: int| 0 <= r < sorted.len() && sorted[r] == assigned[a];
    lemma_same_placement(assigned[a].encoded_key, given[a].encoded_key, base_keys[a]);
    assert(sorted[0].encoded_key.morton <= sorted[ra].encoded_key.morton);
    assert(sorted[0].encoded_key.morton == given[a].encoded_key.morton);
    lemma_same_morton(sorted[0].encoded_key, given[a].encoded_key);
    assert(assigned.contains(assigned[b]));
    assert(assigned.to_multiset().count(assigned[b]) > 0);
    assert(sorted.contains(assigned[b]));
    let rb = choose|r: int| 0 <= r < sorted.len() && sorted[r] == assigned[b];
    lemma_same_placement(assigned[b].encoded_key, given[b].encoded_key, base_keys[b]);
    assert(sorted[rb].encoded_key.morton <= sorted[last].encoded_key.morton);
    assert(sorted[last].encoded_key.morton == given[b].encoded_key.morton);
    lemma_same_morton(sorted[last].encoded_key, given[b].encoded_key);
}

/// Every box of the block is a leaf of the tree.
pub open spec fn covers_block(leaves: Seq<MortonKey>, lo: [u64; 3], hi: [u64; 3], depth: u64) -> bool {
    forall|o: Octant| in_block(o, lo, hi, depth) ==> #[trigger] has_view(leaves, o)
}

/// Every leaf is a box of the block or holds a point.
pub open spec fn block_or_points(
    leaves: Seq<MortonKey>,
    points: Seq<Point>,
    lo: [u64; 3],
    hi: [u64; 3],
    depth: u64,
) -> bool {
    forall|l: int|
        0 <= l < leaves.len() ==> is_mapped(points, #[trigger] leaves[l]) || in_block(
            leaves[l]@,
            lo,
            hi,
            depth,
        )
}

/// A box of the block that is a node is a leaf of the tree, by a point or as
/// an empty leaf.
proof fn lemma_block_covered(
    leaves: Seq<MortonKey>,
    nodes: Seq<MortonKey>,
    points: Seq<Point>,
    unmapped: Seq<MortonKey>,
    lo: [u64; 3],
    hi: [u64; 3],
    depth: u64,
)
    requires
        all_wf(leaves),
        all_wf(nodes),
        forall|o: Octant| in_block(o, lo, hi, depth) ==> #[trigger] has_view(nodes, o),
        forall|j: int|
            0 <= j < nodes.len() ==> is_mapped(points, #[trigger] nodes[j]) || unmapped.contains(
                nodes[j],
            ),
        forall|i: int| 0 <= i < points.len() ==> #[trigger] has_code(leaves, points[i].encoded_key.morton),
        forall|k: int| 0 <= k < unmapped.len() ==> #[trigger] has_code(leaves, unmapped[k].morton),
    ensures
        covers_block(leaves, lo, hi, depth),
{
    assert forall|o: Octant| in_block(o, lo, hi, depth) implies #[trigger] has_view(leaves, o) by {
        assert(has_view(nodes, o));
        let j = choose|j: int| 0 <= j < nodes.len() && nodes[j]@ == o;
        if unmapped.contains(nodes[j]) {
            let k = choose|k: int| 0 <= k < unmapped.len() && unmapped[k] == nodes[j];
            assert(has_code(leaves, unmapped[k].morton));
        } else {
            assert(is_mapped(points, nodes[j]));
            let i = choose|i: int|
                0 <= i < points.len() && points[i].encoded_key.morton == nodes[j].morton;
            assert(has_code(leaves, points[i].encoded_key.morton));
        }
        let l = choose|l: int| 0 <= l < leaves.len() && leaves[l].morton == nodes[j].morton;
        lemma_same_morton(leaves[l], nodes[j]);
    }
}

/// The leaves of a tree that was assembled from the points and from the
/// empty boxes beside them are the leaves of a sparse tree.
proof fn lemma_sparse_leaves(
    leaves: Seq<MortonKey>,
    points: Seq<Point>,
    nodes: Seq<MortonKey>,
    unmapped: Seq<MortonKey>,
    kept: Seq<MortonKey>,
    near: Set<u64>,
    lo: [u64; 3],
    hi: [u64; 3],
    depth: u64,
)
    requires
        1 <= depth <= DEEPEST_LEVEL,
        points.len() > 0,
        all_wf(leaves),
        all_wf(nodes),
        forall|q: int|
            0 <= q < points.len() ==> (#[trigger] points[q]).encoded_key.wf() && points[q].encoded_key@.level
                == depth,
        lo[0] == points[0].encoded_key@.x,
        lo[1] == points[0].encoded_key@.y,
        lo[2] == points[0].encoded_key@.z,
        hi[0] == points[points.len() - 1].encoded_key@.x,
        hi[1] == points[points.len() - 1].encoded_key@.y,
        hi[2] == points[points.len() - 1].encoded_key@.z,
        forall|j: int| 0 <= j < nodes.len() ==> in_block((#[trigger] nodes[j])@, lo, hi, depth),
        forall|o: Octant| in_block(o, lo, hi, depth) ==> #[trigger] has_view(nodes, o),
        forall|j: int|
            0 <= j < nodes.len() ==> is_mapped(points, #[trigger] nodes[j]) || unmapped.contains(
                nodes[j],
            ),
        forall|k: int| 0 <= k < unmapped.len() ==> nodes.contains(#[trigger] unmapped[k]),
        forall|j: int|
            0 <= j < kept.len() ==> near.contains((#[trigger] kept[j]).morton) && unmapped.contains(
                kept[j],
            ),
        forall|j: int|
            0 <= j < unmapped.len() && near.contains((#[trigger] unmapped[j]).morton)
                ==> kept.contains(unmapped[j]),
        forall|m: u64| #[trigger]
            near.contains(m) ==> exists|q: int, s: int|
                0 <= q < points.len() && 0 <= s < 8 && #[trigger] points[q].encoded_key@.parent().child(
                    s,
                ).morton() == m,
        forall|q: int, s: int|
            0 <= q < points.len() && 0 <= s < 8 ==> near.contains(
                #[trigger] points[q].encoded_key@.parent().child(s).morton() as u64,
            ),
        forall|i: int| 0 <= i < points.len() ==> #[trigger] has_code(leaves, points[i].encoded_key.morton),
        forall|k: int| 0 <= k < kept.len() ==> #[trigger] has_code(leaves, kept[k].morton),
        forall|l: int|
            0 <= l < leaves.len() ==> is_leaf_of(points, #[trigger] leaves[l]) || kept.contains(
                leaves[l],
            ),
    ensures
        forall|l: int| 0 <= l < leaves.len() ==> (#[trigger] leaves[l])@.level == depth,
        is_sparse_leaves(leaves, points, depth),
{
    let first = points[0].encoded_key@;
    let last = points[points.len() - 1].encoded_key@;
    assert forall|l: int| 0 <= l < leaves.len() implies (#[trigger] leaves[l])@.level
        == depth && (is_mapped(points, leaves[l]) || (between(
        leaves[l]@,
        first,
        last,
    ) && beside_point(points, leaves[l]@))) by {
        reveal(is_leaf_of);
        let leaf = leaves[l];
        if kept.contains(leaf) {
            let j = choose|j: int| 0 <= j < kept.len() && kept[j] == leaf;
            assert(near.contains(kept[j].morton));
            assert(unmapped.contains(kept[j]));
            let u = choose|u: int| 0 <= u < unmapped.len() && unmapped[u] == kept[j];
            assert(nodes.contains(unmapped[u]));
            let n = choose|n: int| 0 <= n < nodes.len() && nodes[n] == unmapped[u];
            assert(in_block(nodes[n]@, lo, hi, depth));
            let (q, s) = choose|q: int, s: int|
                0 <= q < points.len() && 0 <= s < 8 && #[trigger] points[q].encoded_key@.parent().child(
                    s,
                ).morton() == leaf.morton;
            let parent = points[q].encoded_key@.parent();
            lemma_wf_view(points[q].encoded_key);
            lemma_wf_view(leaf);
            crate::transfer::lemma_parent_valid(points[q].encoded_key@);
            crate::displacement::lemma_child_valid(parent, s);
            crate::displacement::lemma_morton_injective(leaf@, parent.child(s));
            crate::morton::lemma_child_code(parent, s);
            assert(points[q].encoded_key@.parent() == leaf@.parent());
        } else {
            let i = choose|i: int| 0 <= i < points.len() && points[i].encoded_key == leaf;
            assert(points[i].encoded_key.morton == leaf.morton);
        }
    }
    assert forall|o: Octant|
        o.level == depth && between(o, first, last) && beside_point(
            points,
            o,
        ) implies #[trigger] has_view(leaves, o) by {
        assert(in_block(o, lo, hi, depth));
        assert(has_view(nodes, o));
        let n = choose|n: int| 0 <= n < nodes.len() && nodes[n]@ == o;
        lemma_wf_view(nodes[n]);
        if unmapped.contains(nodes[n]) {
            let u = choose|u: int| 0 <= u < unmapped.len() && unmapped[u] == nodes[n];
            let i = choose|i: int|
                0 <= i < points.len() && #[trigger] points[i].encoded_key@.parent()
                    == o.parent();
            crate::transfer::lemma_child_of_parent(o);
            let s = o.sibling_index();
            assert(near.contains(
                points[i].encoded_key@.parent().child(s).morton() as u64,
            ));
            assert(near.contains(unmapped[u].morton));
            assert(kept.contains(unmapped[u]));
            let w = choose|w: int| 0 <= w < kept.len() && kept[w] == unmapped[u];
            assert(has_code(leaves, kept[w].morton));
        } else {
            assert(is_mapped(points, nodes[n]));
            let i = choose|i: int|
                0 <= i < points.len() && points[i].encoded_key.morton == nodes[n].morton;
            assert(has_code(leaves, points[i].encoded_key.morton));
        }
        let l = choose|l: int| 0 <= l < leaves.len() && leaves[l].morton == nodes[n].morton;
        lemma_same_morton(leaves[l], nodes[n]);
    }
}

impl MultiNodeTree {
    /// The tree of one process of a uniform tree of the given depth. The
    /// points are given by the keys of the boxes of the deepest level that
    /// hold them. The process takes the block of boxes of level `depth` that
    /// `rank_block` gives it; its leaves are those boxes and the boxes of
    /// level `depth` that hold one of its points.
    pub fn uniform_tree(
        rank: i32,
        size: i32,
        base_keys: &[MortonKey],
        depth: u64,
        global_idxs: &[usize],
    ) -> (tree: MultiNodeTree)
        requires
            depth <= 10,
            size >= 1,
            0 <= rank < size,
            base_keys.len() > 0,
            base_keys.len() <= global_idxs.len(),
            all_wf(base_keys@),
            forall|i: int| 0 <= i < base_keys.len() ==> (#[trigger] base_keys[i])@.level >= depth,
        ensures
            tree.wf(),
            tree.depth == depth,
            tree.points.len() == base_keys.len(),
            tree.range[0] == rank,
            forall|l: int| 0 <= l < tree.leaves.len() ==> (#[trigger] tree.leaves[l])@.level == depth,
            forall|level: u64| level <= depth ==> #[trigger] tree.levels_to_keys@.contains_key(level),
            holds_given(tree.points@, base_keys@, global_idxs@, depth),
            forall|i: int|
                0 <= i < tree.points.len() ==> is_given(base_keys@, global_idxs@, #[trigger] tree.points[i])
                    && tree.points[i].encoded_key@.level == depth && holds_base(
                    tree.points[i].encoded_key,
                    tree.points[i].base_key,
                ),
            forall|j: int|
                0 <= j < base_keys.len() ==> holds_point(
                    tree.points@,
                    #[trigger] base_keys[j],
                    global_idxs[j],
                ),
            is_block_tree(tree.leaves@, tree.points@, rank, size, depth),
    {
        let points = encode_points(base_keys, depth, global_idxs);
        let ghost given = points@;
        let (lo, hi) = rank_block(rank, size, depth);
        let nodes = block_leaves(&lo, &hi, depth);
        proof {
            assert forall|j: int| 0 <= j < nodes.len() implies (#[trigger] nodes[j])@.level
                == depth by {
                assert(in_block(nodes[j]@, lo, hi, depth));
            }
        }
        let (points, unmapped) = settle_points(&nodes, points, depth);
        proof {
            lemma_settled(nodes@, given, points@, base_keys@, global_idxs@, depth);
            let assigned = choose|assigned: Seq<Point>| #[trigger]
                is_assignment(nodes@, given, assigned, depth) && is_regrouping(points@, assigned);
            lemma_placed(nodes@, given, assigned, base_keys@, global_idxs@, depth);
        }
        let tree = MultiNodeTree::assemble(rank as u64, depth, points, &unmapped);
        proof {
            assert forall|l: int| 0 <= l < tree.leaves.len() implies (#[trigger] tree.leaves[l])@.level
                == depth by {
                reveal(is_leaf_of);
                if unmapped@.contains(tree.leaves[l]) {
                    let k = choose|k: int| 0 <= k < unmapped.len() && unmapped[k] == tree.leaves[l];
                    assert(unmapped[k]@.level == depth);
                } else {
                    let i = choose|i: int|
                        0 <= i < points.len() && points[i].encoded_key == tree.leaves[l];
                    assert(points[i].encoded_key@.level == depth);
                }
            }
            assert forall|level: u64| level <= depth implies #[trigger] tree.levels_to_keys@.contains_key(
                level,
            ) by {
                lemma_levels_present(tree, 0, level);
            }
            lemma_block_covered(tree.leaves@, nodes@, points@, unmapped@, lo, hi, depth);
            assert forall|l: int| 0 <= l < tree.leaves.len() implies is_mapped(
                tree.points@,
                #[trigger] tree.leaves[l],
            ) || in_block(tree.leaves[l]@, lo, hi, depth) by {
                reveal(is_leaf_of);
                if unmapped@.contains(tree.leaves[l]) {
                    let k = choose|k: int| 0 <= k < unmapped.len() && unmapped[k] == tree.leaves[l];
                    assert(nodes@.contains(unmapped[k]));
                    let j = choose|j: int| 0 <= j < nodes.len() && nodes[j] == unmapped[k];
                    assert(in_block(nodes[j]@, lo, hi, depth));
                } else {
                    let i = choose|i: int|
                        0 <= i < points.len() && points[i].encoded_key == tree.leaves[l];
                    assert(points[i].encoded_key.morton == tree.leaves[l].morton);
                }
            }
            assert forall|lo2: [u64; 3], hi2: [u64; 3]| #[trigger]
                is_rank_block(lo2, hi2, rank, size, depth) implies covers_block(
                tree.leaves@,
                lo2,
                hi2,
                depth,
            ) && block_or_points(tree.leaves@, tree.points@, lo2, hi2, depth) by {
                assert forall|o: Octant| in_block(o, lo2, hi2, depth) implies #[trigger] has_view(
                    tree.leaves@,
                    o,
                ) by {
                    assert(in_block(o, lo, hi, depth));
                }
                assert forall|l: int| 0 <= l < tree.leaves.len() implies is_mapped(
                    tree.points@,
                    #[trigger] tree.leaves[l],
                ) || in_block(tree.leaves[l]@, lo2, hi2, depth) by {
                    if !is_mapped(tree.points@, tree.leaves[l]) {
                        assert(in_block(tree.leaves[l]@, lo, hi, depth));
                    }
                }
            }
        }
        tree
    }

    /// The tree of one process of a uniform tree of the given depth that
    /// keeps, of the boxes without points, only the siblings of boxes with
    /// points. The boxes looked at are those of the block between the least
    /// and the greatest leaf of a point, the greatest left out along every
    /// axis.
    pub fn uniform_tree_sparse(
        rank: i32,
        base_keys: &[MortonKey],
        depth: u64,
        global_idxs: &[usize],
    ) -> (tree: MultiNodeTree)
        requires
            1 <= depth <= DEEPEST_LEVEL,
            rank >= 0,
            base_keys.len() > 0,
            base_keys.len() <= global_idxs.len(),
            all_wf(base_keys@),
            forall|i: int| 0 <= i < base_keys.len() ==> (#[trigger] base_keys[i])@.level >= depth,
        ensures
            tree.wf(),
            tree.depth == depth,
            tree.points.len() == base_keys.len(),
            tree.range[0] == rank,
            forall|l: int| 0 <= l < tree.leaves.len() ==> (#[trigger] tree.leaves[l])@.level == depth,
            forall|level: u64| level <= depth ==> #[trigger] tree.levels_to_keys@.contains_key(level),
            holds_given(tree.points@, base_keys@, global_idxs@, depth),
            forall|i: int|
                0 <= i < tree.points.len() ==> is_given(base_keys@, global_idxs@, #[trigger] tree.points[i])
                    && tree.points[i].encoded_key@.level == depth && holds_base(
                    tree.points[i].encoded_key,
                    tree.points[i].base_key,
                ),
            forall|j: int|
                0 <= j < base_keys.len() ==> holds_point(
                    tree.points@,
                    #[trigger] base_keys[j],
                    global_idxs[j],
                ),
            is_sparse_leaves(tree.leaves@, tree.points@, depth),
    {
        let points = encode_points(base_keys, depth, global_idxs);
        let ghost given = points@;
        let mut least = points[0].encoded_key;
        let mut greatest = points[0].encoded_key;
        let ghost mut a: int = 0;
        let ghost mut b: int = 0;
        let mut i: usize = 1;
        while i < points.len()
            invariant
                1 <= i <= points.len(),
                least.wf(),
                greatest.wf(),
                least@.level == depth,
                greatest@.level == depth,
                0 <= a < i,
                0 <= b < i,
                least == points[a].encoded_key,
                greatest == points[b].encoded_key,
                forall|q: int|
                    0 <= q < i ==> least.morton <= (#[trigger] points[q]).encoded_key.morton
                        <= greatest.morton,
                forall|q: int|
                    0 <= q < points.len() ==> (#[trigger] points[q]).encoded_key.wf()
                        && points[q].encoded_key@.level == depth,
            decreases points.len() - i,
        {
            let key = points[i].encoded_key;
            if key.morton < least.morton {
                least = key;
                proof {
                    a = i as int;
                }
            }
            if key.morton > greatest.morton {
                greatest = key;
                proof {
                    b = i as int;
                }
            }
            i = i + 1;
        }
        proof {
            lemma_wf_view(least);
            lemma_wf_view(greatest);
        }
        let lo_grid = least.grid();
        let hi_grid = greatest.grid();
        let lo: [u64; 3] = [lo_grid.0, lo_grid.1, lo_grid.2];
        let hi: [u64; 3] = [hi_grid.0, hi_grid.1, hi_grid.2];
        let nodes = block_leaves(&lo, &hi, depth);
        proof {
            assert forall|j: int| 0 <= j < nodes.len() implies (#[trigger] nodes[j])@.level
                == depth by {
                assert(in_block(nodes[j]@, lo, hi, depth));
            }
        }
        let (points, unmapped) = settle_points(&nodes, points, depth);
        proof {
            lemma_settled(nodes@, given, points@, base_keys@, global_idxs@, depth);
            let assigned = choose|assigned: Seq<Point>| #[trigger]
                is_assignment(nodes@, given, assigned, depth) && is_regrouping(points@, assigned);
            lemma_placed(nodes@, given, assigned, base_keys@, global_idxs@, depth);
            lemma_ends(given, assigned, points@, base_keys@, global_idxs@, depth, a, b);
        }
        let mut near_points: HashSet<u64> = HashSet::new();
        let mut p: usize = 0;
        while p < points.len()
            invariant
                p <= points.len(),
                1 <= depth <= DEEPEST_LEVEL,
                forall|q: int|
                    0 <= q < points.len() ==> (#[trigger] points[q]).encoded_key.wf()
                        && points[q].encoded_key@.level == depth,
                forall|q: int, s: int|
                    0 <= q < p && 0 <= s < 8 ==> near_points@.contains(
                        #[trigger] points[q].encoded_key@.parent().child(s).morton() as u64,
                    ),
                forall|m: u64| #[trigger]
                    near_points@.contains(m) ==> exists|q: int, s: int|
                        0 <= q < points.len() && 0 <= s < 8 && #[trigger] points[q].encoded_key@.parent().child(
                            s,
                        ).morton() == m,
            decreases points.len() - p,
        {
            let siblings = points[p].encoded_key.siblings();
            let mut s: usize = 0;
            while s < 8
                invariant
                    s <= 8,
                    p < points.len(),
                    siblings.len() == 8,
                    forall|t: int|
                        0 <= t < 8 ==> (#[trigger] siblings[t]).wf() && siblings[t]@
                            == points[p as int].encoded_key@.parent().child(t),
                    forall|q: int, s: int|
                        0 <= q < p && 0 <= s < 8 ==> near_points@.contains(
                            #[trigger] points[q].encoded_key@.parent().child(s).morton() as u64,
                        ),
                    forall|t: int|
                        0 <= t < s ==> near_points@.contains(
                            #[trigger] points[p as int].encoded_key@.parent().child(t).morton() as u64,
                        ),
                    forall|m: u64| #[trigger]
                        near_points@.contains(m) ==> exists|q: int, s: int|
                            0 <= q < points.len() && 0 <= s < 8 && #[trigger] points[q].encoded_key@.parent().child(
                                s,
                            ).morton() == m,
                decreases 8 - s,
            {
                proof {
                    lemma_wf_view(siblings[s as int]);
                    assert(points[p as int].encoded_key@.parent().child(s as int).morton()
                        == siblings[s as int].morton);
                }
                near_points.insert(siblings[s].morton);
                s = s + 1;
            }
            p = p + 1;
        }
        let mut kept: Vec<MortonKey> = Vec::new();
        let mut k: usize = 0;
        while k < unmapped.len()
            invariant
                k <= unmapped.len(),
                all_wf(unmapped@),
                forall|k: int| 0 <= k < unmapped.len() ==> (#[trigger] unmapped[k])@.level == depth,
                all_wf(kept@),
                forall|j: int|
                    0 <= j < kept.len() ==> (#[trigger] kept[j])@.level == depth && near_points@.contains(
                        kept[j].morton,
                    ) && unmapped@.contains(kept[j]),
                forall|j: int|
                    0 <= j < k && near_points@.contains((#[trigger] unmapped[j]).morton)
                        ==> kept@.contains(unmapped[j]),
            decreases unmapped.len() - k,
        {
            let ghost before = kept@;
            if near_points.contains(&unmapped[k].morton) {
                kept.push(unmapped[k]);
                proof {
                    assert(kept@[kept.len() - 1] == unmapped[k as int]);
                }
            }
            proof {
                assert forall|j: int|
                    0 <= j < k + 1 && near_points@.contains(
                        (#[trigger] unmapped[j]).morton,
                    ) implies kept@.contains(unmapped[j]) by {
                    if j < k {
                        assert(before.contains(unmapped[j]));
                        let w = choose|w: int| 0 <= w < before.len() && before[w] == unmapped[j];
                        assert(kept@[w] == unmapped[j]);
                    }
                }
            }
            k = k + 1;
        }
        let tree = MultiNodeTree::assemble(rank as u64, depth, points, &kept);
        proof {
            assert(points[0].encoded_key@ == least@ && points[points.len() - 1].encoded_key@
                == greatest@);
            lemma_sparse_leaves(
                tree.leaves@,
                points@,
                nodes@,
                unmapped@,
                kept@,
                near_points@,
                lo,
                hi,
                depth,
            );
            assert forall|level: u64| level <= depth implies #[trigger] tree.levels_to_keys@.contains_key(
                level,
            ) by {
                lemma_levels_present(tree, 0, level);
            }
        }
        tree
    }

    /// The tree of one process, of the depth that `minimum_depth` estimates
    /// for the given number of points of all processes and the bound
    /// `n_crit` on the points of a leaf, `N_CRIT` where none is given;
    /// sparse or not.
    pub fn new(
        rank: i32,
        size: i32,
        base_keys: &[MortonKey],
        nglobal_points: u64,
        n_crit: Option<u64>,
        sparse: bool,
        global_idxs: &[usize],
    ) -> (tree: MultiNodeTree)
        requires
            size >= 1,
            0 <= rank < size,
            base_keys.len() > 0,
            base_keys.len() <= global_idxs.len(),
            all_wf(base_keys@),
            forall|i: int| 0 <= i < base_keys.len() ==> (#[trigger] base_keys[i])@.level == DEEPEST_LEVEL,
            eighth(
                nglobal_points as int / size as int,
                10,
            ) <= (match n_crit {
                Some(n) => n,
                None => N_CRIT,
            }),
            sparse ==> eighth(nglobal_points as int / size as int, 0) > (match n_crit {
                Some(n) => n,
                None => N_CRIT,
            }),
        ensures
            tree.wf(),
            tree.points.len() == base_keys.len(),
            tree.range[0] == rank,
            eighth(nglobal_points as int / size as int, tree.depth as nat) <= (match n_crit {
                Some(n) => n,
                None => N_CRIT,
            }),
            forall|l: nat|
                l < tree.depth ==> #[trigger] eighth(nglobal_points as int / size as int, l)
                    > (match n_crit {
                    Some(n) => n,
                    None => N_CRIT,
                }),
            forall|l: int| 0 <= l < tree.leaves.len() ==> (#[trigger] tree.leaves[l])@.level == tree.depth,
            forall|level: u64|
                level <= tree.depth ==> #[trigger] tree.levels_to_keys@.contains_key(level),
            holds_given(tree.points@, base_keys@, global_idxs@, tree.depth),
            sparse ==> is_sparse_leaves(tree.leaves@, tree.points@, tree.depth),
            !sparse ==> is_block_tree(tree.leaves@, tree.points@, rank, size, tree.depth),
            forall|i: int|
                0 <= i < tree.points.len() ==> is_given(base_keys@, global_idxs@, #[trigger] tree.points[i])
                    && tree.points[i].encoded_key@.level == tree.depth && holds_base(
                    tree.points[i].encoded_key,
                    tree.points[i].base_key,
                ),
            forall|j: int|
                0 <= j < base_keys.len() ==> holds_point(
                    tree.points@,
                    #[trigger] base_keys[j],
                    global_idxs[j],
                ),
    {
        let n_crit = match n_crit {
            Some(n) => n,
            None => N_CRIT,
        };
        let depth = MultiNodeTree::minimum_depth(nglobal_points, n_crit, size as u64);
        proof {
            if depth > 10 {
                assert(eighth(nglobal_points as int / size as int, 10) > n_crit);
            }
        }
        if sparse {
            MultiNodeTree::uniform_tree_sparse(rank, base_keys, depth, global_idxs)
        } else {
            MultiNodeTree::uniform_tree(rank, size, base_keys, depth, global_idxs)
        }
    }
}

} // verus!
