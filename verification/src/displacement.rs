//! Displacement tables of the sibling-group translation: for each of the 26
//! directions and each parent, where the children of the parent's neighbour
//! in that direction stand among the keys of the level.

use vstd::prelude::*;
use std::collections::HashMap;
use crate::morton::MortonKey;
use crate::morton::Octant;
use crate::morton::all_wf;
use crate::morton::lemma_wf_view;
use crate::morton::lemma_side_bound;
use crate::morton::lemma_interleave_bound;
use crate::morton::lemma_interleave_injective;
use crate::morton::grid_side;
use crate::morton::DEEPEST_LEVEL;
use crate::morton::NNEIGHBOURS;
use crate::parents::is_parent_list;
use crate::morton::has_view;
use crate::tree::MultiNodeTree;
use crate::tree::indexes;
use crate::tree::is_ancestor_in;

verus! {

broadcast use vstd::std_specs::hash::group_hash_axioms;

/// Entry of the table for `parent` and direction `i`: the slot of the first
/// child of the parent's neighbour in that direction, where `index` holds
/// that child, and else the slot just behind the last sibling group.
pub open spec fn sibling_displacement(
    parent: Octant,
    i: int,
    index: Map<u64, usize>,
    nparents: int,
) -> int {
    let around = parent.neighbour(i);
    let first = around.child(0).morton() as u64;
    if around.valid() && index.contains_key(first) {
        index[first] as int
    } else {
        8 * nparents
    }
}

/// `table` holds, for each direction and each parent, the entry that
/// `sibling_displacement` gives.
pub open spec fn is_sibling_table(
    table: Seq<Vec<usize>>,
    parents: Seq<MortonKey>,
    index: Map<u64, usize>,
) -> bool {
    &&& table.len() == NNEIGHBOURS
    &&& forall|i: int| 0 <= i < 26 ==> (#[trigger] table[i]).len() == parents.len()
    &&& forall|i: int, p: int|
        0 <= i < 26 && 0 <= p < parents.len() ==> #[trigger] table[i][p] == sibling_displacement(
            parents[p]@,
            i,
            index,
            parents.len() as int,
        )
}

/// Two boxes of the domain with the same 64-bit code are the same box.
pub proof fn lemma_morton_injective(a: Octant, b: Octant)
    requires
        a.valid(),
        b.valid(),
        a.morton() == b.morton(),
    ensures
        a == b,
{
    let sa = grid_side(DEEPEST_LEVEL - a.level);
    let sb = grid_side(DEEPEST_LEVEL - b.level);
    lemma_side_bound(DEEPEST_LEVEL - a.level);
    lemma_side_bound(DEEPEST_LEVEL - b.level);
    lemma_interleave_bound(a.x * sa, a.y * sa, a.z * sa, 16);
    lemma_interleave_bound(b.x * sb, b.y * sb, b.z * sb, 16);
    assert(a.level == b.level);
    lemma_anchor_bound(a.x, a.level);
    lemma_anchor_bound(a.y, a.level);
    lemma_anchor_bound(a.z, a.level);
    lemma_anchor_bound(b.x, b.level);
    lemma_anchor_bound(b.y, b.level);
    lemma_anchor_bound(b.z, b.level);
    vstd::arithmetic::power2::lemma2_to64();
    lemma_interleave_injective(a.x * sa, a.y * sa, a.z * sa, b.x * sb, b.y * sb, b.z * sb, 16);
    lemma_cancel(a.x, b.x, sa);
    lemma_cancel(a.y, b.y, sa);
    lemma_cancel(a.z, b.z, sa);
}

/// A grid coordinate of a level, scaled to the deepest level, lies in the
/// domain.
proof fn lemma_anchor_bound(x: int, level: int)
    requires
        0 <= level <= DEEPEST_LEVEL,
        0 <= x < grid_side(level),
    ensures
        0 <= x * grid_side(DEEPEST_LEVEL - level) < 65536,
{
    let shift = grid_side(DEEPEST_LEVEL - level);
    let side = grid_side(level);
    vstd::arithmetic::power2::lemma_pow2_adds(level as nat, (16 - level) as nat);
    vstd::arithmetic::power2::lemma2_to64();
    lemma_side_bound(DEEPEST_LEVEL - level);
    assert(0 <= x * shift < 65536) by (nonlinear_arith)
        requires
            0 <= x < side,
            0 < shift,
            side * shift == 65536,
    ;
}

/// Equal multiples of a positive number come from equal factors.
proof fn lemma_cancel(a: int, b: int, c: int)
    by (nonlinear_arith)
    requires
        c > 0,
        a * c == b * c,
    ensures
        a == b,
{
}

/// The displacement table of the sibling-group translation, from the parents
/// of a level's keys and the map from a key's code to its slot in the level.
pub fn sibling_displacements(parents: &[MortonKey], index: &HashMap<u64, usize>) -> (table: Vec<
    Vec<usize>,
>)
    requires
        all_wf(parents@),
        forall|p: int| 0 <= p < parents.len() ==> (#[trigger] parents[p])@.level < DEEPEST_LEVEL,
        8 * parents.len() <= usize::MAX,
    ensures
        is_sibling_table(table@, parents@, index@),
{
    let nparents = parents.len();
    let sentinel = nparents * 8;
    let mut parent_neighbors: Vec<Vec<Option<MortonKey>>> = Vec::new();
    let mut p: usize = 0;
    while p < nparents
        invariant
            p <= nparents,
            nparents == parents.len(),
            all_wf(parents@),
            parent_neighbors.len() == p,
            forall|q: int|
                0 <= q < p ==> (#[trigger] parent_neighbors[q]).len() == 26 && forall|i: int|
                    0 <= i < 26 ==> match #[trigger] parent_neighbors[q][i] {
                        Some(k) => k.wf() && k@ == parents[q]@.neighbour(i),
                        None => !parents[q]@.neighbour(i).valid(),
                    },
        decreases nparents - p,
    {
        let around = parents[p].all_neighbors();
        parent_neighbors.push(around);
        p = p + 1;
    }
    let mut table: Vec<Vec<usize>> = Vec::new();
    let mut i: usize = 0;
    while i < 26
        invariant
            i <= 26,
            nparents == parents.len(),
            sentinel == 8 * nparents,
            all_wf(parents@),
            forall|p: int| 0 <= p < parents.len() ==> (#[trigger] parents[p])@.level < DEEPEST_LEVEL,
            parent_neighbors.len() == nparents,
            forall|q: int|
                0 <= q < nparents ==> (#[trigger] parent_neighbors[q]).len() == 26 && forall|i: int|
                    0 <= i < 26 ==> match #[trigger] parent_neighbors[q][i] {
                        Some(k) => k.wf() && k@ == parents[q]@.neighbour(i),
                        None => !parents[q]@.neighbour(i).valid(),
                    },
            table.len() == i,
            forall|j: int| 0 <= j < i ==> (#[trigger] table[j]).len() == nparents,
            forall|j: int, q: int|
                0 <= j < i && 0 <= q < nparents ==> #[trigger] table[j][q] == sibling_displacement(
                    parents[q]@,
                    j,
                    index@,
                    nparents as int,
                ),
        decreases 26 - i,
    {
        let mut row: Vec<usize> = Vec::new();
        let mut p: usize = 0;
        while p < nparents
            invariant
                p <= nparents,
                i < 26,
                nparents == parents.len(),
                sentinel == 8 * nparents,
                all_wf(parents@),
                forall|p: int|
                    0 <= p < parents.len() ==> (#[trigger] parents[p])@.level < DEEPEST_LEVEL,
                parent_neighbors.len() == nparents,
                forall|q: int|
                    0 <= q < nparents ==> (#[trigger] parent_neighbors[q]).len() == 26 && forall|
                        i: int,
                    |
                        0 <= i < 26 ==> match #[trigger] parent_neighbors[q][i] {
                            Some(k) => k.wf() && k@ == parents[q]@.neighbour(i),
                            None => !parents[q]@.neighbour(i).valid(),
                        },
                row.len() == p,
                forall|q: int|
                    0 <= q < p ==> #[trigger] row[q] == sibling_displacement(
                        parents[q]@,
                        i as int,
                        index@,
                        nparents as int,
                    ),
            decreases nparents - p,
        {
            let entry = match parent_neighbors[p][i] {
                Some(neighbor) => {
                    proof {
                        lemma_wf_view(parents[p as int]);
                        lemma_wf_view(neighbor);
                    }
                    let first_child = neighbor.first_child();
                    proof {
                        lemma_wf_view(first_child);
                    }
                    match index.get(&first_child.morton) {
                        Some(first_child_index) => *first_child_index,
                        None => sentinel,
                    }
                },
                None => sentinel,
            };
            row.push(entry);
            p = p + 1;
        }
        table.push(row);
        i = i + 1;
    }
    table
}

/// A box of a tree below the root has its parent in the tree.
pub proof fn lemma_parent_in_tree(tree: MultiNodeTree, q: int)
    requires
        tree.wf(),
        0 <= q < tree.keys.len(),
        tree.keys[q]@.level >= 1,
    ensures
        tree.keys_set@.contains(tree.keys[q]@.parent().morton() as u64),
{
    reveal(is_ancestor_in);
    let o = tree.keys[q]@;
    assert(is_ancestor_in(tree.leaves@, tree.keys[q]@));
    let l = choose|l: int|
        0 <= l < tree.leaves.len() && o.level <= tree.leaves[l]@.level && tree.leaves[l]@.ancestor(
            (tree.leaves[l]@.level - o.level) as nat,
        ) == o;
    let leaf = tree.leaves[l]@;
    let up = (leaf.level - o.level) as nat;
    assert(leaf.ancestor((up + 1) as nat) == leaf.ancestor(up).parent());
    let above = o.level - 1;
    assert(has_view(tree.keys@, tree.leaves[l]@.ancestor((tree.leaves[l]@.level - above) as nat)));
    let r = choose|r: int| 0 <= r < tree.keys.len() && tree.keys[r]@ == o.parent();
    lemma_wf_view(tree.keys[r]);
    assert(tree.keys_set@.contains(tree.keys[r].morton));
}

/// The key at a slot of a level of a tree is one of the keys of the tree,
/// well formed and of that level.
pub proof fn lemma_level_key(tree: MultiNodeTree, level: u64, slot: int)
    requires
        tree.wf(),
        tree.levels_to_keys@.contains_key(level),
        0 <= slot < tree.level_keys(level).len(),
    ensures
        tree.levels_to_keys@[level].0 + slot < tree.keys.len(),
        tree.level_keys(level)[slot] == tree.keys[tree.levels_to_keys@[level].0 + slot],
        tree.level_keys(level)[slot].wf(),
        tree.level_keys(level)[slot]@.level == level,
{
    let (start, end) = tree.levels_to_keys@[level];
    assert(tree.keys[start + slot].wf());
}

/// The entries of a table for keys of one level whose parents all stand in
/// a set of codes.
proof fn lemma_sibling_entry(
    table: Seq<Vec<usize>>,
    parents: Seq<MortonKey>,
    keys: Seq<MortonKey>,
    index: Map<u64, usize>,
    tree: Set<u64>,
    level: int,
    p: int,
    i: int,
)
    requires
        all_wf(keys),
        1 <= level <= DEEPEST_LEVEL,
        forall|k: int| 0 <= k < keys.len() ==> (#[trigger] keys[k])@.level == level,
        forall|k: int|
            0 <= k < keys.len() ==> tree.contains((#[trigger] keys[k])@.parent().morton() as u64),
        is_parent_list(parents, keys),
        indexes(index, keys),
        is_sibling_table(table, parents, index),
        0 <= p < parents.len(),
        0 <= i < 26,
    ensures
        ({
            let around = parents[p]@.neighbour(i);
            let first = around.child(0).morton() as u64;
            &&& around.valid() && index.contains_key(first) ==> tree.contains(around.morton() as u64)
                && table[i][p] < keys.len() && keys[table[i][p] as int]@ == around.child(0)
            &&& !around.valid() || !index.contains_key(first) ==> table[i][p] == 8 * parents.len()
        }),
{
    let around = parents[p]@.neighbour(i);
    lemma_wf_view(parents[p]);
    assert(crate::parents::has_child_of(keys, parents[p]@));
    let c = choose|c: int| 0 <= c < keys.len() && keys[c]@.parent() == parents[p]@;
    assert(around.level == level - 1);
    assert(table[i][p] == sibling_displacement(parents[p]@, i, index, parents.len() as int));
    if around.valid() {
        let first = around.child(0);
        if index.contains_key(first.morton() as u64) {
            let slot = index[first.morton() as u64];
            let key = keys[slot as int];
            lemma_wf_view(key);
            lemma_child_valid(around, 0);
            lemma_morton_fits(first);
            lemma_morton_injective(key@, first);
            assert(first.parent() == around);
            assert(tree.contains(keys[slot as int]@.parent().morton() as u64));
        }
    }
}

/// Displacement consistency of the sibling-group table. Take a level of a
/// tree, the map from the codes of its keys to their slots, and the parents
/// of the keys. Then for every parent and every direction: where the
/// parent's neighbour in that direction is in the tree and its first child
/// is among the keys, the entry is the slot of that child; and where the
/// neighbour lies outside the domain, is not in the tree, or has no first
/// child among the keys, the entry is eight times the number of parents.
pub proof fn lemma_sibling_displacement_consistency(
    table: Seq<Vec<usize>>,
    parents: Seq<MortonKey>,
    index: Map<u64, usize>,
    tree: MultiNodeTree,
    level: u64,
    p: int,
    i: int,
)
    requires
        tree.wf(),
        level >= 1,
        tree.levels_to_keys@.contains_key(level),
        is_parent_list(parents, tree.level_keys(level)),
        indexes(index, tree.level_keys(level)),
        is_sibling_table(table, parents, index),
        0 <= p < parents.len(),
        0 <= i < 26,
    ensures
        ({
            let keys = tree.level_keys(level);
            let around = parents[p]@.neighbour(i);
            let first = around.child(0).morton() as u64;
            &&& around.valid() && tree.keys_set@.contains(around.morton() as u64)
                && index.contains_key(first) ==> table[i][p] < keys.len() && keys[table[i][p] as int]@
                == around.child(0)
            &&& !around.valid() || !tree.keys_set@.contains(around.morton() as u64) ==> table[i][p]
                == 8 * parents.len()
            &&& !around.valid() || !index.contains_key(first) ==> table[i][p] == 8 * parents.len()
        }),
{
    let keys = tree.level_keys(level);
    assert forall|k: int| 0 <= k < keys.len() implies (#[trigger] keys[k]).wf() && keys[k]@.level
        == level && tree.keys_set@.contains(keys[k]@.parent().morton() as u64) by {
        lemma_level_key(tree, level, k);
        lemma_parent_in_tree(tree, tree.levels_to_keys@[level].0 + k);
    }
    lemma_sibling_entry(table, parents, keys, index, tree.keys_set@, level as int, p, i);
}

/// The children of a box of the domain above the deepest level are boxes of
/// the domain.
pub proof fn lemma_child_valid(parent: Octant, s: int)
    requires
        parent.valid(),
        parent.level < DEEPEST_LEVEL,
        0 <= s < 8,
    ensures
        parent.child(s).valid(),
{
    vstd::arithmetic::power2::lemma_pow2_unfold((parent.level + 1) as nat);
}

/// The 64-bit code of a box of the domain fits in 64 bits.
pub proof fn lemma_morton_fits(o: Octant)
    requires
        o.valid(),
    ensures
        0 <= o.morton() <= u64::MAX,
        o.morton() % 32768 == o.level,
{
    let s = grid_side(DEEPEST_LEVEL - o.level);
    lemma_interleave_bound(o.x * s, o.y * s, o.z * s, 16);
    vstd::arithmetic::power2::lemma2_to64_rest();
}

} // verus!
