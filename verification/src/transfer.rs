//! Interaction lists and the displacement table of the low-rank translation:
//! for each transfer vector and each source, the slot of the target that
//! lies at that offset from the source.

use vstd::prelude::*;
use std::collections::HashMap;
use std::collections::HashSet;
use crate::morton::MortonKey;
use crate::morton::Octant;
use crate::morton::all_wf;
use crate::morton::transfer_hash;
use crate::morton::positive_map;
use crate::morton::lemma_wf_view;
use crate::morton::lemma_adjacent_same_level;
use crate::morton::lemma_transfer_hash_sum;
use crate::morton::distinct_views;
use crate::morton::has_view;
use crate::morton::near;
use crate::morton::views;
use crate::morton::DEEPEST_LEVEL;
use crate::morton::grid_side;
use crate::morton::lemma_same_view;
use crate::tree::MultiNodeTree;
use crate::tree::strictly_sorted;
use crate::displacement::lemma_morton_fits;
use crate::displacement::lemma_morton_injective;

verus! {

broadcast use vstd::std_specs::hash::group_hash_axioms;

/// Number of offsets at which a box of an interaction list can lie.
pub const NTRANSFER_VECTORS_KIFMM: usize = 316;

/// An offset between a target and a source, with its hash.
#[derive(Clone, Copy, Debug)]
pub struct TransferVector {
    /// The offset, in boxes of the level of the two keys.
    pub components: [i64; 3],
    /// Hash of the offset.
    pub hash: u64,
}

/// `target` is in the interaction list of `source`: a box of the tree, of
/// the level of `source`, whose parent is next to the parent of `source`
/// and which is not itself next to `source`.
pub open spec fn in_v_list(source: Octant, target: Octant, tree: Set<u64>) -> bool {
    &&& target.valid()
    &&& target.level == source.level
    &&& near(source.parent(), target.parent())
    &&& !source.adjacent(target)
    &&& tree.contains(target.morton() as u64)
}

/// An offset at which a box of an interaction list can lie: at most three
/// boxes along every axis, and at least two along one.
pub open spec fn admissible(dx: int, dy: int, dz: int) -> bool {
    &&& -3 <= dx <= 3
    &&& -3 <= dy <= 3
    &&& -3 <= dz <= 3
    &&& (dx <= -2 || dx >= 2 || dy <= -2 || dy >= 2 || dz <= -2 || dz >= 2)
}

/// `entry` is what the table holds for `source` and the hash `hash`: the slot
/// of the box of the interaction list of `source` at the offset with that
/// hash, or -1 where the list has no box there.
pub open spec fn is_transfer_entry(
    entry: i64,
    source: Octant,
    hash: u64,
    tree: Set<u64>,
    index: Map<u64, usize>,
) -> bool {
    if exists|t: Octant| in_v_list(source, t, tree) && #[trigger] t.transfer_vector(source) == hash {
        exists|t: Octant|
            in_v_list(source, t, tree) && #[trigger] t.transfer_vector(source) == hash && entry
                == index[t.morton() as u64]
    } else {
        entry == -1
    }
}

/// `table` holds a row for each of the 316 transfer vectors and in each row
/// an entry for each source; rows beyond the given transfer vectors hold -1.
pub open spec fn is_transfer_table(
    table: Seq<Vec<i64>>,
    sources: Seq<MortonKey>,
    transfer_vectors: Seq<TransferVector>,
    tree: Set<u64>,
    index: Map<u64, usize>,
) -> bool {
    &&& table.len() == NTRANSFER_VECTORS_KIFMM
    &&& forall|i: int| 0 <= i < 316 ==> (#[trigger] table[i]).len() == sources.len()
    &&& forall|i: int, j: int|
        0 <= i < 316 && 0 <= j < sources.len() ==> if i < transfer_vectors.len() {
            is_transfer_entry(#[trigger] table[i][j], sources[j]@, transfer_vectors[i].hash, tree, index)
        } else {
            table[i][j] == -1
        }
}

/// The offset between two boxes of an interaction list is admissible.
pub proof fn lemma_v_list_admissible(source: Octant, target: Octant, tree: Set<u64>)
    requires
        source.valid(),
        in_v_list(source, target, tree),
    ensures
        admissible(target.x - source.x, target.y - source.y, target.z - source.z),
{
    lemma_adjacent_same_level(source, target);
}

/// The hash tells admissible offsets apart.
pub proof fn lemma_hash_injective(dx: int, dy: int, dz: int, ex: int, ey: int, ez: int)
    requires
        -32768 < dx < 32768,
        -32768 < dy < 32768,
        -32768 < dz < 32768,
        -32768 < ex < 32768,
        -32768 < ey < 32768,
        -32768 < ez < 32768,
        transfer_hash(dx, dy, dz) == transfer_hash(ex, ey, ez),
    ensures
        dx == ex,
        dy == ey,
        dz == ez,
{
    lemma_transfer_hash_sum(dx, dy, dz);
    lemma_transfer_hash_sum(ex, ey, ez);
    lemma_digits(
        positive_map(dx),
        positive_map(dy),
        positive_map(dz),
        positive_map(ex),
        positive_map(ey),
        positive_map(ez),
    );
}

/// Three digits below `2^16` are read off their weighted sum.
proof fn lemma_digits(a: int, b: int, c: int, d: int, e: int, f: int)
    requires
        0 <= a < 0x1_0000,
        0 <= b < 0x1_0000,
        0 <= c < 0x1_0000,
        0 <= d < 0x1_0000,
        0 <= e < 0x1_0000,
        0 <= f < 0x1_0000,
        a * 0x1_0000_0000 + b * 0x1_0000 + c == d * 0x1_0000_0000 + e * 0x1_0000 + f,
    ensures
        a == d,
        b == e,
        c == f,
{
    assert(c == f) by {
        assert((a * 0x1_0000 + b) * 0x1_0000 + c == (d * 0x1_0000 + e) * 0x1_0000 + f);
        if a * 0x1_0000 + b < d * 0x1_0000 + e {
            assert((a * 0x1_0000 + b) * 0x1_0000 + 0x1_0000 <= (d * 0x1_0000 + e) * 0x1_0000);
        }
        if a * 0x1_0000 + b > d * 0x1_0000 + e {
            assert((d * 0x1_0000 + e) * 0x1_0000 + 0x1_0000 <= (a * 0x1_0000 + b) * 0x1_0000);
        }
    }
    assert(b == e) by {
        if a < d {
            assert(a * 0x1_0000 + 0x1_0000 <= d * 0x1_0000);
        }
        if a > d {
            assert(d * 0x1_0000 + 0x1_0000 <= a * 0x1_0000);
        }
    }
}

/// An interaction list has at most one box at an offset with a given hash.
pub proof fn lemma_v_list_unique(source: Octant, a: Octant, b: Octant, tree: Set<u64>)
    requires
        source.valid(),
        in_v_list(source, a, tree),
        in_v_list(source, b, tree),
        a.transfer_vector(source) == b.transfer_vector(source),
    ensures
        a == b,
{
    lemma_v_list_admissible(source, a, tree);
    lemma_v_list_admissible(source, b, tree);
    lemma_hash_injective(
        a.x - source.x,
        a.y - source.y,
        a.z - source.z,
        b.x - source.x,
        b.y - source.y,
        b.z - source.z,
    );
}

/// Every box next to a box is its neighbour in one of the 26 directions.
pub proof fn lemma_near_is_neighbour(a: Octant, b: Octant) -> (i: int)
    requires
        near(a, b),
    ensures
        0 <= i < 26,
        a.neighbour(i) == b,
{
    let j = 9 * (b.x - a.x + 1) + 3 * (b.y - a.y + 1) + (b.z - a.z + 1);
    let i = if j < 13 {
        j
    } else {
        j - 1
    };
    assert(j != 13);
    i
}

/// A box below the root is the child of its parent that its sibling index
/// names.
pub proof fn lemma_child_of_parent(o: Octant)
    requires
        o.level >= 1,
    ensures
        o.parent().child(o.sibling_index()) == o,
        0 <= o.sibling_index() < 8,
{
}

/// The parent of a box of the domain below the root is a box of the domain.
pub proof fn lemma_parent_valid(o: Octant)
    requires
        o.valid(),
        o.level >= 1,
    ensures
        o.parent().valid(),
{
    vstd::arithmetic::power2::lemma_pow2_unfold(o.level as nat);
}

/// Place of the box `t` among the 216 children of the 27 boxes around and
/// with the parent of `source`.
pub open spec fn block_place(source: Octant, t: Octant) -> int {
    let p = source.parent();
    36 * (t.x - 2 * p.x + 2) + 6 * (t.y - 2 * p.y + 2) + (t.z - 2 * p.z + 2)
}

/// The `m`-th of the 27 boxes around and with `source`.
pub open spec fn beside(source: Octant, m: int) -> Octant {
    source.shifted(m / 9 - 1, (m / 3) % 3 - 1, m % 3 - 1)
}

/// A box of the interaction list of `source` lies among the 216 children
/// of the boxes around and with the parent of `source`, two boxes or more
/// from `source` along some axis.
proof fn lemma_in_block(source: Octant, t: Octant, tree: Set<u64>)
    requires
        source.valid(),
        source.level >= 1,
        in_v_list(source, t, tree),
    ensures
        0 <= t.x - 2 * source.parent().x + 2 < 6,
        0 <= t.y - 2 * source.parent().y + 2 < 6,
        0 <= t.z - 2 * source.parent().z + 2 < 6,
        admissible(t.x - source.x, t.y - source.y, t.z - source.z),
{
    lemma_v_list_admissible(source, t, tree);
}

/// Places in a block of six by six by six boxes tell the boxes apart.
proof fn lemma_places_differ(ax: int, ay: int, az: int, bx: int, by: int, bz: int)
    requires
        0 <= ax < 6,
        0 <= ay < 6,
        0 <= az < 6,
        0 <= bx < 6,
        0 <= by < 6,
        0 <= bz < 6,
        ax != bx || ay != by || az != bz,
    ensures
        36 * ax + 6 * ay + az != 36 * bx + 6 * by + bz,
        0 <= 36 * ax + 6 * ay + az < 216,
{
}

/// The places of the boxes of an interaction list and of the 27 boxes around
/// and with the source are 216 at most and all different.
proof fn lemma_block_places(source: Octant, list: Seq<MortonKey>, tree: Set<u64>, a: int, b: int)
    requires
        source.valid(),
        source.level >= 1,
        distinct_views(list),
        forall|k: int| 0 <= k < list.len() ==> in_v_list(source, (#[trigger] list[k])@, tree),
        0 <= a < b < list.len() + 27,
    ensures
        ({
            let far = Seq::new(list.len(), |k: int| block_place(source, list[k]@));
            let close = Seq::new(27, |m: int| block_place(source, beside(source, m)));
            &&& 0 <= (far + close)[a] < 216
            &&& 0 <= (far + close)[b] < 216
            &&& (far + close)[a] != (far + close)[b]
        }),
{
    let p = source.parent();
    let n = list.len() as int;
    let first = if a < n {
        list[a]@
    } else {
        beside(source, a - n)
    };
    let second = if b < n {
        list[b]@
    } else {
        beside(source, b - n)
    };
    if a < n {
        assert(in_v_list(source, list[a]@, tree));
        lemma_in_block(source, first, tree);
    }
    if b < n {
        assert(in_v_list(source, list[b]@, tree));
        lemma_in_block(source, second, tree);
        assert(list[a]@ != list[b]@);
    }
    assert(first.level == source.level && second.level == source.level);
    assert(first.x != second.x || first.y != second.y || first.z != second.z);
    lemma_places_differ(
        first.x - 2 * p.x + 2,
        first.y - 2 * p.y + 2,
        first.z - 2 * p.z + 2,
        second.x - 2 * p.x + 2,
        second.y - 2 * p.y + 2,
        second.z - 2 * p.z + 2,
    );
    lemma_places_differ(
        second.x - 2 * p.x + 2,
        second.y - 2 * p.y + 2,
        second.z - 2 * p.z + 2,
        first.x - 2 * p.x + 2,
        first.y - 2 * p.y + 2,
        first.z - 2 * p.z + 2,
    );
}

/// An interaction list has at most 189 boxes: of the 216 children of the 27
/// boxes around and with the parent of the source, the 27 boxes around and
/// with the source are left out.
pub proof fn lemma_v_list_count(source: Octant, list: Seq<MortonKey>, tree: Set<u64>)
    requires
        source.valid(),
        source.level >= 1,
        distinct_views(list),
        forall|k: int| 0 <= k < list.len() ==> in_v_list(source, (#[trigger] list[k])@, tree),
    ensures
        list.len() <= 189,
{
    let far = Seq::new(list.len(), |k: int| block_place(source, list[k]@));
    let close = Seq::new(27, |m: int| block_place(source, beside(source, m)));
    let all = far + close;
    assert(all.len() == list.len() + 27);
    assert forall|a: int, b: int| 0 <= a < b < all.len() implies all[a] != all[b] && 0 <= all[a]
        < 216 && 0 <= all[b] < 216 by {
        lemma_block_places(source, list, tree, a, b);
    }
    assert(all.no_duplicates());
    all.unique_seq_to_set();
    vstd::set_lib::lemma_int_range(0, 216);
    assert(all.to_set().subset_of(vstd::set_lib::set_int_range(0, 216))) by {
        assert forall|v: int| all.to_set().contains(v) implies vstd::set_lib::set_int_range(
            0,
            216,
        ).contains(v) by {
            let a = choose|a: int| 0 <= a < all.len() && all[a] == v;
            if a + 1 < all.len() {
                lemma_block_places(source, list, tree, a, a + 1);
            } else {
                lemma_block_places(source, list, tree, a - 1, a);
            }
        }
    }
    vstd::set_lib::lemma_len_subset(all.to_set(), vstd::set_lib::set_int_range(0, 216));
}

/// Where the child `s` of the box `a` around `parent` stands among the
/// children of all boxes around it.
proof fn lemma_cousin(parent: Octant, a: int, s: int)
    requires
        0 <= a < parent.neighbours().len(),
        0 <= s < 8,
    ensures
        0 <= 8 * a + s < cousins(parent).len(),
        cousins(parent)[8 * a + s] == parent.neighbours()[a].child(s),
{
}

/// One more item looked at: the items kept of the first `place + 1` are
/// those kept of the first `place`, and the next where it is kept.
proof fn lemma_filter_step<A>(
    all: Seq<A>,
    place: int,
    wanted: spec_fn(A) -> bool,
    before: Seq<A>,
    after: Seq<A>,
    item: A,
    keep: bool,
)
    requires
        0 <= place < all.len(),
        all[place] == item,
        keep == wanted(item),
        before == all.take(place).filter(wanted),
        after == (if keep {
            before.push(item)
        } else {
            before
        }),
    ensures
        after == all.take(place + 1).filter(wanted),
{
    reveal(Seq::filter);
    assert(all.take(place + 1).drop_last() =~= all.take(place));
    assert(all.take(place + 1).last() == item);
}

/// The children of the boxes of the domain around `parent`: box after box
/// in the order of the directions, and the children of a box in their own
/// order.
pub open spec fn cousins(parent: Octant) -> Seq<Octant> {
    Seq::new(
        8 * parent.neighbours().len(),
        |k: int| parent.neighbours()[k / 8].child(k % 8),
    )
}

/// The interaction list of `source`: the keys of the boxes of the tree whose
/// parents are next to the parent of `source` and which are not themselves
/// next to `source`. `tree` holds the codes of the keys of the tree.
pub fn interaction_list(source: &MortonKey, tree: &HashSet<u64>) -> (list: Vec<MortonKey>)
    requires
        source.wf(),
        source@.level >= 1,
    ensures
        all_wf(list@),
        list.len() <= 189,
        forall|k: int| 0 <= k < list.len() ==> in_v_list(source@, (#[trigger] list[k])@, tree@),
        forall|t: Octant| in_v_list(source@, t, tree@) ==> #[trigger] has_view(list@, t),
        distinct_views(list@),
        views(list@) == cousins(source@.parent()).filter(|t: Octant| in_v_list(source@, t, tree@)),
{
    proof {
        lemma_wf_view(*source);
    }
    let parent = source.parent();
    let around = parent.neighbors();
    let mut list: Vec<MortonKey> = Vec::new();
    let mut a: usize = 0;
    let ghost mut from: Seq<(int, int)> = Seq::empty();
    let ghost all = cousins(parent@);
    let ghost wanted = |t: Octant| in_v_list(source@, t, tree@);
    proof {
        reveal(Seq::filter);
        assert(all.take(0) =~= Seq::<Octant>::empty());
        assert(views(list@) =~= all.take(0).filter(wanted));
    }
    while a < around.len()
        invariant
            a <= around.len() <= 26,
            source.wf(),
            source@.valid(),
            source@.level >= 1,
            parent.wf(),
            parent@ == source@.parent(),
            all_wf(around@),
            distinct_views(around@),
            views(around@) == parent@.neighbours(),
            all == cousins(parent@),
            wanted == (|t: Octant| in_v_list(source@, t, tree@)),
            views(list@) == all.take(8 * a).filter(wanted),
            from.len() == list.len(),
            forall|k: int|
                0 <= k < list.len() ==> 0 <= (#[trigger] from[k]).0 < a && 0 <= from[k].1 < 8
                    && list[k]@ == around[from[k].0]@.child(from[k].1),
            forall|k: int, l: int| 0 <= k < l < from.len() ==> from[k] != from[l],
            forall|b: int|
                0 <= b < around.len() ==> near(parent@, (#[trigger] around[b])@)
                    && around[b]@.valid(),
            all_wf(list@),
            list.len() <= 8 * a,
            forall|k: int| 0 <= k < list.len() ==> in_v_list(source@, (#[trigger] list[k])@, tree@),
            forall|b: int, s: int|
                0 <= b < a && 0 <= s < 8 && in_v_list(source@, around[b]@.child(s), tree@)
                    ==> #[trigger] has_view(list@, around[b]@.child(s)),
        decreases around.len() - a,
    {
        let children = around[a].children();
        let mut s: usize = 0;
        while s < 8
            invariant
                s <= 8,
                a < around.len() <= 26,
                source.wf(),
                source@.valid(),
                source@.level >= 1,
                parent.wf(),
                parent@ == source@.parent(),
                all_wf(around@),
                forall|b: int|
                    0 <= b < around.len() ==> near(parent@, (#[trigger] around[b])@)
                        && around[b]@.valid(),
                children.len() == 8,
                views(around@) == parent@.neighbours(),
                all == cousins(parent@),
                wanted == (|t: Octant| in_v_list(source@, t, tree@)),
                views(list@) == all.take(8 * a + s).filter(wanted),
                forall|t: int|
                    0 <= t < 8 ==> (#[trigger] children[t]).wf() && children[t]@ == around[a as int]@.child(
                        t,
                    ),
                from.len() == list.len(),
                forall|k: int|
                    0 <= k < list.len() ==> 0 <= (#[trigger] from[k]).0 <= a && 0 <= from[k].1 < 8
                        && (from[k].0 == a ==> from[k].1 < s) && list[k]@ == around[from[k].0]@.child(
                        from[k].1,
                    ),
                forall|k: int, l: int| 0 <= k < l < from.len() ==> from[k] != from[l],
                all_wf(list@),
                list.len() <= 8 * a + s,
                forall|k: int|
                    0 <= k < list.len() ==> in_v_list(source@, (#[trigger] list[k])@, tree@),
                forall|b: int, t: int|
                    0 <= b < a && 0 <= t < 8 && in_v_list(source@, around[b]@.child(t), tree@)
                        ==> #[trigger] has_view(list@, around[b]@.child(t)),
                forall|t: int|
                    0 <= t < s && in_v_list(source@, around[a as int]@.child(t), tree@)
                        ==> #[trigger] has_view(list@, around[a as int]@.child(t)),
            decreases 8 - s,
        {
            let child = children[s];
            let ghost before = list@;
            proof {
                lemma_wf_view(child);
                lemma_wf_view(around[a as int]);
                crate::morton::lemma_child_code(around[a as int]@, s as int);
            }
            let keep = !source.is_adjacent(&child) && tree.contains(&child.morton);
            if keep {
                list.push(child);
                proof {
                    assert(list@[list.len() - 1]@ == around[a as int]@.child(s as int));
                    from = from.push((a as int, s as int));
                }
            }
            proof {
                assert(views(around@)[a as int] == around[a as int]@);
                lemma_cousin(parent@, a as int, s as int);
                assert(keep == wanted(child@));
                if keep {
                    assert(views(list@) =~= views(before).push(child@));
                }
                lemma_filter_step(all, 8 * a + s, wanted, views(before), views(list@), child@, keep);
                assert forall|b: int, t: int|
                    0 <= b < a && 0 <= t < 8 && in_v_list(
                        source@,
                        around[b]@.child(t),
                        tree@,
                    ) implies #[trigger] has_view(list@, around[b]@.child(t)) by {
                    assert(has_view(before, around[b]@.child(t)));
                    let w = choose|w: int| 0 <= w < before.len() && before[w]@ == around[b]@.child(t);
                    assert(list@[w]@ == around[b]@.child(t));
                }
                assert forall|t: int|
                    0 <= t < s + 1 && in_v_list(
                        source@,
                        around[a as int]@.child(t),
                        tree@,
                    ) implies #[trigger] has_view(list@, around[a as int]@.child(t)) by {
                    if t < s {
                        assert(has_view(before, around[a as int]@.child(t)));
                        let w = choose|w: int|
                            0 <= w < before.len() && before[w]@ == around[a as int]@.child(t);
                        assert(list@[w]@ == around[a as int]@.child(t));
                    }
                }
            }
            s = s + 1;
        }
        a = a + 1;
    }
    proof {
        assert forall|k: int, l: int| 0 <= k < l < list.len() implies (#[trigger] list[k])@
            != (#[trigger] list[l])@ by {
            assert(from[k] != from[l]);
            let (ak, sk) = from[k];
            let (al, sl) = from[l];
            lemma_wf_view(around[ak]);
            lemma_wf_view(around[al]);
            crate::morton::lemma_child_code(around[ak]@, sk);
            crate::morton::lemma_child_code(around[al]@, sl);
            if ak != al {
                assert(around[ak]@ != around[al]@);
            }
        }
        lemma_v_list_count(source@, list@, tree@);
        assert(all.take(8 * around.len()) =~= all);
        assert forall|t: Octant| in_v_list(source@, t, tree@) implies #[trigger] has_view(
            list@,
            t,
        ) by {
            lemma_parent_valid(t);
            let i = lemma_near_is_neighbour(parent@, t.parent());
            assert(has_view(around@, parent@.neighbour(i)));
            let b = choose|b: int| 0 <= b < around.len() && around[b]@ == parent@.neighbour(i);
            lemma_child_of_parent(t);
            assert(around[b]@.child(t.sibling_index()) == t);
            assert(has_view(list@, around[b]@.child(t.sibling_index())));
        }
    }
    list
}

/// The entries of the table for one source: for each of the 316 rows, the
/// slot of the target at that row's offset, or -1.
fn transfer_column(
    source: &MortonKey,
    tree: &HashSet<u64>,
    index: &HashMap<u64, usize>,
    transfer_vectors: &[TransferVector],
) -> (column: Vec<i64>)
    requires
        source.wf(),
        source@.level >= 2,
        transfer_vectors.len() <= NTRANSFER_VECTORS_KIFMM,
        forall|t: Octant| #[trigger]
            in_v_list(source@, t, tree@) ==> index@.contains_key(t.morton() as u64),
        forall|m: u64| #[trigger] index@.contains_key(m) ==> index@[m] <= i64::MAX,
    ensures
        column.len() == NTRANSFER_VECTORS_KIFMM,
        forall|i: int|
            0 <= i < 316 ==> if i < transfer_vectors.len() {
                is_transfer_entry(
                    #[trigger] column[i],
                    source@,
                    transfer_vectors[i].hash,
                    tree@,
                    index@,
                )
            } else {
                column[i] == -1
            },
{
    proof {
        lemma_wf_view(*source);
    }
    let list = interaction_list(source, tree);
    let mut slots: HashMap<u64, usize> = HashMap::new();
    let mut w: usize = 0;
    while w < list.len()
        invariant
            w <= list.len(),
            source.wf(),
            source@.level >= 2,
            all_wf(list@),
            forall|k: int| 0 <= k < list.len() ==> in_v_list(source@, (#[trigger] list[k])@, tree@),
            forall|h: u64| #[trigger]
                slots@.contains_key(h) ==> slots@[h] < w && list[slots@[h] as int]@.transfer_vector(
                    source@,
                ) == h,
            forall|k: int|
                0 <= k < w ==> slots@.contains_key(
                    (#[trigger] list[k])@.transfer_vector(source@) as u64,
                ),
        decreases list.len() - w,
    {
        let hash = list[w].find_transfer_vector(source);
        slots.insert(hash, w);
        w = w + 1;
    }
    let mut column: Vec<i64> = Vec::new();
    let mut i: usize = 0;
    while i < 316
        invariant
            i <= 316,
            source.wf(),
            source@.valid(),
            source@.level >= 2,
            transfer_vectors.len() <= 316,
            all_wf(list@),
            forall|k: int| 0 <= k < list.len() ==> in_v_list(source@, (#[trigger] list[k])@, tree@),
            forall|t: Octant| in_v_list(source@, t, tree@) ==> #[trigger] has_view(list@, t),
            forall|t: Octant| #[trigger]
                in_v_list(source@, t, tree@) ==> index@.contains_key(t.morton() as u64),
            forall|m: u64| #[trigger] index@.contains_key(m) ==> index@[m] <= i64::MAX,
            forall|h: u64| #[trigger]
                slots@.contains_key(h) ==> slots@[h] < list.len() && list[slots@[h] as int]@.transfer_vector(
                    source@,
                ) == h,
            forall|k: int|
                0 <= k < list.len() ==> slots@.contains_key(
                    (#[trigger] list[k])@.transfer_vector(source@) as u64,
                ),
            column.len() == i,
            forall|r: int|
                0 <= r < i ==> if r < transfer_vectors.len() {
                    is_transfer_entry(
                        #[trigger] column[r],
                        source@,
                        transfer_vectors[r].hash,
                        tree@,
                        index@,
                    )
                } else {
                    column[r] == -1
                },
        decreases 316 - i,
    {
        let mut entry: i64 = -1;
        if i < transfer_vectors.len() {
            let hash = transfer_vectors[i].hash;
            match slots.get(&hash) {
                Some(slot) => {
                    let target = &list[*slot];
                    proof {
                        lemma_wf_view(*target);
                        assert(in_v_list(source@, target@, tree@));
                    }
                    let place = index.get(&target.morton).unwrap();
                    entry = *place as i64;
                    proof {
                        assert(target@.transfer_vector(source@) == hash);
                        assert(is_transfer_entry(entry, source@, hash, tree@, index@));
                    }
                },
                None => {
                    proof {
                        assert forall|t: Octant| in_v_list(source@, t, tree@) implies #[trigger] t.transfer_vector(
                            source@,
                        ) != hash by {
                            assert(has_view(list@, t));
                            let k = choose|k: int| 0 <= k < list.len() && list[k]@ == t;
                            assert(slots@.contains_key(list[k]@.transfer_vector(source@) as u64));
                        }
                        assert(is_transfer_entry(entry, source@, hash, tree@, index@));
                    }
                },
            }
        }
        column.push(entry);
        i = i + 1;
    }
    column
}

/// The displacement table of the low-rank translation. `sources` are the
/// keys of a level, `tree` holds the codes of the keys of the target tree,
/// `index` maps the code of a target of the level to its slot, and
/// `transfer_vectors` are the offsets that the rows of the table stand for.
pub fn transfer_displacements(
    sources: &[MortonKey],
    tree: &HashSet<u64>,
    index: &HashMap<u64, usize>,
    transfer_vectors: &[TransferVector],
) -> (table: Vec<Vec<i64>>)
    requires
        all_wf(sources@),
        forall|j: int| 0 <= j < sources.len() ==> (#[trigger] sources[j])@.level >= 2,
        transfer_vectors.len() <= NTRANSFER_VECTORS_KIFMM,
        forall|j: int, t: Octant|
            0 <= j < sources.len() && #[trigger] in_v_list(sources[j]@, t, tree@)
                ==> index@.contains_key(t.morton() as u64),
        forall|m: u64| #[trigger] index@.contains_key(m) ==> index@[m] <= i64::MAX,
    ensures
        is_transfer_table(table@, sources@, transfer_vectors@, tree@, index@),
{
    let nsources = sources.len();
    let mut columns: Vec<Vec<i64>> = Vec::new();
    let mut j: usize = 0;
    while j < nsources
        invariant
            j <= nsources,
            nsources == sources.len(),
            all_wf(sources@),
            forall|j: int| 0 <= j < sources.len() ==> (#[trigger] sources[j])@.level >= 2,
            transfer_vectors.len() <= NTRANSFER_VECTORS_KIFMM,
            forall|j: int, t: Octant|
                0 <= j < sources.len() && #[trigger] in_v_list(sources[j]@, t, tree@)
                    ==> index@.contains_key(t.morton() as u64),
            forall|m: u64| #[trigger] index@.contains_key(m) ==> index@[m] <= i64::MAX,
            columns.len() == j,
            forall|c: int| 0 <= c < j ==> (#[trigger] columns[c]).len() == 316,
            forall|c: int, i: int|
                0 <= c < j && 0 <= i < 316 ==> if i < transfer_vectors.len() {
                    is_transfer_entry(
                        #[trigger] columns[c][i],
                        sources[c]@,
                        transfer_vectors[i].hash,
                        tree@,
                        index@,
                    )
                } else {
                    columns[c][i] == -1
                },
        decreases nsources - j,
    {
        let column = transfer_column(&sources[j], tree, index, transfer_vectors);
        columns.push(column);
        j = j + 1;
    }
    let mut table: Vec<Vec<i64>> = Vec::new();
    let mut i: usize = 0;
    while i < 316
        invariant
            i <= 316,
            nsources == sources.len(),
            columns.len() == nsources,
            forall|c: int| 0 <= c < nsources ==> (#[trigger] columns[c]).len() == 316,
            table.len() == i,
            forall|r: int| 0 <= r < i ==> (#[trigger] table[r]).len() == nsources,
            forall|r: int, c: int|
                0 <= r < i && 0 <= c < nsources ==> #[trigger] table[r][c] == columns[c][r],
        decreases 316 - i,
    {
        let mut row: Vec<i64> = Vec::new();
        let mut c: usize = 0;
        while c < nsources
            invariant
                c <= nsources,
                i < 316,
                columns.len() == nsources,
                forall|c: int| 0 <= c < nsources ==> (#[trigger] columns[c]).len() == 316,
                row.len() == c,
                forall|d: int| 0 <= d < c ==> #[trigger] row[d] == columns[d][i as int],
            decreases nsources - c,
        {
            row.push(columns[c][i]);
            c = c + 1;
        }
        table.push(row);
        i = i + 1;
    }
    table
}

/// Some transfer vector of the sequence has the hash of every admissible
/// offset.
pub open spec fn covers_admissible(transfer_vectors: Seq<TransferVector>) -> bool {
    forall|dx: int, dy: int, dz: int|
        admissible(dx, dy, dz) ==> has_hash(transfer_vectors, #[trigger] transfer_hash(dx, dy, dz))
}

/// Some transfer vector of the sequence has the hash `hash`.
pub open spec fn has_hash(transfer_vectors: Seq<TransferVector>, hash: int) -> bool {
    exists|i: int| 0 <= i < transfer_vectors.len() && transfer_vectors[i].hash == hash
}

/// No two transfer vectors of the sequence have the same hash.
pub open spec fn distinct_hashes(transfer_vectors: Seq<TransferVector>) -> bool {
    forall|i: int, j: int|
        0 <= i < j < transfer_vectors.len() ==> transfer_vectors[i].hash
            != transfer_vectors[j].hash
}

/// The offset of a transfer vector is admissible and hashes to its hash.
pub open spec fn hashes_offset(tv: TransferVector) -> bool {
    &&& admissible(tv.components[0] as int, tv.components[1] as int, tv.components[2] as int)
    &&& tv.hash == transfer_hash(
        tv.components[0] as int,
        tv.components[1] as int,
        tv.components[2] as int,
    )
}

/// Place of an offset among all offsets of at most three boxes along every
/// axis, in lexicographic order.
pub open spec fn offset_rank(dx: int, dy: int, dz: int) -> int {
    49 * (dx + 3) + 7 * (dy + 3) + (dz + 3)
}

/// Number of items counted before the value `d` is reached from -3, where a
/// value of two or more either way counts `wide` items and another value
/// `narrow` items.
pub open spec fn counted_below(d: int, wide: int, narrow: int) -> int {
    if d <= -1 {
        wide * (d + 3)
    } else if d <= 2 {
        2 * wide + narrow * (d + 1)
    } else {
        2 * wide + 3 * narrow + wide * (d - 2)
    }
}

/// Hash of an offset.
fn offset_hash(dx: i64, dy: i64, dz: i64) -> (hash: u64)
    requires
        -32768 < dx < 32768,
        -32768 < dy < 32768,
        -32768 < dz < 32768,
    ensures
        hash == transfer_hash(dx as int, dy as int, dz as int),
{
    let px: u64 = if dx < 0 {
        (2 * (-dx) + 1) as u64
    } else {
        (2 * dx) as u64
    };
    let py: u64 = if dy < 0 {
        (2 * (-dy) + 1) as u64
    } else {
        (2 * dy) as u64
    };
    let pz: u64 = if dz < 0 {
        (2 * (-dz) + 1) as u64
    } else {
        (2 * dz) as u64
    };
    (((px << 16) | py) << 16) | pz
}

/// The 316 transfer vectors: the admissible offsets in lexicographic order,
/// each with its hash.
pub fn compute_transfer_vectors() -> (transfer_vectors: Vec<TransferVector>)
    ensures
        transfer_vectors.len() == NTRANSFER_VECTORS_KIFMM,
        covers_admissible(transfer_vectors@),
        distinct_hashes(transfer_vectors@),
        forall|i: int| 0 <= i < 316 ==> hashes_offset(#[trigger] transfer_vectors[i]),
        forall|i: int, j: int|
            0 <= i < j < 316 ==> offset_rank(
                (#[trigger] transfer_vectors[i]).components[0] as int,
                transfer_vectors[i].components[1] as int,
                transfer_vectors[i].components[2] as int,
            ) < offset_rank(
                (#[trigger] transfer_vectors[j]).components[0] as int,
                transfer_vectors[j].components[1] as int,
                transfer_vectors[j].components[2] as int,
            ),
{
    let mut out: Vec<TransferVector> = Vec::new();
    let mut dx: i64 = -3;
    while dx <= 3
        invariant
            -3 <= dx <= 4,
            out.len() == counted_below(dx as int, 49, 40),
            forall|i: int| 0 <= i < out.len() ==> hashes_offset(#[trigger] out[i]),
            forall|i: int|
                0 <= i < out.len() ==> offset_rank(
                    (#[trigger] out[i]).components[0] as int,
                    out[i].components[1] as int,
                    out[i].components[2] as int,
                ) < offset_rank(dx as int, -3, -3),
            forall|i: int, j: int|
                0 <= i < j < out.len() ==> offset_rank(
                    (#[trigger] out[i]).components[0] as int,
                    out[i].components[1] as int,
                    out[i].components[2] as int,
                ) < offset_rank(
                    (#[trigger] out[j]).components[0] as int,
                    out[j].components[1] as int,
                    out[j].components[2] as int,
                ),
            forall|ex: int, ey: int, ez: int|
                admissible(ex, ey, ez) && offset_rank(ex, ey, ez) < offset_rank(dx as int, -3, -3)
                    ==> has_hash(out@, #[trigger] transfer_hash(ex, ey, ez)),
        decreases 4 - dx,
    {
        let ghost base_x = out.len() as int;
        let wide_x = dx <= -2 || dx >= 2;
        let mut dy: i64 = -3;
        while dy <= 3
            invariant
                -3 <= dx <= 3,
                -3 <= dy <= 4,
                wide_x == (dx <= -2 || dx >= 2),
                base_x == counted_below(dx as int, 49, 40),
                out.len() == base_x + (if wide_x {
                    7 * (dy + 3)
                } else {
                    counted_below(dy as int, 7, 4)
                }),
                forall|i: int| 0 <= i < out.len() ==> hashes_offset(#[trigger] out[i]),
                forall|i: int|
                    0 <= i < out.len() ==> offset_rank(
                        (#[trigger] out[i]).components[0] as int,
                        out[i].components[1] as int,
                        out[i].components[2] as int,
                    ) < offset_rank(dx as int, dy as int, -3),
                forall|i: int, j: int|
                    0 <= i < j < out.len() ==> offset_rank(
                        (#[trigger] out[i]).components[0] as int,
                        out[i].components[1] as int,
                        out[i].components[2] as int,
                    ) < offset_rank(
                        (#[trigger] out[j]).components[0] as int,
                        out[j].components[1] as int,
                        out[j].components[2] as int,
                    ),
                forall|ex: int, ey: int, ez: int|
                    admissible(ex, ey, ez) && offset_rank(ex, ey, ez) < offset_rank(
                        dx as int,
                        dy as int,
                        -3,
                    ) ==> has_hash(out@, #[trigger] transfer_hash(ex, ey, ez)),
            decreases 4 - dy,
        {
            let ghost base_y = out.len() as int;
            let wide_y = wide_x || dy <= -2 || dy >= 2;
            let mut dz: i64 = -3;
            while dz <= 3
                invariant
                    -3 <= dx <= 3,
                    -3 <= dy <= 3,
                    -3 <= dz <= 4,
                    wide_y == (dx <= -2 || dx >= 2 || dy <= -2 || dy >= 2),
                    out.len() == base_y + (if wide_y {
                        dz + 3
                    } else {
                        counted_below(dz as int, 1, 0)
                    }),
                    base_y <= 316,
                    forall|i: int| 0 <= i < out.len() ==> hashes_offset(#[trigger] out[i]),
                    forall|i: int|
                        0 <= i < out.len() ==> offset_rank(
                            (#[trigger] out[i]).components[0] as int,
                            out[i].components[1] as int,
                            out[i].components[2] as int,
                        ) < offset_rank(dx as int, dy as int, dz as int),
                    forall|i: int, j: int|
                        0 <= i < j < out.len() ==> offset_rank(
                            (#[trigger] out[i]).components[0] as int,
                            out[i].components[1] as int,
                            out[i].components[2] as int,
                        ) < offset_rank(
                            (#[trigger] out[j]).components[0] as int,
                            out[j].components[1] as int,
                            out[j].components[2] as int,
                        ),
                    forall|ex: int, ey: int, ez: int|
                        admissible(ex, ey, ez) && offset_rank(ex, ey, ez) < offset_rank(
                            dx as int,
                            dy as int,
                            dz as int,
                        ) ==> has_hash(out@, #[trigger] transfer_hash(ex, ey, ez)),
                decreases 4 - dz,
            {
                let ghost before = out@;
                if wide_y || dz <= -2 || dz >= 2 {
                    let hash = offset_hash(dx, dy, dz);
                    out.push(TransferVector { components: [dx, dy, dz], hash });
                }
                proof {
                    assert forall|ex: int, ey: int, ez: int|
                        admissible(ex, ey, ez) && offset_rank(ex, ey, ez) < offset_rank(
                            dx as int,
                            dy as int,
                            dz + 1,
                        ) implies has_hash(out@, #[trigger] transfer_hash(ex, ey, ez)) by {
                        if offset_rank(ex, ey, ez) < offset_rank(dx as int, dy as int, dz as int) {
                            assert(has_hash(before, transfer_hash(ex, ey, ez)));
                            let w = choose|w: int|
                                0 <= w < before.len() && before[w].hash == transfer_hash(ex, ey, ez);
                            assert(out@[w].hash == transfer_hash(ex, ey, ez));
                        } else {
                            assert(ex == dx && ey == dy && ez == dz);
                            assert(out@[out.len() - 1].hash == transfer_hash(ex, ey, ez));
                        }
                    }
                }
                dz = dz + 1;
            }
            dy = dy + 1;
        }
        dx = dx + 1;
    }
    proof {
        assert forall|i: int, j: int| 0 <= i < j < out.len() implies out[i].hash
            != out[j].hash by {
            assert(hashes_offset(out[i]));
            assert(hashes_offset(out[j]));
            if out[i].hash == out[j].hash {
                lemma_hash_injective(
                    out[i].components[0] as int,
                    out[i].components[1] as int,
                    out[i].components[2] as int,
                    out[j].components[0] as int,
                    out[j].components[1] as int,
                    out[j].components[2] as int,
                );
            }
        }
        assert forall|ex: int, ey: int, ez: int| admissible(ex, ey, ez) implies has_hash(
            out@,
            #[trigger] transfer_hash(ex, ey, ez),
        ) by {
            assert(offset_rank(ex, ey, ez) < offset_rank(4, -3, -3));
        }
    }
    out
}

/// Displacement consistency of the low-rank table. Take the table of a
/// level, the sources and the targets of the level, the map from the code of
/// a target to its slot, and transfer vectors with distinct hashes that cover
/// the admissible offsets. Then for every source the rows that hold a slot
/// and the boxes of the source's interaction list correspond one to one, and
/// the target in a row lies at that row's offset from the source.
pub proof fn lemma_transfer_displacement_bijection(
    table: Seq<Vec<i64>>,
    sources: Seq<MortonKey>,
    targets: Seq<MortonKey>,
    transfer_vectors: Seq<TransferVector>,
    tree: Set<u64>,
    index: Map<u64, usize>,
    j: int,
)
    requires
        all_wf(sources),
        all_wf(targets),
        0 <= j < sources.len(),
        sources[j]@.level >= 2,
        crate::tree::indexes(index, targets),
        forall|t: Octant| #[trigger]
            in_v_list(sources[j]@, t, tree) ==> index.contains_key(t.morton() as u64),
        is_transfer_table(table, sources, transfer_vectors, tree, index),
        transfer_vectors.len() <= NTRANSFER_VECTORS_KIFMM,
        covers_admissible(transfer_vectors),
        distinct_hashes(transfer_vectors),
    ensures
        forall|i: int|
            0 <= i < 316 && #[trigger] table[i][j] != -1 ==> {
                &&& i < transfer_vectors.len()
                &&& 0 <= table[i][j] < targets.len()
                &&& in_v_list(sources[j]@, targets[table[i][j] as int]@, tree)
                &&& targets[table[i][j] as int]@.transfer_vector(sources[j]@)
                    == transfer_vectors[i].hash
            },
        forall|t: Octant| #[trigger]
            in_v_list(sources[j]@, t, tree) ==> exists|i: int|
                0 <= i < 316 && #[trigger] table[i][j] != -1 && targets[table[i][j] as int]@ == t,
        forall|i1: int, i2: int|
            0 <= i1 < i2 < 316 && #[trigger] table[i1][j] != -1 && #[trigger] table[i2][j] != -1
                ==> table[i1][j] != table[i2][j],
{
    let source = sources[j]@;
    lemma_wf_view(sources[j]);
    assert forall|i: int| 0 <= i < 316 && #[trigger] table[i][j] != -1 implies {
        &&& i < transfer_vectors.len()
        &&& 0 <= table[i][j] < targets.len()
        &&& in_v_list(source, targets[table[i][j] as int]@, tree)
        &&& targets[table[i][j] as int]@.transfer_vector(source) == transfer_vectors[i].hash
    } by {
        lemma_row_target(table, sources, targets, transfer_vectors, tree, index, j, i);
    }
    assert forall|t: Octant| #[trigger] in_v_list(source, t, tree) implies exists|i: int|
        0 <= i < 316 && #[trigger] table[i][j] != -1 && targets[table[i][j] as int]@ == t by {
        lemma_v_list_admissible(source, t, tree);
        assert(has_hash(transfer_vectors, transfer_hash(t.x - source.x, t.y - source.y, t.z - source.z)));
        let i = choose|i: int|
            0 <= i < transfer_vectors.len() && transfer_vectors[i].hash == t.transfer_vector(
                source,
            );
        let hash = transfer_vectors[i].hash;
        assert(is_transfer_entry(table[i][j], source, hash, tree, index));
        let u = choose|u: Octant|
            in_v_list(source, u, tree) && #[trigger] u.transfer_vector(source) == hash
                && table[i][j] == index[u.morton() as u64];
        lemma_v_list_unique(source, t, u, tree);
        lemma_row_target(table, sources, targets, transfer_vectors, tree, index, j, i);
        let slot = table[i][j] as int;
        lemma_v_list_unique(source, t, targets[slot]@, tree);
    }
    assert forall|i1: int, i2: int|
        0 <= i1 < i2 < 316 && #[trigger] table[i1][j] != -1 && #[trigger] table[i2][j]
            != -1 implies table[i1][j] != table[i2][j] by {
        lemma_row_target(table, sources, targets, transfer_vectors, tree, index, j, i1);
        lemma_row_target(table, sources, targets, transfer_vectors, tree, index, j, i2);
    }
}

/// A row of the table that holds a slot for a source holds the slot of the
/// box of the source's interaction list at the row's offset.
proof fn lemma_row_target(
    table: Seq<Vec<i64>>,
    sources: Seq<MortonKey>,
    targets: Seq<MortonKey>,
    transfer_vectors: Seq<TransferVector>,
    tree: Set<u64>,
    index: Map<u64, usize>,
    j: int,
    i: int,
)
    requires
        all_wf(sources),
        all_wf(targets),
        0 <= j < sources.len(),
        crate::tree::indexes(index, targets),
        forall|t: Octant| #[trigger]
            in_v_list(sources[j]@, t, tree) ==> index.contains_key(t.morton() as u64),
        is_transfer_table(table, sources, transfer_vectors, tree, index),
        0 <= i < 316,
        table[i][j] != -1,
    ensures
        i < transfer_vectors.len(),
        0 <= table[i][j] < targets.len(),
        in_v_list(sources[j]@, targets[table[i][j] as int]@, tree),
        targets[table[i][j] as int]@.transfer_vector(sources[j]@) == transfer_vectors[i].hash,
{
    let source = sources[j]@;
    let hash = transfer_vectors[i].hash;
    assert(is_transfer_entry(table[i][j], source, hash, tree, index));
    let t = choose|t: Octant|
        in_v_list(source, t, tree) && #[trigger] t.transfer_vector(source) == hash && table[i][j]
            == index[t.morton() as u64];
    let m = t.morton() as u64;
    assert(index.contains_key(m));
    let slot = index[m];
    lemma_wf_view(targets[slot as int]);
    lemma_morton_fits(t);
    lemma_morton_injective(targets[slot as int]@, t);
}

/// `source` is in the X-list of `target`: a leaf that is not next to
/// `target` and whose parent is.
pub open spec fn in_x_list(target: Octant, source: Octant, leaves: Set<u64>) -> bool {
    &&& source.valid()
    &&& source.level >= 1
    &&& source.parent().adjacent(target)
    &&& !source.adjacent(target)
    &&& leaves.contains(source.morton() as u64)
}

/// The root contains every box of the domain.
pub proof fn lemma_root_contains(root: Octant, o: Octant)
    requires
        root.valid(),
        root.level == 0,
        o.valid(),
    ensures
        root.contains(o),
{
    vstd::arithmetic::power2::lemma2_to64();
    vstd::arithmetic::power2::lemma_pow2_adds(o.level as nat, (DEEPEST_LEVEL - o.level) as nat);
    let side = grid_side(o.level);
    let size = o.size();
    assert(side * size == root.size());
    assert(0 <= o.x * size && o.x * size <= (side - 1) * size) by (nonlinear_arith)
        requires
            0 <= o.x <= side - 1,
            size >= 0,
    ;
    assert(0 <= o.y * size && o.y * size <= (side - 1) * size) by (nonlinear_arith)
        requires
            0 <= o.y <= side - 1,
            size >= 0,
    ;
    assert(0 <= o.z * size && o.z * size <= (side - 1) * size) by (nonlinear_arith)
        requires
            0 <= o.z <= side - 1,
            size >= 0,
    ;
    assert((side - 1) * size == side * size - size) by (nonlinear_arith);
    vstd::arithmetic::power2::lemma_pow2_pos((DEEPEST_LEVEL - o.level) as nat);
}

/// The X-list of the root is empty: no box is next to the box that contains
/// it.
pub proof fn lemma_x_list_of_root(root: Octant, source: Octant, leaves: Set<u64>)
    requires
        root.valid(),
        root.level == 0,
    ensures
        !in_x_list(root, source, leaves),
{
    if source.valid() && source.level >= 1 {
        lemma_parent_valid(source);
        lemma_root_contains(root, source.parent());
    }
}

/// The X-list of `target` among the leaves of `tree`, along the curve, or
/// `None` where it is empty.
pub fn x_list(target: &MortonKey, tree: &MultiNodeTree) -> (list: Option<Vec<MortonKey>>)
    requires
        target.wf(),
        tree.wf(),
    ensures
        match list {
            Some(list) => {
                &&& 0 < list.len() <= tree.leaves.len()
                &&& all_wf(list@)
                &&& strictly_sorted(list@)
                &&& forall|k: int|
                    0 <= k < list.len() ==> in_x_list(target@, (#[trigger] list[k])@, tree.leaves_set@)
                &&& forall|o: Octant|
                    in_x_list(target@, o, tree.leaves_set@) ==> #[trigger] has_view(list@, o)
                &&& distinct_views(list@)
            },
            None => forall|o: Octant| !in_x_list(target@, o, tree.leaves_set@),
        },
{
    let leaves = &tree.leaves;
    let mut list: Vec<MortonKey> = Vec::new();
    let mut a: usize = 0;
    let ghost mut from: Seq<int> = Seq::empty();
    while a < leaves.len()
        invariant
            a <= leaves.len(),
            leaves == &tree.leaves,
            target.wf(),
            tree.wf(),
            from.len() == list.len(),
            forall|k: int| 0 <= k < list.len() ==> 0 <= #[trigger] from[k] < a && list[k] == leaves[from[k]],
            forall|k: int, l: int| 0 <= k < l < from.len() ==> from[k] < from[l],
            list.len() <= a,
            forall|k: int|
                0 <= k < list.len() ==> in_x_list(target@, (#[trigger] list[k])@, tree.leaves_set@),
            forall|b: int|
                0 <= b < a && in_x_list(target@, leaves[b]@, tree.leaves_set@) ==> has_view(
                    list@,
                    (#[trigger] leaves[b])@,
                ),
        decreases leaves.len() - a,
    {
        let key = leaves[a];
        let ghost before = list@;
        proof {
            lemma_wf_view(key);
            assert(tree.leaves_set@.contains(tree.leaves[a as int].morton));
        }
        if key.level() >= 1 {
            let parent = key.parent();
            if parent.is_adjacent(target) && !key.is_adjacent(target) {
                list.push(key);
                proof {
                    assert(list@[list.len() - 1] == leaves[a as int]);
                    from = from.push(a as int);
                }
            }
        }
        proof {
            assert forall|b: int|
                0 <= b < a + 1 && in_x_list(target@, leaves[b]@, tree.leaves_set@) implies has_view(
                list@,
                (#[trigger] leaves[b])@,
            ) by {
                if b < a {
                    assert(has_view(before, leaves[b]@));
                    let w = choose|w: int| 0 <= w < before.len() && before[w]@ == leaves[b]@;
                    assert(list@[w]@ == leaves[b]@);
                } else {
                    assert(list@[list.len() - 1]@ == leaves[b]@);
                }
            }
        }
        a = a + 1;
    }
    proof {
        assert forall|k: int, l: int| 0 <= k < l < list.len() implies list[k].morton
            < list[l].morton by {
            assert(from[k] < from[l]);
        }
        assert forall|k: int| 0 <= k < list.len() implies (#[trigger] list[k]).wf() by {
            assert(list[k] == leaves[from[k]]);
        }
        assert forall|k: int, l: int| 0 <= k < l < list.len() implies (#[trigger] list[k])@
            != (#[trigger] list[l])@ by {
            assert(list[k].morton < list[l].morton);
            if list[k]@ == list[l]@ {
                lemma_same_view(list[k], list[l]);
            }
        }
        assert forall|o: Octant| in_x_list(target@, o, tree.leaves_set@) implies #[trigger] has_view(
            list@,
            o,
        ) by {
            let m = o.morton() as u64;
            let b = choose|b: int| 0 <= b < leaves.len() && leaves[b].morton == m;
            lemma_wf_view(leaves[b]);
            lemma_morton_fits(o);
            lemma_morton_injective(leaves[b]@, o);
            assert(has_view(list@, leaves[b]@));
        }
    }
    if list.len() > 0 {
        Some(list)
    } else {
        proof {
            assert forall|o: Octant| !in_x_list(target@, o, tree.leaves_set@) by {
                if in_x_list(target@, o, tree.leaves_set@) {
                    assert(has_view(list@, o));
                }
            }
        }
        None
    }
}

} // verus!
