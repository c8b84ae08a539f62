//! The integer side of a kernel-independent fast multipole method on one
//! node: the trees, the maps from the keys of a level to their slots, and the
//! plans of the translations from sources to targets.
//!
//! A plan says which coefficients meet in which order. The arithmetic on the
//! coefficients is done by whoever holds them.

use vstd::prelude::*;
use std::collections::HashMap;
use crate::chunk::ConvolutionGrid;
use crate::chunk::find_chunk_size;
use crate::chunk::is_chunk_size;
use crate::chunk::max_chunk_size;
use crate::chunk::spec_max_chunk_size;
use crate::displacement::is_sibling_table;
use crate::displacement::lemma_morton_injective;
use crate::displacement::sibling_displacements;
use crate::morton::MortonKey;
use crate::morton::Octant;
use crate::morton::all_wf;
use crate::morton::lemma_wf_view;
use crate::morton::DEEPEST_LEVEL;
use crate::parents::is_parent_list;
use crate::parents::parents_of;
use crate::scale::PowerOfTwo;
use crate::scale::m2l_scale_exponent;
use crate::schedule::BlockProduct;
use crate::schedule::block_products;
use crate::schedule::is_block_schedule;
use crate::schedule::is_scatter_list;
use crate::schedule::scatter_lists;
use crate::transfer::TransferVector;
use crate::transfer::compute_transfer_vectors;
use crate::transfer::covers_admissible;
use crate::transfer::distinct_hashes;
use crate::transfer::hashes_offset;
use crate::transfer::in_v_list;
use crate::transfer::in_x_list;
use crate::transfer::is_transfer_table;
use crate::transfer::transfer_displacements;
use crate::transfer::x_list;
use crate::transfer::NTRANSFER_VECTORS_KIFMM;
use crate::tree::MultiNodeTree;
use crate::tree::Point;
use crate::tree::grouped_by_leaf;
use crate::tree::indexes;
use crate::tree::is_leaf_ranges;
use crate::tree::strictly_sorted;

verus! {

broadcast use vstd::std_specs::hash::group_hash_axioms;

/// Whether the method works on one vector of charges or on several at once.
#[derive(Clone, Copy, Debug, PartialEq, Eq, Structural)]
pub enum FmmEvalType {
    /// One vector of charges.
    Vector,
    /// The given number of vectors of charges.
    Matrix(usize),
}

impl FmmEvalType {
    /// Number of vectors of charges.
    pub open spec fn spec_n_rhs(self) -> int {
        match self {
            FmmEvalType::Vector => 1,
            FmmEvalType::Matrix(n) => n as int,
        }
    }

    /// Number of vectors of charges.
    pub fn n_rhs(&self) -> (n: usize)
        ensures
            n == self.spec_n_rhs(),
    {
        match self {
            FmmEvalType::Vector => 1,
            FmmEvalType::Matrix(n) => *n,
        }
    }
}

/// `map` is the map of `level` of `tree`: from the code of each key of the
/// level to its slot in the level, and empty where the tree has no such key.
pub open spec fn is_level_index(map: Map<u64, usize>, tree: MultiNodeTree, level: u64) -> bool {
    if tree.levels_to_keys@.contains_key(level) {
        indexes(map, tree.level_keys(level))
    } else {
        forall|m: u64| !map.contains_key(m)
    }
}

/// `maps` holds the map of each level of `tree`, from the root to the
/// tree's depth.
pub open spec fn is_level_index_pointer(maps: Seq<HashMap<u64, usize>>, tree: MultiNodeTree) -> bool {
    &&& maps.len() == tree.depth + 1
    &&& forall|level: u64|
        level <= tree.depth ==> is_level_index(#[trigger] maps[level as int]@, tree, level)
}

/// For each level of the tree, the map from the code of a key of the level
/// to its slot in the level.
pub fn level_index_pointer(tree: &MultiNodeTree) -> (maps: Vec<HashMap<u64, usize>>)
    requires
        tree.wf(),
    ensures
        is_level_index_pointer(maps@, *tree),
{
    let mut maps: Vec<HashMap<u64, usize>> = Vec::new();
    let mut level: u64 = 0;
    while level <= tree.depth
        invariant
            tree.wf(),
            level <= tree.depth + 1,
            maps.len() == level,
            forall|l: u64| l < level ==> is_level_index(#[trigger] maps[l as int]@, *tree, l),
        decreases tree.depth + 1 - level,
    {
        let mut map: HashMap<u64, usize> = HashMap::new();
        match tree.keys(level) {
            Some(keys) => {
                let mut i: usize = 0;
                while i < keys.len()
                    invariant
                        i <= keys.len(),
                        strictly_sorted(keys@),
                        forall|k: int| 0 <= k < i ==> map@.contains_key(#[trigger] keys[k].morton),
                        forall|m: u64| #[trigger]
                            map@.contains_key(m) ==> map@[m] < i && keys[map@[m] as int].morton == m,
                    decreases keys.len() - i,
                {
                    map.insert(keys[i].morton, i);
                    i = i + 1;
                }
            },
            None => {},
        }
        maps.push(map);
        level = level + 1;
    }
    maps
}

/// The keys of a level stand in sibling groups behind their parents: eight
/// keys for each parent, in the order of the parents, and within a group the
/// children in their order.
pub open spec fn sibling_grouped(keys: Seq<MortonKey>, parents: Seq<MortonKey>) -> bool {
    &&& keys.len() == 8 * parents.len()
    &&& forall|p: int, s: int|
        0 <= p < parents.len() && 0 <= s < 8 ==> (#[trigger] keys[8 * p + s])@ == parents[p]@.child(
            s,
        )
}

/// Whether the keys of a level stand in sibling groups behind their parents.
pub fn is_sibling_grouped(keys: &[MortonKey], parents: &[MortonKey]) -> (grouped: bool)
    requires
        all_wf(keys@),
        all_wf(parents@),
        forall|p: int| 0 <= p < parents.len() ==> (#[trigger] parents[p])@.level < DEEPEST_LEVEL,
    ensures
        grouped == sibling_grouped(keys@, parents@),
{
    if keys.len() / 8 != parents.len() || keys.len() % 8 != 0 {
        return false;
    }
    let mut p: usize = 0;
    while p < parents.len()
        invariant
            p <= parents.len(),
            keys.len() == 8 * parents.len(),
            all_wf(keys@),
            all_wf(parents@),
            forall|p: int| 0 <= p < parents.len() ==> (#[trigger] parents[p])@.level < DEEPEST_LEVEL,
            forall|q: int, s: int|
                0 <= q < p && 0 <= s < 8 ==> (#[trigger] keys[8 * q + s])@ == parents[q]@.child(s),
        decreases parents.len() - p,
    {
        let mut s: usize = 0;
        while s < 8
            invariant
                s <= 8,
                p < parents.len(),
                keys.len() == 8 * parents.len(),
                all_wf(keys@),
                all_wf(parents@),
                forall|p: int|
                    0 <= p < parents.len() ==> (#[trigger] parents[p])@.level < DEEPEST_LEVEL,
                forall|q: int, s: int|
                    0 <= q < p && 0 <= s < 8 ==> (#[trigger] keys[8 * q + s])@ == parents[q]@.child(
                        s,
                    ),
                forall|t: int| 0 <= t < s ==> (#[trigger] keys[8 * p + t])@ == parents[p as int]@.child(t),
            decreases 8 - s,
        {
            let child = parents[p].child(s as u64);
            let key = &keys[8 * p + s];
            if child.morton != key.morton {
                proof {
                    if key@ == child@ {
                        crate::morton::lemma_same_view(*key, child);
                    }
                    assert(keys[8 * p + s]@ != parents[p as int]@.child(s as int));
                }
                return false;
            }
            proof {
                crate::morton::lemma_same_morton(*key, child);
            }
            s = s + 1;
        }
        p = p + 1;
    }
    true
}

/// Why a level cannot be translated.
#[derive(Clone, Copy, Debug, PartialEq, Eq, Structural)]
pub enum M2lError {
    /// The keys of the level do not stand in sibling groups of eight behind
    /// their parents.
    SiblingGroups,
    /// A buffer of the translation would hold more values than can be
    /// counted.
    Size,
}

/// What one level of the sibling-group translation works through.
pub struct FftM2lPlan {
    /// The parents of the level's keys, along the curve.
    pub parents: Vec<MortonKey>,
    /// Number of parents of the level's keys.
    pub nparents: usize,
    /// Number of keys of the level.
    pub ntargets: usize,
    /// Number of parents that are worked on together.
    pub chunk_size: usize,
    /// Sizes of the convolution grid.
    pub grid: ConvolutionGrid,
    /// The displacement table of the level.
    pub displacements: Vec<Vec<usize>>,
    /// The products that every frequency makes, in order.
    pub products: Vec<BlockProduct>,
    /// Number of signals in frequency order: for each frequency one for each
    /// key and eight that stay zero.
    pub signal_len: usize,
    /// Number of check potentials in frequency order.
    pub check_len: usize,
    /// Number of cells of the convolution grids of all keys.
    pub grid_len: usize,
    /// Scale of the contribution of the level, the scale of the kernel left
    /// out.
    pub scale: PowerOfTwo,
}

/// The buffers of the sibling-group translation of `ntargets` keys at the
/// given order can be counted.
pub open spec fn fft_sizes_fit(order: int, ntargets: int) -> bool {
    let npad = 2 * order;
    &&& npad * npad * npad * ntargets <= usize::MAX
    &&& npad * npad * (npad / 2 + 1) * (ntargets + 8) <= usize::MAX
    &&& npad * npad * npad <= usize::MAX
}

impl FftM2lPlan {
    /// Number of products of blocks that the plan makes, all frequencies
    /// taken together.
    pub open spec fn product_count(self) -> int {
        self.products.len() * self.grid.size_real
    }

    /// The plan is that of `level` of `fmm`.
    pub open spec fn is_for(self, fmm: KiFmm, level: u64) -> bool {
        let keys = fmm.source_tree.level_keys(level);
        &&& is_parent_list(self.parents@, keys)
        &&& sibling_grouped(keys, self.parents@)
        &&& self.nparents == self.parents.len()
        &&& self.ntargets == keys.len()
        &&& is_chunk_size(
            self.chunk_size as int,
            self.nparents as int,
            spec_max_chunk_size(level as int),
        )
        &&& self.grid.is_for(fmm.order as int)
        &&& is_sibling_table(
            self.displacements@,
            self.parents@,
            fmm.level_index_pointer_multipoles[level as int]@,
        )
        &&& is_block_schedule(
            self.products@,
            self.displacements@,
            self.nparents as int,
            self.chunk_size as int,
        )
        &&& self.signal_len == self.grid.size_real * (self.ntargets + 8)
        &&& self.check_len == self.grid.size_real * self.ntargets
        &&& self.grid_len == self.grid.size * self.ntargets
        &&& self.scale.exponent == m2l_scale_exponent(level as int)
    }
}

impl BlasM2lPlan {
    /// The plan is that of `level` of `fmm`.
    pub open spec fn is_for(self, fmm: KiFmm, level: u64) -> bool {
        &&& self.nsources == fmm.source_tree.level_keys(level).len()
        &&& self.ntargets == fmm.target_tree.level_keys(level).len()
        &&& self.n_rhs == fmm.fmm_eval_type.spec_n_rhs()
        &&& is_transfer_table(
            self.displacements@,
            fmm.source_tree.level_keys(level),
            fmm.transfer_vectors@,
            fmm.target_tree.keys_set@,
            fmm.level_index_pointer_locals[level as int]@,
        )
        &&& self.multipole_idxs.len() == NTRANSFER_VECTORS_KIFMM
        &&& self.local_idxs.len() == NTRANSFER_VECTORS_KIFMM
        &&& forall|i: int|
            0 <= i < 316 ==> is_scatter_list(
                (#[trigger] self.multipole_idxs[i])@,
                self.local_idxs[i]@,
                self.displacements[i]@,
            )
        &&& self.scale.exponent == m2l_scale_exponent(level as int)
    }
}

/// The range `range` is that of the points of a leaf of the X-list of
/// `target`.
pub open spec fn is_x_list_range(range: (usize, usize), target: Octant, tree: MultiNodeTree) -> bool {
    exists|o: Octant|
        in_x_list(target, o, tree.leaves_set@) && tree.leaves_to_coordinates@.contains_key(
            #[trigger] o.morton() as u64,
        ) && tree.leaves_to_coordinates@[o.morton() as u64] == range
}

/// Some leaf of the X-list of `target` holds points.
pub open spec fn has_charged_x_list(target: Octant, tree: MultiNodeTree) -> bool {
    exists|o: Octant|
        in_x_list(target, o, tree.leaves_set@) && tree.leaves_to_coordinates@.contains_key(
            #[trigger] o.morton() as u64,
        )
}

/// The ranges come one after the other: each ends where the next begins,
/// or before.
pub open spec fn rising(ranges: Seq<(usize, usize)>) -> bool {
    forall|r1: int, r2: int| 0 <= r1 < r2 < ranges.len() ==> ranges[r1].1 <= ranges[r2].0
}

/// The range is that of the points of one of the first `k` keys of `list`.
pub open spec fn is_listed_range(
    range: (usize, usize),
    list: Seq<MortonKey>,
    k: int,
    tree: MultiNodeTree,
) -> bool {
    exists|q: int|
        0 <= q < k && tree.leaves_to_coordinates@.contains_key(#[trigger] list[q].morton)
            && tree.leaves_to_coordinates@[list[q].morton] == range
}

/// The range `range` stands in the list.
pub open spec fn has_range(ranges: Seq<(usize, usize)>, range: (usize, usize)) -> bool {
    exists|r: int| 0 <= r < ranges.len() && ranges[r] == range
}

impl P2lTask {
    /// The task is that of the target at slot `slot` of `level` of `tree`:
    /// its sources are the ranges of the points of the leaves of the
    /// target's X-list that hold points, along the curve.
    pub open spec fn is_for(self, tree: MultiNodeTree, level: u64, slot: int) -> bool {
        let target = tree.level_keys(level)[slot]@;
        &&& self.target == slot
        &&& rising(self.sources@)
        &&& forall|r: int|
            0 <= r < self.sources.len() ==> is_x_list_range(#[trigger] self.sources[r], target, tree)
        &&& forall|o: Octant|
            in_x_list(target, o, tree.leaves_set@) && tree.leaves_to_coordinates@.contains_key(
                #[trigger] o.morton() as u64,
            ) ==> has_range(self.sources@, tree.leaves_to_coordinates@[o.morton() as u64])
    }
}

/// What one level of the low-rank translation works through.
pub struct BlasM2lPlan {
    /// Number of sources of the level.
    pub nsources: usize,
    /// Number of targets of the level.
    pub ntargets: usize,
    /// Number of vectors of charges.
    pub n_rhs: usize,
    /// The displacement table of the level.
    pub displacements: Vec<Vec<i64>>,
    /// For each transfer vector, the sources that have a target at its
    /// offset, in rising order.
    pub multipole_idxs: Vec<Vec<usize>>,
    /// For each transfer vector, the slots of those targets.
    pub local_idxs: Vec<Vec<usize>>,
    /// Scale of the contribution of the level, the scale of the kernel left
    /// out.
    pub scale: PowerOfTwo,
}

/// The leaves whose charges one target takes in directly.
pub struct P2lTask {
    /// Slot of the target among the keys of its level.
    pub target: usize,
    /// For each leaf of the target's X-list that holds points, the range of
    /// its points.
    pub sources: Vec<(usize, usize)>,
}

/// The trees and tables of a fast multipole method.
pub struct KiFmm {
    /// Tree over the sources.
    pub source_tree: MultiNodeTree,
    /// Tree over the targets.
    pub target_tree: MultiNodeTree,
    /// The offsets that the rows of the low-rank table stand for.
    pub transfer_vectors: Vec<TransferVector>,
    /// For each level, the slots of the keys of the source tree.
    pub level_index_pointer_multipoles: Vec<HashMap<u64, usize>>,
    /// For each level, the slots of the keys of the target tree.
    pub level_index_pointer_locals: Vec<HashMap<u64, usize>>,
    /// Order of the expansions.
    pub order: usize,
    /// Whether one vector of charges is worked on or several.
    pub fmm_eval_type: FmmEvalType,
    /// Whether the trees are refined to different depths in different places.
    pub adaptive: bool,
}

impl KiFmm {
    /// The tables agree with the trees.
    pub open spec fn wf(self) -> bool {
        &&& self.source_tree.wf()
        &&& self.target_tree.wf()
        &&& is_level_index_pointer(self.level_index_pointer_multipoles@, self.source_tree)
        &&& is_level_index_pointer(self.level_index_pointer_locals@, self.target_tree)
        &&& self.transfer_vectors.len() == NTRANSFER_VECTORS_KIFMM
        &&& covers_admissible(self.transfer_vectors@)
        &&& distinct_hashes(self.transfer_vectors@)
        &&& forall|i: int| 0 <= i < 316 ==> hashes_offset(#[trigger] self.transfer_vectors[i])
        &&& self.order >= 1
    }

    /// Brings the trees together with the transfer vectors of the 316
    /// admissible offsets and builds the maps from keys to slots.
    pub fn new(
        source_tree: MultiNodeTree,
        target_tree: MultiNodeTree,
        order: usize,
        fmm_eval_type: FmmEvalType,
        adaptive: bool,
    ) -> (fmm: KiFmm)
        requires
            source_tree.wf(),
            target_tree.wf(),
            order >= 1,
        ensures
            fmm.wf(),
            fmm.source_tree == source_tree,
            fmm.target_tree == target_tree,
            fmm.order == order,
            fmm.fmm_eval_type == fmm_eval_type,
            fmm.adaptive == adaptive,
    {
        let transfer_vectors = compute_transfer_vectors();
        let level_index_pointer_multipoles = level_index_pointer(&source_tree);
        let level_index_pointer_locals = level_index_pointer(&target_tree);
        KiFmm {
            source_tree,
            target_tree,
            transfer_vectors,
            level_index_pointer_multipoles,
            level_index_pointer_locals,
            order,
            fmm_eval_type,
            adaptive,
        }
    }

    /// Scale applied to the contribution of `level`, the scale of the kernel
    /// left out.
    pub fn m2l_scale(&self, level: u64) -> (scale: PowerOfTwo)
        requires
            level >= 2,
        ensures
            scale.exponent == m2l_scale_exponent(level as int),
    {
        crate::scale::m2l_scale(level)
    }

    /// The displacement table of the low-rank translation at `level`: for
    /// each transfer vector and each source of the level, the slot of the
    /// target at that offset from the source, or -1.
    pub fn displacements(&self, level: u64) -> (table: Vec<Vec<i64>>)
        requires
            self.wf(),
            level >= 2,
            self.source_tree.levels_to_keys@.contains_key(level),
            level <= self.target_tree.depth,
            self.target_tree.keys.len() <= i64::MAX,
        ensures
            is_transfer_table(
                table@,
                self.source_tree.level_keys(level),
                self.transfer_vectors@,
                self.target_tree.keys_set@,
                self.level_index_pointer_locals[level as int]@,
            ),
    {
        let sources = self.source_tree.keys(level).unwrap();
        let index = &self.level_index_pointer_locals[level as usize];
        proof {
            let tree = self.target_tree;
            assert(is_level_index(index@, tree, level));
            assert forall|j: int, t: Octant|
                0 <= j < sources.len() && #[trigger] in_v_list(
                    sources[j]@,
                    t,
                    tree.keys_set@,
                ) implies index@.contains_key(t.morton() as u64) by {
                lemma_level_index_covers(tree, index@, level, t);
            }
            assert forall|m: u64| #[trigger] index@.contains_key(m) implies index@[m]
                <= i64::MAX by {
                if tree.levels_to_keys@.contains_key(level) {
                    assert(index@[m] < tree.level_keys(level).len());
                }
            }
        }
        transfer_displacements(sources, &self.target_tree.keys_set, index, &self.transfer_vectors)
    }

    /// The displacement table of the sibling-group translation at `level`:
    /// for each of the 26 directions and each parent of the level's keys,
    /// the slot of the first child of the parent's neighbour in that
    /// direction, or eight times the number of parents where the level lacks
    /// that child.
    pub fn fft_displacements(&self, level: u64) -> (table: Vec<Vec<usize>>)
        requires
            self.wf(),
            level >= 1,
            self.source_tree.levels_to_keys@.contains_key(level),
            8 * self.source_tree.keys.len() <= usize::MAX,
        ensures
            exists|parents: Seq<MortonKey>|
                is_parent_list(parents, self.source_tree.level_keys(level)) && #[trigger] is_sibling_table(
                    table@,
                    parents,
                    self.level_index_pointer_multipoles[level as int]@,
                ),
    {
        let sources = self.source_tree.keys(level).unwrap();
        let parents = parents_of(sources);
        proof {
            lemma_parent_levels(parents@, sources@, level);
        }
        let table = sibling_displacements(
            parents.as_slice(),
            &self.level_index_pointer_multipoles[level as usize],
        );
        proof {
            assert(is_sibling_table(
                table@,
                parents@,
                self.level_index_pointer_multipoles[level as int]@,
            ));
        }
        table
    }

    /// The plan of the sibling-group translation at `level`. There is
    /// nothing to do, `Ok(None)`, where the source tree has no key at the
    /// level.
    pub fn m2l_fft(&self, level: u64) -> (plan: Result<Option<FftM2lPlan>, M2lError>)
        requires
            self.wf(),
            self.source_tree.levels_to_keys@.contains_key(level) ==> level >= 2,
            8 * self.source_tree.keys.len() <= usize::MAX,
        ensures
            match plan {
                Ok(None) => !self.source_tree.levels_to_keys@.contains_key(level),
                Ok(Some(plan)) => self.source_tree.levels_to_keys@.contains_key(level)
                    && plan.is_for(*self, level),
                Err(M2lError::SiblingGroups) => self.source_tree.levels_to_keys@.contains_key(level)
                    && forall|parents: Seq<MortonKey>|
                    is_parent_list(parents, self.source_tree.level_keys(level))
                        ==> !#[trigger] sibling_grouped(self.source_tree.level_keys(level), parents),
                Err(M2lError::Size) => self.source_tree.levels_to_keys@.contains_key(level)
                    && !fft_sizes_fit(
                    self.order as int,
                    self.source_tree.level_keys(level).len() as int,
                ),
            },
    {
        let targets = match self.source_tree.keys(level) {
            Some(targets) => targets,
            None => {
                return Ok(None);
            },
        };
        let parents = parents_of(targets);
        proof {
            lemma_parent_levels(parents@, targets@, level);
        }
        if !is_sibling_grouped(targets, parents.as_slice()) {
            proof {
                assert forall|others: Seq<MortonKey>|
                    is_parent_list(others, targets@) implies !#[trigger] sibling_grouped(
                    targets@,
                    others,
                ) by {
                    crate::parents::lemma_parent_list_unique(others, parents@, targets@);
                    if sibling_grouped(targets@, others) {
                        assert forall|p: int, s: int|
                            0 <= p < parents.len() && 0 <= s < 8 implies (#[trigger] targets[8 * p
                            + s])@ == parents[p]@.child(s) by {
                            assert(targets[8 * p + s]@ == others[p]@.child(s));
                        }
                    }
                }
            }
            return Err(M2lError::SiblingGroups);
        }
        let nparents = parents.len();
        let ntargets = targets.len();
        let order = self.order;
        proof {
            assert(nparents == ntargets / 8);
        }
        let grid = match ConvolutionGrid::new(order) {
            Some(grid) => grid,
            None => {
                proof {
                    assert(8 * order * order * order == (2 * order) * (2 * order) * (2 * order))
                        by (nonlinear_arith);
                }
                return Err(M2lError::Size);
            },
        };
        proof {
            assert(grid.npad == 2 * order);
        }
        let padded = ntargets + 8;
        let signal_len = match grid.size_real.checked_mul(padded) {
            Some(len) => len,
            None => {
                return Err(M2lError::Size);
            },
        };
        let grid_len = match grid.size.checked_mul(ntargets) {
            Some(len) => len,
            None => {
                return Err(M2lError::Size);
            },
        };
        proof {
            assert(grid.size_real * ntargets <= grid.size_real * padded) by (nonlinear_arith)
                requires
                    ntargets <= padded,
                    grid.size_real >= 0,
            ;
        }
        let check_len = grid.size_real * ntargets;
        let chunk_size = find_chunk_size(nparents, max_chunk_size(level));
        let displacements = sibling_displacements(
            parents.as_slice(),
            &self.level_index_pointer_multipoles[level as usize],
        );
        let products = block_products(&displacements, nparents, chunk_size);
        let scale = crate::scale::m2l_scale(level);
        Ok(
            Some(
                FftM2lPlan {
                    parents,
                    nparents,
                    ntargets,
                    chunk_size,
                    grid,
                    displacements,
                    products,
                    signal_len,
                    check_len,
                    grid_len,
                    scale,
                },
            ),
        )
    }

    /// The plan of the low-rank translation at `level`. There is nothing to
    /// do, `None`, where one of the trees has no key at the level.
    pub fn m2l_blas(&self, level: u64) -> (plan: Option<BlasM2lPlan>)
        requires
            self.wf(),
            self.source_tree.levels_to_keys@.contains_key(level)
                && self.target_tree.levels_to_keys@.contains_key(level) ==> level >= 2,
            self.target_tree.keys.len() <= i64::MAX,
        ensures
            match plan {
                Some(plan) => {
                    &&& self.source_tree.levels_to_keys@.contains_key(level)
                    &&& self.target_tree.levels_to_keys@.contains_key(level)
                    &&& plan.is_for(*self, level)
                },
                None => !self.source_tree.levels_to_keys@.contains_key(level)
                    || !self.target_tree.levels_to_keys@.contains_key(level),
            },
    {
        let nsources = match self.source_tree.keys(level) {
            Some(sources) => sources.len(),
            None => {
                return None;
            },
        };
        let ntargets = match self.target_tree.keys(level) {
            Some(targets) => targets.len(),
            None => {
                return None;
            },
        };
        let displacements = self.displacements(level);
        let mut multipole_idxs: Vec<Vec<usize>> = Vec::new();
        let mut local_idxs: Vec<Vec<usize>> = Vec::new();
        let mut i: usize = 0;
        while i < 316
            invariant
                i <= 316,
                is_transfer_table(
                    displacements@,
                    self.source_tree.level_keys(level),
                    self.transfer_vectors@,
                    self.target_tree.keys_set@,
                    self.level_index_pointer_locals[level as int]@,
                ),
                multipole_idxs.len() == i,
                local_idxs.len() == i,
                forall|r: int|
                    0 <= r < i ==> is_scatter_list(
                        (#[trigger] multipole_idxs[r])@,
                        local_idxs[r]@,
                        displacements[r]@,
                    ),
            decreases 316 - i,
        {
            proof {
                let row = displacements[i as int];
                assert forall|j: int| 0 <= j < row.len() implies -1 <= #[trigger] row[j]
                    <= usize::MAX by {
                    assert(displacements[i as int][j] == row[j]);
                }
            }
            let (sources, targets) = scatter_lists(displacements[i].as_slice());
            multipole_idxs.push(sources);
            local_idxs.push(targets);
            i = i + 1;
        }
        let scale = crate::scale::m2l_scale(level);
        Some(
            BlasM2lPlan {
                nsources,
                ntargets,
                n_rhs: self.fmm_eval_type.n_rhs(),
                displacements,
                multipole_idxs,
                local_idxs,
                scale,
            },
        )
    }

    /// For each target of `level`, the leaves whose charges it takes in
    /// directly. There is nothing to do, `None`, on trees of one depth
    /// throughout and where the target tree has no key at the level.
    pub fn p2l(&self, level: u64) -> (tasks: Option<Vec<P2lTask>>)
        requires
            self.wf(),
        ensures
            match tasks {
                Some(tasks) => {
                    &&& self.adaptive
                    &&& self.target_tree.levels_to_keys@.contains_key(level)
                    &&& tasks.len() == self.target_tree.level_keys(level).len()
                    &&& forall|t: int|
                        0 <= t < tasks.len() ==> (#[trigger] tasks[t]).is_for(
                            self.target_tree,
                            level,
                            t,
                        )
                    &&& forall|t: int|
                        0 <= t < tasks.len() ==> ((#[trigger] tasks[t]).sources.len() == 0
                            <==> !has_charged_x_list(
                            self.target_tree.level_keys(level)[t]@,
                            self.target_tree,
                        ))
                },
                None => !self.adaptive || !self.target_tree.levels_to_keys@.contains_key(level),
            },
            level == 0 ==> match tasks {
                Some(tasks) => forall|t: int|
                    0 <= t < tasks.len() ==> (#[trigger] tasks[t]).sources.len() == 0,
                None => true,
            },
    {
        if !self.adaptive {
            return None;
        }
        let targets = match self.target_tree.keys(level) {
            Some(targets) => targets,
            None => {
                return None;
            },
        };
        let tree = &self.target_tree;
        let mut tasks: Vec<P2lTask> = Vec::new();
        let mut t: usize = 0;
        while t < targets.len()
            invariant
                t <= targets.len(),
                tree.wf(),
                tree.levels_to_keys@.contains_key(level),
                targets@ == tree.level_keys(level),
                all_wf(targets@),
                tasks.len() == t,
                forall|u: int| 0 <= u < t ==> (#[trigger] tasks[u]).is_for(*tree, level, u),
                forall|u: int|
                    0 <= u < t ==> ((#[trigger] tasks[u]).sources.len() == 0 <==> !has_charged_x_list(
                        tree.level_keys(level)[u]@,
                        *tree,
                    )),
            decreases targets.len() - t,
        {
            let target = &targets[t];
            let task = match x_list(target, tree) {
                Some(list) => {
                    let sources = listed_ranges(&list, tree);
                    let task = P2lTask { target: t, sources };
                    proof {
                        lemma_listed_task(task, list@, *tree, level, t as int);
                    }
                    task
                },
                None => P2lTask { target: t, sources: Vec::new() },
            };
            proof {
                lemma_task_sources(task, *tree, level, t as int);
            }
            tasks.push(task);
            t = t + 1;
        }
        proof {
            if level == 0 {
                assert forall|u: int| 0 <= u < tasks.len() implies (#[trigger] tasks[u]).sources.len()
                    == 0 by {
                    let target = tree.level_keys(level)[u]@;
                    lemma_wf_view(targets@[u]);
                    assert forall|o: Octant| !in_x_list(target, o, tree.leaves_set@) by {
                        crate::transfer::lemma_x_list_of_root(target, o, tree.leaves_set@);
                    }
                }
            }
        }
        Some(tasks)
    }
}

/// The ranges of the points of the keys of `list` that hold points, in the
/// order of the list.
fn listed_ranges(list: &Vec<MortonKey>, tree: &MultiNodeTree) -> (sources: Vec<(usize, usize)>)
    requires
        strictly_sorted(list@),
        grouped_by_leaf(tree.points@),
        is_leaf_ranges(tree.leaves_to_coordinates@, tree.points@),
    ensures
        rising(sources@),
        forall|r: int|
            0 <= r < sources.len() ==> is_listed_range(
                #[trigger] sources[r],
                list@,
                list.len() as int,
                *tree,
            ),
        forall|q: int|
            0 <= q < list.len() && tree.leaves_to_coordinates@.contains_key((#[trigger] list[q]).morton)
                ==> has_range(sources@, tree.leaves_to_coordinates@[list[q].morton]),
{
    let mut sources: Vec<(usize, usize)> = Vec::new();
    let mut k: usize = 0;
    while k < list.len()
        invariant
            k <= list.len(),
            strictly_sorted(list@),
            grouped_by_leaf(tree.points@),
            is_leaf_ranges(tree.leaves_to_coordinates@, tree.points@),
            rising(sources@),
            forall|r: int|
                0 <= r < sources.len() ==> is_listed_range(#[trigger] sources[r], list@, k as int, *tree),
            forall|q: int|
                0 <= q < k && tree.leaves_to_coordinates@.contains_key((#[trigger] list[q]).morton)
                    ==> has_range(sources@, tree.leaves_to_coordinates@[list[q].morton]),
        decreases list.len() - k,
    {
        let ghost before = sources@;
        match tree.leaves_to_coordinates.get(&list[k].morton) {
            Some(range) => {
                sources.push(*range);
                proof {
                    assert(sources@[sources.len() - 1] == *range);
                    assert forall|r: int| 0 <= r < before.len() implies before[r].1 <= range.0 by {
                        assert(is_listed_range(before[r], list@, k as int, *tree));
                        let q = choose|q: int|
                            0 <= q < k && tree.leaves_to_coordinates@.contains_key(
                                #[trigger] list[q].morton,
                            ) && tree.leaves_to_coordinates@[list[q].morton] == before[r];
                        lemma_ranges_rise(
                            tree.leaves_to_coordinates@,
                            tree.points@,
                            list[q].morton,
                            list[k as int].morton,
                        );
                    }
                }
            },
            None => {},
        }
        proof {
            assert forall|r: int| 0 <= r < sources.len() implies is_listed_range(
                #[trigger] sources[r],
                list@,
                k + 1,
                *tree,
            ) by {
                if r < before.len() {
                    assert(is_listed_range(before[r], list@, k as int, *tree));
                    let q = choose|q: int|
                        0 <= q < k && tree.leaves_to_coordinates@.contains_key(
                            #[trigger] list[q].morton,
                        ) && tree.leaves_to_coordinates@[list[q].morton] == before[r];
                    assert(0 <= q < k + 1 && tree.leaves_to_coordinates@.contains_key(
                        list[q].morton,
                    ));
                } else {
                    assert(tree.leaves_to_coordinates@.contains_key(list[k as int].morton));
                }
            }
            assert forall|q: int|
                0 <= q < k + 1 && tree.leaves_to_coordinates@.contains_key(
                    (#[trigger] list[q]).morton,
                ) implies has_range(sources@, tree.leaves_to_coordinates@[list[q].morton]) by {
                let range = tree.leaves_to_coordinates@[list[q].morton];
                if q < k {
                    assert(has_range(before, range));
                    let r = choose|r: int| 0 <= r < before.len() && before[r] == range;
                    assert(sources@[r] == range);
                } else {
                    assert(sources@[sources.len() - 1] == range);
                }
            }
        }
        k = k + 1;
    }
    sources
}

/// A task whose sources are the ranges of the keys of the X-list of its
/// target is the task of that target.
proof fn lemma_listed_task(
    task: P2lTask,
    list: Seq<MortonKey>,
    tree: MultiNodeTree,
    level: u64,
    slot: int,
)
    requires
        task.target == slot,
        all_wf(list),
        forall|k: int|
            0 <= k < list.len() ==> in_x_list(
                tree.level_keys(level)[slot]@,
                (#[trigger] list[k])@,
                tree.leaves_set@,
            ),
        forall|o: Octant|
            in_x_list(tree.level_keys(level)[slot]@, o, tree.leaves_set@)
                ==> #[trigger] crate::morton::has_view(list, o),
        rising(task.sources@),
        forall|r: int|
            0 <= r < task.sources.len() ==> is_listed_range(
                #[trigger] task.sources[r],
                list,
                list.len() as int,
                tree,
            ),
        forall|q: int|
            0 <= q < list.len() && tree.leaves_to_coordinates@.contains_key((#[trigger] list[q]).morton)
                ==> has_range(task.sources@, tree.leaves_to_coordinates@[list[q].morton]),
    ensures
        task.is_for(tree, level, slot),
{
    let target = tree.level_keys(level)[slot]@;
    assert forall|r: int| 0 <= r < task.sources.len() implies is_x_list_range(
        #[trigger] task.sources[r],
        target,
        tree,
    ) by {
        assert(is_listed_range(task.sources[r], list, list.len() as int, tree));
        let q = choose|q: int|
            0 <= q < list.len() && tree.leaves_to_coordinates@.contains_key(
                #[trigger] list[q].morton,
            ) && tree.leaves_to_coordinates@[list[q].morton] == task.sources[r];
        lemma_wf_view(list[q]);
        assert(in_x_list(target, list[q]@, tree.leaves_set@));
        assert(tree.leaves_to_coordinates@.contains_key(list[q]@.morton() as u64));
    }
    assert forall|o: Octant|
        in_x_list(target, o, tree.leaves_set@) && tree.leaves_to_coordinates@.contains_key(
            #[trigger] o.morton() as u64,
        ) implies has_range(task.sources@, tree.leaves_to_coordinates@[o.morton() as u64]) by {
        assert(crate::morton::has_view(list, o));
        let q = choose|q: int| 0 <= q < list.len() && list[q]@ == o;
        lemma_wf_view(list[q]);
    }
}

/// The points of a leaf stand before those of a leaf further along the
/// curve.
proof fn lemma_ranges_rise(ranges: Map<u64, (usize, usize)>, points: Seq<Point>, m1: u64, m2: u64)
    requires
        grouped_by_leaf(points),
        is_leaf_ranges(ranges, points),
        ranges.contains_key(m1),
        ranges.contains_key(m2),
        m1 < m2,
    ensures
        ranges[m1].1 <= ranges[m2].0,
{
    let (s1, e1) = ranges[m1];
    let (s2, e2) = ranges[m2];
    assert(points[e1 - 1].encoded_key.morton == m1);
    assert(points[s2 as int].encoded_key.morton == m2);
}

/// A target takes in no charges directly exactly where no leaf of its
/// X-list holds points; so a target with an empty X-list takes in none.
pub proof fn lemma_task_sources(task: P2lTask, tree: MultiNodeTree, level: u64, slot: int)
    requires
        task.is_for(tree, level, slot),
    ensures
        task.sources.len() == 0 <==> !has_charged_x_list(tree.level_keys(level)[slot]@, tree),
        (forall|o: Octant| !in_x_list(tree.level_keys(level)[slot]@, o, tree.leaves_set@))
            ==> task.sources.len() == 0,
{
    let target = tree.level_keys(level)[slot]@;
    if task.sources.len() > 0 {
        assert(is_x_list_range(task.sources[0], target, tree));
    }
    if has_charged_x_list(target, tree) {
        let o = choose|o: Octant|
            in_x_list(target, o, tree.leaves_set@) && tree.leaves_to_coordinates@.contains_key(
                #[trigger] o.morton() as u64,
            );
        assert(has_range(task.sources@, tree.leaves_to_coordinates@[o.morton() as u64]));
    }
}

/// A box of the tree at `level` has a slot in the map of that level.
proof fn lemma_level_index_covers(tree: MultiNodeTree, index: Map<u64, usize>, level: u64, t: Octant)
    requires
        tree.wf(),
        is_level_index(index, tree, level),
        t.valid(),
        t.level == level,
        tree.keys_set@.contains(t.morton() as u64),
    ensures
        index.contains_key(t.morton() as u64),
{
    let m = t.morton() as u64;
    let i = choose|i: int| 0 <= i < tree.keys.len() && tree.keys[i].morton == m;
    let key = tree.keys[i];
    lemma_wf_view(key);
    crate::displacement::lemma_morton_fits(t);
    lemma_morton_injective(key@, t);
    assert(tree.levels_to_keys@.contains_key(key.morton % crate::morton::LEVEL_MODULUS));
    let (start, end) = tree.levels_to_keys@[level];
    assert(start <= i < end);
    assert(tree.level_keys(level)[i - start] == key);
}

/// The parents of keys of one level lie one level above it.
proof fn lemma_parent_levels(parents: Seq<MortonKey>, keys: Seq<MortonKey>, level: u64)
    requires
        is_parent_list(parents, keys),
        forall|i: int| 0 <= i < keys.len() ==> (#[trigger] keys[i])@.level == level,
        1 <= level <= DEEPEST_LEVEL,
    ensures
        forall|p: int| 0 <= p < parents.len() ==> (#[trigger] parents[p])@.level == level - 1,
{
    assert forall|p: int| 0 <= p < parents.len() implies (#[trigger] parents[p])@.level == level
        - 1 by {
        assert(crate::parents::has_child_of(keys, parents[p]@));
    }
}

/// The work of a level follows its sibling groups, not its points: at each
/// of the `npad * npad * (npad / 2 + 1)` frequencies, `npad` twice the order,
/// a plan makes 26 products for each parent of the level's keys.
pub proof fn lemma_product_count(plan: FftM2lPlan, fmm: KiFmm, level: u64)
    requires
        plan.is_for(fmm, level),
    ensures
        plan.product_count() == (26 * plan.parents.len()) * ((2 * fmm.order) * (2 * fmm.order) * ((2
            * fmm.order) / 2 + 1)),
{
}

/// Two methods of the same order whose levels hold the same keys make the
/// same number of products there, whatever points their trees hold.
pub proof fn lemma_product_count_same(
    a: FftM2lPlan,
    b: FftM2lPlan,
    first: KiFmm,
    second: KiFmm,
    level: u64,
)
    requires
        a.is_for(first, level),
        b.is_for(second, level),
        first.order == second.order,
        first.source_tree.level_keys(level) == second.source_tree.level_keys(level),
    ensures
        a.product_count() == b.product_count(),
{
    crate::parents::lemma_parent_list_unique(
        a.parents@,
        b.parents@,
        first.source_tree.level_keys(level),
    );
    lemma_product_count(a, first, level);
    lemma_product_count(b, second, level);
}

/// A level has one plan of the sibling-group kind: two plans of the same
/// level of the same method agree in every count, in the chunk size, in the
/// parents and in every entry of the displacement table.
pub proof fn lemma_fft_plan_unique(a: FftM2lPlan, b: FftM2lPlan, fmm: KiFmm, level: u64)
    requires
        a.is_for(fmm, level),
        b.is_for(fmm, level),
    ensures
        a.nparents == b.nparents,
        a.ntargets == b.ntargets,
        a.chunk_size == b.chunk_size,
        a.grid == b.grid,
        a.signal_len == b.signal_len,
        a.check_len == b.check_len,
        a.grid_len == b.grid_len,
        a.scale == b.scale,
        forall|p: int| 0 <= p < a.nparents ==> (#[trigger] a.parents[p])@ == b.parents[p]@,
        forall|i: int, p: int|
            0 <= i < 26 && 0 <= p < a.nparents ==> #[trigger] a.displacements[i][p]
                == b.displacements[i][p],
{
    let keys = fmm.source_tree.level_keys(level);
    crate::parents::lemma_parent_list_unique(a.parents@, b.parents@, keys);
    let n = a.nparents as int;
    if a.chunk_size < b.chunk_size {
        assert(n % (b.chunk_size as int) != 0);
    }
    if b.chunk_size < a.chunk_size {
        assert(n % (a.chunk_size as int) != 0);
    }
    assert forall|i: int, p: int| 0 <= i < 26 && 0 <= p < a.nparents implies #[trigger] a.displacements[i][p]
        == b.displacements[i][p] by {
        assert(a.parents[p]@ == b.parents[p]@);
        assert(b.displacements[i][p] == crate::displacement::sibling_displacement(
            b.parents[p]@,
            i,
            fmm.level_index_pointer_multipoles[level as int]@,
            n,
        ));
    }
}

/// Displacement consistency of the sibling-group table of a method. Take a
/// level from 1 on at which the source tree has keys, the parents of those
/// keys, and the table of the level. Then for every parent and every
/// direction: where the parent's neighbour in that direction is in the tree
/// and its first child is among the keys of the level, the entry is the slot
/// of that child; and where the neighbour lies outside the domain, is not in
/// the tree, or has no first child at the level, the entry is eight times
/// the number of parents.
pub proof fn lemma_fft_displacements_consistency(
    fmm: KiFmm,
    level: u64,
    table: Seq<Vec<usize>>,
    parents: Seq<MortonKey>,
    p: int,
    i: int,
)
    requires
        fmm.wf(),
        level >= 1,
        fmm.source_tree.levels_to_keys@.contains_key(level),
        is_parent_list(parents, fmm.source_tree.level_keys(level)),
        is_sibling_table(table, parents, fmm.level_index_pointer_multipoles[level as int]@),
        0 <= p < parents.len(),
        0 <= i < 26,
    ensures
        ({
            let keys = fmm.source_tree.level_keys(level);
            let index = fmm.level_index_pointer_multipoles[level as int]@;
            let around = parents[p]@.neighbour(i);
            let first = around.child(0).morton() as u64;
            &&& around.valid() && fmm.source_tree.keys_set@.contains(around.morton() as u64)
                && index.contains_key(first) ==> table[i][p] < keys.len() && keys[table[i][p] as int]@
                == around.child(0)
            &&& !around.valid() || !fmm.source_tree.keys_set@.contains(around.morton() as u64)
                ==> table[i][p] == 8 * parents.len()
            &&& !around.valid() || !index.contains_key(first) ==> table[i][p] == 8 * parents.len()
        }),
{
    let index = fmm.level_index_pointer_multipoles[level as int]@;
    assert(is_level_index(index, fmm.source_tree, level));
    crate::displacement::lemma_sibling_displacement_consistency(
        table,
        parents,
        index,
        fmm.source_tree,
        level,
        p,
        i,
    );
}

/// Displacement bijection of the low-rank table. Take a level from 2 on at
/// which both trees have keys, the table of the level, and a source of the
/// level. Then every row that holds a slot for the source holds the slot of
/// a box of the source's interaction list, the one at the row's offset;
/// every box of the interaction list has its slot in some row; and no slot
/// stands in two rows.
pub proof fn lemma_displacements_bijection(fmm: KiFmm, level: u64, table: Seq<Vec<i64>>, j: int)
    requires
        fmm.wf(),
        level >= 2,
        fmm.source_tree.levels_to_keys@.contains_key(level),
        fmm.target_tree.levels_to_keys@.contains_key(level),
        is_transfer_table(
            table,
            fmm.source_tree.level_keys(level),
            fmm.transfer_vectors@,
            fmm.target_tree.keys_set@,
            fmm.level_index_pointer_locals[level as int]@,
        ),
        0 <= j < fmm.source_tree.level_keys(level).len(),
    ensures
        ({
            let source = fmm.source_tree.level_keys(level)[j]@;
            let targets = fmm.target_tree.level_keys(level);
            let tree = fmm.target_tree.keys_set@;
            &&& forall|i: int|
                0 <= i < 316 && #[trigger] table[i][j] != -1 ==> {
                    &&& 0 <= table[i][j] < targets.len()
                    &&& in_v_list(source, targets[table[i][j] as int]@, tree)
                    &&& targets[table[i][j] as int]@.transfer_vector(source)
                        == fmm.transfer_vectors[i].hash
                }
            &&& forall|t: Octant| #[trigger]
                in_v_list(source, t, tree) ==> exists|i: int|
                    0 <= i < 316 && #[trigger] table[i][j] != -1 && targets[table[i][j] as int]@
                        == t
            &&& forall|i1: int, i2: int|
                0 <= i1 < i2 < 316 && #[trigger] table[i1][j] != -1 && #[trigger] table[i2][j] != -1
                    ==> table[i1][j] != table[i2][j]
        }),
{
    let sources = fmm.source_tree.level_keys(level);
    let targets = fmm.target_tree.level_keys(level);
    let tree = fmm.target_tree;
    let index = fmm.level_index_pointer_locals[level as int]@;
    let (s0, s1) = fmm.source_tree.levels_to_keys@[level];
    let (t0, t1) = tree.levels_to_keys@[level];
    assert(is_level_index(index, tree, level));
    assert forall|k: int| 0 <= k < sources.len() implies (#[trigger] sources[k]).wf() && sources[k]@.level
        == level by {
        assert(sources[k] == fmm.source_tree.keys[s0 + k]);
    }
    assert forall|k: int| 0 <= k < targets.len() implies (#[trigger] targets[k]).wf() by {
        assert(targets[k] == tree.keys[t0 + k]);
    }
    assert forall|t: Octant| #[trigger] in_v_list(sources[j]@, t, tree.keys_set@) implies index.contains_key(
        t.morton() as u64,
    ) by {
        lemma_level_index_covers(tree, index, level, t);
    }
    crate::transfer::lemma_transfer_displacement_bijection(
        table,
        sources,
        targets,
        fmm.transfer_vectors@,
        tree.keys_set@,
        index,
        j,
    );
}

/// A level has one displacement table of the low-rank kind: two tables for
/// the same sources, transfer vectors, tree and slots agree in every entry.
pub proof fn lemma_transfer_table_unique(
    a: Seq<Vec<i64>>,
    b: Seq<Vec<i64>>,
    sources: Seq<MortonKey>,
    transfer_vectors: Seq<TransferVector>,
    tree: Set<u64>,
    index: Map<u64, usize>,
)
    requires
        all_wf(sources),
        is_transfer_table(a, sources, transfer_vectors, tree, index),
        is_transfer_table(b, sources, transfer_vectors, tree, index),
    ensures
        forall|i: int, j: int|
            0 <= i < 316 && 0 <= j < sources.len() ==> #[trigger] a[i][j] == b[i][j],
{
    assert forall|i: int, j: int| 0 <= i < 316 && 0 <= j < sources.len() implies #[trigger] a[i][j]
        == b[i][j] by {
        let source = sources[j]@;
        lemma_wf_view(sources[j]);
        if i < transfer_vectors.len() {
            let hash = transfer_vectors[i].hash;
            assert(crate::transfer::is_transfer_entry(a[i][j], source, hash, tree, index));
            assert(crate::transfer::is_transfer_entry(b[i][j], source, hash, tree, index));
            if exists|t: Octant| in_v_list(source, t, tree) && #[trigger] t.transfer_vector(source) == hash {
                let t = choose|t: Octant|
                    in_v_list(source, t, tree) && #[trigger] t.transfer_vector(source) == hash
                        && a[i][j] == index[t.morton() as u64];
                let u = choose|u: Octant|
                    in_v_list(source, u, tree) && #[trigger] u.transfer_vector(source) == hash
                        && b[i][j] == index[u.morton() as u64];
                crate::transfer::lemma_v_list_unique(source, t, u, tree);
            }
        } else {
            assert(a[i][j] == -1 && b[i][j] == -1);
        }
    }
}

} // verus!
