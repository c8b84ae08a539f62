//! Morton keys: 64-bit space-filling-curve indices of the boxes of an octree.
//!
//! A key holds the anchor of its box, in integer coordinates of the deepest
//! level, and the interleaved code of that anchor followed by the level. The
//! contracts speak of a key through its view, an [`Octant`]: the level and the
//! coordinates of the box in the grid of its own level.

use vstd::prelude::*;
use vstd::arithmetic::power2::pow2;
use vstd::arithmetic::power2::lemma_pow2_unfold;
use vstd::arithmetic::power2::lemma_pow2_pos;
use vstd::arithmetic::power2::lemma2_to64;
use vstd::arithmetic::power2::lemma2_to64_rest;
use vstd::arithmetic::power2::lemma_pow2_strictly_increases;

verus! {

/// Deepest level a key can have.
pub const DEEPEST_LEVEL: u64 = 16;

/// Number of low bits of a code that hold the level.
pub const LEVEL_DISPLACEMENT: u64 = 15;

/// Number of boxes along one axis at the deepest level.
pub const LEVEL_SIZE: u64 = 65536;

/// Two to the power [`LEVEL_DISPLACEMENT`].
pub const LEVEL_MODULUS: u64 = 32768;

/// Number of children of a box.
pub const NSIBLINGS: usize = 8;

/// Interleaving of the low `bits` bits of three coordinates, `x` in the
/// highest place of each triple.
pub open spec fn interleave(x: int, y: int, z: int, bits: nat) -> int
    decreases bits,
{
    if bits == 0 {
        0
    } else {
        8 * interleave(x / 2, y / 2, z / 2, (bits - 1) as nat) + 4 * (x % 2) + 2 * (y % 2) + (z
            % 2)
    }
}

/// Number of boxes along one axis at `level`.
pub open spec fn grid_side(level: int) -> int {
    pow2(level as nat) as int
}

/// A box of the octree, by its level and its coordinates in the grid of that
/// level.
pub struct Octant {
    pub level: int,
    pub x: int,
    pub y: int,
    pub z: int,
}

impl Octant {
    /// The box lies in the domain, at a level that a key can hold.
    pub open spec fn valid(self) -> bool {
        &&& 0 <= self.level <= DEEPEST_LEVEL
        &&& 0 <= self.x < grid_side(self.level)
        &&& 0 <= self.y < grid_side(self.level)
        &&& 0 <= self.z < grid_side(self.level)
    }

    /// Position of the box along the space-filling curve of its level.
    pub open spec fn code(self) -> int {
        interleave(self.x, self.y, self.z, self.level as nat)
    }

    /// The 64-bit code of the box: its anchor interleaved, then the level.
    pub open spec fn morton(self) -> int {
        let shift = grid_side(DEEPEST_LEVEL - self.level);
        interleave(self.x * shift, self.y * shift, self.z * shift, DEEPEST_LEVEL as nat)
            * LEVEL_MODULUS + self.level
    }

    /// The box one level up that contains this one.
    pub open spec fn parent(self) -> Octant {
        Octant { level: self.level - 1, x: self.x / 2, y: self.y / 2, z: self.z / 2 }
    }

    /// The `s`-th of the eight boxes that this one splits into.
    pub open spec fn child(self, s: int) -> Octant {
        Octant {
            level: self.level + 1,
            x: 2 * self.x + s / 4,
            y: 2 * self.y + (s / 2) % 2,
            z: 2 * self.z + s % 2,
        }
    }

    /// Which child of its parent the box is.
    pub open spec fn sibling_index(self) -> int {
        4 * (self.x % 2) + 2 * (self.y % 2) + self.z % 2
    }

    /// The box of the same level moved by a whole number of boxes.
    pub open spec fn shifted(self, dx: int, dy: int, dz: int) -> Octant {
        Octant { level: self.level, x: self.x + dx, y: self.y + dy, z: self.z + dz }
    }

    /// Side of the box, in boxes of the deepest level.
    pub open spec fn size(self) -> int {
        grid_side(DEEPEST_LEVEL - self.level)
    }

    /// The box `other` lies inside this one, or is this one.
    pub open spec fn contains(self, other: Octant) -> bool {
        &&& self.level <= other.level
        &&& self.x * self.size() <= other.x * other.size() < self.x * self.size() + self.size()
        &&& self.y * self.size() <= other.y * other.size() < self.y * self.size() + self.size()
        &&& self.z * self.size() <= other.z * other.size() < self.z * self.size() + self.size()
    }

    /// The closed boxes meet: along every axis each begins no later than the
    /// other ends.
    pub open spec fn touches(self, other: Octant) -> bool {
        &&& self.x * self.size() <= other.x * other.size() + other.size()
        &&& other.x * other.size() <= self.x * self.size() + self.size()
        &&& self.y * self.size() <= other.y * other.size() + other.size()
        &&& other.y * other.size() <= self.y * self.size() + self.size()
        &&& self.z * self.size() <= other.z * other.size() + other.size()
        &&& other.z * other.size() <= self.z * self.size() + self.size()
    }

    /// Two boxes, of any two levels, that share a face, an edge or a corner
    /// and of which neither lies inside the other.
    pub open spec fn adjacent(self, other: Octant) -> bool {
        &&& self.touches(other)
        &&& !self.contains(other)
        &&& !other.contains(self)
    }

    /// The `i`-th of the 26 boxes of the same level around this one, which
    /// may lie outside the domain.
    pub open spec fn neighbour(self, i: int) -> Octant {
        let d = direction(i);
        self.shifted(d.0, d.1, d.2)
    }

    /// The boxes of the domain among the 26 around this one, in the order of
    /// the directions.
    pub open spec fn neighbours(self) -> Seq<Octant> {
        Seq::new(NNEIGHBOURS as nat, |i: int| self.neighbour(i)).filter(|o: Octant| o.valid())
    }

    /// The box `n` levels up that contains this one.
    pub open spec fn ancestor(self, n: nat) -> Octant
        decreases n,
    {
        if n == 0 {
            self
        } else {
            self.ancestor((n - 1) as nat).parent()
        }
    }

    /// Hash of the position of this box, the target, relative to `source`.
    pub open spec fn transfer_vector(self, source: Octant) -> int {
        transfer_hash(self.x - source.x, self.y - source.y, self.z - source.z)
    }
}

/// Number of boxes of the same level around a box.
pub const NNEIGHBOURS: usize = 26;

/// The `i`-th of the 26 offsets to the boxes around a box: the triples over
/// `-1, 0, 1` in lexicographic order, `(0, 0, 0)` left out.
pub open spec fn direction(i: int) -> (int, int, int) {
    let j = if i < 13 {
        i
    } else {
        i + 1
    };
    (j / 9 - 1, (j / 3) % 3 - 1, j % 3 - 1)
}

/// Maps the integers one to one onto the naturals: `0, -1, 1, -2, 2, ...` to
/// `0, 3, 2, 5, 4, ...`.
pub open spec fn positive_map(v: int) -> int {
    if v < 0 {
        2 * (-v) + 1
    } else {
        2 * v
    }
}

/// Packs the three mapped components of an offset into one number, sixteen
/// bits apart.
pub open spec fn transfer_hash(dx: int, dy: int, dz: int) -> int {
    let px = positive_map(dx) as u64;
    let py = positive_map(dy) as u64;
    let pz = positive_map(dz) as u64;
    ((((px << 16) | py) << 16) | pz) as int
}

/// Views of a sequence of keys.
pub open spec fn views(keys: Seq<MortonKey>) -> Seq<Octant> {
    keys.map_values(|k: MortonKey| k@)
}

/// Some key of the sequence is a key of the box `o`.
pub open spec fn has_view(keys: Seq<MortonKey>, o: Octant) -> bool {
    exists|i: int| 0 <= i < keys.len() && keys[i]@ == o
}

/// Two distinct boxes of one level at most one box apart along every axis.
pub open spec fn near(a: Octant, b: Octant) -> bool {
    &&& a.level == b.level
    &&& a != b
    &&& -1 <= b.x - a.x <= 1
    &&& -1 <= b.y - a.y <= 1
    &&& -1 <= b.z - a.z <= 1
}

/// No two keys of the sequence are keys of the same box.
pub open spec fn distinct_views(keys: Seq<MortonKey>) -> bool {
    forall|a: int, b: int| 0 <= a < b < keys.len() ==> (#[trigger] keys[a])@ != (#[trigger] keys[b])@
}

/// Every key of the sequence is well formed.
pub open spec fn all_wf(keys: Seq<MortonKey>) -> bool {
    forall|i: int| 0 <= i < keys.len() ==> (#[trigger] keys[i]).wf()
}

/// A Morton key.
#[derive(Clone, Copy, Debug)]
pub struct MortonKey {
    /// Coordinates of the box's lowest corner, in boxes of the deepest level.
    pub anchor: [u64; 3],
    /// Interleaved code of the anchor, followed by the level.
    pub morton: u64,
}

impl View for MortonKey {
    type V = Octant;

    open spec fn view(&self) -> Octant {
        let level = (self.morton % LEVEL_MODULUS) as int;
        let shift = grid_side(DEEPEST_LEVEL - level);
        Octant {
            level,
            x: self.anchor[0] as int / shift,
            y: self.anchor[1] as int / shift,
            z: self.anchor[2] as int / shift,
        }
    }
}

impl MortonKey {
    /// Level held in the low bits of the code.
    pub open spec fn spec_level(self) -> int {
        (self.morton % LEVEL_MODULUS) as int
    }

    /// The key is one of a box in the domain: the anchor lies on the grid of
    /// the key's level and the code is that of the anchor.
    pub open spec fn wf(self) -> bool {
        let level = self.spec_level();
        let shift = grid_side(DEEPEST_LEVEL - level);
        &&& level <= DEEPEST_LEVEL
        &&& self.anchor[0] < LEVEL_SIZE
        &&& self.anchor[1] < LEVEL_SIZE
        &&& self.anchor[2] < LEVEL_SIZE
        &&& self.anchor[0] as int % shift == 0
        &&& self.anchor[1] as int % shift == 0
        &&& self.anchor[2] as int % shift == 0
        &&& self.morton == interleave(
            self.anchor[0] as int,
            self.anchor[1] as int,
            self.anchor[2] as int,
            DEEPEST_LEVEL as nat,
        ) * LEVEL_MODULUS + level
    }
}

/// An interleaving of `bits` bits is below `8^bits`, written as `2^(3 bits)`.
pub proof fn lemma_interleave_bound(x: int, y: int, z: int, bits: nat)
    ensures
        0 <= interleave(x, y, z, bits) < pow2(3 * bits),
    decreases bits,
{
    if bits == 0 {
        lemma2_to64();
    } else {
        lemma_interleave_bound(x / 2, y / 2, z / 2, (bits - 1) as nat);
        lemma_pow2_unfold(3 * bits);
        lemma_pow2_unfold((3 * bits - 1) as nat);
        lemma_pow2_unfold((3 * bits - 2) as nat);
    }
}

/// Interleaves the low 16 bits of each coordinate of `anchor` and appends
/// `level`.
pub fn encode_anchor(anchor: &[u64; 3], level: u64) -> (morton: u64)
    requires
        level < LEVEL_MODULUS,
    ensures
        morton == interleave(
            anchor[0] as int,
            anchor[1] as int,
            anchor[2] as int,
            DEEPEST_LEVEL as nat,
        ) * LEVEL_MODULUS + level,
{
    let mut code: u64 = 0;
    let mut weight: u64 = 1;
    let mut x: u64 = anchor[0];
    let mut y: u64 = anchor[1];
    let mut z: u64 = anchor[2];
    let mut k: u64 = 0;
    proof {
        lemma2_to64();
    }
    while k < 16
        invariant
            k <= 16,
            weight == pow2((3 * k) as nat),
            0 <= code < weight,
            interleave(anchor[0] as int, anchor[1] as int, anchor[2] as int, 16) == code + weight
                * interleave(x as int, y as int, z as int, (16 - k) as nat),
        decreases 16 - k,
    {
        let digit: u64 = 4 * (x % 2) + 2 * (y % 2) + z % 2;
        proof {
            let rest = interleave(x as int / 2, y as int / 2, z as int / 2, (15 - k) as nat);
            lemma_pow2_unfold((3 * k + 3) as nat);
            lemma_pow2_unfold((3 * k + 2) as nat);
            lemma_pow2_unfold((3 * k + 1) as nat);
            lemma_pow2_bound_48(k as nat);
            assert(weight * digit <= 7 * weight) by (nonlinear_arith)
                requires
                    digit <= 7,
                    weight >= 0,
            ;
            assert(weight * (8 * rest + digit) == weight * digit + (8 * weight) * rest)
                by (nonlinear_arith);
        }
        code = code + weight * digit;
        weight = weight * 8;
        x = x / 2;
        y = y / 2;
        z = z / 2;
        k = k + 1;
    }
    proof {
        lemma2_to64_rest();
    }
    code * LEVEL_MODULUS + level
}

/// `2^(3k)` stays below `2^48` while `k` is below 16.
proof fn lemma_pow2_bound_48(k: nat)
    requires
        k < 16,
    ensures
        pow2(3 * k) <= 0x2000_0000_0000,
{
    lemma2_to64_rest();
    if 3 * k < 45 {
        lemma_pow2_strictly_increases(3 * k, 45);
    }
}


/// Doubling every coordinate shifts an interleaving by one triple.
pub proof fn lemma_interleave_scaled(x: int, y: int, z: int, bits: nat, shift: nat)
    ensures
        interleave(x * pow2(shift), y * pow2(shift), z * pow2(shift), bits + shift) == interleave(
            x,
            y,
            z,
            bits,
        ) * pow2(3 * shift),
    decreases shift,
{
    if shift == 0 {
        lemma2_to64();
        assert(x * pow2(0) == x && y * pow2(0) == y && z * pow2(0) == z);
        assert(interleave(x, y, z, bits) * pow2(0) == interleave(x, y, z, bits));
    } else {
        let half = pow2((shift - 1) as nat) as int;
        let inner = interleave(x, y, z, bits);
        let low = pow2((3 * (shift - 1)) as nat) as int;
        lemma_pow2_unfold(shift);
        lemma_interleave_scaled(x, y, z, bits, (shift - 1) as nat);
        lemma_pow2_unfold(3 * shift);
        lemma_pow2_unfold((3 * shift - 1) as nat);
        lemma_pow2_unfold((3 * shift - 2) as nat);
        assert(pow2(3 * shift) == 8 * low);
        assert(x * pow2(shift) == 2 * (x * half)) by (nonlinear_arith)
            requires
                pow2(shift) == 2 * half,
        ;
        assert(y * pow2(shift) == 2 * (y * half)) by (nonlinear_arith)
            requires
                pow2(shift) == 2 * half,
        ;
        assert(z * pow2(shift) == 2 * (z * half)) by (nonlinear_arith)
            requires
                pow2(shift) == 2 * half,
        ;
        assert((bits + shift - 1) as nat == bits + (shift - 1) as nat);
        assert(interleave(2 * (x * half), 2 * (y * half), 2 * (z * half), bits + shift) == 8
            * interleave(x * half, y * half, z * half, (bits + shift - 1) as nat));
        assert(8 * (inner * low) == inner * (8 * low)) by (nonlinear_arith);
        assert(interleave(x * half, y * half, z * half, (bits + shift - 1) as nat) == inner * low);
        assert(interleave(2 * (x * half), 2 * (y * half), 2 * (z * half), bits + shift) == inner
            * (8 * low));
    }
}

/// Coordinates below `2^bits` are told apart by their interleaving.
pub proof fn lemma_interleave_injective(
    x1: int,
    y1: int,
    z1: int,
    x2: int,
    y2: int,
    z2: int,
    bits: nat,
)
    requires
        0 <= x1 < pow2(bits),
        0 <= y1 < pow2(bits),
        0 <= z1 < pow2(bits),
        0 <= x2 < pow2(bits),
        0 <= y2 < pow2(bits),
        0 <= z2 < pow2(bits),
        interleave(x1, y1, z1, bits) == interleave(x2, y2, z2, bits),
    ensures
        x1 == x2,
        y1 == y2,
        z1 == z2,
    decreases bits,
{
    if bits == 0 {
        lemma2_to64();
    } else {
        lemma_pow2_unfold(bits);
        lemma_interleave_injective(
            x1 / 2,
            y1 / 2,
            z1 / 2,
            x2 / 2,
            y2 / 2,
            z2 / 2,
            (bits - 1) as nat,
        );
    }
}

/// The code of a child is eight times that of its parent plus its place
/// among the siblings.
pub proof fn lemma_child_code(parent: Octant, s: int)
    requires
        0 <= parent.level,
        0 <= s < 8,
    ensures
        parent.child(s).code() == 8 * parent.code() + s,
        parent.child(s).parent() == parent,
        parent.child(s).sibling_index() == s,
{
}

/// The 64-bit code of a box orders the boxes of one level as `code` does.
pub proof fn lemma_morton_is_code(o: Octant)
    requires
        o.valid(),
    ensures
        o.morton() == o.code() * pow2((3 * (DEEPEST_LEVEL - o.level)) as nat) * LEVEL_MODULUS
            + o.level,
        0 <= o.code() < pow2((3 * o.level) as nat),
{
    let shift = (DEEPEST_LEVEL - o.level) as nat;
    lemma_interleave_scaled(o.x, o.y, o.z, o.level as nat, shift);
    lemma_interleave_bound(o.x, o.y, o.z, o.level as nat);
    assert(o.level as nat + shift == DEEPEST_LEVEL as nat);
}

/// The 64-bit codes order the boxes of one level as their places along the
/// curve do.
pub proof fn lemma_morton_order(a: Octant, b: Octant)
    requires
        a.valid(),
        b.valid(),
        a.level == b.level,
    ensures
        a.morton() < b.morton() <==> a.code() < b.code(),
        a.morton() == b.morton() <==> a.code() == b.code(),
{
    lemma_morton_is_code(a);
    lemma_morton_is_code(b);
    let weight = pow2((3 * (DEEPEST_LEVEL - a.level)) as nat) as int;
    lemma_pow2_pos((3 * (DEEPEST_LEVEL - a.level)) as nat);
    let x = a.code();
    let y = b.code();
    assert(x < y <==> x * weight * 32768 < y * weight * 32768) by (nonlinear_arith)
        requires
            weight > 0,
    ;
    assert(x == y <==> x * weight * 32768 == y * weight * 32768) by (nonlinear_arith)
        requires
            weight > 0,
    ;
}

/// The children of a box follow one another along the curve, and the
/// children of a box come before the children of every later box of its
/// level.
pub proof fn lemma_children_order(p: Octant, q: Octant, s: int, t: int)
    requires
        p.valid(),
        q.valid(),
        p.level == q.level,
        p.level < DEEPEST_LEVEL,
        0 <= s < 8,
        0 <= t < 8,
        p.morton() < q.morton() || (p == q && s < t),
    ensures
        p.child(s).morton() < q.child(t).morton(),
{
    lemma_morton_order(p, q);
    lemma_child_code(p, s);
    lemma_child_code(q, t);
    lemma_pow2_unfold((p.level + 1) as nat);
    assert(p.child(s).valid());
    assert(q.child(t).valid());
    lemma_morton_order(p.child(s), q.child(t));
}

/// The grid of a level has between one and `LEVEL_SIZE` boxes along an axis.
pub proof fn lemma_side_bound(level: int)
    requires
        0 <= level <= DEEPEST_LEVEL,
    ensures
        1 <= grid_side(level) <= LEVEL_SIZE,
{
    lemma2_to64();
    lemma_pow2_pos(level as nat);
    if level < 16 {
        lemma_pow2_strictly_increases(level as nat, 16);
    }
}

/// `2^e` for an exponent up to the deepest level.
pub fn side(e: u64) -> (s: u64)
    requires
        e <= DEEPEST_LEVEL,
    ensures
        s == grid_side(e as int),
        1 <= s <= LEVEL_SIZE,
{
    let mut s: u64 = 1;
    let mut i: u64 = 0;
    proof {
        lemma2_to64();
    }
    while i < e
        invariant
            i <= e <= 16,
            s == pow2(i as nat),
            1 <= s,
            s <= pow2(16),
            pow2(16) == 65536,
        decreases e - i,
    {
        proof {
            lemma_pow2_unfold((i + 1) as nat);
            if i + 1 < 16 {
                lemma_pow2_strictly_increases((i + 1) as nat, 16);
            }
        }
        s = s * 2;
        i = i + 1;
    }
    s
}

impl MortonKey {
    /// The key of the box at `level` with grid coordinates `(x, y, z)`.
    pub fn from_grid(level: u64, x: u64, y: u64, z: u64) -> (key: MortonKey)
        requires
            level <= DEEPEST_LEVEL,
            x < grid_side(level as int),
            y < grid_side(level as int),
            z < grid_side(level as int),
        ensures
            key.wf(),
            key@ == (Octant { level: level as int, x: x as int, y: y as int, z: z as int }),
            key.morton == key@.morton(),
    {
        let shift = side(DEEPEST_LEVEL - level);
        proof {
            let side_l = grid_side(level as int);
            vstd::arithmetic::power2::lemma_pow2_adds(level as nat, (16 - level) as nat);
            lemma2_to64();
            assert(side_l * shift == 65536);
            lemma_scaled_coordinate(x as int, side_l, shift as int);
            lemma_scaled_coordinate(y as int, side_l, shift as int);
            lemma_scaled_coordinate(z as int, side_l, shift as int);
        }
        let anchor: [u64; 3] = [x * shift, y * shift, z * shift];
        let morton = encode_anchor(&anchor, level);
        proof {
            lemma_interleave_bound(anchor[0] as int, anchor[1] as int, anchor[2] as int, 16);
        }
        MortonKey { anchor, morton }
    }

    /// The key of the whole domain.
    pub fn root() -> (key: MortonKey)
        ensures
            key.wf(),
            key@ == (Octant { level: 0, x: 0, y: 0, z: 0 }),
    {
        proof {
            lemma2_to64();
        }
        MortonKey::from_grid(0, 0, 0, 0)
    }

    /// Level of the key.
    pub fn level(&self) -> (level: u64)
        ensures
            level == self.spec_level(),
            level == self@.level,
    {
        self.morton % LEVEL_MODULUS
    }

    /// Coordinates of the box in the grid of its own level.
    pub fn grid(&self) -> (coordinates: (u64, u64, u64))
        requires
            self.wf(),
        ensures
            coordinates.0 == self@.x,
            coordinates.1 == self@.y,
            coordinates.2 == self@.z,
    {
        let shift = side(DEEPEST_LEVEL - self.level());
        (self.anchor[0] / shift, self.anchor[1] / shift, self.anchor[2] / shift)
    }
}

/// A coordinate below the side of its level, scaled to the deepest level,
/// stays in the domain and is found again by division.
proof fn lemma_scaled_coordinate(x: int, side_l: int, shift: int)
    requires
        0 <= x < side_l,
        0 < shift,
        side_l * shift == 65536,
    ensures
        0 <= x * shift < 65536,
        (x * shift) % shift == 0,
        (x * shift) / shift == x,
{
    assert(0 <= x * shift < 65536) by (nonlinear_arith)
        requires
            0 <= x < side_l,
            0 < shift,
            side_l * shift == 65536,
    ;
    vstd::arithmetic::div_mod::lemma_div_multiples_vanish(x, shift);
    vstd::arithmetic::div_mod::lemma_mod_multiples_basic(x, shift);
    assert(x * shift == shift * x) by (nonlinear_arith);
}


/// The view of a well-formed key is a box of the domain, and the key's code
/// is the box's.
pub proof fn lemma_wf_view(key: MortonKey)
    requires
        key.wf(),
    ensures
        key@.valid(),
        key.morton == key@.morton(),
        key.anchor[0] == key@.x * grid_side(DEEPEST_LEVEL - key@.level),
        key.anchor[1] == key@.y * grid_side(DEEPEST_LEVEL - key@.level),
        key.anchor[2] == key@.z * grid_side(DEEPEST_LEVEL - key@.level),
{
    let level = key.spec_level();
    let shift = grid_side(DEEPEST_LEVEL - level);
    let side_l = grid_side(level);
    lemma_pow2_pos((DEEPEST_LEVEL - level) as nat);
    vstd::arithmetic::power2::lemma_pow2_adds(level as nat, (16 - level) as nat);
    lemma2_to64();
    assert(side_l * shift == 65536);
    lemma_grid_coordinate(key.anchor[0] as int, side_l, shift);
    lemma_grid_coordinate(key.anchor[1] as int, side_l, shift);
    lemma_grid_coordinate(key.anchor[2] as int, side_l, shift);
}

/// An anchor on the grid of a level is a grid coordinate times the box size.
proof fn lemma_grid_coordinate(a: int, side_l: int, shift: int)
    requires
        0 <= a < 65536,
        0 < shift,
        side_l * shift == 65536,
        a % shift == 0,
    ensures
        0 <= a / shift < side_l,
        a == (a / shift) * shift,
{
    vstd::arithmetic::div_mod::lemma_fundamental_div_mod(a, shift);
    let q = a / shift;
    assert(a == shift * q);
    assert(q * shift == shift * q) by (nonlinear_arith);
    assert(0 <= q < side_l) by (nonlinear_arith)
        requires
            0 <= shift * q < 65536,
            0 < shift,
            side_l * shift == 65536,
    ;
}

/// Two well-formed keys of the same box are the same key.
pub proof fn lemma_same_view(a: MortonKey, b: MortonKey)
    requires
        a.wf(),
        b.wf(),
        a@ == b@,
    ensures
        a.morton == b.morton,
        a.anchor@ == b.anchor@,
{
    lemma_wf_view(a);
    lemma_wf_view(b);
    assert(a.anchor@ =~= b.anchor@);
}

/// Two well-formed keys with the same code are keys of the same box.
pub proof fn lemma_same_morton(a: MortonKey, b: MortonKey)
    requires
        a.wf(),
        b.wf(),
        a.morton == b.morton,
    ensures
        a@ == b@,
        a.anchor@ == b.anchor@,
{
    lemma2_to64();
    lemma_interleave_injective(
        a.anchor[0] as int,
        a.anchor[1] as int,
        a.anchor[2] as int,
        b.anchor[0] as int,
        b.anchor[1] as int,
        b.anchor[2] as int,
        16,
    );
    assert(a.anchor@ =~= b.anchor@);
}

impl MortonKey {
    /// The key one level up whose box contains this one.
    pub fn parent(&self) -> (parent: MortonKey)
        requires
            self.wf(),
            self@.level >= 1,
        ensures
            parent.wf(),
            parent@ == self@.parent(),
    {
        proof {
            lemma_wf_view(*self);
            lemma_pow2_unfold(self@.level as nat);
        }
        let level = self.level();
        let (x, y, z) = self.grid();
        MortonKey::from_grid(level - 1, x / 2, y / 2, z / 2)
    }

    /// The `s`-th child of the key.
    pub fn child(&self, s: u64) -> (child: MortonKey)
        requires
            self.wf(),
            self@.level < DEEPEST_LEVEL,
            s < 8,
        ensures
            child.wf(),
            child@ == self@.child(s as int),
    {
        proof {
            lemma_wf_view(*self);
            lemma_pow2_unfold((self@.level + 1) as nat);
            lemma_side_bound(self@.level);
        }
        let level = self.level();
        let (x, y, z) = self.grid();
        MortonKey::from_grid(level + 1, 2 * x + s / 4, 2 * y + (s / 2) % 2, 2 * z + s % 2)
    }

    /// The first of the key's children along the curve.
    pub fn first_child(&self) -> (child: MortonKey)
        requires
            self.wf(),
            self@.level < DEEPEST_LEVEL,
        ensures
            child.wf(),
            child@ == self@.child(0),
    {
        self.child(0)
    }

    /// The eight children of the key, in the order of the curve.
    pub fn children(&self) -> (children: Vec<MortonKey>)
        requires
            self.wf(),
            self@.level < DEEPEST_LEVEL,
        ensures
            children.len() == NSIBLINGS,
            forall|s: int|
                0 <= s < 8 ==> (#[trigger] children[s]).wf() && children[s]@ == self@.child(s),
    {
        let mut children: Vec<MortonKey> = Vec::new();
        let mut s: u64 = 0;
        while s < 8
            invariant
                s <= 8,
                self.wf(),
                self@.level < DEEPEST_LEVEL,
                children.len() == s,
                forall|t: int|
                    0 <= t < s ==> (#[trigger] children[t]).wf() && children[t]@ == self@.child(t),
            decreases 8 - s,
        {
            let child = self.child(s);
            children.push(child);
            s = s + 1;
        }
        children
    }

    /// The key and its seven siblings, in the order of the curve.
    pub fn siblings(&self) -> (siblings: Vec<MortonKey>)
        requires
            self.wf(),
            self@.level >= 1,
        ensures
            siblings.len() == NSIBLINGS,
            forall|s: int|
                0 <= s < 8 ==> (#[trigger] siblings[s]).wf() && siblings[s]@
                    == self@.parent().child(s),
    {
        let parent = self.parent();
        parent.children()
    }
}


/// Between boxes of one level, to be adjacent is to differ, by at most one
/// box along every axis.
pub proof fn lemma_adjacent_same_level(a: Octant, b: Octant)
    requires
        a.valid(),
        b.valid(),
        a.level == b.level,
    ensures
        a.adjacent(b) <==> (a != b && -1 <= b.x - a.x <= 1 && -1 <= b.y - a.y <= 1 && -1 <= b.z
            - a.z <= 1),
{
    let size = a.size();
    lemma_side_bound(DEEPEST_LEVEL - a.level);
    lemma_scaled_order(a.x, b.x, size);
    lemma_scaled_order(a.y, b.y, size);
    lemma_scaled_order(a.z, b.z, size);
    lemma_scaled_order(b.x, a.x, size);
    lemma_scaled_order(b.y, a.y, size);
    lemma_scaled_order(b.z, a.z, size);
}

/// Comparisons between two coordinates scaled by one positive size.
proof fn lemma_scaled_order(a: int, b: int, size: int)
    by (nonlinear_arith)
    requires
        size > 0,
    ensures
        a * size <= b * size + size <==> a <= b + 1,
        a * size <= b * size <==> a <= b,
        a * size < b * size + size <==> a < b + 1,
{
}

/// The packed hash of an offset whose mapped components fit in sixteen bits
/// is their weighted sum.
pub proof fn lemma_transfer_hash_sum(dx: int, dy: int, dz: int)
    requires
        -32768 < dx < 32768,
        -32768 < dy < 32768,
        -32768 < dz < 32768,
    ensures
        transfer_hash(dx, dy, dz) == positive_map(dx) * 0x1_0000_0000 + positive_map(dy) * 0x1_0000
            + positive_map(dz),
{
    let px = positive_map(dx) as u64;
    let py = positive_map(dy) as u64;
    let pz = positive_map(dz) as u64;
    assert(((((px << 16) | py) << 16) | pz) == px * 0x1_0000_0000 + py * 0x1_0000 + pz)
        by (bit_vector)
        requires
            px < 0x1_0000,
            py < 0x1_0000,
            pz < 0x1_0000,
    ;
}

impl MortonKey {
    /// The key with the given anchor and level, whether or not the anchor
    /// lies on the grid of that level.
    pub fn from_anchor(anchor: &[u64; 3], level: u64) -> (key: MortonKey)
        requires
            level < LEVEL_MODULUS,
        ensures
            key.anchor@ == anchor@,
            key.morton == interleave(
                anchor[0] as int,
                anchor[1] as int,
                anchor[2] as int,
                DEEPEST_LEVEL as nat,
            ) * LEVEL_MODULUS + level,
            key.spec_level() == level,
    {
        let morton = encode_anchor(anchor, level);
        proof {
            lemma_interleave_bound(anchor[0] as int, anchor[1] as int, anchor[2] as int, 16);
        }
        MortonKey { anchor: *anchor, morton }
    }

    /// Whether the key is one of a box in the domain.
    pub fn is_wf(&self) -> (wf: bool)
        ensures
            wf == self.wf(),
    {
        let level = self.level();
        if level > DEEPEST_LEVEL {
            return false;
        }
        let shift = side(DEEPEST_LEVEL - level);
        if self.anchor[0] >= LEVEL_SIZE || self.anchor[1] >= LEVEL_SIZE || self.anchor[2]
            >= LEVEL_SIZE {
            return false;
        }
        if self.anchor[0] % shift != 0 || self.anchor[1] % shift != 0 || self.anchor[2] % shift
            != 0 {
            return false;
        }
        self.morton == encode_anchor(&self.anchor, level)
    }

    /// The 26 keys of the same level around the key, in the order of the
    /// directions; `None` where the box would lie outside the domain.
    pub fn all_neighbors(&self) -> (around: Vec<Option<MortonKey>>)
        requires
            self.wf(),
        ensures
            around.len() == NNEIGHBOURS,
            forall|i: int|
                0 <= i < 26 ==> match #[trigger] around[i] {
                    Some(k) => k.wf() && k@ == self@.neighbour(i),
                    None => !self@.neighbour(i).valid(),
                },
    {
        proof {
            lemma_wf_view(*self);
            lemma_side_bound(self@.level);
        }
        let level = self.level();
        let (x, y, z) = self.grid();
        let n = side(level);
        let mut around: Vec<Option<MortonKey>> = Vec::new();
        let mut i: u64 = 0;
        while i < 26
            invariant
                i <= 26,
                self.wf(),
                self@.valid(),
                level == self@.level,
                x == self@.x,
                y == self@.y,
                z == self@.z,
                n == grid_side(level as int),
                n <= LEVEL_SIZE,
                around.len() == i,
                forall|t: int|
                    0 <= t < i ==> match #[trigger] around[t] {
                        Some(k) => k.wf() && k@ == self@.neighbour(t),
                        None => !self@.neighbour(t).valid(),
                    },
            decreases 26 - i,
        {
            let j: u64 = if i < 13 {
                i
            } else {
                i + 1
            };
            let ox: u64 = j / 9;
            let oy: u64 = (j / 3) % 3;
            let oz: u64 = j % 3;
            let inside = x + ox >= 1 && x + ox - 1 < n && y + oy >= 1 && y + oy - 1 < n && z + oz
                >= 1 && z + oz - 1 < n;
            if inside {
                let key = MortonKey::from_grid(level, x + ox - 1, y + oy - 1, z + oz - 1);
                around.push(Some(key));
            } else {
                around.push(None);
            }
            i = i + 1;
        }
        around
    }

    /// The keys of the boxes of the domain around the key, in the order of
    /// the directions.
    pub fn neighbors(&self) -> (around: Vec<MortonKey>)
        requires
            self.wf(),
        ensures
            all_wf(around@),
            views(around@) == self@.neighbours(),
            around.len() <= NNEIGHBOURS,
            forall|i: int|
                0 <= i < 26 && self@.neighbour(i).valid() ==> #[trigger] has_view(
                    around@,
                    self@.neighbour(i),
                ),
            forall|a: int|
                0 <= a < around.len() ==> near(self@, (#[trigger] around[a])@) && around[a]@.valid(),
            distinct_views(around@),
    {
        let all = self.all_neighbors();
        let ghost mut dirs: Seq<int> = Seq::empty();
        let ghost boxes = Seq::new(NNEIGHBOURS as nat, |i: int| self@.neighbour(i));
        let ghost inside = |o: Octant| o.valid();
        let mut around: Vec<MortonKey> = Vec::new();
        let mut i: usize = 0;
        proof {
            reveal(Seq::filter);
            assert(boxes.take(0) =~= Seq::<Octant>::empty());
            assert(views(around@) =~= boxes.take(0).filter(inside));
        }
        while i < 26
            invariant
                i <= 26,
                self.wf(),
                all.len() == 26,
                boxes == Seq::new(NNEIGHBOURS as nat, |i: int| self@.neighbour(i)),
                inside == |o: Octant| o.valid(),
                forall|t: int|
                    0 <= t < 26 ==> match #[trigger] all[t] {
                        Some(k) => k.wf() && k@ == self@.neighbour(t),
                        None => !self@.neighbour(t).valid(),
                    },
                all_wf(around@),
                around.len() <= i,
                views(around@) == boxes.take(i as int).filter(inside),
                forall|t: int|
                    0 <= t < i && self@.neighbour(t).valid() ==> #[trigger] has_view(
                        around@,
                        self@.neighbour(t),
                    ),
                forall|a: int|
                    0 <= a < around.len() ==> near(self@, (#[trigger] around[a])@)
                        && around[a]@.valid(),
                dirs.len() == around.len(),
                forall|a: int|
                    0 <= a < around.len() ==> 0 <= #[trigger] dirs[a] < i && around[a]@
                        == self@.neighbour(dirs[a]),
                forall|a: int, b: int| 0 <= a < b < dirs.len() ==> dirs[a] < dirs[b],
            decreases 26 - i,
        {
            let ghost before = around@;
            proof {
                boxes.take(i as int).lemma_filter_push(boxes[i as int], inside);
                assert(boxes.take(i as int).push(boxes[i as int]) =~= boxes.take(i + 1));
                lemma_wf_view(*self);
            }
            match all[i] {
                Some(key) => {
                    proof {
                        lemma_wf_view(key);
                        assert(views(around@.push(key)) =~= views(around@).push(key@));
                    }
                    around.push(key);
                    proof {
                        assert(around@[around.len() - 1]@ == self@.neighbour(i as int));
                        dirs = dirs.push(i as int);
                    }
                },
                None => {},
            }
            proof {
                assert forall|t: int|
                    0 <= t < i + 1 && self@.neighbour(t).valid() implies #[trigger] has_view(
                    around@,
                    self@.neighbour(t),
                ) by {
                    if t < i {
                        assert(has_view(before, self@.neighbour(t)));
                        let w = choose|w: int|
                            0 <= w < before.len() && before[w]@ == self@.neighbour(t);
                        assert(around@[w]@ == self@.neighbour(t));
                    }
                }
            }
            i = i + 1;
        }
        proof {
            assert(boxes.take(26) =~= boxes);
            assert forall|a: int, b: int| 0 <= a < b < around.len() implies (#[trigger] around[a])@
                != (#[trigger] around[b])@ by {
                assert(dirs[a] < dirs[b]);
                lemma_directions_differ(dirs[a], dirs[b]);
            }
        }
        around
    }

    /// Whether the boxes of the two keys share a face, an edge or a corner
    /// without one lying inside the other.
    pub fn is_adjacent(&self, other: &MortonKey) -> (adjacent: bool)
        requires
            self.wf(),
            other.wf(),
        ensures
            adjacent == self@.adjacent(other@),
    {
        proof {
            lemma_wf_view(*self);
            lemma_wf_view(*other);
        }
        let sa = side(DEEPEST_LEVEL - self.level());
        let sb = side(DEEPEST_LEVEL - other.level());
        let a = &self.anchor;
        let b = &other.anchor;
        let touches = a[0] <= b[0] + sb && b[0] <= a[0] + sa && a[1] <= b[1] + sb && b[1] <= a[1]
            + sa && a[2] <= b[2] + sb && b[2] <= a[2] + sa;
        let self_contains = self.level() <= other.level() && a[0] <= b[0] && b[0] < a[0] + sa
            && a[1] <= b[1] && b[1] < a[1] + sa && a[2] <= b[2] && b[2] < a[2] + sa;
        let other_contains = other.level() <= self.level() && b[0] <= a[0] && a[0] < b[0] + sb
            && b[1] <= a[1] && a[1] < b[1] + sb && b[2] <= a[2] && a[2] < b[2] + sb;
        touches && !self_contains && !other_contains
    }

    /// Hash of the position of this key, the target, relative to `source`,
    /// a key of the same level. It depends on the offset between the two
    /// boxes alone, counted in boxes of their level.
    pub fn find_transfer_vector(&self, source: &MortonKey) -> (hash: u64)
        requires
            self.wf(),
            source.wf(),
            self@.level == source@.level,
        ensures
            hash == self@.transfer_vector(source@),
    {
        proof {
            lemma_wf_view(*self);
            lemma_wf_view(*source);
            lemma_side_bound(self@.level);
        }
        let (tx, ty, tz) = self.grid();
        let (sx, sy, sz) = source.grid();
        let px = mapped_difference(tx, sx);
        let py = mapped_difference(ty, sy);
        let pz = mapped_difference(tz, sz);
        (((px << 16) | py) << 16) | pz
    }

    /// The key and the keys of the boxes that contain it, from the key
    /// itself up to the root.
    pub fn ancestors(&self) -> (chain: Vec<MortonKey>)
        requires
            self.wf(),
        ensures
            chain.len() == self@.level + 1,
            forall|n: int|
                0 <= n <= self@.level ==> (#[trigger] chain[n]).wf() && chain[n]@
                    == self@.ancestor(n as nat),
    {
        let mut chain: Vec<MortonKey> = Vec::new();
        let mut current = *self;
        chain.push(current);
        let mut n: u64 = 0;
        let level = self.level();
        while n < level
            invariant
                n <= level,
                level == self@.level,
                current.wf(),
                current@ == self@.ancestor(n as nat),
                current@.level == level - n,
                chain.len() == n + 1,
                forall|m: int|
                    0 <= m <= n ==> (#[trigger] chain[m]).wf() && chain[m]@ == self@.ancestor(
                        m as nat,
                    ),
            decreases level - n,
        {
            current = current.parent();
            chain.push(current);
            n = n + 1;
        }
        chain
    }
}

/// Two of the 26 directions are two offsets.
pub proof fn lemma_directions_differ(i: int, j: int)
    requires
        0 <= i < j < 26,
    ensures
        direction(i) != direction(j),
{
}

/// `positive_map` of the difference of two grid coordinates.
fn mapped_difference(target: u64, source: u64) -> (mapped: u64)
    requires
        target < LEVEL_SIZE,
        source < LEVEL_SIZE,
    ensures
        mapped == positive_map(target - source),
        mapped == positive_map(target - source) as u64,
{
    if target < source {
        2 * (source - target) + 1
    } else {
        2 * (target - source)
    }
}

} // verus!
