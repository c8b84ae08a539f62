//! Simple example grids: a sphere of triangles, made by refining an
//! octahedron.
//!
//! The sphere is given by its triangles and, for each point, by the way the
//! point is found from earlier ones. Whoever needs coordinates walks the
//! points in order.

use vstd::prelude::*;
use std::collections::HashMap;

verus! {

broadcast use vstd::std_specs::hash::group_hash_axioms;

/// How a point of the sphere is found.
#[derive(Clone, Copy, Debug, PartialEq, Eq, Structural)]
pub enum SpherePoint {
    /// A corner of the octahedron, with the given coordinates.
    Corner(i8, i8, i8),
    /// The point of the sphere above the middle of the edge between two
    /// earlier points, the one with the smaller number first.
    EdgeMidpoint(usize, usize),
    /// The point of the sphere above the centre of the triangle of three
    /// earlier points.
    Centroid(usize, usize, usize),
}

/// A sphere of triangles.
pub struct RegularSphere {
    /// The points, each by the way it is found.
    pub points: Vec<SpherePoint>,
    /// The triangles, each by the numbers of its three points.
    pub cells: Vec<[usize; 3]>,
}

/// The points and triangles of a sphere, as sequences.
pub struct SphereModel {
    pub points: Seq<SpherePoint>,
    pub cells: Seq<[usize; 3]>,
}

impl View for RegularSphere {
    type V = SphereModel;

    open spec fn view(&self) -> SphereModel {
        SphereModel { points: self.points@, cells: self.cells@ }
    }
}

/// The six corners of the octahedron.
pub open spec fn octahedron_points() -> Seq<SpherePoint> {
    seq![
        SpherePoint::Corner(0, 0, 1),
        SpherePoint::Corner(1, 0, 0),
        SpherePoint::Corner(0, 1, 0),
        SpherePoint::Corner(-1i8, 0, 0),
        SpherePoint::Corner(0, -1i8, 0),
        SpherePoint::Corner(0, 0, -1i8),
    ]
}

/// The point numbers of the eight faces of the octahedron.
pub open spec fn octahedron_cell(c: int) -> (int, int, int) {
    if c == 0 {
        (0, 1, 2)
    } else if c == 1 {
        (0, 2, 3)
    } else if c == 2 {
        (0, 3, 4)
    } else if c == 3 {
        (0, 4, 1)
    } else if c == 4 {
        (5, 2, 1)
    } else if c == 5 {
        (5, 3, 2)
    } else if c == 6 {
        (5, 4, 3)
    } else {
        (5, 1, 4)
    }
}

/// The sphere is the octahedron.
pub open spec fn is_octahedron(s: SphereModel) -> bool {
    &&& s.points == octahedron_points()
    &&& s.cells.len() == 8
    &&& forall|c: int|
        0 <= c < 8 ==> (#[trigger] s.cells[c])[0] == octahedron_cell(c).0 && s.cells[c][1]
            == octahedron_cell(c).1 && s.cells[c][2] == octahedron_cell(c).2
}

/// The recipe of the point above the middle of the edge between `a` and `b`.
pub open spec fn edge_point(a: usize, b: usize) -> SpherePoint {
    if a <= b {
        SpherePoint::EdgeMidpoint(a, b)
    } else {
        SpherePoint::EdgeMidpoint(b, a)
    }
}

/// The `k`-th of the six triangles that the triangle `(v0, v1, v2)` splits
/// into, where `e0`, `e1` and `e2` are the points above the middles of the
/// edges opposite `v0`, `v1` and `v2`, and `mid` the point above the centre.
pub open spec fn split_cell(
    v: [usize; 3],
    e0: usize,
    e1: usize,
    e2: usize,
    mid: usize,
    k: int,
) -> (usize, usize, usize) {
    if k == 0 {
        (v[0], e2, mid)
    } else if k == 1 {
        (v[0], mid, e1)
    } else if k == 2 {
        (v[1], e0, mid)
    } else if k == 3 {
        (v[1], mid, e2)
    } else if k == 4 {
        (v[2], e1, mid)
    } else {
        (v[2], mid, e0)
    }
}

/// The triangles `6 c` to `6 c + 5` of `fine` are what the triangle `c` of
/// `coarse` splits into.
pub open spec fn splits(fine: SphereModel, coarse: SphereModel, c: int) -> bool {
    let v = coarse.cells[c];
    let e0 = fine.cells[6 * c + 2][1];
    let e1 = fine.cells[6 * c + 4][1];
    let e2 = fine.cells[6 * c][1];
    let mid = fine.cells[6 * c][2];
    &&& coarse.points.len() <= e0 < fine.points.len()
    &&& coarse.points.len() <= e1 < fine.points.len()
    &&& coarse.points.len() <= e2 < fine.points.len()
    &&& coarse.points.len() <= mid < fine.points.len()
    &&& fine.points[e0 as int] == edge_point(v[1], v[2])
    &&& fine.points[e1 as int] == edge_point(v[0], v[2])
    &&& fine.points[e2 as int] == edge_point(v[0], v[1])
    &&& fine.points[mid as int] == SpherePoint::Centroid(v[0], v[1], v[2])
    &&& forall|k: int|
        0 <= k < 6 ==> (#[trigger] fine.cells[6 * c + k])[0] == split_cell(v, e0, e1, e2, mid, k).0
            && fine.cells[6 * c + k][1] == split_cell(v, e0, e1, e2, mid, k).1 && fine.cells[6 * c
            + k][2] == split_cell(v, e0, e1, e2, mid, k).2
}

/// The points that the triangle `c` of `coarse` brings about are numbered
/// in turn: behind the last point that was there when its turn came, first
/// the points above the middles of its edges, as far as no earlier triangle
/// brought them about, in the order of the corners opposite them, and then
/// the point above its centre.
pub open spec fn numbered_in_turn(fine: SphereModel, coarse: SphereModel, c: int) -> bool {
    let last = if c == 0 {
        coarse.points.len() - 1
    } else {
        fine.cells[6 * (c - 1)][2] as int
    };
    let e0 = fine.cells[6 * c + 2][1] as int;
    let e1 = fine.cells[6 * c + 4][1] as int;
    let e2 = fine.cells[6 * c][1] as int;
    let mid = fine.cells[6 * c][2] as int;
    let n0: int = if e0 > last {
        1
    } else {
        0
    };
    let n1: int = if e1 > last {
        1
    } else {
        0
    };
    let n2: int = if e2 > last {
        1
    } else {
        0
    };
    &&& e0 > last ==> e0 == last + 1
    &&& e1 > last ==> e1 == last + n0 + 1
    &&& e2 > last ==> e2 == last + n0 + n1 + 1
    &&& mid == last + n0 + n1 + n2 + 1
}

/// The point is the point above the middle of an edge or above the centre
/// of one of the first `n` triangles.
pub open spec fn made_from(cells: Seq<[usize; 3]>, n: int, point: SpherePoint) -> bool {
    exists|c: int|
        0 <= c < n && (point == edge_point((#[trigger] cells[c])[1], cells[c][2]) || point
            == edge_point(cells[c][0], cells[c][2]) || point == edge_point(cells[c][0], cells[c][1])
            || point == SpherePoint::Centroid(cells[c][0], cells[c][1], cells[c][2]))
}

/// `fine` is `coarse` refined once: it keeps the points of `coarse`, adds
/// the points above the middle of each edge and above the centre of each
/// triangle, each once, and no others, and splits every triangle into six.
pub open spec fn refines(fine: SphereModel, coarse: SphereModel) -> bool {
    &&& coarse.points.len() <= fine.points.len()
    &&& fine.points.subrange(0, coarse.points.len() as int) == coarse.points
    &&& fine.cells.len() == 6 * coarse.cells.len()
    &&& forall|c: int| 0 <= c < coarse.cells.len() ==> #[trigger] splits(fine, coarse, c)
    &&& forall|c: int| 0 <= c < coarse.cells.len() ==> #[trigger] numbered_in_turn(fine, coarse, c)
    &&& forall|p: int|
        coarse.points.len() <= p < fine.points.len() ==> made_from(
            coarse.cells,
            coarse.cells.len() as int,
            #[trigger] fine.points[p],
        )
    &&& forall|i: int, j: int|
        0 <= i < j < fine.points.len() ==> #[trigger] fine.points[i] != #[trigger] fine.points[j]
}

/// Each sphere of the chain but the first, the octahedron, is the one before
/// it refined once.
pub open spec fn is_refinement_chain(chain: Seq<SphereModel>) -> bool {
    &&& chain.len() >= 1
    &&& is_octahedron(chain[0])
    &&& forall|k: int| 1 <= k < chain.len() ==> refines(#[trigger] chain[k], chain[k - 1])
}

/// The sphere is the octahedron refined `level` times.
pub open spec fn is_regular_sphere(s: SphereModel, level: nat) -> bool {
    exists|chain: Seq<SphereModel>|
        #[trigger] is_refinement_chain(chain) && chain.len() == level + 1 && chain.last() == s
}

/// The key under which the edge between the points `a` and `b`, `a` the
/// smaller, is kept while a sphere is refined.
pub open spec fn edge_key(a: usize, b: usize) -> u128 {
    (a as u128 * 0x1_0000_0000_0000_0000 + b as u128) as u128
}

/// What holds of a sphere between two refinements. Every triangle has
/// points of the sphere as corners, the second and third of them not older
/// than `floor`; the recipes of the points speak of points older than
/// `floor`; no two points have the same recipe and no two triangles the same
/// corners.
pub open spec fn refinable(s: SphereModel, floor: int) -> bool {
    &&& 0 <= floor <= s.points.len()
    &&& forall|c: int|
        0 <= c < s.cells.len() ==> (#[trigger] s.cells[c])[0] < s.points.len() && floor
            <= s.cells[c][1] < s.points.len() && floor <= s.cells[c][2] < s.points.len()
    &&& forall|c: int|
        0 <= c < s.cells.len() ==> (#[trigger] s.cells[c])[0] != s.cells[c][1] && s.cells[c][1]
            != s.cells[c][2] && s.cells[c][0] != s.cells[c][2]
    &&& forall|i: int|
        0 <= i < s.points.len() ==> match #[trigger] s.points[i] {
            SpherePoint::Corner(_, _, _) => true,
            SpherePoint::EdgeMidpoint(a, b) => a < b < floor,
            SpherePoint::Centroid(a, b, c) => a < floor && b < floor && c < floor,
        }
    &&& forall|i: int, j: int|
        0 <= i < j < s.points.len() ==> #[trigger] s.points[i] != #[trigger] s.points[j]
    &&& forall|c: int, d: int|
        0 <= c < d < s.cells.len() ==> (#[trigger] s.cells[c])[0] != (#[trigger] s.cells[d])[0]
            || s.cells[c][1] != s.cells[d][1] || s.cells[c][2] != s.cells[d][2]
}

/// The number of the point above the middle of the edge between the points
/// `p` and `q`; the point is made where the sphere does not have it yet.
fn edge_midpoint(
    points: &mut Vec<SpherePoint>,
    edge_points: &mut HashMap<u128, usize>,
    p: usize,
    q: usize,
    Ghost(start): Ghost<int>,
    Ghost(floor): Ghost<int>,
) -> (number: usize)
    requires
        0 <= floor <= start <= old(points).len(),
        p < start,
        q < start,
        p >= floor || q >= floor,
        p != q,
        forall|i: int|
            0 <= i < start ==> match #[trigger] old(points)[i] {
                SpherePoint::Corner(_, _, _) => true,
                SpherePoint::EdgeMidpoint(a, b) => b < floor,
                SpherePoint::Centroid(a, b, c) => c < floor,
            },
        forall|i: int|
            start <= i < old(points).len() ==> match #[trigger] old(points)[i] {
                SpherePoint::Corner(_, _, _) => false,
                SpherePoint::EdgeMidpoint(a, b) => a < b < start && old(edge_points)@.contains_key(
                    edge_key(a, b),
                ) && old(edge_points)@[edge_key(a, b)] == i,
                SpherePoint::Centroid(a, b, c) => true,
            },
        forall|k: u128| #[trigger]
            old(edge_points)@.contains_key(k) ==> start <= old(edge_points)@[k] < old(points).len() && exists|a: usize, b: usize|
                a < b && k == edge_key(a, b) && old(points)[old(edge_points)@[k] as int]
                    == SpherePoint::EdgeMidpoint(a, b),
        forall|i: int, j: int|
            0 <= i < j < old(points).len() ==> #[trigger] old(points)[i] != #[trigger] old(points)[j],
    ensures
        start <= number < final(points).len(),
        final(points)[number as int] == edge_point(p, q),
        old(points).len() <= final(points).len() <= old(points).len() + 1,
        final(points)@.subrange(0, old(points).len() as int) == old(points)@,
        final(points).len() == old(points).len() + 1 ==> number == old(points).len(),
        forall|i: int|
            start <= i < final(points).len() ==> match #[trigger] final(points)[i] {
                SpherePoint::Corner(_, _, _) => false,
                SpherePoint::EdgeMidpoint(a, b) => a < b < start && final(edge_points)@.contains_key(edge_key(a, b)) && final(edge_points)@[edge_key(a, b)] == i,
                SpherePoint::Centroid(a, b, c) => true,
            },
        forall|k: u128| #[trigger]
            final(edge_points)@.contains_key(k) ==> start <= final(edge_points)@[k] < final(points).len() && exists|a: usize, b: usize|
                a < b && k == edge_key(a, b) && final(points)[final(edge_points)@[k] as int]
                    == SpherePoint::EdgeMidpoint(a, b),
        forall|i: int, j: int|
            0 <= i < j < final(points).len() ==> #[trigger] final(points)[i] != #[trigger] final(points)[j],
{
    let (a, b) = if p <= q {
        (p, q)
    } else {
        (q, p)
    };
    let key: u128 = a as u128 * 0x1_0000_0000_0000_0000 + b as u128;
    match edge_points.get(&key) {
        Some(number) => {
            let number = *number;
            proof {
                let (c, d) = choose|c: usize, d: usize|
                    c < d && key == edge_key(c, d) && points[number as int]
                        == SpherePoint::EdgeMidpoint(c, d);
                lemma_edge_key_injective(a, b, c, d);
            }
            number
        },
        None => {
            let number = points.len();
            let ghost before = points@;
            points.push(SpherePoint::EdgeMidpoint(a, b));
            edge_points.insert(key, number);
            proof {
                assert(points@.subrange(0, before.len() as int) =~= before);
                assert forall|k: u128| #[trigger] edge_points@.contains_key(k) implies start
                    <= edge_points@[k] < points.len() && exists|a: usize, b: usize|
                    a < b && k == edge_key(a, b) && points[edge_points@[k] as int]
                        == SpherePoint::EdgeMidpoint(a, b) by {
                    if k == key {
                        assert(a < b && k == edge_key(a, b) && points[number as int]
                            == SpherePoint::EdgeMidpoint(a, b));
                    } else {
                        let (c, d) = choose|c: usize, d: usize|
                            c < d && k == edge_key(c, d) && before[old(edge_points)@[k] as int]
                                == SpherePoint::EdgeMidpoint(c, d);
                        assert(c < d && k == edge_key(c, d) && points[edge_points@[k] as int]
                            == SpherePoint::EdgeMidpoint(c, d));
                    }
                }
                assert forall|i: int| start <= i < points.len() implies match #[trigger] points[i] {
                    SpherePoint::Corner(_, _, _) => false,
                    SpherePoint::EdgeMidpoint(c, d) => c < d < start && edge_points@.contains_key(
                        edge_key(c, d),
                    ) && edge_points@[edge_key(c, d)] == i,
                    SpherePoint::Centroid(_, _, _) => true,
                } by {
                    if i < before.len() {
                        assert(points[i] == before[i]);
                        match before[i] {
                            SpherePoint::EdgeMidpoint(c, d) => {
                                if edge_key(c, d) == key {
                                    lemma_edge_key_injective(a, b, c, d);
                                }
                            },
                            _ => {},
                        }
                    }
                }
                assert forall|i: int, j: int| 0 <= i < j < points.len() implies #[trigger] points[i]
                    != #[trigger] points[j] by {
                    if j == number {
                        assert(points[i] == before[i]);
                        if i < start {
                            assert(b >= floor);
                        } else {
                            match before[i] {
                                SpherePoint::EdgeMidpoint(c, d) => {
                                    if c == a && d == b {
                                        assert(old(edge_points)@.contains_key(key));
                                    }
                                },
                                _ => {},
                            }
                        }
                    } else {
                        assert(points[i] == before[i] && points[j] == before[j]);
                    }
                }
            }
            number
        },
    }
}

/// Two edges with the same key are the same edge.
proof fn lemma_edge_key_injective(a: usize, b: usize, c: usize, d: usize)
    requires
        edge_key(a, b) == edge_key(c, d),
    ensures
        a == c,
        b == d,
{
    assert(a as u128 * 0x1_0000_0000_0000_0000 + b as u128 <= u128::MAX);
    assert(c as u128 * 0x1_0000_0000_0000_0000 + d as u128 <= u128::MAX);
    if a < c {
        assert(a * 0x1_0000_0000_0000_0000 + 0x1_0000_0000_0000_0000 <= c
            * 0x1_0000_0000_0000_0000);
    }
    if c < a {
        assert(c * 0x1_0000_0000_0000_0000 + 0x1_0000_0000_0000_0000 <= a
            * 0x1_0000_0000_0000_0000);
    }
}

/// The centre point of some triangle before triangle `c` has the recipe
/// `Centroid(x, y, z)`.
pub open spec fn is_cell_before(cells: Seq<[usize; 3]>, c: int, x: usize, y: usize, z: usize) -> bool {
    exists|d: int| 0 <= d < c && cells[d][0] == x && cells[d][1] == y && cells[d][2] == z
}

/// A sphere refined once can be refined again.
proof fn lemma_refined_is_refinable(fine: SphereModel, coarse: SphereModel, floor: int)
    requires
        refinable(coarse, floor),
        refines(fine, coarse),
        forall|i: int|
            coarse.points.len() <= i < fine.points.len() ==> match #[trigger] fine.points[i] {
                SpherePoint::Corner(_, _, _) => false,
                SpherePoint::EdgeMidpoint(a, b) => a < b < coarse.points.len(),
                SpherePoint::Centroid(a, b, c) => a < coarse.points.len() && b
                    < coarse.points.len() && c < coarse.points.len(),
            },
    ensures
        refinable(fine, coarse.points.len() as int),
{
    let start = coarse.points.len() as int;
    assert forall|x: int| 0 <= x < fine.cells.len() implies (#[trigger] fine.cells[x])[0]
        < fine.points.len() && start <= fine.cells[x][1] < fine.points.len() && start
        <= fine.cells[x][2] < fine.points.len() && fine.cells[x][0] != fine.cells[x][1]
        && fine.cells[x][1] != fine.cells[x][2] && fine.cells[x][0] != fine.cells[x][2] by {
        let d = x / 6;
        let k = x % 6;
        assert(splits(fine, coarse, d));
        assert(fine.cells[6 * d + k] == fine.cells[x]);
        let v = coarse.cells[d];
        assert(v[0] < coarse.points.len());
    }
    assert forall|i: int| 0 <= i < fine.points.len() implies match #[trigger] fine.points[i] {
        SpherePoint::Corner(_, _, _) => true,
        SpherePoint::EdgeMidpoint(a, b) => a < b < start,
        SpherePoint::Centroid(a, b, c) => a < start && b < start && c < start,
    } by {
        if i < start {
            assert(fine.points[i] == coarse.points[i]);
        }
    }
    assert forall|x: int, y: int| 0 <= x < y < fine.cells.len() implies (#[trigger] fine.cells[x])[0]
        != (#[trigger] fine.cells[y])[0] || fine.cells[x][1] != fine.cells[y][1]
        || fine.cells[x][2] != fine.cells[y][2] by {
        let d = x / 6;
        let k = x % 6;
        let e = y / 6;
        let l = y % 6;
        assert(splits(fine, coarse, d));
        assert(splits(fine, coarse, e));
        assert(fine.cells[6 * d + k] == fine.cells[x]);
        assert(fine.cells[6 * e + l] == fine.cells[y]);
        let v = coarse.cells[d];
        let w = coarse.cells[e];
        let mid_d = fine.cells[6 * d][2];
        let mid_e = fine.cells[6 * e][2];
        if d != e {
            assert(v[0] != w[0] || v[1] != w[1] || v[2] != w[2]);
            assert(fine.points[mid_d as int] != fine.points[mid_e as int]);
            assert(mid_d != mid_e);
        }
    }
}

/// Refines a sphere once: every triangle is split into six, around the point
/// above its centre and through the points above the middles of its edges.
#[verifier::rlimit(40)]
pub fn refine(sphere: RegularSphere) -> (fine: RegularSphere)
    requires
        exists|floor: int| refinable(sphere@, floor),
    ensures
        refines(fine@, sphere@),
        refinable(fine@, sphere.points.len() as int),
        forall|i: int|
            sphere.points.len() <= i < fine.points.len() ==> !(#[trigger] fine.points[i] is Corner),
{
    let ghost coarse = sphere@;
    let ghost floor = choose|floor: int| refinable(sphere@, floor);
    let ghost start = sphere.points.len() as int;
    let cells = sphere.cells;
    let mut points = sphere.points;
    let mut edge_points: HashMap<u128, usize> = HashMap::new();
    let mut new_cells: Vec<[usize; 3]> = Vec::new();
    let mut c: usize = 0;
    while c < cells.len()
        invariant
            c <= cells.len(),
            cells@ == coarse.cells,
            refinable(coarse, floor),
            start == coarse.points.len(),
            start <= points.len(),
            points@.subrange(0, start) == coarse.points,
            forall|i: int|
                start <= i < points.len() ==> match #[trigger] points[i] {
                    SpherePoint::Corner(_, _, _) => false,
                    SpherePoint::EdgeMidpoint(a, b) => a < b < start && edge_points@.contains_key(
                        edge_key(a, b),
                    ) && edge_points@[edge_key(a, b)] == i,
                    SpherePoint::Centroid(x, y, z) => is_cell_before(cells@, c as int, x, y, z),
                },
            forall|k: u128| #[trigger]
                edge_points@.contains_key(k) ==> start <= edge_points@[k] < points.len()
                    && exists|a: usize, b: usize|
                    a < b && k == edge_key(a, b) && points[edge_points@[k] as int]
                        == SpherePoint::EdgeMidpoint(a, b),
            forall|i: int, j: int|
                0 <= i < j < points.len() ==> #[trigger] points[i] != #[trigger] points[j],
            forall|i: int|
                start <= i < points.len() ==> made_from(cells@, c as int, #[trigger] points[i]),
            new_cells.len() == 6 * c,
            forall|d: int|
                0 <= d < c ==> #[trigger] splits(
                    SphereModel { points: points@, cells: new_cells@ },
                    coarse,
                    d,
                ),
            c == 0 ==> points.len() == start,
            c > 0 ==> points.len() - 1 == new_cells[6 * (c - 1)][2],
            forall|d: int|
                0 <= d < c ==> #[trigger] numbered_in_turn(
                    SphereModel { points: points@, cells: new_cells@ },
                    coarse,
                    d,
                ),
        decreases cells.len() - c,
    {
        let v = cells[c];
        let ghost before = points@;
        let ghost cells_before = new_cells@;
        proof {
            assert(coarse.cells[c as int] == v);
            assert forall|i: int| 0 <= i < start implies match #[trigger] points[i] {
                SpherePoint::Corner(_, _, _) => true,
                SpherePoint::EdgeMidpoint(a, b) => b < floor,
                SpherePoint::Centroid(a, b, c) => c < floor,
            } by {
                assert(points[i] == coarse.points[i]);
            }
        }
        let e0 = edge_midpoint(&mut points, &mut edge_points, v[1], v[2], Ghost(start), Ghost(floor));
        let ghost after0 = points@;
        proof {
            assert forall|i: int| 0 <= i < start implies match #[trigger] points[i] {
                SpherePoint::Corner(_, _, _) => true,
                SpherePoint::EdgeMidpoint(a, b) => b < floor,
                SpherePoint::Centroid(a, b, c) => c < floor,
            } by {
                assert(points[i] == before[i]);
            }
        }
        let e1 = edge_midpoint(&mut points, &mut edge_points, v[0], v[2], Ghost(start), Ghost(floor));
        let ghost after1 = points@;
        proof {
            assert forall|i: int| 0 <= i < start implies match #[trigger] points[i] {
                SpherePoint::Corner(_, _, _) => true,
                SpherePoint::EdgeMidpoint(a, b) => b < floor,
                SpherePoint::Centroid(a, b, c) => c < floor,
            } by {
                assert(points[i] == after0[i]);
                assert(after0[i] == before[i]);
            }
        }
        let e2 = edge_midpoint(&mut points, &mut edge_points, v[0], v[1], Ghost(start), Ghost(floor));
        let ghost after2 = points@;
        let mid = points.len();
        points.push(SpherePoint::Centroid(v[0], v[1], v[2]));
        new_cells.push([v[0], e2, mid]);
        new_cells.push([v[0], mid, e1]);
        new_cells.push([v[1], e0, mid]);
        new_cells.push([v[1], mid, e2]);
        new_cells.push([v[2], e1, mid]);
        new_cells.push([v[2], mid, e0]);
        proof {
            let fine = SphereModel { points: points@, cells: new_cells@ };
            assert forall|i: int| 0 <= i < before.len() implies points[i] == before[i] by {
                assert(after0.subrange(0, before.len() as int)[i] == before[i]);
                assert(after1.subrange(0, after0.len() as int)[i] == after0[i]);
                assert(after2.subrange(0, after1.len() as int)[i] == after1[i]);
            }
            assert forall|i: int| 0 <= i < after0.len() implies points[i] == after0[i] by {
                assert(after1.subrange(0, after0.len() as int)[i] == after0[i]);
                assert(after2.subrange(0, after1.len() as int)[i] == after1[i]);
            }
            assert forall|i: int| 0 <= i < after1.len() implies points[i] == after1[i] by {
                assert(after2.subrange(0, after1.len() as int)[i] == after1[i]);
            }
            assert(points@.subrange(0, start) =~= coarse.points) by {
                assert forall|i: int| 0 <= i < start implies points[i] == coarse.points[i] by {
                    assert(before.subrange(0, start)[i] == coarse.points[i]);
                }
            }
            assert forall|i: int| start <= i < points.len() implies match #[trigger] points[i] {
                SpherePoint::Corner(_, _, _) => false,
                SpherePoint::EdgeMidpoint(a, b) => a < b < start && edge_points@.contains_key(
                    edge_key(a, b),
                ) && edge_points@[edge_key(a, b)] == i,
                SpherePoint::Centroid(x, y, z) => is_cell_before(cells@, c + 1, x, y, z),
            } by {
                if i < after2.len() {
                    assert(points[i] == after2[i]);
                    match after2[i] {
                        SpherePoint::Centroid(x, y, z) => {
                            lemma_centroid_kept(before, after0, start, i);
                            lemma_centroid_kept(after0, after1, start, i);
                            lemma_centroid_kept(after1, after2, start, i);
                            assert(before[i] == after2[i]);
                            assert(is_cell_before(cells@, c as int, x, y, z));
                            let d = choose|d: int|
                                0 <= d < c && cells[d][0] == x && cells[d][1] == y && cells[d][2]
                                    == z;
                            assert(0 <= d < c + 1 && cells[d][0] == x && cells[d][1] == y
                                && cells[d][2] == z);
                        },
                        _ => {},
                    }
                } else {
                    assert(cells[c as int][0] == v[0] && cells[c as int][1] == v[1]
                        && cells[c as int][2] == v[2]);
                }
            }
            assert(points[e0 as int] == after0[e0 as int]);
            assert(points[e1 as int] == after1[e1 as int]);
            assert(points[e2 as int] == after2[e2 as int]);
            lemma_made_from_step(
                cells@,
                c as int,
                before,
                points@,
                start,
                after0.len() as int,
                after1.len() as int,
                e0,
                e1,
                e2,
            );
            assert forall|k: u128| #[trigger] edge_points@.contains_key(k) implies start
                <= edge_points@[k] < points.len() && exists|a: usize, b: usize|
                a < b && k == edge_key(a, b) && points[edge_points@[k] as int]
                    == SpherePoint::EdgeMidpoint(a, b) by {
                let (a, b) = choose|a: usize, b: usize|
                    a < b && k == edge_key(a, b) && after2[edge_points@[k] as int]
                        == SpherePoint::EdgeMidpoint(a, b);
                assert(a < b && k == edge_key(a, b) && points[edge_points@[k] as int]
                    == SpherePoint::EdgeMidpoint(a, b));
            }
            assert forall|i: int, j: int| 0 <= i < j < points.len() implies #[trigger] points[i]
                != #[trigger] points[j] by {
                if j < after2.len() {
                    assert(points[i] == after2[i] && points[j] == after2[j]);
                } else {
                    assert(points[i] == after2[i]);
                    if i < start {
                        assert(points[i] == coarse.points[i]);
                    } else {
                        match after2[i] {
                            SpherePoint::Centroid(x, y, z) => {
                                lemma_centroid_kept(before, after0, start, i);
                                lemma_centroid_kept(after0, after1, start, i);
                                lemma_centroid_kept(after1, after2, start, i);
                                assert(is_cell_before(cells@, c as int, x, y, z));
                            },
                            _ => {},
                        }
                    }
                }
            }
            assert forall|d: int| 0 <= d < c + 1 implies #[trigger] numbered_in_turn(
                fine,
                coarse,
                d,
            ) by {
                let earlier = SphereModel { points: before, cells: cells_before };
                if d < c {
                    assert(numbered_in_turn(earlier, coarse, d));
                    assert(fine.cells[6 * d] == earlier.cells[6 * d]);
                    assert(fine.cells[6 * d + 2] == earlier.cells[6 * d + 2]);
                    assert(fine.cells[6 * d + 4] == earlier.cells[6 * d + 4]);
                    if d > 0 {
                        assert(fine.cells[6 * (d - 1)] == earlier.cells[6 * (d - 1)]);
                    }
                } else {
                    assert(fine.cells[6 * d] == [v[0], e2, mid]);
                    assert(fine.cells[6 * d + 2] == [v[1], e0, mid]);
                    assert(fine.cells[6 * d + 4] == [v[2], e1, mid]);
                    if d > 0 {
                        assert(fine.cells[6 * (d - 1)] == cells_before[6 * (d - 1)]);
                    }
                    assert(v[0] != v[1] && v[1] != v[2] && v[0] != v[2]);
                    assert(points[e0 as int] == after0[e0 as int]);
                    assert(points[e1 as int] == after1[e1 as int]);
                    assert(points[e2 as int] == after2[e2 as int]);
                    assert(e0 != e1 && e1 != e2 && e0 != e2);
                }
            }
            assert forall|d: int| 0 <= d < c + 1 implies #[trigger] splits(fine, coarse, d) by {
                if d < c {
                    let earlier = SphereModel { points: before, cells: cells_before };
                    assert(splits(earlier, coarse, d));
                    assert forall|k: int| 0 <= k < 6 implies #[trigger] fine.cells[6 * d + k]
                        == earlier.cells[6 * d + k] by {}
                } else {
                    assert(fine.cells[6 * d] == [v[0], e2, mid]);
                    assert(fine.cells[6 * d + 1] == [v[0], mid, e1]);
                    assert(fine.cells[6 * d + 2] == [v[1], e0, mid]);
                    assert(fine.cells[6 * d + 3] == [v[1], mid, e2]);
                    assert(fine.cells[6 * d + 4] == [v[2], e1, mid]);
                    assert(fine.cells[6 * d + 5] == [v[2], mid, e0]);
                    assert(points[e0 as int] == after0[e0 as int]);
                    assert(points[e1 as int] == after1[e1 as int]);
                    assert(points[e2 as int] == after2[e2 as int]);
                }
            }
        }
        c = c + 1;
    }
    let fine = RegularSphere { points, cells: new_cells };
    proof {
        assert forall|i: int| start <= i < fine@.points.len() implies match #[trigger] fine@.points[i] {
            SpherePoint::Corner(_, _, _) => false,
            SpherePoint::EdgeMidpoint(a, b) => a < b < start,
            SpherePoint::Centroid(x, y, z) => x < start && y < start && z < start,
        } by {
            match fine@.points[i] {
                SpherePoint::Centroid(x, y, z) => {
                    assert(is_cell_before(cells@, cells.len() as int, x, y, z));
                    let d = choose|d: int|
                        0 <= d < cells.len() && cells[d][0] == x && cells[d][1] == y && cells[d][2]
                            == z;
                    assert(coarse.cells[d][0] < coarse.points.len());
                },
                _ => {},
            }
        }
        lemma_refined_is_refinable(fine@, coarse, floor);
    }
    fine
}

/// The points made when the triangle `c` is split are points of that
/// triangle, and the points made before stay points of earlier triangles.
proof fn lemma_made_from_step(
    cells: Seq<[usize; 3]>,
    c: int,
    before: Seq<SpherePoint>,
    after: Seq<SpherePoint>,
    start: int,
    len0: int,
    len1: int,
    e0: usize,
    e1: usize,
    e2: usize,
)
    requires
        0 <= c < cells.len(),
        0 <= start <= before.len() <= len0 <= len1 < after.len() <= len1 + 2,
        len0 <= before.len() + 1,
        len1 <= len0 + 1,
        forall|i: int| start <= i < before.len() ==> made_from(cells, c, #[trigger] before[i]),
        forall|i: int| 0 <= i < before.len() ==> after[i] == before[i],
        len0 == before.len() + 1 ==> e0 == before.len(),
        len1 == len0 + 1 ==> e1 == len0,
        after.len() == len1 + 2 ==> e2 == len1,
        e0 < after.len() && e1 < after.len() && e2 < after.len(),
        after[e0 as int] == edge_point(cells[c][1], cells[c][2]),
        after[e1 as int] == edge_point(cells[c][0], cells[c][2]),
        after[e2 as int] == edge_point(cells[c][0], cells[c][1]),
        after[after.len() - 1] == SpherePoint::Centroid(cells[c][0], cells[c][1], cells[c][2]),
    ensures
        forall|i: int| start <= i < after.len() ==> made_from(cells, c + 1, #[trigger] after[i]),
{
    assert forall|i: int| start <= i < after.len() implies made_from(cells, c + 1, #[trigger] after[i]) by {
        if i < before.len() {
            assert(made_from(cells, c, before[i]));
            let d = choose|d: int|
                0 <= d < c && (before[i] == edge_point((#[trigger] cells[d])[1], cells[d][2])
                    || before[i] == edge_point(cells[d][0], cells[d][2]) || before[i] == edge_point(
                    cells[d][0],
                    cells[d][1],
                ) || before[i] == SpherePoint::Centroid(cells[d][0], cells[d][1], cells[d][2]));
            assert(0 <= d < c + 1 && cells[d] == cells[d]);
        } else {
            assert(i == e0 || i == e1 || i == e2 || i == after.len() - 1);
            assert(0 <= c < c + 1 && cells[c] == cells[c]);
        }
    }
}

/// A centre point made while a sphere is refined is not touched when the
/// point above the middle of an edge is looked up or made.
proof fn lemma_centroid_kept(before: Seq<SpherePoint>, after: Seq<SpherePoint>, start: int, i: int)
    requires
        before.len() <= after.len() <= before.len() + 1,
        after.subrange(0, before.len() as int) == before,
        0 <= start <= i < after.len(),
        after[i] is Centroid,
        forall|j: int|
            start <= j < after.len() ==> match #[trigger] after[j] {
                SpherePoint::Corner(_, _, _) => false,
                SpherePoint::EdgeMidpoint(a, b) => true,
                SpherePoint::Centroid(x, y, z) => true,
            },
        after.len() == before.len() + 1 ==> after[before.len() as int] is EdgeMidpoint,
    ensures
        i < before.len(),
        before[i] == after[i],
{
    if i >= before.len() {
        assert(i == before.len());
        assert(after[i] is EdgeMidpoint);
    }
    assert(i < before.len());
    assert(after.subrange(0, before.len() as int)[i] == after[i]);
}

/// A regular sphere refined once is a regular sphere of the next level.
proof fn lemma_refined_sphere(fine: SphereModel, coarse: SphereModel, level: nat)
    requires
        is_regular_sphere(coarse, level),
        refines(fine, coarse),
    ensures
        is_regular_sphere(fine, level + 1),
{
    let chain = choose|chain: Seq<SphereModel>|
        #[trigger] is_refinement_chain(chain) && chain.len() == level + 1 && chain.last()
            == coarse;
    let longer = chain.push(fine);
    assert forall|k: int| 1 <= k < longer.len() implies refines(
        #[trigger] longer[k],
        longer[k - 1],
    ) by {
        if k < chain.len() {
            assert(refines(chain[k], chain[k - 1]));
        }
    }
    assert(is_refinement_chain(longer) && longer.len() == level + 2 && longer.last() == fine);
}

/// Six to the power `n`.
pub open spec fn six_to(n: nat) -> nat
    decreases n,
{
    if n == 0 {
        1
    } else {
        6 * six_to((n - 1) as nat)
    }
}

/// A regular sphere: an octahedron refined `refinement_level` times. Each
/// time, every triangle is split into six, and the new points are moved out
/// to the sphere of radius one.
pub fn regular_sphere(refinement_level: u32) -> (sphere: RegularSphere)
    ensures
        is_regular_sphere(sphere@, refinement_level as nat),
        sphere.cells.len() == 8 * six_to(refinement_level as nat),
        exists|floor: int| refinable(sphere@, floor),
        forall|c: int|
            0 <= c < sphere.cells.len() ==> (#[trigger] sphere.cells[c])[0] < sphere.points.len()
                && sphere.cells[c][1] < sphere.points.len() && sphere.cells[c][2]
                < sphere.points.len(),
        forall|i: int|
            0 <= i < sphere.points.len() ==> match #[trigger] sphere.points[i] {
                SpherePoint::Corner(_, _, _) => i < 6,
                SpherePoint::EdgeMidpoint(a, b) => a < b < i,
                SpherePoint::Centroid(a, b, c) => a < i && b < i && c < i,
            },
{
    let mut points: Vec<SpherePoint> = Vec::new();
    points.push(SpherePoint::Corner(0, 0, 1));
    points.push(SpherePoint::Corner(1, 0, 0));
    points.push(SpherePoint::Corner(0, 1, 0));
    points.push(SpherePoint::Corner(-1, 0, 0));
    points.push(SpherePoint::Corner(0, -1, 0));
    points.push(SpherePoint::Corner(0, 0, -1));
    let mut cells: Vec<[usize; 3]> = Vec::new();
    cells.push([0, 1, 2]);
    cells.push([0, 2, 3]);
    cells.push([0, 3, 4]);
    cells.push([0, 4, 1]);
    cells.push([5, 2, 1]);
    cells.push([5, 3, 2]);
    cells.push([5, 4, 3]);
    cells.push([5, 1, 4]);
    let mut sphere = RegularSphere { points, cells };
    proof {
        assert(sphere@.points =~= octahedron_points());
        assert(refinable(sphere@, 0));
        let chain = seq![sphere@];
        assert(is_refinement_chain(chain) && chain.len() == 1 && chain.last() == sphere@);
    }
    let mut level: u32 = 0;
    while level < refinement_level
        invariant
            level <= refinement_level,
            is_regular_sphere(sphere@, level as nat),
            exists|floor: int| refinable(sphere@, floor),
            sphere.cells.len() == 8 * six_to(level as nat),
            forall|i: int|
                0 <= i < sphere.points.len() ==> match #[trigger] sphere.points[i] {
                    SpherePoint::Corner(_, _, _) => i < 6,
                    SpherePoint::EdgeMidpoint(a, b) => a < b < i,
                    SpherePoint::Centroid(a, b, c) => a < i && b < i && c < i,
                },
        decreases refinement_level - level,
    {
        let ghost coarse = sphere@;
        sphere = refine(sphere);
        level = level + 1;
        proof {
            lemma_refined_sphere(sphere@, coarse, (level - 1) as nat);
            assert forall|i: int| 0 <= i < sphere.points.len() implies match #[trigger] sphere.points[i] {
                SpherePoint::Corner(_, _, _) => i < 6,
                SpherePoint::EdgeMidpoint(a, b) => a < b < i,
                SpherePoint::Centroid(a, b, c) => a < i && b < i && c < i,
            } by {
                if i < coarse.points.len() {
                    assert(sphere@.points.subrange(0, coarse.points.len() as int)[i]
                        == coarse.points[i]);
                } else {
                    assert(!(sphere.points[i] is Corner));
                }
            }
        }
    }
    proof {
        let floor = choose|floor: int| refinable(sphere@, floor);
        assert(refinable(sphere@, floor));
    }
    sphere
}

} // verus!
