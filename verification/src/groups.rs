//! Why the keys of a level stand in sibling groups: keys that come along the
//! curve and bring their siblings with them come eight by eight behind their
//! parents.

use vstd::prelude::*;
use crate::displacement::lemma_child_valid;
use crate::displacement::lemma_morton_injective;
use crate::fmm::sibling_grouped;
use crate::morton::MortonKey;
use crate::morton::Octant;
use crate::morton::all_wf;
use crate::morton::has_view;
use crate::morton::lemma_child_code;
use crate::morton::lemma_morton_order;
use crate::morton::lemma_wf_view;
use crate::morton::DEEPEST_LEVEL;
use crate::parents::has_child_of;
use crate::parents::is_parent_list;
use crate::tree::strictly_sorted;

verus! {

/// The value `v` stands in the sequence.
pub open spec fn stands_in(s: Seq<int>, v: int) -> bool {
    exists|k: int| 0 <= k < s.len() && s[k] == v
}

/// Some value of the sequence, divided by eight, gives `v`.
pub open spec fn has_eighth(s: Seq<int>, v: int) -> bool {
    exists|k: int| 0 <= k < s.len() && s[k] / 8 == v
}

/// The numbers rise.
pub open spec fn rising(s: Seq<int>) -> bool {
    forall|i: int, j: int| 0 <= i < j < s.len() ==> s[i] < s[j]
}

/// The codes `c` of the keys of a level and the codes `p` of their parents:
/// both rise, the parents are the eighths of the keys, and with each key
/// all eight keys of its parent stand among the keys.
pub open spec fn sibling_closed_codes(c: Seq<int>, p: Seq<int>) -> bool {
    &&& rising(c)
    &&& rising(p)
    &&& forall|i: int| 0 <= i < c.len() ==> 0 <= #[trigger] c[i]
    &&& forall|i: int| 0 <= i < c.len() ==> stands_in(p, #[trigger] c[i] / 8)
    &&& forall|a: int| 0 <= a < p.len() ==> has_eighth(c, #[trigger] p[a])
    &&& forall|i: int, s: int|
        0 <= i < c.len() && 0 <= s < 8 ==> #[trigger] stands_in(c, 8 * (c[i] / 8) + s)
}

/// Rising numbers rise by at least one from place to place.
proof fn lemma_rising_gap(s: Seq<int>, i: int, j: int)
    requires
        rising(s),
        0 <= i <= j < s.len(),
    ensures
        s[j] >= s[i] + (j - i),
    decreases j - i,
{
    if i < j {
        lemma_rising_gap(s, i, j - 1);
    }
}

/// Among rising numbers the smaller stands before the greater.
proof fn lemma_rising_places(s: Seq<int>, i: int, j: int)
    requires
        rising(s),
        0 <= i < s.len(),
        0 <= j < s.len(),
        s[i] < s[j],
    ensures
        i < j,
{
    if j <= i {
        lemma_rising_gap(s, j, i);
    }
}

/// The first `8 g` codes are those of the children of the first `g`
/// parents, in order.
proof fn lemma_blocks(c: Seq<int>, p: Seq<int>, g: int)
    requires
        sibling_closed_codes(c, p),
        0 <= g <= p.len(),
    ensures
        8 * g <= c.len(),
        forall|a: int, s: int| 0 <= a < g && 0 <= s < 8 ==> #[trigger] c[8 * a + s] == 8 * p[a] + s,
    decreases g,
{
    if g > 0 {
        let h = g - 1;
        lemma_blocks(c, p, h);
        assert(has_eighth(c, p[h]));
        let i0 = choose|k: int| 0 <= k < c.len() && c[k] / 8 == p[h];
        // the eight codes of the parent's children, where they stand
        let j = |s: int| choose|k: int| 0 <= k < c.len() && c[k] == 8 * (c[i0] / 8) + s;
        assert forall|s: int| 0 <= s < 8 implies 0 <= #[trigger] j(s) < c.len() && c[j(s)] == 8
            * p[h] + s && j(s) >= 8 * h + s by {
            lemma_stands_behind(c, p, h, j, i0, s);
        }
        assert(8 * g <= c.len()) by {
            assert(j(7) >= 8 * h + 7);
        }
        // the code at place 8 h is no smaller than the first child's
        assert(c[8 * h] >= 8 * p[h]) by {
            assert(stands_in(p, c[8 * h] / 8));
            let b = choose|k: int| 0 <= k < p.len() && p[k] == c[8 * h] / 8;
            if b < h {
                let s = c[8 * h] - 8 * p[b];
                assert(c[8 * b + s] == 8 * p[b] + s);
                lemma_rising_gap(c, 8 * b + s, 8 * h);
            } else if b > h {
                assert(p[h] < p[b]);
            }
        }
        assert forall|a: int, s: int| 0 <= a < g && 0 <= s < 8 implies #[trigger] c[8 * a + s] == 8
            * p[a] + s by {
            if a == h {
                lemma_rising_gap(c, 8 * h, 8 * h + s);
                assert(j(s) >= 8 * h + s);
                lemma_rising_gap(c, 8 * h + s, j(s));
            }
        }
    }
}

/// The code of the `s`-th child of the parent `h` stands at or behind the
/// place `8 h + s`.
proof fn lemma_stands_behind(
    c: Seq<int>,
    p: Seq<int>,
    h: int,
    j: spec_fn(int) -> int,
    i0: int,
    s: int,
)
    requires
        sibling_closed_codes(c, p),
        0 <= h < p.len(),
        8 * h <= c.len(),
        forall|a: int, t: int| 0 <= a < h && 0 <= t < 8 ==> #[trigger] c[8 * a + t] == 8 * p[a] + t,
        0 <= i0 < c.len(),
        c[i0] / 8 == p[h],
        forall|t: int| #[trigger] j(t) == choose|k: int| 0 <= k < c.len() && c[k] == 8 * (c[i0] / 8) + t,
        0 <= s < 8,
    ensures
        0 <= j(s) < c.len(),
        c[j(s)] == 8 * p[h] + s,
        j(s) >= 8 * h + s,
    decreases s,
{
    assert(stands_in(c, 8 * (c[i0] / 8) + s));
    let k = j(s);
    assert(0 <= k < c.len() && c[k] == 8 * p[h] + s);
    if s == 0 {
        if k < 8 * h {
            let a = k / 8;
            let t = k % 8;
            assert(c[8 * a + t] == 8 * p[a] + t);
            assert(p[a] < p[h]);
        }
    } else {
        lemma_stands_behind(c, p, h, j, i0, s - 1);
        lemma_rising_places(c, j(s - 1), k);
    }
}

/// No code stands behind the children of the last parent.
proof fn lemma_blocks_fill(c: Seq<int>, p: Seq<int>)
    requires
        sibling_closed_codes(c, p),
    ensures
        c.len() == 8 * p.len(),
        forall|a: int, s: int|
            0 <= a < p.len() && 0 <= s < 8 ==> #[trigger] c[8 * a + s] == 8 * p[a] + s,
{
    let n = p.len() as int;
    lemma_blocks(c, p, n);
    if c.len() > 8 * n {
        let m = 8 * n;
        assert(stands_in(p, c[m] / 8));
        let b = choose|k: int| 0 <= k < p.len() && p[k] == c[m] / 8;
        let s = c[m] - 8 * p[b];
        assert(c[8 * b + s] == 8 * p[b] + s);
        lemma_rising_gap(c, 8 * b + s, m);
    }
}

/// A box below the root has eight times the code of its parent plus its
/// place among the siblings.
proof fn lemma_code_of_child(o: Octant)
    requires
        o.level >= 1,
    ensures
        o.code() == 8 * o.parent().code() + o.sibling_index(),
        0 <= o.sibling_index() < 8,
        o.code() / 8 == o.parent().code(),
        o.parent().child(o.sibling_index()) == o,
{
}

/// Sibling groups. Keys of one level that come along the curve, each once,
/// and that bring with every key its seven siblings, stand in sibling
/// groups behind their parents: the children of the `p`-th parent are the
/// keys `8 p` to `8 p + 7`, in their order.
pub proof fn lemma_sibling_groups(keys: Seq<MortonKey>, parents: Seq<MortonKey>, level: int)
    requires
        all_wf(keys),
        strictly_sorted(keys),
        1 <= level <= DEEPEST_LEVEL,
        forall|i: int| 0 <= i < keys.len() ==> (#[trigger] keys[i])@.level == level,
        is_parent_list(parents, keys),
        forall|i: int, s: int|
            0 <= i < keys.len() && 0 <= s < 8 ==> #[trigger] has_view(
                keys,
                keys[i]@.parent().child(s),
            ),
    ensures
        sibling_grouped(keys, parents),
{
    let c = Seq::new(keys.len(), |i: int| keys[i]@.code());
    let p = Seq::new(parents.len(), |a: int| parents[a]@.code());
    assert forall|a: int| 0 <= a < parents.len() implies (#[trigger] parents[a])@.valid()
        && parents[a]@.level == level - 1 by {
        lemma_wf_view(parents[a]);
        assert(has_child_of(keys, parents[a]@));
    }
    assert forall|i: int| 0 <= i < keys.len() implies (#[trigger] keys[i])@.valid() by {
        lemma_wf_view(keys[i]);
    }
    assert(rising(c)) by {
        assert forall|i: int, j: int| 0 <= i < j < c.len() implies c[i] < c[j] by {
            lemma_wf_view(keys[i]);
            lemma_wf_view(keys[j]);
            lemma_morton_order(keys[i]@, keys[j]@);
        }
    }
    assert(rising(p)) by {
        assert forall|a: int, b: int| 0 <= a < b < p.len() implies p[a] < p[b] by {
            lemma_wf_view(parents[a]);
            lemma_wf_view(parents[b]);
            lemma_morton_order(parents[a]@, parents[b]@);
        }
    }
    assert forall|i: int| 0 <= i < c.len() implies 0 <= #[trigger] c[i] by {
        crate::morton::lemma_interleave_bound(keys[i]@.x, keys[i]@.y, keys[i]@.z, level as nat);
    }
    assert forall|i: int| 0 <= i < c.len() implies stands_in(p, #[trigger] c[i] / 8) by {
        lemma_code_of_child(keys[i]@);
        assert(has_view(parents, keys[i]@.parent()));
        let a = choose|a: int| 0 <= a < parents.len() && parents[a]@ == keys[i]@.parent();
        assert(p[a] == c[i] / 8);
    }
    assert forall|a: int| 0 <= a < p.len() implies has_eighth(c, #[trigger] p[a]) by {
        assert(has_child_of(keys, parents[a]@));
        let i = choose|i: int| 0 <= i < keys.len() && keys[i]@.parent() == parents[a]@;
        lemma_code_of_child(keys[i]@);
        assert(c[i] / 8 == p[a]);
    }
    assert forall|i: int, s: int| 0 <= i < c.len() && 0 <= s < 8 implies #[trigger] stands_in(
        c,
        8 * (c[i] / 8) + s,
    ) by {
        lemma_code_of_child(keys[i]@);
        let sibling = keys[i]@.parent().child(s);
        assert(has_view(keys, sibling));
        let k = choose|k: int| 0 <= k < keys.len() && keys[k]@ == sibling;
        lemma_child_code(keys[i]@.parent(), s);
        assert(c[k] == 8 * (c[i] / 8) + s);
    }
    lemma_blocks_fill(c, p);
    assert forall|a: int, s: int| 0 <= a < parents.len() && 0 <= s < 8 implies (#[trigger] keys[8
        * a + s])@ == parents[a]@.child(s) by {
        let key = keys[8 * a + s]@;
        let child = parents[a]@.child(s);
        assert(c[8 * a + s] == 8 * p[a] + s);
        lemma_child_code(parents[a]@, s);
        lemma_child_valid(parents[a]@, s);
        lemma_morton_order(key, child);
        lemma_morton_injective(key, child);
    }
}

} // verus!
