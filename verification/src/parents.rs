//! The parents of the keys of one level: the sibling groups that the
//! translation works on.

use vstd::prelude::*;
use crate::morton::MortonKey;
use crate::morton::Octant;
use crate::morton::has_view;
use crate::morton::lemma_same_morton;
use crate::morton::lemma_same_view;
use crate::morton::all_wf;
use crate::tree::strictly_sorted;

verus! {

/// The keys come in the order of the curve, equal ones side by side.
pub open spec fn sorted(keys: Seq<MortonKey>) -> bool {
    forall|i: int, j: int| 0 <= i <= j < keys.len() ==> keys[i].morton <= keys[j].morton
}

/// Some key of the sequence is a child of the box `parent`.
pub open spec fn has_child_of(keys: Seq<MortonKey>, parent: Octant) -> bool {
    exists|i: int| 0 <= i < keys.len() && keys[i]@.parent() == parent
}

/// `parents` lists, along the curve and each once, the parents of `keys`.
pub open spec fn is_parent_list(parents: Seq<MortonKey>, keys: Seq<MortonKey>) -> bool {
    &&& all_wf(parents)
    &&& strictly_sorted(parents)
    &&& forall|i: int| 0 <= i < keys.len() ==> #[trigger] has_view(parents, keys[i]@.parent())
    &&& forall|p: int| 0 <= p < parents.len() ==> #[trigger] has_child_of(keys, parents[p]@)
}

/// Something with a place along the curve: a key, or what lies in the box of
/// a key.
pub trait Coded {
    /// The code that gives the place.
    spec fn spec_code(&self) -> u64;

    /// The code that gives the place.
    fn code(&self) -> (code: u64)
        ensures
            code == self.spec_code(),
    ;
}

impl Coded for MortonKey {
    open spec fn spec_code(&self) -> u64 {
        self.morton
    }

    fn code(&self) -> (code: u64) {
        self.morton
    }
}

/// The items come in the order of their codes, equal codes side by side.
pub open spec fn ordered<T: Coded>(items: Seq<T>) -> bool {
    forall|i: int, j: int|
        0 <= i <= j < items.len() ==> (#[trigger] items[i]).spec_code() <= (#[trigger] items[j]).spec_code()
}

/// The items with the code `code`, in their order.
pub open spec fn with_code<T: Coded>(items: Seq<T>, code: u64) -> Seq<T> {
    items.filter(|item: T| item.spec_code() == code)
}

/// Orders the items by their codes with `slice::sort_by_key` of the standard
/// library. The standard library says of it that it sorts the slice by the
/// key that the closure gives, and that the sort is stable: items with
/// equal keys keep their order. A sorted slice holds what it held before, as
/// often as before.
#[verifier::external_body]
pub(crate) fn sort_by_code<T: Coded>(items: &mut Vec<T>)
    ensures
        final(items)@.len() == old(items)@.len(),
        ordered(final(items)@),
        final(items)@.to_multiset() == old(items)@.to_multiset(),
        forall|code: u64| #[trigger] with_code(final(items)@, code) == with_code(old(items)@, code),
{
    items.sort_by_key(|k| k.code());
}

/// Orders well-formed keys along the curve.
pub fn sort_keys(keys: &mut Vec<MortonKey>)
    requires
        all_wf(old(keys)@),
    ensures
        final(keys)@.len() == old(keys)@.len(),
        sorted(final(keys)@),
        all_wf(final(keys)@),
        final(keys)@.to_multiset() == old(keys)@.to_multiset(),
        forall|k: MortonKey| #[trigger] final(keys)@.contains(k) <==> old(keys)@.contains(k),
{
    let ghost before = keys@;
    sort_by_code(keys);
    proof {
        before.to_multiset_ensures();
        keys@.to_multiset_ensures();
        assert forall|k: MortonKey| #[trigger] keys@.contains(k) <==> before.contains(k) by {
            assert(keys@.contains(k) <==> keys@.to_multiset().count(k) > 0);
            assert(before.contains(k) <==> before.to_multiset().count(k) > 0);
        }
        assert forall|i: int| 0 <= i < keys@.len() implies (#[trigger] keys@[i]).wf() by {
            assert(keys@.contains(keys@[i]));
            assert(before.contains(keys@[i]));
        }
    }
}

/// Some key of the sequence has the code `code`.
pub open spec fn has_code(keys: Seq<MortonKey>, code: u64) -> bool {
    exists|i: int| 0 <= i < keys.len() && keys[i].morton == code
}

/// Drops, from keys in the order of the curve, each key that repeats the code
/// of the one before it.
pub fn dedup_keys(keys: &Vec<MortonKey>) -> (distinct: Vec<MortonKey>)
    requires
        sorted(keys@),
    ensures
        strictly_sorted(distinct@),
        distinct.len() <= keys.len(),
        forall|i: int| 0 <= i < keys.len() ==> #[trigger] has_code(distinct@, keys[i].morton),
        forall|k: int| 0 <= k < distinct.len() ==> #[trigger] keys@.contains(distinct[k]),
{
    let mut distinct: Vec<MortonKey> = Vec::new();
    let mut i: usize = 0;
    while i < keys.len()
        invariant
            i <= keys.len(),
            sorted(keys@),
            strictly_sorted(distinct@),
            distinct.len() <= i,
            i > 0 ==> distinct.len() > 0 && distinct[distinct.len() - 1].morton == keys[i
                - 1].morton,
            forall|k: int| 0 <= k < i ==> #[trigger] has_code(distinct@, keys[k].morton),
            forall|w: int|
                0 <= w < distinct.len() ==> #[trigger] keys@.subrange(0, i as int).contains(
                    distinct[w],
                ),
        decreases keys.len() - i,
    {
        let key = keys[i];
        let ghost before = distinct@;
        let ghost seen = keys@.subrange(0, i as int);
        let ghost seen_next = keys@.subrange(0, i + 1);
        let fresh = distinct.len() == 0 || distinct[distinct.len() - 1].morton != key.morton;
        if fresh {
            distinct.push(key);
            proof {
                assert forall|a: int, b: int| 0 <= a < b < distinct.len() implies distinct[a].morton
                    < distinct[b].morton by {
                    if b == distinct.len() - 1 {
                        assert(seen.contains(before[a]));
                        let k = choose|k: int| 0 <= k < seen.len() && seen[k] == before[a];
                        assert(keys[k].morton <= keys[i - 1].morton);
                        assert(before[a].morton <= before[before.len() - 1].morton);
                    } else {
                        assert(before[a].morton < before[b].morton);
                    }
                }
            }
        }
        proof {
            assert forall|k: int| 0 <= k < i + 1 implies #[trigger] has_code(
                distinct@,
                keys[k].morton,
            ) by {
                if k < i {
                    assert(has_code(before, keys[k].morton));
                    let w = choose|w: int|
                        0 <= w < before.len() && before[w].morton == keys[k].morton;
                    assert(distinct[w].morton == keys[k].morton);
                } else {
                    assert(distinct[distinct.len() - 1].morton == keys[k].morton);
                }
            }
            assert forall|w: int| 0 <= w < distinct.len() implies #[trigger] seen_next.contains(
                distinct[w],
            ) by {
                if w < before.len() {
                    assert(seen.contains(before[w]));
                    let k = choose|k: int| 0 <= k < seen.len() && seen[k] == before[w];
                    assert(seen_next[k] == distinct[w]);
                } else {
                    assert(seen_next[i as int] == distinct[w]);
                }
            }
        }
        i = i + 1;
    }
    proof {
        assert(keys@.subrange(0, i as int) =~= keys@);
    }
    distinct
}

/// Two lists of the parents of the same keys hold the same codes in the
/// same places.
pub proof fn lemma_parent_list_unique(a: Seq<MortonKey>, b: Seq<MortonKey>, keys: Seq<MortonKey>)
    requires
        is_parent_list(a, keys),
        is_parent_list(b, keys),
    ensures
        a.len() == b.len(),
        forall|i: int| 0 <= i < a.len() ==> (#[trigger] a[i]).morton == b[i].morton,
        forall|i: int| 0 <= i < a.len() ==> (#[trigger] a[i])@ == b[i]@,
{
    lemma_same_codes(a, b, keys);
    lemma_same_codes(b, a, keys);
    lemma_sorted_unique(a, b, 0);
    assert forall|i: int| 0 <= i < a.len() implies (#[trigger] a[i])@ == b[i]@ by {
        lemma_same_morton(a[i], b[i]);
    }
}

/// Each code of one list of parents stands in any other list of the parents
/// of the same keys.
proof fn lemma_same_codes(a: Seq<MortonKey>, b: Seq<MortonKey>, keys: Seq<MortonKey>)
    requires
        is_parent_list(a, keys),
        is_parent_list(b, keys),
    ensures
        forall|i: int| 0 <= i < a.len() ==> #[trigger] has_code(b, a[i].morton),
{
    assert forall|i: int| 0 <= i < a.len() implies #[trigger] has_code(b, a[i].morton) by {
        assert(has_child_of(keys, a[i]@));
        let k = choose|k: int| 0 <= k < keys.len() && keys[k]@.parent() == a[i]@;
        assert(has_view(b, keys[k]@.parent()));
        let j = choose|j: int| 0 <= j < b.len() && b[j]@ == keys[k]@.parent();
        lemma_same_view(a[i], b[j]);
    }
}

/// Two strictly increasing lists of codes, each holding every code of the
/// other, agree from place `from` on if they agree before it.
proof fn lemma_sorted_unique(a: Seq<MortonKey>, b: Seq<MortonKey>, from: int)
    requires
        strictly_sorted(a),
        strictly_sorted(b),
        forall|i: int| 0 <= i < a.len() ==> #[trigger] has_code(b, a[i].morton),
        forall|i: int| 0 <= i < b.len() ==> #[trigger] has_code(a, b[i].morton),
        0 <= from <= a.len(),
        from <= b.len(),
        forall|i: int| 0 <= i < from ==> (#[trigger] a[i]).morton == b[i].morton,
    ensures
        a.len() == b.len(),
        forall|i: int| 0 <= i < a.len() ==> (#[trigger] a[i]).morton == b[i].morton,
    decreases a.len() - from,
{
    if from == a.len() {
        if from < b.len() {
            assert(has_code(a, b[from].morton));
            let j = choose|j: int| 0 <= j < a.len() && a[j].morton == b[from].morton;
            assert(a[j].morton == b[j].morton);
        }
    } else if from == b.len() {
        assert(has_code(b, a[from].morton));
        let j = choose|j: int| 0 <= j < b.len() && b[j].morton == a[from].morton;
        assert(a[j].morton == b[j].morton);
    } else {
        assert(has_code(b, a[from].morton));
        let j = choose|j: int| 0 <= j < b.len() && b[j].morton == a[from].morton;
        if j < from {
            assert(a[j].morton == b[j].morton);
        }
        assert(has_code(a, b[from].morton));
        let k = choose|k: int| 0 <= k < a.len() && a[k].morton == b[from].morton;
        if k < from {
            assert(a[k].morton == b[k].morton);
        }
        assert(a[from].morton == b[from].morton);
        lemma_sorted_unique(a, b, from + 1);
    }
}

/// The parents of the keys of one level, along the curve and each once.
pub fn parents_of(keys: &[MortonKey]) -> (parents: Vec<MortonKey>)
    requires
        all_wf(keys@),
        forall|i: int| 0 <= i < keys.len() ==> (#[trigger] keys[i])@.level >= 1,
    ensures
        is_parent_list(parents@, keys@),
        parents.len() <= keys.len(),
{
    let mut all: Vec<MortonKey> = Vec::new();
    let mut i: usize = 0;
    while i < keys.len()
        invariant
            i <= keys.len(),
            all_wf(keys@),
            forall|k: int| 0 <= k < keys.len() ==> (#[trigger] keys[k])@.level >= 1,
            all.len() == i,
            forall|k: int| 0 <= k < i ==> (#[trigger] all[k]).wf() && all[k]@ == keys[k]@.parent(),
        decreases keys.len() - i,
    {
        let parent = keys[i].parent();
        all.push(parent);
        i = i + 1;
    }
    let ghost unsorted = all@;
    sort_keys(&mut all);
    let parents = dedup_keys(&all);
    proof {
        assert forall|p: int| 0 <= p < parents.len() implies (#[trigger] parents[p]).wf()
            && has_child_of(keys@, parents[p]@) by {
            assert(all@.contains(parents[p]));
            assert(unsorted.contains(parents[p]));
            let k = choose|k: int| 0 <= k < unsorted.len() && unsorted[k] == parents[p];
            assert(keys[k]@.parent() == parents[p]@);
        }
        assert forall|k: int| 0 <= k < keys.len() implies #[trigger] has_view(
            parents@,
            keys[k]@.parent(),
        ) by {
            assert(unsorted.contains(unsorted[k]));
            assert(all@.contains(unsorted[k]));
            let j = choose|j: int| 0 <= j < all.len() && all[j] == unsorted[k];
            assert(has_code(parents@, all[j].morton));
            let p = choose|p: int| 0 <= p < parents.len() && parents[p].morton == all[j].morton;
            lemma_same_morton(parents[p], all[j]);
        }
    }
    parents
}

} // verus!
