use vstd::multiset::group_multiset_axioms;
use vstd::prelude::*;
use vstd::relations::{sorted_by, total_ordering};
use vstd::seq_lib::{lemma_multiset_commutative, lemma_sorted_unique, to_multiset_build};

use crate::format::views;
use crate::key::{
    compare_keys, key_lt, lemma_key_lt_total, lemma_key_lt_transitive, KeyOffset, KeyOffsetView,
    KeyOrder,
};

verus! {

/// The order in which entries are written: by key, byte-wise; entries with
/// the same key by offset, so that rows that share a key keep the order they
/// have in the source.
pub open spec fn entry_le(a: KeyOffsetView, b: KeyOffsetView) -> bool {
    key_lt(a.key, b.key) || (a.key == b.key && a.offset <= b.offset)
}

/// `entry_le` as a relation.
pub open spec fn entry_order() -> spec_fn(KeyOffsetView, KeyOffsetView) -> bool {
    |a: KeyOffsetView, b: KeyOffsetView| entry_le(a, b)
}

/// Every entry is in order with every later one.
pub open spec fn in_order(entries: Seq<KeyOffsetView>) -> bool {
    forall|i: int, j: int|
        0 <= i < j < entries.len() ==> entry_le(#[trigger] entries[i], #[trigger] entries[j])
}

/// The entries in ascending order.
pub open spec fn sorted_entries(entries: Seq<KeyOffsetView>) -> Seq<KeyOffsetView> {
    entries.sort_by(entry_order())
}

/// `entry_le` is reflexive, antisymmetric, transitive and total.
pub proof fn lemma_entry_le_total_order(a: KeyOffsetView, b: KeyOffsetView, c: KeyOffsetView)
    ensures
        entry_le(a, a),
        entry_le(a, b) && entry_le(b, a) ==> a == b,
        entry_le(a, b) && entry_le(b, c) ==> entry_le(a, c),
        entry_le(a, b) || entry_le(b, a),
{
    lemma_key_lt_total(a.key, b.key);
    lemma_key_lt_total(b.key, c.key);
    if key_lt(a.key, b.key) && key_lt(b.key, c.key) {
        lemma_key_lt_transitive(a.key, b.key, c.key);
    }
}

/// `entry_order` is a total order.
pub proof fn lemma_entry_order_total()
    ensures
        total_ordering(entry_order()),
{
    let r = entry_order();
    assert forall|x: KeyOffsetView| #[trigger] r(x, x) by {
        lemma_entry_le_total_order(x, x, x);
    }
    assert forall|x: KeyOffsetView, y: KeyOffsetView| #[trigger] r(x, y) && #[trigger] r(
        y,
        x,
    ) implies x == y by {
        lemma_entry_le_total_order(x, y, x);
    }
    assert forall|x: KeyOffsetView, y: KeyOffsetView| #[trigger] r(x, y) || #[trigger] r(y, x) by {
        lemma_entry_le_total_order(x, y, x);
    }
    assert forall|x: KeyOffsetView, y: KeyOffsetView, z: KeyOffsetView| #[trigger]
        r(x, y) && #[trigger] r(y, z) implies r(x, z) by {
        lemma_entry_le_total_order(x, y, z);
    }
}

/// Entries in order are the ascending arrangement of themselves, and the
/// ascending arrangement of any rearrangement of them.
pub proof fn lemma_in_order_is_sorted(entries: Seq<KeyOffsetView>, source: Seq<KeyOffsetView>)
    requires
        in_order(entries),
        entries.to_multiset() == source.to_multiset(),
    ensures
        entries == sorted_entries(source),
{
    lemma_entry_order_total();
    source.lemma_sort_by_ensures(entry_order());
    assert(sorted_by(entries, entry_order()));
    lemma_sorted_unique(entries, sorted_entries(source), entry_order());
}

/// The ascending arrangement is in order and holds the same entries.
pub proof fn lemma_sorted_entries(source: Seq<KeyOffsetView>)
    ensures
        in_order(sorted_entries(source)),
        sorted_entries(source).to_multiset() == source.to_multiset(),
        sorted_entries(source).len() == source.len(),
{
    lemma_entry_order_total();
    source.lemma_sort_by_ensures(entry_order());
    let sorted = sorted_entries(source);
    assert forall|i: int, j: int| 0 <= i < j < sorted.len() implies entry_le(
        #[trigger] sorted[i],
        #[trigger] sorted[j],
    ) by {
        assert(entry_order()(sorted[i], sorted[j]));
    }
    sorted.to_multiset_ensures();
    source.to_multiset_ensures();
}

/// Whether `a` may stand before `b`.
pub fn entry_before(a: &KeyOffset, b: &KeyOffset) -> (before: bool)
    ensures
        before == entry_le(a@, b@),
{
    proof {
        lemma_key_lt_total(a@.key, b@.key);
    }
    match compare_keys(a.key.as_str().as_bytes(), b.key.as_str().as_bytes()) {
        KeyOrder::Less => true,
        KeyOrder::Equal => a.offset <= b.offset,
        KeyOrder::Greater => false,
    }
}

/// Merges two runs that are in order into one.
fn merge(left: &Vec<KeyOffset>, right: &Vec<KeyOffset>) -> (merged: Vec<KeyOffset>)
    requires
        in_order(views(left@)),
        in_order(views(right@)),
    ensures
        in_order(views(merged@)),
        views(merged@).to_multiset() == views(left@).to_multiset().add(
            views(right@).to_multiset(),
        ),
{
    broadcast use group_multiset_axioms;

    let ghost lv = views(left@);
    let ghost rv = views(right@);
    let mut merged: Vec<KeyOffset> = Vec::new();
    let mut i: usize = 0;
    let mut j: usize = 0;
    proof {
        assert(views(merged@) =~= Seq::empty());
        assert(lv.take(0) =~= Seq::empty());
        assert(rv.take(0) =~= Seq::empty());
        let none = Seq::<KeyOffsetView>::empty();
        assert(none + none =~= none);
        lemma_multiset_commutative(none, none);
        assert(views(merged@).to_multiset() =~= lv.take(0).to_multiset().add(
            rv.take(0).to_multiset(),
        ));
    }
    while i < left.len() || j < right.len()
        invariant
            i <= left.len(),
            j <= right.len(),
            lv == views(left@),
            rv == views(right@),
            in_order(lv),
            in_order(rv),
            in_order(views(merged@)),
            views(merged@).to_multiset() == lv.take(i as int).to_multiset().add(
                rv.take(j as int).to_multiset(),
            ),
            forall|k: int|
                0 <= k < merged.len() && i < left.len() ==> entry_le(
                    #[trigger] views(merged@)[k],
                    lv[i as int],
                ),
            forall|k: int|
                0 <= k < merged.len() && j < right.len() ==> entry_le(
                    #[trigger] views(merged@)[k],
                    rv[j as int],
                ),
        decreases left.len() - i + right.len() - j,
    {
        let ghost before = views(merged@);
        let from_left = if i == left.len() {
            false
        } else if j == right.len() {
            true
        } else {
            entry_before(&left[i], &right[j])
        };
        if from_left {
            let entry = left[i].clone();
            merged.push(entry);
            proof {
                let x = lv[i as int];
                assert(views(merged@) =~= before.push(x));
                assert(lv.take(i + 1) =~= lv.take(i as int).push(x));
                to_multiset_build(before, x);
                to_multiset_build(lv.take(i as int), x);
                assert(views(merged@).to_multiset() =~= lv.take(i + 1).to_multiset().add(
                    rv.take(j as int).to_multiset(),
                ));
                assert forall|k: int| 0 <= k < merged.len() && i + 1 < left.len() implies entry_le(
                    #[trigger] views(merged@)[k],
                    lv[i + 1],
                ) by {
                    lemma_entry_le_total_order(views(merged@)[k], x, lv[i + 1]);
                }
                assert forall|k: int| 0 <= k < merged.len() && j < right.len() implies entry_le(
                    #[trigger] views(merged@)[k],
                    rv[j as int],
                ) by {}
            }
            i += 1;
        } else {
            let entry = right[j].clone();
            merged.push(entry);
            proof {
                let x = rv[j as int];
                assert(views(merged@) =~= before.push(x));
                assert(rv.take(j + 1) =~= rv.take(j as int).push(x));
                to_multiset_build(before, x);
                to_multiset_build(rv.take(j as int), x);
                assert(views(merged@).to_multiset() =~= lv.take(i as int).to_multiset().add(
                    rv.take(j + 1).to_multiset(),
                ));
                if i < left.len() {
                    lemma_entry_le_total_order(lv[i as int], x, x);
                }
                assert forall|k: int| 0 <= k < merged.len() && j + 1 < right.len() implies entry_le(
                    #[trigger] views(merged@)[k],
                    rv[j + 1],
                ) by {
                    lemma_entry_le_total_order(views(merged@)[k], x, rv[j + 1]);
                }
                assert forall|k: int| 0 <= k < merged.len() && i < left.len() implies entry_le(
                    #[trigger] views(merged@)[k],
                    lv[i as int],
                ) by {}
            }
            j += 1;
        }
    }
    proof {
        assert(lv.take(i as int) =~= lv);
        assert(rv.take(j as int) =~= rv);
    }
    merged
}

/// Sorts the entries `low .. high` by merging the sorted halves.
fn sort_range(entries: &Vec<KeyOffset>, low: usize, high: usize) -> (sorted: Vec<KeyOffset>)
    requires
        low <= high <= entries.len(),
    ensures
        in_order(views(sorted@)),
        views(sorted@).to_multiset() == views(entries@).subrange(
            low as int,
            high as int,
        ).to_multiset(),
    decreases high - low,
{
    let ghost all = views(entries@);
    if high - low <= 1 {
        let mut sorted: Vec<KeyOffset> = Vec::new();
        if low < high {
            sorted.push(entries[low].clone());
        }
        proof {
            assert(views(sorted@) =~= all.subrange(low as int, high as int));
        }
        return sorted;
    }
    let mid = low + (high - low) / 2;
    let left = sort_range(entries, low, mid);
    let right = sort_range(entries, mid, high);
    proof {
        assert(all.subrange(low as int, high as int) =~= all.subrange(low as int, mid as int)
            + all.subrange(mid as int, high as int));
        lemma_multiset_commutative(
            all.subrange(low as int, mid as int),
            all.subrange(mid as int, high as int),
        );
    }
    merge(&left, &right)
}

/// Sorts the entries into the order in which they are written: ascending by
/// key, and by offset among equal keys.
pub fn sort_entries(entries: &Vec<KeyOffset>) -> (sorted: Vec<KeyOffset>)
    ensures
        views(sorted@) == sorted_entries(views(entries@)),
{
    let sorted = sort_range(entries, 0, entries.len());
    proof {
        let all = views(entries@);
        assert(all.subrange(0, entries.len() as int) =~= all);
        lemma_in_order_is_sorted(views(sorted@), all);
    }
    sorted
}

} // verus!
