//! What inserting a whole collection leaves in the buckets, and the laws of
//! a rebuild.

use crate::geometry::{grid, Rect};
use crate::leaves::{
    accepts, cleared, entries_in_place, inserted, is_target, lemma_cleared_keeps_rects,
    lemma_inserted_in_place, lemma_target_by_rects, lemma_target_is_first, lemma_target_unique,
    lemma_tiled_accepts, lemma_total_cleared, lemma_total_inserted, rects, target, total, LeafView,
};
use vstd::prelude::*;

verus! {

/// The entries of `entries` that go to leaf `k`: those at a point for which
/// `k` is the first accepting leaf, in their order.
pub open spec fn landing<D>(leaves: Seq<LeafView<D>>, k: int, entries: Seq<(u16, u16, D)>) -> Seq<
    (u16, u16, D),
> {
    entries.filter(|e: (u16, u16, D)| is_target(leaves, k, e.0, e.1))
}

/// The leaves after the entries `(x, y, payload)` of `entries` were inserted
/// one after the other: every leaf gains, behind what it held, the entries
/// that go to it, in their order. Entries that no leaf accepts are dropped.
pub open spec fn filled<D>(leaves: Seq<LeafView<D>>, entries: Seq<(u16, u16, D)>) -> Seq<
    LeafView<D>,
> {
    Seq::new(
        leaves.len(),
        |k: int|
            LeafView {
                rect: leaves[k].rect,
                positions: leaves[k].positions + landing(leaves, k, entries).map_values(
                    |e: (u16, u16, D)| (e.0, e.1),
                ),
                data: leaves[k].data + landing(leaves, k, entries).map_values(
                    |e: (u16, u16, D)| e.2,
                ),
            },
    )
}

/// How often `item` occurs in `items`.
pub open spec fn occurrences<D>(items: Seq<D>, item: D) -> nat
    decreases items.len(),
{
    if items.len() == 0 {
        0
    } else {
        occurrences(items.drop_last(), item) + if items.last() == item {
            1nat
        } else {
            0nat
        }
    }
}

/// The entries that stand for a collection of positioned values: entry `i`
/// lies at point `i` and carries the index `i` as its payload.
pub open spec fn index_entries(points: Seq<(u16, u16)>) -> Seq<(u16, u16, usize)> {
    Seq::new(points.len(), |i: int| (points[i].0, points[i].1, i as usize))
}

/// Filling with no entry changes nothing.
pub proof fn lemma_filled_none<D>(leaves: Seq<LeafView<D>>)
    ensures
        filled(leaves, Seq::empty()) == leaves,
{
    reveal(Seq::filter);
    assert forall|k: int| 0 <= k < leaves.len() implies #[trigger] filled(
        leaves,
        Seq::<(u16, u16, D)>::empty(),
    )[k] == leaves[k] by {
        let none = landing(leaves, k, Seq::<(u16, u16, D)>::empty());
        assert(none.len() == 0);
        assert(leaves[k].positions + none.map_values(|e: (u16, u16, D)| (e.0, e.1))
            =~= leaves[k].positions);
        assert(leaves[k].data + none.map_values(|e: (u16, u16, D)| e.2) =~= leaves[k].data);
    }
    assert(filled(leaves, Seq::<(u16, u16, D)>::empty()) =~= leaves);
}

/// Filling moves no rectangle.
pub proof fn lemma_filled_keeps_rects<D>(leaves: Seq<LeafView<D>>, entries: Seq<(u16, u16, D)>)
    ensures
        rects(filled(leaves, entries)) == rects(leaves),
{
    assert(rects(filled(leaves, entries)) =~= rects(leaves));
}

/// Filling with one more entry is inserting that entry into what the
/// entries before it gave.
pub proof fn lemma_filled_push<D>(
    leaves: Seq<LeafView<D>>,
    entries: Seq<(u16, u16, D)>,
    e: (u16, u16, D),
)
    ensures
        filled(leaves, entries.push(e)) == inserted(filled(leaves, entries), e.0, e.1, e.2),
{
    let before = filled(leaves, entries);
    let after = filled(leaves, entries.push(e));
    let goal = inserted(before, e.0, e.1, e.2);
    lemma_filled_keeps_rects(leaves, entries);
    lemma_target_by_rects(before, leaves, e.0, e.1);
    if accepts(leaves, e.0, e.1) {
        lemma_target_is_first(leaves, e.0, e.1);
        lemma_target_is_first(before, e.0, e.1);
    }
    assert(goal.len() == leaves.len());
    assert forall|k: int| 0 <= k < leaves.len() implies #[trigger] after[k] == goal[k] by {
        let pred = |e: (u16, u16, D)| is_target(leaves, k, e.0, e.1);
        let to_point = |e: (u16, u16, D)| (e.0, e.1);
        let to_item = |e: (u16, u16, D)| e.2;
        entries.lemma_filter_push(e, pred);
        let mine = landing(leaves, k, entries);
        if is_target(leaves, k, e.0, e.1) {
            lemma_target_unique(leaves, k, e.0, e.1);
            assert(landing(leaves, k, entries.push(e)) == mine.push(e));
            assert(mine.push(e).map_values(to_point) =~= mine.map_values(to_point).push(
                (e.0, e.1),
            ));
            assert(mine.push(e).map_values(to_item) =~= mine.map_values(to_item).push(e.2));
            assert(after[k].positions =~= before[k].positions.push((e.0, e.1)));
            assert(after[k].data =~= before[k].data.push(e.2));
        } else {
            assert(landing(leaves, k, entries.push(e)) == mine);
            if accepts(leaves, e.0, e.1) {
                assert(k != target(leaves, e.0, e.1));
            }
        }
    }
    assert(after =~= goal);
}

/// Occurrences after one more item.
pub proof fn lemma_occurrences_push<D>(items: Seq<D>, last: D, item: D)
    ensures
        occurrences(items.push(last), item) == occurrences(items, item) + if last == item {
            1nat
        } else {
            0nat
        },
{
    assert(items.push(last).drop_last() =~= items);
}

/// How many of the entries lie at a point that some leaf accepts.
pub open spec fn accepted_count<D>(leaves: Seq<LeafView<D>>, entries: Seq<(u16, u16, D)>) -> nat {
    entries.filter(|e: (u16, u16, D)| accepts(leaves, e.0, e.1)).len()
}

/// Filling adds one entry to the tree for every entry at an accepted point,
/// and none for the others.
pub proof fn lemma_filled_total<D>(leaves: Seq<LeafView<D>>, entries: Seq<(u16, u16, D)>)
    ensures
        total(filled(leaves, entries)) == total(leaves) + accepted_count(leaves, entries),
    decreases entries.len(),
{
    let pred = |e: (u16, u16, D)| accepts(leaves, e.0, e.1);
    if entries.len() == 0 {
        lemma_filled_none(leaves);
        assert(entries =~= Seq::empty());
        entries.lemma_filter_len(pred);
    } else {
        let front = entries.drop_last();
        let e = entries.last();
        assert(entries =~= front.push(e));
        lemma_filled_total(leaves, front);
        lemma_filled_push(leaves, front, e);
        lemma_total_inserted(filled(leaves, front), e.0, e.1, e.2);
        lemma_filled_keeps_rects(leaves, front);
        lemma_target_by_rects(filled(leaves, front), leaves, e.0, e.1);
        front.lemma_filter_push(e, pred);
    }
}

/// Where every entry lies at an accepted point, every entry is counted.
pub proof fn lemma_accepted_count_all<D>(leaves: Seq<LeafView<D>>, entries: Seq<(u16, u16, D)>)
    requires
        forall|i: int|
            0 <= i < entries.len() ==> accepts(leaves, (#[trigger] entries[i]).0, entries[i].1),
    ensures
        accepted_count(leaves, entries) == entries.len(),
    decreases entries.len(),
{
    let pred = |e: (u16, u16, D)| accepts(leaves, e.0, e.1);
    if entries.len() == 0 {
        entries.lemma_filter_len(pred);
    } else {
        let front = entries.drop_last();
        let e = entries.last();
        assert(entries =~= front.push(e));
        assert forall|i: int| 0 <= i < front.len() implies accepts(
            leaves,
            (#[trigger] front[i]).0,
            front[i].1,
        ) by {
            assert(front[i] == entries[i]);
        }
        lemma_accepted_count_all(leaves, front);
        front.lemma_filter_push(e, pred);
    }
}

/// Rebuild consistency, the count: after a rebuild from `points` that all
/// lie inside the root of a tiling tree, the buckets together hold as many
/// entries as there are points.
pub proof fn lemma_rebuild_total(
    leaves: Seq<LeafView<usize>>,
    root: Rect,
    depth: nat,
    points: Seq<(u16, u16)>,
)
    requires
        rects(leaves) == grid(root, depth),
        forall|i: int|
            0 <= i < points.len() ==> root.contains(
                (#[trigger] points[i]).0 as int,
                points[i].1 as int,
            ),
    ensures
        total(filled(cleared(leaves), index_entries(points))) == points.len(),
{
    let start = cleared(leaves);
    let entries = index_entries(points);
    lemma_cleared_keeps_rects(leaves);
    assert forall|i: int| 0 <= i < entries.len() implies accepts(
        start,
        (#[trigger] entries[i]).0,
        entries[i].1,
    ) by {
        assert(root.contains(points[i].0 as int, points[i].1 as int));
        lemma_tiled_accepts(start, root, depth, points[i].0, points[i].1);
    }
    lemma_accepted_count_all(start, entries);
    lemma_filled_total(start, entries);
    lemma_total_cleared(leaves);
}

/// Rebuild consistency, the membership: what a rebuild leaves in the buckets
/// depends on the rectangles of the tree and on the entries alone, so a
/// second rebuild from the same entries gives the same buckets, whatever the
/// tree held in between.
pub proof fn lemma_rebuild_repeatable<D>(
    leaves: Seq<LeafView<D>>,
    between: Seq<LeafView<D>>,
    entries: Seq<(u16, u16, D)>,
)
    requires
        rects(between) == rects(leaves),
    ensures
        filled(cleared(between), entries) == filled(cleared(leaves), entries),
{
    assert(between.len() == rects(between).len());
    assert(leaves.len() == rects(leaves).len());
    assert forall|k: int| 0 <= k < leaves.len() implies (#[trigger] between[k]).rect
        == leaves[k].rect by {
        assert(rects(between)[k] == between[k].rect);
        assert(rects(leaves)[k] == leaves[k].rect);
    }
    assert(cleared(between) =~= cleared(leaves));
}

/// Self-consistency of the buckets, prefix by prefix: after the first `n`
/// points went in, leaf `k` holds the index `i` once where `i` is among
/// them and `k` is the target of its point, and not at all otherwise.
proof fn lemma_rebuild_prefix_occurrences(
    leaves: Seq<LeafView<usize>>,
    points: Seq<(u16, u16)>,
    n: int,
    i: int,
)
    requires
        0 <= n <= points.len() <= usize::MAX,
        0 <= i < points.len(),
    ensures
        forall|k: int|
            0 <= k < leaves.len() ==> occurrences(
                (#[trigger] filled(cleared(leaves), index_entries(points).take(n))[k]).data,
                i as usize,
            ) == if i < n && is_target(leaves, k, points[i].0, points[i].1) {
                1nat
            } else {
                0nat
            },
    decreases n,
{
    let start = cleared(leaves);
    let entries = index_entries(points);
    if n == 0 {
        assert(entries.take(0) =~= Seq::empty());
        lemma_filled_none(start);
    } else {
        let m = n - 1;
        let e = entries[m];
        let before = filled(start, entries.take(m));
        let after = filled(start, entries.take(n));
        lemma_rebuild_prefix_occurrences(leaves, points, m, i);
        assert(entries.take(n) =~= entries.take(m).push(e));
        lemma_filled_push(start, entries.take(m), e);
        lemma_filled_keeps_rects(start, entries.take(m));
        lemma_cleared_keeps_rects(leaves);
        lemma_target_by_rects(before, leaves, e.0, e.1);
        if accepts(leaves, e.0, e.1) {
            lemma_target_is_first(leaves, e.0, e.1);
        }
        assert forall|k: int| 0 <= k < leaves.len() implies occurrences(
            (#[trigger] after[k]).data,
            i as usize,
        ) == if i < n && is_target(leaves, k, points[i].0, points[i].1) {
            1nat
        } else {
            0nat
        } by {
            assert(before[k].data.len() >= 0);
            if is_target(leaves, k, e.0, e.1) {
                lemma_target_unique(leaves, k, e.0, e.1);
                assert(after[k].data == before[k].data.push(m as usize));
                lemma_occurrences_push(before[k].data, m as usize, i as usize);
            } else {
                assert(after[k] == before[k]);
            }
        }
    }
}

/// Self-consistency of the buckets: after a rebuild, the bucket of the leaf
/// that is the target of a value's point holds the value's index exactly
/// once, and no other bucket holds it. A value whose point no leaf accepts
/// is in no bucket.
pub proof fn lemma_rebuild_holds_each_once(
    leaves: Seq<LeafView<usize>>,
    points: Seq<(u16, u16)>,
    i: int,
    k: int,
)
    requires
        points.len() <= usize::MAX,
        0 <= i < points.len(),
        0 <= k < leaves.len(),
    ensures
        occurrences(filled(cleared(leaves), index_entries(points))[k].data, i as usize)
            == if is_target(leaves, k, points[i].0, points[i].1) {
            1nat
        } else {
            0nat
        },
{
    let entries = index_entries(points);
    assert(entries.take(points.len() as int) =~= entries);
    lemma_rebuild_prefix_occurrences(leaves, points, points.len() as int, i);
}

/// After a rebuild every payload in a bucket is the index of a value of
/// the collection.
pub proof fn lemma_rebuild_payloads_in_range(
    leaves: Seq<LeafView<usize>>,
    points: Seq<(u16, u16)>,
    k: int,
)
    requires
        points.len() <= usize::MAX,
        0 <= k < leaves.len(),
    ensures
        forall|j: int|
            0 <= j < filled(cleared(leaves), index_entries(points))[k].data.len() ==> (
            #[trigger] filled(cleared(leaves), index_entries(points))[k].data[j]) < points.len(),
{
    let start = cleared(leaves);
    let entries = index_entries(points);
    let mine = landing(start, k, entries);
    let data = filled(start, entries)[k].data;
    let pred = |e: (u16, u16, usize)| is_target(start, k, e.0, e.1);
    assert(data =~= mine.map_values(|e: (u16, u16, usize)| e.2));
    assert forall|j: int| 0 <= j < data.len() implies (#[trigger] data[j]) < points.len() by {
        assert(mine.contains(mine[j]));
        entries.lemma_filter_contains_rev(pred, mine[j]);
        let i = choose|i: int| 0 <= i < entries.len() && entries[i] == mine[j];
        assert(data[j] == mine[j].2);
        assert(entries[i].2 == i as usize);
    }
}

/// Filling keeps every entry in its place.
pub proof fn lemma_filled_in_place<D>(leaves: Seq<LeafView<D>>, entries: Seq<(u16, u16, D)>)
    requires
        entries_in_place(leaves),
    ensures
        entries_in_place(filled(leaves, entries)),
    decreases entries.len(),
{
    if entries.len() == 0 {
        assert(entries =~= Seq::empty());
        lemma_filled_none(leaves);
    } else {
        let front = entries.drop_last();
        let e = entries.last();
        assert(entries =~= front.push(e));
        lemma_filled_in_place(leaves, front);
        lemma_filled_push(leaves, front, e);
        lemma_inserted_in_place(filled(leaves, front), e.0, e.1, e.2);
    }
}

} // verus!
