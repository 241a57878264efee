//! The model of a tree: its leaves in scan order, and what acceptance,
//! insertion and clearing mean for them.

use crate::geometry::{grid, lemma_grid_covers, lemma_grid_disjoint, some_cell_contains, Rect};
use vstd::prelude::*;

verus! {

/// What one leaf of a tree holds: its rectangle and its bucket of entries.
///
/// Entry `i` of the bucket is the payload `data[i]`, recorded at the position
/// `positions[i]`.
pub struct LeafView<D> {
    pub rect: Rect,
    pub positions: Seq<(u16, u16)>,
    pub data: Seq<D>,
}

impl<D> LeafView<D> {
    /// The leaf over `rect` with an empty bucket.
    pub open spec fn empty(rect: Rect) -> Self {
        LeafView { rect, positions: Seq::empty(), data: Seq::empty() }
    }

    /// The leaf with one more entry at the end of its bucket.
    pub open spec fn with_entry(self, x: u16, y: u16, item: D) -> Self {
        LeafView {
            rect: self.rect,
            positions: self.positions.push((x, y)),
            data: self.data.push(item),
        }
    }

    /// The leaf with its payloads replaced by `data`.
    pub open spec fn with_data(self, data: Seq<D>) -> Self {
        LeafView { rect: self.rect, positions: self.positions, data }
    }
}

/// Whether `k` is the first leaf, in scan order, whose rectangle holds the
/// point `(x, y)`.
pub open spec fn is_target<D>(leaves: Seq<LeafView<D>>, k: int, x: u16, y: u16) -> bool {
    &&& 0 <= k < leaves.len()
    &&& leaves[k].rect.contains(x as int, y as int)
    &&& forall|j: int| 0 <= j < k ==> !(#[trigger] leaves[j]).rect.contains(x as int, y as int)
}

/// Whether some leaf's rectangle holds the point `(x, y)`.
pub open spec fn accepts<D>(leaves: Seq<LeafView<D>>, x: u16, y: u16) -> bool {
    exists|k: int| 0 <= k < leaves.len() && (#[trigger] leaves[k]).rect.contains(x as int, y as int)
}

/// The index of the first leaf, in scan order, whose rectangle holds the
/// point `(x, y)`. It is meaningful where `accepts` holds.
pub open spec fn target<D>(leaves: Seq<LeafView<D>>, x: u16, y: u16) -> int {
    choose|k: int| is_target(leaves, k, x, y)
}

/// The bucket around the point `(x, y)`: the payloads of the target leaf.
/// It is meaningful where `accepts` holds.
pub open spec fn bucket_at<D>(leaves: Seq<LeafView<D>>, x: u16, y: u16) -> Seq<D> {
    leaves[target(leaves, x, y)].data
}

/// The leaves after an attempt to insert `item` at `(x, y)`: the target leaf
/// gains the entry; where no leaf accepts the point, nothing changes.
pub open spec fn inserted<D>(leaves: Seq<LeafView<D>>, x: u16, y: u16, item: D) -> Seq<
    LeafView<D>,
> {
    if accepts(leaves, x, y) {
        let k = target(leaves, x, y);
        leaves.update(k, leaves[k].with_entry(x, y, item))
    } else {
        leaves
    }
}

/// The same leaves with every bucket emptied.
pub open spec fn cleared<D>(leaves: Seq<LeafView<D>>) -> Seq<LeafView<D>> {
    Seq::new(leaves.len(), |k: int| LeafView::empty(leaves[k].rect))
}

/// The leaves with leaf `k` replaced by the run `middle`.
pub open spec fn spliced<D>(leaves: Seq<LeafView<D>>, k: int, middle: Seq<LeafView<D>>) -> Seq<
    LeafView<D>,
> {
    leaves.subrange(0, k) + middle + leaves.subrange(k + 1, leaves.len() as int)
}

/// The rectangles of the leaves, in scan order.
pub open spec fn rects<D>(leaves: Seq<LeafView<D>>) -> Seq<Rect> {
    Seq::new(leaves.len(), |k: int| leaves[k].rect)
}

/// Empty leaves over the given cells.
pub open spec fn empty_leaves<D>(cells: Seq<Rect>) -> Seq<LeafView<D>> {
    Seq::new(cells.len(), |k: int| LeafView::empty(cells[k]))
}

/// The number of entries in all buckets together.
pub open spec fn total<D>(leaves: Seq<LeafView<D>>) -> nat
    decreases leaves.len(),
{
    if leaves.len() == 0 {
        0
    } else {
        total(leaves.drop_last()) + leaves.last().data.len()
    }
}

/// Below an accepting leaf there is a first accepting leaf.
proof fn lemma_first_exists<D>(leaves: Seq<LeafView<D>>, k: int, x: u16, y: u16)
    requires
        0 <= k < leaves.len(),
        leaves[k].rect.contains(x as int, y as int),
    ensures
        exists|t: int| is_target(leaves, t, x, y),
    decreases k,
{
    if exists|j: int| 0 <= j < k && (#[trigger] leaves[j]).rect.contains(x as int, y as int) {
        let j = choose|j: int|
            0 <= j < k && (#[trigger] leaves[j]).rect.contains(x as int, y as int);
        lemma_first_exists(leaves, j, x, y);
    } else {
        assert(is_target(leaves, k, x, y));
    }
}

/// Where a point is accepted, `target` names the first accepting leaf.
pub proof fn lemma_target_is_first<D>(leaves: Seq<LeafView<D>>, x: u16, y: u16)
    requires
        accepts(leaves, x, y),
    ensures
        is_target(leaves, target(leaves, x, y), x, y),
{
    let k = choose|k: int|
        0 <= k < leaves.len() && (#[trigger] leaves[k]).rect.contains(x as int, y as int);
    lemma_first_exists(leaves, k, x, y);
}

/// There is at most one first accepting leaf.
pub proof fn lemma_target_unique<D>(leaves: Seq<LeafView<D>>, k: int, x: u16, y: u16)
    requires
        is_target(leaves, k, x, y),
    ensures
        accepts(leaves, x, y),
        target(leaves, x, y) == k,
{
    let t = target(leaves, x, y);
    assert(is_target(leaves, t, x, y));
    if t < k {
        assert(!leaves[t].rect.contains(x as int, y as int));
    } else if k < t {
        assert(!leaves[k].rect.contains(x as int, y as int));
    }
}

/// Acceptance and the target of two runs of leaves laid end to end: the
/// first run is scanned first.
pub proof fn lemma_target_concat<D>(a: Seq<LeafView<D>>, b: Seq<LeafView<D>>, x: u16, y: u16)
    ensures
        accepts(a + b, x, y) <==> accepts(a, x, y) || accepts(b, x, y),
        accepts(a, x, y) ==> target(a + b, x, y) == target(a, x, y),
        !accepts(a, x, y) && accepts(b, x, y) ==> target(a + b, x, y) == a.len() + target(b, x, y),
{
    let ab = a + b;
    if accepts(ab, x, y) {
        let k = choose|k: int|
            0 <= k < ab.len() && (#[trigger] ab[k]).rect.contains(x as int, y as int);
        if k < a.len() {
            assert(a[k].rect.contains(x as int, y as int));
        } else {
            assert(b[k - a.len()].rect.contains(x as int, y as int));
        }
    }
    if accepts(a, x, y) {
        lemma_target_is_first(a, x, y);
        let t = target(a, x, y);
        assert(ab[t] == a[t]);
        assert forall|j: int| 0 <= j < t implies !(#[trigger] ab[j]).rect.contains(
            x as int,
            y as int,
        ) by {
            assert(ab[j] == a[j]);
        }
        lemma_target_unique(ab, t, x, y);
    } else if accepts(b, x, y) {
        lemma_target_is_first(b, x, y);
        let t = target(b, x, y);
        assert(ab[a.len() + t] == b[t]);
        assert forall|j: int| 0 <= j < a.len() + t implies !(#[trigger] ab[j]).rect.contains(
            x as int,
            y as int,
        ) by {
            if j < a.len() {
                assert(ab[j] == a[j]);
            } else {
                assert(ab[j] == b[j - a.len()]);
            }
        }
        lemma_target_unique(ab, a.len() + t, x, y);
    }
}

/// Inserting into two runs of leaves laid end to end goes to the first run
/// that accepts the point.
pub proof fn lemma_inserted_concat<D>(
    a: Seq<LeafView<D>>,
    b: Seq<LeafView<D>>,
    x: u16,
    y: u16,
    item: D,
)
    ensures
        accepts(a, x, y) ==> inserted(a + b, x, y, item) == inserted(a, x, y, item) + b,
        !accepts(a, x, y) ==> inserted(a + b, x, y, item) == a + inserted(b, x, y, item),
{
    lemma_target_concat(a, b, x, y);
    if accepts(a, x, y) {
        lemma_target_is_first(a, x, y);
        assert(inserted(a + b, x, y, item) =~= inserted(a, x, y, item) + b);
    } else if accepts(b, x, y) {
        lemma_target_is_first(b, x, y);
        assert(inserted(a + b, x, y, item) =~= a + inserted(b, x, y, item));
    }
}

/// Acceptance and the target of four runs of leaves laid end to end, as the
/// four children of a node lie: the runs are scanned in order.
pub proof fn lemma_target_quads<D>(
    a: Seq<LeafView<D>>,
    b: Seq<LeafView<D>>,
    c: Seq<LeafView<D>>,
    d: Seq<LeafView<D>>,
    x: u16,
    y: u16,
)
    ensures
        accepts(a + b + c + d, x, y) <==> accepts(a, x, y) || accepts(b, x, y) || accepts(c, x, y)
            || accepts(d, x, y),
        accepts(a + b + c + d, x, y) ==> target(a + b + c + d, x, y) == if accepts(a, x, y) {
            target(a, x, y)
        } else if accepts(b, x, y) {
            a.len() + target(b, x, y)
        } else if accepts(c, x, y) {
            a.len() + b.len() + target(c, x, y)
        } else {
            a.len() + b.len() + c.len() + target(d, x, y)
        },
{
    lemma_target_concat(a, b, x, y);
    lemma_target_concat(a + b, c, x, y);
    lemma_target_concat(a + b + c, d, x, y);
}

/// Inserting into four runs of leaves laid end to end goes to the first run
/// that accepts the point, and to no other.
pub proof fn lemma_inserted_quads<D>(
    a: Seq<LeafView<D>>,
    b: Seq<LeafView<D>>,
    c: Seq<LeafView<D>>,
    d: Seq<LeafView<D>>,
    x: u16,
    y: u16,
    item: D,
)
    ensures
        inserted(a + b + c + d, x, y, item) == if accepts(a, x, y) {
            inserted(a, x, y, item) + b + c + d
        } else if accepts(b, x, y) {
            a + inserted(b, x, y, item) + c + d
        } else if accepts(c, x, y) {
            a + b + inserted(c, x, y, item) + d
        } else {
            a + b + c + inserted(d, x, y, item)
        },
{
    lemma_target_concat(a, b, x, y);
    lemma_target_concat(a + b, c, x, y);
    lemma_inserted_concat(a, b, x, y, item);
    lemma_inserted_concat(a + b, c, x, y, item);
    lemma_inserted_concat(a + b + c, d, x, y, item);
}

/// Replacing a leaf by a single leaf is an update in place.
pub proof fn lemma_spliced_one<D>(leaves: Seq<LeafView<D>>, k: int, leaf: LeafView<D>)
    requires
        0 <= k < leaves.len(),
    ensures
        spliced(leaves, k, seq![leaf]) == leaves.update(k, leaf),
{
    assert(spliced(leaves, k, seq![leaf]) =~= leaves.update(k, leaf));
}

/// Replacing a leaf inside one of four runs laid end to end replaces the
/// leaf at the matching place of the whole.
pub proof fn lemma_spliced_quads<D>(
    a: Seq<LeafView<D>>,
    b: Seq<LeafView<D>>,
    c: Seq<LeafView<D>>,
    d: Seq<LeafView<D>>,
    k: int,
    middle: Seq<LeafView<D>>,
)
    ensures
        0 <= k < a.len() ==> spliced(a + b + c + d, k, middle) == spliced(a, k, middle) + b + c
            + d,
        0 <= k < b.len() ==> spliced(a + b + c + d, a.len() + k, middle) == a + spliced(
            b,
            k,
            middle,
        ) + c + d,
        0 <= k < c.len() ==> spliced(a + b + c + d, a.len() + b.len() + k, middle) == a + b
            + spliced(c, k, middle) + d,
        0 <= k < d.len() ==> spliced(a + b + c + d, a.len() + b.len() + c.len() + k, middle) == a
            + b + c + spliced(d, k, middle),
{
    if 0 <= k < a.len() {
        assert(spliced(a + b + c + d, k, middle) =~= spliced(a, k, middle) + b + c + d);
    }
    if 0 <= k < b.len() {
        assert(spliced(a + b + c + d, a.len() + k, middle) =~= a + spliced(b, k, middle) + c + d);
    }
    if 0 <= k < c.len() {
        assert(spliced(a + b + c + d, a.len() + b.len() + k, middle) =~= a + b + spliced(
            c,
            k,
            middle,
        ) + d);
    }
    if 0 <= k < d.len() {
        assert(spliced(a + b + c + d, a.len() + b.len() + c.len() + k, middle) =~= a + b + c
            + spliced(d, k, middle));
    }
}

/// A single leaf on its own: it accepts the points of its rectangle, is
/// then the target, and takes the entry.
pub proof fn lemma_single_leaf<D>(leaf: LeafView<D>, x: u16, y: u16)
    ensures
        accepts(seq![leaf], x, y) == leaf.rect.contains(x as int, y as int),
        accepts(seq![leaf], x, y) ==> target(seq![leaf], x, y) == 0,
        forall|item: D| #[trigger]
            inserted(seq![leaf], x, y, item) == seq![
                if leaf.rect.contains(x as int, y as int) {
                    leaf.with_entry(x, y, item)
                } else {
                    leaf
                },
            ],
        cleared(seq![leaf]) == seq![LeafView::<D>::empty(leaf.rect)],
{
    let one = seq![leaf];
    assert(one[0] == leaf);
    if leaf.rect.contains(x as int, y as int) {
        assert(is_target(one, 0, x, y));
        lemma_target_unique(one, 0, x, y);
    }
    assert forall|item: D| #[trigger]
        inserted(one, x, y, item) == seq![
            if leaf.rect.contains(x as int, y as int) {
                leaf.with_entry(x, y, item)
            } else {
                leaf
            },
        ] by {
        assert(inserted(one, x, y, item) =~= seq![
            if leaf.rect.contains(x as int, y as int) {
                leaf.with_entry(x, y, item)
            } else {
                leaf
            },
        ]);
    }
    assert(cleared(one) =~= seq![LeafView::<D>::empty(leaf.rect)]);
}

/// Clearing two runs of leaves laid end to end clears each run.
pub proof fn lemma_cleared_concat<D>(a: Seq<LeafView<D>>, b: Seq<LeafView<D>>)
    ensures
        cleared(a + b) == cleared(a) + cleared(b),
{
    assert(cleared(a + b) =~= cleared(a) + cleared(b));
}

/// Empty leaves over two runs of cells laid end to end.
pub proof fn lemma_empty_leaves_concat<D>(a: Seq<Rect>, b: Seq<Rect>)
    ensures
        empty_leaves::<D>(a + b) == empty_leaves::<D>(a) + empty_leaves::<D>(b),
{
    assert(empty_leaves::<D>(a + b) =~= empty_leaves::<D>(a) + empty_leaves::<D>(b));
}

/// Replacing one leaf changes the number of entries by the difference of the
/// two buckets.
pub proof fn lemma_total_update<D>(leaves: Seq<LeafView<D>>, k: int, leaf: LeafView<D>)
    requires
        0 <= k < leaves.len(),
    ensures
        total(leaves.update(k, leaf)) == total(leaves) - leaves[k].data.len() + leaf.data.len(),
    decreases leaves.len(),
{
    let updated = leaves.update(k, leaf);
    if k == leaves.len() - 1 {
        assert(updated.drop_last() =~= leaves.drop_last());
    } else {
        assert(updated.drop_last() =~= leaves.drop_last().update(k, leaf));
        lemma_total_update(leaves.drop_last(), k, leaf);
    }
}

/// Cleared leaves hold no entry.
pub proof fn lemma_total_cleared<D>(leaves: Seq<LeafView<D>>)
    ensures
        total(cleared(leaves)) == 0,
    decreases leaves.len(),
{
    if leaves.len() > 0 {
        assert(cleared(leaves).drop_last() =~= cleared(leaves.drop_last()));
        lemma_total_cleared(leaves.drop_last());
    }
}

/// An accepted insertion adds exactly one entry; a refused one adds none.
pub proof fn lemma_total_inserted<D>(leaves: Seq<LeafView<D>>, x: u16, y: u16, item: D)
    ensures
        total(inserted(leaves, x, y, item)) == total(leaves) + if accepts(leaves, x, y) {
            1nat
        } else {
            0nat
        },
{
    if accepts(leaves, x, y) {
        lemma_target_is_first(leaves, x, y);
        let k = target(leaves, x, y);
        lemma_total_update(leaves, k, leaves[k].with_entry(x, y, item));
    }
}

/// Clearing twice is clearing once.
pub proof fn lemma_cleared_idempotent<D>(leaves: Seq<LeafView<D>>)
    ensures
        cleared(cleared(leaves)) == cleared(leaves),
{
    assert(cleared(cleared(leaves)) =~= cleared(leaves));
}

/// An insertion moves no rectangle, so it changes neither which points are
/// accepted nor where they go.
pub proof fn lemma_inserted_keeps_rects<D>(leaves: Seq<LeafView<D>>, x: u16, y: u16, item: D)
    ensures
        rects(inserted(leaves, x, y, item)) == rects(leaves),
{
    if accepts(leaves, x, y) {
        lemma_target_is_first(leaves, x, y);
    }
    assert(rects(inserted(leaves, x, y, item)) =~= rects(leaves));
}

/// Clearing moves no rectangle.
pub proof fn lemma_cleared_keeps_rects<D>(leaves: Seq<LeafView<D>>)
    ensures
        rects(cleared(leaves)) == rects(leaves),
{
    assert(rects(cleared(leaves)) =~= rects(leaves));
}

/// Acceptance and the target depend on the rectangles alone.
pub proof fn lemma_target_by_rects<D, E>(a: Seq<LeafView<D>>, b: Seq<LeafView<E>>, x: u16, y: u16)
    requires
        rects(a) == rects(b),
    ensures
        accepts(a, x, y) == accepts(b, x, y),
        accepts(a, x, y) ==> target(a, x, y) == target(b, x, y),
{
    assert(a.len() == rects(a).len());
    assert(b.len() == rects(b).len());
    assert forall|k: int| 0 <= k < a.len() implies (#[trigger] a[k]).rect == b[k].rect by {
        assert(rects(a)[k] == a[k].rect);
        assert(rects(b)[k] == b[k].rect);
    }
    if accepts(a, x, y) {
        let k = choose|k: int|
            0 <= k < a.len() && (#[trigger] a[k]).rect.contains(x as int, y as int);
        assert(b[k].rect.contains(x as int, y as int));
        lemma_target_is_first(a, x, y);
        let t = target(a, x, y);
        assert(b[t].rect == a[t].rect);
        assert forall|j: int| 0 <= j < t implies !(#[trigger] b[j]).rect.contains(
            x as int,
            y as int,
        ) by {
            assert(a[j].rect == b[j].rect);
        }
        lemma_target_unique(b, t, x, y);
    }
    if accepts(b, x, y) {
        let k = choose|k: int|
            0 <= k < b.len() && (#[trigger] b[k]).rect.contains(x as int, y as int);
        assert(a[k].rect.contains(x as int, y as int));
    }
}

/// After a clear, the bucket around every accepted point is empty.
pub proof fn lemma_cleared_bucket_empty<D>(leaves: Seq<LeafView<D>>, x: u16, y: u16)
    requires
        accepts(leaves, x, y),
    ensures
        accepts(cleared(leaves), x, y),
        target(cleared(leaves), x, y) == target(leaves, x, y),
        cleared(leaves)[target(cleared(leaves), x, y)].data == Seq::<D>::empty(),
        cleared(leaves)[target(cleared(leaves), x, y)].positions == Seq::<(u16, u16)>::empty(),
{
    lemma_cleared_keeps_rects(leaves);
    lemma_target_by_rects(leaves, cleared(leaves), x, y);
    lemma_target_is_first(leaves, x, y);
}

/// Containment: in leaves that tile `root`, a point is accepted exactly when
/// it lies in `root`, and then exactly one leaf holds it: the target.
pub proof fn lemma_tiled_accepts<D>(
    leaves: Seq<LeafView<D>>,
    root: Rect,
    depth: nat,
    x: u16,
    y: u16,
)
    requires
        rects(leaves) == grid(root, depth),
    ensures
        accepts(leaves, x, y) == root.contains(x as int, y as int),
        forall|k: int|
            0 <= k < leaves.len() && (#[trigger] leaves[k]).rect.contains(x as int, y as int)
                ==> k == target(leaves, x, y),
{
    let cells = grid(root, depth);
    assert(leaves.len() == rects(leaves).len());
    assert forall|k: int| 0 <= k < leaves.len() implies (#[trigger] leaves[k]).rect
        == cells[k] by {
        assert(rects(leaves)[k] == leaves[k].rect);
    }
    lemma_grid_covers(root, depth, x as int, y as int);
    if accepts(leaves, x, y) {
        let k = choose|k: int|
            0 <= k < leaves.len() && (#[trigger] leaves[k]).rect.contains(x as int, y as int);
        assert(cells[k].contains(x as int, y as int));
        lemma_target_is_first(leaves, x, y);
    }
    if some_cell_contains(cells, x as int, y as int) {
        let k = choose|k: int|
            0 <= k < cells.len() && (#[trigger] cells[k]).contains(x as int, y as int);
        assert(leaves[k].rect.contains(x as int, y as int));
    }
    assert forall|k: int|
        0 <= k < leaves.len() && (#[trigger] leaves[k]).rect.contains(
            x as int,
            y as int,
        ) implies k == target(leaves, x, y) by {
        let t = target(leaves, x, y);
        if k != t {
            lemma_grid_disjoint(root, depth, k, t, x as int, y as int);
        }
    }
}

/// Clearing leaves gives the empty leaves over their rectangles.
pub proof fn lemma_cleared_is_empty_leaves<D>(leaves: Seq<LeafView<D>>)
    ensures
        cleared(leaves) == empty_leaves::<D>(rects(leaves)),
        rects(empty_leaves::<D>(rects(leaves))) == rects(leaves),
{
    assert(cleared(leaves) =~= empty_leaves::<D>(rects(leaves)));
    assert(rects(empty_leaves::<D>(rects(leaves))) =~= rects(leaves));
}

/// Empty leaves over cells have those cells as their rectangles.
pub proof fn lemma_empty_leaves_rects<D>(cells: Seq<Rect>)
    ensures
        rects(empty_leaves::<D>(cells)) == cells,
{
    assert(rects(empty_leaves::<D>(cells)) =~= cells);
}

/// Replacing the payloads of one leaf moves no rectangle.
pub proof fn lemma_with_data_keeps_rects<D>(leaves: Seq<LeafView<D>>, k: int)
    requires
        0 <= k < leaves.len(),
    ensures
        forall|data: Seq<D>|
            rects(#[trigger] leaves.update(k, leaves[k].with_data(data))) == rects(leaves),
{
    assert forall|data: Seq<D>|
        rects(#[trigger] leaves.update(k, leaves[k].with_data(data))) == rects(leaves) by {
        assert(rects(leaves.update(k, leaves[k].with_data(data))) =~= rects(leaves));
    }
}

/// Whether every bucket records one position for each payload, and every
/// recorded position lies in the rectangle of its leaf.
pub open spec fn entries_in_place<D>(leaves: Seq<LeafView<D>>) -> bool {
    forall|k: int|
        0 <= k < leaves.len() ==> {
            &&& (#[trigger] leaves[k]).positions.len() == leaves[k].data.len()
            &&& forall|i: int|
                0 <= i < leaves[k].positions.len() ==> leaves[k].rect.contains(
                    (#[trigger] leaves[k].positions[i]).0 as int,
                    leaves[k].positions[i].1 as int,
                )
        }
}

/// In empty leaves every entry is in its place, there being none.
pub proof fn lemma_empty_leaves_in_place<D>(cells: Seq<Rect>)
    ensures
        entries_in_place(empty_leaves::<D>(cells)),
{
}

/// After a clear every entry is in its place, there being none.
pub proof fn lemma_cleared_in_place<D>(leaves: Seq<LeafView<D>>)
    ensures
        entries_in_place(cleared(leaves)),
{
}

/// An insertion puts the entry into a leaf that holds its point, so it
/// keeps every entry in its place.
pub proof fn lemma_inserted_in_place<D>(leaves: Seq<LeafView<D>>, x: u16, y: u16, item: D)
    requires
        entries_in_place(leaves),
    ensures
        entries_in_place(inserted(leaves, x, y, item)),
{
    let after = inserted(leaves, x, y, item);
    if accepts(leaves, x, y) {
        lemma_target_is_first(leaves, x, y);
        let t = target(leaves, x, y);
        assert forall|k: int| 0 <= k < after.len() implies {
            &&& (#[trigger] after[k]).positions.len() == after[k].data.len()
            &&& forall|i: int|
                0 <= i < after[k].positions.len() ==> after[k].rect.contains(
                    (#[trigger] after[k].positions[i]).0 as int,
                    after[k].positions[i].1 as int,
                )
        } by {
            assert(leaves[k].positions.len() == leaves[k].data.len());
            if k == t {
                assert forall|i: int| 0 <= i < after[k].positions.len() implies after[k].rect.contains(
                    (#[trigger] after[k].positions[i]).0 as int,
                    after[k].positions[i].1 as int,
                ) by {
                    if i < leaves[k].positions.len() {
                        assert(after[k].positions[i] == leaves[k].positions[i]);
                    }
                }
            } else {
                assert(after[k] == leaves[k]);
            }
        }
    }
}

} // verus!
