//! The quadtree of depth three, built from nested arrays of four.

use crate::fill::{
    filled, index_entries, lemma_filled_keeps_rects, lemma_filled_none, lemma_filled_push,
};
use crate::geometry::{divide_into_4, grid, lemma_quadrant_representable, Rect};
use crate::leaves::{
    accepts, bucket_at, cleared, empty_leaves, inserted, lemma_cleared_concat,
    lemma_cleared_keeps_rects, lemma_empty_leaves_concat, lemma_empty_leaves_rects,
    lemma_inserted_keeps_rects, lemma_inserted_quads, lemma_single_leaf, lemma_target_is_first,
    lemma_target_quads, lemma_with_data_keeps_rects, rects, target, LeafView,
};
use crate::{owned_entries, positions, GetX, GetY};
use vstd::pervasive::cloned;
use vstd::prelude::*;

verus! {

/// A quadtree of depth 3: four quadrants of four quadrants of four leaves,
/// an 8 x 8 grid of leaves.
pub type QuadTree<DataT> = QuadTreeDepth3<DataT>;

type QuadTreeDepth3<DataT> = [[[QuadTreeLeaf<DataT>; 4]; 4]; 4];

/// A leaf of the tree: a rectangle and the bucket of the entries that were
/// inserted at points of it.
pub struct QuadTreeLeaf<DataT> {
    /// The payloads of the entries, in the order of their insertion.
    pub data: Vec<DataT>,
    /// The point at which each entry was inserted.
    positions: Vec<(u16, u16)>,
    rect_x: u16,
    rect_y: u16,
    rect_w: u16,
    rect_h: u16,
}

impl<DataT> View for QuadTreeLeaf<DataT> {
    type V = LeafView<DataT>;

    closed spec fn view(&self) -> LeafView<DataT> {
        LeafView {
            rect: Rect::of(self.rect_x, self.rect_y, self.rect_w, self.rect_h),
            positions: self.positions@,
            data: self.data@,
        }
    }
}

impl<DataT> QuadTreeLeaf<DataT> {
    /// An empty leaf over the given rectangle.
    pub fn new_empty(rect_x: u16, rect_y: u16, rect_w: u16, rect_h: u16) -> (leaf: Self)
        ensures
            leaf@ == LeafView::<DataT>::empty(Rect::of(rect_x, rect_y, rect_w, rect_h)),
    {
        QuadTreeLeaf { data: Vec::new(), positions: Vec::new(), rect_x, rect_y, rect_w, rect_h }
    }

    /// Empties the bucket.
    pub fn clear(&mut self)
        ensures
            final(self)@ == LeafView::<DataT>::empty(old(self)@.rect),
    {
        self.data.clear();
        self.positions.clear();
    }

    /// Whether the point lies in the leaf's rectangle.
    pub fn can_insert(&self, x: u16, y: u16) -> (fits: bool)
        ensures
            fits == self@.rect.contains(x as int, y as int),
    {
        x >= self.rect_x && x - self.rect_x < self.rect_w && y >= self.rect_y && y - self.rect_y
            < self.rect_h
    }

    /// Adds the entry to the bucket where the point lies in the leaf's
    /// rectangle, and reports whether it does. A refused insertion changes
    /// nothing.
    pub fn insert(&mut self, x: u16, y: u16, data: DataT) -> (ok: bool)
        ensures
            ok == old(self)@.rect.contains(x as int, y as int),
            ok ==> final(self)@ == old(self)@.with_entry(x, y, data),
            !ok ==> *final(self) == *old(self),
    {
        if self.can_insert(x, y) {
            self.data.push(data);
            self.positions.push((x, y));
            true
        } else {
            false
        }
    }
}

/// The operations of a tree of fixed depth: four leaves, or four quadrants
/// that are such trees themselves.
pub trait Quadrants: Sized {
    type DataT;

    /// The leaves of the tree in scan order: those of quadrant 0 first, then
    /// those of quadrant 1, 2 and 3.
    spec fn leaves(&self) -> Seq<LeafView<Self::DataT>>;

    /// The number of levels of quadrants above the leaves.
    spec fn levels() -> nat;

    /// The number of levels as a value at run time. Contracts speak of
    /// `levels`.
    const DEPTH: usize;

    /// Builds an empty tree over the given rectangle.
    fn new_empty(rect_x: u16, rect_y: u16, rect_w: u16, rect_h: u16) -> (tree: Self)
        requires
            Rect::of(rect_x, rect_y, rect_w, rect_h).representable(),
        ensures
            tree.leaves() == empty_leaves::<Self::DataT>(
                grid(Rect::of(rect_x, rect_y, rect_w, rect_h), Self::levels()),
            ),
            rects(tree.leaves()) == grid(Rect::of(rect_x, rect_y, rect_w, rect_h), Self::levels()),
    ;

    /// Empties the bucket of every leaf.
    fn clear(&mut self)
        ensures
            final(self).leaves() == cleared(old(self).leaves()),
            rects(final(self).leaves()) == rects(old(self).leaves()),
    ;

    /// Whether the point lies in the rectangle of some leaf, so that an
    /// insertion at it would succeed.
    fn can_insert(&self, x: u16, y: u16) -> (fits: bool)
        ensures
            fits == accepts(self.leaves(), x, y),
    ;

    /// Adds the entry `data` at `(x, y)` to the first leaf, in scan order,
    /// whose rectangle holds the point, and reports whether there was one.
    fn insert(&mut self, x: u16, y: u16, data: Self::DataT) -> (ok: bool)
        ensures
            ok == accepts(old(self).leaves(), x, y),
            final(self).leaves() == inserted(old(self).leaves(), x, y, data),
            rects(final(self).leaves()) == rects(old(self).leaves()),
    ;

    /// The leaf that holds the point: the first leaf, in scan order, whose
    /// rectangle contains `(x, y)`, or `None` where no leaf does.
    fn get_leaf_around(&self, x: u16, y: u16) -> (found: Option<&QuadTreeLeaf<Self::DataT>>)
        ensures
            found is Some <==> accepts(self.leaves(), x, y),
            found matches Some(leaf) ==> leaf@ == self.leaves()[target(self.leaves(), x, y)],
    ;

    /// The leaf that holds the point, for writing. What the caller leaves
    /// behind the reference takes the place of that leaf; all other leaves
    /// stay as they were.
    fn get_mut_leaf_around(&mut self, x: u16, y: u16) -> (found: Option<
        &mut QuadTreeLeaf<Self::DataT>,
    >)
        ensures
            found is Some <==> accepts(old(self).leaves(), x, y),
            found matches Some(leaf) ==> {
                let t = target(old(self).leaves(), x, y);
                &&& leaf@ == old(self).leaves()[t]
                &&& final(self).leaves() == old(self).leaves().update(t, final(leaf)@)
            },
            found is None ==> final(self).leaves() == old(self).leaves(),
    ;

    /// The bucket around the point: the payloads of the leaf that holds
    /// `(x, y)`, in the order in which they were inserted.
    fn broad_phase(&self, x: u16, y: u16) -> (bucket: &Vec<Self::DataT>)
        requires
            accepts(self.leaves(), x, y),
        ensures
            bucket@ == bucket_at(self.leaves(), x, y),
    {
        &self.get_leaf_around(x, y).unwrap().data
    }

    /// The bucket around the point, for writing. What the caller leaves
    /// behind the reference becomes the payloads of that leaf; nothing else
    /// in the tree changes.
    fn broad_phase_mut(&mut self, x: u16, y: u16) -> (bucket: &mut Vec<Self::DataT>)
        requires
            accepts(old(self).leaves(), x, y),
        ensures
            bucket@ == bucket_at(old(self).leaves(), x, y),
            final(self).leaves() == old(self).leaves().update(
                target(old(self).leaves(), x, y),
                old(self).leaves()[target(old(self).leaves(), x, y)].with_data(final(bucket)@),
            ),
            rects(final(self).leaves()) == rects(old(self).leaves()),
    {
        proof {
            lemma_target_is_first(old(self).leaves(), x, y);
            lemma_with_data_keeps_rects(
                old(self).leaves(),
                target(old(self).leaves(), x, y),
            );
        }
        &mut self.get_mut_leaf_around(x, y).unwrap().data
    }
}

/// Four quadrants that are trees themselves form a tree one level deeper.
impl<InnerQuadrants> Quadrants for [InnerQuadrants; 4] where InnerQuadrants: Quadrants {
    type DataT = InnerQuadrants::DataT;

    open spec fn leaves(&self) -> Seq<LeafView<Self::DataT>> {
        self[0].leaves() + self[1].leaves() + self[2].leaves() + self[3].leaves()
    }

    open spec fn levels() -> nat {
        InnerQuadrants::levels() + 1
    }

    const DEPTH: usize = InnerQuadrants::DEPTH + 1;

    fn new_empty(rect_x: u16, rect_y: u16, rect_w: u16, rect_h: u16) -> (tree: Self) {
        let quads = divide_into_4(rect_x, rect_y, rect_w, rect_h);
        proof {
            let root = Rect::of(rect_x, rect_y, rect_w, rect_h);
            let d = InnerQuadrants::levels();
            lemma_empty_leaves_rects::<Self::DataT>(grid(root, Self::levels()));
            lemma_quadrant_representable(root, 0);
            lemma_quadrant_representable(root, 1);
            lemma_quadrant_representable(root, 2);
            lemma_quadrant_representable(root, 3);
            let g0 = grid(root.quadrant(0), d);
            let g1 = grid(root.quadrant(1), d);
            let g2 = grid(root.quadrant(2), d);
            let g3 = grid(root.quadrant(3), d);
            lemma_empty_leaves_concat::<Self::DataT>(g0, g1);
            lemma_empty_leaves_concat::<Self::DataT>(g0 + g1, g2);
            lemma_empty_leaves_concat::<Self::DataT>(g0 + g1 + g2, g3);
        }
        [
            InnerQuadrants::new_empty(quads[0].0, quads[0].1, quads[0].2, quads[0].3),
            InnerQuadrants::new_empty(quads[1].0, quads[1].1, quads[1].2, quads[1].3),
            InnerQuadrants::new_empty(quads[2].0, quads[2].1, quads[2].2, quads[2].3),
            InnerQuadrants::new_empty(quads[3].0, quads[3].1, quads[3].2, quads[3].3),
        ]
    }

    fn clear(&mut self) {
        proof {
            lemma_cleared_keeps_rects(self.leaves());
            let a = self[0].leaves();
            let b = self[1].leaves();
            let c = self[2].leaves();
            let d = self[3].leaves();
            lemma_cleared_concat(a, b);
            lemma_cleared_concat(a + b, c);
            lemma_cleared_concat(a + b + c, d);
        }
        self[0].clear();
        self[1].clear();
        self[2].clear();
        self[3].clear();
    }

    fn can_insert(&self, x: u16, y: u16) -> (fits: bool) {
        proof {
            lemma_target_quads(
                self[0].leaves(),
                self[1].leaves(),
                self[2].leaves(),
                self[3].leaves(),
                x,
                y,
            );
        }
        self[0].can_insert(x, y) || self[1].can_insert(x, y) || self[2].can_insert(x, y)
            || self[3].can_insert(x, y)
    }

    fn insert(&mut self, x: u16, y: u16, data: Self::DataT) -> (ok: bool) {
        proof {
            lemma_inserted_keeps_rects(self.leaves(), x, y, data);
            lemma_inserted_quads(
                self[0].leaves(),
                self[1].leaves(),
                self[2].leaves(),
                self[3].leaves(),
                x,
                y,
                data,
            );
            lemma_target_quads(
                self[0].leaves(),
                self[1].leaves(),
                self[2].leaves(),
                self[3].leaves(),
                x,
                y,
            );
        }
        if self[0].can_insert(x, y) {
            self[0].insert(x, y, data);
            true
        } else if self[1].can_insert(x, y) {
            self[1].insert(x, y, data);
            true
        } else if self[2].can_insert(x, y) {
            self[2].insert(x, y, data);
            true
        } else if self[3].can_insert(x, y) {
            self[3].insert(x, y, data);
            true
        } else {
            false
        }
    }

    fn get_leaf_around(&self, x: u16, y: u16) -> (found: Option<&QuadTreeLeaf<Self::DataT>>) {
        proof {
            let a = self[0].leaves();
            let b = self[1].leaves();
            let c = self[2].leaves();
            let d = self[3].leaves();
            lemma_target_quads(a, b, c, d, x, y);
            if accepts(a, x, y) {
                lemma_target_is_first(a, x, y);
            }
            if accepts(b, x, y) {
                lemma_target_is_first(b, x, y);
            }
            if accepts(c, x, y) {
                lemma_target_is_first(c, x, y);
            }
            if accepts(d, x, y) {
                lemma_target_is_first(d, x, y);
            }
        }
        if self[0].can_insert(x, y) {
            self[0].get_leaf_around(x, y)
        } else if self[1].can_insert(x, y) {
            self[1].get_leaf_around(x, y)
        } else if self[2].can_insert(x, y) {
            self[2].get_leaf_around(x, y)
        } else {
            self[3].get_leaf_around(x, y)
        }
    }

    fn get_mut_leaf_around(&mut self, x: u16, y: u16) -> (found: Option<
        &mut QuadTreeLeaf<Self::DataT>,
    >) {
        let ghost a = self[0].leaves();
        let ghost b = self[1].leaves();
        let ghost c = self[2].leaves();
        let ghost d = self[3].leaves();
        proof {
            lemma_target_quads(a, b, c, d, x, y);
            if accepts(a, x, y) {
                lemma_target_is_first(a, x, y);
            }
            if accepts(b, x, y) {
                lemma_target_is_first(b, x, y);
            }
            if accepts(c, x, y) {
                lemma_target_is_first(c, x, y);
            }
            if accepts(d, x, y) {
                lemma_target_is_first(d, x, y);
            }
        }
        if self[0].can_insert(x, y) {
            let found = self[0].get_mut_leaf_around(x, y);
            assert((a + b + c + d).update(target(a, x, y), final(found.unwrap())@) =~= a.update(
                target(a, x, y),
                final(found.unwrap())@,
            ) + b + c + d);
            found
        } else if self[1].can_insert(x, y) {
            let found = self[1].get_mut_leaf_around(x, y);
            assert((a + b + c + d).update(a.len() + target(b, x, y), final(found.unwrap())@) =~= a
                + b.update(target(b, x, y), final(found.unwrap())@) + c + d);
            found
        } else if self[2].can_insert(x, y) {
            let found = self[2].get_mut_leaf_around(x, y);
            assert((a + b + c + d).update(
                a.len() + b.len() + target(c, x, y),
                final(found.unwrap())@,
            ) =~= a + b + c.update(target(c, x, y), final(found.unwrap())@) + d);
            found
        } else {
            let found = self[3].get_mut_leaf_around(x, y);
            assert(found is Some ==> (a + b + c + d).update(
                a.len() + b.len() + c.len() + target(d, x, y),
                final(found.unwrap())@,
            ) =~= a + b + c + d.update(target(d, x, y), final(found.unwrap())@));
            found
        }
    }
}

/// Four leaves form a tree of one level.
impl<DataT> Quadrants for [QuadTreeLeaf<DataT>; 4] {
    type DataT = DataT;

    open spec fn leaves(&self) -> Seq<LeafView<DataT>> {
        seq![self[0]@] + seq![self[1]@] + seq![self[2]@] + seq![self[3]@]
    }

    open spec fn levels() -> nat {
        1
    }

    const DEPTH: usize = 1;

    fn new_empty(rect_x: u16, rect_y: u16, rect_w: u16, rect_h: u16) -> (tree: Self) {
        let quads = divide_into_4(rect_x, rect_y, rect_w, rect_h);
        let tree = [
            QuadTreeLeaf::new_empty(quads[0].0, quads[0].1, quads[0].2, quads[0].3),
            QuadTreeLeaf::new_empty(quads[1].0, quads[1].1, quads[1].2, quads[1].3),
            QuadTreeLeaf::new_empty(quads[2].0, quads[2].1, quads[2].2, quads[2].3),
            QuadTreeLeaf::new_empty(quads[3].0, quads[3].1, quads[3].2, quads[3].3),
        ];
        proof {
            let root = Rect::of(rect_x, rect_y, rect_w, rect_h);
            lemma_empty_leaves_rects::<DataT>(grid(root, 1));
            reveal_with_fuel(grid, 2);
            assert(tree.leaves() =~= empty_leaves::<DataT>(grid(root, 1)));
        }
        tree
    }

    fn clear(&mut self) {
        proof {
            lemma_cleared_keeps_rects(self.leaves());
            let a = seq![self[0]@];
            let b = seq![self[1]@];
            let c = seq![self[2]@];
            let d = seq![self[3]@];
            lemma_cleared_concat(a, b);
            lemma_cleared_concat(a + b, c);
            lemma_cleared_concat(a + b + c, d);
            lemma_single_leaf(self[0]@, 0, 0);
            lemma_single_leaf(self[1]@, 0, 0);
            lemma_single_leaf(self[2]@, 0, 0);
            lemma_single_leaf(self[3]@, 0, 0);
        }
        self[0].clear();
        self[1].clear();
        self[2].clear();
        self[3].clear();
    }

    fn can_insert(&self, x: u16, y: u16) -> (fits: bool) {
        proof {
            lemma_target_quads(seq![self[0]@], seq![self[1]@], seq![self[2]@], seq![self[3]@], x, y);
            lemma_single_leaf(self[0]@, x, y);
            lemma_single_leaf(self[1]@, x, y);
            lemma_single_leaf(self[2]@, x, y);
            lemma_single_leaf(self[3]@, x, y);
        }
        self[0].can_insert(x, y) || self[1].can_insert(x, y) || self[2].can_insert(x, y)
            || self[3].can_insert(x, y)
    }

    fn insert(&mut self, x: u16, y: u16, data: Self::DataT) -> (ok: bool) {
        proof {
            lemma_inserted_keeps_rects(self.leaves(), x, y, data);
            let a = seq![self[0]@];
            let b = seq![self[1]@];
            let c = seq![self[2]@];
            let d = seq![self[3]@];
            lemma_target_quads(a, b, c, d, x, y);
            lemma_inserted_quads(a, b, c, d, x, y, data);
            lemma_single_leaf(self[0]@, x, y);
            lemma_single_leaf(self[1]@, x, y);
            lemma_single_leaf(self[2]@, x, y);
            lemma_single_leaf(self[3]@, x, y);
        }
        if self[0].can_insert(x, y) {
            self[0].insert(x, y, data);
            true
        } else if self[1].can_insert(x, y) {
            self[1].insert(x, y, data);
            true
        } else if self[2].can_insert(x, y) {
            self[2].insert(x, y, data);
            true
        } else if self[3].can_insert(x, y) {
            self[3].insert(x, y, data);
            true
        } else {
            false
        }
    }

    fn get_leaf_around(&self, x: u16, y: u16) -> (found: Option<&QuadTreeLeaf<DataT>>) {
        proof {
            lemma_target_quads(seq![self[0]@], seq![self[1]@], seq![self[2]@], seq![self[3]@], x, y);
            lemma_single_leaf(self[0]@, x, y);
            lemma_single_leaf(self[1]@, x, y);
            lemma_single_leaf(self[2]@, x, y);
            lemma_single_leaf(self[3]@, x, y);
        }
        if self[0].can_insert(x, y) {
            Some(&self[0])
        } else if self[1].can_insert(x, y) {
            Some(&self[1])
        } else if self[2].can_insert(x, y) {
            Some(&self[2])
        } else if self[3].can_insert(x, y) {
            Some(&self[3])
        } else {
            None
        }
    }

    fn get_mut_leaf_around(&mut self, x: u16, y: u16) -> (found: Option<
        &mut QuadTreeLeaf<Self::DataT>,
    >) {
        let ghost before = self.leaves();
        proof {
            lemma_target_quads(seq![self[0]@], seq![self[1]@], seq![self[2]@], seq![self[3]@], x, y);
            lemma_single_leaf(self[0]@, x, y);
            lemma_single_leaf(self[1]@, x, y);
            lemma_single_leaf(self[2]@, x, y);
            lemma_single_leaf(self[3]@, x, y);
            assert forall|k: int, leaf: LeafView<DataT>| 0 <= k < 4 implies #[trigger] before.update(
                k,
                leaf,
            ) == seq![if k == 0 {
                leaf
            } else {
                before[0]
            }] + seq![if k == 1 {
                leaf
            } else {
                before[1]
            }] + seq![if k == 2 {
                leaf
            } else {
                before[2]
            }] + seq![if k == 3 {
                leaf
            } else {
                before[3]
            }] by {
                assert(before.update(k, leaf) =~= seq![if k == 0 {
                    leaf
                } else {
                    before[0]
                }] + seq![if k == 1 {
                    leaf
                } else {
                    before[1]
                }] + seq![if k == 2 {
                    leaf
                } else {
                    before[2]
                }] + seq![if k == 3 {
                    leaf
                } else {
                    before[3]
                }]);
            }
        }
        if self[0].can_insert(x, y) {
            Some(&mut self[0])
        } else if self[1].can_insert(x, y) {
            Some(&mut self[1])
        } else if self[2].can_insert(x, y) {
            Some(&mut self[2])
        } else if self[3].can_insert(x, y) {
            Some(&mut self[3])
        } else {
            None
        }
    }
}

/// Inserts the index of every value of the collection at the value's
/// position, in the order of the collection.
fn insert_indices<Entity: GetX + GetY>(tree: &mut QuadTree<usize>, model: &Vec<Entity>)
    ensures
        final(tree).leaves() == filled(old(tree).leaves(), index_entries(positions(model@))),
        rects(final(tree).leaves()) == rects(old(tree).leaves()),
{
    let ghost start = tree.leaves();
    let ghost entries = index_entries(positions(model@));
    proof {
        lemma_filled_keeps_rects(start, entries);
        lemma_filled_none(start);
        assert(entries.take(0) =~= Seq::empty());
    }
    for i in 0..model.len()
        invariant
            entries == index_entries(positions(model@)),
            tree.leaves() == filled(start, entries.take(i as int)),
    {
        let entity = &model[i];
        proof {
            lemma_filled_push(start, entries.take(i as int), entries[i as int]);
            assert(entries.take(i + 1) =~= entries.take(i as int).push(entries[i as int]));
        }
        tree.insert(entity.get_x(), entity.get_y(), i);
    }
    assert(entries.take(model.len() as int) =~= entries);
}

/// Rebuilds the index from a collection of positioned values: empties the
/// tree, then inserts the index of every value at the value's position, in
/// the order of the collection. A value that lies outside the tree's
/// rectangle is left out of every bucket.
pub fn rebuild_from_model<Entity: GetX + GetY>(tree: &mut QuadTree<usize>, model: &Vec<Entity>)
    ensures
        final(tree).leaves() == filled(
            cleared(old(tree).leaves()),
            index_entries(positions(model@)),
        ),
        rects(final(tree).leaves()) == rects(old(tree).leaves()),
{
    tree.clear();
    insert_indices(tree, model);
}

/// Builds a fresh index over the rectangle `(0, 0, 1000, 1000)` and inserts
/// the index of every value of the collection at the value's position.
pub fn build_new_from_model<Entity: GetX + GetY>(model: &Vec<Entity>) -> (tree: QuadTree<usize>)
    ensures
        tree.leaves() == filled(
            empty_leaves::<usize>(grid(Rect::of(0, 0, 1000, 1000), 3)),
            index_entries(positions(model@)),
        ),
{
    let mut tree: QuadTree<usize> = QuadTree::new_empty(0, 0, 1000, 1000);
    insert_indices(&mut tree, model);
    tree
}

/// Whether `copies` holds a clone of every value of `model`, in order.
pub open spec fn clones_of<Entity: Clone>(model: Seq<Entity>, copies: Seq<Entity>) -> bool {
    &&& copies.len() == model.len()
    &&& forall|i: int| 0 <= i < copies.len() ==> cloned(model[i], #[trigger] copies[i])
}

/// Inserts a clone of every value of the collection at the clone's position,
/// in the order of the collection.
fn insert_clones<Entity: GetX + GetY + Clone>(tree: &mut QuadTree<Entity>, model: &Vec<Entity>)
    ensures
        exists|copies: Seq<Entity>|
            clones_of(model@, copies) && final(tree).leaves() == filled(
                old(tree).leaves(),
                #[trigger] owned_entries(copies),
            ),
{
    let ghost start = tree.leaves();
    let ghost mut copies: Seq<Entity> = Seq::empty();
    proof {
        lemma_filled_none(start);
        assert(owned_entries(copies) =~= Seq::empty());
    }
    for i in 0..model.len()
        invariant
            copies.len() == i,
            forall|j: int| 0 <= j < copies.len() ==> cloned(model[j], #[trigger] copies[j]),
            tree.leaves() == filled(start, owned_entries(copies)),
    {
        let entity = model[i].clone();
        proof {
            let entry = (entity.x_coord(), entity.y_coord(), entity);
            lemma_filled_push(start, owned_entries(copies), entry);
            assert(owned_entries(copies.push(entity)) =~= owned_entries(copies).push(entry));
            copies = copies.push(entity);
        }
        let x: u16 = entity.get_x();
        let y: u16 = entity.get_y();
        tree.insert(x, y, entity);
    }
    assert(clones_of(model@, copies));
}

/// Builds a fresh index over the rectangle `(0, 0, 1000, 1000)` that owns a
/// clone of every value of the collection, inserted at the clone's position.
pub fn build_owned_from_model<Entity: GetX + GetY + Clone>(model: &Vec<Entity>) -> (tree: QuadTree<
    Entity,
>)
    ensures
        exists|copies: Seq<Entity>|
            clones_of(model@, copies) && tree.leaves() == filled(
                empty_leaves::<Entity>(grid(Rect::of(0, 0, 1000, 1000), 3)),
                #[trigger] owned_entries(copies),
            ),
{
    let mut tree: QuadTree<Entity> = QuadTree::new_empty(0, 0, 1000, 1000);
    insert_clones(&mut tree, model);
    tree
}

/// A cursor over the 64 leaves of a tree in scan order, for writing.
///
/// `index` names the next leaf as `ptr[index.0][index.1][index.2]`; once all
/// leaves were handed out it is `(4, 0, 0)`.
pub struct LeafIterator<'a, DataT> {
    pub ptr: &'a mut QuadTree<DataT>,
    pub index: (usize, usize, usize),
}

/// Where leaf `k` of four leaves lies among the leaves in scan order, and
/// what replacing it does to them.
proof fn lemma_leaf_row<DataT>(
    before: [QuadTreeLeaf<DataT>; 4],
    after: [QuadTreeLeaf<DataT>; 4],
    k: int,
)
    requires
        0 <= k < 4,
        after@ == before@.update(k, after[k]),
    ensures
        before.leaves().len() == 4,
        before.leaves()[k] == before[k]@,
        after.leaves() == before.leaves().update(k, after[k]@),
{
    assert forall|q: int| 0 <= q < 4 && q != k implies after[q] == before[q] by {
        assert(after@[q] == before@.update(k, after[k])[q]);
    }
    assert(after.leaves() =~= before.leaves().update(k, after[k]@));
}

/// Four quadrants of `n` leaves each hold `4 * n` leaves.
proof fn lemma_quadrant_len<Inner: Quadrants>(tree: [Inner; 4], n: int)
    requires
        forall|q: int| 0 <= q < 4 ==> (#[trigger] tree[q]).leaves().len() == n,
    ensures
        tree.leaves().len() == 4 * n,
{
    assert(tree[0].leaves().len() == n);
    assert(tree[1].leaves().len() == n);
    assert(tree[2].leaves().len() == n);
    assert(tree[3].leaves().len() == n);
}

/// Where a leaf of one of four quadrants lies among the leaves in scan order,
/// and what replacing it does to them, for quadrants of `n` leaves each:
/// leaf `m` of quadrant `i` is leaf `i * n + m` of the whole.
proof fn lemma_quadrant_row<Inner: Quadrants>(
    before: [Inner; 4],
    after: [Inner; 4],
    n: int,
    i: int,
    m: int,
    place: int,
    leaf: LeafView<Inner::DataT>,
)
    requires
        0 <= i < 4,
        0 <= m < n,
        place == m + if i == 0 {
            0
        } else if i == 1 {
            n
        } else if i == 2 {
            2 * n
        } else {
            3 * n
        },
        forall|q: int| 0 <= q < 4 ==> (#[trigger] before[q]).leaves().len() == n,
        after@ == before@.update(i, after[i]),
        after[i].leaves() == before[i].leaves().update(m, leaf),
    ensures
        before.leaves()[place] == before[i].leaves()[m],
        after.leaves() == before.leaves().update(place, leaf),
{
    assert forall|q: int| 0 <= q < 4 && q != i implies after[q] == before[q] by {
        assert(after@[q] == before@.update(i, after[i])[q]);
    }
    assert(before[0].leaves().len() == n);
    assert(before[1].leaves().len() == n);
    assert(before[2].leaves().len() == n);
    assert(before[3].leaves().len() == n);
    assert(after.leaves() =~= before.leaves().update(place, leaf));
}

/// Whether `after` is `before` with the leaf `[i][j][k]` replaced.
pub open spec fn replaces_leaf<DataT>(
    before: QuadTree<DataT>,
    after: QuadTree<DataT>,
    i: int,
    j: int,
    k: int,
) -> bool {
    &&& after@ == before@.update(i, after[i])
    &&& after[i]@ == before[i]@.update(j, after[i][j])
    &&& after[i][j]@ == before[i][j]@.update(k, after[i][j][k])
}

/// The leaf `[i][j][k]` of a tree is leaf `16 * i + 4 * j + k` in scan
/// order, and replacing it replaces that leaf of the view.
proof fn lemma_leaf_place<DataT>(
    before: QuadTree<DataT>,
    after: QuadTree<DataT>,
    i: int,
    j: int,
    k: int,
)
    requires
        0 <= i < 4,
        0 <= j < 4,
        0 <= k < 4,
        replaces_leaf(before, after, i, j, k),
    ensures
        before.leaves().len() == 64,
        before.leaves()[16 * i + 4 * j + k] == before[i][j][k]@,
        after.leaves() == before.leaves().update(16 * i + 4 * j + k, after[i][j][k]@),
{
    let leaf = after[i][j][k]@;
    lemma_leaf_row(before[i][j], after[i][j], k);
    assert forall|q: int| 0 <= q < 4 implies (#[trigger] before[i][q]).leaves().len() == 4 by {}
    lemma_quadrant_row(before[i], after[i], 4, j, k, 4 * j + k, leaf);
    assert forall|q: int| 0 <= q < 4 implies (#[trigger] before[q]).leaves().len() == 16 by {
        assert forall|p: int| 0 <= p < 4 implies (#[trigger] before[q][p]).leaves().len()
            == 4 by {}
        lemma_quadrant_len(before[q], 4);
    }
    lemma_quadrant_len(before, 16);
    lemma_quadrant_row(before, after, 16, i, 4 * j + k, 16 * i + 4 * j + k, leaf);
}

impl<'a, DataT> LeafIterator<'a, DataT> {
    /// Whether the cursor names a leaf or stands behind the last one.
    pub open spec fn wf(&self) -> bool {
        &&& self.index.0 <= 4
        &&& self.index.1 < 4
        &&& self.index.2 < 4
        &&& self.index.0 == 4 ==> self.index.1 == 0 && self.index.2 == 0
    }

    /// The number of leaves handed out so far, which is the place of the
    /// next leaf in scan order.
    pub open spec fn position(&self) -> int {
        16 * self.index.0 + 4 * self.index.1 + self.index.2
    }

    /// Hands out the next leaf in scan order, or `None` behind the last one.
    /// What the caller leaves behind the reference takes the place of that
    /// leaf in the tree; all other leaves stay as they were.
    #[verifier::rlimit(40)]
    pub fn next(&mut self) -> (leaf: Option<&mut QuadTreeLeaf<DataT>>)
        requires
            old(self).wf(),
        ensures
            final(self).wf(),
            *final(final(self).ptr) == *final(old(self).ptr),
            leaf is Some <==> old(self).position() < 64,
            leaf matches Some(leaf) ==> {
                &&& final(self).position() == old(self).position() + 1
                &&& leaf@ == old(self).ptr.leaves()[old(self).position()]
                &&& final(self).ptr.leaves() == old(self).ptr.leaves().update(
                    old(self).position(),
                    final(leaf)@,
                )
            },
            leaf is None ==> *final(self) == *old(self),
    {
        let (i, j, k) = self.index;
        if i < 4 {
            if k == 3 {
                if j == 3 {
                    self.index = (i + 1, 0, 0);
                } else {
                    self.index = (i, j + 1, 0);
                }
            } else {
                self.index = (i, j, k + 1);
            }
            let ghost before = *self.ptr;
            proof {
                assert forall|after: QuadTree<DataT>|
                    replaces_leaf(before, after, i as int, j as int, k as int) implies (
                    #[trigger] after.leaves()) == before.leaves().update(
                    16 * i + 4 * j + k,
                    after[i as int][j as int][k as int]@,
                ) by {
                    lemma_leaf_place(before, after, i as int, j as int, k as int);
                }
                assert(before@ =~= before@.update(i as int, before[i as int]));
                assert(before[i as int]@ =~= before[i as int]@.update(
                    j as int,
                    before[i as int][j as int],
                ));
                assert(before[i as int][j as int]@ =~= before[i as int][j as int]@.update(
                    k as int,
                    before[i as int][j as int][k as int],
                ));
                lemma_leaf_place(before, before, i as int, j as int, k as int);
            }
            Some(&mut self.ptr[i][j][k])
        } else {
            None
        }
    }
}

/// A cursor at the first leaf of the tree. The tree is what the cursor's
/// callers leave of it.
pub fn into_iter<DataT>(quad_tree: &mut QuadTree<DataT>) -> (cursor: LeafIterator<'_, DataT>)
    ensures
        cursor.index == (0usize, 0usize, 0usize),
        *cursor.ptr == *old(quad_tree),
        *final(cursor.ptr) == *final(quad_tree),
{
    LeafIterator { ptr: quad_tree, index: (0, 0, 0) }
}

} // verus!
