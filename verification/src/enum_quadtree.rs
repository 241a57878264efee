//! The quadtree whose depth is chosen when it is built.

use crate::fill::{
    filled, index_entries, lemma_filled_keeps_rects, lemma_filled_none, lemma_filled_push,
};
use crate::geometry::{divide_into_4, grid, lemma_quadrant_representable, Rect};
use crate::leaves::{
    accepts, bucket_at, cleared, empty_leaves, inserted, is_target, lemma_cleared_concat,
    lemma_cleared_keeps_rects, lemma_empty_leaves_concat, lemma_empty_leaves_rects,
    lemma_inserted_keeps_rects, lemma_inserted_quads, lemma_spliced_one, lemma_spliced_quads,
    lemma_target_is_first, lemma_target_quads, lemma_target_unique, lemma_with_data_keeps_rects,
    rects, spliced, target, LeafView,
};
use crate::{positions, GetX, GetY};
use vstd::pervasive::unreached;
use vstd::prelude::*;

verus! {

/// A quadtree of a depth chosen at construction: a node is a leaf with a
/// bucket of entries, or four child nodes that cover the four quadrants of
/// its rectangle, in the order of [`Rect::quadrant`].
pub enum QuadTree<DataT> {
    Leaf {
        data: Vec<DataT>,
        positions: Vec<(u16, u16)>,
        rect_x: u16,
        rect_y: u16,
        rect_w: u16,
        rect_h: u16,
    },
    Quads(Box<QuadTree<DataT>>, Box<QuadTree<DataT>>, Box<QuadTree<DataT>>, Box<QuadTree<DataT>>),
}

impl<DataT> View for QuadTree<DataT> {
    type V = Seq<LeafView<DataT>>;

    /// The leaves of the tree in scan order.
    open spec fn view(&self) -> Seq<LeafView<DataT>> {
        self.leaves()
    }
}

impl<DataT> QuadTree<DataT> {
    /// The leaves of the tree in scan order: those under child 0 first, then
    /// those under child 1, 2 and 3.
    pub open spec fn leaves(&self) -> Seq<LeafView<DataT>>
        decreases self,
    {
        match self {
            QuadTree::Leaf { data, positions, rect_x, rect_y, rect_w, rect_h } => seq![
                LeafView {
                    rect: Rect::of(*rect_x, *rect_y, *rect_w, *rect_h),
                    positions: positions@,
                    data: data@,
                },
            ],
            QuadTree::Quads(a, b, c, d) => a.leaves() + b.leaves() + c.leaves() + d.leaves(),
        }
    }

    /// The number of levels of quadrants above the leaves, counted along the
    /// first children.
    pub open spec fn depth(&self) -> nat
        decreases self,
    {
        match self {
            QuadTree::Leaf { .. } => 0,
            QuadTree::Quads(a, _, _, _) => 1 + a.depth(),
        }
    }

    /// Whether every leaf of the tree lies at the same depth.
    pub open spec fn uniform(&self) -> bool
        decreases self,
    {
        match self {
            QuadTree::Leaf { .. } => true,
            QuadTree::Quads(a, b, c, d) => {
                &&& a.uniform()
                &&& b.uniform()
                &&& c.uniform()
                &&& d.uniform()
                &&& b.depth() == a.depth()
                &&& c.depth() == a.depth()
                &&& d.depth() == a.depth()
            },
        }
    }

    /// Builds an empty tree over the given rectangle, subdivided `depth` times.
    pub fn new(rect_x: u16, rect_y: u16, rect_w: u16, rect_h: u16, depth: u16) -> (tree: Self)
        requires
            Rect::of(rect_x, rect_y, rect_w, rect_h).representable(),
        ensures
            tree@ == empty_leaves::<DataT>(
                grid(Rect::of(rect_x, rect_y, rect_w, rect_h), depth as nat),
            ),
            rects(tree@) == grid(Rect::of(rect_x, rect_y, rect_w, rect_h), depth as nat),
            tree.uniform(),
            tree.depth() == depth,
        decreases depth,
    {
        proof {
            lemma_empty_leaves_rects::<DataT>(
                grid(Rect::of(rect_x, rect_y, rect_w, rect_h), depth as nat),
            );
        }
        if depth == 0 {
            let tree = QuadTree::Leaf {
                data: Vec::new(),
                positions: Vec::new(),
                rect_x,
                rect_y,
                rect_w,
                rect_h,
            };
            assert(tree@ =~= empty_leaves::<DataT>(
                grid(Rect::of(rect_x, rect_y, rect_w, rect_h), 0),
            ));
            tree
        } else {
            let rect = divide_into_4(rect_x, rect_y, rect_w, rect_h);
            proof {
                let root = Rect::of(rect_x, rect_y, rect_w, rect_h);
                let d = (depth - 1) as nat;
                lemma_quadrant_representable(root, 0);
                lemma_quadrant_representable(root, 1);
                lemma_quadrant_representable(root, 2);
                lemma_quadrant_representable(root, 3);
                let g0 = grid(root.quadrant(0), d);
                let g1 = grid(root.quadrant(1), d);
                let g2 = grid(root.quadrant(2), d);
                let g3 = grid(root.quadrant(3), d);
                lemma_empty_leaves_concat::<DataT>(g0, g1);
                lemma_empty_leaves_concat::<DataT>(g0 + g1, g2);
                lemma_empty_leaves_concat::<DataT>(g0 + g1 + g2, g3);
            }
            QuadTree::Quads(
                Box::new(QuadTree::new(rect[0].0, rect[0].1, rect[0].2, rect[0].3, depth - 1)),
                Box::new(QuadTree::new(rect[1].0, rect[1].1, rect[1].2, rect[1].3, depth - 1)),
                Box::new(QuadTree::new(rect[2].0, rect[2].1, rect[2].2, rect[2].3, depth - 1)),
                Box::new(QuadTree::new(rect[3].0, rect[3].1, rect[3].2, rect[3].3, depth - 1)),
            )
        }
    }

    /// Empties the bucket of every leaf. The shape of the tree stays.
    pub fn clear(&mut self)
        ensures
            final(self)@ == cleared(old(self)@),
            rects(final(self)@) == rects(old(self)@),
            final(self).depth() == old(self).depth(),
            final(self).uniform() == old(self).uniform(),
        decreases *old(self),
    {
        proof {
            lemma_cleared_keeps_rects(old(self)@);
        }
        match self {
            QuadTree::Leaf { data, positions, .. } => {
                data.clear();
                positions.clear();
            },
            QuadTree::Quads(a, b, c, d) => {
                proof {
                    lemma_cleared_concat(a.leaves(), b.leaves());
                    lemma_cleared_concat(a.leaves() + b.leaves(), c.leaves());
                    lemma_cleared_concat(a.leaves() + b.leaves() + c.leaves(), d.leaves());
                }
                a.clear();
                b.clear();
                c.clear();
                d.clear();
            },
        }
        assert(final(self)@ =~= cleared(old(self)@));
    }

    /// Whether the point lies in the rectangle of some leaf, so that an
    /// insertion at it would succeed.
    pub fn can_insert(&self, x: u16, y: u16) -> (fits: bool)
        ensures
            fits == accepts(self@, x, y),
        decreases self,
    {
        match self {
            QuadTree::Leaf { rect_x, rect_y, rect_w, rect_h, .. } => {
                let fits = x >= *rect_x && x - *rect_x < *rect_w && y >= *rect_y && y - *rect_y
                    < *rect_h;
                assert(fits == self@[0].rect.contains(x as int, y as int));
                fits
            },
            QuadTree::Quads(a, b, c, d) => {
                proof {
                    lemma_target_quads(a.leaves(), b.leaves(), c.leaves(), d.leaves(), x, y);
                }
                a.can_insert(x, y) || b.can_insert(x, y) || c.can_insert(x, y) || d.can_insert(
                    x,
                    y,
                )
            },
        }
    }

    /// Adds the entry `data` at `(x, y)` to the first leaf, in scan order,
    /// whose rectangle holds the point, and reports whether there was one.
    /// A refused insertion changes nothing.
    pub fn insert(&mut self, x: u16, y: u16, data: DataT) -> (ok: bool)
        ensures
            ok == accepts(old(self)@, x, y),
            final(self)@ == inserted(old(self)@, x, y, data),
            !ok ==> *final(self) == *old(self),
            rects(final(self)@) == rects(old(self)@),
            final(self).depth() == old(self).depth(),
            final(self).uniform() == old(self).uniform(),
        decreases *old(self),
    {
        proof {
            lemma_inserted_keeps_rects(old(self)@, x, y, data);
        }
        match self {
            QuadTree::Leaf {
                rect_x,
                rect_y,
                rect_w,
                rect_h,
                data: leaf_data,
                positions: leaf_positions,
            } => {
                let ghost before = old(self)@;
                if x >= *rect_x && x - *rect_x < *rect_w && y >= *rect_y && y - *rect_y < *rect_h {
                    proof {
                        assert(before[0].rect.contains(x as int, y as int));
                        assert(is_target(before, 0, x, y));
                        lemma_target_unique(before, 0, x, y);
                    }
                    leaf_data.push(data);
                    leaf_positions.push((x, y));
                    assert(final(self)@ =~= inserted(before, x, y, data));
                    true
                } else {
                    assert(!before[0].rect.contains(x as int, y as int));
                    false
                }
            },
            QuadTree::Quads(a, b, c, d) => {
                proof {
                    lemma_target_quads(a.leaves(), b.leaves(), c.leaves(), d.leaves(), x, y);
                    lemma_inserted_quads(
                        a.leaves(),
                        b.leaves(),
                        c.leaves(),
                        d.leaves(),
                        x,
                        y,
                        data,
                    );
                }
                if a.can_insert(x, y) {
                    a.insert(x, y, data);
                    true
                } else if b.can_insert(x, y) {
                    b.insert(x, y, data);
                    true
                } else if c.can_insert(x, y) {
                    c.insert(x, y, data);
                    true
                } else if d.can_insert(x, y) {
                    d.insert(x, y, data);
                    true
                } else {
                    false
                }
            },
        }
    }
    /// The leaf that holds the point: the first leaf, in scan order, whose
    /// rectangle contains `(x, y)`, or `None` where no leaf does.
    pub fn get_leaf_around(&self, x: u16, y: u16) -> (found: Option<&QuadTree<DataT>>)
        ensures
            found is Some <==> accepts(self@, x, y),
            found matches Some(leaf) ==> *leaf is Leaf && leaf@ == seq![
                self@[target(self@, x, y)],
            ],
        decreases self,
    {
        match self {
            QuadTree::Leaf { rect_x, rect_y, rect_w, rect_h, .. } => {
                if x >= *rect_x && x - *rect_x < *rect_w && y >= *rect_y && y - *rect_y < *rect_h {
                    proof {
                        assert(self@[0].rect.contains(x as int, y as int));
                        assert(is_target(self@, 0, x, y));
                        lemma_target_unique(self@, 0, x, y);
                        assert(self@ =~= seq![self@[0]]);
                    }
                    Some(self)
                } else {
                    assert(!self@[0].rect.contains(x as int, y as int));
                    None
                }
            },
            QuadTree::Quads(a, b, c, d) => {
                proof {
                    lemma_target_quads(a.leaves(), b.leaves(), c.leaves(), d.leaves(), x, y);
                    if accepts(a@, x, y) {
                        lemma_target_is_first(a@, x, y);
                    }
                    if accepts(b@, x, y) {
                        lemma_target_is_first(b@, x, y);
                    }
                    if accepts(c@, x, y) {
                        lemma_target_is_first(c@, x, y);
                    }
                    if accepts(d@, x, y) {
                        lemma_target_is_first(d@, x, y);
                    }
                }
                if let Some(leaf) = a.get_leaf_around(x, y) {
                    return Some(leaf);
                }
                if let Some(leaf) = b.get_leaf_around(x, y) {
                    return Some(leaf);
                }
                if let Some(leaf) = c.get_leaf_around(x, y) {
                    return Some(leaf);
                }
                d.get_leaf_around(x, y)
            },
        }
    }

    /// The leaf that holds the point, for writing. What the caller leaves
    /// behind the reference takes the place of that leaf in the tree; all
    /// other leaves stay as they were.
    pub fn get_mut_leaf_around(&mut self, x: u16, y: u16) -> (found: Option<&mut QuadTree<DataT>>)
        ensures
            found is Some <==> accepts(old(self)@, x, y),
            found matches Some(leaf) ==> {
                let t = target(old(self)@, x, y);
                &&& *leaf is Leaf
                &&& leaf@ == seq![old(self)@[t]]
                &&& final(self)@ == spliced(old(self)@, t, final(leaf)@)
                &&& *final(leaf) is Leaf ==> final(self).depth() == old(self).depth()
                    && final(self).uniform() == old(self).uniform()
            },
            found is None ==> *final(self) == *old(self),
        decreases *old(self),
    {
        match self {
            QuadTree::Leaf { rect_x, rect_y, rect_w, rect_h, .. } => {
                if x >= *rect_x && x - *rect_x < *rect_w && y >= *rect_y && y - *rect_y < *rect_h {
                    proof {
                        let before = old(self)@;
                        assert(before[0].rect.contains(x as int, y as int));
                        assert(is_target(before, 0, x, y));
                        lemma_target_unique(before, 0, x, y);
                        assert(before =~= seq![before[0]]);
                        assert forall|middle: Seq<LeafView<DataT>>|
                            #[trigger] spliced(before, 0, middle) == middle by {
                            assert(spliced(before, 0, middle) =~= middle);
                        }
                    }
                    Some(self)
                } else {
                    assert(!old(self)@[0].rect.contains(x as int, y as int));
                    None
                }
            },
            QuadTree::Quads(a, b, c, d) => {
                proof {
                    lemma_target_quads(a.leaves(), b.leaves(), c.leaves(), d.leaves(), x, y);
                    if accepts(a@, x, y) {
                        lemma_target_is_first(a@, x, y);
                    }
                    if accepts(b@, x, y) {
                        lemma_target_is_first(b@, x, y);
                    }
                    if accepts(c@, x, y) {
                        lemma_target_is_first(c@, x, y);
                    }
                    if accepts(d@, x, y) {
                        lemma_target_is_first(d@, x, y);
                    }
                }
                let ghost la = a.leaves();
                let ghost lb = b.leaves();
                let ghost lc = c.leaves();
                let ghost ld = d.leaves();
                if a.can_insert(x, y) {
                    let found = a.get_mut_leaf_around(x, y);
                    proof {
                        lemma_spliced_quads(la, lb, lc, ld, target(la, x, y), final(found.unwrap())@);
                    }
                    found
                } else if b.can_insert(x, y) {
                    let found = b.get_mut_leaf_around(x, y);
                    proof {
                        lemma_spliced_quads(la, lb, lc, ld, target(lb, x, y), final(found.unwrap())@);
                    }
                    found
                } else if c.can_insert(x, y) {
                    let found = c.get_mut_leaf_around(x, y);
                    proof {
                        lemma_spliced_quads(la, lb, lc, ld, target(lc, x, y), final(found.unwrap())@);
                    }
                    found
                } else {
                    let found = d.get_mut_leaf_around(x, y);
                    proof {
                        if found is Some {
                            lemma_spliced_quads(
                                la,
                                lb,
                                lc,
                                ld,
                                target(ld, x, y),
                                final(found.unwrap())@,
                            );
                        }
                    }
                    found
                }
            },
        }
    }

    /// The bucket around the point: the payloads of the leaf that holds
    /// `(x, y)`, in the order in which they were inserted.
    pub fn broad_phase(&self, x: u16, y: u16) -> (bucket: &Vec<DataT>)
        requires
            accepts(self@, x, y),
        ensures
            bucket@ == bucket_at(self@, x, y),
    {
        let leaf = self.get_leaf_around(x, y).unwrap();
        assert(leaf@[0] == self@[target(self@, x, y)]);
        match leaf {
            QuadTree::Leaf { data, .. } => data,
            _ => unreached(),
        }
    }

    /// The bucket around the point, for writing. What the caller leaves
    /// behind the reference becomes the payloads of that leaf; nothing else
    /// in the tree changes.
    pub fn broad_phase_mut(&mut self, x: u16, y: u16) -> (bucket: &mut Vec<DataT>)
        requires
            accepts(old(self)@, x, y),
        ensures
            bucket@ == bucket_at(old(self)@, x, y),
            final(self)@ == old(self)@.update(
                target(old(self)@, x, y),
                old(self)@[target(old(self)@, x, y)].with_data(final(bucket)@),
            ),
            rects(final(self)@) == rects(old(self)@),
            final(self).depth() == old(self).depth(),
            final(self).uniform() == old(self).uniform(),
    {
        proof {
            lemma_target_is_first(old(self)@, x, y);
            let t = target(old(self)@, x, y);
            lemma_with_data_keeps_rects(old(self)@, t);
            assert forall|leaf: LeafView<DataT>| #[trigger]
                spliced(old(self)@, t, seq![leaf]) == old(self)@.update(t, leaf) by {
                lemma_spliced_one(old(self)@, t, leaf);
            }
        }
        let leaf = self.get_mut_leaf_around(x, y).unwrap();
        assert(leaf@[0] == old(self)@[target(old(self)@, x, y)]);
        match leaf {
            QuadTree::Leaf { data, .. } => data,
            _ => unreached(),
        }
    }
}

/// Rebuilds the index from a collection of positioned values: empties the
/// tree, then inserts the index of every value at the value's position, in
/// the order of the collection. A value that lies outside the tree's
/// rectangle is left out of every bucket.
pub fn rebuild_tree<Entity: GetX + GetY>(tree: &mut QuadTree<usize>, model: &Vec<Entity>)
    ensures
        final(tree)@ == filled(cleared(old(tree)@), index_entries(positions(model@))),
        rects(final(tree)@) == rects(old(tree)@),
        final(tree).depth() == old(tree).depth(),
        final(tree).uniform() == old(tree).uniform(),
{
    tree.clear();
    let ghost start = tree@;
    let ghost entries = index_entries(positions(model@));
    proof {
        lemma_filled_keeps_rects(start, entries);
        lemma_filled_none(start);
        assert(entries.take(0) =~= Seq::empty());
    }
    for i in 0..model.len()
        invariant
            start == cleared(old(tree)@),
            entries == index_entries(positions(model@)),
            tree@ == filled(start, entries.take(i as int)),
            tree.depth() == old(tree).depth(),
            tree.uniform() == old(tree).uniform(),
    {
        let entity = &model[i];
        proof {
            lemma_filled_push(start, entries.take(i as int), entries[i as int]);
            assert(entries.take(i + 1) =~= entries.take(i as int).push(entries[i as int]));
        }
        tree.insert(entity.get_x(), entity.get_y(), i);
    }
    assert(entries.take(model.len() as int) =~= entries);
}

} // verus!
