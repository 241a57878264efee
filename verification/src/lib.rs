//! A spatial index for the broad phase of collision tests.
//!
//! A quadtree of fixed depth splits a rectangle of the plane into a grid of
//! leaves, and every leaf holds a bucket of entries. Once per tick the index
//! is emptied and every entity of the model is inserted again at its
//! position; the bucket around an entity then names the candidates for the
//! exact overlap test.
//!
//! Two trees offer the same operations: [`enum_quadtree::QuadTree`], whose
//! depth is chosen when it is built, and
//! [`fixed_depth_quad_tree::QuadTree`], whose depth of three is part of its
//! type. Contracts describe both through the sequence of their leaves in
//! scan order ([`leaves::LeafView`]).
//!
//! Rectangles are half-open: a rectangle holds its left and top edge and
//! not its right and bottom edge, so that the leaves tile the root and every
//! point of the root lies in exactly one leaf.
//!
//! The index holds no entity. A rebuild stores the index of every entity in
//! the model, and the bucket around an entity names the entity itself exactly
//! once; the update of an entity leaves its own index out of the test.

use crate::entity::{
    flagged, hit_among, init_model, lemma_hit_among_by_geometry, same_geometry, update_entity_local,
    Entity, ModelConfig,
};
use crate::enum_quadtree::rebuild_tree;
use crate::fill::{filled, index_entries, lemma_filled_keeps_rects, lemma_rebuild_payloads_in_range};
use crate::fixed_depth_quad_tree::{rebuild_from_model, Quadrants};
use crate::geometry::{grid, Rect};
use crate::leaves::{
    accepts, bucket_at, cleared, empty_leaves, lemma_cleared_is_empty_leaves,
    lemma_cleared_keeps_rects, lemma_empty_leaves_rects, lemma_target_by_rects,
    lemma_target_is_first, lemma_tiled_accepts, rects, target, LeafView,
};
use vstd::prelude::*;

pub mod entity;
pub mod enum_quadtree;
pub mod fill;
pub mod fixed_depth_quad_tree;
pub mod geometry;
pub mod leaves;

verus! {

/// Read access to the horizontal coordinate of a positioned value.
pub trait GetX {
    /// The horizontal coordinate, as contracts speak of it.
    spec fn x_coord(&self) -> u16;

    fn get_x(&self) -> (x: u16)
        ensures
            x == self.x_coord(),
    ;
}

/// Read access to the vertical coordinate of a positioned value.
pub trait GetY {
    /// The vertical coordinate, as contracts speak of it.
    spec fn y_coord(&self) -> u16;

    fn get_y(&self) -> (y: u16)
        ensures
            y == self.y_coord(),
    ;
}

/// The points at which the values of a collection lie, in its order.
pub open spec fn positions<Entity: GetX + GetY>(model: Seq<Entity>) -> Seq<(u16, u16)> {
    Seq::new(model.len(), |i: int| (model[i].x_coord(), model[i].y_coord()))
}

/// The entries that hand a collection of positioned values over as they are:
/// entry `i` lies at the point of value `i` and carries that value.
pub open spec fn owned_entries<Entity: GetX + GetY>(items: Seq<Entity>) -> Seq<
    (u16, u16, Entity),
> {
    Seq::new(items.len(), |i: int| (items[i].x_coord(), items[i].y_coord(), items[i]))
}

/// What a tick leaves in the model: every entity keeps its place and extent,
/// and its collision flag is raised where another entity of its own bucket
/// overlaps it. `leaves` is the index as the tick rebuilt it.
pub open spec fn after_tick(
    before: Seq<Entity>,
    leaves: Seq<LeafView<usize>>,
    after: Seq<Entity>,
) -> bool {
    &&& after.len() == before.len()
    &&& forall|i: int|
        0 <= i < before.len() ==> #[trigger] after[i] == flagged(
            before[i],
            hit_among(before, i, bucket_at(leaves, before[i].x, before[i].y)),
        )
}

/// Whether a tick that began with the model `before` and the index
/// `leaves` has reached entity `done`: the entities before it carry their
/// new flags, the others are as they were.
spec fn tick_reached(
    before: Seq<Entity>,
    leaves: Seq<LeafView<usize>>,
    current: Seq<Entity>,
    done: int,
) -> bool {
    &&& current.len() == before.len()
    &&& forall|j: int| done <= j < before.len() ==> #[trigger] current[j] == before[j]
    &&& forall|j: int|
        0 <= j < done ==> #[trigger] current[j] == flagged(
            before[j],
            hit_among(before, j, bucket_at(leaves, before[j].x, before[j].y)),
        )
}

/// The bucket around an entity of the model exists after a rebuild and
/// names entities of the model only.
proof fn lemma_tick_bucket(old_leaves: Seq<LeafView<usize>>, model: Seq<Entity>, i: int)
    requires
        model.len() <= usize::MAX,
        0 <= i < model.len(),
        accepts(old_leaves, model[i].x, model[i].y),
    ensures
        ({
            let leaves = filled(cleared(old_leaves), index_entries(positions(model)));
            &&& accepts(leaves, model[i].x, model[i].y)
            &&& forall|j: int|
                0 <= j < bucket_at(leaves, model[i].x, model[i].y).len() ==> (
                #[trigger] bucket_at(leaves, model[i].x, model[i].y)[j]) < model.len()
        }),
{
    let points = positions(model);
    let leaves = filled(cleared(old_leaves), index_entries(points));
    lemma_cleared_keeps_rects(old_leaves);
    lemma_filled_keeps_rects(cleared(old_leaves), index_entries(points));
    lemma_target_by_rects(old_leaves, leaves, model[i].x, model[i].y);
    lemma_target_is_first(leaves, model[i].x, model[i].y);
    lemma_rebuild_payloads_in_range(old_leaves, points, target(leaves, model[i].x, model[i].y));
}

/// One step of a tick: testing entity `i` of the model as the tick has left
/// it so far gives the flag that the model at the start of the tick asks
/// for, because the steps before it moved no entity.
proof fn lemma_tick_step(
    old_leaves: Seq<LeafView<usize>>,
    before: Seq<Entity>,
    current: Seq<Entity>,
    i: int,
)
    requires
        before.len() <= usize::MAX,
        0 <= i < before.len(),
        accepts(old_leaves, before[i].x, before[i].y),
        tick_reached(
            before,
            filled(cleared(old_leaves), index_entries(positions(before))),
            current,
            i,
        ),
    ensures
        ({
            let leaves = filled(cleared(old_leaves), index_entries(positions(before)));
            let local = bucket_at(leaves, before[i].x, before[i].y);
            &&& accepts(leaves, before[i].x, before[i].y)
            &&& forall|j: int| 0 <= j < local.len() ==> #[trigger] local[j] < current.len()
            &&& tick_reached(
                before,
                leaves,
                current.update(i, flagged(current[i], hit_among(current, i, local))),
                i + 1,
            )
        }),
{
    let leaves = filled(cleared(old_leaves), index_entries(positions(before)));
    let local = bucket_at(leaves, before[i].x, before[i].y);
    lemma_tick_bucket(old_leaves, before, i);
    assert forall|j: int| 0 <= j < current.len() implies same_geometry(
        #[trigger] current[j],
        before[j],
    ) by {
        if j < i {
            assert(current[j] == flagged(
                before[j],
                hit_among(before, j, bucket_at(leaves, before[j].x, before[j].y)),
            ));
        } else {
            assert(current[j] == before[j]);
        }
    }
    lemma_hit_among_by_geometry(current, before, i, local);
    assert(current[i] == before[i]);
}

/// One tick of the simulation on the tree of fixed depth: rebuilds the index
/// from the model, then tests every entity against the entities of the
/// bucket around it. Every entity must lie inside the tree's rectangle, for
/// the bucket around it to exist.
pub fn example_tick(
    tree: &mut crate::fixed_depth_quad_tree::QuadTree<usize>,
    model: &mut Vec<Entity>,
)
    requires
        forall|i: int|
            0 <= i < old(model).len() ==> accepts(
                old(tree).leaves(),
                (#[trigger] old(model)[i]).x,
                old(model)[i].y,
            ),
    ensures
        final(tree).leaves() == filled(
            cleared(old(tree).leaves()),
            index_entries(positions(old(model)@)),
        ),
        rects(final(tree).leaves()) == rects(old(tree).leaves()),
        after_tick(old(model)@, final(tree).leaves(), final(model)@),
{
    rebuild_from_model(tree, model);
    let ghost leaves = tree.leaves();
    let count: usize = model.len();
    for i in 0..count
        invariant
            count == model.len(),
            tree.leaves() == leaves,
            leaves == filled(cleared(old(tree).leaves()), index_entries(positions(old(model)@))),
            forall|j: int|
                0 <= j < old(model).len() ==> accepts(
                    old(tree).leaves(),
                    (#[trigger] old(model)[j]).x,
                    old(model)[j].y,
                ),
            tick_reached(old(model)@, leaves, model@, i as int),
    {
        let x: u16 = model[i].x;
        let y: u16 = model[i].y;
        proof {
            lemma_tick_step(old(tree).leaves(), old(model)@, model@, i as int);
        }
        let local_model = tree.broad_phase(x, y);
        update_entity_local(model, i, local_model);
    }
}

/// One tick of the simulation on the tree of chosen depth: rebuilds the
/// index from the model, then tests every entity against the entities of
/// the bucket around it. Every entity must lie inside the tree's rectangle,
/// for the bucket around it to exist.
pub fn example_tick_2(tree: &mut crate::enum_quadtree::QuadTree<usize>, model: &mut Vec<Entity>)
    requires
        forall|i: int|
            0 <= i < old(model).len() ==> accepts(
                old(tree)@,
                (#[trigger] old(model)[i]).x,
                old(model)[i].y,
            ),
    ensures
        final(tree)@ == filled(cleared(old(tree)@), index_entries(positions(old(model)@))),
        rects(final(tree)@) == rects(old(tree)@),
        final(tree).depth() == old(tree).depth(),
        final(tree).uniform() == old(tree).uniform(),
        after_tick(old(model)@, final(tree)@, final(model)@),
{
    rebuild_tree(tree, model);
    let ghost leaves = tree@;
    let count: usize = model.len();
    for i in 0..count
        invariant
            count == model.len(),
            tree@ == leaves,
            tree.depth() == old(tree).depth(),
            tree.uniform() == old(tree).uniform(),
            leaves == filled(cleared(old(tree)@), index_entries(positions(old(model)@))),
            forall|j: int|
                0 <= j < old(model).len() ==> accepts(
                    old(tree)@,
                    (#[trigger] old(model)[j]).x,
                    old(model)[j].y,
                ),
            tick_reached(old(model)@, leaves, model@, i as int),
    {
        let x: u16 = model[i].x;
        let y: u16 = model[i].y;
        proof {
            lemma_tick_step(old(tree)@, old(model)@, model@, i as int);
        }
        let local_model = tree.broad_phase(x, y);
        update_entity_local(model, i, local_model);
    }
}

/// The index of a model over tiling leaves on `cells`, as a tick builds it.
pub open spec fn index_of(cells: Seq<Rect>, model: Seq<Entity>) -> Seq<LeafView<usize>> {
    filled(empty_leaves::<usize>(cells), index_entries(positions(model)))
}

/// Whether every collision flag of the model says exactly whether another
/// entity of the same bucket overlaps the entity.
pub open spec fn settled(model: Seq<Entity>, leaves: Seq<LeafView<usize>>) -> bool {
    forall|i: int|
        0 <= i < model.len() ==> (#[trigger] model[i]).collision == hit_among(
            model,
            i,
            bucket_at(leaves, model[i].x, model[i].y),
        )
}

/// Whether the model is one that the example runs on: entities of extent
/// 1 x 1 inside the square world of side `world`.
pub open spec fn unit_model(model: Seq<Entity>, world: u16) -> bool {
    forall|i: int|
        0 <= i < model.len() ==> {
            &&& (#[trigger] model[i]).x < world
            &&& model[i].y < world
            &&& model[i].width == 1
            &&& model[i].height == 1
        }
}

/// A tick on a model in which no flag is raised without cause leaves a
/// settled model, and moves no entity.
pub proof fn lemma_tick_settles(
    cells: Seq<Rect>,
    before: Seq<Entity>,
    after: Seq<Entity>,
)
    requires
        before.len() <= usize::MAX,
        after_tick(before, index_of(cells, before), after),
        forall|i: int|
            0 <= i < before.len() ==> accepts(
                empty_leaves::<usize>(cells),
                (#[trigger] before[i]).x,
                before[i].y,
            ),
        forall|i: int|
            0 <= i < before.len() && (#[trigger] before[i]).collision ==> hit_among(
                before,
                i,
                bucket_at(index_of(cells, before), before[i].x, before[i].y),
            ),
    ensures
        positions(after) == positions(before),
        index_of(cells, after) == index_of(cells, before),
        settled(after, index_of(cells, after)),
        forall|i: int| 0 <= i < before.len() ==> same_geometry(#[trigger] after[i], before[i]),
{
    let leaves = index_of(cells, before);
    let start = empty_leaves::<usize>(cells);
    assert(cleared(start) =~= start);
    assert forall|i: int| 0 <= i < before.len() implies same_geometry(
        #[trigger] after[i],
        before[i],
    ) by {
        assert(after[i] == flagged(
            before[i],
            hit_among(before, i, bucket_at(leaves, before[i].x, before[i].y)),
        ));
    }
    assert(positions(after) =~= positions(before)) by {
        assert forall|i: int| 0 <= i < before.len() implies positions(after)[i] == positions(
            before,
        )[i] by {
            assert(same_geometry(after[i], before[i]));
        }
    }
    assert forall|i: int| 0 <= i < after.len() implies (#[trigger] after[i]).collision
        == hit_among(after, i, bucket_at(leaves, after[i].x, after[i].y)) by {
        assert(same_geometry(after[i], before[i]));
        assert(after[i] == flagged(
            before[i],
            hit_among(before, i, bucket_at(leaves, before[i].x, before[i].y)),
        ));
        lemma_tick_bucket(start, before, i);
        lemma_hit_among_by_geometry(
            after,
            before,
            i,
            bucket_at(leaves, before[i].x, before[i].y),
        );
    }
}

/// Runs the example on the tree of fixed depth for `ticks` ticks and hands
/// back the model: 1000 entities of extent 1 x 1 in a world of 128 x 128,
/// indexed by an 8 x 8 grid of leaves. After the first tick every collision
/// flag says whether another entity of the same bucket overlaps the entity.
pub fn example_main(ticks: u32) -> (model: Vec<Entity>)
    ensures
        model.len() == 1000,
        unit_model(model@, 128),
        ticks == 0 ==> forall|i: int| 0 <= i < model.len() ==> !(#[trigger] model[i]).collision,
        ticks > 0 ==> settled(model@, index_of(grid(Rect::of(0, 0, 128, 128), 3), model@)),
{
    let mut model = init_model(ModelConfig::default());
    let mut tree: crate::fixed_depth_quad_tree::QuadTree<usize> = Quadrants::new_empty(
        0,
        0,
        128,
        128,
    );
    let ghost cells = grid(Rect::of(0, 0, 128, 128), 3);
    for t in 0..ticks
        invariant
            cells == grid(Rect::of(0, 0, 128, 128), 3),
            rects(tree.leaves()) == cells,
            model.len() == 1000,
            unit_model(model@, 128),
            t == 0 ==> forall|i: int| 0 <= i < model.len() ==> !(#[trigger] model[i]).collision,
            t > 0 ==> settled(model@, index_of(cells, model@)),
    {
        let ghost before = model@;
        let ghost old_leaves = tree.leaves();
        proof {
            lemma_example_accepts(old_leaves, before);
            lemma_empty_leaves_rects::<usize>(cells);
            lemma_example_accepts(empty_leaves::<usize>(cells), before);
            lemma_cleared_is_empty_leaves(old_leaves);
        }
        example_tick(&mut tree, &mut model);
        proof {
            lemma_tick_settles(cells, before, model@);
            assert forall|i: int| 0 <= i < model.len() implies {
                &&& (#[trigger] model[i]).x < 128
                &&& model[i].y < 128
                &&& model[i].width == 1
                &&& model[i].height == 1
            } by {
                assert(same_geometry(model[i], before[i]));
            }
        }
    }
    model
}

/// In the example every entity lies inside the tree.
proof fn lemma_example_accepts(leaves: Seq<LeafView<usize>>, model: Seq<Entity>)
    requires
        rects(leaves) == grid(Rect::of(0, 0, 128, 128), 3),
        unit_model(model, 128),
    ensures
        forall|i: int|
            0 <= i < model.len() ==> accepts(leaves, (#[trigger] model[i]).x, model[i].y),
{
    assert forall|i: int| 0 <= i < model.len() implies accepts(
        leaves,
        (#[trigger] model[i]).x,
        model[i].y,
    ) by {
        lemma_tiled_accepts(leaves, Rect::of(0, 0, 128, 128), 3, model[i].x, model[i].y);
    }
}

/// Runs the example on the tree of chosen depth, at depth 3, for `ticks`
/// ticks and hands back the model: 1000 entities of extent 1 x 1 in a world
/// of 128 x 128, indexed by an 8 x 8 grid of leaves. After the first tick
/// every collision flag says whether another entity of the same bucket
/// overlaps the entity.
pub fn example_main_2(ticks: u32) -> (model: Vec<Entity>)
    ensures
        model.len() == 1000,
        unit_model(model@, 128),
        ticks == 0 ==> forall|i: int| 0 <= i < model.len() ==> !(#[trigger] model[i]).collision,
        ticks > 0 ==> settled(model@, index_of(grid(Rect::of(0, 0, 128, 128), 3), model@)),
{
    let mut model = init_model(ModelConfig::default());
    let mut tree: crate::enum_quadtree::QuadTree<usize> = crate::enum_quadtree::QuadTree::new(
        0,
        0,
        128,
        128,
        3,
    );
    let ghost cells = grid(Rect::of(0, 0, 128, 128), 3);
    for t in 0..ticks
        invariant
            cells == grid(Rect::of(0, 0, 128, 128), 3),
            rects(tree@) == cells,
            model.len() == 1000,
            unit_model(model@, 128),
            t == 0 ==> forall|i: int| 0 <= i < model.len() ==> !(#[trigger] model[i]).collision,
            t > 0 ==> settled(model@, index_of(cells, model@)),
    {
        let ghost before = model@;
        let ghost old_leaves = tree@;
        proof {
            lemma_example_accepts(old_leaves, before);
            lemma_empty_leaves_rects::<usize>(cells);
            lemma_example_accepts(empty_leaves::<usize>(cells), before);
            lemma_cleared_is_empty_leaves(old_leaves);
        }
        example_tick_2(&mut tree, &mut model);
        proof {
            lemma_tick_settles(cells, before, model@);
            assert forall|i: int| 0 <= i < model.len() implies {
                &&& (#[trigger] model[i]).x < 128
                &&& model[i].y < 128
                &&& model[i].width == 1
                &&& model[i].height == 1
            } by {
                assert(same_geometry(model[i], before[i]));
            }
        }
    }
    model
}

} // verus!
