use rust_quadmap_v2::entity::{init_model, is_coliding, Entity, ModelConfig};
use rust_quadmap_v2::enum_quadtree::QuadTree as EnumQuadTree;
use rust_quadmap_v2::fixed_depth_quad_tree::{QuadTree, Quadrants};
use rust_quadmap_v2::{example_main, example_main_2, example_tick, example_tick_2};

fn boxed(x: u16, y: u16, width: u16, height: u16) -> Entity {
    Entity { x, y, width, height, collision: false }
}

fn hit_anywhere(model: &Vec<Entity>, i: usize) -> bool {
    (0..model.len()).any(|j| j != i && is_coliding(&model[i], &model[j]))
}

#[test]
fn a_tick_flags_overlaps_within_a_bucket() {
    let mut model = vec![boxed(0, 0, 2, 2), boxed(1, 1, 2, 2), boxed(20, 20, 2, 2), boxed(100, 100, 1, 1)];
    let mut tree: QuadTree<usize> = QuadTree::new_empty(0, 0, 128, 128);
    example_tick(&mut tree, &mut model);
    let flags: Vec<bool> = model.iter().map(|e| e.collision).collect();
    assert_eq!(flags, vec![true, true, false, false]);
    assert_eq!(tree.broad_phase(0, 0), &vec![0, 1]);
    assert_eq!(tree.broad_phase(20, 20), &vec![2]);
    example_tick(&mut tree, &mut model);
    let again: Vec<bool> = model.iter().map(|e| e.collision).collect();
    assert_eq!(again, vec![true, true, false, false]);
}

#[test]
fn a_tick_does_not_see_across_leaves() {
    let mut model = vec![boxed(15, 15, 2, 2), boxed(16, 16, 2, 2)];
    let mut tree: QuadTree<usize> = QuadTree::new_empty(0, 0, 128, 128);
    example_tick(&mut tree, &mut model);
    assert!(is_coliding(&model[0], &model[1]));
    assert!(!model[0].collision);
    assert!(!model[1].collision);
}

#[test]
fn a_tick_on_the_tree_of_chosen_depth() {
    let mut model = vec![boxed(0, 0, 2, 2), boxed(1, 1, 2, 2), boxed(20, 20, 2, 2), boxed(2, 2, 14, 14)];
    let mut tree: EnumQuadTree<usize> = EnumQuadTree::new(0, 0, 128, 128, 3);
    example_tick_2(&mut tree, &mut model);
    let flags: Vec<bool> = model.iter().map(|e| e.collision).collect();
    assert_eq!(flags, vec![true, true, false, true]);
    let mut coarse: EnumQuadTree<usize> = EnumQuadTree::new(0, 0, 128, 128, 0);
    let mut all = vec![boxed(15, 15, 2, 2), boxed(16, 16, 2, 2), boxed(90, 90, 1, 1)];
    example_tick_2(&mut coarse, &mut all);
    let flags: Vec<bool> = all.iter().map(|e| e.collision).collect();
    assert_eq!(flags, vec![true, true, false]);
}

#[test]
fn a_tick_keeps_raised_flags() {
    let mut model = vec![boxed(0, 0, 1, 1), boxed(50, 50, 1, 1)];
    model[1].collision = true;
    let mut tree: QuadTree<usize> = QuadTree::new_empty(0, 0, 128, 128);
    example_tick(&mut tree, &mut model);
    assert!(!model[0].collision);
    assert!(model[1].collision);
}

#[test]
fn the_example_without_ticks_is_the_drawn_model() {
    let model = example_main(0);
    let drawn = init_model(ModelConfig::default());
    assert_eq!(model.len(), 1000);
    assert!(model.iter().all(|e| !e.collision));
    let a: Vec<(u16, u16)> = model.iter().map(|e| (e.x, e.y)).collect();
    let b: Vec<(u16, u16)> = drawn.iter().map(|e| (e.x, e.y)).collect();
    assert_eq!(a, b);
}

#[test]
fn the_example_flags_entities_that_share_a_point() {
    for ticks in [1u32, 3] {
        let model = example_main(ticks);
        assert_eq!(model.len(), 1000);
        for (i, e) in model.iter().enumerate() {
            assert!(e.x < 128 && e.y < 128);
            assert_eq!((e.width, e.height), (1, 1));
            assert_eq!(e.collision, hit_anywhere(&model, i));
        }
    }
}

#[test]
fn both_examples_agree() {
    let a = example_main(2);
    let b = example_main_2(2);
    let fa: Vec<(u16, u16, bool)> = a.iter().map(|e| (e.x, e.y, e.collision)).collect();
    let fb: Vec<(u16, u16, bool)> = b.iter().map(|e| (e.x, e.y, e.collision)).collect();
    assert_eq!(fa, fb);
    assert!(example_main_2(0).iter().all(|e| !e.collision));
}
