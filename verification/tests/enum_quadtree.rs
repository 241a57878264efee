use rust_quadmap_v2::entity::Entity;
use rust_quadmap_v2::enum_quadtree::{rebuild_tree, QuadTree};

fn collect<'a, D>(tree: &'a QuadTree<D>, out: &mut Vec<&'a QuadTree<D>>) {
    match tree {
        QuadTree::Leaf { .. } => out.push(tree),
        QuadTree::Quads(a, b, c, d) => {
            collect(a, out);
            collect(b, out);
            collect(c, out);
            collect(d, out);
        }
    }
}

fn leaves<D>(tree: &QuadTree<D>) -> Vec<&QuadTree<D>> {
    let mut out = Vec::new();
    collect(tree, &mut out);
    out
}

fn rect<D>(leaf: &QuadTree<D>) -> (u16, u16, u16, u16) {
    match leaf {
        QuadTree::Leaf { rect_x, rect_y, rect_w, rect_h, .. } => (*rect_x, *rect_y, *rect_w, *rect_h),
        QuadTree::Quads(..) => panic!("not a leaf"),
    }
}

fn bucket<D>(leaf: &QuadTree<D>) -> &Vec<D> {
    match leaf {
        QuadTree::Leaf { data, .. } => data,
        QuadTree::Quads(..) => panic!("not a leaf"),
    }
}

fn recorded<D>(leaf: &QuadTree<D>) -> &Vec<(u16, u16)> {
    match leaf {
        QuadTree::Leaf { positions, .. } => positions,
        QuadTree::Quads(..) => panic!("not a leaf"),
    }
}

fn child<D>(tree: &QuadTree<D>, i: usize) -> &QuadTree<D> {
    match tree {
        QuadTree::Quads(a, b, c, d) => [a, b, c, d][i],
        QuadTree::Leaf { .. } => panic!("not a composite"),
    }
}

fn entity(x: u16, y: u16) -> Entity {
    Entity { x, y, width: 1, height: 1, collision: false }
}

#[test]
fn depth_zero_is_one_empty_leaf() {
    let tree: QuadTree<u8> = QuadTree::new(3, 4, 10, 20, 0);
    assert!(matches!(tree, QuadTree::Leaf { .. }));
    assert_eq!(rect(&tree), (3, 4, 10, 20));
    assert!(bucket(&tree).is_empty());
    assert!(recorded(&tree).is_empty());
}

#[test]
fn depth_three_is_a_grid_of_64_leaves_of_16_by_16() {
    let tree: QuadTree<u8> = QuadTree::new(0, 0, 128, 128, 3);
    let all = leaves(&tree);
    assert_eq!(all.len(), 64);
    for leaf in &all {
        let (_, _, w, h) = rect(leaf);
        assert_eq!((w, h), (16, 16));
        assert!(bucket(leaf).is_empty());
    }
    assert_eq!(rect(all[0]), (0, 0, 16, 16));
    assert_eq!(rect(all[1]), (16, 0, 16, 16));
    assert_eq!(rect(all[2]), (0, 16, 16, 16));
    assert_eq!(rect(all[3]), (16, 16, 16, 16));
    assert_eq!(rect(all[4]), (32, 0, 16, 16));
    assert_eq!(rect(all[16]), (64, 0, 16, 16));
    assert_eq!(rect(all[32]), (0, 64, 16, 16));
    assert_eq!(rect(all[63]), (112, 112, 16, 16));
}

#[test]
fn every_leaf_of_a_new_tree_is_at_the_given_depth() {
    let tree: QuadTree<u8> = QuadTree::new(0, 0, 64, 64, 2);
    for i in 0..4 {
        for j in 0..4 {
            assert!(matches!(child(child(&tree, i), j), QuadTree::Leaf { .. }));
        }
    }
}

#[test]
fn scenario_two_pairs_land_in_two_leaves() {
    let mut tree: QuadTree<u32> = QuadTree::new(0, 0, 128, 128, 3);
    assert!(tree.insert(0, 0, 100));
    assert!(tree.insert(1, 1, 101));
    assert!(tree.insert(20, 20, 200));
    assert!(tree.insert(21, 21, 201));

    let first = child(child(child(&tree, 0), 0), 0);
    assert_eq!(bucket(first), &vec![100, 101]);
    assert_eq!(recorded(first), &vec![(0, 0), (1, 1)]);

    let second = child(child(child(&tree, 0), 0), 3);
    assert_eq!(bucket(second), &vec![200, 201]);

    let holding: Vec<usize> =
        leaves(&tree).iter().enumerate().filter(|(_, l)| !bucket(l).is_empty()).map(|(i, _)| i).collect();
    assert_eq!(holding, vec![0, 3]);

    assert_eq!(tree.broad_phase(0, 0), &vec![100, 101]);
    assert_eq!(tree.broad_phase(1, 1), &vec![100, 101]);
    assert_eq!(tree.broad_phase(20, 20), &vec![200, 201]);
    assert_eq!(tree.broad_phase(21, 21), &vec![200, 201]);
    assert!(!tree.broad_phase(0, 0).contains(&200));
    assert!(!tree.broad_phase(0, 0).contains(&201));
}

#[test]
fn points_on_a_quadrant_boundary_go_to_the_far_quadrant_only() {
    let mut tree: QuadTree<u8> = QuadTree::new(0, 0, 128, 128, 1);
    assert!(tree.insert(63, 63, 0));
    assert!(tree.insert(64, 0, 1));
    assert!(tree.insert(0, 64, 2));
    assert!(tree.insert(64, 64, 3));
    assert!(tree.insert(127, 127, 4));
    assert_eq!(bucket(child(&tree, 0)), &vec![0]);
    assert_eq!(bucket(child(&tree, 1)), &vec![1]);
    assert_eq!(bucket(child(&tree, 2)), &vec![2]);
    assert_eq!(bucket(child(&tree, 3)), &vec![3, 4]);
}

#[test]
fn the_far_edges_of_the_root_are_outside() {
    let mut tree: QuadTree<u8> = QuadTree::new(10, 10, 100, 100, 2);
    assert!(!tree.can_insert(110, 50));
    assert!(!tree.can_insert(50, 110));
    assert!(!tree.can_insert(9, 50));
    assert!(!tree.can_insert(50, 9));
    assert!(tree.can_insert(10, 10));
    assert!(tree.can_insert(109, 109));
    assert!(!tree.insert(110, 110, 1));
    assert!(!tree.insert(0, 0, 1));
    assert!(leaves(&tree).iter().all(|l| bucket(l).is_empty()));
}

#[test]
fn odd_sides_leave_their_extra_unit_near_the_origin() {
    let tree: QuadTree<u8> = QuadTree::new(0, 0, 5, 7, 1);
    let all = leaves(&tree);
    assert_eq!(rect(all[0]), (0, 0, 3, 4));
    assert_eq!(rect(all[1]), (3, 0, 2, 4));
    assert_eq!(rect(all[2]), (0, 4, 3, 3));
    assert_eq!(rect(all[3]), (3, 4, 2, 3));
}

#[test]
fn every_point_of_the_root_lies_in_exactly_one_leaf() {
    for depth in 0..4u16 {
        let tree: QuadTree<u8> = QuadTree::new(2, 3, 13, 11, depth);
        let all = leaves(&tree);
        for x in 0..20u16 {
            for y in 0..20u16 {
                let holders = all
                    .iter()
                    .filter(|l| {
                        let (rx, ry, rw, rh) = rect(l);
                        x >= rx && x < rx + rw && y >= ry && y < ry + rh
                    })
                    .count();
                let inside = x >= 2 && x < 15 && y >= 3 && y < 14;
                assert_eq!(holders, if inside { 1 } else { 0 });
                assert_eq!(tree.can_insert(x, y), inside);
            }
        }
    }
}

#[test]
fn a_rectangle_without_area_accepts_nothing() {
    let mut tree: QuadTree<u8> = QuadTree::new(5, 5, 0, 0, 2);
    assert_eq!(leaves(&tree).len(), 16);
    assert!(!tree.can_insert(5, 5));
    assert!(!tree.insert(5, 5, 1));
    assert!(tree.get_leaf_around(5, 5).is_none());
    let mut thin: QuadTree<u8> = QuadTree::new(0, 0, 1, 4, 1);
    assert!(thin.insert(0, 3, 9));
    assert!(!thin.insert(1, 0, 9));
    assert_eq!(bucket(child(&thin, 2)), &vec![9]);
}

#[test]
fn a_rectangle_may_reach_the_last_coordinate() {
    let mut tree: QuadTree<u8> = QuadTree::new(65000, 65000, 535, 535, 3);
    assert!(tree.insert(65534, 65534, 1));
    assert!(!tree.insert(65535, 65535, 2));
    assert!(!tree.insert(64999, 65000, 3));
    assert_eq!(tree.broad_phase(65534, 65534), &vec![1]);
}

#[test]
fn clear_empties_every_bucket_and_keeps_the_shape() {
    let mut tree: QuadTree<u8> = QuadTree::new(0, 0, 128, 128, 2);
    let before: Vec<_> = leaves(&tree).iter().map(|l| rect(l)).collect();
    for i in 0..128u16 {
        assert!(tree.insert(i, 127 - i, 7));
    }
    tree.clear();
    assert!(leaves(&tree).iter().all(|l| bucket(l).is_empty() && recorded(l).is_empty()));
    let after: Vec<_> = leaves(&tree).iter().map(|l| rect(l)).collect();
    assert_eq!(before, after);
    for i in 0..128u16 {
        assert!(tree.broad_phase(i, i).is_empty());
    }
    tree.clear();
    assert!(leaves(&tree).iter().all(|l| bucket(l).is_empty() && recorded(l).is_empty()));
    let again: Vec<_> = leaves(&tree).iter().map(|l| rect(l)).collect();
    assert_eq!(before, again);
}

#[test]
fn a_refused_insertion_changes_nothing() {
    let mut tree: QuadTree<u8> = QuadTree::new(0, 0, 16, 16, 1);
    assert!(tree.insert(1, 1, 1));
    assert!(!tree.insert(16, 1, 2));
    assert!(!tree.insert(1, 16, 3));
    let held: usize = leaves(&tree).iter().map(|l| bucket(l).len()).sum();
    assert_eq!(held, 1);
    assert_eq!(tree.broad_phase(1, 1), &vec![1]);
}

#[test]
fn a_bucket_keeps_the_order_of_insertion() {
    let mut tree: QuadTree<u8> = QuadTree::new(0, 0, 16, 16, 1);
    for n in 0..8u8 {
        assert!(tree.insert(n as u16 % 8, 7 - n as u16 % 8, n));
    }
    assert_eq!(tree.broad_phase(0, 0), &vec![0, 1, 2, 3, 4, 5, 6, 7]);
}

#[test]
fn get_leaf_around_finds_the_leaf_or_nothing() {
    let mut tree: QuadTree<u8> = QuadTree::new(0, 0, 128, 128, 3);
    tree.insert(70, 5, 42);
    let leaf = tree.get_leaf_around(79, 15).unwrap();
    assert_eq!(rect(leaf), (64, 0, 16, 16));
    assert_eq!(bucket(leaf), &vec![42]);
    assert!(tree.get_leaf_around(128, 0).is_none());
    assert!(tree.get_leaf_around(0, 128).is_none());
    assert!(tree.get_leaf_around(65535, 65535).is_none());
}

#[test]
fn get_mut_leaf_around_writes_into_the_tree() {
    let mut tree: QuadTree<u8> = QuadTree::new(0, 0, 128, 128, 3);
    tree.insert(70, 5, 42);
    match tree.get_mut_leaf_around(70, 5).unwrap() {
        QuadTree::Leaf { data, .. } => data.push(43),
        QuadTree::Quads(..) => panic!("not a leaf"),
    }
    assert_eq!(tree.broad_phase(64, 0), &vec![42, 43]);
    assert!(tree.get_mut_leaf_around(200, 5).is_none());
    let held: usize = leaves(&tree).iter().map(|l| bucket(l).len()).sum();
    assert_eq!(held, 2);
}

#[test]
fn broad_phase_mut_writes_into_one_bucket() {
    let mut tree: QuadTree<u8> = QuadTree::new(0, 0, 128, 128, 3);
    tree.insert(0, 0, 1);
    tree.insert(100, 100, 2);
    tree.broad_phase_mut(100, 100).push(3);
    tree.broad_phase_mut(0, 0).clear();
    assert_eq!(tree.broad_phase(100, 100), &vec![2, 3]);
    assert!(tree.broad_phase(0, 0).is_empty());
}

#[test]
fn rebuild_puts_every_index_into_the_bucket_around_its_entity() {
    let model = vec![entity(0, 0), entity(1, 1), entity(20, 20), entity(21, 21), entity(127, 0)];
    let mut tree: QuadTree<usize> = QuadTree::new(0, 0, 128, 128, 3);
    tree.insert(5, 5, 99);
    rebuild_tree(&mut tree, &model);
    assert_eq!(tree.broad_phase(0, 0), &vec![0, 1]);
    assert_eq!(tree.broad_phase(20, 20), &vec![2, 3]);
    assert_eq!(tree.broad_phase(127, 0), &vec![4]);
    let held: usize = leaves(&tree).iter().map(|l| bucket(l).len()).sum();
    assert_eq!(held, model.len());
}

#[test]
fn rebuild_holds_each_entity_once_in_its_own_bucket() {
    let mut model = Vec::new();
    for n in 0..500u16 {
        model.push(entity((n * 37) % 128, (n * 91 + 5) % 128));
    }
    let mut tree: QuadTree<usize> = QuadTree::new(0, 0, 128, 128, 3);
    rebuild_tree(&mut tree, &model);
    let held: usize = leaves(&tree).iter().map(|l| bucket(l).len()).sum();
    assert_eq!(held, 500);
    for (i, e) in model.iter().enumerate() {
        let own = tree.broad_phase(e.x, e.y);
        assert_eq!(own.iter().filter(|&&j| j == i).count(), 1);
        let everywhere: usize =
            leaves(&tree).iter().map(|l| bucket(l).iter().filter(|&&j| j == i).count()).sum();
        assert_eq!(everywhere, 1);
    }
}

#[test]
fn rebuild_twice_gives_the_same_buckets() {
    let mut model = Vec::new();
    for n in 0..200u16 {
        model.push(entity((n * 13) % 128, (n * 7) % 128));
    }
    let mut tree: QuadTree<usize> = QuadTree::new(0, 0, 128, 128, 3);
    rebuild_tree(&mut tree, &model);
    let first: Vec<Vec<usize>> = leaves(&tree).iter().map(|l| bucket(l).clone()).collect();
    rebuild_tree(&mut tree, &model);
    let second: Vec<Vec<usize>> = leaves(&tree).iter().map(|l| bucket(l).clone()).collect();
    assert_eq!(first, second);
    let mut other: QuadTree<usize> = QuadTree::new(0, 0, 128, 128, 3);
    other.insert(3, 3, 77);
    rebuild_tree(&mut other, &model);
    let third: Vec<Vec<usize>> = leaves(&other).iter().map(|l| bucket(l).clone()).collect();
    assert_eq!(first, third);
}

#[test]
fn rebuild_leaves_out_what_lies_outside() {
    let model = vec![entity(5, 5), entity(200, 5), entity(5, 200), entity(6, 6)];
    let mut tree: QuadTree<usize> = QuadTree::new(0, 0, 128, 128, 3);
    rebuild_tree(&mut tree, &model);
    let held: usize = leaves(&tree).iter().map(|l| bucket(l).len()).sum();
    assert_eq!(held, 2);
    assert_eq!(tree.broad_phase(5, 5), &vec![0, 3]);
    assert!(!tree.can_insert(200, 5));
}
