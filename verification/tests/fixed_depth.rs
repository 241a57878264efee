use rust_quadmap_v2::entity::Entity;
use rust_quadmap_v2::fixed_depth_quad_tree::{
    build_new_from_model, build_owned_from_model, into_iter, rebuild_from_model, QuadTree,
    QuadTreeLeaf, Quadrants,
};
use rust_quadmap_v2::geometry::divide_into_4;
use rust_quadmap_v2::{GetX, GetY};

#[derive(Clone, Debug, PartialEq)]
struct Marker {
    x: u16,
    y: u16,
    tag: u8,
}

impl GetX for Marker {
    fn x_coord(&self) -> u16 {
        self.x
    }

    fn get_x(&self) -> u16 {
        self.x
    }
}

impl GetY for Marker {
    fn y_coord(&self) -> u16 {
        self.y
    }

    fn get_y(&self) -> u16 {
        self.y
    }
}

fn entity(x: u16, y: u16) -> Entity {
    Entity { x, y, width: 1, height: 1, collision: false }
}

fn buckets<D: Clone>(tree: &QuadTree<D>) -> Vec<Vec<D>> {
    let mut out = Vec::new();
    for i in 0..4 {
        for j in 0..4 {
            for k in 0..4 {
                out.push(tree[i][j][k].data.clone());
            }
        }
    }
    out
}

#[test]
fn divide_into_4_halves_both_sides() {
    assert_eq!(
        divide_into_4(0, 0, 128, 128),
        [(0, 0, 64, 64), (64, 0, 64, 64), (0, 64, 64, 64), (64, 64, 64, 64)]
    );
    assert_eq!(divide_into_4(10, 20, 5, 7), [(10, 20, 3, 4), (13, 20, 2, 4), (10, 24, 3, 3), (13, 24, 2, 3)]);
    assert_eq!(divide_into_4(9, 9, 1, 0), [(9, 9, 1, 0), (10, 9, 0, 0), (9, 9, 1, 0), (10, 9, 0, 0)]);
    assert_eq!(
        divide_into_4(65000, 0, 535, 65535),
        [(65000, 0, 268, 32768), (65268, 0, 267, 32768), (65000, 32768, 268, 32767), (65268, 32768, 267, 32767)]
    );
}

#[test]
fn a_leaf_accepts_the_points_of_its_half_open_rectangle() {
    let mut leaf: QuadTreeLeaf<u8> = QuadTreeLeaf::new_empty(4, 8, 3, 2);
    assert!(leaf.data.is_empty());
    assert!(leaf.can_insert(4, 8));
    assert!(leaf.can_insert(6, 9));
    assert!(!leaf.can_insert(7, 8));
    assert!(!leaf.can_insert(4, 10));
    assert!(!leaf.can_insert(3, 8));
    assert!(!leaf.can_insert(4, 7));
    assert!(leaf.insert(5, 9, 1));
    assert!(!leaf.insert(7, 9, 2));
    assert!(leaf.insert(6, 8, 3));
    assert_eq!(leaf.data, vec![1, 3]);
    leaf.clear();
    assert!(leaf.data.is_empty());
    assert!(leaf.can_insert(4, 8));
}

#[test]
fn the_fixed_tree_has_three_levels() {
    assert_eq!(<QuadTree<u8> as Quadrants>::DEPTH, 3);
    assert_eq!(<[QuadTreeLeaf<u8>; 4] as Quadrants>::DEPTH, 1);
}

#[test]
fn the_fixed_tree_is_a_grid_of_16_by_16_leaves() {
    let tree: QuadTree<u8> = QuadTree::new_empty(0, 0, 128, 128);
    for i in 0..4u16 {
        for j in 0..4u16 {
            for k in 0..4u16 {
                let x = (i % 2) * 64 + (j % 2) * 32 + (k % 2) * 16;
                let y = (i / 2) * 64 + (j / 2) * 32 + (k / 2) * 16;
                let leaf = &tree[i as usize][j as usize][k as usize];
                assert!(leaf.can_insert(x, y));
                assert!(leaf.can_insert(x + 15, y + 15));
                assert!(!leaf.can_insert(x + 16, y));
                assert!(!leaf.can_insert(x, y + 16));
                assert!(x == 0 || !leaf.can_insert(x - 1, y));
                assert!(y == 0 || !leaf.can_insert(x, y - 1));
            }
        }
    }
}

#[test]
fn scenario_two_pairs_in_the_fixed_tree() {
    let mut tree: QuadTree<u32> = QuadTree::new_empty(0, 0, 128, 128);
    assert!(tree.insert(0, 0, 100));
    assert!(tree.insert(1, 1, 101));
    assert!(tree.insert(20, 20, 200));
    assert!(tree.insert(21, 21, 201));
    assert_eq!(tree[0][0][0].data, vec![100, 101]);
    assert_eq!(tree[0][0][3].data, vec![200, 201]);
    let holding = buckets(&tree).iter().filter(|b| !b.is_empty()).count();
    assert_eq!(holding, 2);
    assert_eq!(tree.broad_phase(0, 0), &vec![100, 101]);
    assert_eq!(tree.broad_phase(20, 20), &vec![200, 201]);
    assert!(!tree.broad_phase(0, 0).contains(&200));
    assert!(!tree.broad_phase(0, 0).contains(&201));
}

#[test]
fn boundary_points_of_the_fixed_tree_go_to_one_leaf() {
    let mut tree: QuadTree<u8> = QuadTree::new_empty(0, 0, 128, 128);
    assert!(tree.insert(16, 0, 1));
    assert!(tree.insert(15, 0, 2));
    assert!(tree.insert(64, 64, 3));
    assert!(tree.insert(127, 127, 4));
    assert!(!tree.insert(128, 127, 5));
    assert!(!tree.insert(127, 128, 6));
    assert_eq!(tree[0][0][1].data, vec![1]);
    assert_eq!(tree[0][0][0].data, vec![2]);
    assert_eq!(tree[3][0][0].data, vec![3]);
    assert_eq!(tree[3][3][3].data, vec![4]);
    let held: usize = buckets(&tree).iter().map(|b| b.len()).sum();
    assert_eq!(held, 4);
}

#[test]
fn every_point_of_the_fixed_tree_is_accepted_by_one_leaf() {
    let tree: QuadTree<u8> = QuadTree::new_empty(3, 5, 101, 67);
    for x in (0..120u16).step_by(1) {
        for y in (0..80u16).step_by(3) {
            let mut holders = 0;
            for i in 0..4 {
                for j in 0..4 {
                    for k in 0..4 {
                        if tree[i][j][k].can_insert(x, y) {
                            holders += 1;
                        }
                    }
                }
            }
            let inside = x >= 3 && x < 104 && y >= 5 && y < 72;
            assert_eq!(holders, if inside { 1 } else { 0 });
            assert_eq!(tree.can_insert(x, y), inside);
            assert_eq!(tree.get_leaf_around(x, y).is_some(), inside);
        }
    }
}

#[test]
fn clearing_the_fixed_tree_empties_it() {
    let mut tree: QuadTree<u8> = QuadTree::new_empty(0, 0, 128, 128);
    for n in 0..128u16 {
        assert!(tree.insert(n, n, 1));
    }
    tree.clear();
    assert!(buckets(&tree).iter().all(|b| b.is_empty()));
    for n in 0..128u16 {
        assert!(tree.broad_phase(n, 127 - n).is_empty());
    }
    tree.clear();
    assert!(buckets(&tree).iter().all(|b| b.is_empty()));
    assert!(tree.insert(127, 0, 2));
    assert_eq!(tree[1][1][1].data, vec![2]);
}

#[test]
fn leaves_of_the_fixed_tree_can_be_written_through_a_query() {
    let mut tree: QuadTree<u8> = QuadTree::new_empty(0, 0, 128, 128);
    tree.insert(40, 40, 1);
    tree.get_mut_leaf_around(40, 40).unwrap().data.push(2);
    tree.broad_phase_mut(47, 47).push(3);
    assert_eq!(tree.get_leaf_around(32, 32).unwrap().data, vec![1, 2, 3]);
    assert_eq!(tree[0][3][0].data, vec![1, 2, 3]);
    assert!(tree.get_mut_leaf_around(128, 0).is_none());
    assert!(tree.get_leaf_around(0, 200).is_none());
}

#[test]
fn the_cursor_walks_the_64_leaves_in_scan_order() {
    let mut tree: QuadTree<usize> = QuadTree::new_empty(0, 0, 128, 128);
    let mut cursor = into_iter(&mut tree);
    let mut seen = 0usize;
    while let Some(leaf) = cursor.next() {
        leaf.data.push(seen);
        seen += 1;
    }
    assert_eq!(seen, 64);
    assert!(cursor.next().is_none());
    assert_eq!(cursor.index, (4, 0, 0));
    for i in 0..4 {
        for j in 0..4 {
            for k in 0..4 {
                assert_eq!(tree[i][j][k].data, vec![16 * i + 4 * j + k]);
            }
        }
    }
}

#[test]
fn rebuild_from_model_fills_the_fixed_tree() {
    let model = vec![entity(0, 0), entity(1, 1), entity(20, 20), entity(21, 21), entity(300, 1)];
    let mut tree: QuadTree<usize> = QuadTree::new_empty(0, 0, 128, 128);
    tree.insert(1, 2, 50);
    rebuild_from_model(&mut tree, &model);
    assert_eq!(tree[0][0][0].data, vec![0, 1]);
    assert_eq!(tree[0][0][3].data, vec![2, 3]);
    let held: usize = buckets(&tree).iter().map(|b| b.len()).sum();
    assert_eq!(held, 4);
    let first = buckets(&tree);
    rebuild_from_model(&mut tree, &model);
    assert_eq!(first, buckets(&tree));
}

#[test]
fn rebuild_from_model_holds_each_entity_once() {
    let mut model = Vec::new();
    for n in 0..400u16 {
        model.push(entity((n * 29) % 128, (n * 53 + 1) % 128));
    }
    let mut tree: QuadTree<usize> = QuadTree::new_empty(0, 0, 128, 128);
    rebuild_from_model(&mut tree, &model);
    let all = buckets(&tree);
    assert_eq!(all.iter().map(|b| b.len()).sum::<usize>(), 400);
    for (i, e) in model.iter().enumerate() {
        assert_eq!(tree.broad_phase(e.x, e.y).iter().filter(|&&j| j == i).count(), 1);
        assert_eq!(all.iter().map(|b| b.iter().filter(|&&j| j == i).count()).sum::<usize>(), 1);
    }
}

#[test]
fn build_new_from_model_indexes_a_world_of_a_thousand() {
    let model = vec![entity(0, 0), entity(999, 999), entity(1000, 0), entity(124, 124), entity(125, 125)];
    let tree = build_new_from_model(&model);
    assert_eq!(tree.broad_phase(0, 0), &vec![0, 3]);
    assert_eq!(tree.broad_phase(999, 999), &vec![1]);
    assert_eq!(tree.broad_phase(125, 125), &vec![4]);
    assert!(!tree.can_insert(1000, 0));
    assert_eq!(buckets(&tree).iter().map(|b| b.len()).sum::<usize>(), 4);
}

#[test]
fn build_owned_from_model_holds_clones() {
    let model = vec![
        Marker { x: 10, y: 10, tag: 1 },
        Marker { x: 900, y: 10, tag: 2 },
        Marker { x: 11, y: 12, tag: 3 },
        Marker { x: 2000, y: 10, tag: 4 },
    ];
    let tree = build_owned_from_model(&model);
    assert_eq!(tree.broad_phase(10, 10), &vec![model[0].clone(), model[2].clone()]);
    assert_eq!(tree.broad_phase(900, 10), &vec![model[1].clone()]);
    assert_eq!(buckets(&tree).iter().map(|b| b.len()).sum::<usize>(), 3);
}
