use rigid_physics::aabb::{Point3, AABB};
use rigid_physics::rtree::RTree;

fn unit(x: i32, y: i32, z: i32) -> AABB {
    AABB::new(Point3::new(x, y, z), Point3::new(x + 1, y + 1, z + 1))
}

fn grid(side: i32) -> Vec<AABB> {
    let mut boxes = Vec::new();
    for x in 0..side {
        for y in 0..side {
            for z in 0..side {
                boxes.push(unit(3 * x, 3 * y, 3 * z));
            }
        }
    }
    boxes
}

fn sorted(found: Vec<&usize>) -> Vec<usize> {
    let mut out: Vec<usize> = found.into_iter().copied().collect();
    out.sort_unstable();
    out
}

#[test]
fn empty_tree_finds_nothing() {
    let tree: RTree<usize> = RTree::new();
    assert!(tree.search(&unit(0, 0, 0)).is_empty());
}

#[test]
fn single_entry_is_found_by_an_overlapping_query_only() {
    let mut tree = RTree::new();
    tree.insert(unit(0, 0, 0), 7usize);
    assert_eq!(sorted(tree.search(&unit(1, 1, 1))), vec![7]);
    assert!(tree.search(&unit(2, 0, 0)).is_empty());
}

#[test]
fn disjoint_grid_boxes_find_exactly_themselves() {
    for side in [2, 3, 7] {
        let boxes = grid(side);
        let mut tree = RTree::new();
        for (i, b) in boxes.iter().enumerate() {
            tree.insert(*b, i);
        }
        for (i, b) in boxes.iter().enumerate() {
            assert_eq!(sorted(tree.search(b)), vec![i]);
        }
    }
}

#[test]
fn search_returns_every_overlapping_entry_and_no_other() {
    let mut boxes = Vec::new();
    for k in 0..200 {
        let x = (k * 37) % 50;
        let y = (k * 11) % 40;
        let z = (k * 53) % 30;
        let side = 1 + (k % 7);
        boxes.push(AABB::new(Point3::new(x, y, z), Point3::new(x + side, y + side, z + side)));
    }
    let mut tree = RTree::new();
    for (i, b) in boxes.iter().enumerate() {
        tree.insert(*b, i);
    }
    for q in &boxes {
        let expected: Vec<usize> =
            (0..boxes.len()).filter(|&j| boxes[j].overlaps(q)).collect();
        assert_eq!(sorted(tree.search(q)), expected);
    }
}

#[test]
fn equal_entries_are_all_kept() {
    let mut tree = RTree::new();
    for _ in 0..40 {
        tree.insert(unit(0, 0, 0), 1usize);
    }
    assert_eq!(tree.search(&unit(0, 0, 0)).len(), 40);
}

#[test]
fn clear_removes_every_entry() {
    let mut tree = RTree::new();
    for (i, b) in grid(3).iter().enumerate() {
        tree.insert(*b, i);
    }
    tree.clear();
    assert!(tree.search(&AABB::new(Point3::new(-100, -100, -100), Point3::new(100, 100, 100)))
        .is_empty());
    tree.insert(unit(0, 0, 0), 5usize);
    assert_eq!(sorted(tree.search(&unit(0, 0, 0))), vec![5]);
}

#[test]
fn aabbs_of_an_empty_tree_are_none() {
    let tree: RTree<usize> = RTree::new();
    assert!(tree.aabbs().is_empty());
}

#[test]
fn aabbs_start_with_the_box_around_everything() {
    let mut tree = RTree::new();
    tree.insert(unit(0, 0, 0), 0usize);
    tree.insert(unit(4, 5, 6), 1usize);
    let boxes = tree.aabbs();
    assert_eq!(boxes.len(), 3);
    assert_eq!((*boxes[0].start(), *boxes[0].end()), (Point3::new(0, 0, 0), Point3::new(5, 6, 7)));
    assert_eq!((*boxes[1].start(), *boxes[1].end()), (Point3::new(0, 0, 0), Point3::new(1, 1, 1)));
    assert_eq!((*boxes[2].start(), *boxes[2].end()), (Point3::new(4, 5, 6), Point3::new(5, 6, 7)));
}

#[test]
fn every_node_box_is_the_merge_of_what_lies_below_it() {
    let boxes = grid(5);
    let mut tree = RTree::new();
    for (i, b) in boxes.iter().enumerate() {
        tree.insert(*b, i);
    }
    let listed = tree.aabbs();
    assert!(listed.len() > boxes.len());
    let root = listed[0];
    assert_eq!((*root.start(), *root.end()), (Point3::new(0, 0, 0), Point3::new(13, 13, 13)));
    for b in &boxes {
        assert!(listed.iter().any(|l| l.start() == b.start() && l.end() == b.end()));
    }
}

#[test]
fn the_seventeenth_entry_splits_the_root() {
    let mut tree = RTree::new();
    for k in 0..16 {
        tree.insert(unit(3 * k, 0, 0), k as usize);
    }
    assert_eq!(tree.aabbs().len(), 17);
    tree.insert(unit(48, 0, 0), 16usize);
    assert_eq!(tree.aabbs().len(), 17 + 3);
}
