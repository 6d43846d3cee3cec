use rigid_physics::aabb::{Point3, AABB};
use rigid_physics::simulation::BroadPhase;

fn cube(x: i32, y: i32, z: i32, side: i32) -> AABB {
    AABB::new(Point3::new(x, y, z), Point3::new(x + side, y + side, z + side))
}

#[test]
fn no_bodies_give_no_pairs() {
    let mut phase = BroadPhase::new();
    assert!(phase.candidate_pairs(&Vec::new()).is_empty());
}

#[test]
fn pairs_are_the_overlapping_boxes_smaller_index_first() {
    let boxes = vec![cube(0, 0, 0, 2), cube(10, 4, 4, 2), cube(1, 1, 1, 2), cube(3, 3, 3, 8)];
    let mut phase = BroadPhase::new();
    let mut pairs = phase.candidate_pairs(&boxes);
    pairs.sort_unstable();
    assert_eq!(pairs, vec![(0, 2), (1, 3), (2, 3)]);
}

#[test]
fn pairs_come_ordered_by_their_first_index() {
    let boxes: Vec<AABB> = (0..60).map(|k| cube(k, 0, 0, 3)).collect();
    let mut phase = BroadPhase::new();
    let pairs = phase.candidate_pairs(&boxes);
    for w in pairs.windows(2) {
        assert!(w[0].0 <= w[1].0);
    }
    let mut got = pairs.clone();
    got.sort_unstable();
    let mut expected = Vec::new();
    for i in 0..60usize {
        for j in (i + 1)..60usize {
            if j - i <= 3 {
                expected.push((i, j));
            }
        }
    }
    assert_eq!(got, expected);
}

#[test]
fn the_index_is_rebuilt_on_every_call() {
    let mut phase = BroadPhase::new();
    let first = vec![cube(0, 0, 0, 1), cube(0, 0, 0, 1), cube(0, 0, 0, 1)];
    assert_eq!(phase.candidate_pairs(&first).len(), 3);
    let second = vec![cube(0, 0, 0, 1), cube(5, 5, 5, 1)];
    assert!(phase.candidate_pairs(&second).is_empty());
    assert_eq!(phase.rtree.search(&cube(-10, -10, -10, 30)).len(), 2);
}

#[test]
fn the_sweep_finds_the_pairs_that_overlap() {
    let boxes = vec![cube(0, 0, 0, 4), cube(20, 8, 8, 4), cube(2, 2, 2, 4), cube(5, 5, 5, 16)];
    let phase = BroadPhase::new();
    let mut pairs = phase.candidate_pairs_1axis(&boxes);
    pairs.sort_unstable();
    assert_eq!(pairs, vec![(0, 2), (1, 3), (2, 3)]);
}

#[test]
fn the_sweep_drops_pairs_apart_on_another_axis() {
    let boxes = vec![cube(0, 0, 0, 4), cube(1, 10, 0, 4), cube(2, 0, 10, 4)];
    let phase = BroadPhase::new();
    assert!(phase.candidate_pairs_1axis(&boxes).is_empty());
}

#[test]
fn the_sweep_agrees_with_the_index_where_no_boxes_only_touch() {
    let mut boxes = Vec::new();
    for k in 0..80 {
        let x = 2 * ((k * 37) % 50);
        let y = (k * 11) % 40;
        let z = (k * 53) % 30;
        let side = 1 + 2 * (k % 7);
        boxes.push(AABB::new(Point3::new(x, y, z), Point3::new(x + side, y + side, z + side)));
    }
    let mut phase = BroadPhase::new();
    let mut by_index = phase.candidate_pairs(&boxes);
    by_index.sort_unstable();
    let mut by_sweep = phase.candidate_pairs_1axis(&boxes);
    by_sweep.sort_unstable();
    assert_eq!(by_sweep, by_index);
    assert!(!by_index.is_empty());
}

#[test]
fn the_sweep_of_no_bodies_is_empty() {
    let phase = BroadPhase::new();
    assert!(phase.candidate_pairs_1axis(&Vec::new()).is_empty());
}

#[test]
fn the_sweep_reports_each_pair_once_and_only_boxes_side_by_side() {
    let boxes = vec![
        cube(0, 0, 0, 4),
        cube(4, 0, 0, 4),
        cube(2, 1, 1, 0),
        cube(3, 3, 3, 2),
        cube(0, 0, 0, 4),
    ];
    let phase = BroadPhase::new();
    let pairs = phase.candidate_pairs_1axis(&boxes);
    let mut seen = pairs.clone();
    seen.sort_unstable();
    seen.dedup();
    assert_eq!(seen.len(), pairs.len());
    for &(i, j) in &pairs {
        assert!(i < j && j < boxes.len());
        assert!(boxes[i].overlaps_yz(&boxes[j]));
    }
    for must in [(0, 3), (0, 4), (1, 3), (3, 4)] {
        assert!(pairs.contains(&must));
    }
}
