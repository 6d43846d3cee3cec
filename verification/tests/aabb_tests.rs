use rigid_physics::aabb::{Point3, AABB};

fn cube(x: i32, y: i32, z: i32, side: i32) -> AABB {
    AABB::new(Point3::new(x, y, z), Point3::new(x + side, y + side, z + side))
}

#[test]
fn new_keeps_both_corners() {
    let b = AABB::new(Point3::new(-1, 2, 3), Point3::new(4, 5, 6));
    assert_eq!(*b.start(), Point3::new(-1, 2, 3));
    assert_eq!(*b.end(), Point3::new(4, 5, 6));
}

#[test]
fn point_inf_and_sup_are_componentwise() {
    let p = Point3::new(1, 8, -3);
    let q = Point3::new(4, 2, -3);
    assert_eq!(p.inf(&q), Point3::new(1, 2, -3));
    assert_eq!(p.sup(&q), Point3::new(4, 8, -3));
}

#[test]
fn merge_is_componentwise_min_and_max() {
    let a = AABB::new(Point3::new(0, 0, 0), Point3::new(1, 5, 1));
    let b = AABB::new(Point3::new(-2, 1, 0), Point3::new(0, 2, 7));
    let m = a.merge(&b);
    assert_eq!(*m.start(), Point3::new(-2, 0, 0));
    assert_eq!(*m.end(), Point3::new(1, 5, 7));
}

#[test]
fn merge_is_commutative_and_associative() {
    let a = cube(0, 0, 0, 1);
    let b = cube(5, -3, 2, 2);
    let c = cube(-7, 4, 9, 3);
    let ab = a.merge(&b);
    let ba = b.merge(&a);
    assert_eq!((*ab.start(), *ab.end()), (*ba.start(), *ba.end()));
    let left = a.merge(&b).merge(&c);
    let right = a.merge(&b.merge(&c));
    assert_eq!((*left.start(), *left.end()), (*right.start(), *right.end()));
}

#[test]
fn overlaps_counts_touching_borders() {
    let a = cube(0, 0, 0, 1);
    let touching = cube(1, 1, 1, 1);
    let apart = cube(2, 0, 0, 1);
    assert!(a.overlaps(&touching));
    assert!(touching.overlaps(&a));
    assert!(!a.overlaps(&apart));
    assert!(!apart.overlaps(&a));
}

#[test]
fn axis_variants_test_only_their_axes() {
    let a = cube(0, 0, 0, 1);
    let b = AABB::new(Point3::new(0, 5, 0), Point3::new(1, 6, 1));
    assert!(a.overlaps_x(&b));
    assert!(!a.overlaps_y(&b));
    assert!(a.overlaps_z(&b));
    assert!(!a.overlaps_xy(&b));
    assert!(a.overlaps_xz(&b));
    assert!(!a.overlaps_yz(&b));
    assert!(!a.overlaps(&b));
    let c = AABB::new(Point3::new(9, 0, 0), Point3::new(10, 1, 1));
    assert!(!a.overlaps_x(&c));
    assert!(a.overlaps_yz(&c));
    assert!(!a.overlaps_xy(&c));
    assert!(!a.overlaps_xz(&c));
}

#[test]
fn box_overlaps_the_point_box_of_each_point_inside() {
    let a = AABB::new(Point3::new(-2, -2, -2), Point3::new(2, 3, 4));
    for p in [Point3::new(-2, -2, -2), Point3::new(2, 3, 4), Point3::new(0, 1, 3)] {
        assert!(a.overlaps(&AABB::new(p, p)));
        assert!(AABB::new(p, p).overlaps(&a));
    }
    let outside = Point3::new(3, 0, 0);
    assert!(!a.overlaps(&AABB::new(outside, outside)));
}

#[test]
fn size_is_the_product_of_the_extents() {
    let a = AABB::new(Point3::new(-1, 0, 2), Point3::new(2, 4, 7));
    assert_eq!(a.size(), 3 * 4 * 5);
    let flat = AABB::new(Point3::new(0, 0, 0), Point3::new(5, 5, 0));
    assert_eq!(flat.size(), 0);
    let widest = AABB::new(
        Point3::new(i32::MIN, i32::MIN, i32::MIN),
        Point3::new(i32::MAX, i32::MAX, i32::MAX),
    );
    let side: u128 = u32::MAX as u128;
    assert_eq!(widest.size(), side * side * side);
}

#[test]
fn growth_is_the_volume_gained_by_merging() {
    let a = cube(0, 0, 0, 2);
    let b = cube(1, 1, 1, 2);
    assert_eq!(a.growth(&b), 27 - 8);
    assert_eq!(a.growth(&a), 0);
    let inside = cube(0, 0, 0, 1);
    assert_eq!(a.growth(&inside), 0);
}
