use rigid_physics::gjk::{add_or_remove, edge_between, minmax};

#[test]
fn minmax_orders_its_arguments() {
    assert_eq!(minmax(3, 5), (3, 5));
    assert_eq!(minmax(5, 3), (3, 5));
    assert_eq!(minmax(4, 4), (4, 4));
    assert_eq!(minmax("b", "a"), ("a", "b"));
}

#[test]
fn edge_between_puts_the_smaller_vertex_first() {
    assert_eq!(edge_between(7, 2), (2, 7));
    assert_eq!(edge_between(2, 7), (2, 7));
}

#[test]
fn add_or_remove_adds_a_missing_edge_at_the_end() {
    let mut edges = vec![(0, 1), (1, 2)];
    add_or_remove(&mut edges, (0, 2));
    assert_eq!(edges, vec![(0, 1), (1, 2), (0, 2)]);
}

#[test]
fn add_or_remove_removes_a_present_edge_by_swapping_in_the_last() {
    let mut edges = vec![(0, 1), (1, 2), (0, 2), (2, 3)];
    add_or_remove(&mut edges, (0, 1));
    assert_eq!(edges, vec![(2, 3), (1, 2), (0, 2)]);
    add_or_remove(&mut edges, (0, 2));
    assert_eq!(edges, vec![(2, 3), (1, 2)]);
}

#[test]
fn adding_twice_leaves_the_list_as_it_was() {
    let mut edges = vec![(0, 1)];
    add_or_remove(&mut edges, (4, 5));
    add_or_remove(&mut edges, (4, 5));
    assert_eq!(edges, vec![(0, 1)]);
}

fn face(vertices: [usize; 3], visible: bool) -> rigid_physics::gjk::PolytopeFace<u32> {
    rigid_physics::gjk::PolytopeFace { vertices, closest: 0, visible }
}

#[test]
fn the_expansion_starts_from_the_four_faces_of_a_tetrahedron() {
    assert_eq!(
        rigid_physics::gjk::tetrahedron_faces(),
        vec![[0, 1, 2], [0, 2, 3], [0, 3, 1], [1, 2, 3]]
    );
}

#[test]
fn removing_one_face_leaves_its_three_sides_as_the_hole() {
    let mut faces = vec![
        face([0, 1, 2], false),
        face([0, 2, 3], true),
        face([0, 3, 1], false),
        face([1, 2, 3], false),
    ];
    let mut edges = rigid_physics::gjk::remove_visible_faces(&mut faces);
    edges.sort_unstable();
    assert_eq!(edges, vec![(0, 2), (0, 3), (2, 3)]);
    let mut left: Vec<[usize; 3]> = faces.iter().map(|f| f.vertices).collect();
    left.sort_unstable();
    assert_eq!(left, vec![[0, 1, 2], [0, 3, 1], [1, 2, 3]]);
    assert!(faces.iter().all(|f| !f.visible));
}

#[test]
fn an_edge_between_two_removed_faces_is_no_edge_of_the_hole() {
    let mut faces = vec![
        face([0, 1, 2], true),
        face([0, 2, 3], true),
        face([0, 3, 1], false),
        face([1, 2, 3], false),
    ];
    let mut edges = rigid_physics::gjk::remove_visible_faces(&mut faces);
    edges.sort_unstable();
    assert_eq!(edges, vec![(0, 1), (0, 3), (1, 2), (2, 3)]);
    assert_eq!(faces.len(), 2);
}

#[test]
fn removing_every_face_leaves_no_hole_and_no_face() {
    let mut faces = vec![
        face([0, 1, 2], true),
        face([0, 2, 3], true),
        face([0, 3, 1], true),
        face([1, 2, 3], true),
    ];
    let edges = rigid_physics::gjk::remove_visible_faces(&mut faces);
    assert!(edges.is_empty());
    assert!(faces.is_empty());
}

#[test]
fn removing_nothing_changes_nothing() {
    let mut faces = vec![face([0, 1, 2], false), face([0, 2, 3], false)];
    let edges = rigid_physics::gjk::remove_visible_faces(&mut faces);
    assert!(edges.is_empty());
    let left: Vec<[usize; 3]> = faces.iter().map(|f| f.vertices).collect();
    assert_eq!(left, vec![[0, 1, 2], [0, 2, 3]]);
}

#[test]
fn removed_faces_are_replaced_by_the_last_face() {
    let mut faces = vec![
        face([0, 1, 2], true),
        face([0, 2, 3], false),
        face([0, 3, 1], false),
        face([1, 2, 3], false),
    ];
    let edges = rigid_physics::gjk::remove_visible_faces(&mut faces);
    assert_eq!(edges, vec![(0, 1), (1, 2), (0, 2)]);
    let left: Vec<[usize; 3]> = faces.iter().map(|f| f.vertices).collect();
    assert_eq!(left, vec![[1, 2, 3], [0, 2, 3], [0, 3, 1]]);
}

#[test]
fn each_edge_of_the_hole_gets_a_face_to_the_new_vertex() {
    let edges = vec![(0, 2), (2, 3), (0, 3)];
    assert_eq!(
        rigid_physics::gjk::horizon_faces(&edges, 4),
        vec![[0, 2, 4], [2, 3, 4], [0, 3, 4]]
    );
    assert!(rigid_physics::gjk::horizon_faces(&Vec::new(), 4).is_empty());
}

#[test]
fn iteration_limits_have_their_values() {
    assert_eq!(rigid_physics::gjk::EPA_MAX_ITER, 1000);
    assert_eq!(rigid_physics::gjk::GJK_MAX_ITER, 12);
    assert_eq!(rigid_physics::gjk::SIMPLEX_MAX_DIM, 4);
}
