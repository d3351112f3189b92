use dualis::{Axis, Hall, Room};

#[test]
fn a_hall_has_one_face_fewer_than_nodes_along_each_axis() {
    let h = Hall::new("hall".to_string(), (4, 3, 2));
    assert_eq!(h.nodes(), (4, 3, 2));
    assert_eq!(h.face_count(Axis::X), 3 * 3 * 2);
    assert_eq!(h.face_count(Axis::Y), 4 * 2 * 2);
    assert_eq!(h.face_count(Axis::Z), 4 * 3);
    assert_eq!(h.name(), "hall");
}

#[test]
fn a_flat_hall_has_no_faces_across_its_flat_axis() {
    // A zero extent is one node and no faces along that axis.
    let h = Hall::new("flat".to_string(), (0, 5, 0));
    assert_eq!(h.nodes(), (2, 5, 1));
    assert_eq!(h.face_count(Axis::Z), 0);
    assert_eq!(h.faces_around(0, 2, 0), [None, Some(2 * 1), Some(2), Some(4), None, None]);
}

#[test]
fn hall_nodes_and_faces_are_laid_out_x_fastest() {
    let h = Hall::new("hall".to_string(), (4, 3, 2));
    assert_eq!(h.node(1, 2, 1), 1 + 4 * (2 + 3 * 1));
    assert_eq!(h.clamped_node(9, 9, 9), 4 * 3 * 2 - 1);
    assert_eq!(h.face(Axis::X, 2, 1, 1), 2 + 3 * (1 + 3 * 1));
    assert_eq!(h.face(Axis::Y, 3, 1, 0), 3 + 4 * 1);
    assert_eq!(h.face(Axis::Z, 0, 0, 0), 0);
}

#[test]
fn a_corner_has_three_walls_and_no_outward_faces() {
    let h = Hall::new("hall".to_string(), (4, 3, 3));
    assert_eq!(h.walls_touched(0, 0, 0), 3);
    assert_eq!(h.walls_touched(1, 0, 0), 2);
    assert_eq!(h.walls_touched(1, 1, 0), 1);
    assert_eq!(h.walls_touched(1, 1, 1), 0);
    let around = h.faces_around(0, 0, 0);
    assert_eq!(around[0], None);
    assert_eq!(around[2], None);
    assert_eq!(around[4], None);
    assert!(around[1].is_some() && around[3].is_some() && around[5].is_some());
}

#[test]
fn neighbouring_hall_nodes_share_the_face_between_them() {
    let h = Hall::new("hall".to_string(), (4, 3, 3));
    assert_eq!(h.faces_around(1, 1, 1)[1], h.faces_around(2, 1, 1)[0]);
    assert_eq!(h.faces_around(1, 1, 1)[3], h.faces_around(1, 2, 1)[2]);
    assert_eq!(h.faces_around(1, 1, 1)[5], h.faces_around(1, 1, 2)[4]);
}

#[test]
fn a_room_is_at_least_three_cells_each_way() {
    let r = Room::new("room".to_string(), (1, 10));
    assert_eq!(r.cells(), (3, 10));
    assert_eq!(r.face_count(false), 2 * 10);
    assert_eq!(r.face_count(true), 3 * 9);
    assert_eq!(r.cell(2, 4), 4 * 3 + 2);
    assert_eq!(r.cell(7, 70), 9 * 3 + 2);
    assert_eq!(r.name(), "room");
}

#[test]
fn room_walls_pass_nothing_and_neighbours_share_faces() {
    let r = Room::new("room".to_string(), (4, 3));
    assert_eq!(r.faces_around(0, 0), [None, Some(0), None, Some(0)]);
    assert_eq!(r.faces_around(3, 2), [Some(2 * 3 + 2), None, Some(4 + 3), None]);
    assert_eq!(r.faces_around(1, 1)[1], r.faces_around(2, 1)[0]);
    assert_eq!(r.faces_around(1, 1)[3], r.faces_around(1, 2)[2]);
}
