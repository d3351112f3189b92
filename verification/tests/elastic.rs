use dualis::{Axis, Block, Face, Waves};

#[test]
fn a_face_names_its_axis_the_same_way_twice() {
    for (face, index, typed) in [
        (Face::XLow, 0, Axis::X),
        (Face::XHigh, 0, Axis::X),
        (Face::YLow, 1, Axis::Y),
        (Face::YHigh, 1, Axis::Y),
        (Face::ZLow, 2, Axis::Z),
        (Face::ZHigh, 2, Axis::Z),
    ] {
        assert_eq!(face.axis(), index, "{face:?} is normal to axis {index}");
        assert_eq!(face.on(), typed, "{face:?} typed");
        assert_eq!(
            face.on().index(),
            face.axis(),
            "{face:?}: the typed axis and the index must not drift apart"
        );
    }
    assert_eq!(Axis::ALL.map(|a| a.index()), [0, 1, 2], "ALL is in order");
}

#[test]
fn only_the_high_faces_are_high() {
    let high: Vec<bool> = [Face::XLow, Face::XHigh, Face::YLow, Face::YHigh, Face::ZLow, Face::ZHigh]
        .iter()
        .map(|f| f.is_high())
        .collect();
    assert_eq!(high, vec![false, true, false, true, false, true]);
}

#[test]
fn a_block_has_one_more_node_than_elements_and_nothing_held() {
    let b = Block::new("cube".to_string(), (2, 3, 4));
    assert_eq!(b.elements(), (2, 3, 4));
    assert_eq!(b.node_counts(), (3, 4, 5));
    assert_eq!(b.free_dofs(), 3 * 3 * 4 * 5);
    assert_eq!(b.name(), "cube");
}

#[test]
fn a_degenerate_count_becomes_one_element() {
    let b = Block::new("flat".to_string(), (0, 1, 0));
    assert_eq!(b.elements(), (1, 1, 1));
    assert_eq!(b.node_counts(), (2, 2, 2));
}

#[test]
fn nodes_are_laid_out_x_fastest() {
    let b = Block::new("b".to_string(), (2, 2, 2));
    assert_eq!(b.node(0, 0, 0), 0);
    assert_eq!(b.node(1, 0, 0), 1);
    assert_eq!(b.node(0, 1, 0), 3);
    assert_eq!(b.node(0, 0, 1), 9);
    assert_eq!(b.node(2, 2, 2), 26);
    // Out-of-range coordinates are brought inside first.
    assert_eq!(b.clamped_node(7, 0, 9), b.node(2, 0, 2));
}

#[test]
fn a_face_lists_its_nodes_x_fastest() {
    let b = Block::new("b".to_string(), (1, 2, 1));
    assert_eq!(
        b.face_nodes(Face::XHigh),
        vec![(1, 0, 0), (1, 1, 0), (1, 2, 0), (1, 0, 1), (1, 1, 1), (1, 2, 1)]
    );
    assert_eq!(
        b.face_nodes(Face::ZLow),
        vec![(0, 0, 0), (1, 0, 0), (0, 1, 0), (1, 1, 0), (0, 2, 0), (1, 2, 0)]
    );
    assert_eq!(b.face_nodes(Face::YLow).len(), 4);
}

#[test]
fn clamping_a_face_holds_three_components_per_node_and_only_those() {
    let mut b = Block::new("b".to_string(), (1, 1, 1));
    b.clamp(Face::XLow);
    // Four nodes have x = 0, three components each.
    assert_eq!(b.free_dofs(), 24 - 12);
    // Clamping again holds nothing new.
    b.clamp(Face::XLow);
    assert_eq!(b.free_dofs(), 12);
    // The opposite face holds the other four nodes.
    b.clamp(Face::XHigh);
    assert_eq!(b.free_dofs(), 0);
}

#[test]
fn a_roller_holds_only_the_normal_component() {
    let mut b = Block::new("b".to_string(), (1, 1, 1));
    b.roller(Face::YHigh);
    // Nodes with y = 1 are 2, 3, 6, 7; only their y component is held.
    assert_eq!(b.free_dofs(), 20);
    // A clamp on the same face adds the two tangential components of those four nodes.
    b.clamp(Face::YHigh);
    assert_eq!(b.free_dofs(), 12);
}

#[test]
fn a_pin_holds_one_node_clamped_into_the_grid() {
    let mut b = Block::new("b".to_string(), (1, 1, 1));
    b.pin(5, 0, 0);
    assert_eq!(b.free_dofs(), 21);
    // (5, 0, 0) was brought inside to (1, 0, 0), so pinning that node again holds nothing new.
    b.pin(1, 0, 0);
    assert_eq!(b.free_dofs(), 21);
}

#[test]
fn the_boundary_of_a_block_is_every_node_but_the_interior() {
    let mut b = Block::new("b".to_string(), (2, 2, 2));
    b.prescribe_boundary();
    // 27 nodes, one interior.
    assert_eq!(b.free_dofs(), 3);
    let mut thin = Block::new("thin".to_string(), (1, 1, 1));
    thin.prescribe_boundary();
    assert_eq!(thin.free_dofs(), 0);
}

#[test]
fn a_traction_gives_interior_nodes_four_quarters_and_corners_one() {
    let b = Block::new("b".to_string(), (2, 2, 2));
    let visits = b.traction_nodes(Face::ZHigh);
    assert_eq!(visits.len(), 16);
    let count = |n: usize| visits.iter().filter(|v| **v == n).count();
    // The face z = 2: its centre node (1, 1, 2) is shared by four face elements.
    assert_eq!(count(b.node(1, 1, 2)), 4);
    assert_eq!(count(b.node(0, 0, 2)), 1);
    assert_eq!(count(b.node(1, 0, 2)), 2);
    // The first element's corners, in order.
    assert_eq!(
        &visits[0..4],
        &[b.node(0, 0, 2), b.node(1, 0, 2), b.node(0, 1, 2), b.node(1, 1, 2)]
    );
}

#[test]
fn holding_and_clamping_hand_back_the_body() {
    let mut w = Waves::new("w".to_string(), (1, 1, 2));
    let elements = w.hold(Axis::X).hold(Axis::Y).clamp_ends(Axis::Z).elements();
    assert_eq!(elements, (1, 1, 2));
    assert_eq!(w.name(), "w");
    assert_eq!(w.node_counts(), (2, 2, 3));
}

#[test]
fn a_fill_reports_how_many_elements_changed() {
    let mut w = Waves::new("laminate".to_string(), (1, 1, 8));
    let changed = w.fill(1, |_, _, e_z| e_z % 2 == 1);
    assert_eq!(changed, 4);
    assert_eq!(w.material_index_at(0, 0, 1), 1);
    assert_eq!(w.material_index_at(0, 0, 2), 0);
}

#[test]
fn filling_with_what_it_already_held_changes_nothing() {
    let mut w = Waves::new("column".to_string(), (1, 1, 16));
    w.hold(Axis::X);
    w.hold(Axis::Y);
    w.clamp_ends(Axis::Z);

    // The column was made of palette entry 0; filling it with entry 0 everywhere changes nothing.
    let changed = w.fill(0, |_, _, _| true);
    assert_eq!(changed, 0, "nothing changed, so nothing is reported changed");

    // A partial fill with the same material is also a no-op.
    assert_eq!(w.fill(0, |_, _, e_z| e_z % 2 == 0), 0);
    assert!((0..16).all(|z| w.material_index_at(0, 0, z) == 0));
}

#[test]
fn a_second_identical_fill_changes_nothing() {
    let mut w = Waves::new("laminate".to_string(), (1, 1, 8));
    w.fill(1, |_, _, e_z| e_z % 2 == 1);
    assert_eq!(w.fill(1, |_, _, e_z| e_z % 2 == 1), 0);
    assert_eq!(w.fill(0, |_, _, e_z| e_z % 2 == 0), 0);
}
