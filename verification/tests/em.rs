use dualis::{Boundary, Cavity, Component, Wall};

#[test]
fn every_face_starts_conducting_and_each_can_be_opened() {
    let mut c = Cavity::new("box".to_string(), (4, 3, 2));
    for wall in Wall::ALL {
        assert_eq!(c.boundary(wall), Boundary::Conducting);
    }
    c.set_boundary(Wall::XLow, Boundary::Magnetic);
    assert_eq!(c.boundary(Wall::XLow), Boundary::Magnetic);
    assert_eq!(c.boundary(Wall::XHigh), Boundary::Conducting);
    c.open();
    for wall in Wall::ALL {
        assert_eq!(c.boundary(wall), Boundary::Open);
    }
}

#[test]
fn walls_are_in_index_order() {
    let indices: Vec<usize> = Wall::ALL.iter().map(|w| w.index()).collect();
    assert_eq!(indices, vec![0, 1, 2, 3, 4, 5]);
}

#[test]
fn each_component_has_its_staggered_extent() {
    let c = Cavity::new("box".to_string(), (4, 3, 2));
    assert_eq!(c.extent(Component::Ex), (4, 4, 3));
    assert_eq!(c.extent(Component::Ey), (5, 3, 3));
    assert_eq!(c.extent(Component::Ez), (5, 4, 2));
    assert_eq!(c.extent(Component::Hx), (5, 3, 2));
    assert_eq!(c.extent(Component::Hy), (4, 4, 2));
    assert_eq!(c.extent(Component::Hz), (4, 3, 3));
    assert_eq!(c.len(Component::Ex), 48);
    assert_eq!(c.len(Component::Hz), 36);
    assert_eq!(c.index(Component::Ex, 1, 2, 1), 1 + 4 * (2 + 4 * 1));
    assert_eq!(c.index(Component::Ey, 4, 2, 2), c.len(Component::Ey) - 1);
}

#[test]
fn a_zero_count_becomes_one_cell() {
    let c = Cavity::new("box".to_string(), (0, 2, 0));
    assert_eq!(c.counts(), (1, 2, 1));
}

#[test]
fn a_conducting_wall_names_its_tangential_samples() {
    let c = Cavity::new("box".to_string(), (2, 2, 2));
    let (ey, ez) = c.tangential_pairs(Wall::XHigh);
    // Ey on x = 2: j in 0..2, k in 0..=2; one cell in is x = 1.
    assert_eq!(ey.len(), 6);
    assert_eq!(ey[0], (c.index(Component::Ey, 2, 0, 0), c.index(Component::Ey, 1, 0, 0)));
    assert_eq!(ey[5], (c.index(Component::Ey, 2, 1, 2), c.index(Component::Ey, 1, 1, 2)));
    assert_eq!(ez.len(), 6);
    assert_eq!(ez[1], (c.index(Component::Ez, 2, 1, 0), c.index(Component::Ez, 1, 1, 0)));
    let (ex, ey) = c.tangential_pairs(Wall::ZLow);
    assert_eq!(ex[0], (c.index(Component::Ex, 0, 0, 0), c.index(Component::Ex, 0, 0, 1)));
    assert_eq!(ey.len(), 6);
}

#[test]
fn a_sample_at_a_wall_averages_the_cells_inside() {
    let c = Cavity::new("box".to_string(), (2, 2, 2));
    // Ex at (0, 0, 0) sits on the box's edge: all four neighbours clamp to cell (0, 0, 0).
    assert_eq!(c.electric_cells(Component::Ex, 0, 0, 0), [0, 0, 0, 0]);
    // An interior Ex edge touches four distinct cells.
    assert_eq!(c.electric_cells(Component::Ex, 1, 1, 1), [1, 3, 5, 7]);
    // Hz at k = 2 lies on the far z wall of a two-cell-deep box: it borders no cell.
    assert_eq!(c.magnetic_cells(Component::Hz, 1, 1, 2), None);
    assert_eq!(c.magnetic_cells(Component::Hz, 1, 1, 1), Some([3, 7]));
    assert_eq!(c.magnetic_cells(Component::Hx, 0, 1, 1), Some([6, 6]));
    assert_eq!(c.magnetic_cells(Component::Hx, 2, 1, 1), None);
    assert_eq!(c.cell_at(-3, 5, 1), 1 * 2 * 2 + 2);
}

#[test]
fn a_field_is_read_at_the_nearest_sample() {
    let c = Cavity::new("box".to_string(), (3, 2, 2));
    assert_eq!(c.nearest(Component::Ex, 9, 9, 9), c.index(Component::Ex, 2, 2, 2));
    assert_eq!(c.nearest(Component::Hz, 1, 9, 0), c.index(Component::Hz, 1, 1, 0));
    assert_eq!(c.nearest(Component::Ey, 0, 0, 0), 0);
}

#[test]
fn no_wall_sample_is_its_own_inner_neighbour() {
    let c = Cavity::new("box".to_string(), (1, 1, 1));
    for wall in Wall::ALL {
        let (first, second) = c.tangential_pairs(wall);
        assert_eq!(first.len(), 2);
        assert_eq!(second.len(), 2);
        for (edge, inner) in first.iter().chain(second.iter()) {
            assert_ne!(edge, inner);
        }
    }
}

#[test]
fn a_slab_goes_into_the_box_by_cell_index() {
    let mut c = Cavity::new("box".to_string(), (4, 2, 2));
    assert_eq!(c.medium_at(3, 1, 1), 0);
    // The upper half in x becomes medium 1; the fill hands the box back.
    let counts = c.fill(1, |i, _, _| i >= 2).counts();
    assert_eq!(counts, (4, 2, 2));
    assert_eq!(c.medium_at(1, 1, 1), 0);
    assert_eq!(c.medium_at(2, 0, 0), 1);
    // A grid point past the far corner reads the corner cell.
    assert_eq!(c.medium_at(9, 9, 9), 1);
    // Fills chain, and a later one overwrites an earlier one where they overlap.
    c.fill(2, |_, j, _| j == 0).fill(3, |i, _, k| i == 0 && k == 1);
    assert_eq!(c.medium_at(0, 0, 0), 2);
    assert_eq!(c.medium_at(0, 0, 1), 3);
    assert_eq!(c.medium_at(2, 1, 0), 1);
    // The walls are left as they were.
    assert_eq!(c.boundary(Wall::ZHigh), Boundary::Conducting);
}

#[test]
fn boundaries_chain_and_read_back() {
    let mut c = Cavity::new("box".to_string(), (2, 2, 2));
    c.set_boundary(Wall::XLow, Boundary::Open).set_boundary(Wall::ZHigh, Boundary::Magnetic);
    assert_eq!(c.boundary(Wall::XLow), Boundary::Open);
    assert_eq!(c.boundary(Wall::ZHigh), Boundary::Magnetic);
    assert_eq!(c.boundary(Wall::YLow), Boundary::Conducting);
    c.open().set_boundary(Wall::YHigh, Boundary::Conducting);
    assert_eq!(c.boundary(Wall::ZHigh), Boundary::Open);
    assert_eq!(c.boundary(Wall::YHigh), Boundary::Conducting);
}

fn numbered(len: usize) -> Vec<u32> {
    (0..len as u32).collect()
}

#[test]
fn a_magnetic_wall_mirrors_the_tangential_field_from_one_cell_in() {
    let mut c = Cavity::new("box".to_string(), (2, 2, 2));
    c.open().set_boundary(Wall::XLow, Boundary::Magnetic);
    let (mut ex, mut ey, mut ez) = (
        numbered(c.len(Component::Ex)),
        numbered(c.len(Component::Ey)),
        numbered(c.len(Component::Ez)),
    );
    c.mirror_magnetic_walls(&mut ex, &mut ey, &mut ez);
    // Ex is normal to the x walls: untouched.
    assert_eq!(ex, numbered(c.len(Component::Ex)));
    for k in 0..3 {
        for j in 0..2 {
            assert_eq!(ey[c.index(Component::Ey, 0, j, k)], c.index(Component::Ey, 1, j, k) as u32);
            assert_eq!(ey[c.index(Component::Ey, 2, j, k)], c.index(Component::Ey, 2, j, k) as u32);
        }
    }
    for k in 0..2 {
        for j in 0..3 {
            assert_eq!(ez[c.index(Component::Ez, 0, j, k)], c.index(Component::Ez, 1, j, k) as u32);
        }
    }
}

#[test]
fn magnetic_walls_are_visited_in_order_so_a_corner_reads_diagonally_in() {
    let mut c = Cavity::new("box".to_string(), (2, 2, 2));
    c.open()
        .set_boundary(Wall::XLow, Boundary::Magnetic)
        .set_boundary(Wall::ZLow, Boundary::Magnetic);
    let (mut ex, mut ey, mut ez) = (
        numbered(c.len(Component::Ex)),
        numbered(c.len(Component::Ey)),
        numbered(c.len(Component::Ez)),
    );
    c.mirror_magnetic_walls(&mut ex, &mut ey, &mut ez);
    // Ey at the x = 0, z = 0 edge: x first copies from x = 1, then z copies from z = 1, which
    // x had already filled from (1, j, 1).
    for j in 0..2 {
        assert_eq!(ey[c.index(Component::Ey, 0, j, 0)], c.index(Component::Ey, 1, j, 1) as u32);
    }
    // Ex on z = 0 comes from z = 1; x = 0 does not touch Ex.
    assert_eq!(ex[c.index(Component::Ex, 1, 2, 0)], c.index(Component::Ex, 1, 2, 1) as u32);
}

#[test]
fn a_conducting_wall_holds_its_tangential_field_at_zero() {
    let mut c = Cavity::new("box".to_string(), (2, 2, 2));
    c.open().set_boundary(Wall::XHigh, Boundary::Conducting);
    let (mut ex, mut ey, mut ez) = (vec![7; c.len(Component::Ex)], vec![7; c.len(Component::Ey)], vec![7; c.len(Component::Ez)]);
    c.enforce_walls_where(0, Boundary::Conducting, &mut ex, &mut ey, &mut ez);
    assert!(ex.iter().all(|v| *v == 7));
    for k in 0..3 {
        for j in 0..2 {
            assert_eq!(ey[c.index(Component::Ey, 2, j, k)], 0);
            assert_eq!(ey[c.index(Component::Ey, 1, j, k)], 7);
        }
    }
    assert_eq!(ez.iter().filter(|v| **v == 0).count(), 3 * 2);
}

#[test]
fn holding_every_wall_leaves_only_interior_samples() {
    let c = Cavity::new("box".to_string(), (2, 2, 2));
    let (mut ex, mut ey, mut ez) = (vec![7; c.len(Component::Ex)], vec![7; c.len(Component::Ey)], vec![7; c.len(Component::Ez)]);
    c.enforce_walls(0, &mut ex, &mut ey, &mut ez);
    // Ex (2 x 3 x 3): only y = 1, z = 1 is off the walls.
    assert_eq!(ex.iter().filter(|v| **v == 7).count(), 2);
    assert_eq!(ex[c.index(Component::Ex, 0, 1, 1)], 7);
    assert_eq!(ey.iter().filter(|v| **v == 7).count(), 2);
    assert_eq!(ez.iter().filter(|v| **v == 7).count(), 2);
}
