use symbios_ground::{Direction, GridShape};

#[test]
fn grid_index_is_row_major() {
    let g = GridShape::new(8, 4);
    assert_eq!(g.width(), 8);
    assert_eq!(g.height(), 4);
    assert_eq!(g.len(), 32);
    assert_eq!(g.index(0, 0), 0);
    assert_eq!(g.index(3, 2), 19);
    assert_eq!(g.index(7, 3), 31);
}

#[test]
fn grid_get_set_roundtrip_through_index() {
    let g = GridShape::new(8, 8);
    let mut buf = vec![0.0f32; g.len()];
    buf[g.index(3, 5)] = 0.75;
    assert!((buf[g.index(3, 5)] - 0.75).abs() < f32::EPSILON);
    let written = buf.iter().filter(|v| **v != 0.0).count();
    assert_eq!(written, 1);
}

#[test]
fn grid_clamped_index_clamps_to_edges() {
    let g = GridShape::new(4, 4);
    assert_eq!(g.clamped_index(-100, -100), 0);
    assert_eq!(g.clamped_index(100, 100), 15);
    assert_eq!(g.clamped_index(2, -1), 2);
    assert_eq!(g.clamped_index(-1, 2), 8);
    assert_eq!(g.clamped_index(1, 1), 5);
}

#[test]
fn grid_step_stops_at_the_border() {
    let g = GridShape::new(5, 3);
    assert_eq!(g.step(0, 0, Direction::PosX, 1), Some(1));
    assert_eq!(g.step(0, 0, Direction::NegX, 1), None);
    assert_eq!(g.step(0, 0, Direction::PosZ, 2), Some(10));
    assert_eq!(g.step(0, 0, Direction::PosZ, 3), None);
    assert_eq!(g.step(4, 2, Direction::PosX, 1), None);
    assert_eq!(g.step(4, 2, Direction::NegZ, 2), Some(4));
    assert_eq!(g.step(2, 1, Direction::NegX, 2), Some(5));
}

#[test]
fn grid_quad_lists_the_two_by_two_block() {
    let g = GridShape::new(5, 4);
    assert_eq!(g.quad(1, 2), [11, 12, 16, 17]);
}

#[test]
fn grid_window_lists_in_bounds_cells_row_by_row() {
    let g = GridShape::new(4, 4);
    let cells = g.window(0, 0, 1, false);
    let offs: Vec<(i32, i32, usize)> = cells.iter().map(|c| (c.dx, c.dz, c.index)).collect();
    assert_eq!(offs, vec![(0, 0, 0), (1, 0, 1), (0, 1, 4), (1, 1, 5)]);

    let full = g.window(1, 1, 1, false);
    assert_eq!(full.len(), 9);
    let idx: Vec<usize> = full.iter().map(|c| c.index).collect();
    assert_eq!(idx, vec![0, 1, 2, 4, 5, 6, 8, 9, 10]);
}

#[test]
fn grid_window_ring_only_keeps_the_border() {
    let g = GridShape::new(5, 5);
    let ring = g.window(2, 2, 1, true);
    let idx: Vec<usize> = ring.iter().map(|c| c.index).collect();
    assert_eq!(idx, vec![6, 7, 8, 11, 13, 16, 17, 18]);
    let centre = g.window(2, 2, 0, true);
    assert_eq!(centre.len(), 1);
    assert_eq!(centre[0].index, 12);
    let outer = g.window(0, 0, 2, true);
    let idx: Vec<usize> = outer.iter().map(|c| c.index).collect();
    assert_eq!(idx, vec![2, 7, 10, 11, 12]);
}

#[test]
fn grid_window_negative_radius_is_empty() {
    let g = GridShape::new(3, 3);
    assert!(g.window(1, 1, -1, false).is_empty());
}
