use oif_sim::cell::{bpos_facing_toward, rotate_facing, rotate_offset_y, rotate_pos_y, signal_offsets, Cell, Facing};

#[test]
fn forward_offsets_match_compass() {
    assert_eq!(Facing::North.forward_ivec3(), Cell::new(0, 0, -1));
    assert_eq!(Facing::East.forward_ivec3(), Cell::new(1, 0, 0));
    assert_eq!(Facing::South.forward_ivec3(), Cell::new(0, 0, 1));
    assert_eq!(Facing::West.forward_ivec3(), Cell::new(-1, 0, 0));
}

#[test]
fn clockwise_turn_of_north_offset_is_east() {
    let north = Facing::North.forward_ivec3();
    assert_eq!(rotate_offset_y(north, true), Facing::East.forward_ivec3());
    assert_eq!(rotate_offset_y(north, false), Facing::West.forward_ivec3());
    assert_eq!(rotate_facing(Facing::North, true), Facing::East);
    assert_eq!(rotate_facing(Facing::North, false), Facing::West);
}

#[test]
fn rotate_about_pivot_and_back() {
    let pivot = Cell::new(2, 5, -1);
    let pos = Cell::new(4, 7, 0);
    let turned = rotate_pos_y(pos, pivot, true);
    assert_eq!(turned, Cell::new(1, 7, 1));
    assert_eq!(rotate_pos_y(turned, pivot, false), pos);
    assert_eq!(rotate_pos_y(pivot, pivot, true), pivot);
}

#[test]
fn six_neighbour_offsets_in_order() {
    let o = signal_offsets();
    assert_eq!(o[0], Cell::new(1, 0, 0));
    assert_eq!(o[3], Cell::new(0, -1, 0));
    assert_eq!(o[5], Cell::new(0, 0, -1));
}

#[test]
fn facing_toward_target() {
    assert!(bpos_facing_toward(Cell::new(1, 1, 1), Cell::new(1, 0, 0), Cell::new(2, 1, 1)));
    assert!(!bpos_facing_toward(Cell::new(1, 1, 1), Cell::new(1, 0, 0), Cell::new(0, 1, 1)));
}
