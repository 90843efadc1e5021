use pipemania::grid::neighbor_of;
use pipemania::pipe::{mask_opens, opposite_side, turn_mask, Pipe};

#[test]
fn base_masks_of_the_shapes() {
    assert_eq!(Pipe::new(0, 0).open_sides(), 0b0001);
    assert_eq!(Pipe::new(1, 0).open_sides(), 0b0011);
    assert_eq!(Pipe::new(2, 0).open_sides(), 0b0101);
    assert_eq!(Pipe::new(3, 0).open_sides(), 0b1110);
    assert_eq!(Pipe::new(4, 0).open_sides(), 0b1111);
    assert_eq!(Pipe::new(5, 0).open_sides(), 0);
    assert_eq!(Pipe::new(9, 3).open_sides(), 0);
}

#[test]
fn turning_rotates_the_mask() {
    assert_eq!(Pipe::new(0, 1).open_sides(), 0b0010);
    assert_eq!(Pipe::new(0, 2).open_sides(), 0b0100);
    assert_eq!(Pipe::new(0, 3).open_sides(), 0b1000);
    assert_eq!(Pipe::new(1, 1).open_sides(), 0b0110);
    assert_eq!(Pipe::new(1, 2).open_sides(), 0b1100);
    assert_eq!(Pipe::new(1, 3).open_sides(), 0b1001);
    assert_eq!(Pipe::new(2, 1).open_sides(), 0b1010);
    assert_eq!(Pipe::new(2, 2).open_sides(), 0b0101);
    assert_eq!(Pipe::new(3, 1).open_sides(), 0b1101);
    assert_eq!(Pipe::new(3, 2).open_sides(), 0b1011);
    assert_eq!(Pipe::new(3, 3).open_sides(), 0b0111);
    for dir in 0..4 {
        assert_eq!(Pipe::new(4, dir).open_sides(), 0b1111);
    }
    assert_eq!(turn_mask(0b1001, 1), 0b0011);
    assert_eq!(turn_mask(0b1000, 3), 0b0100);
}

#[test]
fn new_tile_reduces_the_turn() {
    let pipe = Pipe::new(1, 6);
    assert_eq!(pipe.dir, 2);
    assert_eq!(pipe.kind, 1);
    assert_eq!(pipe.target_color, 0);
}

#[test]
fn click_turns_by_a_quarter() {
    let mut pipe = Pipe::new(0, 0);
    pipe.click(true);
    assert_eq!(pipe.dir, 1);
    pipe.click(true);
    pipe.click(true);
    assert_eq!(pipe.dir, 3);
    pipe.click(true);
    assert_eq!(pipe.dir, 0);
    pipe.click(false);
    assert_eq!(pipe.dir, 3);
    pipe.click(false);
    assert_eq!(pipe.dir, 2);
    assert_eq!(pipe.kind, 0);
}

#[test]
fn four_clicks_come_back() {
    for kind in 0..6u8 {
        for dir in 0..4u8 {
            let mut pipe = Pipe::new(kind, dir);
            let mask = pipe.open_sides();
            for _ in 0..4 {
                pipe.click(true);
            }
            assert_eq!(pipe.open_sides(), mask);
            pipe.click(true);
            pipe.click(false);
            assert_eq!(pipe.open_sides(), mask);
        }
    }
}

#[test]
fn connects_towards_reads_the_mask() {
    let tee = Pipe::new(3, 0);
    assert!(!tee.connects_towards(0));
    assert!(tee.connects_towards(1));
    assert!(tee.connects_towards(2));
    assert!(tee.connects_towards(3));
    let end = Pipe::new(0, 3);
    assert!(end.connects_towards(3));
    assert!(!end.connects_towards(0));
    assert!(mask_opens(0b0100, 2));
    assert!(!mask_opens(0b0100, 1));
}

#[test]
fn shares_edge_needs_both_sides() {
    let east = Pipe::new(0, 0);
    let west = Pipe::new(0, 2);
    let north = Pipe::new(0, 3);
    assert!(east.shares_edge_with(&west, 0));
    assert!(!east.shares_edge_with(&north, 0));
    assert!(!north.shares_edge_with(&west, 0));
    assert!(!east.shares_edge_with(&west, 1));
    assert!(west.shares_edge_with(&east, 2));
}

#[test]
fn opposite_sides() {
    assert_eq!(opposite_side(0), 2);
    assert_eq!(opposite_side(1), 3);
    assert_eq!(opposite_side(2), 0);
    assert_eq!(opposite_side(3), 1);
}

#[test]
fn change_color_tells_a_change() {
    let mut pipe = Pipe::new(2, 1);
    assert!(pipe.change_color(7));
    assert_eq!(pipe.target_color, 7);
    assert!(!pipe.change_color(7));
    assert_eq!(pipe.dir, 1);
    assert_eq!(pipe.kind, 2);
}

#[test]
fn neighbors_inside_the_grid() {
    assert_eq!(neighbor_of(3, 3, 4, 0), Some(5));
    assert_eq!(neighbor_of(3, 3, 4, 1), Some(7));
    assert_eq!(neighbor_of(3, 3, 4, 2), Some(3));
    assert_eq!(neighbor_of(3, 3, 4, 3), Some(1));
}

#[test]
fn neighbors_end_at_the_rim() {
    assert_eq!(neighbor_of(3, 3, 0, 2), None);
    assert_eq!(neighbor_of(3, 3, 0, 3), None);
    assert_eq!(neighbor_of(3, 3, 2, 0), None);
    assert_eq!(neighbor_of(3, 3, 3, 2), None);
    assert_eq!(neighbor_of(3, 3, 8, 0), None);
    assert_eq!(neighbor_of(3, 3, 8, 1), None);
    assert_eq!(neighbor_of(3, 3, 6, 1), None);
}

#[test]
fn rows_do_not_wrap_in_narrow_grids() {
    assert_eq!(neighbor_of(2, 2, 1, 0), None);
    assert_eq!(neighbor_of(2, 2, 2, 2), None);
    assert_eq!(neighbor_of(2, 2, 0, 0), Some(1));
    assert_eq!(neighbor_of(1, 3, 1, 0), None);
    assert_eq!(neighbor_of(1, 3, 1, 2), None);
    assert_eq!(neighbor_of(1, 3, 1, 1), Some(2));
    assert_eq!(neighbor_of(1, 3, 1, 3), Some(0));
    for side in 0..4 {
        assert_eq!(neighbor_of(1, 1, 0, side), None);
    }
}
