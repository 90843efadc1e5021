use pipemania::board::GameBoard;
use pipemania::colors::{find_color, find_id, sort_by_count};
use rand::rngs::SmallRng;
use rand::SeedableRng;

fn board_of(width: u8, height: u8, maze: Vec<u8>) -> GameBoard {
    let mut board = GameBoard::new(SmallRng::seed_from_u64(7));
    let turns = vec![0u8; maze.len()];
    board.load_level(width, height, &maze, &turns);
    board
}

fn colors_in_order(board: &GameBoard) -> bool {
    let cells = board.pipes.len();
    for a in 0..cells {
        for b in 0..cells {
            let same_color = board.pipes[a].target_color == board.pipes[b].target_color;
            let same_region = board.regions[a] == board.regions[b];
            if same_color != same_region {
                return false;
            }
        }
        if board.color_pool.contains(&board.pipes[a].target_color) {
            return false;
        }
        if board.pipes[a].target_color > board.number_colors {
            return false;
        }
    }
    for (k, color) in board.color_pool.iter().enumerate() {
        if board.color_pool[..k].contains(color) || *color > board.number_colors {
            return false;
        }
    }
    true
}

#[test]
fn next_color_counts_up_with_an_empty_pool() {
    let mut board = GameBoard::new(SmallRng::seed_from_u64(1));
    assert_eq!(board.next_color(), 1);
    assert_eq!(board.next_color(), 2);
    assert_eq!(board.number_colors, 2);
}

#[test]
fn next_color_takes_the_last_of_the_pool() {
    let mut board = GameBoard::new(SmallRng::seed_from_u64(1));
    board.number_colors = 9;
    board.color_pool = vec![4, 0, 7];
    assert_eq!(board.next_color(), 7);
    assert_eq!(board.next_color(), 0);
    assert_eq!(board.color_pool, vec![4]);
    assert_eq!(board.number_colors, 9);
    assert_eq!(board.next_color(), 4);
    assert_eq!(board.next_color(), 10);
}

#[test]
fn add_color_to_pool_skips_repeats() {
    let mut board = GameBoard::new(SmallRng::seed_from_u64(1));
    board.add_color_to_pool(0);
    board.add_color_to_pool(5);
    board.add_color_to_pool(0);
    assert_eq!(board.color_pool, vec![0, 5]);
}

#[test]
fn remove_color_from_pool_fills_the_gap_with_the_last() {
    let mut board = GameBoard::new(SmallRng::seed_from_u64(1));
    board.color_pool = vec![3, 1, 4, 5];
    board.remove_color_from_pool(1);
    assert_eq!(board.color_pool, vec![3, 5, 4]);
    board.remove_color_from_pool(4);
    assert_eq!(board.color_pool, vec![3, 5]);
    board.remove_color_from_pool(3);
    assert_eq!(board.color_pool, vec![5]);
}

#[test]
fn paint_colors_one_region() {
    let mut board = board_of(3, 2, vec![0b0001, 0b0100, 0b0010, 0, 0, 0b1000]);
    board.paint(2, 40);
    let colors: Vec<u16> = board.pipes.iter().map(|p| p.target_color).collect();
    assert_eq!(colors, vec![0, 0, 40, 2, 3, 40]);
}

#[test]
fn sort_by_count_is_stable() {
    let mut list = vec![(1, 10, 3), (2, 11, 1), (3, 12, 3), (4, 13, 2), (5, 14, 1)];
    sort_by_count(&mut list);
    assert_eq!(list, vec![(2, 11, 1), (5, 14, 1), (4, 13, 2), (1, 10, 3), (3, 12, 3)]);
    let mut none: Vec<(u16, u16, u32)> = vec![];
    sort_by_count(&mut none);
    assert!(none.is_empty());
}

#[test]
fn find_color_looks_from_the_start_given() {
    let list = vec![(1, 10, 3), (2, 11, 1), (3, 10, 3)];
    assert_eq!(find_color(&list, 0, 10), Some(0));
    assert_eq!(find_color(&list, 1, 10), Some(2));
    assert_eq!(find_color(&list, 3, 10), None);
    assert_eq!(find_color(&list, 0, 12), None);
    assert_eq!(find_id(&vec![5, 6, 5], 5), Some(0));
    assert_eq!(find_id(&vec![5, 6, 5], 7), None);
}

#[test]
fn gather_notes_colors_by_region() {
    let mut board = board_of(3, 2, vec![0b0001, 0b0100, 0b0010, 0, 0, 0b1000]);
    board.pipes[2].target_color = 8;
    let (list, used) = board.gather_colors(&vec![(5, 2), (0, 9), (1, 1), (0, 1)]);
    assert_eq!(used, vec![2, 1]);
    assert_eq!(list, vec![(2, 8, 1), (2, 1, 1), (1, 0, 2)]);
    assert_eq!(board.color_pool, vec![8, 1, 0]);
}

#[test]
fn split_region_keeps_its_color_in_one_part() {
    let mut board = board_of(4, 1, vec![0b0001, 0b0101, 0b0100, 0]);
    assert_eq!(board.regions, vec![1, 1, 1, 2]);
    board.pipes[1].click(true);
    board.update_regions(1);
    let colors: Vec<u16> = board.pipes.iter().map(|p| p.target_color).collect();
    // the turned tile is noted last and is the first to take the colour;
    // its neighbours get new ones
    assert_eq!(colors, vec![4, 0, 3, 1]);
    assert!(colors_in_order(&board));
}

#[test]
fn larger_part_keeps_the_color() {
    // a row of five: four linked cells and a fifth that opens north
    let mut board = board_of(5, 1, vec![0b0001, 0b0101, 0b0101, 0b0100, 0b1000]);
    assert_eq!(board.regions, vec![1, 1, 1, 1, 2]);
    // turning the last of the four cuts it off
    board.pipes[3].click(true);
    board.update_regions(3);
    assert!(colors_in_order(&board));
    assert_eq!(board.pipes[0].target_color, 0);
    assert_eq!(board.pipes[1].target_color, 0);
    assert_eq!(board.pipes[2].target_color, 0);
    assert_ne!(board.pipes[3].target_color, 0);
}

#[test]
fn colors_stay_in_order_through_updates() {
    for seed in 0..6u64 {
        let mut board = GameBoard::new(SmallRng::seed_from_u64(seed));
        board.new_level(6, 5, 50);
        assert!(colors_in_order(&board));
        let mut pick = seed as usize;
        for step in 0..150usize {
            pick = (pick * 31 + 17) % 30;
            board.pipes[pick].click(step % 2 == 0);
            board.update_regions(pick);
            assert!(colors_in_order(&board));
        }
    }
}

#[test]
fn far_regions_keep_their_color() {
    let mut board = board_of(2, 4, vec![0b0001, 0b0100, 0, 0, 0, 0, 0b0001, 0b0100]);
    let before: Vec<u16> = board.pipes.iter().map(|p| p.target_color).collect();
    board.pipes[0].click(true);
    board.update_regions(0);
    for cell in 4..8 {
        assert_eq!(board.pipes[cell].target_color, before[cell]);
    }
    assert!(colors_in_order(&board));
}
