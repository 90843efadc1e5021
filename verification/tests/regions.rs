use pipemania::board::GameBoard;
use pipemania::grid::neighbor_of;
use rand::rngs::SmallRng;
use rand::SeedableRng;
use pipemania::tracker::holds;

fn board_of(width: u8, height: u8, maze: Vec<u8>) -> GameBoard {
    let mut board = GameBoard::new(SmallRng::seed_from_u64(7));
    let turns = vec![0u8; maze.len()];
    board.load_level(width, height, &maze, &turns);
    board
}

fn components(board: &GameBoard) -> Vec<usize> {
    let cells = board.pipes.len();
    let mut label = vec![usize::MAX; cells];
    for start in 0..cells {
        if label[start] != usize::MAX {
            continue;
        }
        label[start] = start;
        let mut stack = vec![start];
        while let Some(curr) = stack.pop() {
            for side in 0..4u8 {
                if let Some(next) = neighbor_of(board.width, board.height, curr, side) {
                    if label[next] == usize::MAX
                        && board.pipes[curr].shares_edge_with(&board.pipes[next], side)
                    {
                        label[next] = start;
                        stack.push(next);
                    }
                }
            }
        }
    }
    label
}

fn same_grouping(regions: &[u16], label: &[usize]) -> bool {
    for a in 0..regions.len() {
        for b in 0..regions.len() {
            if (regions[a] == regions[b]) != (label[a] == label[b]) {
                return false;
            }
        }
    }
    true
}

fn ids_in_order(board: &GameBoard) -> bool {
    let pool = &board.region_id_pool;
    for (k, id) in pool.iter().enumerate() {
        if *id == 0 || *id > board.number_regions || pool[..k].contains(id) {
            return false;
        }
    }
    for id in board.regions.iter() {
        if *id == 0 || *id > board.number_regions || pool.contains(id) {
            return false;
        }
    }
    for id in 1..=board.number_regions {
        if !pool.contains(&id) && !board.regions.contains(&id) {
            return false;
        }
    }
    true
}

#[test]
fn full_trace_numbers_regions_by_first_cell() {
    // two rows: a pair linked east-west, a lone blank, and a column pair
    let board = board_of(3, 2, vec![0b0001, 0b0100, 0b0010, 0, 0, 0b1000]);
    assert_eq!(board.regions, vec![1, 1, 2, 3, 4, 2]);
    assert_eq!(board.number_regions, 4);
    assert!(board.region_id_pool.is_empty());
}

#[test]
fn full_trace_colors_follow_ids() {
    let board = board_of(3, 2, vec![0b0001, 0b0100, 0b0010, 0, 0, 0b1000]);
    let colors: Vec<u16> = board.pipes.iter().map(|p| p.target_color).collect();
    assert_eq!(colors, vec![0, 0, 1, 2, 3, 1]);
    assert_eq!(board.number_colors, 4);
    assert!(board.color_pool.is_empty());
}

#[test]
fn dangling_openings_do_not_link() {
    // both open east, none open west
    let board = board_of(2, 1, vec![0b0001, 0b0001]);
    assert_eq!(board.regions, vec![1, 2]);
}

#[test]
fn full_trace_twice_gives_the_same_grouping() {
    let mut board = board_of(3, 3, vec![0b0011, 0b0101, 0b0110, 0b1010, 0, 0b1010, 0b1001, 0b0101, 0b1100]);
    let first = board.regions.clone();
    board.trace_regions();
    assert_eq!(board.regions, first);
    assert!(same_grouping(&board.regions, &components(&board)));
    assert!(ids_in_order(&board));
}

#[test]
fn full_trace_after_updates_gives_the_same_grouping() {
    let mut board = GameBoard::new(SmallRng::seed_from_u64(3));
    board.new_level(5, 4, 100);
    for step in 0..30usize {
        let cell = (step * 7) % 20;
        board.pipes[cell].click(step % 3 == 0);
        board.update_regions(cell);
    }
    let updated = board.regions.clone();
    board.trace_regions();
    for a in 0..20 {
        for b in 0..20 {
            assert_eq!(updated[a] == updated[b], board.regions[a] == board.regions[b]);
        }
    }
}

#[test]
fn trace_region_marks_the_connected_cells_only() {
    let mut board = board_of(3, 2, vec![0b0001, 0b0100, 0b0010, 0, 0, 0b1000]);
    board.trace_region(5, 9);
    assert_eq!(board.regions, vec![1, 1, 9, 3, 4, 9]);
    board.trace_region(3, 8);
    assert_eq!(board.regions, vec![1, 1, 9, 8, 4, 9]);
}

#[test]
fn next_region_id_counts_up_with_an_empty_pool() {
    let mut board = GameBoard::new(SmallRng::seed_from_u64(1));
    assert_eq!(board.next_region_id(0), 1);
    assert_eq!(board.next_region_id(5), 2);
    assert_eq!(board.number_regions, 2);
    assert!(board.region_id_pool.is_empty());
}

#[test]
fn next_region_id_prefers_the_wanted_id() {
    let mut board = GameBoard::new(SmallRng::seed_from_u64(1));
    board.number_regions = 6;
    board.region_id_pool = vec![2, 4, 6, 5];
    assert_eq!(board.next_region_id(4), 4);
    assert_eq!(board.region_id_pool, vec![2, 5, 6]);
    assert_eq!(board.next_region_id(0), 6);
    assert_eq!(board.region_id_pool, vec![2, 5]);
    assert_eq!(board.next_region_id(3), 5);
    assert_eq!(board.region_id_pool, vec![2]);
    assert_eq!(board.next_region_id(2), 2);
    assert!(board.region_id_pool.is_empty());
    assert_eq!(board.number_regions, 6);
    assert_eq!(board.next_region_id(2), 7);
}

#[test]
fn add_region_to_pool_skips_zero_and_repeats() {
    let mut board = GameBoard::new(SmallRng::seed_from_u64(1));
    board.add_region_to_pool(0);
    assert!(board.region_id_pool.is_empty());
    board.add_region_to_pool(3);
    board.add_region_to_pool(1);
    board.add_region_to_pool(3);
    assert_eq!(board.region_id_pool, vec![3, 1]);
}

#[test]
fn holds_finds_items() {
    assert!(holds(&vec![4, 9, 2], 9));
    assert!(!holds(&vec![4, 9, 2], 3));
    assert!(!holds(&vec![], 0));
}

#[test]
fn update_after_a_split_gives_a_new_id() {
    // a row of three linked cells; turning the middle one cuts it
    let mut board = board_of(3, 1, vec![0b0001, 0b0101, 0b0100]);
    assert_eq!(board.regions, vec![1, 1, 1]);
    board.pipes[1].click(true);
    board.update_regions(1);
    assert!(same_grouping(&board.regions, &components(&board)));
    assert!(ids_in_order(&board));
    // the cell to the east is traced first and keeps the id
    assert_eq!(board.regions, vec![2, 3, 1]);
    assert_ne!(board.regions[0], board.regions[1]);
    assert_ne!(board.regions[1], board.regions[2]);
    assert_ne!(board.regions[0], board.regions[2]);
    assert_eq!(board.number_regions, 3);
}

#[test]
fn update_after_a_merge_frees_an_id() {
    let mut board = board_of(3, 1, vec![0b0001, 0b1010, 0b0100]);
    assert_eq!(board.regions, vec![1, 2, 3]);
    board.pipes[1].click(true);
    board.update_regions(1);
    assert_eq!(board.regions[0], board.regions[1]);
    assert_eq!(board.regions[1], board.regions[2]);
    assert_eq!(board.number_regions, 3);
    assert_eq!(board.region_id_pool.len(), 2);
    assert!(ids_in_order(&board));
}

#[test]
fn update_leaves_far_regions_alone() {
    // the pair in the top row is turned; the pair in the bottom row is
    // neither next to it nor linked with it
    let mut board = board_of(2, 4, vec![0b0001, 0b0100, 0, 0, 0, 0, 0b0001, 0b0100]);
    let before = board.regions.clone();
    board.pipes[0].click(true);
    board.update_regions(0);
    assert_eq!(board.regions[6], before[6]);
    assert_eq!(board.regions[7], before[7]);
    assert_eq!(board.regions[4], before[4]);
    assert_eq!(board.regions[5], before[5]);
    assert!(same_grouping(&board.regions, &components(&board)));
}

#[test]
fn updates_keep_the_partition_and_the_pool() {
    for seed in 0..6u64 {
        let mut board = GameBoard::new(SmallRng::seed_from_u64(seed));
        board.new_level(6, 5, 50);
        assert!(same_grouping(&board.regions, &components(&board)));
        assert!(ids_in_order(&board));
        let mut pick = seed as usize;
        for step in 0..120usize {
            pick = (pick * 31 + 17) % 30;
            board.pipes[pick].click(step % 2 == 0);
            board.update_regions(pick);
            assert!(same_grouping(&board.regions, &components(&board)));
            assert!(ids_in_order(&board));
        }
    }
}

#[test]
fn updates_on_narrow_boards() {
    for (width, height) in [(1u8, 1u8), (1, 5), (5, 1), (2, 2), (2, 3)] {
        let mut board = GameBoard::new(SmallRng::seed_from_u64(11));
        board.new_level(width, height, 50);
        let cells = width as usize * height as usize;
        for step in 0..40usize {
            let pick = (step * 3 + 1) % cells;
            board.pipes[pick].click(true);
            board.update_regions(pick);
            assert!(same_grouping(&board.regions, &components(&board)));
            assert!(ids_in_order(&board));
        }
    }
}

#[test]
fn turning_a_cross_changes_nothing() {
    let mut maze = vec![0b0011u8, 0b0111, 0b0110, 0b1011, 0b1111, 0b1110, 0b1001, 0b1101, 0b1100];
    maze[2] = 0b0100;
    let mut board = board_of(3, 3, maze);
    board.pipes[0].click(true);
    board.update_regions(0);
    let regions = board.regions.clone();
    let colors: Vec<u16> = board.pipes.iter().map(|p| p.target_color).collect();
    for _ in 0..3 {
        board.pipes[4].click(true);
        board.update_regions(4);
        assert_eq!(board.regions, regions);
        let now: Vec<u16> = board.pipes.iter().map(|p| p.target_color).collect();
        assert_eq!(now, colors);
    }
}

#[test]
fn turning_without_a_split_or_merge_keeps_ids_and_colors() {
    // the end tile in the corner is turned between two sides that are
    // both closed next door
    let mut board = board_of(2, 2, vec![0b0001, 0b0100, 0b0001, 0b0100]);
    board.pipes[1].click(true);
    board.update_regions(1);
    let regions = board.regions.clone();
    let colors: Vec<u16> = board.pipes.iter().map(|p| p.target_color).collect();
    board.pipes[1].click(true);
    board.update_regions(1);
    assert_eq!(board.regions, regions);
    let now: Vec<u16> = board.pipes.iter().map(|p| p.target_color).collect();
    assert_eq!(now, colors);
}
