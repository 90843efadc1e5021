use pipemania::board::GameBoard;
use pipemania::grid::neighbor_of;
use pipemania::level::{random_turns, shape_of};
use pipemania::maze::{grow_tree, join, pick_side, remove_dead_ends};
use pipemania::pipe::{mask_opens, opposite_side, Pipe};
use rand::rngs::SmallRng;
use rand::SeedableRng;

fn links(width: u8, height: u8, grid: &[u8]) -> usize {
    let mut count = 0;
    for cell in 0..grid.len() {
        for side in 0..2u8 {
            if let Some(next) = neighbor_of(width, height, cell, side) {
                if mask_opens(grid[cell], side) && mask_opens(grid[next], opposite_side(side)) {
                    count += 1;
                }
            }
        }
    }
    count
}

fn all_matched(width: u8, height: u8, grid: &[u8]) -> bool {
    for cell in 0..grid.len() {
        if grid[cell] >= 16 {
            return false;
        }
        for side in 0..4u8 {
            if mask_opens(grid[cell], side) {
                match neighbor_of(width, height, cell, side) {
                    Some(next) => {
                        if !mask_opens(grid[next], opposite_side(side)) {
                            return false;
                        }
                    }
                    None => return false,
                }
            }
        }
    }
    true
}

fn all_connected(width: u8, height: u8, grid: &[u8]) -> bool {
    let mut seen = vec![false; grid.len()];
    let mut stack = vec![0usize];
    seen[0] = true;
    while let Some(curr) = stack.pop() {
        for side in 0..4u8 {
            if let Some(next) = neighbor_of(width, height, curr, side) {
                if !seen[next] && mask_opens(grid[curr], side) {
                    seen[next] = true;
                    stack.push(next);
                }
            }
        }
    }
    seen.iter().all(|s| *s)
}

#[test]
fn grown_maze_is_a_spanning_tree() {
    for seed in 0..20u64 {
        for (width, height) in [(4u8, 4u8), (1, 1), (1, 6), (7, 1), (2, 2), (5, 3), (9, 8)] {
            let mut rng = SmallRng::seed_from_u64(seed);
            let grid = grow_tree(width, height, &mut rng);
            let cells = width as usize * height as usize;
            assert_eq!(grid.len(), cells);
            assert!(all_matched(width, height, &grid));
            assert!(all_connected(width, height, &grid));
            assert_eq!(links(width, height, &grid), cells - 1);
        }
    }
}

#[test]
fn no_dead_end_is_left_beside_a_free_neighbor() {
    for seed in 0..20u64 {
        for (width, height) in [(4u8, 4u8), (1, 1), (1, 6), (7, 1), (2, 2), (5, 3), (9, 8)] {
            let mut rng = SmallRng::seed_from_u64(seed);
            let grid = GameBoard::gen_maze(width, height, &mut rng);
            assert!(all_matched(width, height, &grid));
            assert!(all_connected(width, height, &grid));
            for cell in 0..grid.len() {
                if grid[cell].count_ones() == 1 {
                    for side in 0..4u8 {
                        if neighbor_of(width, height, cell, side).is_some() {
                            assert!(mask_opens(grid[cell], side));
                        }
                    }
                }
            }
        }
    }
}

#[test]
fn wide_mazes_have_no_dead_ends() {
    for seed in 0..10u64 {
        let mut rng = SmallRng::seed_from_u64(seed);
        let grid = GameBoard::gen_maze(6, 6, &mut rng);
        for mask in grid.iter() {
            assert!(mask.count_ones() >= 2);
        }
    }
}

#[test]
fn dead_end_removal_keeps_the_links() {
    let mut rng = SmallRng::seed_from_u64(5);
    let tree = grow_tree(5, 5, &mut rng);
    let mut grid = tree.clone();
    remove_dead_ends(5, 5, &mut grid, &mut rng);
    for cell in 0..25 {
        assert_eq!(grid[cell] & tree[cell], tree[cell]);
    }
}

#[test]
fn seeds_differ() {
    let mut one = SmallRng::seed_from_u64(1);
    let mut two = SmallRng::seed_from_u64(2);
    let a = grow_tree(8, 8, &mut one);
    let b = grow_tree(8, 8, &mut two);
    assert_ne!(a, b);
    let mut again = SmallRng::seed_from_u64(1);
    assert_eq!(grow_tree(8, 8, &mut again), a);
}

#[test]
fn random_turns_are_quarters_and_vary() {
    let mut rng = SmallRng::seed_from_u64(9);
    let turns = random_turns(200, &mut rng);
    assert_eq!(turns.len(), 200);
    assert!(turns.iter().all(|t| *t < 4));
    for value in 0..4u8 {
        assert!(turns.contains(&value));
    }
}

#[test]
fn join_opens_both_sides() {
    let mut grid = vec![0u8; 4];
    join(2, 2, &mut grid, 0, 1, 0);
    assert_eq!(grid, vec![0b0001, 0b0100, 0, 0]);
    join(2, 2, &mut grid, 3, 1, 3);
    assert_eq!(grid, vec![0b0001, 0b0110, 0, 0b1000]);
}

#[test]
fn pick_side_takes_the_first_free_side_in_order() {
    let grid = vec![0b0001u8, 0b0100, 0, 0];
    assert_eq!(pick_side(2, 2, &grid, 0, &vec![3, 0, 1, 2], false), Some((1, 2)));
    assert_eq!(pick_side(2, 2, &grid, 3, &vec![3, 0, 1, 2], false), Some((2, 2)));
    assert_eq!(pick_side(2, 2, &grid, 3, &vec![3, 0, 1, 2], true), Some((3, 1)));
    assert_eq!(pick_side(2, 2, &grid, 0, &vec![0, 1, 2, 3], true), Some((1, 2)));
    let full = vec![0b0011u8, 0b0110, 0b1001, 0b1100];
    assert_eq!(pick_side(2, 2, &full, 0, &vec![0, 1, 2, 3], true), None);
    assert_eq!(pick_side(2, 2, &full, 0, &vec![0, 1, 2, 3], false), None);
}

#[test]
fn shape_of_every_mask() {
    for mask in 0..16u8 {
        let (kind, dir) = shape_of(mask);
        assert_eq!(Pipe::new(kind, dir).open_sides(), mask);
    }
    assert_eq!(shape_of(0), (5, 0));
    assert_eq!(shape_of(0b0110), (1, 1));
    assert_eq!(shape_of(0b1010), (2, 1));
    assert_eq!(shape_of(0b0111), (3, 3));
    assert_eq!(shape_of(200), (5, 0));
}

#[test]
fn dead_end_removal_adds_links_at_dead_ends_only() {
    for seed in 0..20u64 {
        for (width, height) in [(4u8, 4u8), (1, 6), (2, 2), (5, 3), (9, 8)] {
            let mut rng = SmallRng::seed_from_u64(seed);
            let tree = grow_tree(width, height, &mut rng);
            let mut grid = tree.clone();
            remove_dead_ends(width, height, &mut grid, &mut rng);
            let leaves = tree.iter().filter(|mask| mask.count_ones() == 1).count();
            assert!(links(width, height, &grid) <= links(width, height, &tree) + leaves);
            for cell in 0..grid.len() {
                for side in 0..4u8 {
                    if mask_opens(grid[cell], side) && !mask_opens(tree[cell], side) {
                        let next = neighbor_of(width, height, cell, side).unwrap();
                        assert!(tree[cell].count_ones() == 1 || tree[next].count_ones() == 1);
                    }
                }
            }
        }
    }
}
