use pipemania::board::{GameBoard, Phase};
use pipemania::play::Tick;
use rand::rngs::SmallRng;
use rand::SeedableRng;

fn board_of(width: u8, height: u8, maze: Vec<u8>, turns: Vec<u8>) -> GameBoard {
    let mut board = GameBoard::new(SmallRng::seed_from_u64(7));
    board.load_level(width, height, &maze, &turns);
    board
}

fn loop_of_elbows() -> GameBoard {
    board_of(2, 2, vec![0b0011, 0b0110, 0b1001, 0b1100], vec![0, 0, 0, 0])
}

#[test]
fn closed_loop_of_elbows_is_done() {
    let board = loop_of_elbows();
    assert!(board.check_is_done());
    assert_eq!(board.count_connections(), 4);
}

#[test]
fn loop_with_one_tile_turned_is_not_done() {
    for cell in 0..4 {
        for right in [true, false] {
            let mut board = loop_of_elbows();
            board.pipes[cell].click(right);
            board.update_regions(cell);
            assert!(!board.check_is_done());
        }
    }
}

#[test]
fn single_end_tile_never_wins() {
    for dir in 0..4u8 {
        let board = board_of(1, 1, vec![0b0001], vec![dir]);
        assert_eq!(board.pipes[0].kind, 0);
        assert_eq!(board.pipes[0].dir, dir);
        assert!(!board.check_is_done());
    }
}

#[test]
fn board_without_cells_is_not_done() {
    let board = GameBoard::new(SmallRng::seed_from_u64(1));
    assert!(!board.check_is_done());
    assert_eq!(board.count_connections(), 0);
}

#[test]
fn single_blank_tile_is_done() {
    let board = board_of(1, 1, vec![0], vec![0]);
    assert!(board.check_is_done());
}

#[test]
fn two_regions_are_not_done() {
    // two closed pairs, nothing dangling, but not connected
    let board = board_of(2, 2, vec![0b0001, 0b0100, 0b0001, 0b0100], vec![0, 0, 0, 0]);
    assert_eq!(board.count_connections(), 2);
    assert!(!board.check_is_done());
}

#[test]
fn opening_towards_the_rim_is_not_done() {
    // a row of two linked cells; the right one also opens east
    let board = board_of(2, 1, vec![0b0001, 0b0101], vec![0, 0]);
    assert_eq!(board.regions, vec![1, 1]);
    assert!(!board.check_is_done());
    // the left one also opens north
    let board = board_of(2, 1, vec![0b1001, 0b0100], vec![0, 0]);
    assert!(!board.check_is_done());
    // the left one also opens west
    let board = board_of(2, 1, vec![0b0101, 0b0100], vec![0, 0]);
    assert!(!board.check_is_done());
    // the right one also opens south
    let board = board_of(2, 1, vec![0b0001, 0b0110], vec![0, 0]);
    assert!(!board.check_is_done());
    let board = board_of(2, 1, vec![0b0001, 0b0100], vec![0, 0]);
    assert!(board.check_is_done());
}

#[test]
fn count_connections_counts_matched_pairs() {
    let board = board_of(3, 3, vec![0b0011, 0b0101, 0b0110, 0b1010, 0, 0b1010, 0b1001, 0b0101, 0b1100], vec![0; 9]);
    assert_eq!(board.count_connections(), 8);
    let board = board_of(3, 3, vec![0b0011, 0b0101, 0b0110, 0b1010, 0, 0b1010, 0b1001, 0b0101, 0b1100], vec![1; 9]);
    assert_eq!(board.count_connections(), 0);
    let board = board_of(2, 2, vec![0b1111; 4], vec![0; 4]);
    assert_eq!(board.count_connections(), 4);
}

#[test]
fn load_level_turns_the_tiles_on() {
    let board = board_of(2, 2, vec![0b0011, 0b0110, 0b1001, 0b1100], vec![1, 2, 3, 0]);
    let dirs: Vec<u8> = board.pipes.iter().map(|p| p.dir).collect();
    assert_eq!(dirs, vec![1, 3, 2, 2]);
    assert_eq!(board.expect_min_click_count, 1 + 2 + 1);
    assert_eq!(board.level, 1);
    assert_eq!(board.width, 2);
    assert_eq!(board.height, 2);
    assert_eq!(board.click_count, 0);
    assert_eq!(board.level_score, 0);
}

#[test]
fn new_board_is_blank() {
    let board = GameBoard::new(SmallRng::seed_from_u64(1));
    assert_eq!(board.width, 0);
    assert_eq!(board.height, 0);
    assert!(board.pipes.is_empty());
    assert_eq!(board.life, 10);
    assert_eq!(board.level, 0);
    assert_eq!(board.score, 0);
    assert_eq!(board.phase, Phase::Playing);
    assert!(board.sound_effects);
}

#[test]
fn reset_starts_level_one() {
    let mut board = GameBoard::new(SmallRng::seed_from_u64(4));
    board.score = 40;
    board.phase = Phase::Lost;
    board.reset(108);
    assert_eq!(board.width, 4);
    assert_eq!(board.height, 4);
    assert_eq!(board.pipes.len(), 16);
    assert_eq!(board.regions.len(), 16);
    assert_eq!(board.level, 1);
    assert_eq!(board.life, 108);
    assert_eq!(board.score, 0);
    assert_eq!(board.phase, Phase::Playing);
}

#[test]
fn reset_without_lives_is_lost() {
    let mut board = GameBoard::new(SmallRng::seed_from_u64(4));
    board.reset(0);
    assert_eq!(board.life, 0);
    assert_eq!(board.phase, Phase::Lost);
    board.reset(-5);
    assert_eq!(board.life, 0);
    assert_eq!(board.phase, Phase::Lost);
}

#[test]
fn new_level_can_be_solved_by_turning_back() {
    for seed in 0..8u64 {
        let mut board = GameBoard::new(SmallRng::seed_from_u64(seed));
        board.new_level(5, 5, 100);
        let mut solved = false;
        // every tile is at most three quarter turns away from its place
        let cells = board.pipes.len();
        let mut maze_like = board.pipes.clone();
        let mut min_clicks = 0;
        let mut rng = SmallRng::seed_from_u64(seed);
        let maze = GameBoard::gen_maze(5, 5, &mut rng);
        for cell in 0..cells {
            let mut turns = 0;
            while maze_like[cell].open_sides() != maze[cell] {
                maze_like[cell].click(true);
                turns += 1;
                assert!(turns < 4);
            }
            min_clicks += if turns <= 2 { turns } else { 4 - turns };
        }
        board.pipes = maze_like;
        board.trace_regions();
        if board.check_is_done() {
            solved = true;
        }
        assert!(solved);
        assert!(min_clicks <= board.expect_min_click_count);
    }
}

#[test]
fn add_life_never_goes_below_zero() {
    let mut board = GameBoard::new(SmallRng::seed_from_u64(1));
    board.add_life(5);
    assert_eq!(board.life, 15);
    assert_eq!(board.phase, Phase::Playing);
    board.add_life(-20);
    assert_eq!(board.life, 0);
    assert_eq!(board.phase, Phase::Lost);
}

#[test]
fn add_life_does_not_lose_a_won_game() {
    let mut board = GameBoard::new(SmallRng::seed_from_u64(1));
    board.trigger_win();
    board.add_life(-10);
    assert_eq!(board.life, 0);
    assert_eq!(board.phase, Phase::Won);
    board.trigger_lose();
    assert_eq!(board.phase, Phase::Lost);
}

#[test]
fn move_over_a_cell_asks_for_its_highlight() {
    let mut board = loop_of_elbows();
    let feedback = board.mouse_input(1, 1, 0);
    assert_eq!(feedback.highlight, Some(3));
    assert_eq!(feedback.rotated, None);
    assert_eq!(board.click_count, 0);
    assert_eq!(board.life, 10);
}

#[test]
fn pointer_outside_the_board_is_ignored() {
    let mut board = loop_of_elbows();
    for (x, y) in [(-1, 0), (0, -1), (2, 0), (0, 2), (100, 100), (i32::MIN, i32::MAX)] {
        for pressed in 0..3u8 {
            let feedback = board.mouse_input(x, y, pressed);
            assert_eq!(feedback.highlight, None);
            assert_eq!(feedback.rotated, None);
        }
    }
    assert_eq!(board.click_count, 0);
    assert_eq!(board.life, 10);
    assert!(board.check_is_done());
}

#[test]
fn left_click_turns_counter_clockwise() {
    let mut board = loop_of_elbows();
    let feedback = board.mouse_input(1, 0, 1);
    assert_eq!(feedback.rotated, Some(1));
    assert_eq!(board.pipes[1].dir, 0);
    assert_eq!(board.click_count, 1);
    assert_eq!(board.life, 9);
    assert!(!feedback.won);
    assert!(!feedback.lost);
    assert_eq!(board.phase, Phase::Playing);
}

#[test]
fn right_click_turns_clockwise() {
    let mut board = loop_of_elbows();
    let feedback = board.mouse_input(0, 1, 2);
    assert_eq!(feedback.rotated, Some(2));
    assert_eq!(board.pipes[2].dir, 0);
    assert_eq!(board.click_count, 1);
}

#[test]
fn click_that_solves_wins() {
    let mut board = board_of(2, 2, vec![0b0011, 0b0110, 0b1001, 0b1100], vec![0, 1, 0, 0]);
    assert!(!board.check_is_done());
    let feedback = board.mouse_input(1, 0, 1);
    assert!(feedback.won);
    assert!(!feedback.lost);
    assert_eq!(board.phase, Phase::Won);
    assert_eq!(board.score, 4);
    assert_eq!(board.level_score, 4);
    assert_eq!(board.life, 9);
    // a won board takes no more clicks
    let feedback = board.mouse_input(1, 0, 1);
    assert_eq!(feedback.rotated, None);
    assert_eq!(board.click_count, 1);
    assert_eq!(board.life, 9);
}

#[test]
fn winning_with_the_last_life_is_a_win() {
    let mut board = board_of(2, 2, vec![0b0011, 0b0110, 0b1001, 0b1100], vec![0, 1, 0, 0]);
    board.life = 1;
    let feedback = board.mouse_input(1, 0, 1);
    assert!(feedback.won);
    assert!(!feedback.lost);
    assert_eq!(board.life, 0);
    assert_eq!(board.phase, Phase::Won);
}

#[test]
fn last_life_lost_on_a_click() {
    let mut board = loop_of_elbows();
    board.life = 1;
    let feedback = board.mouse_input(0, 0, 1);
    assert!(feedback.lost);
    assert!(!feedback.won);
    assert_eq!(board.life, 0);
    assert_eq!(board.phase, Phase::Lost);
    let feedback = board.mouse_input(0, 0, 1);
    assert_eq!(feedback.rotated, None);
    assert_eq!(board.click_count, 1);
}

#[test]
fn score_only_grows() {
    for seed in 0..5u64 {
        let mut board = GameBoard::new(SmallRng::seed_from_u64(seed));
        board.reset(10_000);
        let mut last = board.score;
        let mut best = 0;
        let mut pick = 0i32;
        for step in 0..300 {
            pick = (pick * 5 + 3) % 16;
            let feedback = board.mouse_input(pick % 4, pick / 4, 1 + (step % 2) as u8);
            if feedback.rotated.is_none() {
                break;
            }
            let now = board.count_connections();
            if now > best {
                best = now;
            }
            assert!(board.score >= last);
            assert_eq!(board.level_score, best);
            assert_eq!(board.score, best);
            last = board.score;
        }
    }
}

#[test]
fn turning_back_and_forth_scores_once() {
    let mut board = board_of(2, 1, vec![0b0001, 0b0100], vec![1, 0]);
    assert_eq!(board.count_connections(), 0);
    board.life = 100;
    board.mouse_input(0, 0, 1);
    assert_eq!(board.score, 1);
    assert_eq!(board.phase, Phase::Won);
    board.phase = Phase::Playing;
    for _ in 0..8 {
        board.mouse_input(0, 0, 2);
        assert_eq!(board.score, 1);
        board.phase = Phase::Playing;
    }
}

#[test]
fn life_runs_out_with_time() {
    let mut board = loop_of_elbows();
    board.life = 2;
    assert!(!board.animate(Tick::LifeOut));
    assert_eq!(board.life, 1);
    assert_eq!(board.phase, Phase::Playing);
    assert!(!board.animate(Tick::LifeOut));
    assert_eq!(board.life, 0);
    assert_eq!(board.phase, Phase::Lost);
    assert!(!board.animate(Tick::LifeOut));
    assert_eq!(board.life, 0);
}

#[test]
fn time_stands_still_after_a_win() {
    let mut board = loop_of_elbows();
    board.trigger_win();
    assert!(!board.animate(Tick::LifeOut));
    assert_eq!(board.life, 10);
}

#[test]
fn next_level_is_one_wider_and_higher() {
    let mut board = GameBoard::new(SmallRng::seed_from_u64(2));
    board.reset(50);
    board.score = 17;
    assert!(!board.animate(Tick::WinOver(9)));
    assert_eq!(board.width, 4);
    board.trigger_win();
    assert!(board.animate(Tick::WinOver(9)));
    assert_eq!(board.width, 5);
    assert_eq!(board.height, 5);
    assert_eq!(board.pipes.len(), 25);
    assert_eq!(board.regions.len(), 25);
    assert_eq!(board.level, 2);
    assert_eq!(board.life, 59);
    assert_eq!(board.score, 17);
    assert_eq!(board.level_score, 0);
    assert_eq!(board.click_count, 0);
    assert_eq!(board.phase, Phase::Playing);
}
