use pipemania::board::Phase;
use pipemania::game::{Game, Hover};
use pipemania::input::Input;
use rand::rngs::SmallRng;
use rand::SeedableRng;

fn nowhere() -> Hover {
    Hover { start: false, close: false, back: false, music: false, audio: false, again: false }
}

fn left_up() -> Input {
    Input { mouse_left_state: 3, mouse_rigth_state: 0 }
}

fn right_up() -> Input {
    Input { mouse_left_state: 0, mouse_rigth_state: 3 }
}

fn idle() -> Input {
    Input { mouse_left_state: 0, mouse_rigth_state: 0 }
}

fn started() -> Game {
    let mut game = Game::new(SmallRng::seed_from_u64(3));
    let over = Hover { start: true, ..nowhere() };
    let report = game.update(&left_up(), &over, -1, -1, 108);
    assert!(report.started);
    game
}

#[test]
fn game_begins_in_the_menu() {
    let game = Game::new(SmallRng::seed_from_u64(3));
    assert!(game.in_menu);
    assert!(game.music_on);
    assert!(game.board.sound_effects);
    assert!(game.board.pipes.is_empty());
}

#[test]
fn nothing_happens_without_a_click() {
    let mut game = Game::new(SmallRng::seed_from_u64(3));
    let over = Hover { start: true, close: true, music: true, audio: true, ..nowhere() };
    for input in [idle(), right_up(), Input { mouse_left_state: 1, mouse_rigth_state: 0 }] {
        let report = game.update(&input, &over, 0, 0, 108);
        assert!(!report.started && !report.quit && !report.music_switched && !report.audio_switched);
        assert!(game.in_menu);
        assert!(game.music_on);
        assert!(game.board.pipes.is_empty());
    }
}

#[test]
fn start_button_starts_a_game() {
    let game = started();
    assert!(!game.in_menu);
    assert_eq!(game.board.width, 4);
    assert_eq!(game.board.height, 4);
    assert_eq!(game.board.level, 1);
    assert_eq!(game.board.life, 108);
    assert_eq!(game.board.phase, Phase::Playing);
}

#[test]
fn close_button_asks_to_quit_in_the_menu_only() {
    let mut game = Game::new(SmallRng::seed_from_u64(3));
    let over = Hover { close: true, ..nowhere() };
    assert!(game.update(&left_up(), &over, -1, -1, 108).quit);
    let mut game = started();
    assert!(!game.update(&left_up(), &over, -1, -1, 108).quit);
}

#[test]
fn switches_toggle() {
    let mut game = Game::new(SmallRng::seed_from_u64(3));
    let over = Hover { music: true, ..nowhere() };
    assert!(game.update(&left_up(), &over, -1, -1, 108).music_switched);
    assert!(!game.music_on);
    assert!(game.update(&left_up(), &over, -1, -1, 108).music_switched);
    assert!(game.music_on);
    let over = Hover { audio: true, ..nowhere() };
    assert!(game.update(&left_up(), &over, -1, -1, 108).audio_switched);
    assert!(!game.board.sound_effects);
    let mut game = started();
    assert!(game.update(&left_up(), &over, -1, -1, 108).audio_switched);
    assert!(!game.board.sound_effects);
    assert!(game.update(&left_up(), &over, -1, -1, 108).audio_switched);
    assert!(game.board.sound_effects);
}

#[test]
fn back_button_leads_to_the_menu() {
    let mut game = started();
    let over = Hover { back: true, ..nowhere() };
    let report = game.update(&left_up(), &over, -1, -1, 108);
    assert!(report.left);
    assert!(game.in_menu);
    assert_eq!(game.board.level, 1);
    // and the start button starts anew
    let over = Hover { start: true, ..nowhere() };
    game.board.score = 9;
    assert!(game.update(&left_up(), &over, -1, -1, 50).started);
    assert_eq!(game.board.score, 0);
    assert_eq!(game.board.life, 50);
}

#[test]
fn clicks_reach_the_board() {
    let mut game = started();
    let before = game.board.pipes[5].dir;
    let report = game.update(&left_up(), &nowhere(), 1, 1, 108);
    assert_eq!(report.feedback.rotated, Some(5));
    assert_eq!(game.board.pipes[5].dir, (before + 3) % 4);
    assert_eq!(game.board.life, 107);
    let report = game.update(&right_up(), &nowhere(), 1, 1, 108);
    assert_eq!(report.feedback.rotated, Some(5));
    assert_eq!(game.board.pipes[5].dir, before);
    let report = game.update(&idle(), &nowhere(), 3, 2, 108);
    assert_eq!(report.feedback.highlight, Some(11));
    assert_eq!(game.board.click_count, 2);
}

#[test]
fn clicks_in_the_menu_do_not_reach_the_board() {
    let mut game = started();
    let over = Hover { back: true, ..nowhere() };
    game.update(&left_up(), &over, -1, -1, 108);
    let report = game.update(&left_up(), &nowhere(), 1, 1, 108);
    assert_eq!(report.feedback.rotated, None);
    assert_eq!(game.board.click_count, 0);
}

#[test]
fn lost_game_starts_again_on_its_button() {
    let mut game = started();
    game.board.add_life(-1000);
    assert_eq!(game.board.phase, Phase::Lost);
    let report = game.update(&left_up(), &nowhere(), 1, 1, 108);
    assert!(!report.restarted);
    assert_eq!(report.feedback.rotated, None);
    let over = Hover { again: true, ..nowhere() };
    let report = game.update(&right_up(), &over, 1, 1, 108);
    assert!(!report.restarted);
    let report = game.update(&left_up(), &over, 1, 1, 108);
    assert!(report.restarted);
    assert_eq!(game.board.phase, Phase::Playing);
    assert_eq!(game.board.life, 108);
    assert_eq!(game.board.level, 1);
}

#[test]
fn again_button_does_nothing_while_playing() {
    let mut game = started();
    let over = Hover { again: true, ..nowhere() };
    let report = game.update(&left_up(), &over, -1, -1, 108);
    assert!(!report.restarted);
    assert_eq!(game.board.life, 108);
}
