use pipemania::audio_effect::WithIntro;
use pipemania::digits::number_to_digits;
use pipemania::input::{step, Input};

#[test]
fn intro_plays_first() {
    let player = WithIntro::new(1u8, 2u8);
    assert!(player.from_intro());
    assert_eq!(player.intro, 1);
    assert_eq!(player.music, 2);
}

#[test]
fn intro_that_fills_the_buffer_goes_on() {
    let mut player = WithIntro::new((), ());
    assert!(!player.intro_wrote(512, 512));
    assert!(player.from_intro());
}

#[test]
fn intro_that_falls_short_is_over() {
    let mut player = WithIntro::new((), ());
    assert!(player.intro_wrote(100, 512));
    assert!(!player.from_intro());
    assert!(!player.intro_wrote(0, 512));
    assert!(!player.from_intro());
}

#[test]
fn buttons_settle_frame_by_frame() {
    let mut input = Input::default();
    assert_eq!(input.mouse_left_state, 0);
    assert_eq!(input.mouse_rigth_state, 0);
    input.mouse_left_state = 1;
    input.mouse_rigth_state = 3;
    input.update();
    assert_eq!(input.mouse_left_state, 2);
    assert_eq!(input.mouse_rigth_state, 1);
    input.update();
    assert_eq!(input.mouse_left_state, 0);
    assert_eq!(input.mouse_rigth_state, 2);
    input.update();
    assert_eq!(input.mouse_left_state, 0);
    assert_eq!(input.mouse_rigth_state, 0);
}

#[test]
fn button_states() {
    assert_eq!(step(0), 0);
    assert_eq!(step(1), 2);
    assert_eq!(step(2), 0);
    assert_eq!(step(3), 1);
    assert_eq!(step(77), 0);
}

#[test]
fn numbers_are_written_in_decimal_digits() {
    assert_eq!(number_to_digits(0), vec![0]);
    assert_eq!(number_to_digits(7), vec![7]);
    assert_eq!(number_to_digits(10), vec![1, 0]);
    assert_eq!(number_to_digits(108), vec![1, 0, 8]);
    assert_eq!(number_to_digits(4294967295), vec![4, 2, 9, 4, 9, 6, 7, 2, 9, 5]);
    for number in [0u32, 9, 99, 100, 1234, 65025, 1000000] {
        let text: String = number_to_digits(number).iter().map(|d| (b'0' + d) as char).collect();
        assert_eq!(text, number.to_string());
    }
}
