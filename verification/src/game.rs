//! The game around the board: the menu, the switches for music and sound,
//! and what a frame of input leads to.
//!
//! The shell finds out what the pointer is over and where on the board it
//! is; what follows from a click is decided here.

use vstd::prelude::*;
use rand::rngs::SmallRng;
use crate::board::{GameBoard, Phase};
use crate::input::Input;
use crate::level::{fewest_clicks, laid_out};
use crate::maze::{grid_of, is_maze};
use crate::play::Feedback;

verus! {

/// The buttons that the pointer is over.
#[derive(Clone, Copy, Debug)]
pub struct Hover {
    /// The button that starts a game from the menu.
    pub start: bool,
    /// The button that closes the program from the menu.
    pub close: bool,
    /// The button that leads back to the menu.
    pub back: bool,
    /// The switch for the music.
    pub music: bool,
    /// The switch for the sound effects.
    pub audio: bool,
    /// The button that starts a lost game again.
    pub again: bool,
}

/// What a frame of input led to, for the shell to show and to play.
#[derive(Clone, Copy, Debug)]
pub struct Report {
    /// The music was switched on or off.
    pub music_switched: bool,
    /// The sound effects were switched on or off.
    pub audio_switched: bool,
    /// A game was started from the menu.
    pub started: bool,
    /// The program is to be closed.
    pub quit: bool,
    /// The game was left for the menu.
    pub left: bool,
    /// A lost game was started again.
    pub restarted: bool,
    /// What the pointer did on the board.
    pub feedback: Feedback,
}

/// The game: the board, the menu before it, and the switch for the music.
pub struct Game {
    /// The board.
    pub board: GameBoard,
    /// Whether the menu is shown instead of the board.
    pub in_menu: bool,
    /// Whether the music plays.
    pub music_on: bool,
}

/// What the buttons of the pointer mean to the board: 1 when the left one
/// has come up, else 2 when the right one has, else 0.
pub open spec fn pressed_spec(input: Input) -> u8 {
    if input.mouse_left_state == 3 {
        1
    } else if input.mouse_rigth_state == 3 {
        2
    } else {
        0
    }
}

/// A report of a frame in which nothing happened.
pub open spec fn quiet() -> Report {
    Report {
        music_switched: false,
        audio_switched: false,
        started: false,
        quit: false,
        left: false,
        restarted: false,
        feedback: Feedback { highlight: None, rotated: None, won: false, lost: false },
    }
}

impl Game {
    /// A game that shows its menu, with the music on.
    pub fn new(rng: SmallRng) -> (game: Game)
        ensures
            game.in_menu,
            game.music_on,
            game.board.wf(),
            game.board.pipes@.len() == 0,
            game.board.sound_effects,
            game.board.phase == Phase::Playing,
            game.board.life == 10,
            game.board.score == 0,
            game.board.level == 0,
            game.board.rng == rng,
    {
        Game { board: GameBoard::new(rng), in_menu: true, music_on: true }
    }

    /// Takes the input of a frame: the buttons of the pointer, the buttons
    /// on the screen that it is over, and the column `x` and row `y` of the
    /// board where it is. `bonus` are the lives that a game starts with.
    ///
    /// A left click on a switch turns the music or the sound effects on or
    /// off. In the menu a left click on the start button starts a game,
    /// one on the close button asks to quit. Outside the menu a left click
    /// on the back button leads to the menu; a lost game starts again with
    /// a left click on its button; in any other game the board takes the
    /// pointer as `mouse_input` says.
    pub fn update(&mut self, input: &Input, over: &Hover, x: i32, y: i32, bonus: i32) -> (report: Report)
        requires
            old(self).board.wf(),
            old(self).board.click_count < u32::MAX,
            old(self).board.score + 2 * old(self).board.pipes@.len() <= u32::MAX,
        ensures
            final(self).board.wf(),
            report.music_switched == (input.mouse_left_state == 3 && over.music),
            final(self).music_on == (old(self).music_on != report.music_switched),
            report.audio_switched == (input.mouse_left_state == 3 && over.audio),
            final(self).board.sound_effects == (old(self).board.sound_effects != report.audio_switched),
            report.started == (old(self).in_menu && input.mouse_left_state == 3 && over.start),
            report.quit == (old(self).in_menu && input.mouse_left_state == 3 && over.close),
            report.left == (!old(self).in_menu && input.mouse_left_state == 3 && over.back),
            report.restarted == (!old(self).in_menu && old(self).board.phase == Phase::Lost
                && input.mouse_left_state == 3 && over.again),
            final(self).in_menu == if old(self).in_menu {
                !report.started
            } else {
                report.left
            },
            report.started || report.restarted ==> {
                &&& final(self).board.freshly_traced()
                &&& final(self).board.width == 4
                &&& final(self).board.height == 4
                &&& final(self).board.level == 1
                &&& final(self).board.score == 0
                &&& final(self).board.level_score == 0
                &&& final(self).board.click_count == 0
                &&& final(self).board.life == crate::play::lives_after(0, bonus)
                &&& final(self).board.phase == crate::play::phase_after(Phase::Playing, final(self).board.life)
                &&& exists|maze: Seq<u8>, turns: Seq<u8>|
                    {
                        &&& is_maze(grid_of(4, 4, maze))
                        &&& forall|i: int| 0 <= i < turns.len() ==> #[trigger] turns[i] < 4
                        &&& #[trigger] laid_out(final(self).board.pipes@, maze, turns)
                        &&& final(self).board.expect_min_click_count == fewest_clicks(turns)
                    }
                &&& report.feedback == quiet().feedback
            },
            !report.started && !report.restarted ==> {
                &&& final(self).board.score >= old(self).board.score
                &&& final(self).board.level_score >= old(self).board.level_score
                &&& final(self).board.score - old(self).board.score == final(self).board.level_score - old(self).board.level_score
            },
            old(self).in_menu && !report.started ==> {
                &&& final(self).board == (GameBoard {
                    sound_effects: final(self).board.sound_effects,
                    ..old(self).board
                })
                &&& report.feedback == quiet().feedback
            },
            !old(self).in_menu && old(self).board.phase == Phase::Lost && !report.restarted ==> {
                &&& final(self).board == (GameBoard {
                    sound_effects: final(self).board.sound_effects,
                    ..old(self).board
                })
                &&& report.feedback == quiet().feedback
            },
            !old(self).in_menu && old(self).board.phase == Phase::Won ==> {
                &&& final(self).board == (GameBoard {
                    sound_effects: final(self).board.sound_effects,
                    ..old(self).board
                })
                &&& report.feedback == quiet().feedback
            },
            !old(self).in_menu && old(self).board.phase == Phase::Playing ==> {
                let was = GameBoard { sound_effects: final(self).board.sound_effects, ..old(self).board };
                let cell = crate::play::cell_at(was.width, was.height, x, y);
                &&& cell is None || pressed_spec(*input) == 0 ==> final(self).board == was
                &&& cell is None ==> report.feedback == quiet().feedback
                &&& cell is Some && pressed_spec(*input) == 0 ==> report.feedback == (Feedback {
                    highlight: Some(cell->0 as usize),
                    ..quiet().feedback
                })
                &&& cell is Some && pressed_spec(*input) != 0 ==> {
                    &&& was.clicked(&final(self).board, cell->0, pressed_spec(*input) != 1)
                    &&& report.feedback.highlight is None
                    &&& report.feedback.rotated == Some(cell->0 as usize)
                    &&& report.feedback.won == final(self).board.solved()
                    &&& report.feedback.lost == (final(self).board.phase == Phase::Lost)
                }
            },
    {
        let mut report = Report {
            music_switched: false,
            audio_switched: false,
            started: false,
            quit: false,
            left: false,
            restarted: false,
            feedback: Feedback { highlight: None, rotated: None, won: false, lost: false },
        };
        let released = input.mouse_left_state == 3;
        if released {
            if over.music {
                self.music_on = !self.music_on;
                report.music_switched = true;
            }
            if over.audio {
                let ghost before = self.board;
                self.board.sound_effects = !self.board.sound_effects;
                report.audio_switched = true;
                proof {
                    self.board.lemma_same_tiles(&before);
                    self.board.lemma_colored_as(&before);
                }
            }
        }
        if self.in_menu {
            if released && over.start {
                self.in_menu = false;
                self.board.reset(bonus);
                report.started = true;
            }
            report.quit = released && over.close;
        } else {
            if released && over.back {
                self.in_menu = true;
                report.left = true;
            }
            if self.board.phase == Phase::Lost {
                if released && over.again {
                    self.board.reset(bonus);
                    report.restarted = true;
                }
            } else {
                let pressed: u8 = if input.mouse_left_state == 3 {
                    1
                } else if input.mouse_rigth_state == 3 {
                    2
                } else {
                    0
                };
                report.feedback = self.board.mouse_input(x, y, pressed);
            }
        }
        report
    }
}

} // verus!
